//! The manifest of installed packages.
//!
//! The manifest is persisted as plain text, one package name per line, and
//! is the sole record of what is installed.  The functions here compute on
//! that text: reading it back as a set of names, appending a freshly
//! installed name, and rewriting the text without a removed name.  The
//! caller owns the file itself and hands the text in and out unchanged.

use vstd::prelude::*;
use vstd::string::*;
use crate::errors::PkgError;
use crate::text::contains_string;

verus! {

/// The lines of a text, split on `'\n'`.  A trailing newline closes the
/// last line rather than opening a new blank one, so `"a\n"` has the single
/// line `"a"`, as `"a"` does.
pub open spec fn lines_of(t: Seq<char>) -> Seq<Seq<char>>
    decreases t.len(),
{
    if t.len() == 0 {
        Seq::empty()
    } else if t[0] == '\n' {
        seq![Seq::<char>::empty()] + lines_of(t.skip(1))
    } else {
        let rest = lines_of(t.skip(1));
        if rest.len() == 0 {
            seq![seq![t[0]]]
        } else {
            seq![seq![t[0]] + rest[0]] + rest.skip(1)
        }
    }
}

/// The set of installed names a manifest text denotes: its non-blank
/// lines, duplicates collapsed.
pub open spec fn manifest_set(t: Seq<char>) -> Set<Seq<char>> {
    Set::new(|n: Seq<char>| n.len() > 0 && lines_of(t).contains(n))
}

/// A name the manifest can represent as one line: non-empty and without a
/// line break.
pub open spec fn valid_name(n: Seq<char>) -> bool {
    n.len() > 0 && forall|i: int| 0 <= i < n.len() ==> n[i] != '\n'
}

proof fn lemma_lines_nonempty(t: Seq<char>)
    requires
        t.len() > 0,
    ensures
        lines_of(t).len() > 0,
{
}

proof fn lemma_lines_concat(a: Seq<char>, b: Seq<char>)
    requires
        a.len() == 0 || a[a.len() - 1] == '\n',
    ensures
        lines_of(a + b) == lines_of(a) + lines_of(b),
    decreases a.len(),
{
    if a.len() == 0 {
        assert(a + b =~= b);
        assert(lines_of(a) + lines_of(b) =~= lines_of(b));
    } else if a[0] == '\n' {
        lemma_lines_concat(a.skip(1), b);
        assert((a + b).skip(1) =~= a.skip(1) + b);
        assert(lines_of(a + b) =~= lines_of(a) + lines_of(b));
    } else {
        lemma_lines_concat(a.skip(1), b);
        lemma_lines_nonempty(a.skip(1));
        assert((a + b).skip(1) =~= a.skip(1) + b);
        let ra = lines_of(a.skip(1));
        let rb = lines_of(b);
        assert((ra + rb).skip(1) =~= ra.skip(1) + rb);
        assert(lines_of(a + b) =~= lines_of(a) + lines_of(b));
    }
}

proof fn lemma_lines_single(n: Seq<char>)
    requires
        forall|i: int| 0 <= i < n.len() ==> n[i] != '\n',
    ensures
        lines_of(n + seq!['\n']) == seq![n],
    decreases n.len(),
{
    let t = n + seq!['\n'];
    if n.len() == 0 {
        reveal_with_fuel(lines_of, 3);
        assert(t.skip(1) =~= Seq::<char>::empty());
        assert(n =~= Seq::<char>::empty());
        assert(lines_of(t) =~= seq![n]);
    } else {
        lemma_lines_single(n.skip(1));
        assert(t.skip(1) =~= n.skip(1) + seq!['\n']);
        lemma_lines_nonempty(t.skip(1));
        assert(seq![t[0]] + n.skip(1) =~= n);
        assert(lines_of(t) =~= seq![n]);
    }
}

proof fn lemma_lines_terminator(t: Seq<char>)
    requires
        t.len() > 0,
        t[t.len() - 1] != '\n',
    ensures
        lines_of(t + seq!['\n']) == lines_of(t),
    decreases t.len(),
{
    let u = t + seq!['\n'];
    if t.len() == 1 {
        reveal_with_fuel(lines_of, 3);
        assert(u.skip(1) =~= seq!['\n']);
        assert(seq![t[0]] + Seq::<char>::empty() =~= seq![t[0]]);
        assert(lines_of(u) =~= lines_of(t));
    } else if t[0] == '\n' {
        lemma_lines_terminator(t.skip(1));
        assert(u.skip(1) =~= t.skip(1) + seq!['\n']);
        assert(lines_of(u) =~= lines_of(t));
    } else {
        lemma_lines_terminator(t.skip(1));
        lemma_lines_nonempty(t.skip(1));
        assert(u.skip(1) =~= t.skip(1) + seq!['\n']);
        assert(lines_of(u) =~= lines_of(t));
    }
}

/// Every line produced by `lines_of` is free of `'\n'`.
proof fn lemma_lines_chars(t: Seq<char>)
    ensures
        forall|j: int, c: int|
            0 <= j < lines_of(t).len() && 0 <= c < lines_of(t)[j].len()
                ==> lines_of(t)[j][c] != '\n',
    decreases t.len(),
{
    if t.len() == 0 {
    } else if t[0] == '\n' {
        lemma_lines_chars(t.skip(1));
        assert forall|j: int, c: int|
            0 <= j < lines_of(t).len() && 0 <= c < lines_of(t)[j].len()
                implies lines_of(t)[j][c] != '\n' by {
            if j > 0 {
                assert(lines_of(t)[j] == lines_of(t.skip(1))[j - 1]);
            }
        }
    } else {
        lemma_lines_chars(t.skip(1));
        let rest = lines_of(t.skip(1));
        assert forall|j: int, c: int|
            0 <= j < lines_of(t).len() && 0 <= c < lines_of(t)[j].len()
                implies lines_of(t)[j][c] != '\n' by {
            if rest.len() == 0 {
                assert(lines_of(t)[j] == seq![t[0]]);
            } else if j == 0 {
                assert(lines_of(t)[0] == seq![t[0]] + rest[0]);
                if c > 0 {
                    assert((seq![t[0]] + rest[0])[c] == rest[0][c - 1]);
                }
            } else {
                assert(lines_of(t)[j] == rest[j]);
            }
        }
    }
}

/// Appending one well-formed line to a text that ends at a line boundary
/// adds exactly that name to the manifest.
proof fn lemma_manifest_append_line(base: Seq<char>, name: Seq<char>)
    requires
        base.len() == 0 || base[base.len() - 1] == '\n',
        valid_name(name),
    ensures
        lines_of(base + (name + seq!['\n'])) == lines_of(base) + seq![name],
        manifest_set(base + (name + seq!['\n'])) == manifest_set(base).insert(name),
{
    lemma_lines_concat(base, name + seq!['\n']);
    lemma_lines_single(name);
    let u = base + (name + seq!['\n']);
    let all = lines_of(base) + seq![name];
    assert(lines_of(u) == all);
    assert forall|x: Seq<char>| #[trigger] manifest_set(u).contains(x)
        implies manifest_set(base).insert(name).contains(x) by {
        let i = choose|i: int| 0 <= i < all.len() && all[i] == x;
        if i < lines_of(base).len() {
            assert(lines_of(base)[i] == x);
        } else {
            assert(x == name);
        }
    }
    assert forall|x: Seq<char>| manifest_set(base).insert(name).contains(x)
        implies #[trigger] manifest_set(u).contains(x) by {
        if x == name {
            assert(all[lines_of(base).len() as int] == name);
        } else {
            let i = choose|i: int| 0 <= i < lines_of(base).len() && lines_of(base)[i] == x;
            assert(all[i] == x);
        }
    }
    assert(manifest_set(u) =~= manifest_set(base).insert(name));
}

/// Split a manifest text into its lines.
pub fn split_lines(text: &str) -> (r: Vec<String>)
    ensures
        r.deep_view() == lines_of(text@),
{
    let n = text.unicode_len();
    let mut out: Vec<String> = Vec::new();
    let mut start: usize = 0;
    let mut i: usize = 0;
    proof {
        assert(text@.skip(0) =~= text@);
        assert(out.deep_view() + lines_of(text@) =~= lines_of(text@));
    }
    while i < n
        invariant
            start <= i <= n,
            n == text@.len(),
            forall|k: int| start <= k < i ==> text@[k] != '\n',
            lines_of(text@) == out.deep_view() + lines_of(text@.skip(start as int)),
        decreases n - i,
    {
        if text.get_char(i) == '\n' {
            let line = text.substring_char(start, i).to_owned();
            let ghost prev = out.deep_view();
            let ghost linev = text@.subrange(start as int, i as int);
            out.push(line);
            proof {
                let tail = text@.skip(start as int);
                assert(tail =~= (linev + seq!['\n']) + text@.skip(i + 1));
                lemma_lines_concat(linev + seq!['\n'], text@.skip(i + 1));
                lemma_lines_single(linev);
                assert(lines_of(tail) == seq![linev] + lines_of(text@.skip(i + 1)));
                assert(out.deep_view() =~= prev.push(linev));
                assert(prev + (seq![linev] + lines_of(text@.skip(i + 1)))
                    =~= prev.push(linev) + lines_of(text@.skip(i + 1)));
            }
            start = i + 1;
        }
        i += 1;
    }
    if start < n {
        let line = text.substring_char(start, n).to_owned();
        let ghost prev = out.deep_view();
        let ghost linev = text@.subrange(start as int, n as int);
        out.push(line);
        proof {
            let tail = text@.skip(start as int);
            assert(tail =~= linev);
            lemma_lines_no_newline(tail);
            assert(out.deep_view() =~= prev.push(linev));
            assert(prev + seq![tail] =~= prev.push(linev));
            assert(out.deep_view() + lines_of(Seq::<char>::empty()) =~= out.deep_view());
            assert(lines_of(text@) == out.deep_view());
        }
    } else {
        proof {
            assert(text@.skip(start as int) =~= Seq::<char>::empty());
            assert(out.deep_view() + lines_of(text@.skip(start as int)) =~= out.deep_view());
        }
    }
    out
}

/// Append a freshly installed name to the manifest text as one new line.
///
/// Duplicate entries are possible in the backing text if a name is recorded
/// twice; membership is set-based, so the manifest still denotes the same
/// names, recorded exactly once each.
pub fn record_installed(text: &String, name: &String) -> (r: String)
    requires
        valid_name(name@),
    ensures
        manifest_set(r@) == manifest_set(text@).insert(name@),
        (text@.len() == 0 || text@[text@.len() - 1] == '\n') ==> r@ == text@ + name@
            + seq!['\n'],
{
    proof {
        reveal_strlit("\n");
    }
    let mut r = text.clone();
    let n = text.as_str().unicode_len();
    let ghost mut base: Seq<char> = text@;
    if n > 0 && text.as_str().get_char(n - 1) != '\n' {
        r.append("\n");
        proof {
            base = text@ + seq!['\n'];
            assert("\n"@ =~= seq!['\n']);
            assert(r@ =~= base);
            lemma_lines_terminator(text@);
            assert(manifest_set(base) =~= manifest_set(text@));
        }
    }
    r.append(name.as_str());
    r.append("\n");
    proof {
        assert("\n"@ =~= seq!['\n']);
        assert(r@ =~= base + (name@ + seq!['\n']));
        lemma_manifest_append_line(base, name@);
        assert(manifest_set(r@) == manifest_set(text@).insert(name@));
        if text@.len() == 0 || text@[text@.len() - 1] == '\n' {
            assert(r@ =~= text@ + name@ + seq!['\n']);
        }
    }
    r
}

/// Rewrite the manifest text without `name`, or report that the name was
/// never installed.  The rewritten text carries every remaining name, one
/// per line, blank lines dropped.
pub fn record_removed(text: &String, name: &String) -> (r: Result<String, PkgError>)
    requires
        valid_name(name@),
    ensures
        manifest_set(text@).contains(name@) <==> r is Ok,
        r matches Ok(u) ==> manifest_set(u@) == manifest_set(text@).remove(name@),
        r matches Err(e) ==> e == PkgError::NotInstalled,
{
    let lines = split_lines(text.as_str());
    if !contains_string(&lines, name) {
        return Err(PkgError::NotInstalled);
    }
    let ghost all = lines.deep_view();
    proof {
        lemma_lines_chars(text@);
    }
    let mut out = String::new();
    let mut i: usize = 0;
    while i < lines.len()
        invariant
            i <= lines@.len(),
            all == lines.deep_view(),
            all == lines_of(text@),
            valid_name(name@),
            forall|j: int, c: int| 0 <= j < all.len() && 0 <= c < all[j].len()
                ==> all[j][c] != '\n',
            out@.len() == 0 || out@[out@.len() - 1] == '\n',
            forall|x: Seq<char>| #[trigger] manifest_set(out@).contains(x)
                ==> x != name@ && all.take(i as int).contains(x),
            forall|x: Seq<char>| x.len() > 0 && x != name@ && #[trigger] all.take(
                i as int,
            ).contains(x) ==> manifest_set(out@).contains(x),
        decreases lines@.len() - i,
    {
        let keep = !lines[i].as_str().is_empty() && !lines[i].eq(name);
        let ghost prevout = out@;
        let ghost linev = all[i as int];
        proof {
            assert(linev == lines@[i as int]@);
        }
        if keep {
            proof {
                reveal_strlit("\n");
            }
            out.append(lines[i].as_str());
            out.append("\n");
            proof {
                assert("\n"@ =~= seq!['\n']);
                assert(out@ =~= prevout + (linev + seq!['\n']));
                lemma_manifest_append_line(prevout, linev);
            }
        }
        i += 1;
        proof {
            assert(all.take(i as int) =~= all.take(i - 1).push(linev));
            assert forall|x: Seq<char>| x.len() > 0 && x != name@ && #[trigger] all.take(
                i as int,
            ).contains(x) implies manifest_set(out@).contains(x) by {
                let j = choose|j: int| 0 <= j < i && all.take(i as int)[j] == x;
                if j < i - 1 {
                    assert(all.take(i - 1)[j] == x);
                    assert(all.take(i - 1).contains(x));
                    assert(manifest_set(prevout).contains(x));
                } else {
                    assert(x == linev);
                    assert(keep);
                }
            }
            assert forall|x: Seq<char>| #[trigger] manifest_set(out@).contains(x)
                implies x != name@ && all.take(i as int).contains(x) by {
                if keep && x == linev {
                    assert(x != name@);
                    assert(all.take(i as int)[i - 1] == x);
                    assert(all.take(i as int).contains(x));
                } else {
                    assert(manifest_set(prevout).contains(x));
                    let j = choose|j: int| 0 <= j < i - 1 && #[trigger] all.take(i - 1)[j]
                        == x;
                    assert(all.take(i as int)[j] == x);
                    assert(all.take(i as int).contains(x));
                }
            }
        }
    }
    proof {
        assert(all.take(lines@.len() as int) =~= all);
        assert forall|x: Seq<char>| #[trigger] manifest_set(out@).contains(x)
            <==> manifest_set(text@).remove(name@).contains(x) by {
            if x.len() > 0 && x != name@ && lines_of(text@).contains(x) {
                assert(manifest_set(out@).contains(x));
            }
        }
        assert(manifest_set(out@) =~= manifest_set(text@).remove(name@));
    }
    Ok(out)
}

/// Read the manifest text back as the set of installed names: its
/// non-blank lines, each reported once.
pub fn list_installed(text: &str) -> (r: Vec<String>)
    ensures
        forall|k: int| 0 <= k < r@.len() ==> manifest_set(text@).contains(
            #[trigger] r.deep_view()[k],
        ),
        forall|x: Seq<char>| #[trigger] manifest_set(text@).contains(x)
            ==> r.deep_view().contains(x),
        forall|k1: int, k2: int| 0 <= k1 < k2 < r@.len() ==> r.deep_view()[k1]
            != r.deep_view()[k2],
{
    let lines = split_lines(text);
    let ghost all = lines.deep_view();
    let mut out: Vec<String> = Vec::new();
    let mut i: usize = 0;
    while i < lines.len()
        invariant
            i <= lines@.len(),
            all == lines.deep_view(),
            all == lines_of(text@),
            forall|k: int| 0 <= k < out@.len() ==> (#[trigger] out.deep_view()[k]).len() > 0
                && all.contains(out.deep_view()[k]),
            forall|x: Seq<char>| x.len() > 0 && #[trigger] all.take(i as int).contains(x)
                ==> out.deep_view().contains(x),
            forall|k1: int, k2: int| 0 <= k1 < k2 < out@.len() ==> out.deep_view()[k1]
                != out.deep_view()[k2],
        decreases lines@.len() - i,
    {
        let ghost prevout = out.deep_view();
        let ghost linev = all[i as int];
        proof {
            assert(linev == lines@[i as int]@);
        }
        let nonblank = !lines[i].as_str().is_empty();
        let listed = if nonblank {
            contains_string(&out, &lines[i])
        } else {
            true
        };
        if nonblank && !listed {
            let entry = lines[i].clone();
            out.push(entry);
            proof {
                assert(out.deep_view() =~= prevout.push(linev));
                assert(all.contains(linev)) by {
                    assert(all[i as int] == linev);
                }
                assert forall|k1: int, k2: int| 0 <= k1 < k2 < out.deep_view().len()
                    implies out.deep_view()[k1] != out.deep_view()[k2] by {
                    if k2 == prevout.len() {
                        if out.deep_view()[k1] == linev {
                            assert(prevout[k1] == linev);
                            assert(prevout.contains(linev));
                        }
                    }
                }
            }
        }
        i += 1;
        proof {
            assert(all.take(i as int) =~= all.take(i - 1).push(linev));
            assert forall|x: Seq<char>| x.len() > 0 && #[trigger] all.take(i as int).contains(
                x,
            ) implies out.deep_view().contains(x) by {
                let j = choose|j: int| 0 <= j < i && all.take(i as int)[j] == x;
                if j < i - 1 {
                    assert(all.take(i - 1)[j] == x);
                    assert(all.take(i - 1).contains(x));
                    assert(prevout.contains(x));
                    let k = choose|k: int| 0 <= k < prevout.len() && #[trigger] prevout[k] == x;
                    assert(out.deep_view()[k] == x);
                    assert(out.deep_view().contains(x));
                } else {
                    assert(x == linev);
                    if nonblank && !listed {
                        assert(out.deep_view()[prevout.len() as int] == x);
                        assert(out.deep_view().contains(x));
                    } else {
                        assert(prevout.contains(linev));
                        let k = choose|k: int| 0 <= k < prevout.len() && #[trigger] prevout[k]
                            == x;
                        assert(out.deep_view()[k] == x);
                        assert(out.deep_view().contains(x));
                    }
                }
            }
        }
    }
    proof {
        assert(all.take(lines@.len() as int) =~= all);
        assert forall|x: Seq<char>| #[trigger] manifest_set(text@).contains(x)
            implies out.deep_view().contains(x) by {}
    }
    out
}

/// The removal law: once a manifest denotes the old set minus a name, that
/// name is no longer listed, and every other name still is.
pub proof fn lemma_removed_not_listed(t0: Seq<char>, t1: Seq<char>, name: Seq<char>)
    requires
        manifest_set(t1) == manifest_set(t0).remove(name),
    ensures
        !manifest_set(t1).contains(name),
        forall|x: Seq<char>| x != name ==> (manifest_set(t1).contains(x)
            <==> manifest_set(t0).contains(x)),
{
}

/// The idempotence law: recording a name that a manifest already denotes
/// leaves the denoted set unchanged, so the name is listed exactly once as
/// a set member however often it was recorded.
pub proof fn lemma_record_installed_idempotent(
    t0: Seq<char>,
    t1: Seq<char>,
    t2: Seq<char>,
    name: Seq<char>,
)
    requires
        manifest_set(t1) == manifest_set(t0).insert(name),
        manifest_set(t2) == manifest_set(t1).insert(name),
    ensures
        manifest_set(t2) == manifest_set(t1),
        manifest_set(t2).contains(name),
{
    assert(manifest_set(t2) =~= manifest_set(t1));
}

proof fn lemma_lines_no_newline(s: Seq<char>)
    requires
        s.len() > 0,
        forall|i: int| 0 <= i < s.len() ==> s[i] != '\n',
    ensures
        lines_of(s) == seq![s],
    decreases s.len(),
{
    if s.len() == 1 {
        reveal_with_fuel(lines_of, 2);
        assert(seq![s[0]] =~= s);
        assert(lines_of(s) =~= seq![s]);
    } else {
        lemma_lines_no_newline(s.skip(1));
        lemma_lines_nonempty(s.skip(1));
        assert(seq![s[0]] + s.skip(1) =~= s);
        assert(lines_of(s) =~= seq![s]);
    }
}

} // verus!
