//! The mirror's package index.
//!
//! The mirror publishes a directory listing as markup; every hyperlink
//! target ending in the archive suffix names one installable package.  The
//! index is recomputed from the listing on every search and never cached.

use vstd::prelude::*;
use vstd::string::*;
use crate::text::{contains_string, contains_substr, ends_with_str, has_suffix, is_substring};

verus! {

/// What the hyperlink targets of a piece of markup are, in document order.
pub uninterp spec fn hrefs_of(body: Seq<char>) -> Seq<Seq<char>>;

/// The filename extension identifying an installable package archive.
pub open spec fn archive_suffix() -> Seq<char> {
    ".pkg.tar.zst"@
}

/// The package index a listing denotes: each name whose archive the
/// listing links to.
pub open spec fn index_of(hrefs: Seq<Seq<char>>) -> Set<Seq<char>> {
    Set::new(|n: Seq<char>| hrefs.contains(n + archive_suffix()))
}

/// The suggestions for a query: the index entries that contain it.
pub open spec fn suggestion_set(index: Set<Seq<char>>, q: Seq<char>) -> Set<Seq<char>> {
    Set::new(|n: Seq<char>| index.contains(n) && is_substring(q, n))
}

/// The hyperlink target with the archive suffix cut off.
pub open spec fn stripped(s: Seq<char>) -> Seq<char> {
    s.take(s.len() - archive_suffix().len())
}

/// Relies on select's `Document::from`, `Document::find` with the
/// `Name("a")` predicate, and `Node::attr`: the anchor targets found in a
/// piece of markup depend on the markup text alone.
#[verifier::external_body]
fn anchor_hrefs(body: &str) -> (r: Vec<String>)
    ensures
        r.deep_view() == hrefs_of(body@),
{
    let document = select::document::Document::from(body);
    let mut out: Vec<String> = Vec::new();
    for node in document.find(select::predicate::Name("a")) {
        if let Some(link) = node.attr("href") {
            out.push(link.to_string());
        }
    }
    out
}

/// The names the listed hyperlink targets denote: those ending in the
/// archive suffix, with the suffix cut off, each reported once.
fn index_entries(hrefs: &Vec<String>) -> (r: Vec<String>)
    ensures
        forall|k: int| 0 <= k < r@.len() ==> index_of(hrefs.deep_view()).contains(
            #[trigger] r.deep_view()[k],
        ),
        forall|n: Seq<char>| #[trigger] index_of(hrefs.deep_view()).contains(n)
            ==> r.deep_view().contains(n),
        forall|k1: int, k2: int| 0 <= k1 < k2 < r@.len() ==> r.deep_view()[k1]
            != r.deep_view()[k2],
{
    let ghost hs = hrefs.deep_view();
    let suffix = ".pkg.tar.zst";
    let sl = suffix.unicode_len();
    proof {
        assert(suffix@ == archive_suffix());
    }
    let mut out: Vec<String> = Vec::new();
    let mut i: usize = 0;
    while i < hrefs.len()
        invariant
            i <= hrefs@.len(),
            hs == hrefs.deep_view(),
            suffix@ == archive_suffix(),
            sl == archive_suffix().len(),
            forall|k: int| 0 <= k < out@.len() ==> index_of(hs).contains(
                #[trigger] out.deep_view()[k],
            ),
            forall|j: int| 0 <= j < i && has_suffix(#[trigger] hs[j], archive_suffix())
                ==> out.deep_view().contains(stripped(hs[j])),
            forall|k1: int, k2: int| 0 <= k1 < k2 < out@.len() ==> out.deep_view()[k1]
                != out.deep_view()[k2],
        decreases hrefs@.len() - i,
    {
        let h = &hrefs[i];
        proof {
            assert(h@ == hs[i as int]);
        }
        let ghost prevout = out.deep_view();
        if ends_with_str(h.as_str(), suffix) {
            let hl = h.as_str().unicode_len();
            let namestr = h.as_str().substring_char(0, hl - sl).to_owned();
            let ghost namev = stripped(hs[i as int]);
            proof {
                assert(namestr@ =~= namev);
                assert(namev + archive_suffix() =~= hs[i as int]);
                assert(hs.contains(namev + archive_suffix())) by {
                    assert(hs[i as int] == namev + archive_suffix());
                }
            }
            if !contains_string(&out, &namestr) {
                out.push(namestr);
                proof {
                    assert(out.deep_view() =~= prevout.push(namev));
                    assert forall|k1: int, k2: int| 0 <= k1 < k2 < out@.len()
                        implies out.deep_view()[k1] != out.deep_view()[k2] by {
                        if k2 == prevout.len() {
                            if out.deep_view()[k1] == namev {
                                assert(prevout[k1] == namev);
                                assert(prevout.contains(namev));
                            }
                        }
                    }
                }
            }
            proof {
                assert(out.deep_view().contains(namev)) by {
                    if prevout.contains(namev) {
                        let k = choose|k: int| 0 <= k < prevout.len() && #[trigger] prevout[k]
                            == namev;
                        assert(out.deep_view()[k] == namev);
                    } else {
                        assert(out.deep_view()[prevout.len() as int] == namev);
                    }
                }
            }
        }
        i += 1;
        proof {
            assert forall|j: int| 0 <= j < i && has_suffix(#[trigger] hs[j], archive_suffix())
                implies out.deep_view().contains(stripped(hs[j])) by {
                if j < i - 1 {
                    assert(prevout.contains(stripped(hs[j])));
                    let k = choose|k: int| 0 <= k < prevout.len() && #[trigger] prevout[k]
                        == stripped(hs[j]);
                    assert(out.deep_view()[k] == stripped(hs[j]));
                }
            }
        }
    }
    proof {
        assert forall|n: Seq<char>| #[trigger] index_of(hs).contains(n)
            implies out.deep_view().contains(n) by {
            let j = choose|j: int| 0 <= j < hs.len() && #[trigger] hs[j] == n + archive_suffix();
            assert(has_suffix(hs[j], archive_suffix())) by {
                assert(hs[j].subrange(
                    hs[j].len() - archive_suffix().len(),
                    hs[j].len() as int,
                ) =~= archive_suffix());
            }
            assert(stripped(hs[j]) =~= n);
        }
    }
    out
}

/// Search the mirror listing: the names of every listed archive that
/// contains the query, each reported once.
pub fn search_listing(body: &str, query: &str) -> (r: Vec<String>)
    ensures
        forall|k: int| 0 <= k < r@.len() ==> suggestion_set(index_of(hrefs_of(body@)), query@)
            .contains(#[trigger] r.deep_view()[k]),
        forall|n: Seq<char>| #[trigger] suggestion_set(index_of(hrefs_of(body@)), query@)
            .contains(n) ==> r.deep_view().contains(n),
        forall|k1: int, k2: int| 0 <= k1 < k2 < r@.len() ==> r.deep_view()[k1]
            != r.deep_view()[k2],
{
    let hrefs = anchor_hrefs(body);
    let idx = index_entries(&hrefs);
    let ghost names = idx.deep_view();
    let mut out: Vec<String> = Vec::new();
    let mut i: usize = 0;
    while i < idx.len()
        invariant
            i <= idx@.len(),
            names == idx.deep_view(),
            hrefs.deep_view() == hrefs_of(body@),
            forall|k: int| 0 <= k < names.len() ==> index_of(hrefs_of(body@)).contains(
                #[trigger] names[k],
            ),
            forall|k1: int, k2: int| 0 <= k1 < k2 < names.len() ==> names[k1] != names[k2],
            forall|k: int| 0 <= k < out@.len() ==> suggestion_set(
                index_of(hrefs_of(body@)),
                query@,
            ).contains(#[trigger] out.deep_view()[k]),
            forall|j: int| 0 <= j < i && is_substring(query@, #[trigger] names[j])
                ==> out.deep_view().contains(names[j]),
            forall|k1: int, k2: int| 0 <= k1 < k2 < out@.len() ==> out.deep_view()[k1]
                != out.deep_view()[k2],
        decreases idx@.len() - i,
    {
        let ghost prevout = out.deep_view();
        let ghost namev = names[i as int];
        proof {
            assert(idx@[i as int]@ == names[i as int]);
        }
        let matched = contains_substr(idx[i].as_str(), query);
        let listed = if matched {
            contains_string(&out, &idx[i])
        } else {
            true
        };
        if matched && !listed {
            let entry = idx[i].clone();
            out.push(entry);
            proof {
                assert(out.deep_view() =~= prevout.push(namev));
                assert(suggestion_set(index_of(hrefs_of(body@)), query@).contains(namev));
                assert forall|k1: int, k2: int| 0 <= k1 < k2 < out@.len()
                    implies out.deep_view()[k1] != out.deep_view()[k2] by {
                    if k2 == prevout.len() {
                        if out.deep_view()[k1] == namev {
                            assert(prevout[k1] == namev);
                            assert(prevout.contains(namev));
                        }
                    }
                }
            }
        }
        i += 1;
        proof {
            assert forall|j: int| 0 <= j < i && is_substring(query@, #[trigger] names[j])
                implies out.deep_view().contains(names[j]) by {
                if j < i - 1 {
                    assert(prevout.contains(names[j]));
                    let k = choose|k: int| 0 <= k < prevout.len() && #[trigger] prevout[k]
                        == names[j];
                    assert(out.deep_view()[k] == names[j]);
                } else {
                    assert(matched);
                    if listed {
                        assert(prevout.contains(namev));
                        let k = choose|k: int| 0 <= k < prevout.len() && #[trigger] prevout[k]
                            == namev;
                        assert(out.deep_view()[k] == namev);
                    } else {
                        assert(out.deep_view()[prevout.len() as int] == namev);
                    }
                }
            }
        }
    }
    proof {
        assert forall|n: Seq<char>| #[trigger] suggestion_set(
            index_of(hrefs_of(body@)),
            query@,
        ).contains(n) implies out.deep_view().contains(n) by {
            let j = choose|j: int| 0 <= j < names.len() && #[trigger] names[j] == n;
            assert(is_substring(query@, names[j]));
        }
    }
    out
}

} // verus!
