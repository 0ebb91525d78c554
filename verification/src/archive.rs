//! Validating and unpacking a downloaded package archive.
//!
//! An archive is a zstd-compressed stream wrapping a sequential entry
//! format: 512-byte header blocks carrying a NUL-terminated path, octal
//! permission and size fields and a kind byte, each followed by the entry's
//! bytes padded to a block boundary, the whole stream closed by a zero
//! block.  The functions here decode the stream, parse every entry, and
//! refuse any entry whose path could land outside the install root; the
//! caller only ever materializes entries that passed that check.

use vstd::prelude::*;
use crate::errors::PkgError;

verus! {

/// An archive entry as the caller materializes it: a path relative to the
/// install root, the declared permission bits, and the file bytes.
pub struct TarEntry {
    pub path: Vec<u8>,
    pub mode: u32,
    pub kind: EntryKind,
    pub content: Vec<u8>,
}

/// What an entry asks the caller to create.
#[derive(Clone, Copy, PartialEq, Eq, Structural, Debug)]
pub enum EntryKind {
    File,
    Directory,
}

/// The mathematical shape of one entry.
pub struct EntryModel {
    pub path: Seq<u8>,
    pub mode: u32,
    pub kind: EntryKind,
    pub content: Seq<u8>,
}

impl View for TarEntry {
    type V = EntryModel;

    open spec fn view(&self) -> EntryModel {
        EntryModel {
            path: self.path@,
            mode: self.mode,
            kind: self.kind,
            content: self.content@,
        }
    }
}

impl DeepView for TarEntry {
    type V = EntryModel;

    open spec fn deep_view(&self) -> EntryModel {
        self.view()
    }
}

/// An ASCII octal digit, `'0'` to `'7'`.
pub open spec fn is_octal_digit(b: u8) -> bool {
    48 <= b <= 55
}

/// The value of a sequence of octal digits, most significant first.
pub open spec fn octal_value(digits: Seq<u8>) -> nat
    decreases digits.len(),
{
    if digits.len() == 0 {
        0
    } else {
        octal_value(digits.drop_last()) * 8 + (digits.last() - 48) as nat
    }
}

/// The maximal prefix of `g` made of octal digits.
pub open spec fn digit_run(g: Seq<u8>) -> Seq<u8>
    decreases g.len(),
{
    if g.len() > 0 && is_octal_digit(g[0]) {
        seq![g[0]] + digit_run(g.skip(1))
    } else {
        Seq::empty()
    }
}

/// A numeric header field: at least one octal digit, closed by a NUL, a
/// space, or the end of the field; anything else is malformed.
pub open spec fn parse_octal_field(g: Seq<u8>) -> Option<nat> {
    let d = digit_run(g);
    if d.len() == 0 {
        None
    } else if d.len() == g.len() || g[d.len() as int] == 0 || g[d.len() as int] == 32 {
        Some(octal_value(d))
    } else {
        None
    }
}

/// The bytes of `s` before its first NUL.
pub open spec fn until_nul(s: Seq<u8>) -> Seq<u8>
    decreases s.len(),
{
    if s.len() > 0 && s[0] != 0 {
        seq![s[0]] + until_nul(s.skip(1))
    } else {
        Seq::empty()
    }
}

/// A block of NUL bytes, the stream terminator.
pub open spec fn is_zero_block(b: Seq<u8>) -> bool {
    forall|i: int| 0 <= i < b.len() ==> b[i] == 0
}

/// The fields of one entry header that the extraction uses.
pub struct HeaderModel {
    pub name: Seq<u8>,
    pub mode: nat,
    pub size: nat,
    pub typeflag: u8,
}

/// Parse one 512-byte header block: the path in bytes 0 to 99, the octal
/// permission field in bytes 100 to 107, the octal size field in bytes 124
/// to 135, and the entry-kind byte at offset 156.
pub open spec fn parse_header(block: Seq<u8>) -> Option<HeaderModel> {
    match (parse_octal_field(block.subrange(100, 108)), parse_octal_field(
        block.subrange(124, 136),
    )) {
        (Some(mode), Some(size)) => {
            let name = until_nul(block.subrange(0, 100));
            if name.len() == 0 {
                None
            } else {
                Some(HeaderModel { name, mode, size, typeflag: block[156] })
            }
        },
        _ => None,
    }
}

/// `n` rounded up to the next multiple of 512.
pub open spec fn round_up_512(n: nat) -> nat {
    ((n + 511) / 512) * 512
}

/// Parse a decompressed stream into its entries, in order.  A kind byte of
/// `'0'` or NUL is a file, `'5'` a directory; entries of any other kind are
/// skipped over.  A zero block ends the stream; a truncated block, a
/// malformed header or a size running past the stream is malformed.
pub open spec fn parse_entries(d: Seq<u8>) -> Option<Seq<EntryModel>>
    decreases d.len(),
{
    if d.len() == 0 {
        Some(Seq::empty())
    } else if d.len() < 512 {
        None
    } else if is_zero_block(d.subrange(0, 512)) {
        Some(Seq::empty())
    } else {
        match parse_header(d.subrange(0, 512)) {
            None => None,
            Some(h) => {
                let padded = round_up_512(h.size);
                if 512 + padded > d.len() {
                    None
                } else {
                    match parse_entries(d.skip(512 + padded as int)) {
                        None => None,
                        Some(rest) => {
                            if h.typeflag == 48 || h.typeflag == 0 {
                                Some(
                                    seq![
                                        EntryModel {
                                            path: h.name,
                                            mode: h.mode as u32,
                                            kind: EntryKind::File,
                                            content: d.subrange(512, 512 + h.size as int),
                                        },
                                    ] + rest,
                                )
                            } else if h.typeflag == 53 {
                                Some(
                                    seq![
                                        EntryModel {
                                            path: h.name,
                                            mode: h.mode as u32,
                                            kind: EntryKind::Directory,
                                            content: Seq::empty(),
                                        },
                                    ] + rest,
                                )
                            } else {
                                Some(rest)
                            }
                        },
                    }
                }
            },
        }
    }
}

/// A `..` path component begins at position `i` of `p`.
pub open spec fn dotdot_at(p: Seq<u8>, i: int) -> bool {
    0 <= i && i + 2 <= p.len() && p[i] == 46 && p[i + 1] == 46 && (i == 0 || p[i - 1] == 47)
        && (i + 2 == p.len() || p[i + 2] == 47)
}

/// A path that stays under the install root: non-empty, relative, and
/// without a `..` component.
pub open spec fn safe_path(p: Seq<u8>) -> bool {
    p.len() > 0 && p[0] != 47 && !(exists|i: int| dotdot_at(p, i))
}

/// What decompressing `input` yields, if its framing is valid.
pub uninterp spec fn zstd_decoded(input: Seq<u8>) -> Option<Seq<u8>>;

/// What extracting an archive yields: the parsed entries of the
/// decompressed stream, provided the framing and every header are valid
/// and every entry path is safe.
pub open spec fn extract_model(input: Seq<u8>) -> Result<Seq<EntryModel>, PkgError> {
    match zstd_decoded(input) {
        Option::None => Result::Err(PkgError::CorruptArchive),
        Option::Some(plain) => match parse_entries(plain) {
            Option::None => Result::Err(PkgError::CorruptArchive),
            Option::Some(es) => if exists|k: int| 0 <= k < es.len() && !safe_path(es[k].path) {
                Result::Err(PkgError::UnsafePath)
            } else {
                Result::Ok(es)
            },
        },
    }
}

spec fn pow8(n: nat) -> nat
    decreases n,
{
    if n == 0 {
        1
    } else {
        8 * pow8((n - 1) as nat)
    }
}

proof fn lemma_pow8_mono(a: nat, b: nat)
    requires
        a <= b,
    ensures
        pow8(a) <= pow8(b),
    decreases b,
{
    if a < b {
        lemma_pow8_mono(a, (b - 1) as nat);
    }
}

proof fn lemma_digit_run_take(g: Seq<u8>, j: int)
    requires
        0 <= j <= g.len(),
        forall|k: int| 0 <= k < j ==> is_octal_digit(g[k]),
        j == g.len() || !is_octal_digit(g[j]),
    ensures
        digit_run(g) == g.take(j),
    decreases j,
{
    if j == 0 {
        assert(digit_run(g) =~= g.take(0));
    } else {
        lemma_digit_run_take(g.skip(1), j - 1);
        assert(seq![g[0]] + g.skip(1).take(j - 1) =~= g.take(j));
        assert(digit_run(g) =~= g.take(j));
    }
}

proof fn lemma_until_nul_take(g: Seq<u8>, j: int)
    requires
        0 <= j <= g.len(),
        forall|k: int| 0 <= k < j ==> g[k] != 0,
        j == g.len() || g[j] == 0,
    ensures
        until_nul(g) == g.take(j),
    decreases j,
{
    if j == 0 {
        assert(until_nul(g) =~= g.take(0));
    } else {
        lemma_until_nul_take(g.skip(1), j - 1);
        assert(seq![g[0]] + g.skip(1).take(j - 1) =~= g.take(j));
        assert(until_nul(g) =~= g.take(j));
    }
}

fn parse_octal_at(data: &Vec<u8>, lo: usize, hi: usize) -> (r: Option<u64>)
    requires
        lo <= hi <= data@.len(),
        hi - lo <= 12,
    ensures
        match r {
            Option::Some(v) => parse_octal_field(data@.subrange(lo as int, hi as int)) == Option::Some(
                v as nat,
            ) && v < 0x1000000000,
            Option::None => parse_octal_field(data@.subrange(lo as int, hi as int)) is None,
        },
{
    proof {
        reveal_with_fuel(pow8, 13);
        assert(pow8(12) == 0x1000000000);
    }
    let ghost g = data@.subrange(lo as int, hi as int);
    let mut v: u64 = 0;
    let mut j: usize = 0;
    while j < hi - lo
        invariant
            lo <= hi <= data@.len(),
            hi - lo <= 12,
            j <= hi - lo,
            g == data@.subrange(lo as int, hi as int),
            forall|k: int| 0 <= k < j ==> is_octal_digit(g[k]),
            v as nat == octal_value(g.take(j as int)),
            (v as nat) < pow8(j as nat),
            v < 0x1000000000,
        decreases hi - lo - j,
    {
        let b = data[lo + j];
        if 48 <= b && b <= 55 {
            proof {
                assert(g[j as int] == b);
                assert(g.take(j + 1).drop_last() =~= g.take(j as int));
                assert(g.take(j + 1).last() == g[j as int]);
                assert(pow8((j + 1) as nat) == 8 * pow8(j as nat));
                lemma_pow8_mono((j + 1) as nat, 12);
                reveal_with_fuel(pow8, 13);
                assert(pow8(12) == 0x1000000000);
                lemma_pow8_mono(j as nat, 12);
            }
            v = v * 8 + ((b - 48) as u64);
            j += 1;
        } else if b == 0 || b == 32 {
            if j == 0 {
                proof {
                    lemma_digit_run_take(g, 0);
                }
                return None;
            }
            proof {
                lemma_digit_run_take(g, j as int);
            }
            return Some(v);
        } else {
            proof {
                lemma_digit_run_take(g, j as int);
            }
            return None;
        }
    }
    if j == 0 {
        proof {
            lemma_digit_run_take(g, 0);
        }
        return None;
    }
    proof {
        lemma_digit_run_take(g, j as int);
        assert(g.take(j as int) =~= g);
    }
    Some(v)
}

fn read_name(data: &Vec<u8>, lo: usize) -> (r: Vec<u8>)
    requires
        lo + 100 <= data@.len(),
        data@.len() <= usize::MAX,
    ensures
        r@ == until_nul(data@.subrange(lo as int, lo + 100)),
{
    let ghost g = data@.subrange(lo as int, lo + 100);
    let mut out: Vec<u8> = Vec::new();
    let mut j: usize = 0;
    while j < 100
        invariant
            j <= 100,
            lo + 100 <= data@.len(),
            data@.len() <= usize::MAX,
            g == data@.subrange(lo as int, lo + 100),
            forall|k: int| 0 <= k < j ==> g[k] != 0,
            out@ == g.take(j as int),
        decreases 100 - j,
    {
        let b = data[lo + j];
        if b == 0 {
            proof {
                lemma_until_nul_take(g, j as int);
            }
            return out;
        }
        out.push(b);
        proof {
            assert(out@ =~= g.take(j + 1));
        }
        j += 1;
    }
    proof {
        lemma_until_nul_take(g, 100);
        assert(g.take(100) =~= g);
    }
    out
}

fn zero_block_at(data: &Vec<u8>, lo: usize) -> (r: bool)
    requires
        lo + 512 <= data@.len(),
        data@.len() <= usize::MAX,
    ensures
        r == is_zero_block(data@.subrange(lo as int, lo + 512)),
{
    let ghost g = data@.subrange(lo as int, lo + 512);
    let mut j: usize = 0;
    while j < 512
        invariant
            j <= 512,
            lo + 512 <= data@.len(),
            data@.len() <= usize::MAX,
            g == data@.subrange(lo as int, lo + 512),
            forall|k: int| 0 <= k < j ==> g[k] == 0,
        decreases 512 - j,
    {
        if data[lo + j] != 0 {
            assert(g[j as int] != 0);
            return false;
        }
        j += 1;
    }
    true
}

fn copy_range(data: &Vec<u8>, lo: usize, hi: usize) -> (r: Vec<u8>)
    requires
        lo <= hi <= data@.len(),
    ensures
        r@ == data@.subrange(lo as int, hi as int),
{
    let mut out: Vec<u8> = Vec::new();
    let mut j: usize = 0;
    while j < hi - lo
        invariant
            j <= hi - lo,
            lo <= hi <= data@.len(),
            out@ == data@.subrange(lo as int, lo + j),
        decreases hi - lo - j,
    {
        out.push(data[lo + j]);
        proof {
            assert(out@ =~= data@.subrange(lo as int, lo + j + 1));
        }
        j += 1;
    }
    out
}

/// Parse a decompressed stream into its entries.
pub fn parse_tar(data: &Vec<u8>) -> (r: Result<Vec<TarEntry>, PkgError>)
    ensures
        match r {
            Result::Ok(es) => parse_entries(data@) == Option::Some(es.deep_view()),
            Result::Err(e) => parse_entries(data@) is None && e == PkgError::CorruptArchive,
        },
{
    let n = data.len();
    let mut out: Vec<TarEntry> = Vec::new();
    let mut pos: usize = 0;
    proof {
        assert(data@.skip(0) =~= data@);
    }
    while pos < n
        invariant
            pos <= n,
            n == data@.len(),
            forall|rest: Seq<EntryModel>|
                parse_entries(data@.skip(pos as int)) == Option::Some(rest) ==> parse_entries(
                    data@,
                ) == Option::Some(out.deep_view() + rest),
            parse_entries(data@.skip(pos as int)) is None ==> parse_entries(data@) is None,
        decreases n - pos,
    {
        let ghost tail = data@.skip(pos as int);
        if n - pos < 512 {
            return Err(PkgError::CorruptArchive);
        }
        proof {
            assert(tail.subrange(0, 512) =~= data@.subrange(pos as int, pos + 512));
        }
        if zero_block_at(data, pos) {
            proof {
                assert(parse_entries(tail) == Option::Some(Seq::<EntryModel>::empty()));
                assert(out.deep_view() + Seq::<EntryModel>::empty() =~= out.deep_view());
            }
            return Ok(out);
        }
        let ghost block = tail.subrange(0, 512);
        proof {
            assert(block.subrange(100, 108) =~= data@.subrange(pos + 100, pos + 108));
            assert(block.subrange(124, 136) =~= data@.subrange(pos + 124, pos + 136));
            assert(block.subrange(0, 100) =~= data@.subrange(pos as int, pos + 100));
        }
        let mode_v = match parse_octal_at(data, pos + 100, pos + 108) {
            Some(m) => m,
            None => {
                return Err(PkgError::CorruptArchive);
            },
        };
        let size_v = match parse_octal_at(data, pos + 124, pos + 136) {
            Some(s) => s,
            None => {
                return Err(PkgError::CorruptArchive);
            },
        };
        let name = read_name(data, pos);
        if name.len() == 0 {
            return Err(PkgError::CorruptArchive);
        }
        let ghost h = parse_header(block).unwrap();
        proof {
            assert(parse_header(block) == Option::Some(
                HeaderModel {
                    name: name@,
                    mode: mode_v as nat,
                    size: size_v as nat,
                    typeflag: block[156],
                },
            ));
        }
        let typeflag = data[pos + 156];
        proof {
            assert(block[156] == data@[pos + 156]);
        }
        let padded = ((size_v + 511) / 512) * 512;
        proof {
            assert(padded as nat == round_up_512(size_v as nat));
        }
        if padded > (n - pos - 512) as u64 {
            return Err(PkgError::CorruptArchive);
        }
        let size = size_v as usize;
        let step = 512 + (padded as usize);
        proof {
            assert(size_v <= padded) by {
                assert(size_v as nat <= round_up_512(size_v as nat)) by (nonlinear_arith);
            };
            assert(data@.skip(pos + step) =~= tail.skip(512 + padded as int));
        }
        let ghost prevout = out.deep_view();
        if typeflag == 48 || typeflag == 0 {
            let content = copy_range(data, pos + 512, pos + 512 + size);
            proof {
                assert(content@ =~= block_content(tail, size_v as nat)) by {
                    assert(tail.subrange(512, 512 + size_v as int) =~= data@.subrange(
                        pos + 512,
                        pos + 512 + size_v as int,
                    ));
                }
            }
            let entry = TarEntry {
                path: name,
                mode: #[verifier::truncate] (mode_v as u32),
                kind: EntryKind::File,
                content,
            };
            out.push(entry);
            proof {
                assert(out.deep_view() =~= prevout.push(
                    EntryModel {
                        path: h.name,
                        mode: #[verifier::truncate] (h.mode as u32),
                        kind: EntryKind::File,
                        content: block_content(tail, h.size),
                    },
                ));
            }
        } else if typeflag == 53 {
            let entry = TarEntry {
                path: name,
                mode: #[verifier::truncate] (mode_v as u32),
                kind: EntryKind::Directory,
                content: Vec::new(),
            };
            out.push(entry);
            proof {
                assert(out.deep_view() =~= prevout.push(
                    EntryModel {
                        path: h.name,
                        mode: #[verifier::truncate] (h.mode as u32),
                        kind: EntryKind::Directory,
                        content: Seq::empty(),
                    },
                ));
            }
        }
        pos = pos + step;
        proof {
            lemma_step_entries(tail, h, prevout, out.deep_view(), data@, pos as int);
        }
    }
    proof {
        assert(data@.skip(n as int) =~= Seq::<u8>::empty());
        assert(out.deep_view() + Seq::<EntryModel>::empty() =~= out.deep_view());
    }
    Ok(out)
}

/// The content bytes an entry of size `size` carries at the head of `tail`.
spec fn block_content(tail: Seq<u8>, size: nat) -> Seq<u8> {
    tail.subrange(512, 512 + size as int)
}

proof fn lemma_step_entries(
    tail: Seq<u8>,
    h: HeaderModel,
    prevout: Seq<EntryModel>,
    newout: Seq<EntryModel>,
    whole: Seq<u8>,
    newpos: int,
)
    requires
        tail.len() >= 512,
        !is_zero_block(tail.subrange(0, 512)),
        parse_header(tail.subrange(0, 512)) == Option::Some(h),
        512 + round_up_512(h.size) <= tail.len(),
        0 <= newpos <= whole.len(),
        whole.skip(newpos) == tail.skip(512 + round_up_512(h.size) as int),
        (h.typeflag == 48 || h.typeflag == 0) ==> newout == prevout.push(
            EntryModel {
                path: h.name,
                mode: h.mode as u32,
                kind: EntryKind::File,
                content: block_content(tail, h.size),
            },
        ),
        h.typeflag == 53 ==> newout == prevout.push(
            EntryModel {
                path: h.name,
                mode: h.mode as u32,
                kind: EntryKind::Directory,
                content: Seq::empty(),
            },
        ),
        (h.typeflag != 48 && h.typeflag != 0 && h.typeflag != 53) ==> newout == prevout,
        forall|rest: Seq<EntryModel>|
            parse_entries(tail) == Option::Some(rest) ==> parse_entries(whole) == Option::Some(
                prevout + rest,
            ),
        parse_entries(tail) is None ==> parse_entries(whole) is None,
    ensures
        forall|rest: Seq<EntryModel>|
            parse_entries(whole.skip(newpos)) == Option::Some(rest) ==> parse_entries(whole)
                == Option::Some(newout + rest),
        parse_entries(whole.skip(newpos)) is None ==> parse_entries(whole) is None,
{
    let next = tail.skip(512 + round_up_512(h.size) as int);
    if parse_entries(next) is None {
        assert(parse_entries(tail) is None);
    } else {
        let rest = parse_entries(next).unwrap();
        if h.typeflag == 48 || h.typeflag == 0 {
            let em = EntryModel {
                path: h.name,
                mode: h.mode as u32,
                kind: EntryKind::File,
                content: block_content(tail, h.size),
            };
            assert(parse_entries(tail) == Option::Some(seq![em] + rest));
            assert(prevout + (seq![em] + rest) =~= newout + rest);
        } else if h.typeflag == 53 {
            let em = EntryModel {
                path: h.name,
                mode: h.mode as u32,
                kind: EntryKind::Directory,
                content: Seq::empty(),
            };
            assert(parse_entries(tail) == Option::Some(seq![em] + rest));
            assert(prevout + (seq![em] + rest) =~= newout + rest);
        } else {
            assert(parse_entries(tail) == Option::Some(rest));
        }
    }
}

/// Whether an entry path stays under the install root.
pub fn check_path_safe(p: &Vec<u8>) -> (r: bool)
    ensures
        r == safe_path(p@),
{
    let n = p.len();
    if n == 0 {
        return false;
    }
    if p[0] == 47 {
        return false;
    }
    let mut i: usize = 0;
    while i < n - 1
        invariant
            i <= n,
            0 < n == p@.len(),
            forall|k: int| 0 <= k < i ==> !dotdot_at(p@, k),
        decreases n - i,
    {
        if p[i] == 46 && p[i + 1] == 46 {
            let pre_ok = i == 0 || p[i - 1] == 47;
            let post_ok = i + 2 == n || p[i + 2] == 47;
            if pre_ok && post_ok {
                assert(dotdot_at(p@, i as int));
                return false;
            }
        }
        i += 1;
    }
    assert forall|k: int| !dotdot_at(p@, k) by {
        if 0 <= k < i {
        }
    }
    true
}

/// Relies on `zstd::stream::decode_all`: whether an in-memory compressed
/// stream decodes, and to which bytes, depends on the input alone.
#[verifier::external_body]
fn zstd_decode(input: &Vec<u8>) -> (r: Option<Vec<u8>>)
    ensures
        match r {
            Option::Some(v) => zstd_decoded(input@) == Option::Some(v@),
            Option::None => zstd_decoded(input@) is None,
        },
{
    zstd::stream::decode_all(&input[..]).ok()
}

/// Decode and parse a downloaded archive and check every entry path, so
/// that the caller only materializes entries that stay under the install
/// root.  Nothing is handed out on a corrupt stream or an unsafe path.
pub fn extract_archive(archive: &Vec<u8>) -> (r: Result<Vec<TarEntry>, PkgError>)
    ensures
        match r {
            Result::Ok(es) => extract_model(archive@) == Result::Ok::<Seq<EntryModel>, PkgError>(
                es.deep_view(),
            ) && forall|k: int|
                0 <= k < es@.len() ==> safe_path(#[trigger] es.deep_view()[k].path),
            Result::Err(e) => extract_model(archive@) == Result::Err::<Seq<EntryModel>, PkgError>(
                e,
            ),
        },
{
    let plain = match zstd_decode(archive) {
        Some(p) => p,
        None => {
            return Err(PkgError::CorruptArchive);
        },
    };
    let entries = match parse_tar(&plain) {
        Ok(es) => es,
        Err(e) => {
            return Err(e);
        },
    };
    let mut k: usize = 0;
    while k < entries.len()
        invariant
            k <= entries@.len(),
            zstd_decoded(archive@) == Option::Some(plain@),
            parse_entries(plain@) == Option::Some(entries.deep_view()),
            forall|j: int| 0 <= j < k ==> safe_path(#[trigger] entries.deep_view()[j].path),
        decreases entries@.len() - k,
    {
        let entry = &entries[k];
        if !check_path_safe(&entry.path) {
            proof {
                let es = entries.deep_view();
                assert(!safe_path(es[k as int].path));
                assert(exists|j: int| 0 <= j < es.len() && !safe_path(es[j].path));
            }
            return Err(PkgError::UnsafePath);
        }
        k += 1;
    }
    proof {
        let es = entries.deep_view();
        assert forall|j: int| 0 <= j < es.len() implies safe_path(es[j].path) by {
            assert(safe_path(entries.deep_view()[j].path));
        }
    }
    Ok(entries)
}

} // verus!
