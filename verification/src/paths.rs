//! File names the desktop shell accepts: recognised extensions and the parts
//! of a `/`-separated relative path.
use vstd::prelude::*;
use vstd::string::StringSliceAdditionalSpecFns;

verus! {

/// ASCII lower-casing of one byte; other bytes are unchanged.
pub open spec fn ascii_lower(b: u8) -> u8 {
    if 65 <= b <= 90 {
        (b + 32) as u8
    } else {
        b
    }
}

/// ASCII lower-casing of a byte string.
pub open spec fn lower_bytes(s: Seq<u8>) -> Seq<u8> {
    s.map_values(|b: u8| ascii_lower(b))
}

/// Whether `bytes` equal `word` after ASCII lower-casing.
fn lowered_is(bytes: &[u8], word: &[u8]) -> (r: bool)
    ensures
        r == (lower_bytes(bytes@) == word@),
{
    let b = bytes;
    if b.len() != word.len() {
        assert(lower_bytes(b@).len() != word@.len());
        return false;
    }
    let mut k: usize = 0;
    while k < b.len()
        invariant
            k <= b.len(),
            b.len() == word.len(),
            b@ == bytes@,
            forall|j: int| 0 <= j < k ==> ascii_lower(b@[j]) == word@[j],
        decreases b.len() - k,
    {
        let c = b[k];
        let lower = if 65 <= c && c <= 90 {
            c + 32
        } else {
            c
        };
        if lower != word[k] {
            assert(lower_bytes(b@)[k as int] != word@[k as int]);
            return false;
        }
        k += 1;
    }
    assert(lower_bytes(b@) =~= word@);
    true
}

/// The extensions the file-association handoff recognises, lower-case:
/// `wav`, `aiff`, `aif`, `flac`, `textgrid`, `phxproj`.
pub open spec fn recognized_extensions() -> Seq<Seq<u8>> {
    seq![
        seq![119u8, 97, 118],
        seq![97u8, 105, 102, 102],
        seq![97u8, 105, 102],
        seq![102u8, 108, 97, 99],
        seq![116u8, 101, 120, 116, 103, 114, 105, 100],
        seq![112u8, 104, 120, 112, 114, 111, 106],
    ]
}

/// Whether an extension is one the handoff recognises, case-insensitively.
pub fn extension_recognized(ext: &str) -> (r: bool)
    ensures
        r == recognized_extensions().contains(lower_bytes(ext.spec_bytes())),
{
    bytes_recognized(ext.as_bytes())
}

/// Whether the bytes of an extension spell one the handoff recognises,
/// case-insensitively.
fn bytes_recognized(ext: &[u8]) -> (r: bool)
    ensures
        r == recognized_extensions().contains(lower_bytes(ext@)),
{
    let ghost l = lower_bytes(ext@);
    let ghost words = recognized_extensions();
    let wav = [119u8, 97, 118];
    let aiff = [97u8, 105, 102, 102];
    let aif = [97u8, 105, 102];
    let flac = [102u8, 108, 97, 99];
    let textgrid = [116u8, 101, 120, 116, 103, 114, 105, 100];
    let phxproj = [112u8, 104, 120, 112, 114, 111, 106];
    assert(wav@ =~= words[0]);
    assert(aiff@ =~= words[1]);
    assert(aif@ =~= words[2]);
    assert(flac@ =~= words[3]);
    assert(textgrid@ =~= words[4]);
    assert(phxproj@ =~= words[5]);
    let r = lowered_is(ext, &wav) || lowered_is(ext, &aiff) || lowered_is(ext, &aif)
        || lowered_is(ext, &flac) || lowered_is(ext, &textgrid) || lowered_is(ext, &phxproj);
    proof {
        if words.contains(l) {
            let k = choose|k: int| 0 <= k < words.len() && words[k] == l;
            assert(r);
        }
        if r {
            if l == words[0] {
                assert(words.contains(l));
            } else if l == words[1] {
                assert(words.contains(l));
            } else if l == words[2] {
                assert(words.contains(l));
            } else if l == words[3] {
                assert(words.contains(l));
            } else if l == words[4] {
                assert(words.contains(l));
            } else {
                assert(words[5] == l);
                assert(words.contains(l));
            }
        }
    }
    r
}

/// Whether an extension is `wav`, case-insensitively.
pub fn extension_is_wav(ext: &str) -> (r: bool)
    ensures
        r == (lower_bytes(ext.spec_bytes()) == seq![119u8, 97, 118]),
{
    bytes_are_wav(ext.as_bytes())
}

/// Whether the bytes of an extension spell `wav`, case-insensitively.
fn bytes_are_wav(ext: &[u8]) -> (r: bool)
    ensures
        r == (lower_bytes(ext@) == seq![119u8, 97, 118]),
{
    let wav = [119u8, 97, 118];
    assert(wav@ =~= seq![119u8, 97, 118]);
    lowered_is(ext, &wav)
}

/// `e` follows a `.` somewhere in the path bytes `p`, and holds neither `.`
/// nor `/`.
pub open spec fn extension_in(p: Seq<u8>, e: Seq<u8>) -> bool {
    &&& !e.contains(46u8)
    &&& !e.contains(47u8)
    &&& exists|k: int|
        0 <= k && k + 1 + e.len() <= p.len() && p[k] == 46u8 && #[trigger] p.subrange(
            k + 1,
            k + 1 + e.len(),
        ) == e
}

/// Position of the last `c` in `s`, or `-1` when there is none.
pub open spec fn last_index_of(s: Seq<u8>, c: u8) -> int
    decreases s.len(),
{
    if s.len() == 0 {
        -1
    } else if s.last() == c {
        s.len() - 1
    } else {
        last_index_of(s.drop_last(), c)
    }
}

/// The last `c` of `s` sits where `last_index_of` says, and nothing after it
/// is `c`.
pub proof fn lemma_last_index_of(s: Seq<u8>, c: u8)
    ensures
        -1 <= last_index_of(s, c) < s.len(),
        last_index_of(s, c) >= 0 ==> s[last_index_of(s, c)] == c,
        forall|j: int| last_index_of(s, c) < j < s.len() ==> s[j] != c,
    decreases s.len(),
{
    if s.len() > 0 && s.last() != c {
        let t = s.drop_last();
        lemma_last_index_of(t, c);
        assert forall|j: int| last_index_of(s, c) < j < s.len() implies s[j] != c by {
            if j < t.len() {
                assert(s[j] == t[j]);
            }
        }
    }
}

/// The last component of a `/`-separated path that is neither empty nor
/// `.`: trailing separators and `.` components are passed over, as
/// `std::path::Path::components` normalises them away.
pub open spec fn last_component(p: Seq<u8>) -> Option<Seq<u8>>
    decreases p.len(),
{
    if p.len() == 0 {
        None
    } else if p.last() == 47u8 {
        last_component(p.drop_last())
    } else {
        proof {
            lemma_last_index_of(p, 47u8);
        }
        let k = last_index_of(p, 47u8);
        let part = p.subrange(k + 1, p.len() as int);
        if part == seq![46u8] {
            last_component(p.subrange(0, k + 1))
        } else {
            Some(part)
        }
    }
}

/// The file name a path ends in, as `std::path::Path::file_name` gives it:
/// the last component, unless there is none or it is `..`.
pub open spec fn file_name_of(p: Seq<u8>) -> Option<Seq<u8>> {
    match last_component(p) {
        Some(n) => if n == seq![46u8, 46u8] {
            None
        } else {
            Some(n)
        },
        None => None,
    }
}

/// The extension of a file name: what follows its last `.`, when that `.`
/// is not the name's first byte.
pub open spec fn dot_extension(name: Seq<u8>) -> Option<Seq<u8>> {
    let k = last_index_of(name, 46u8);
    if k <= 0 {
        None
    } else {
        Some(name.subrange(k + 1, name.len() as int))
    }
}

/// The extension `std::path::Path::extension` finds in a path.
pub open spec fn path_extension(p: Seq<u8>) -> Option<Seq<u8>> {
    match file_name_of(p) {
        Some(n) => dot_extension(n),
        None => None,
    }
}

/// A path every platform splits alike: no `\\`, no `:` (so no Windows
/// prefix), and no leading `//`.
pub open spec fn plain_path(p: Seq<u8>) -> bool {
    &&& !p.contains(92u8)
    &&& !p.contains(58u8)
    &&& !(p.len() >= 2 && p[0] == 47u8 && p[1] == 47u8)
}

/// The bytes of the extension of the file a path names, as
/// `std::path::Path::extension` finds it: the part of the file name after
/// its final `.`.
///
/// Trusted: the extension is a piece of the path that follows a `.` and
/// holds neither `.` nor `/`. On a plain path it is exactly
/// `path_extension`, following the documented rules: `/` separates
/// components, empty and `.` components are normalised away, `file_name` is
/// the last component unless that is `..`, and the extension is `None`
/// without a `.` or when the name's only `.` leads it, else what follows the
/// last `.`. Paths holding `\\` or `:` or starting with `//` are parsed by
/// platform-specific rules (Windows separators and prefixes), so for them
/// nothing more is claimed.
#[verifier::external_body]
fn file_extension(path: &str) -> (r: Option<Vec<u8>>)
    ensures
        r matches Some(e) ==> extension_in(path.spec_bytes(), e@),
        plain_path(path.spec_bytes()) ==> match path_extension(path.spec_bytes()) {
            Some(e) => r matches Some(v) && v@ == e,
            None => r is None,
        },
{
    std::path::Path::new(path).extension().map(|ext| ext.as_encoded_bytes().to_vec())
}

/// Whether a path names a file whose extension the handoff recognises.
///
/// A path with no `.` is never recognised; a recognised one ends its file
/// name in a recognised extension; on a plain path the answer is exactly
/// whether its extension is recognised.
pub fn recognized(path: &str) -> (r: bool)
    ensures
        plain_path(path.spec_bytes()) ==> r == match path_extension(path.spec_bytes()) {
            Some(e) => recognized_extensions().contains(lower_bytes(e)),
            None => false,
        },
        r ==> exists|e: Seq<u8>|
            #[trigger] extension_in(path.spec_bytes(), e) && recognized_extensions().contains(
                lower_bytes(e),
            ),
        !path.spec_bytes().contains(46u8) ==> !r,
{
    match file_extension(path) {
        Some(ext) => {
            let r = bytes_recognized(ext.as_slice());
            proof {
                if !path.spec_bytes().contains(46u8) {
                    let k = choose|k: int|
                        0 <= k && k + 1 + ext@.len() <= path.spec_bytes().len()
                            && path.spec_bytes()[k] == 46u8 && #[trigger] path.spec_bytes().subrange(
                            k + 1,
                            k + 1 + ext@.len(),
                        ) == ext@;
                    assert(path.spec_bytes().contains(46u8));
                }
            }
            r
        },
        None => false,
    }
}

/// Whether a path names a file whose extension is `wav`, case-insensitively.
///
/// A path with no `.` is never taken for WAV; on a plain path the answer is
/// exactly whether its extension is `wav` in any case.
pub fn looks_like_wav(rel: &str) -> (r: bool)
    ensures
        plain_path(rel.spec_bytes()) ==> r == match path_extension(rel.spec_bytes()) {
            Some(e) => lower_bytes(e) == seq![119u8, 97, 118],
            None => false,
        },
        r ==> exists|e: Seq<u8>|
            #[trigger] extension_in(rel.spec_bytes(), e) && lower_bytes(e) == seq![119u8, 97, 118],
        !rel.spec_bytes().contains(46u8) ==> !r,
{
    match file_extension(rel) {
        Some(ext) => {
            let r = bytes_are_wav(ext.as_slice());
            proof {
                if !rel.spec_bytes().contains(46u8) {
                    let k = choose|k: int|
                        0 <= k && k + 1 + ext@.len() <= rel.spec_bytes().len()
                            && rel.spec_bytes()[k] == 46u8 && #[trigger] rel.spec_bytes().subrange(
                            k + 1,
                            k + 1 + ext@.len(),
                        ) == ext@;
                    assert(rel.spec_bytes().contains(46u8));
                }
            }
            r
        },
        None => false,
    }
}

/// `(a, b)` is a maximal non-empty run of bytes other than `/`.
pub open spec fn is_part(s: Seq<u8>, a: int, b: int) -> bool {
    &&& 0 <= a < b <= s.len()
    &&& forall|k: int| a <= k < b ==> s[k] != 47
    &&& (a == 0 || s[a - 1] == 47)
    &&& (b == s.len() || s[b] == 47)
}

/// The byte spans of the non-empty `/`-separated parts of a relative path, in
/// order; empty parts (leading, trailing or doubled separators) are dropped.
pub fn path_parts(rel: &str) -> (r: Vec<(usize, usize)>)
    ensures
        forall|j: int| 0 <= j < r.len() ==> is_part(rel.spec_bytes(), #[trigger] r@[j].0 as int, r@[j].1 as int),
        forall|i: int, j: int| 0 <= i < j < r.len() ==> r@[i].1 < r@[j].0,
        forall|a: int, b: int|
            is_part(rel.spec_bytes(), a, b) ==> exists|j: int|
                0 <= j < r.len() && #[trigger] r@[j].0 == a && r@[j].1 == b,
{
    let s = rel.as_bytes();
    let ghost sb = rel.spec_bytes();
    let mut r: Vec<(usize, usize)> = Vec::new();
    let mut start: usize = 0;
    let mut k: usize = 0;
    while k < s.len()
        invariant
            s@ == sb,
            start <= k <= s.len(),
            forall|m: int| start <= m < k ==> sb[m] != 47,
            start == 0 || sb[start - 1] == 47,
            forall|j: int| 0 <= j < r.len() ==> is_part(sb, #[trigger] r@[j].0 as int, r@[j].1 as int),
            forall|i: int, j: int| 0 <= i < j < r.len() ==> r@[i].1 < r@[j].0,
            forall|j: int| 0 <= j < r.len() ==> #[trigger] r@[j].1 < start,
            forall|a: int, b: int|
                is_part(sb, a, b) && b < start ==> exists|j: int|
                    0 <= j < r.len() && #[trigger] r@[j].0 == a && r@[j].1 == b,
        decreases s.len() - k,
    {
        if s[k] == 47 {
            if start < k {
                let ghost before = r@;
                r.push((start, k));
                proof {
                    assert(is_part(sb, start as int, k as int));
                    assert forall|a: int, b: int| is_part(sb, a, b) && b < k + 1 implies exists|j: int|
                        0 <= j < r.len() && #[trigger] r@[j].0 == a && r@[j].1 == b by {
                        if b < start {
                            let j = choose|j: int|
                                0 <= j < before.len() && before[j].0 == a && before[j].1 == b;
                            assert(r@[j] == before[j]);
                        } else {
                            assert(b == k);
                            assert(a == start);
                            assert(r@[before.len() as int].0 == a);
                        }
                    }
                }
            } else {
                proof {
                    assert forall|a: int, b: int| is_part(sb, a, b) && b < k + 1 implies exists|j: int|
                        0 <= j < r.len() && #[trigger] r@[j].0 == a && r@[j].1 == b by {
                        if b >= start {
                            assert(b == k);
                            assert(a < b);
                            assert(sb[a] != 47);
                        }
                    }
                }
            }
            start = k + 1;
        }
        k += 1;
    }
    if start < s.len() {
        let ghost before = r@;
        r.push((start, s.len()));
        proof {
            assert(is_part(sb, start as int, s.len() as int));
            assert forall|a: int, b: int| is_part(sb, a, b) implies exists|j: int|
                0 <= j < r.len() && #[trigger] r@[j].0 == a && r@[j].1 == b by {
                if b < start {
                    let j = choose|j: int|
                        0 <= j < before.len() && before[j].0 == a && before[j].1 == b;
                    assert(r@[j] == before[j]);
                } else {
                    if a < start {
                        assert(sb[start - 1] == 47);
                    }
                    assert(a == start);
                    assert(r@[before.len() as int].0 == a);
                }
            }
        }
    } else {
        proof {
            assert forall|a: int, b: int| is_part(sb, a, b) implies exists|j: int|
                0 <= j < r.len() && #[trigger] r@[j].0 == a && r@[j].1 == b by {
                if b >= start {
                    assert(b <= s.len());
                    assert(a < b);
                }
            }
        }
    }
    r
}

} // verus!
