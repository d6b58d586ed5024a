use vstd::prelude::*;
use vstd::utf8::*;

use crate::text::{
    byte_len, ceil_boundary, ceil_char_boundary, char_offset, floor_boundary,
    floor_char_boundary, lemma_char_offset_boundary, lemma_occurrence_boundaries, occurs_at,
};
use crate::types::SearchMatch;

verus! {

broadcast use vstd::utf8::group_utf8_lib;

// ── Characters of words ───────────────────────────────────────────────────

/// What `char::is_alphanumeric` answers for `c`: whether it is Unicode
/// Alphabetic or Numeric.
pub uninterp spec fn unicode_alphanumeric(c: char) -> bool;

/// `char::is_alphanumeric`, which decides by the Unicode tables; the
/// contract claims only that the answer is `unicode_alphanumeric(c)`, a
/// function of `c` alone.
#[verifier::external_body]
fn alphanumeric(c: char) -> (b: bool)
    ensures
        b == unicode_alphanumeric(c),
{
    c.is_alphanumeric()
}

/// The characters that make up words: alphanumerics and the underscore.
pub open spec fn word_char(c: char) -> bool {
    unicode_alphanumeric(c) || c == '_'
}

/// Whether `c` belongs to a word.
pub fn is_word_char(c: char) -> (b: bool)
    ensures
        b == word_char(c),
{
    alphanumeric(c) || c == '_'
}

/// The byte span `[start, end)` of `text` is not glued to a word: the
/// character before it (before the boundary at or below `start`) and the
/// character at `end` are not word characters.
pub open spec fn word_boundary(text: Seq<char>, start: int, end: int) -> bool {
    let bytes = encode_utf8(text);
    let before = floor_boundary(bytes, start);
    let head = decode_utf8(bytes.subrange(0, before));
    let tail = decode_utf8(bytes.subrange(end, bytes.len() as int));
    let pre_is_word = before > 0 && word_char(head.last());
    let post_is_word = tail.len() > 0 && word_char(tail[0]);
    !pre_is_word && !post_is_word
}

/// Whether the byte span `[start, end)` of `text` stands between word
/// boundaries.
pub fn is_word_boundary(text: &str, start: usize, end: usize) -> (b: bool)
    requires
        is_char_boundary(encode_utf8(text@), end as int),
    ensures
        b == word_boundary(text@, start as int, end as int),
{
    let before = floor_char_boundary(text, start);
    let pre_is_word = if before > 0 {
        let (head, _) = text.split_at(before);
        proof {
            encode_utf8_decode_utf8(head@);
        }
        let k = head.unicode_len();
        is_word_char(head.get_char(k - 1))
    } else {
        false
    };
    let (_, tail) = text.split_at(end);
    proof {
        encode_utf8_decode_utf8(tail@);
    }
    let post_is_word = if tail.unicode_len() > 0 {
        is_word_char(tail.get_char(0))
    } else {
        false
    };
    !pre_is_word && !post_is_word
}

// ── Finding the needle ────────────────────────────────────────────────────

/// The first position at or after `from` where `needle` occurs in `hay`.
pub open spec fn find_from(hay: Seq<u8>, needle: Seq<u8>, from: int) -> Option<int>
    decreases hay.len() + 1 - from,
{
    if from < 0 || from + needle.len() > hay.len() {
        None
    } else if occurs_at(hay, needle, from) {
        Some(from)
    } else {
        find_from(hay, needle, from + 1)
    }
}

/// What `find_from` finds is an occurrence at or after `from`, and nothing
/// occurs between `from` and it.
pub proof fn lemma_find_from(hay: Seq<u8>, needle: Seq<u8>, from: int)
    requires
        0 <= from,
    ensures
        find_from(hay, needle, from) matches Some(p) ==> from <= p && occurs_at(hay, needle, p)
            && forall|q: int| from <= q < p ==> !occurs_at(hay, needle, q),
        find_from(hay, needle, from) is None ==> forall|q: int| from <= q ==> !occurs_at(hay, needle, q),
    decreases hay.len() + 1 - from,
{
    if from + needle.len() <= hay.len() && !occurs_at(hay, needle, from) {
        lemma_find_from(hay, needle, from + 1);
    }
}

/// Whether `needle` occurs in `hay` at `p`.
fn matches_at(hay: &[u8], needle: &[u8], p: usize) -> (b: bool)
    requires
        p + needle@.len() <= hay@.len(),
    ensures
        b == occurs_at(hay@, needle@, p as int),
{
    let n = needle.len();
    let len = hay.len();
    let mut k: usize = 0;
    while k < n
        invariant
            n == needle@.len(),
            len == hay@.len(),
            p + n <= hay@.len(),
            k <= n,
            forall|j: int| 0 <= j < k ==> hay@[p + j] == needle@[j],
        decreases n - k,
    {
        if hay[p + k] != needle[k] {
            assert(hay@.subrange(p as int, p + n)[k as int] != needle@[k as int]);
            return false;
        }
        k += 1;
    }
    assert(hay@.subrange(p as int, p + n) =~= needle@);
    true
}

/// The first position at or after `from` where `needle` occurs in `hay`.
pub fn memchr_find(hay: &[u8], needle: &[u8], from: usize) -> (r: Option<usize>)
    requires
        needle@.len() > 0,
    ensures
        match r {
            Some(p) => find_from(hay@, needle@, from as int) == Some(p as int),
            None => find_from(hay@, needle@, from as int) is None,
        },
{
    let len = hay.len();
    let n = needle.len();
    if from > len || n > len - from {
        return None;
    }
    let mut p: usize = from;
    while p <= len - n
        invariant
            len == hay@.len(),
            n == needle@.len(),
            n > 0,
            n <= len,
            from <= p,
            p <= len - n + 1,
            find_from(hay@, needle@, from as int) == find_from(hay@, needle@, p as int),
        decreases len - n + 1 - p,
    {
        if matches_at(hay, needle, p) {
            return Some(p);
        }
        p += 1;
    }
    None
}

// ── Case-sensitive search ─────────────────────────────────────────────────

/// The find matches in `hay` of the needle with UTF-8 bytes `needle`,
/// scanning from byte `start`: each leftmost occurrence in turn, going on
/// after its end; with `whole_words`, an occurrence not between word
/// boundaries is passed over and the scan goes on one byte after its start.
/// Each match is the row `ri` with the match's byte span.
pub open spec fn cs_scan(hay: Seq<char>, needle: Seq<u8>, whole_words: bool, ri: usize, start: int) -> Seq<(usize, usize, usize)>
    decreases encode_utf8(hay).len() + 1 - start,
{
    let bytes = encode_utf8(hay);
    if needle.len() == 0 || start < 0 {
        Seq::empty()
    } else {
        match find_from(bytes, needle, start) {
            None => Seq::empty(),
            Some(f) => {
                proof {
                    lemma_find_from(bytes, needle, start);
                }
                let e = f + needle.len();
                if whole_words && !word_boundary(hay, f, e) {
                    cs_scan(hay, needle, whole_words, ri, f + 1)
                } else {
                    seq![(ri, f as usize, e as usize)] + cs_scan(hay, needle, whole_words, ri, e)
                }
            },
        }
    }
}

/// Every case-sensitive find match is an occurrence of the needle in the
/// line, at or after where the scan started; the matches come in order
/// without overlapping; with whole words each one stands between word
/// boundaries.
pub proof fn lemma_cs_scan_sound(hay: Seq<char>, needle: Seq<u8>, whole_words: bool, ri: usize, start: int)
    requires
        start >= 0,
        encode_utf8(hay).len() <= usize::MAX,
    ensures
        forall|k: int|
            #![trigger cs_scan(hay, needle, whole_words, ri, start)[k]]
            0 <= k < cs_scan(hay, needle, whole_words, ri, start).len() ==> {
                let m = cs_scan(hay, needle, whole_words, ri, start)[k];
                &&& m.0 == ri
                &&& start <= m.1
                &&& occurs_at(encode_utf8(hay), needle, m.1 as int)
                &&& m.2 == m.1 + needle.len()
                &&& whole_words ==> word_boundary(hay, m.1 as int, m.2 as int)
            },
        forall|k: int|
            #![trigger cs_scan(hay, needle, whole_words, ri, start)[k]]
            0 <= k < cs_scan(hay, needle, whole_words, ri, start).len() - 1 ==> cs_scan(
                hay,
                needle,
                whole_words,
                ri,
                start,
            )[k].2 <= cs_scan(hay, needle, whole_words, ri, start)[k + 1].1,
    decreases encode_utf8(hay).len() + 1 - start,
{
    let bytes = encode_utf8(hay);
    let scan = cs_scan(hay, needle, whole_words, ri, start);
    if needle.len() > 0 {
        lemma_find_from(bytes, needle, start);
        match find_from(bytes, needle, start) {
            None => {},
            Some(f) => {
                let e = f + needle.len();
                if whole_words && !word_boundary(hay, f, e) {
                    lemma_cs_scan_sound(hay, needle, whole_words, ri, f + 1);
                    assert(scan == cs_scan(hay, needle, whole_words, ri, f + 1));
                } else {
                    lemma_cs_scan_sound(hay, needle, whole_words, ri, e);
                    let rest = cs_scan(hay, needle, whole_words, ri, e);
                    assert(scan == seq![(ri, f as usize, e as usize)] + rest);
                    assert forall|k: int| 0 <= k < scan.len() implies {
                        let m = #[trigger] scan[k];
                        &&& m.0 == ri
                        &&& start <= m.1
                        &&& occurs_at(bytes, needle, m.1 as int)
                        &&& m.2 == m.1 + needle.len()
                        &&& whole_words ==> word_boundary(hay, m.1 as int, m.2 as int)
                    } by {
                        if k > 0 {
                            assert(scan[k] == rest[k - 1]);
                        } else {
                            assert(scan[0] == (ri, f as usize, e as usize));
                        }
                    }
                    assert forall|k: int| 0 <= k < scan.len() - 1 implies #[trigger] scan[k].2 <= scan[k + 1].1 by {
                        if k > 0 {
                            assert(scan[k] == rest[k - 1]);
                            assert(scan[k + 1] == rest[k]);
                        } else {
                            assert(scan[1] == rest[0]);
                        }
                    }
                }
            },
        }
    }
}

/// Appends to `out` the case-sensitive find matches of `needle_bytes` in the
/// line `hay` (whose bytes are `hay_bytes`) as rows `ri`.
pub fn find_ranges_cs(
    hay_bytes: &[u8],
    needle_bytes: &[u8],
    whole_words: bool,
    ri: usize,
    hay: &str,
    out: &mut Vec<(usize, usize, usize)>,
)
    requires
        hay_bytes@ == encode_utf8(hay@),
        valid_utf8(needle_bytes@),
    ensures
        final(out)@ == old(out)@ + cs_scan(hay@, needle_bytes@, whole_words, ri, 0),
{
    if needle_bytes.len() == 0 || needle_bytes.len() > hay_bytes.len() {
        assert(cs_scan(hay@, needle_bytes@, whole_words, ri, 0) =~= Seq::empty());
        assert(old(out)@ + Seq::<(usize, usize, usize)>::empty() =~= old(out)@);
        return;
    }
    let ghost target = old(out)@ + cs_scan(hay@, needle_bytes@, whole_words, ri, 0);
    let hay_len = hay_bytes.len();
    let mut start: usize = 0;
    loop
        invariant
            target == old(out)@ + cs_scan(hay@, needle_bytes@, whole_words, ri, 0),
            hay_len == hay_bytes@.len(),
            hay_bytes@ == encode_utf8(hay@),
            valid_utf8(needle_bytes@),
            needle_bytes@.len() > 0,
            start <= hay_bytes@.len() + 1,
            target == out@ + cs_scan(hay@, needle_bytes@, whole_words, ri, start as int),
        decreases hay_bytes@.len() + 1 - start,
    {
        match memchr_find(hay_bytes, needle_bytes, start) {
            None => {
                assert(out@ + cs_scan(hay@, needle_bytes@, whole_words, ri, start as int) =~= out@);
                return;
            },
            Some(found) => {
                proof {
                    lemma_find_from(hay_bytes@, needle_bytes@, start as int);
                    lemma_occurrence_boundaries(hay_bytes@, needle_bytes@, found as int);
                }
                let end = found + needle_bytes.len();
                if whole_words && !is_word_boundary(hay, found, end) {
                    start = found + 1;
                } else {
                    let ghost before = out@;
                    out.push((ri, found, end));
                    assert(before + (seq![(ri, found, end)] + cs_scan(hay@, needle_bytes@, whole_words, ri, end as int))
                        =~= out@ + cs_scan(hay@, needle_bytes@, whole_words, ri, end as int));
                    start = end;
                }
            },
        }
    }
}

// ── Case-insensitive search ───────────────────────────────────────────────

/// What `str::to_lowercase` gives for `s`: its lowercase form by the Unicode
/// tables, character by character, with a capital sigma at the end of a word
/// taken to the final form.
pub uninterp spec fn lowercase_chars(s: Seq<char>) -> Seq<char>;

/// `str::to_lowercase`, which maps by the Unicode tables; the contract
/// claims only that the characters of the result are `lowercase_chars` of
/// those of `s`, a function of `s` alone.
#[verifier::external_body]
fn to_lowercase(s: &str) -> (r: String)
    ensures
        r@ == lowercase_chars(s@),
{
    s.to_lowercase()
}

/// The number of characters encoded by the first `b` bytes of `bytes`.
pub open spec fn chars_before(bytes: Seq<u8>, b: int) -> int {
    decode_utf8(bytes.subrange(0, b)).len() as int
}

/// How many characters `char::to_lowercase` gives for `c`: the length of
/// its Unicode lowercase mapping.
pub uninterp spec fn lowercase_len(c: char) -> nat;

/// `char::to_lowercase`, taken by the number of characters its iterator
/// yields; the contract claims only that this number is `lowercase_len(c)`,
/// a function of `c` alone.
#[verifier::external_body]
fn lowercase_count(c: char) -> (n: usize)
    ensures
        n == lowercase_len(c),
{
    c.to_lowercase().len()
}

/// The number of characters that lowercasing the first `i` characters of
/// `s` one by one gives.
pub open spec fn lowered_before(s: Seq<char>, i: int) -> int
    decreases i,
{
    if i <= 0 || s.len() < i {
        0
    } else {
        lowered_before(s, i - 1) + lowercase_len(s[i - 1])
    }
}

/// The first character of `s`, from index `i` on, whose lowercase form
/// holds the lowercased character at index `n`: the first `j` whose
/// lowercase form ends past `n` (the length of `s` when there is none).
pub open spec fn source_covering(s: Seq<char>, n: int, i: int) -> int
    decreases s.len() - i,
{
    if i < 0 || i >= s.len() {
        s.len() as int
    } else if lowered_before(s, i + 1) > n {
        i
    } else {
        source_covering(s, n, i + 1)
    }
}

/// The fewest characters of `s`, from `i` on, whose lowercase forms make up
/// at least `n` lowercased characters (the length of `s` when there are
/// not enough).
pub open spec fn source_reaching(s: Seq<char>, n: int, i: int) -> int
    decreases s.len() - i,
{
    if i < 0 || i >= s.len() {
        s.len() as int
    } else if lowered_before(s, i) >= n {
        i
    } else {
        source_reaching(s, n, i + 1)
    }
}

/// The two searches over the characters of `s` give an index of `s`, or
/// its length.
pub proof fn lemma_source_bounds(s: Seq<char>, n: int, i: int)
    requires
        0 <= i,
    ensures
        0 <= source_covering(s, n, i) <= s.len(),
        0 <= source_reaching(s, n, i) <= s.len(),
    decreases s.len() - i,
{
    if i < s.len() {
        lemma_source_bounds(s, n, i + 1);
    }
}

/// Carries the byte span `[lo_start, lo_end)` of the lowercased line `lower`
/// over to the line `orig` as written: the span is widened to character
/// boundaries of `lower`; it starts at the character of `orig` whose
/// lowercase form holds its first lowercased character, and ends after the
/// character of `orig` whose lowercase form holds its last one.
pub open spec fn ci_offsets(orig: Seq<char>, lower: Seq<char>, lo_start: int, lo_end: int) -> (int, int) {
    let lb = encode_utf8(lower);
    let s = floor_boundary(lb, lo_start);
    let e = ceil_boundary(lb, if lo_end < lb.len() { lo_end } else { lb.len() as int });
    (
        char_offset(orig, source_covering(orig, chars_before(lb, s), 0)),
        char_offset(orig, source_reaching(orig, chars_before(lb, e), 0)),
    )
}

/// The index of the character of `s` whose lowercase form holds the
/// lowercased character at index `n`, or the length of `s`.
fn covering_index(s: &str, n: usize) -> (r: usize)
    ensures
        r == source_covering(s@, n as int, 0),
{
    let len = s.unicode_len();
    let mut i: usize = 0;
    let mut cum: usize = 0;
    while i < len
        invariant
            len == s@.len(),
            i <= len,
            cum == lowered_before(s@, i as int),
            cum <= n,
            source_covering(s@, n as int, 0) == source_covering(s@, n as int, i as int),
        decreases len - i,
    {
        let c = lowercase_count(s.get_char(i));
        assert(lowered_before(s@, i + 1) == cum + lowercase_len(s@[i as int]));
        if c > n - cum {
            return i;
        }
        cum = cum + c;
        i = i + 1;
    }
    i
}

/// The fewest characters of `s` whose lowercase forms make up at least `n`
/// lowercased characters, or the length of `s`.
fn reaching_index(s: &str, n: usize) -> (r: usize)
    ensures
        r == source_reaching(s@, n as int, 0),
{
    let len = s.unicode_len();
    let mut i: usize = 0;
    let mut cum: usize = 0;
    while i < len
        invariant
            len == s@.len(),
            i <= len,
            cum == lowered_before(s@, i as int),
            source_reaching(s@, n as int, 0) == source_reaching(s@, n as int, i as int),
        decreases len - i,
    {
        if cum >= n {
            return i;
        }
        let c = lowercase_count(s.get_char(i));
        assert(lowered_before(s@, i + 1) == cum + lowercase_len(s@[i as int]));
        if c >= n - cum {
            assert(source_reaching(s@, n as int, i as int) == source_reaching(s@, n as int, i + 1));
            return i + 1;
        }
        cum = cum + c;
        i = i + 1;
    }
    i
}

/// The byte position of the character at index `n` of `s` (its byte length
/// when `n` is past the last character).
fn char_byte_offset(s: &str, n: usize) -> (r: usize)
    ensures
        r == char_offset(s@, n as int),
{
    if n < s.unicode_len() {
        byte_len(s.substring_char(0, n))
    } else {
        byte_len(s)
    }
}

/// The number of characters in the first `b` bytes of `s`, `b` a boundary.
fn chars_in_prefix(s: &str, b: usize) -> (n: usize)
    requires
        is_char_boundary(encode_utf8(s@), b as int),
    ensures
        n == chars_before(encode_utf8(s@), b as int),
{
    let (head, _) = s.split_at(b);
    proof {
        encode_utf8_decode_utf8(head@);
    }
    head.unicode_len()
}

/// The byte span in `orig` of the span `[lo_start, lo_end)` of its
/// lowercased form `lower`.
pub fn map_ci_offsets(orig: &str, lower: &str, lo_start: usize, lo_end: usize) -> (r: (usize, usize))
    ensures
        r.0 == ci_offsets(orig@, lower@, lo_start as int, lo_end as int).0,
        r.1 == ci_offsets(orig@, lower@, lo_start as int, lo_end as int).1,
        is_char_boundary(encode_utf8(orig@), r.0 as int),
        is_char_boundary(encode_utf8(orig@), r.1 as int),
{
    let s = floor_char_boundary(lower, lo_start);
    let lower_len = byte_len(lower);
    let lo_end = if lo_end < lower_len {
        lo_end
    } else {
        lower_len
    };
    let e = ceil_char_boundary(lower, lo_end);
    let n_start = chars_in_prefix(lower, s);
    let n_end = chars_in_prefix(lower, e);
    let i_start = covering_index(orig, n_start);
    let i_end = reaching_index(orig, n_end);
    proof {
        lemma_char_offset_boundary(orig@, i_start as int);
        lemma_char_offset_boundary(orig@, i_end as int);
    }
    (char_byte_offset(orig, i_start), char_byte_offset(orig, i_end))
}

/// The case-insensitive find matches in `hay` of the needle with UTF-8
/// bytes `needle` (already lowercased), scanning the lowercased line from
/// byte `start`: each leftmost occurrence in turn, going on after its end,
/// carried back to a span of `hay`; with `whole_words`, a span not between
/// word boundaries is passed over.
pub open spec fn ci_scan(hay: Seq<char>, needle: Seq<u8>, whole_words: bool, ri: usize, start: int) -> Seq<(usize, usize, usize)>
    decreases encode_utf8(lowercase_chars(hay)).len() + 1 - start,
{
    let lower = lowercase_chars(hay);
    let bytes = encode_utf8(lower);
    if needle.len() == 0 || start < 0 {
        Seq::empty()
    } else {
        match find_from(bytes, needle, start) {
            None => Seq::empty(),
            Some(f) => {
                proof {
                    lemma_find_from(bytes, needle, start);
                }
                let e = f + needle.len();
                let span = ci_offsets(hay, lower, f, e);
                if whole_words && !word_boundary(hay, span.0, span.1) {
                    ci_scan(hay, needle, whole_words, ri, e)
                } else {
                    seq![(ri, span.0 as usize, span.1 as usize)] + ci_scan(hay, needle, whole_words, ri, e)
                }
            },
        }
    }
}

/// Every case-insensitive find match is a span of the line as written that
/// starts and ends on character boundaries, so that it can be cut out of
/// the line; with whole words it stands between word boundaries.
pub proof fn lemma_ci_scan_sound(hay: Seq<char>, needle: Seq<u8>, whole_words: bool, ri: usize, start: int)
    requires
        start >= 0,
        encode_utf8(hay).len() <= usize::MAX,
    ensures
        forall|k: int|
            #![trigger ci_scan(hay, needle, whole_words, ri, start)[k]]
            0 <= k < ci_scan(hay, needle, whole_words, ri, start).len() ==> {
                let m = ci_scan(hay, needle, whole_words, ri, start)[k];
                &&& m.0 == ri
                &&& is_char_boundary(encode_utf8(hay), m.1 as int)
                &&& is_char_boundary(encode_utf8(hay), m.2 as int)
                &&& whole_words ==> word_boundary(hay, m.1 as int, m.2 as int)
            },
    decreases encode_utf8(lowercase_chars(hay)).len() + 1 - start,
{
    let lower = lowercase_chars(hay);
    let bytes = encode_utf8(lower);
    let scan = ci_scan(hay, needle, whole_words, ri, start);
    if needle.len() > 0 {
        lemma_find_from(bytes, needle, start);
        match find_from(bytes, needle, start) {
            None => {},
            Some(f) => {
                let e = f + needle.len();
                let span = ci_offsets(hay, lower, f, e);
                let lb = bytes;
                let s0 = floor_boundary(lb, f);
                let e0 = ceil_boundary(lb, if e < lb.len() { e } else { lb.len() as int });
                lemma_source_bounds(hay, chars_before(lb, s0), 0);
                lemma_source_bounds(hay, chars_before(lb, e0), 0);
                lemma_char_offset_boundary(hay, source_covering(hay, chars_before(lb, s0), 0));
                lemma_char_offset_boundary(hay, source_reaching(hay, chars_before(lb, e0), 0));
                lemma_ci_scan_sound(hay, needle, whole_words, ri, e);
                let rest = ci_scan(hay, needle, whole_words, ri, e);
                if whole_words && !word_boundary(hay, span.0, span.1) {
                    assert(scan == rest);
                } else {
                    assert(scan == seq![(ri, span.0 as usize, span.1 as usize)] + rest);
                    assert forall|k: int| 0 <= k < scan.len() implies {
                        let m = #[trigger] scan[k];
                        &&& m.0 == ri
                        &&& is_char_boundary(encode_utf8(hay), m.1 as int)
                        &&& is_char_boundary(encode_utf8(hay), m.2 as int)
                        &&& whole_words ==> word_boundary(hay, m.1 as int, m.2 as int)
                    } by {
                        if k > 0 {
                            assert(scan[k] == rest[k - 1]);
                        } else {
                            assert(scan[0] == (ri, span.0 as usize, span.1 as usize));
                        }
                    }
                }
            },
        }
    }
}

/// Appends to `out` the case-insensitive find matches of the lowercased
/// needle `needle_lower` in the line `hay` as rows `ri`.
pub fn find_ranges_ci(
    hay: &str,
    needle_lower: &str,
    whole_words: bool,
    ri: usize,
    out: &mut Vec<(usize, usize, usize)>,
)
    ensures
        final(out)@ == old(out)@ + ci_scan(hay@, encode_utf8(needle_lower@), whole_words, ri, 0),
{
    if needle_lower.unicode_len() == 0 {
        assert(ci_scan(hay@, encode_utf8(needle_lower@), whole_words, ri, 0) =~= Seq::empty());
        assert(old(out)@ + Seq::<(usize, usize, usize)>::empty() =~= old(out)@);
        return;
    }
    let hay_lower = to_lowercase(hay);
    let ndl = needle_lower.as_bytes();
    let hay_b = hay_lower.as_str().as_bytes();
    let ghost target = old(out)@ + ci_scan(hay@, ndl@, whole_words, ri, 0);
    let hay_len = hay_b.len();
    let mut start: usize = 0;
    loop
        invariant
            target == old(out)@ + ci_scan(hay@, ndl@, whole_words, ri, 0),
            hay_len == hay_b@.len(),
            hay_b@ == encode_utf8(lowercase_chars(hay@)),
            hay_lower@ == lowercase_chars(hay@),
            ndl@ == encode_utf8(needle_lower@),
            ndl@.len() > 0,
            start <= hay_b@.len() + 1,
            target == out@ + ci_scan(hay@, ndl@, whole_words, ri, start as int),
        decreases hay_b@.len() + 1 - start,
    {
        match memchr_find(hay_b, ndl, start) {
            None => {
                assert(out@ + ci_scan(hay@, ndl@, whole_words, ri, start as int) =~= out@);
                return;
            },
            Some(found) => {
                proof {
                    lemma_find_from(hay_b@, ndl@, start as int);
                }
                let end = found + ndl.len();
                let (orig_start, orig_end) = map_ci_offsets(hay, hay_lower.as_str(), found, end);
                if whole_words && !is_word_boundary(hay, orig_start, orig_end) {
                    start = end;
                } else {
                    let ghost before = out@;
                    out.push((ri, orig_start, orig_end));
                    assert(before + (seq![(ri, orig_start, orig_end)] + ci_scan(hay@, ndl@, whole_words, ri, end as int))
                        =~= out@ + ci_scan(hay@, ndl@, whole_words, ri, end as int));
                    start = end;
                }
            },
        }
    }
}

// ── Find in results ───────────────────────────────────────────────────────

/// The find matches of `text` in one result line, as rows `ri`.
pub open spec fn row_matches(line: Seq<char>, text: Seq<char>, match_case: bool, whole_words: bool, ri: usize) -> Seq<(usize, usize, usize)> {
    if match_case {
        cs_scan(line, encode_utf8(text), whole_words, ri, 0)
    } else {
        ci_scan(line, encode_utf8(lowercase_chars(text)), whole_words, ri, 0)
    }
}

/// The find matches of `text` in all result lines, row after row; each is
/// (row, start byte, end byte).
pub open spec fn all_find_matches(lines: Seq<Seq<char>>, text: Seq<char>, match_case: bool, whole_words: bool) -> Seq<(usize, usize, usize)>
    decreases lines.len(),
{
    if lines.len() == 0 {
        Seq::empty()
    } else {
        all_find_matches(lines.drop_last(), text, match_case, whole_words) + row_matches(
            lines.last(),
            text,
            match_case,
            whole_words,
            (lines.len() - 1) as usize,
        )
    }
}

/// The text of each result line.
pub open spec fn result_lines(results: Seq<SearchMatch>) -> Seq<Seq<char>> {
    results.map_values(|m: SearchMatch| m.line_text@)
}

/// With match case off, the find matches do not depend on the case of the
/// find text: two texts with the same lowercase form find the same matches
/// in every line.
pub proof fn lemma_find_ignores_text_case(lines: Seq<Seq<char>>, t1: Seq<char>, t2: Seq<char>, whole_words: bool)
    requires
        lowercase_chars(t1) == lowercase_chars(t2),
    ensures
        all_find_matches(lines, t1, false, whole_words) == all_find_matches(lines, t2, false, whole_words),
    decreases lines.len(),
{
    if lines.len() > 0 {
        lemma_find_ignores_text_case(lines.drop_last(), t1, t2, whole_words);
    }
}

/// Every match found in line `i` is reported among the matches of all the
/// lines, as a match of row `i`.
proof fn lemma_row_matches_reported(
    lines: Seq<Seq<char>>,
    text: Seq<char>,
    match_case: bool,
    whole_words: bool,
    i: int,
    k: int,
)
    requires
        0 <= i < lines.len() <= usize::MAX,
        0 <= k < row_matches(lines[i], text, match_case, whole_words, i as usize).len(),
    ensures
        all_find_matches(lines, text, match_case, whole_words).contains(
            row_matches(lines[i], text, match_case, whole_words, i as usize)[k],
        ),
    decreases lines.len(),
{
    let pre = lines.drop_last();
    let before = all_find_matches(pre, text, match_case, whole_words);
    let all = all_find_matches(lines, text, match_case, whole_words);
    let x = row_matches(lines[i], text, match_case, whole_words, i as usize)[k];
    if i < lines.len() - 1 {
        assert(pre[i] == lines[i]);
        lemma_row_matches_reported(pre, text, match_case, whole_words, i, k);
        let j = choose|j: int| 0 <= j < before.len() && before[j] == x;
        assert(all[j] == x);
    } else {
        assert(all[before.len() + k] == x);
    }
}

/// With match case off and whole words off, a line where the lowercased
/// find text occurs in the lowercased line reports a match of its row, and
/// a line where it does not occur reports none.
pub proof fn lemma_ci_finds_lowercase_occurrences(lines: Seq<Seq<char>>, text: Seq<char>, i: int)
    requires
        0 <= i < lines.len() <= usize::MAX,
        lowercase_chars(text).len() > 0,
    ensures
        (exists|p: int| occurs_at(encode_utf8(lowercase_chars(lines[i])), encode_utf8(lowercase_chars(text)), p))
            <==> (exists|k: int|
            0 <= k < all_find_matches(lines, text, false, false).len() && (#[trigger] all_find_matches(
                lines,
                text,
                false,
                false,
            )[k]).0 == i),
{
    let line = lines[i];
    let bytes = encode_utf8(lowercase_chars(line));
    let needle = encode_utf8(lowercase_chars(text));
    let all = all_find_matches(lines, text, false, false);
    assert(needle.len() > 0) by {
        encode_utf8_decode_utf8(lowercase_chars(text));
        if needle.len() == 0 {
            assert(decode_utf8(needle) =~= Seq::<char>::empty());
        }
    }
    lemma_find_from(bytes, needle, 0);
    let row = row_matches(line, text, false, false, i as usize);
    if exists|p: int| occurs_at(bytes, needle, p) {
        let p = choose|p: int| occurs_at(bytes, needle, p);
        assert(find_from(bytes, needle, 0) is Some);
        assert(row.len() > 0 && row[0].0 == i);
        lemma_row_matches_reported(lines, text, false, false, i, 0);
        let j = choose|j: int| 0 <= j < all.len() && all[j] == row[0];
        assert(all[j].0 == i);
    }
    if exists|k: int| 0 <= k < all.len() && (#[trigger] all[k]).0 == i {
        let k = choose|k: int| 0 <= k < all.len() && (#[trigger] all[k]).0 == i;
        lemma_matches_from_row(lines, text, i, k);
        assert(row.len() > 0);
        assert(find_from(bytes, needle, 0) is Some);
        let f = find_from(bytes, needle, 0)->0;
        assert(occurs_at(bytes, needle, f));
    }
}

/// A match of row `i` among the matches of all the lines, with match case
/// and whole words off, comes from the matches of line `i`.
proof fn lemma_matches_from_row(lines: Seq<Seq<char>>, text: Seq<char>, i: int, k: int)
    requires
        0 <= i < lines.len() <= usize::MAX,
        0 <= k < all_find_matches(lines, text, false, false).len(),
        all_find_matches(lines, text, false, false)[k].0 == i,
    ensures
        row_matches(lines[i], text, false, false, i as usize).len() > 0,
    decreases lines.len(),
{
    let pre = lines.drop_last();
    let before = all_find_matches(pre, text, false, false);
    let all = all_find_matches(lines, text, false, false);
    let last = (lines.len() - 1) as usize;
    let row = row_matches(lines.last(), text, false, false, last);
    if k < before.len() {
        assert(all[k] == before[k]);
        if i < pre.len() {
            assert(pre[i] == lines[i]);
            lemma_matches_from_row(pre, text, i, k);
        } else {
            lemma_rows_below(pre, text, k);
        }
    } else {
        assert(all[k] == row[k - before.len()]);
        lemma_row_tags(lines.last(), text, last, k - before.len());
    }
}

/// The matches of all the lines belong to rows below their number.
proof fn lemma_rows_below(lines: Seq<Seq<char>>, text: Seq<char>, k: int)
    requires
        lines.len() <= usize::MAX,
        0 <= k < all_find_matches(lines, text, false, false).len(),
    ensures
        all_find_matches(lines, text, false, false)[k].0 < lines.len(),
    decreases lines.len(),
{
    let pre = lines.drop_last();
    let before = all_find_matches(pre, text, false, false);
    let all = all_find_matches(lines, text, false, false);
    let last = (lines.len() - 1) as usize;
    if k < before.len() {
        assert(all[k] == before[k]);
        lemma_rows_below(pre, text, k);
    } else {
        lemma_row_tags(lines.last(), text, last, k - before.len());
    }
}

/// The case-insensitive matches of a line with whole words off are tagged
/// with its row.
proof fn lemma_row_tags(line: Seq<char>, text: Seq<char>, ri: usize, k: int)
    requires
        0 <= k < row_matches(line, text, false, false, ri).len(),
    ensures
        row_matches(line, text, false, false, ri)[k].0 == ri,
{
    lemma_ci_tags(line, encode_utf8(lowercase_chars(text)), ri, 0, k);
}

/// Every case-insensitive match with whole words off is tagged with the
/// row it was scanned for.
proof fn lemma_ci_tags(hay: Seq<char>, needle: Seq<u8>, ri: usize, start: int, k: int)
    requires
        0 <= k < ci_scan(hay, needle, false, ri, start).len(),
    ensures
        ci_scan(hay, needle, false, ri, start)[k].0 == ri,
    decreases encode_utf8(lowercase_chars(hay)).len() + 1 - start,
{
    let bytes = encode_utf8(lowercase_chars(hay));
    if needle.len() > 0 && start >= 0 {
        lemma_find_from(bytes, needle, start);
        match find_from(bytes, needle, start) {
            None => {},
            Some(f) => {
                let e = f + needle.len();
                if k > 0 {
                    lemma_ci_tags(hay, needle, ri, e, k - 1);
                }
            },
        }
    }
}

/// The position after `c` among `total` matches, going round to the first.
pub open spec fn next_position(c: int, total: int) -> int {
    (c + 1) % total
}

/// The position before `c` among `total` matches, going round to the last.
pub open spec fn previous_position(c: int, total: int) -> int {
    (c + total - 1) % total
}

/// Stepping to the next match and back, or back and then forward, returns
/// to the match one started from.
pub proof fn lemma_next_previous(c: int, total: int)
    requires
        0 <= c < total,
    ensures
        previous_position(next_position(c, total), total) == c,
        next_position(previous_position(c, total), total) == c,
        0 <= next_position(c, total) < total,
        0 <= previous_position(c, total) < total,
{
    if c + 1 < total {
        assert(next_position(c, total) == c + 1) by (nonlinear_arith)
            requires
                0 <= c,
                c + 1 < total,
        ;
        assert((c + 1 + total - 1) % total == c) by (nonlinear_arith)
            requires
                0 <= c < total,
        ;
    } else {
        assert(next_position(c, total) == 0) by (nonlinear_arith)
            requires
                0 <= c,
                c + 1 == total,
        ;
        assert((0 + total - 1) % total == c) by (nonlinear_arith)
            requires
                0 <= c,
                c + 1 == total,
        ;
    }
    if c > 0 {
        assert(previous_position(c, total) == c - 1) by (nonlinear_arith)
            requires
                0 < c < total,
        ;
        assert((c - 1 + 1) % total == c) by (nonlinear_arith)
            requires
                0 < c < total,
        ;
    } else {
        assert(previous_position(c, total) == total - 1) by (nonlinear_arith)
            requires
                c == 0,
                0 < total,
        ;
        assert((total - 1 + 1) % total == c) by (nonlinear_arith)
            requires
                c == 0,
                0 < total,
        ;
    }
}

/// The state of the find-in-results bar.
#[derive(Debug)]
pub struct FindState {
    /// Whether the bar is shown.
    pub show_bar: bool,
    /// The text to find.
    pub text: String,
    pub match_case: bool,
    pub whole_words: bool,
    pub highlight_all: bool,
    /// The position in `matches` of the current match.
    pub current: usize,
    /// The view still has to scroll to the current match.
    pub need_scroll: bool,
    /// (result row, start byte, end byte) of each match.
    pub matches: Vec<(usize, usize, usize)>,
    /// Summary of the inputs `matches` were computed from.
    pub cache_key: u64,
}

impl FindState {
    /// The current match designates one of the matches, when there are any.
    pub open spec fn current_in_range(&self) -> bool {
        self.matches@.len() > 0 ==> self.current < self.matches@.len()
    }

    /// The steps through the matches that the find keys of a frame ask for
    /// stay within `usize`: the position a step starts from can be advanced,
    /// and stepping back from a position that was not just wrapped around
    /// does not overflow.
    pub open spec fn find_keys_fit(&self, toggle: bool, next: bool, prev: bool) -> bool {
        let total = self.matches@.len();
        let c0 = if toggle && !self.show_bar { 0 } else { self.current as int };
        &&& total > 0 && next ==> c0 < usize::MAX
        &&& total > 0 && prev && !next ==> c0 + total <= usize::MAX
    }

    /// Whether `on_find_keys` can take these keys.
    pub fn can_take_find_keys(&self, toggle: bool, next: bool, prev: bool) -> (b: bool)
        ensures
            b == (self.matches@.len() < usize::MAX / 2 && self.find_keys_fit(toggle, next, prev)),
    {
        let total = self.matches.len();
        if total >= usize::MAX / 2 {
            return false;
        }
        let c0 = if toggle && !self.show_bar {
            0
        } else {
            self.current
        };
        if total > 0 && next && c0 == usize::MAX {
            return false;
        }
        if total > 0 && prev && !next && c0 > usize::MAX - total {
            return false;
        }
        true
    }

    /// The bar hidden, with no text and no match.
    pub fn new() -> (f: FindState)
        ensures
            !f.show_bar,
            f.text@.len() == 0,
            !f.match_case,
            !f.whole_words,
            !f.highlight_all,
            f.current == 0,
            !f.need_scroll,
            f.matches@.len() == 0,
            f.cache_key == 0,
    {
        FindState {
            show_bar: false,
            text: String::new(),
            match_case: false,
            whole_words: false,
            highlight_all: false,
            current: 0,
            need_scroll: false,
            matches: Vec::new(),
            cache_key: 0,
        }
    }

    /// Recomputes the matches of the find text in the result lines, unless
    /// `key`, the summary of the find text, its options and the number of
    /// results, is the one they were computed for and there are results.
    /// An out-of-range current match goes back to the first one.
    pub fn update_find_matches(&mut self, results: &Vec<SearchMatch>, key: u64)
        ensures
            final(self).show_bar == old(self).show_bar,
            final(self).text == old(self).text,
            final(self).match_case == old(self).match_case,
            final(self).whole_words == old(self).whole_words,
            final(self).highlight_all == old(self).highlight_all,
            key == old(self).cache_key && results@.len() > 0 ==> *final(self) == *old(self),
            !(key == old(self).cache_key && results@.len() > 0) ==> {
                &&& final(self).cache_key == key
                &&& final(self).matches@ == (if old(self).text@.len() == 0 {
                    Seq::empty()
                } else {
                    all_find_matches(result_lines(results@), old(self).text@, old(self).match_case, old(self).whole_words)
                })
                &&& if old(self).text@.len() == 0 {
                    final(self).current == old(self).current && final(self).need_scroll == old(self).need_scroll
                } else if final(self).matches@.len() == 0 {
                    final(self).current == 0 && final(self).need_scroll == old(self).need_scroll
                } else if old(self).current >= final(self).matches@.len() {
                    final(self).current == 0 && final(self).need_scroll
                } else {
                    final(self).current == old(self).current && final(self).need_scroll == old(self).need_scroll
                }
            },
            old(self).current_in_range() ==> final(self).current_in_range(),
    {
        if key == self.cache_key && results.len() > 0 {
            return;
        }
        self.cache_key = key;
        self.matches.clear();
        if self.text.as_str().unicode_len() == 0 {
            return;
        }
        let needle = self.text.as_str();
        let needle_lower = if self.match_case {
            None
        } else {
            Some(to_lowercase(needle))
        };
        let ghost lines = result_lines(results@);
        let mut ri: usize = 0;
        while ri < results.len()
            invariant
                ri <= results@.len(),
                lines == result_lines(results@),
                self.show_bar == old(self).show_bar,
                self.text == old(self).text,
                self.match_case == old(self).match_case,
                self.whole_words == old(self).whole_words,
                self.highlight_all == old(self).highlight_all,
                self.current == old(self).current,
                self.need_scroll == old(self).need_scroll,
                self.cache_key == key,
                needle@ == self.text@,
                self.match_case ==> needle_lower is None,
                !self.match_case ==> (needle_lower matches Some(l) && l@ == lowercase_chars(self.text@)),
                self.matches@ == all_find_matches(lines.take(ri as int), self.text@, self.match_case, self.whole_words),
            decreases results@.len() - ri,
        {
            let hay = results[ri].line_text.as_str();
            assert(lines.take(ri + 1).drop_last() == lines.take(ri as int));
            assert(lines.take(ri + 1).last() == hay@);
            match &needle_lower {
                None => {
                    find_ranges_cs(hay.as_bytes(), needle.as_bytes(), self.whole_words, ri, hay, &mut self.matches);
                },
                Some(low) => {
                    find_ranges_ci(hay, low.as_str(), self.whole_words, ri, &mut self.matches);
                },
            }
            ri += 1;
        }
        assert(lines.take(ri as int) == lines);
        if self.current >= self.matches.len() && self.matches.len() > 0 {
            self.current = 0;
            self.need_scroll = true;
        } else if self.matches.len() == 0 {
            self.current = 0;
        }
    }

    /// Applies the find keys of one frame: `toggle` shows or hides the bar
    /// (showing it starts over at the first match), `close` hides it while it
    /// is shown, `next` and `prev` step to the following and the preceding
    /// match, cyclically. Returns whether the find text input should get the
    /// keyboard focus.
    pub fn on_find_keys(&mut self, toggle: bool, close: bool, next: bool, prev: bool) -> (focus: bool)
        requires
            old(self).matches@.len() < usize::MAX / 2,
            old(self).find_keys_fit(toggle, next, prev),
        ensures
            final(self).text == old(self).text,
            final(self).matches == old(self).matches,
            final(self).cache_key == old(self).cache_key,
            final(self).match_case == old(self).match_case,
            final(self).whole_words == old(self).whole_words,
            final(self).highlight_all == old(self).highlight_all,
            old(self).current_in_range() ==> final(self).current_in_range(),
            focus == (toggle && !old(self).show_bar),
            ({
                let shown = if toggle { !old(self).show_bar } else { old(self).show_bar };
                let total = old(self).matches@.len();
                let c0 = if toggle && !old(self).show_bar { 0 } else { old(self).current as int };
                let c1 = if total > 0 && next { next_position(c0, total as int) } else { c0 };
                let c2 = if total > 0 && prev { previous_position(c1, total as int) } else { c1 };
                &&& final(self).show_bar == (shown && !(close && shown))
                &&& final(self).current == c2
                &&& final(self).need_scroll == ((toggle && !old(self).show_bar) || (total > 0 && (next || prev))
                    || old(self).need_scroll)
            }),
    {
        let total = self.matches.len();
        let mut focus = false;
        if toggle {
            self.show_bar = !self.show_bar;
            if self.show_bar {
                self.current = 0;
                self.need_scroll = true;
                focus = true;
            }
        }
        if close && self.show_bar {
            self.show_bar = false;
        }
        if total > 0 && next {
            self.current = (self.current + 1) % total;
            self.need_scroll = true;
        }
        if total > 0 && prev {
            self.current = (self.current + total - 1) % total;
            self.need_scroll = true;
        }
        focus
    }

    /// The "current / total" counter of the bar: the 1-based position of the
    /// current match, 0 when there is none.
    pub fn counter(&self) -> (r: (usize, usize))
        requires
            self.matches@.len() > 0 ==> self.current < usize::MAX,
        ensures
            r.1 == self.matches@.len(),
            r.0 == if self.matches@.len() == 0 {
                0
            } else {
                self.current + 1
            },
    {
        let total = self.matches.len();
        let cur = if total == 0 {
            0
        } else {
            self.current + 1
        };
        (cur, total)
    }
}

} // verus!
