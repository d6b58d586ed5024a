use vstd::prelude::*;
use vstd::utf8::*;

verus! {

broadcast use vstd::utf8::group_utf8_lib;

// ── Whitespace and trimming ───────────────────────────────────────────────

/// The characters with the Unicode White_Space property.
pub open spec fn is_white_space(c: char) -> bool {
    let u = c as u32;
    ||| 0x09 <= u <= 0x0d
    ||| u == 0x20
    ||| u == 0x85
    ||| u == 0xa0
    ||| u == 0x1680
    ||| 0x2000 <= u <= 0x200a
    ||| u == 0x2028
    ||| u == 0x2029
    ||| u == 0x202f
    ||| u == 0x205f
    ||| u == 0x3000
}

/// `s` without its leading white space.
pub open spec fn trim_start_chars(s: Seq<char>) -> Seq<char>
    decreases s.len(),
{
    if s.len() > 0 && is_white_space(s[0]) {
        trim_start_chars(s.drop_first())
    } else {
        s
    }
}

/// `s` without its trailing white space.
pub open spec fn trim_end_chars(s: Seq<char>) -> Seq<char>
    decreases s.len(),
{
    if s.len() > 0 && is_white_space(s.last()) {
        trim_end_chars(s.drop_last())
    } else {
        s
    }
}

/// `s` without leading and trailing white space.
pub open spec fn trim_chars(s: Seq<char>) -> Seq<char> {
    trim_end_chars(trim_start_chars(s))
}

/// Whether `c` has the Unicode White_Space property.
pub fn is_whitespace(c: char) -> (b: bool)
    ensures
        b == is_white_space(c),
{
    let u = c as u32;
    (0x09 <= u && u <= 0x0d) || u == 0x20 || u == 0x85 || u == 0xa0 || u == 0x1680 || (0x2000
        <= u && u <= 0x200a) || u == 0x2028 || u == 0x2029 || u == 0x202f || u == 0x205f || u
        == 0x3000
}

/// The number of leading white-space characters of `s`.
fn leading_white_space(s: &str) -> (i: usize)
    ensures
        i <= s@.len(),
        trim_start_chars(s@) == s@.subrange(i as int, s@.len() as int),
{
    let n = s.unicode_len();
    let mut i: usize = 0;
    assert(s@.subrange(0, n as int) == s@);
    while i < n && is_whitespace(s.get_char(i))
        invariant
            n == s@.len(),
            i <= n,
            trim_start_chars(s@) == trim_start_chars(s@.subrange(i as int, n as int)),
        decreases n - i,
    {
        assert(s@.subrange(i as int, n as int)[0] == s@[i as int]);
        assert(s@.subrange(i as int, n as int).drop_first() == s@.subrange(i + 1, n as int));
        i += 1;
    }
    if i < n {
        assert(s@.subrange(i as int, n as int)[0] == s@[i as int]);
    }
    i
}

/// `s` without its leading white space.
pub fn trim_start(s: &str) -> (r: &str)
    ensures
        r@ == trim_start_chars(s@),
{
    let n = s.unicode_len();
    let i = leading_white_space(s);
    s.substring_char(i, n)
}

/// `s` without leading and trailing white space.
pub fn trim(s: &str) -> (r: &str)
    ensures
        r@ == trim_chars(s@),
{
    let n = s.unicode_len();
    let i = leading_white_space(s);
    assert(s@.subrange(i as int, n as int) == s@.subrange(i as int, n as int));
    let ghost t = s@.subrange(i as int, n as int);
    let mut j: usize = n;
    while j > i && is_whitespace(s.get_char(j - 1))
        invariant
            n == s@.len(),
            i <= j <= n,
            t == s@.subrange(i as int, n as int),
            trim_end_chars(t) == trim_end_chars(s@.subrange(i as int, j as int)),
        decreases j,
    {
        assert(s@.subrange(i as int, j as int).drop_last() == s@.subrange(i as int, j - 1));
        j -= 1;
    }
    if j > i {
        assert(s@.subrange(i as int, j as int).last() == s@[j - 1]);
    }
    s.substring_char(i, j)
}

// ── Character boundaries ──────────────────────────────────────────────────

/// The length of `s` in bytes of UTF-8.
pub fn byte_len(s: &str) -> (n: usize)
    ensures
        n == encode_utf8(s@).len(),
{
    s.as_bytes().len()
}

/// The largest character boundary of `bytes` at or below `i`, or the length
/// when `i` lies at or beyond it.
pub open spec fn floor_boundary(bytes: Seq<u8>, i: int) -> int
    decreases i,
{
    if i >= bytes.len() {
        bytes.len() as int
    } else if i <= 0 {
        0
    } else if is_char_boundary(bytes, i) {
        i
    } else {
        floor_boundary(bytes, i - 1)
    }
}

/// The smallest character boundary of `bytes` at or above `i`, or the length
/// when `i` lies at or beyond it.
pub open spec fn ceil_boundary(bytes: Seq<u8>, i: int) -> int
    decreases bytes.len() - i,
{
    if i >= bytes.len() {
        bytes.len() as int
    } else if is_char_boundary(bytes, i) {
        i
    } else {
        ceil_boundary(bytes, i + 1)
    }
}

/// The largest character boundary at or below `index` (the length when
/// `index` is at or past the end).
pub fn floor_char_boundary(s: &str, index: usize) -> (r: usize)
    ensures
        r == floor_boundary(encode_utf8(s@), index as int),
        is_char_boundary(encode_utf8(s@), r as int),
        r <= encode_utf8(s@).len(),
{
    let len = byte_len(s);
    if index >= len {
        proof {
            is_char_boundary_start_end_of_seq(encode_utf8(s@));
        }
        return len;
    }
    let mut b: usize = index;
    while b > 0 && !s.is_char_boundary(b)
        invariant
            b <= index < len == encode_utf8(s@).len(),
            floor_boundary(encode_utf8(s@), index as int) == floor_boundary(encode_utf8(s@), b as int),
        decreases b,
    {
        b -= 1;
    }
    proof {
        is_char_boundary_start_end_of_seq(encode_utf8(s@));
    }
    b
}

/// The smallest character boundary at or above `index` (the length when
/// `index` is past the end).
pub fn ceil_char_boundary(s: &str, index: usize) -> (r: usize)
    ensures
        r == ceil_boundary(encode_utf8(s@), index as int),
        is_char_boundary(encode_utf8(s@), r as int),
        r <= encode_utf8(s@).len(),
        index <= encode_utf8(s@).len() ==> index <= r,
{
    let len = byte_len(s);
    proof {
        is_char_boundary_start_end_of_seq(encode_utf8(s@));
    }
    if index >= len {
        return len;
    }
    let mut b: usize = index;
    while b < len && !s.is_char_boundary(b)
        invariant
            index <= b <= len == encode_utf8(s@).len(),
            ceil_boundary(encode_utf8(s@), index as int) == ceil_boundary(encode_utf8(s@), b as int),
        decreases len - b,
    {
        b += 1;
    }
    b
}

// ── Decimal numbers ───────────────────────────────────────────────────────

/// The ASCII digit for `d < 10`.
pub open spec fn digit_char(d: nat) -> char {
    ('0' as u32 + d) as char
}

/// The decimal representation of `n`, without leading zeros.
pub open spec fn decimal(n: nat) -> Seq<char>
    decreases n,
{
    if n < 10 {
        seq![digit_char(n)]
    } else {
        decimal(n / 10).push(digit_char(n % 10))
    }
}

/// `String::push`: appends the character `c` at the end of `s`; the
/// contract claims that the characters of `s` become the old ones followed
/// by `c`.
#[verifier::external_body]
pub(crate) fn push_char(s: &mut String, c: char)
    ensures
        final(s)@ == old(s)@.push(c),
{
    s.push(c);
}

/// The decimal representation of `n`.
pub fn decimal_string(n: u64) -> (s: String)
    ensures
        s@ == decimal(n as nat),
{
    let mut digits: Vec<char> = Vec::new();
    let mut m: u64 = n;
    // digits holds, last first, the digits already split off
    loop
        invariant
            m <= n,
            decimal(n as nat) == decimal(m as nat) + digits@.reverse(),
        ensures
            m < 10,
            decimal(n as nat) == decimal(m as nat) + digits@.reverse(),
        decreases m,
    {
        if m < 10 {
            break;
        }
        let d = m % 10;
        proof {
            assert(decimal(m as nat) == decimal((m / 10) as nat).push(digit_char((m % 10) as nat)));
            assert(digits@.push(digit_char(d as nat)).reverse() =~= seq![digit_char(d as nat)] + digits@.reverse());
        }
        digits.push(char_of_digit(d));
        m = m / 10;
    }
    let mut s = String::new();
    push_char(&mut s, char_of_digit(m));
    let mut k: usize = digits.len();
    while k > 0
        invariant
            k <= digits@.len(),
            decimal(n as nat) == decimal(m as nat) + digits@.reverse(),
            m < 10,
            s@ == decimal(m as nat) + digits@.subrange(k as int, digits@.len() as int).reverse(),
        decreases k,
    {
        k -= 1;
        proof {
            assert(digits@.subrange(k as int, digits@.len() as int).reverse() =~= digits@.subrange(
                k + 1,
                digits@.len() as int,
            ).reverse().push(digits@[k as int]));
        }
        push_char(&mut s, digits[k]);
    }
    assert(digits@.subrange(0, digits@.len() as int) == digits@);
    s
}

/// The ASCII digit for `d < 10`.
fn char_of_digit(d: u64) -> (c: char)
    requires
        d < 10,
    ensures
        c == digit_char(d as nat),
{
    if d == 0 {
        '0'
    } else if d == 1 {
        '1'
    } else if d == 2 {
        '2'
    } else if d == 3 {
        '3'
    } else if d == 4 {
        '4'
    } else if d == 5 {
        '5'
    } else if d == 6 {
        '6'
    } else if d == 7 {
        '7'
    } else if d == 8 {
        '8'
    } else {
        '9'
    }
}

/// Whether `c` is one of the ASCII digits.
pub open spec fn is_ascii_digit(c: char) -> bool {
    '0' as u32 <= c as u32 <= '9' as u32
}

/// The number written by the ASCII digits `s`, most significant first.
pub open spec fn digits_value(s: Seq<char>) -> nat
    decreases s.len(),
{
    if s.len() == 0 {
        0
    } else {
        digits_value(s.drop_last()) * 10 + (s.last() as u32 - '0' as u32) as nat
    }
}

/// `s` without one leading `+`, if it has one.
pub open spec fn unsigned_digits(s: Seq<char>) -> Seq<char> {
    if s.len() > 0 && s[0] == '+' {
        s.drop_first()
    } else {
        s
    }
}

/// What reading `s` as an unsigned 64-bit decimal gives: an optional `+`,
/// then at least one ASCII digit and nothing else, of a value that fits.
pub open spec fn parse_u64_spec(s: Seq<char>) -> Option<u64> {
    let d = unsigned_digits(s);
    if d.len() > 0 && (forall|i: int| 0 <= i < d.len() ==> is_ascii_digit(#[trigger] d[i]))
        && digits_value(d) <= u64::MAX {
        Some(digits_value(d) as u64)
    } else {
        None
    }
}

/// Reads `s` as an unsigned 64-bit decimal number.
pub fn parse_u64(s: &str) -> (r: Option<u64>)
    ensures
        r == parse_u64_spec(s@),
{
    let n = s.unicode_len();
    let mut i: usize = 0;
    if n > 0 && s.get_char(0) == '+' {
        i = 1;
    }
    let ghost d = unsigned_digits(s@);
    assert(d == s@.subrange(i as int, n as int));
    if i >= n {
        return None;
    }
    let mut value: u64 = 0;
    let mut k: usize = i;
    while k < n
        invariant
            n == s@.len(),
            i <= k <= n,
            d == s@.subrange(i as int, n as int),
            d == unsigned_digits(s@),
            forall|j: int| 0 <= j < k - i ==> is_ascii_digit(#[trigger] d[j]),
            value == digits_value(d.take(k - i)),
        decreases n - k,
    {
        let c = s.get_char(k);
        assert(c == d[k - i]);
        if !('0' <= c && c <= '9') {
            assert(!is_ascii_digit(d[k - i]));
            return None;
        }
        let dv = (c as u32 - '0' as u32) as u64;
        assert(d.take(k - i + 1).drop_last() == d.take(k - i));
        if value > 1844674407370955161 || (value == 1844674407370955161 && dv > 5) {
            proof {
                assert(value * 10 + dv > u64::MAX) by (nonlinear_arith)
                    requires
                        value > 1844674407370955161 || (value == 1844674407370955161 && dv > 5),
                ;
                if forall|j: int| 0 <= j < d.len() ==> is_ascii_digit(#[trigger] d[j]) {
                    lemma_digits_value_prefix(d, k - i + 1);
                }
            }
            return None;
        }
        assert(value * 10 + dv <= u64::MAX) by (nonlinear_arith)
            requires
                !(value > 1844674407370955161 || (value == 1844674407370955161 && dv > 5)),
                dv <= 9,
        ;
        value = value * 10 + dv;
        k += 1;
    }
    assert(d.take(n - i) == d);
    Some(value)
}

/// A longer run of digits never has a smaller value than its prefix.
pub proof fn lemma_digits_value_prefix(d: Seq<char>, m: int)
    requires
        0 <= m <= d.len(),
        forall|j: int| 0 <= j < d.len() ==> is_ascii_digit(#[trigger] d[j]),
    ensures
        digits_value(d.take(m)) <= digits_value(d),
    decreases d.len(),
{
    if m < d.len() {
        assert(d.drop_last().take(m) == d.take(m));
        lemma_digits_value_prefix(d.drop_last(), m);
    } else {
        assert(d.take(m) == d);
    }
}

// ── Facts about UTF-8 ─────────────────────────────────────────────────────

/// The first byte of valid non-empty UTF-8 is never a continuation byte.
pub proof fn lemma_first_byte_leads(bytes: Seq<u8>)
    requires
        valid_utf8(bytes),
        bytes.len() > 0,
    ensures
        !is_continuation_byte(bytes[0]),
{
}

/// Where valid UTF-8 `prefix` starts valid UTF-8 `bytes`, it ends on a
/// character boundary of `bytes`.
pub proof fn lemma_valid_prefix_boundary(bytes: Seq<u8>, prefix: Seq<u8>)
    requires
        valid_utf8(bytes),
        valid_utf8(prefix),
        prefix.len() <= bytes.len(),
        bytes.subrange(0, prefix.len() as int) == prefix,
    ensures
        is_char_boundary(bytes, prefix.len() as int),
    decreases prefix.len(),
{
    if prefix.len() > 0 {
        assert(bytes[0] == prefix[0]);
        let l = length_of_first_scalar(prefix);
        assert(length_of_first_scalar(bytes) == l);
        assert(l <= prefix.len());
        let pb = pop_first_scalar(bytes);
        let pp = pop_first_scalar(prefix);
        assert(pb.subrange(0, pp.len() as int) =~= pp) by {
            assert forall|k: int| 0 <= k < pp.len() implies pb[k] == pp[k] by {
                assert(pb[k] == bytes[k + l]);
                assert(pp[k] == prefix[k + l]);
                assert(bytes.subrange(0, prefix.len() as int)[k + l] == bytes[k + l]);
            }
        }
        lemma_valid_prefix_boundary(pb, pp);
    }
}

/// `needle` occurs in `hay` at byte position `p`.
pub open spec fn occurs_at(hay: Seq<u8>, needle: Seq<u8>, p: int) -> bool {
    &&& 0 <= p
    &&& p + needle.len() <= hay.len()
    &&& hay.subrange(p, p + needle.len()) == needle
}

/// An occurrence of non-empty valid UTF-8 in valid UTF-8 starts and ends on
/// character boundaries.
pub proof fn lemma_occurrence_boundaries(hay: Seq<u8>, needle: Seq<u8>, p: int)
    requires
        valid_utf8(hay),
        valid_utf8(needle),
        needle.len() > 0,
        occurs_at(hay, needle, p),
    ensures
        is_char_boundary(hay, p),
        is_char_boundary(hay, p + needle.len()),
{
    lemma_first_byte_leads(needle);
    assert(hay[p] == hay.subrange(p, p + needle.len())[0]);
    is_char_boundary_iff_not_is_continuation_byte(hay, p);
    valid_utf8_split(hay, p);
    let rest = hay.subrange(p, hay.len() as int);
    assert(rest.subrange(0, needle.len() as int) =~= needle) by {
        assert forall|k: int| 0 <= k < needle.len() implies rest[k] == needle[k] by {
            assert(hay.subrange(p, p + needle.len())[k] == hay[p + k]);
        }
    }
    lemma_valid_prefix_boundary(rest, needle);
    let e = p + needle.len();
    if e < hay.len() {
        is_char_boundary_iff_not_is_continuation_byte(rest, needle.len() as int);
        assert(rest[needle.len() as int] == hay[e]);
        is_char_boundary_iff_not_is_continuation_byte(hay, e);
    } else {
        is_char_boundary_start_end_of_seq(hay);
    }
}

/// Encoding a concatenation concatenates the encodings.
pub proof fn lemma_encode_concat(a: Seq<char>, b: Seq<char>)
    ensures
        encode_utf8(a + b) == encode_utf8(a) + encode_utf8(b),
    decreases a.len(),
{
    if a.len() == 0 {
        assert(a + b =~= b);
        assert(encode_utf8(a) + encode_utf8(b) =~= encode_utf8(b));
    } else {
        assert((a + b).drop_first() =~= a.drop_first() + b);
        lemma_encode_concat(a.drop_first(), b);
        assert((a + b)[0] == a[0]);
        assert(encode_utf8(a + b) =~= encode_scalar(a[0] as u32) + (encode_utf8(a.drop_first())
            + encode_utf8(b)));
    }
}

/// The byte position of the character at index `n` of `s`, or the byte
/// length of `s` when `n` is past its last character.
pub open spec fn char_offset(s: Seq<char>, n: int) -> int {
    if n < s.len() {
        encode_utf8(s.take(n)).len() as int
    } else {
        encode_utf8(s).len() as int
    }
}

/// The byte position of any character of `s` is a character boundary.
pub proof fn lemma_char_offset_boundary(s: Seq<char>, n: int)
    requires
        0 <= n,
    ensures
        is_char_boundary(encode_utf8(s), char_offset(s, n)),
        0 <= char_offset(s, n) <= encode_utf8(s).len(),
{
    let k = if n < s.len() {
        n
    } else {
        s.len() as int
    };
    assert(s.take(k) + s.skip(k) =~= s);
    lemma_encode_concat(s.take(k), s.skip(k));
    let all = encode_utf8(s);
    let head = encode_utf8(s.take(k));
    assert(all.subrange(0, head.len() as int) =~= head);
    lemma_valid_prefix_boundary(all, head);
    if n >= s.len() {
        assert(s.take(k) =~= s);
    }
}

} // verus!
