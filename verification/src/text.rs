//! Byte and character helpers shared by the parsers and serialisers:
//! scanning for delimiters, splitting, UTF-8 decoding, whitespace trimming
//! and decimal numbers.

use vstd::prelude::*;
use vstd::utf8::*;
use vstd::slice::slice_subrange;

verus! {

broadcast use vstd::utf8::group_utf8_lib;

// ---------------------------------------------------------------------------
// UTF-8

/// Decodes `bytes` as UTF-8 through `std::str::from_utf8`.
///
/// Trusted: `from_utf8` returns `Ok` exactly when the bytes are well-formed
/// UTF-8, and the string it returns is made of the characters those bytes
/// encode (vstd's `valid_utf8` and `decode_utf8` state both).
#[verifier::external_body]
pub(crate) fn utf8_str(bytes: &[u8]) -> (r: Option<&str>)
    ensures
        r is Some <==> valid_utf8(bytes@),
        r matches Some(s) ==> s@ == decode_utf8(bytes@),
{
    std::str::from_utf8(bytes).ok()
}

/// Decodes `raw[a..e]` into an owned string, or `None` when those bytes are
/// not well-formed UTF-8.
pub(crate) fn decode_range(raw: &[u8], a: usize, e: usize) -> (r: Option<String>)
    requires
        a <= e <= raw@.len(),
    ensures
        r is Some <==> valid_utf8(raw@.subrange(a as int, e as int)),
        r matches Some(s) ==> s@ == decode_utf8(raw@.subrange(a as int, e as int)),
{
    let piece = slice_subrange(raw, a, e);
    match utf8_str(piece) {
        Some(s) => Some(s.to_owned()),
        None => None,
    }
}

/// An ASCII byte of a well-formed UTF-8 sequence cuts it into two
/// well-formed pieces, and decoding goes piece by piece.
pub proof fn lemma_ascii_cut(b: Seq<u8>, i: int)
    requires
        valid_utf8(b),
        0 <= i < b.len(),
        b[i] < 0x80,
    ensures
        valid_utf8(b.subrange(0, i)),
        valid_utf8(b.subrange(i, i + 1)),
        valid_utf8(b.subrange(i + 1, b.len() as int)),
        decode_utf8(b) == decode_utf8(b.subrange(0, i)) + decode_utf8(b.subrange(i, i + 1))
            + decode_utf8(b.subrange(i + 1, b.len() as int)),
{
    assert(is_leading_byte_width_1(b[i]));
    assert(is_char_boundary(b, i));
    valid_utf8_split(b, i);
    decode_utf8_split(b, i);
    let t = b.subrange(i, b.len() as int);
    assert(t[0] == b[i]);
    assert(is_leading_byte_width_1(t[0]));
    assert(valid_first_scalar(t));
    assert(length_of_first_scalar(t) == 1);
    assert(is_char_boundary(pop_first_scalar(t), 0));
    assert(is_char_boundary(t, 1));
    valid_utf8_split(t, 1);
    decode_utf8_split(t, 1);
    assert(t.subrange(0, 1) =~= b.subrange(i, i + 1));
    assert(t.subrange(1, t.len() as int) =~= b.subrange(i + 1, b.len() as int));
}

/// A stretch of a well-formed UTF-8 sequence that starts at the beginning or
/// right after an ASCII byte, and ends at the end or right before one, is
/// itself well-formed.
pub proof fn lemma_ascii_bounded_piece(b: Seq<u8>, a: int, e: int)
    requires
        valid_utf8(b),
        0 <= a <= e <= b.len(),
        a == 0 || b[a - 1] < 0x80,
        e == b.len() || b[e] < 0x80,
    ensures
        valid_utf8(b.subrange(a, e)),
{
    let tail = if a == 0 {
        b
    } else {
        lemma_ascii_cut(b, a - 1);
        b.subrange(a, b.len() as int)
    };
    assert(tail =~= b.subrange(a, b.len() as int));
    assert(valid_utf8(tail));
    if e == b.len() {
        assert(tail =~= b.subrange(a, e));
    } else {
        assert(tail[e - a] == b[e]);
        lemma_ascii_cut(tail, e - a);
        assert(tail.subrange(0, e - a) =~= b.subrange(a, e));
    }
}

/// Bytes that are all ASCII are well-formed UTF-8 and decode one character
/// per byte.
pub proof fn lemma_ascii_bytes_decode(b: Seq<u8>)
    requires
        forall|i: int| 0 <= i < b.len() ==> b[i] < 0x80,
    ensures
        valid_utf8(b),
        decode_utf8(b).len() == b.len(),
        forall|i: int| 0 <= i < b.len() ==> decode_utf8(b)[i] as u32 == b[i] as u32,
    decreases b.len(),
{
    if b.len() > 0 {
        let rest = b.subrange(1, b.len() as int);
        lemma_ascii_bytes_decode(rest);
        assert(is_leading_byte_width_1(b[0]));
        assert(valid_first_scalar(b));
        assert(pop_first_scalar(b) =~= rest);
        let x = b[0];
        assert((x & 0x7f) == x) by (bit_vector)
            requires x < 0x80;
        assert forall|i: int| 0 <= i < b.len() implies decode_utf8(b)[i] as u32 == b[i] as u32 by {
            if i > 0 {
                assert(rest[i - 1] == b[i]);
            }
        }
    }
}

// ---------------------------------------------------------------------------
// Scanning and splitting

pub const SP: u8 = 0x20;
pub const CR: u8 = 0x0d;
pub const LF: u8 = 0x0a;

/// The first index at or after `start` that holds `stop`, or the length of
/// `s` when there is none (and `start` itself when it is past the end).
pub open spec fn scan_to(s: Seq<u8>, start: int, stop: u8) -> int
    decreases s.len() - start,
{
    if start >= s.len() || s[start] == stop {
        start
    } else {
        scan_to(s, start + 1, stop)
    }
}

/// The first index at or after `start` that holds `a` or `b`, or the length
/// of `s` when there is none (and `start` itself when it is past the end).
pub open spec fn scan_to2(s: Seq<u8>, start: int, a: u8, b: u8) -> int
    decreases s.len() - start,
{
    if start >= s.len() || s[start] == a || s[start] == b {
        start
    } else {
        scan_to2(s, start + 1, a, b)
    }
}

pub proof fn lemma_scan_to(s: Seq<u8>, start: int, stop: u8)
    requires
        0 <= start,
    ensures
        start <= scan_to(s, start, stop),
        start <= s.len() ==> scan_to(s, start, stop) <= s.len(),
        scan_to(s, start, stop) < s.len() ==> s[scan_to(s, start, stop)] == stop,
        forall|j: int| start <= j < scan_to(s, start, stop) ==> s[j] != stop,
    decreases s.len() - start,
{
    if !(start >= s.len() || s[start] == stop) {
        lemma_scan_to(s, start + 1, stop);
    }
}

pub proof fn lemma_scan_to2(s: Seq<u8>, start: int, a: u8, b: u8)
    requires
        0 <= start,
    ensures
        start <= scan_to2(s, start, a, b),
        start <= s.len() ==> scan_to2(s, start, a, b) <= s.len(),
        scan_to2(s, start, a, b) < s.len() ==> (s[scan_to2(s, start, a, b)] == a || s[scan_to2(
            s,
            start,
            a,
            b,
        )] == b),
        forall|j: int| start <= j < scan_to2(s, start, a, b) ==> s[j] != a && s[j] != b,
    decreases s.len() - start,
{
    if !(start >= s.len() || s[start] == a || s[start] == b) {
        lemma_scan_to2(s, start + 1, a, b);
    }
}

/// A scan ends at the first stop byte: any index with the properties of
/// that first stop is the scan's result.
pub proof fn lemma_scan_to_at(s: Seq<u8>, start: int, stop: u8, k: int)
    requires
        0 <= start <= k <= s.len(),
        k < s.len() ==> s[k] == stop,
        forall|j: int| start <= j < k ==> s[j] != stop,
    ensures
        scan_to(s, start, stop) == k,
    decreases k - start,
{
    if start < k {
        lemma_scan_to_at(s, start + 1, stop, k);
    }
}

/// Runs from the current index to the stop byte, as a loop that scans does.
pub(crate) fn scan_exec(s: &[u8], start: usize, stop: u8) -> (r: usize)
    requires
        start <= s@.len(),
    ensures
        r == scan_to(s@, start as int, stop),
        start <= r <= s@.len(),
{
    let mut i = start;
    while i < s.len() && s[i] != stop
        invariant
            start <= i <= s@.len(),
            scan_to(s@, start as int, stop) == scan_to(s@, i as int, stop),
        decreases s@.len() - i,
    {
        i += 1;
    }
    i
}

/// Whether `\r\n\r\n` starts at index `i` of `s`.
pub open spec fn blank_line_at(s: Seq<u8>, i: int) -> bool {
    &&& 0 <= i
    &&& i + 4 <= s.len()
    &&& s[i] == CR
    &&& s[i + 1] == LF
    &&& s[i + 2] == CR
    &&& s[i + 3] == LF
}

/// The first index at or after `i` where `\r\n\r\n` starts.
pub open spec fn find_blank_line_from(s: Seq<u8>, i: int) -> Option<int>
    decreases s.len() - i,
{
    if i < 0 || i + 4 > s.len() {
        None
    } else if blank_line_at(s, i) {
        Some(i)
    } else {
        find_blank_line_from(s, i + 1)
    }
}

/// The first index where `\r\n\r\n` starts: the end of a message head.
pub open spec fn find_blank_line(s: Seq<u8>) -> Option<int> {
    find_blank_line_from(s, 0)
}

pub proof fn lemma_find_blank_line_from(s: Seq<u8>, i: int)
    requires
        0 <= i,
    ensures
        find_blank_line_from(s, i) matches Some(p) ==> i <= p && blank_line_at(s, p) && (forall|
            j: int,
        | i <= j < p ==> !blank_line_at(s, j)),
        find_blank_line_from(s, i) is None ==> forall|j: int| i <= j ==> !blank_line_at(s, j),
    decreases s.len() - i,
{
    if i + 4 <= s.len() && !blank_line_at(s, i) {
        lemma_find_blank_line_from(s, i + 1);
    }
}

pub proof fn lemma_find_blank_line_at(s: Seq<u8>, i: int, p: int)
    requires
        0 <= i <= p,
        blank_line_at(s, p),
        forall|j: int| i <= j < p ==> !blank_line_at(s, j),
    ensures
        find_blank_line_from(s, i) == Some(p),
    decreases p - i,
{
    if i < p {
        lemma_find_blank_line_at(s, i + 1, p);
    }
}

pub proof fn lemma_no_blank_line(s: Seq<u8>, i: int)
    requires
        0 <= i,
        forall|j: int| i <= j ==> !blank_line_at(s, j),
    ensures
        find_blank_line_from(s, i) is None,
    decreases s.len() - i,
{
    if i + 4 <= s.len() {
        lemma_no_blank_line(s, i + 1);
    }
}

/// Finds where the message head ends, as `windows(4).position(..)` does.
pub(crate) fn find_blank_line_exec(s: &[u8]) -> (r: Option<usize>)
    ensures
        match r {
            Some(p) => find_blank_line(s@) == Some(p as int),
            None => find_blank_line(s@) is None,
        },
{
    let n = s.len();
    if n < 4 {
        return None;
    }
    let mut i: usize = 0;
    while i <= n - 4
        invariant
            n == s@.len(),
            n >= 4,
            i <= n - 3,
            find_blank_line_from(s@, 0) == find_blank_line_from(s@, i as int),
        decreases n - i,
    {
        if s[i] == 13 && s[i + 1] == 10 && s[i + 2] == 13 && s[i + 3] == 10 {
            return Some(i);
        }
        i += 1;
    }
    None
}

/// The first index at or after `start` where `\r\n` starts, or the length.
pub open spec fn scan_crlf(s: Seq<u8>, start: int) -> int
    decreases s.len() - start,
{
    if start >= s.len() {
        start
    } else if start + 1 < s.len() && s[start] == CR && s[start + 1] == LF {
        start
    } else {
        scan_crlf(s, start + 1)
    }
}

pub proof fn lemma_scan_crlf(s: Seq<u8>, start: int)
    requires
        0 <= start <= s.len(),
    ensures
        start <= scan_crlf(s, start) <= s.len(),
        scan_crlf(s, start) < s.len() ==> scan_crlf(s, start) + 1 < s.len() && s[scan_crlf(
            s,
            start,
        )] == CR && s[scan_crlf(s, start) + 1] == LF,
        forall|j: int|
            start <= j < scan_crlf(s, start) ==> !(j + 1 < s.len() && #[trigger] s[j] == CR
                && s[j + 1] == LF),
    decreases s.len() - start,
{
    if start < s.len() && !(start + 1 < s.len() && s[start] == CR && s[start + 1] == LF) {
        lemma_scan_crlf(s, start + 1);
    }
}

/// The pieces of `s[start..]` between occurrences of `sep`, as `str::split`
/// gives them for a one-character pattern.
pub open spec fn split_from(s: Seq<u8>, start: int, sep: u8) -> Seq<Seq<u8>>
    decreases s.len() - start,
{
    if start < 0 || start > s.len() {
        seq![]
    } else {
        let i = scan_to(s, start, sep);
        if i >= s.len() {
            seq![s.subrange(start, s.len() as int)]
        } else {
            proof {
                lemma_scan_to(s, start, sep);
            }
            seq![s.subrange(start, i)] + split_from(s, i + 1, sep)
        }
    }
}

/// The pieces of `s` between occurrences of `sep`.
pub open spec fn split_on(s: Seq<u8>, sep: u8) -> Seq<Seq<u8>> {
    split_from(s, 0, sep)
}

/// The pieces of `s[start..]` between occurrences of `\r\n`, as
/// `str::split("\r\n")` gives them.
pub open spec fn split_lines_from(s: Seq<u8>, start: int) -> Seq<Seq<u8>>
    decreases s.len() - start,
{
    if start < 0 || start > s.len() {
        seq![]
    } else {
        let i = scan_crlf(s, start);
        if i >= s.len() {
            seq![s.subrange(start, s.len() as int)]
        } else {
            proof {
                lemma_scan_crlf(s, start);
            }
            seq![s.subrange(start, i)] + split_lines_from(s, i + 2)
        }
    }
}

/// The lines of `s`, cut at each `\r\n`.
pub open spec fn split_lines(s: Seq<u8>) -> Seq<Seq<u8>> {
    split_lines_from(s, 0)
}

/// `s` cut at its first `sep`, as `str::split_once` does.
pub open spec fn split_once(s: Seq<u8>, sep: u8) -> Option<(Seq<u8>, Seq<u8>)> {
    let i = scan_to(s, 0, sep);
    if i >= s.len() {
        None
    } else {
        Some((s.subrange(0, i), s.subrange(i + 1, s.len() as int)))
    }
}

// ---------------------------------------------------------------------------
// Whitespace

/// Unicode `White_Space`, the set `char::is_whitespace` tests.
pub open spec fn is_whitespace(c: char) -> bool {
    let u = c as u32;
    ||| 0x09 <= u <= 0x0d
    ||| u == 0x20
    ||| u == 0x85
    ||| u == 0xa0
    ||| u == 0x1680
    ||| 0x2000 <= u <= 0x200a
    ||| u == 0x2028
    ||| u == 0x2029
    ||| u == 0x202f
    ||| u == 0x205f
    ||| u == 0x3000
}

pub open spec fn trim_start(s: Seq<char>) -> Seq<char>
    decreases s.len(),
{
    if s.len() > 0 && is_whitespace(s[0]) {
        trim_start(s.drop_first())
    } else {
        s
    }
}

pub open spec fn trim_end(s: Seq<char>) -> Seq<char>
    decreases s.len(),
{
    if s.len() > 0 && is_whitespace(s.last()) {
        trim_end(s.drop_last())
    } else {
        s
    }
}

/// `s` without its leading and trailing whitespace.
pub open spec fn trim(s: Seq<char>) -> Seq<char> {
    trim_end(trim_start(s))
}

/// Calls `str::trim`.
///
/// Trusted: `str::trim` returns the string without its leading and trailing
/// characters that have the Unicode `White_Space` property, which is what
/// `trim` states over `is_whitespace`.
#[verifier::external_body]
pub(crate) fn trim_str(s: &str) -> (r: &str)
    ensures
        r@ == trim(s@),
{
    s.trim()
}

// ---------------------------------------------------------------------------
// Decimal numbers

pub open spec fn is_digit(c: char) -> bool {
    '0' <= c <= '9'
}

pub open spec fn digit_value(c: char) -> nat {
    (c as nat - '0' as nat) as nat
}

/// The number a run of decimal digits stands for.
pub open spec fn digits_value(d: Seq<char>) -> nat
    decreases d.len(),
{
    if d.len() == 0 {
        0
    } else {
        digits_value(d.drop_last()) * 10 + digit_value(d.last())
    }
}

pub open spec fn all_digits(d: Seq<char>) -> bool {
    forall|i: int| 0 <= i < d.len() ==> is_digit(#[trigger] d[i])
}

/// What `str::parse` gives for an unsigned integer type whose largest value
/// is `max`: an optional `+`, then at least one decimal digit, and nothing
/// else; a value above `max` is an error.
pub open spec fn parse_unsigned(s: Seq<char>, max: nat) -> Option<nat> {
    let d = if s.len() > 0 && s[0] == '+' {
        s.drop_first()
    } else {
        s
    };
    if d.len() > 0 && all_digits(d) && digits_value(d) <= max {
        Some(digits_value(d))
    } else {
        None
    }
}

pub open spec fn digit_char(n: nat) -> char {
    ((n % 10) + 48) as char
}

/// The decimal text of `n`, as `to_string` and `{}` write it.
pub open spec fn decimal_text(n: nat) -> Seq<char>
    decreases n,
{
    if n < 10 {
        seq![digit_char(n)]
    } else {
        decimal_text(n / 10).push(digit_char(n))
    }
}


/// The bytes of a run of ASCII characters, one byte per character.
pub open spec fn ascii_bytes(c: Seq<char>) -> Seq<u8> {
    c.map_values(|x: char| x as u8)
}

pub proof fn lemma_decimal_text(n: nat)
    ensures
        decimal_text(n).len() > 0,
        all_digits(decimal_text(n)),
        decimal_text(n)[0] != '+',
        digits_value(decimal_text(n)) == n,
    decreases n,
{
    let c = digit_char(n);
    assert((n % 10) + 48 <= 57);
    assert(c as nat == (n % 10) + 48);
    assert(is_digit(c));
    assert(digit_value(c) == n % 10);
    if n >= 10 {
        lemma_decimal_text(n / 10);
        let t = decimal_text(n);
        assert(t.drop_last() =~= decimal_text(n / 10));
        assert(t.last() == c);
        assert(all_digits(t)) by {
            assert forall|i: int| 0 <= i < t.len() implies is_digit(#[trigger] t[i]) by {
                if i < t.len() - 1 {
                    assert(t[i] == decimal_text(n / 10)[i]);
                }
            }
        }
        assert((n / 10) * 10 + n % 10 == n);
        assert(digits_value(t) == digits_value(t.drop_last()) * 10 + digit_value(t.last()));
    } else {
        let t = decimal_text(n);
        assert(t =~= seq![c]);
        assert(t.drop_last() =~= Seq::<char>::empty());
        assert(digits_value(t.drop_last()) == 0);
        assert(digits_value(t) == digits_value(t.drop_last()) * 10 + digit_value(t.last()));
        assert(n % 10 == n);
    }
}

/// Reading back the decimal text of a number gives the number.
pub proof fn lemma_parse_decimal_text(n: nat, max: nat)
    requires
        n <= max,
    ensures
        parse_unsigned(decimal_text(n), max) == Some(n),
{
    lemma_decimal_text(n);
}

pub proof fn lemma_digits_prefix(d: Seq<char>, k: int)
    requires
        all_digits(d),
        0 <= k <= d.len(),
    ensures
        digits_value(d.take(k)) <= digits_value(d),
    decreases d.len() - k,
{
    if k < d.len() {
        lemma_digits_prefix(d, k + 1);
        assert(d.take(k + 1).drop_last() =~= d.take(k));
    } else {
        assert(d.take(k) =~= d);
    }
}

/// Reads an unsigned decimal number no larger than `max`, as `str::parse`
/// does for an unsigned integer type whose largest value is `max`.
pub(crate) fn parse_unsigned_str(s: &str, max: usize) -> (r: Option<usize>)
    ensures
        match parse_unsigned(s@, max as nat) {
            Some(n) => r == Some(n as usize),
            None => r is None,
        },
{
    let ghost c = s@;
    let ghost d = if c.len() > 0 && c[0] == '+' {
        c.drop_first()
    } else {
        c
    };
    if !s.is_ascii() {
        proof {
            if parse_unsigned(c, max as nat) is Some {
                assert(is_ascii_chars(c)) by {
                    assert forall|i: int| 0 <= i < c.len() implies '\0' <= #[trigger] c[i] <= '\u{7f}' by {
                        if c.len() > 0 && c[0] == '+' {
                            if i > 0 {
                                assert(d[i - 1] == c[i]);
                                assert(is_digit(d[i - 1]));
                            }
                        } else {
                            assert(is_digit(d[i]));
                        }
                    }
                }
            }
        }
        return None;
    }
    let b = s.as_bytes();
    proof {
        is_ascii_chars_encode_utf8(c);
    }
    let n = b.len();
    let mut i: usize = 0;
    if n > 0 && b[0] == 43 {
        i = 1;
    }
    let start = i;
    assert(d =~= c.subrange(start as int, c.len() as int));
    if i == n {
        return None;
    }
    let mut v: usize = 0;
    while i < n
        invariant
            n == b@.len(),
            n == c.len(),
            forall|k: int| 0 <= k < c.len() ==> c[k] as u8 == #[trigger] b@[k],
            is_ascii_chars(c),
            d =~= c.subrange(start as int, c.len() as int),
            d == (if c.len() > 0 && c[0] == '+' {
                c.drop_first()
            } else {
                c
            }),
            c == s@,
            start <= i <= n,
            all_digits(d.take(i - start)),
            v == digits_value(d.take(i - start)),
            v <= max,
        decreases n - i,
    {
        let x = b[i];
        assert(c[i as int] as u8 == x);
        assert(c[i as int] == d[i - start]);
        assert('\0' <= c[i as int] <= '\u{7f}');
        assert(c[i as int] as u32 == x as u32);
        if x < 48 || x > 57 {
            assert(!is_digit(d[i - start]));
            assert(!all_digits(d));
            assert(parse_unsigned(c, max as nat) is None);
            return None;
        }
        assert(is_digit(d[i - start]));
        assert(digit_value(d[i - start]) == (x - 48) as nat);
        let dv = (x - 48) as usize;
        assert(d.take(i - start + 1).drop_last() =~= d.take(i - start));
        assert(all_digits(d.take(i - start + 1))) by {
            assert forall|k: int| 0 <= k < i - start + 1 implies is_digit(
                #[trigger] d.take(i - start + 1)[k],
            ) by {
                if k < i - start {
                    assert(d.take(i - start + 1)[k] == d.take(i - start)[k]);
                }
            }
        }
        assert(d.take(i - start + 1).last() == d[i - start]);
        assert(digits_value(d.take(i - start + 1)) == v * 10 + dv);
        let m = match v.checked_mul(10) {
            Some(m) => m,
            None => {
                proof {
                    if all_digits(d) {
                        lemma_digits_prefix(d, i - start + 1);
                        assert(digits_value(d) > max);
                    }
                    assert(parse_unsigned(c, max as nat) is None);
                }
                return None;
            },
        };
        let w = match m.checked_add(dv) {
            Some(w) => w,
            None => {
                proof {
                    if all_digits(d) {
                        lemma_digits_prefix(d, i - start + 1);
                    }
                }
                return None;
            },
        };
        if w > max {
            proof {
                if all_digits(d) {
                    lemma_digits_prefix(d, i - start + 1);
                }
            }
            return None;
        }
        v = w;
        i += 1;
    }
    assert(d.take(n - start) =~= d);
    Some(v)
}

/// Appends the decimal digits of `n` to `out`.
pub(crate) fn push_decimal(out: &mut Vec<u8>, n: usize)
    ensures
        final(out)@ == old(out)@ + ascii_bytes(decimal_text(n as nat)),
    decreases n,
{
    if n >= 10 {
        push_decimal(out, n / 10);
    }
    let digit = (n % 10) as u8 + 48;
    out.push(digit);
    proof {
        let t = decimal_text(n as nat);
        if n >= 10 {
            assert(ascii_bytes(t) =~= ascii_bytes(decimal_text((n / 10) as nat)).push(digit));
        } else {
            assert(ascii_bytes(t) =~= seq![digit]);
        }
    }
}

/// The decimal text of `n`, as `n.to_string()` writes it.
pub(crate) fn decimal_string(n: usize) -> (s: String)
    ensures
        s@ == decimal_text(n as nat),
{
    let mut v: Vec<u8> = Vec::new();
    push_decimal(&mut v, n);
    let ghost t = decimal_text(n as nat);
    proof {
        assert(v@ =~= ascii_bytes(t));
        lemma_decimal_text(n as nat);
        assert forall|i: int| 0 <= i < v@.len() implies v@[i] < 0x80 by {
            assert(is_digit(t[i]));
        }
        lemma_ascii_bytes_decode(v@);
        let dec = decode_utf8(v@);
        assert forall|i: int| 0 <= i < t.len() implies dec[i] == t[i] by {
            assert(is_digit(t[i]));
            assert(v@[i] == t[i] as u8);
            assert(dec[i] as u32 == v@[i] as u32);
            assert(dec[i] as u32 == t[i] as u32);
            char_u32_cast(dec[i], dec[i] as u32);
            char_u32_cast(t[i], t[i] as u32);
        }
        assert(dec =~= t);
    }
    match utf8_str(v.as_slice()) {
        Some(s) => s.to_owned(),
        None => String::new(),
    }
}

/// Whether two byte strings are equal.
pub(crate) fn bytes_eq(a: &[u8], b: &[u8]) -> (r: bool)
    ensures
        r == (a@ == b@),
{
    if a.len() != b.len() {
        return false;
    }
    let mut i: usize = 0;
    while i < a.len()
        invariant
            a@.len() == b@.len(),
            i <= a@.len(),
            forall|k: int| 0 <= k < i ==> a@[k] == b@[k],
        decreases a@.len() - i,
    {
        if a[i] != b[i] {
            return false;
        }
        i += 1;
    }
    assert(a@ =~= b@);
    true
}


/// Runs from the current index to the first of two stop bytes.
pub(crate) fn scan2_exec(s: &[u8], start: usize, a: u8, b: u8) -> (r: usize)
    requires
        start <= s@.len(),
    ensures
        r == scan_to2(s@, start as int, a, b),
        start <= r <= s@.len(),
{
    let mut i = start;
    while i < s.len() && s[i] != a && s[i] != b
        invariant
            start <= i <= s@.len(),
            scan_to2(s@, start as int, a, b) == scan_to2(s@, i as int, a, b),
        decreases s@.len() - i,
    {
        i += 1;
    }
    i
}

/// Runs from the current index to the next `\r\n`.
pub(crate) fn scan_crlf_exec(s: &[u8], start: usize) -> (r: usize)
    requires
        start <= s@.len(),
    ensures
        r == scan_crlf(s@, start as int),
        start <= r <= s@.len(),
{
    let mut i = start;
    while i < s.len() && !(i + 1 < s.len() && s[i] == 13 && s[i + 1] == 10)
        invariant
            start <= i <= s@.len(),
            scan_crlf(s@, start as int) == scan_crlf(s@, i as int),
        decreases s@.len() - i,
    {
        i += 1;
    }
    i
}

/// Whether `tok` holds the UTF-8 text `lit`.
pub(crate) fn token_is(tok: &[u8], lit: &str) -> (r: bool)
    requires
        valid_utf8(tok@),
    ensures
        r == (decode_utf8(tok@) == lit@),
{
    let same = bytes_eq(tok, lit.as_bytes());
    proof {
        if same {
            assert(decode_utf8(encode_utf8(lit@)) == lit@);
        } else {
            assert(encode_utf8(decode_utf8(tok@)) == tok@);
        }
    }
    same
}


/// Appends `b` to `out`.
pub(crate) fn push_bytes(out: &mut Vec<u8>, b: &[u8])
    ensures
        final(out)@ == old(out)@ + b@,
{
    out.extend_from_slice(b);
    assert(out@ =~= old(out)@ + b@);
}

/// Appends the UTF-8 bytes of `s` to `out`.
pub(crate) fn push_str(out: &mut Vec<u8>, s: &str)
    ensures
        final(out)@ == old(out)@ + encode_utf8(s@),
{
    push_bytes(out, s.as_bytes());
}

/// Encoding goes piece by piece.
pub proof fn lemma_encode_concat(a: Seq<char>, b: Seq<char>)
    ensures
        encode_utf8(a + b) == encode_utf8(a) + encode_utf8(b),
    decreases a.len(),
{
    if a.len() == 0 {
        assert(a + b =~= b);
    } else {
        lemma_encode_concat(a.drop_first(), b);
        assert((a + b).drop_first() =~= a.drop_first() + b);
        assert((a + b)[0] == a[0]);
    }
}


/// For an ASCII text `t`, the UTF-8 bytes of `c` start with those of `t`
/// exactly when `c` starts with `t`.
pub proof fn lemma_ascii_prefix(c: Seq<char>, t: Seq<char>)
    requires
        is_ascii_chars(t),
    ensures
        (encode_utf8(c).len() >= t.len() && encode_utf8(c).subrange(0, t.len() as int)
            == encode_utf8(t)) <==> (c.len() >= t.len() && c.subrange(0, t.len() as int) == t),
{
    let b = encode_utf8(c);
    let k = t.len() as int;
    is_ascii_chars_encode_utf8(t);
    if c.len() >= t.len() && c.subrange(0, k) == t {
        let rest = c.subrange(k, c.len() as int);
        assert(c =~= t + rest);
        lemma_encode_concat(t, rest);
        assert(b.subrange(0, k) =~= encode_utf8(t));
    }
    if b.len() >= t.len() && b.subrange(0, k) == encode_utf8(t) {
        if k == 0 {
            assert(c.subrange(0, 0) =~= t);
        } else {
            assert(b[k - 1] == encode_utf8(t)[k - 1]);
            assert(b[k - 1] == t[k - 1] as u8);
            assert(valid_utf8(b));
            lemma_ascii_cut(b, k - 1);
            let head = b.subrange(0, k);
            assert(valid_utf8(head));
            lemma_ascii_cut(head, k - 1);
            assert(head.subrange(0, k - 1) =~= b.subrange(0, k - 1));
            assert(head.subrange(k - 1, k) =~= b.subrange(k - 1, k));
            assert(head.subrange(k, k) =~= Seq::<u8>::empty());
            assert(decode_utf8(Seq::<u8>::empty()) =~= Seq::<char>::empty());
            let tail = decode_utf8(b.subrange(k, b.len() as int));
            assert(decode_utf8(head) == t);
            assert(decode_utf8(b) =~= t + tail);
            assert(decode_utf8(b) == c);
            assert(c.subrange(0, k) =~= t);
        }
    }
}


/// `s` holds no byte `b`.
pub open spec fn no_byte(s: Seq<u8>, b: u8) -> bool {
    forall|i: int| 0 <= i < s.len() ==> #[trigger] s[i] != b
}

/// `c` holds no character `x`.
pub open spec fn no_char(c: Seq<char>, x: char) -> bool {
    forall|i: int| 0 <= i < c.len() ==> #[trigger] c[i] != x
}

/// The encoding of a character other than the ASCII `x` holds no byte `x`.
proof fn lemma_scalar_no_byte(ch: char, x: char)
    requires
        (x as u32) < 0x80,
        ch != x,
    ensures
        no_byte(encode_scalar(ch as u32), x as u8),
{
    let u = ch as u32;
    let xb = x as u8;
    assert(is_scalar(u));
    if has_width_1_encoding(u) {
        assert(leading_byte_width_1(u) == u as u8) by (bit_vector)
            requires
                u <= 0x7f,
        ;
        assert((u as u8) as u32 == u);
        char_u32_cast(ch, u);
        char_u32_cast(x, x as u32);
    } else if has_width_2_encoding(u) {
        assert(leading_byte_width_2(u) >= 0x80 && last_continuation_byte(u) >= 0x80) by (bit_vector);
    } else if has_width_3_encoding(u) {
        assert(leading_byte_width_3(u) >= 0x80 && second_last_continuation_byte(u) >= 0x80
            && last_continuation_byte(u) >= 0x80) by (bit_vector);
    } else {
        assert(leading_byte_width_4(u) >= 0x80 && third_last_continuation_byte(u) >= 0x80
            && second_last_continuation_byte(u) >= 0x80 && last_continuation_byte(u) >= 0x80)
            by (bit_vector);
    }
}

/// Text without the ASCII character `x` encodes to bytes without the byte `x`.
pub proof fn lemma_encode_no_byte(c: Seq<char>, x: char)
    requires
        (x as u32) < 0x80,
        no_char(c, x),
    ensures
        no_byte(encode_utf8(c), x as u8),
    decreases c.len(),
{
    if c.len() > 0 {
        let rest = c.drop_first();
        assert(no_char(rest, x)) by {
            assert forall|i: int| 0 <= i < rest.len() implies #[trigger] rest[i] != x by {
                assert(rest[i] == c[i + 1]);
            }
        }
        lemma_encode_no_byte(rest, x);
        assert(c[0] != x);
        lemma_scalar_no_byte(c[0], x);
        let e = encode_scalar(c[0] as u32);
        assert(encode_utf8(c) == e + encode_utf8(rest));
        assert forall|i: int| 0 <= i < encode_utf8(c).len() implies #[trigger] encode_utf8(c)[i]
            != x as u8 by {
            if i < e.len() {
                assert(encode_utf8(c)[i] == e[i]);
            } else {
                assert(encode_utf8(c)[i] == encode_utf8(rest)[i - e.len()]);
            }
        }
    }
}

/// Bytes that are all ASCII are well-formed UTF-8.
pub proof fn lemma_ascii_valid(b: Seq<u8>)
    requires
        forall|i: int| 0 <= i < b.len() ==> b[i] < 0x80,
    ensures
        valid_utf8(b),
{
    lemma_ascii_bytes_decode(b);
}

pub proof fn lemma_split_from_single(t: Seq<u8>, start: int, sep: u8)
    requires
        0 <= start <= t.len(),
        forall|i: int| start <= i < t.len() ==> t[i] != sep,
    ensures
        split_from(t, start, sep) == seq![t.subrange(start, t.len() as int)],
{
    lemma_scan_to_at(t, start, sep, t.len() as int);
}

/// A piece without the separator splits into itself.
pub proof fn lemma_split_single(t: Seq<u8>, sep: u8)
    requires
        no_byte(t, sep),
    ensures
        split_on(t, sep) == seq![t],
{
    lemma_split_from_single(t, 0, sep);
    assert(t.subrange(0, t.len() as int) =~= t);
}

proof fn lemma_split_from_append(x: Seq<u8>, sep: u8, t: Seq<u8>, start: int)
    requires
        0 <= start <= x.len(),
        no_byte(t, sep),
    ensures
        split_from(x + seq![sep] + t, start, sep) == split_from(x, start, sep) + seq![t],
    decreases x.len() - start,
{
    let s = x + seq![sep] + t;
    let i = scan_to(x, start, sep);
    lemma_scan_to(x, start, sep);
    if i < x.len() {
        lemma_scan_to_at(s, start, sep, i);
        lemma_split_from_append(x, sep, t, i + 1);
        assert(s.subrange(start, i) =~= x.subrange(start, i));
        assert(split_from(s, start, sep) =~= seq![x.subrange(start, i)] + split_from(s, i + 1, sep));
        assert(split_from(x, start, sep) =~= seq![x.subrange(start, i)] + split_from(x, i + 1, sep));
    } else {
        let k = x.len() as int;
        lemma_scan_to_at(s, start, sep, k);
        assert(s.subrange(start, k) =~= x.subrange(start, k));
        lemma_split_from_single(s, k + 1, sep);
        assert(s.subrange(k + 1, s.len() as int) =~= t);
        assert(split_from(x, start, sep) =~= seq![x.subrange(start, k)]);
    }
}

/// Appending a separator and a piece without it adds that piece.
pub proof fn lemma_split_append(x: Seq<u8>, sep: u8, t: Seq<u8>)
    requires
        no_byte(t, sep),
    ensures
        split_on(x + seq![sep] + t, sep) == split_on(x, sep) + seq![t],
{
    lemma_split_from_append(x, sep, t, 0);
}

pub proof fn lemma_split_lines_from_single(t: Seq<u8>, start: int)
    requires
        0 <= start <= t.len(),
        forall|i: int| start <= i < t.len() ==> t[i] != CR,
    ensures
        split_lines_from(t, start) == seq![t.subrange(start, t.len() as int)],
{
    lemma_scan_crlf(t, start);
}

/// A line without `\r` splits into itself.
pub proof fn lemma_split_lines_single(t: Seq<u8>)
    requires
        no_byte(t, CR),
    ensures
        split_lines(t) == seq![t],
{
    lemma_split_lines_from_single(t, 0);
    assert(t.subrange(0, t.len() as int) =~= t);
}

pub proof fn lemma_scan_crlf_at(s: Seq<u8>, start: int, k: int)
    requires
        0 <= start <= k <= s.len(),
        k < s.len() ==> k + 1 < s.len() && s[k] == CR && s[k + 1] == LF,
        forall|j: int| start <= j < k ==> !(j + 1 < s.len() && #[trigger] s[j] == CR && s[j + 1] == LF),
    ensures
        scan_crlf(s, start) == k,
    decreases k - start,
{
    if start < k {
        lemma_scan_crlf_at(s, start + 1, k);
    }
}

proof fn lemma_split_lines_from_append(x: Seq<u8>, t: Seq<u8>, start: int)
    requires
        0 <= start <= x.len(),
        no_byte(t, CR),
    ensures
        split_lines_from(x + seq![CR, LF] + t, start) == split_lines_from(x, start) + seq![t],
    decreases x.len() - start,
{
    let s = x + seq![CR, LF] + t;
    let i = scan_crlf(x, start);
    lemma_scan_crlf(x, start);
    if i < x.len() {
        assert forall|j: int| start <= j < i implies !(j + 1 < s.len() && #[trigger] s[j] == CR
            && s[j + 1] == LF) by {
            assert(s[j] == x[j]);
            assert(s[j + 1] == x[j + 1]);
        }
        lemma_scan_crlf_at(s, start, i);
        lemma_split_lines_from_append(x, t, i + 2);
        assert(s.subrange(start, i) =~= x.subrange(start, i));
    } else {
        let k = x.len() as int;
        assert forall|j: int| start <= j < k implies !(j + 1 < s.len() && #[trigger] s[j] == CR
            && s[j + 1] == LF) by {
            assert(s[j] == x[j]);
            if j + 1 < k {
                assert(s[j + 1] == x[j + 1]);
            } else {
                assert(s[j + 1] == CR);
            }
        }
        lemma_scan_crlf_at(s, start, k);
        assert(s.subrange(start, k) =~= x.subrange(start, k));
        assert forall|j: int| k + 2 <= j < s.len() implies s[j] != CR by {
            assert(s[j] == t[j - k - 2]);
        }
        lemma_split_lines_from_single(s, k + 2);
        assert(s.subrange(k + 2, s.len() as int) =~= t);
    }
}

/// Appending `\r\n` and a line without `\r` adds that line.
pub proof fn lemma_split_lines_append(x: Seq<u8>, t: Seq<u8>)
    requires
        no_byte(t, CR),
    ensures
        split_lines(x + seq![CR, LF] + t) == split_lines(x) + seq![t],
{
    lemma_split_lines_from_append(x, t, 0);
}

/// A leading space does not change what trimming leaves.
pub proof fn lemma_trim_leading_space(v: Seq<char>)
    ensures
        trim(seq![' '] + v) == trim(v),
{
    let s = seq![' '] + v;
    assert(is_whitespace(' '));
    assert(s.drop_first() =~= v);
}


pub proof fn lemma_scan_to2_at(s: Seq<u8>, start: int, a: u8, b: u8, k: int)
    requires
        0 <= start <= k <= s.len(),
        k < s.len() ==> (s[k] == a || s[k] == b),
        forall|j: int| start <= j < k ==> s[j] != a && s[j] != b,
    ensures
        scan_to2(s, start, a, b) == k,
    decreases k - start,
{
    if start < k {
        lemma_scan_to2_at(s, start + 1, a, b, k);
    }
}

} // verus!
