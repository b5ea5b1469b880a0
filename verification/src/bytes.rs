//! Byte strings: building, searching, trimming, and decimal numbers.
//!
//! Paths and protocol lines are byte strings throughout the library, as they
//! are on the wire and in a Unix file system.
use vstd::prelude::*;
use vstd::slice::slice_subrange;
use vstd::slice::slice_to_vec;

verus! {

/// The byte of a space.
pub const SPACE: u8 = 32;

/// The byte of a line feed.
pub const NEWLINE: u8 = 10;

/// The byte of a carriage return.
pub const RETURN: u8 = 13;

/// The byte of a full stop.
pub const DOT: u8 = 46;

/// The byte of a plus sign.
pub const PLUS: u8 = 43;

/// The bytes of an ASCII text.
pub open spec fn ascii(s: Seq<char>) -> Seq<u8> {
    Seq::new(s.len(), |i: int| s[i] as u8)
}

/// The bytes of an ASCII string, in a vector of their own.
pub fn ascii_bytes(s: &str) -> (r: Vec<u8>)
    requires
        s.is_ascii(),
    ensures
        r@ == ascii(s@),
{
    broadcast use vstd::string::is_ascii_spec_bytes;

    let b = s.as_bytes();
    slice_to_vec(b)
}

/// Whether two byte strings are equal.
pub fn bytes_eq(a: &[u8], b: &[u8]) -> (r: bool)
    ensures
        r == (a@ == b@),
{
    if a.len() != b.len() {
        return false;
    }
    let mut i: usize = 0;
    while i < a.len()
        invariant
            i <= a@.len(),
            a@.len() == b@.len(),
            forall|j: int| 0 <= j < i ==> a@[j] == b@[j],
        decreases a@.len() - i,
    {
        if a[i] != b[i] {
            return false;
        }
        i += 1;
    }
    assert(a@ =~= b@);
    true
}

/// A copy of the bytes from `i` up to, not including, `j`.
pub fn copy_range(s: &[u8], i: usize, j: usize) -> (r: Vec<u8>)
    requires
        i <= j <= s@.len(),
    ensures
        r@ == s@.subrange(i as int, j as int),
{
    slice_to_vec(slice_subrange(s, i, j))
}

/// Appends `b` to `a`.
pub fn append_bytes(a: &mut Vec<u8>, b: &[u8])
    ensures
        final(a)@ == old(a)@ + b@,
{
    let ghost before = a@;
    let mut i: usize = 0;
    while i < b.len()
        invariant
            i <= b@.len(),
            a@ == before + b@.take(i as int),
        decreases b@.len() - i,
    {
        a.push(b[i]);
        i += 1;
        assert(a@ =~= before + b@.take(i as int));
    }
    assert(b@.take(i as int) =~= b@);
}

/// The place of the first `b` in `s` at or after `i`, or the length of `s`.
pub open spec fn find_from(s: Seq<u8>, b: u8, i: int) -> int
    decreases s.len() - i,
{
    if i >= s.len() {
        s.len() as int
    } else if s[i] == b {
        i
    } else {
        find_from(s, b, i + 1)
    }
}

/// What `find_from` finds: the least place at or after `i` that holds `b`.
pub proof fn lemma_find_from(s: Seq<u8>, b: u8, i: int)
    requires
        0 <= i <= s.len(),
    ensures
        i <= find_from(s, b, i) <= s.len(),
        forall|j: int| i <= j < find_from(s, b, i) ==> s[j] != b,
        find_from(s, b, i) < s.len() ==> s[find_from(s, b, i)] == b,
    decreases s.len() - i,
{
    if i < s.len() && s[i] != b {
        lemma_find_from(s, b, i + 1);
    }
}

/// A place with `b`, or the end, and no `b` before it since `i`, is the one
/// that `find_from` finds.
pub proof fn lemma_find_from_is(s: Seq<u8>, b: u8, i: int, k: int)
    requires
        0 <= i <= k <= s.len(),
        forall|j: int| i <= j < k ==> s[j] != b,
        k < s.len() ==> s[k] == b,
    ensures
        find_from(s, b, i) == k,
    decreases k - i,
{
    if i < k {
        lemma_find_from_is(s, b, i + 1, k);
    }
}

/// Finds the first `b` in `s` at or after `i`; the length where there is none.
pub fn find_byte(s: &[u8], b: u8, i: usize) -> (r: usize)
    requires
        i <= s@.len(),
    ensures
        r == find_from(s@, b, i as int),
        i <= r <= s@.len(),
{
    let mut j: usize = i;
    while j < s.len() && s[j] != b
        invariant
            i <= j <= s@.len(),
            forall|k: int| i <= k < j ==> s@[k] != b,
        decreases s@.len() - j,
    {
        j += 1;
    }
    proof {
        lemma_find_from_is(s@, b, i as int, j as int);
    }
    j
}

/// The place of the last `b` in `s`, or -1.
pub open spec fn last_of(s: Seq<u8>, b: u8) -> int
    decreases s.len(),
{
    if s.len() == 0 {
        -1
    } else if s.last() == b {
        s.len() - 1
    } else {
        last_of(s.drop_last(), b)
    }
}

/// A place with `b`, and no `b` behind it, is the one that `last_of` finds.
pub proof fn lemma_last_of_is(s: Seq<u8>, b: u8, k: int)
    requires
        0 <= k < s.len(),
        s[k] == b,
        forall|j: int| k < j < s.len() ==> s[j] != b,
    ensures
        last_of(s, b) == k,
    decreases s.len(),
{
    if k < s.len() - 1 {
        lemma_last_of_is(s.drop_last(), b, k);
    }
}

/// Finds the last `b` in `s`.
pub fn find_last_byte(s: &[u8], b: u8) -> (r: Option<usize>)
    ensures
        match r {
            Some(d) => d == last_of(s@, b) && d < s@.len(),
            None => last_of(s@, b) == -1,
        },
{
    let mut n: usize = s.len();
    assert(s@.take(n as int) =~= s@);
    while n > 0
        invariant
            n <= s@.len(),
            last_of(s@.take(n as int), b) == last_of(s@, b),
        decreases n,
    {
        if s[n - 1] == b {
            return Some(n - 1);
        }
        assert(s@.take(n as int).drop_last() =~= s@.take(n - 1));
        n -= 1;
    }
    None
}

/// A line without the line feed, or the carriage return and line feed, at its
/// end.
pub open spec fn line_body(line: Seq<u8>) -> Seq<u8> {
    let s = if line.len() > 0 && line.last() == NEWLINE {
        line.drop_last()
    } else {
        line
    };
    if s.len() > 0 && s.last() == RETURN {
        s.drop_last()
    } else {
        s
    }
}

/// Drops the line feed, or the carriage return and line feed, at the end of a
/// line.
pub fn without_line_end(line: &[u8]) -> (r: Vec<u8>)
    ensures
        r@ == line_body(line@),
{
    let mut n: usize = line.len();
    if n > 0 && line[n - 1] == NEWLINE {
        n -= 1;
    }
    if n > 0 && line[n - 1] == RETURN {
        n -= 1;
    }
    assert(line@.subrange(0, n as int) =~= line_body(line@));
    copy_range(line, 0, n)
}

/// The number of bytes that the white space character at the end of the UTF-8
/// text `s` takes; 0 where the text does not end in white space. White space
/// is what Unicode gives the property White_Space.
pub open spec fn white_tail(s: Seq<u8>) -> int {
    let n = s.len() as int;
    if n >= 1 && (9 <= s[n - 1] <= 13 || s[n - 1] == 32) {
        1
    } else if n >= 2 && s[n - 2] == 0xC2 && (s[n - 1] == 0x85 || s[n - 1] == 0xA0) {
        2
    } else if n >= 3 && s[n - 3] == 0xE1 && s[n - 2] == 0x9A && s[n - 1] == 0x80 {
        3
    } else if n >= 3 && s[n - 3] == 0xE2 && s[n - 2] == 0x80 && (0x80 <= s[n - 1] <= 0x8A
        || s[n - 1] == 0xA8 || s[n - 1] == 0xA9 || s[n - 1] == 0xAF) {
        3
    } else if n >= 3 && s[n - 3] == 0xE2 && s[n - 2] == 0x81 && s[n - 1] == 0x9F {
        3
    } else if n >= 3 && s[n - 3] == 0xE3 && s[n - 2] == 0x80 && s[n - 1] == 0x80 {
        3
    } else {
        0
    }
}

/// The UTF-8 text `s` without the white space at its end.
pub open spec fn trim_end(s: Seq<u8>) -> Seq<u8>
    decreases s.len(),
{
    if white_tail(s) == 0 {
        s
    } else {
        trim_end(s.take(s.len() - white_tail(s)))
    }
}

/// What is trimmed is a beginning of the text, and a byte that is no part of
/// white space is not trimmed, nor is anything in front of it.
pub proof fn lemma_trim_end(s: Seq<u8>, k: int)
    requires
        0 <= k < s.len(),
        32 < s[k] < 128,
    ensures
        k < trim_end(s).len() <= s.len(),
        trim_end(s) == s.take(trim_end(s).len() as int),
    decreases s.len(),
{
    let w = white_tail(s);
    if w > 0 {
        let t = s.take(s.len() - w);
        assert(k < t.len());
        assert(t[k] == s[k]);
        lemma_trim_end(t, k);
        let n = trim_end(t).len() as int;
        assert(t.take(n) =~= s.take(n));
    } else {
        assert(s.take(s.len() as int) =~= s);
    }
}

fn white_tail_of(s: &[u8], n: usize) -> (r: usize)
    requires
        n <= s@.len(),
    ensures
        r == white_tail(s@.take(n as int)),
        r <= n,
{
    let ghost t = s@.take(n as int);
    if n >= 1 && ((9 <= s[n - 1] && s[n - 1] <= 13) || s[n - 1] == 32) {
        1
    } else if n >= 2 && s[n - 2] == 0xC2 && (s[n - 1] == 0x85 || s[n - 1] == 0xA0) {
        2
    } else if n >= 3 && s[n - 3] == 0xE1 && s[n - 2] == 0x9A && s[n - 1] == 0x80 {
        3
    } else if n >= 3 && s[n - 3] == 0xE2 && s[n - 2] == 0x80 && ((0x80 <= s[n - 1] && s[n - 1]
        <= 0x8A) || s[n - 1] == 0xA8 || s[n - 1] == 0xA9 || s[n - 1] == 0xAF) {
        3
    } else if n >= 3 && s[n - 3] == 0xE2 && s[n - 2] == 0x81 && s[n - 1] == 0x9F {
        3
    } else if n >= 3 && s[n - 3] == 0xE3 && s[n - 2] == 0x80 && s[n - 1] == 0x80 {
        3
    } else {
        0
    }
}

/// Drops the white space at the end of a UTF-8 text.
pub fn trimmed_end(s: &[u8]) -> (r: Vec<u8>)
    ensures
        r@ == trim_end(s@),
{
    let mut n: usize = s.len();
    assert(s@.take(n as int) =~= s@);
    let mut k: usize = white_tail_of(s, n);
    while k != 0
        invariant
            k <= n <= s@.len(),
            k == white_tail(s@.take(n as int)),
            trim_end(s@.take(n as int)) == trim_end(s@),
        decreases n,
    {
        assert(s@.take(n as int).take(n - k) =~= s@.take(n - k));
        n = n - k;
        k = white_tail_of(s, n);
    }
    assert(s@.subrange(0, n as int) =~= s@.take(n as int));
    copy_range(s, 0, n)
}

/// Whether `b` is a decimal digit.
pub open spec fn is_digit(b: u8) -> bool {
    48 <= b <= 57
}

/// The decimal notation of `n`, without leading zeros.
pub open spec fn decimal(n: nat) -> Seq<u8>
    decreases n,
{
    if n < 10 {
        seq![(48 + n) as u8]
    } else {
        decimal(n / 10).push((48 + n % 10) as u8)
    }
}

/// The number that a string of decimal digits denotes.
pub open spec fn digits_value(s: Seq<u8>) -> nat
    decreases s.len(),
{
    if s.len() == 0 {
        0
    } else {
        digits_value(s.drop_last()) * 10 + (s.last() - 48) as nat
    }
}

/// Whether `s` is one or more decimal digits.
pub open spec fn all_digits(s: Seq<u8>) -> bool {
    s.len() > 0 && forall|i: int| 0 <= i < s.len() ==> is_digit(#[trigger] s[i])
}

/// The digits of a number that may begin with a plus sign.
pub open spec fn unsigned_part(s: Seq<u8>) -> Seq<u8> {
    if s.len() > 0 && s[0] == PLUS {
        s.skip(1)
    } else {
        s
    }
}

/// The number that `s` denotes: decimal digits behind an optional plus sign,
/// at most `max`.
pub open spec fn number(s: Seq<u8>, max: nat) -> Option<nat> {
    let d = unsigned_part(s);
    if all_digits(d) && digits_value(d) <= max {
        Some(digits_value(d))
    } else {
        None
    }
}

proof fn lemma_value_grows(s: Seq<u8>, i: int)
    requires
        0 <= i <= s.len(),
        forall|j: int| 0 <= j < s.len() ==> is_digit(#[trigger] s[j]),
    ensures
        digits_value(s.take(i)) <= digits_value(s),
    decreases s.len() - i,
{
    if i == s.len() {
        assert(s.take(i) =~= s);
    } else {
        lemma_value_grows(s, i + 1);
        assert(s.take(i + 1).drop_last() =~= s.take(i));
    }
}

/// Reads a decimal number that is at most `max`, with an optional plus sign
/// before it.
pub fn read_number(s: &[u8], max: u64) -> (r: Option<u64>)
    ensures
        match r {
            Some(v) => number(s@, max as nat) == Some(v as nat),
            None => number(s@, max as nat) is None,
        },
{
    let start: usize = if s.len() > 0 && s[0] == PLUS {
        1
    } else {
        0
    };
    let ghost d = unsigned_part(s@);
    assert(d =~= s@.skip(start as int));
    if start == s.len() {
        return None;
    }
    let mut v: u64 = 0;
    let mut i: usize = start;
    while i < s.len()
        invariant
            start <= i <= s@.len(),
            d == s@.skip(start as int),
            d == unsigned_part(s@),
            v <= max,
            v == digits_value(d.take(i - start)),
            forall|j: int| 0 <= j < i - start ==> is_digit(#[trigger] d[j]),
        decreases s@.len() - i,
    {
        let b = s[i];
        assert(b == d[i - start]);
        if b < 48 || b > 57 {
            return None;
        }
        let x: u64 = (b - 48) as u64;
        assert(d.take(i - start + 1).drop_last() =~= d.take(i - start));
        assert(digits_value(d.take(i - start + 1)) == v * 10 + x);
        if v > max / 10 || x > max - v * 10 {
            proof {
                if all_digits(d) {
                    lemma_value_grows(d, i - start + 1);
                }
            }
            return None;
        }
        v = v * 10 + x;
        i += 1;
    }
    assert(d.take(i - start) =~= d);
    Some(v)
}

/// The decimal notation of a number.
pub fn decimal_bytes(n: u64) -> (r: Vec<u8>)
    ensures
        r@ == decimal(n as nat),
    decreases n,
{
    if n < 10 {
        let mut r: Vec<u8> = Vec::new();
        r.push(48 + n as u8);
        assert(r@ =~= decimal(n as nat));
        r
    } else {
        let mut r = decimal_bytes(n / 10);
        r.push(48 + (n % 10) as u8);
        r
    }
}

/// Decimal notation is made of digits and denotes the number it was made from.
pub proof fn law_decimal_reads_back(n: nat, max: nat)
    requires
        n <= max,
    ensures
        number(decimal(n), max) == Some(n),
        all_digits(decimal(n)),
{
    lemma_decimal(n);
    let s = decimal(n);
    assert(is_digit(s[0]));
    assert(unsigned_part(s) == s);
}

proof fn lemma_decimal(n: nat)
    ensures
        all_digits(decimal(n)),
        digits_value(decimal(n)) == n,
    decreases n,
{
    reveal_with_fuel(digits_value, 2);
    if n < 10 {
        assert(decimal(n).drop_last() =~= Seq::empty());
    } else {
        lemma_decimal(n / 10);
        assert(decimal(n).drop_last() =~= decimal(n / 10));
        let s = decimal(n);
        assert forall|i: int| 0 <= i < s.len() implies is_digit(#[trigger] s[i]) by {
            if i < s.len() - 1 {
                assert(is_digit(decimal(n / 10)[i]));
            }
        }
    }
}

/// A line is its body with nothing, a line feed, a carriage return, or both
/// behind it; and the body of a text that ends in neither is the text, with or
/// without such an end.
pub proof fn law_line_body(line: Seq<u8>)
    ensures
        line == line_body(line) || line == line_body(line).push(NEWLINE) || line == line_body(
            line,
        ).push(RETURN) || line == line_body(line).push(RETURN).push(NEWLINE),
        line.len() == 0 || (line.last() != NEWLINE && line.last() != RETURN) ==> {
            &&& line_body(line) == line
            &&& line_body(line.push(NEWLINE)) == line
            &&& line_body(line.push(RETURN).push(NEWLINE)) == line
        },
{
    let s = if line.len() > 0 && line.last() == NEWLINE {
        line.drop_last()
    } else {
        line
    };
    if line.len() > 0 && line.last() == NEWLINE {
        assert(line =~= s.push(NEWLINE));
    }
    if s.len() > 0 && s.last() == RETURN {
        assert(s =~= s.drop_last().push(RETURN));
    }
    assert(line.push(NEWLINE).drop_last() =~= line);
    assert(line.push(RETURN).drop_last() =~= line);
    assert(line.push(RETURN).push(NEWLINE).drop_last() =~= line.push(RETURN));
}

/// Trimming leaves a beginning of the text, after which only white space comes,
/// and which does not end in white space.
pub proof fn law_trim_end(s: Seq<u8>)
    ensures
        trim_end(s).len() <= s.len(),
        trim_end(s) == s.take(trim_end(s).len() as int),
        white_tail(trim_end(s)) == 0,
        forall|i: int|
            trim_end(s).len() <= i < s.len() ==> !(32 < #[trigger] s[i] < 128),
    decreases s.len(),
{
    let w = white_tail(s);
    if w > 0 {
        let t = s.take(s.len() - w);
        law_trim_end(t);
        let n = trim_end(t).len() as int;
        assert(t.take(n) =~= s.take(n));
        assert forall|i: int| n <= i < s.len() implies !(32 < #[trigger] s[i] < 128) by {
            if i < t.len() {
                assert(t[i] == s[i]);
            }
        }
    } else {
        assert(s.take(s.len() as int) =~= s);
    }
}

/// A number is written in digits alone, of which each that comes behind others
/// makes them count ten times as much; a plus sign in front changes nothing,
/// and a number above the limit is none.
pub proof fn law_number(d: Seq<u8>, c: u8, max: nat, n: nat)
    ensures
        number(d, max) == Some(n) && is_digit(c) && 10 * n + (c - 48) <= max ==> number(
            d.push(c),
            max,
        ) == Some((10 * n + (c - 48)) as nat),
        number(d, max) == Some(n) ==> n <= max && d.len() > 0 && is_digit(d.last()),
        number(d.push(c), max) is Some ==> is_digit(c),
        is_digit(c) && c - 48 <= max ==> number(seq![c], max) == Some((c - 48) as nat),
        d.len() > 0 && d[0] != PLUS ==> number(seq![PLUS] + d, max) == number(d, max),
        number(Seq::empty(), max) is None,
        number(seq![PLUS], max) is None,
{
    let u = unsigned_part(d);
    let v = unsigned_part(d.push(c));
    if number(d, max) == Some(n) {
        assert(is_digit(u[u.len() - 1]));
        assert(u.last() == d.last());
        assert(v =~= u.push(c));
        assert(v.drop_last() =~= u);
        if is_digit(c) {
            assert forall|i: int| 0 <= i < v.len() implies is_digit(#[trigger] v[i]) by {
                if i < u.len() {
                    assert(is_digit(u[i]));
                }
            }
        }
    }
    if number(d.push(c), max) is Some {
        assert(is_digit(v[v.len() - 1]));
        assert(v.last() == c);
    }
    if is_digit(c) {
        let s = seq![c];
        assert(unsigned_part(s) == s);
        reveal_with_fuel(digits_value, 2);
        assert(s.drop_last() =~= Seq::empty());
        assert(all_digits(s));
    }
    assert((seq![PLUS] + d).skip(1) =~= d);
    assert(seq![PLUS].skip(1) =~= Seq::empty());
}

} // verus!
