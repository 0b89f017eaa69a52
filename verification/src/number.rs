//! Numbers in source text: decimal, hexadecimal with `0x`, and binary with a
//! trailing `b` (eight or sixteen digits).
use vstd::prelude::*;
use crate::text::{chars_of, decimal, digit_char, digits};

verus! {

/// The value of a digit character in the given radix (digits `0`-`9`, then
/// letters of either case), or `None` where it is no digit of that radix.
pub open spec fn digit_value(c: char, radix: nat) -> Option<nat> {
    let d: int = if '0' <= c && c <= '9' {
        (c as u32) - ('0' as u32)
    } else if 'a' <= c && c <= 'z' {
        (c as u32) - ('a' as u32) + 10
    } else if 'A' <= c && c <= 'Z' {
        (c as u32) - ('A' as u32) + 10
    } else {
        radix as int
    };
    if d < radix {
        Some(d as nat)
    } else {
        None
    }
}

/// The value of a string of digits in the given radix, most significant
/// first; the empty string has value 0.
pub open spec fn digits_value(s: Seq<char>, radix: nat) -> Option<nat>
    decreases s.len(),
{
    if s.len() == 0 {
        Some(0)
    } else {
        match (digits_value(s.drop_last(), radix), digit_value(s.last(), radix)) {
            (Some(high), Some(low)) => Some(high * radix + low),
            _ => None,
        }
    }
}

/// The integer that std's `from_str_radix` reads from a string, before its
/// range check: an optional `+` (or `-`, for a signed type) followed by at
/// least one digit, and nothing else.
pub open spec fn radix_value(s: Seq<char>, radix: nat, signed: bool) -> Option<int> {
    if s.len() == 0 {
        None
    } else if (s[0] == '+' || s[0] == '-') && s.len() == 1 {
        None
    } else if s[0] == '+' {
        match digits_value(s.drop_first(), radix) {
            Some(v) => Some(v as int),
            None => None,
        }
    } else if s[0] == '-' && signed {
        match digits_value(s.drop_first(), radix) {
            Some(v) => Some(-v),
            None => None,
        }
    } else {
        match digits_value(s, radix) {
            Some(v) => Some(v as int),
            None => None,
        }
    }
}

/// What `i32::from_str_radix` returns for a string, as an option.
pub open spec fn i32_from_radix(s: Seq<char>, radix: nat) -> Option<i32> {
    match radix_value(s, radix, true) {
        Some(v) => if i32::MIN <= v <= i32::MAX {
            Some(v as i32)
        } else {
            None
        },
        None => None,
    }
}

/// The number of bytes of a character in UTF-8.
pub open spec fn char_width(c: char) -> nat {
    if (c as u32) < 0x80 {
        1
    } else if (c as u32) < 0x800 {
        2
    } else if (c as u32) < 0x10000 {
        3
    } else {
        4
    }
}

/// The number of bytes of a string in UTF-8.
pub open spec fn byte_len(s: Seq<char>) -> nat
    decreases s.len(),
{
    if s.len() == 0 {
        0
    } else {
        byte_len(s.drop_last()) + char_width(s.last())
    }
}

/// Whether the byte offset `k` falls between two characters of the string
/// (or at one of its ends).
pub open spec fn is_boundary(s: Seq<char>, k: nat) -> bool {
    exists|j: int| 0 <= j <= s.len() && #[trigger] byte_len(s.take(j)) == k
}

/// A binary number of `n` digits followed by `b`, where the string is
/// `n + 1` bytes long and its byte `n` starts a character.
pub open spec fn binary_form(s: Seq<char>, n: nat) -> Option<i32> {
    if byte_len(s) == n + 1 && is_boundary(s, n) && s.last() == 'b' {
        i32_from_radix(s.drop_last(), 2)
    } else {
        None
    }
}

/// A hexadecimal number after `0x`.
pub open spec fn hex_form(s: Seq<char>) -> Option<i32> {
    if byte_len(s) > 2 && s.len() >= 2 && s[0] == '0' && s[1] == 'x' {
        i32_from_radix(s.skip(2), 16)
    } else {
        None
    }
}

/// The number that a token stands for: a decimal `i32`, else eight or
/// sixteen binary digits followed by `b`, else `0x` and hexadecimal digits.
pub open spec fn number_value(s: Seq<char>) -> Option<i32> {
    if i32_from_radix(s, 10) is Some {
        i32_from_radix(s, 10)
    } else if binary_form(s, 8) is Some {
        binary_form(s, 8)
    } else if binary_form(s, 16) is Some {
        binary_form(s, 16)
    } else {
        hex_form(s)
    }
}

/// The inputs on which reading a number would cut a character in two: the
/// reader slices the token by bytes (at 8 of 9, 16 of 17 and 2 of more than
/// 2), which panics inside a multi-byte character.
pub open spec fn number_panics(s: Seq<char>) -> bool {
    &&& i32_from_radix(s, 10) is None
    &&& {
        ||| byte_len(s) == 9 && !is_boundary(s, 8)
        ||| byte_len(s) == 17 && !is_boundary(s, 16)
        ||| (byte_len(s) > 2 && !is_boundary(s, 2) && binary_form(s, 8) is None && binary_form(
            s,
            16,
        ) is None)
    }
}

/// The largest magnitude that the readers below keep track of; every larger
/// one is out of range for the types read here.
pub open spec fn magnitude_cap() -> nat {
    0x1_0000_0000
}

/// Longer digit strings never have a smaller value.
pub proof fn lemma_digits_value_grows(s: Seq<char>, radix: nat, i: int)
    requires
        0 <= i <= s.len(),
        radix >= 1,
        digits_value(s, radix) is Some,
    ensures
        digits_value(s.take(i), radix) is Some,
        digits_value(s.take(i), radix).unwrap() <= digits_value(s, radix).unwrap(),
    decreases s.len(),
{
    if i < s.len() {
        assert(s.drop_last().take(i) == s.take(i));
        lemma_digits_value_grows(s.drop_last(), radix, i);
        let h = digits_value(s.drop_last(), radix).unwrap();
        assert(h * radix >= h) by (nonlinear_arith)
            requires
                radix >= 1,
        ;
    } else {
        assert(s.take(i) == s);
    }
}

/// The value of a digit character, as `digit_value` gives it.
fn digit_of(c: char, radix: u32) -> (r: Option<u32>)
    requires
        2 <= radix <= 16,
    ensures
        match digit_value(c, radix as nat) {
            Some(d) => r == Some(d as u32),
            None => r is None,
        },
{
    let d: u32 = if '0' <= c && c <= '9' {
        (c as u32) - ('0' as u32)
    } else if 'a' <= c && c <= 'z' {
        (c as u32) - ('a' as u32) + 10
    } else if 'A' <= c && c <= 'Z' {
        (c as u32) - ('A' as u32) + 10
    } else {
        radix
    };
    if d < radix {
        Some(d)
    } else {
        None
    }
}

/// The value of the digits `v[start..end]`, where it is at most the cap.
fn digits_in(v: &Vec<char>, start: usize, end: usize, radix: u32) -> (r: Option<u64>)
    requires
        start <= end <= v.len(),
        2 <= radix <= 16,
    ensures
        match digits_value(v@.subrange(start as int, end as int), radix as nat) {
            Some(x) => if x <= magnitude_cap() {
                r == Some(x as u64)
            } else {
                r is None
            },
            None => r is None,
        },
{
    let ghost s = v@.subrange(start as int, end as int);
    let mut m: u64 = 0;
    let mut i: usize = start;
    while i < end
        invariant
            start <= i <= end <= v.len(),
            2 <= radix <= 16,
            s == v@.subrange(start as int, end as int),
            m <= magnitude_cap(),
            digits_value(s.take(i - start), radix as nat) == Some(m as nat),
        decreases end - i,
    {
        assert(s.take(i - start + 1).drop_last() == s.take(i - start));
        assert(s.take(i - start + 1).last() == v@[i as int]);
        match digit_of(v[i], radix) {
            None => {
                proof {
                    if digits_value(s, radix as nat) is Some {
                        lemma_digits_value_grows(s, radix as nat, i - start + 1);
                    }
                }
                return None;
            },
            Some(d) => {
                assert(m * radix <= magnitude_cap() * 16) by (nonlinear_arith)
                    requires
                        m <= magnitude_cap(),
                        radix <= 16,
                ;
                m = m * (radix as u64) + (d as u64);
                i = i + 1;
                if m > 0x1_0000_0000 {
                    proof {
                        if digits_value(s, radix as nat) is Some {
                            lemma_digits_value_grows(s, radix as nat, i - start);
                        }
                    }
                    return None;
                }
            },
        }
    }
    assert(s.take(i - start) == s);
    Some(m)
}

/// The value of the digits `v[start..end]`, where it is below `bound`.
fn digits_below(v: &Vec<char>, start: usize, end: usize, radix: u32, bound: u64) -> (r: Option<u64>)
    requires
        start <= end <= v.len(),
        2 <= radix <= 16,
    ensures
        match digits_value(v@.subrange(start as int, end as int), radix as nat) {
            Some(x) => if x < bound {
                r == Some(x as u64)
            } else {
                r is None
            },
            None => r is None,
        },
{
    let ghost s = v@.subrange(start as int, end as int);
    let mut m: u128 = 0;
    let mut i: usize = start;
    while i < end
        invariant
            start <= i <= end <= v.len(),
            2 <= radix <= 16,
            s == v@.subrange(start as int, end as int),
            m < bound || (m == 0 && bound == 0),
            digits_value(s.take(i - start), radix as nat) == Some(m as nat),
        decreases end - i,
    {
        assert(s.take(i - start + 1).drop_last() == s.take(i - start));
        assert(s.take(i - start + 1).last() == v@[i as int]);
        match digit_of(v[i], radix) {
            None => {
                proof {
                    if digits_value(s, radix as nat) is Some {
                        lemma_digits_value_grows(s, radix as nat, i - start + 1);
                    }
                }
                return None;
            },
            Some(d) => {
                assert(m * radix <= 0x1_0000_0000_0000_0000 * 16) by (nonlinear_arith)
                    requires
                        m <= 0x1_0000_0000_0000_0000,
                        radix <= 16,
                ;
                m = m * (radix as u128) + (d as u128);
                i = i + 1;
                if m >= bound as u128 {
                    proof {
                        if digits_value(s, radix as nat) is Some {
                            lemma_digits_value_grows(s, radix as nat, i - start);
                        }
                    }
                    return None;
                }
            },
        }
    }
    assert(s.take(i - start) == s);
    if m >= bound as u128 {
        return None;
    }
    Some(m as u64)
}

/// Reads a non-negative integer as `from_str_radix` does for an unsigned
/// type, where it is below `bound`.
pub fn unsigned_below(v: &Vec<char>, start: usize, end: usize, radix: u32, bound: u64) -> (r: Option<u64>)
    requires
        start <= end <= v.len(),
        2 <= radix <= 16,
    ensures
        match radix_value(v@.subrange(start as int, end as int), radix as nat, false) {
            Some(x) => if x < bound {
                r == Some(x as u64)
            } else {
                r is None
            },
            None => r is None,
        },
{
    let ghost s = v@.subrange(start as int, end as int);
    if start == end {
        return None;
    }
    let c = v[start];
    assert(s[0] == c);
    if (c == '+' || c == '-') && end - start == 1 {
        return None;
    }
    if c == '+' {
        assert(s.drop_first() == v@.subrange(start + 1, end as int));
        digits_below(v, start + 1, end, radix, bound)
    } else {
        digits_below(v, start, end, radix, bound)
    }
}

/// Reads an integer as `from_str_radix` does before its range check, where
/// its magnitude is at most the cap.
pub fn radix_in(v: &Vec<char>, start: usize, end: usize, radix: u32, signed: bool) -> (r: Option<i64>)
    requires
        start <= end <= v.len(),
        2 <= radix <= 16,
    ensures
        match radix_value(v@.subrange(start as int, end as int), radix as nat, signed) {
            Some(x) => if -magnitude_cap() <= x <= magnitude_cap() {
                r == Some(x as i64)
            } else {
                r is None
            },
            None => r is None,
        },
{
    let ghost s = v@.subrange(start as int, end as int);
    if start == end {
        return None;
    }
    let c = v[start];
    assert(s[0] == c);
    if (c == '+' || c == '-') && end - start == 1 {
        return None;
    }
    if c == '+' || (c == '-' && signed) {
        assert(s.drop_first() == v@.subrange(start + 1, end as int));
        match digits_in(v, start + 1, end, radix) {
            Some(m) => if c == '+' {
                Some(m as i64)
            } else {
                Some(-(m as i64))
            },
            None => None,
        }
    } else {
        match digits_in(v, start, end, radix) {
            Some(m) => Some(m as i64),
            None => None,
        }
    }
}

/// What `i32::from_str_radix` returns for `v[start..end]`.
pub fn i32_in(v: &Vec<char>, start: usize, end: usize, radix: u32) -> (r: Option<i32>)
    requires
        start <= end <= v.len(),
        2 <= radix <= 16,
    ensures
        r == i32_from_radix(v@.subrange(start as int, end as int), radix as nat),
{
    match radix_in(v, start, end, radix, true) {
        Some(x) => if -0x8000_0000 <= x && x <= 0x7fff_ffff {
            Some(x as i32)
        } else {
            None
        },
        None => None,
    }
}

/// Byte lengths of prefixes grow with the prefix, by at least one byte for
/// each character.
proof fn lemma_byte_len_grows(s: Seq<char>, i: int, j: int)
    requires
        0 <= i <= j <= s.len(),
    ensures
        byte_len(s.take(i)) + (j - i) <= byte_len(s.take(j)),
    decreases j - i,
{
    if i < j {
        lemma_byte_len_grows(s, i, j - 1);
        assert(s.take(j).drop_last() == s.take(j - 1));
    }
}

/// The number of bytes of `v` in UTF-8 where it is at most `cap`; a number
/// above `cap` otherwise.
fn byte_len_upto(v: &Vec<char>, cap: u64) -> (r: u64)
    requires
        cap <= 0x100,
    ensures
        byte_len(v@) <= cap ==> r == byte_len(v@),
        byte_len(v@) > cap ==> r > cap,
{
    let mut acc: u64 = 0;
    let mut j: usize = 0;
    while j < v.len() && acc <= cap
        invariant
            j <= v.len(),
            cap <= 0x100,
            acc <= cap + 4,
            acc == byte_len(v@.take(j as int)),
        decreases v.len() - j,
    {
        assert(v@.take(j + 1).drop_last() == v@.take(j as int));
        acc = acc + width_of(v[j]);
        j = j + 1;
    }
    proof {
        lemma_byte_len_grows(v@, j as int, v@.len() as int);
        assert(v@.take(v@.len() as int) == v@);
    }
    acc
}

/// The number of bytes of a character in UTF-8.
pub fn width_of(c: char) -> (r: u64)
    ensures
        r == char_width(c),
{
    if (c as u32) < 0x80 {
        1
    } else if (c as u32) < 0x800 {
        2
    } else if (c as u32) < 0x10000 {
        3
    } else {
        4
    }
}

/// Whether byte offset `k` of `v` falls between two characters.
fn boundary_at(v: &Vec<char>, k: u64) -> (r: bool)
    requires
        k <= 0x100,
    ensures
        r == is_boundary(v@, k as nat),
{
    let mut acc: u64 = 0;
    let mut j: usize = 0;
    while j < v.len() && acc < k
        invariant
            j <= v.len(),
            k <= 0x100,
            acc < k + 4,
            acc == byte_len(v@.take(j as int)),
            forall|i: int| 0 <= i < j ==> #[trigger] byte_len(v@.take(i)) < k,
        decreases v.len() - j,
    {
        assert(v@.take(j + 1).drop_last() == v@.take(j as int));
        proof {
            lemma_byte_len_grows(v@, j as int, j + 1);
        }
        acc = acc + width_of(v[j]);
        j = j + 1;
    }
    if acc == k {
        true
    } else {
        assert forall|i: int| 0 <= i <= v@.len() implies #[trigger] byte_len(v@.take(i)) != k by {
            if i >= j {
                lemma_byte_len_grows(v@, j as int, i);
            }
        }
        false
    }
}

/// Reads a number from the characters of a token; `None` where the reading
/// would panic.
pub fn scan_number(v: &Vec<char>) -> (r: Option<Option<i32>>)
    ensures
        r is None <==> number_panics(v@),
        r matches Some(x) ==> x == number_value(v@),
{
    let n = v.len();
    assert(v@.subrange(0, n as int) == v@);
    let d = i32_in(v, 0, n, 10);
    if d.is_some() {
        return Some(d);
    }
    let blen = byte_len_upto(v, 17);
    if blen == 9 {
        if !boundary_at(v, 8) {
            return None;
        }
        if v[n - 1] == 'b' {
            assert(v@.subrange(0, n - 1) == v@.drop_last());
            let x = i32_in(v, 0, n - 1, 2);
            if x.is_some() {
                return Some(x);
            }
        }
    }
    if blen == 17 {
        if !boundary_at(v, 16) {
            return None;
        }
        if v[n - 1] == 'b' {
            assert(v@.subrange(0, n - 1) == v@.drop_last());
            let x = i32_in(v, 0, n - 1, 2);
            if x.is_some() {
                return Some(x);
            }
        }
    }
    if blen > 2 {
        if !boundary_at(v, 2) {
            return None;
        }
        if n >= 2 && v[0] == '0' && v[1] == 'x' {
            assert(v@.subrange(2, n as int) == v@.skip(2));
            return Some(i32_in(v, 2, n, 16));
        }
    }
    Some(None)
}

/// Parses a value as a number: a decimal `i32`, eight or sixteen binary
/// digits followed by `b`, or `0x` followed by hexadecimal digits.
pub fn parse_number(value: &str) -> (r: Option<i32>)
    requires
        !number_panics(value@),
    ensures
        r == number_value(value@),
{
    let v = chars_of(value);
    match scan_number(&v) {
        Some(x) => x,
        None => None,
    }
}

proof fn lemma_digit_char(d: nat)
    requires
        d < 10,
    ensures
        digit_value(digit_char(d), 10) == Some(d),
        '0' <= digit_char(d) <= '9',
{
    assert((digit_char(d) as u32) == ('0' as u32) + d);
}

proof fn lemma_digits_read_back(n: nat)
    ensures
        digits_value(digits(n), 10) == Some(n),
        digits(n).len() > 0,
        '0' <= digits(n)[0] <= '9',
    decreases n,
{
    if n < 10 {
        lemma_digit_char(n);
        assert(digits(n).drop_last() =~= Seq::<char>::empty());
        assert(digits_value(Seq::<char>::empty(), 10) == Some(0nat));
        assert(digits(n).last() == digit_char(n));
        assert(digits_value(digits(n), 10) == Some(0 * 10 + n));
    } else {
        lemma_digits_read_back(n / 10);
        lemma_digit_char(n % 10);
        assert(digits(n).drop_last() == digits(n / 10));
        assert(digits(n).last() == digit_char(n % 10));
        assert(digits(n)[0] == digits(n / 10)[0]);
        assert((n / 10) * 10 + n % 10 == n);
        assert(digits_value(digits(n), 10) == Some((n / 10) * 10 + n % 10));
    }
}

/// Every `i32`, written in decimal as `Display` writes it, reads back as
/// itself.
pub proof fn law_decimal_reads_back(x: i32)
    ensures
        !number_panics(decimal(x as int)),
        number_value(decimal(x as int)) == Some(x),
{
    if x < 0 {
        let n = (-x) as nat;
        lemma_digits_read_back(n);
        let s = decimal(x as int);
        assert(s.drop_first() =~= digits(n));
        assert(s[0] == '-');
    } else {
        lemma_digits_read_back(x as nat);
    }
}

} // verus!
