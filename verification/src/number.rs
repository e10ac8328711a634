//! Decimal integers: reading them as `str::parse` does and writing them as
//! `format!` does.

use vstd::prelude::*;
use crate::text::str_chars;

verus! {

/// An ASCII decimal digit.
pub open spec fn is_digit(c: char) -> bool {
    '0' <= c && c <= '9'
}

/// The value of a decimal digit character.
pub open spec fn digit_value(c: char) -> int {
    c as int - '0' as int
}

/// The character of a digit value below ten.
pub open spec fn digit_char(d: nat) -> char {
    ('0' as int + d) as char
}

/// Every character of `s` is a decimal digit.
pub open spec fn all_digits(s: Seq<char>) -> bool {
    forall|i: int| 0 <= i < s.len() ==> #[trigger] is_digit(s[i])
}

/// The number that a string of decimal digits denotes (leading zeros allowed).
pub open spec fn digits_value(s: Seq<char>) -> int
    decreases s.len(),
{
    if s.len() == 0 {
        0
    } else {
        digits_value(s.drop_last()) * 10 + digit_value(s.last())
    }
}

/// The integer that `s` denotes in the syntax that `str::parse` accepts
/// for a signed integer: an optional `+` or `-` followed by one or more
/// decimal digits, and nothing else.
pub open spec fn signed_text_value(s: Seq<char>) -> Option<int> {
    if s.len() >= 2 && s[0] == '-' && all_digits(s.drop_first()) {
        Some(-digits_value(s.drop_first()))
    } else if s.len() >= 2 && s[0] == '+' && all_digits(s.drop_first()) {
        Some(digits_value(s.drop_first()))
    } else if s.len() >= 1 && all_digits(s) {
        Some(digits_value(s))
    } else {
        None
    }
}

/// The integer that `s` denotes in the syntax that `str::parse` accepts
/// for an unsigned integer: an optional `+` followed by one or more decimal
/// digits, and nothing else.
pub open spec fn unsigned_text_value(s: Seq<char>) -> Option<int> {
    if s.len() >= 2 && s[0] == '+' && all_digits(s.drop_first()) {
        Some(digits_value(s.drop_first()))
    } else if s.len() >= 1 && all_digits(s) {
        Some(digits_value(s))
    } else {
        None
    }
}

/// What `s.parse::<i32>()` gives: the value when the text is well formed and
/// the value fits in an `i32`.
pub open spec fn spec_parse_i32(s: Seq<char>) -> Option<i32> {
    match signed_text_value(s) {
        Some(v) => if i32::MIN <= v <= i32::MAX { Some(v as i32) } else { None },
        None => None,
    }
}

/// What `s.parse::<u16>()` gives: the value when the text is well formed and
/// the value fits in a `u16`.
pub open spec fn spec_parse_u16(s: Seq<char>) -> Option<u16> {
    match unsigned_text_value(s) {
        Some(v) => if v <= u16::MAX { Some(v as u16) } else { None },
        None => None,
    }
}

/// The decimal text of a natural number, without leading zeros.
pub open spec fn nat_text(n: nat) -> Seq<char>
    decreases n,
{
    if n < 10 {
        seq![digit_char(n)]
    } else {
        nat_text(n / 10).push(digit_char(n % 10))
    }
}

/// The decimal text of an integer, as `format!("{}", n)` writes it.
pub open spec fn int_text(n: int) -> Seq<char> {
    if n < 0 {
        seq!['-'] + nat_text((-n) as nat)
    } else {
        nat_text(n as nat)
    }
}

/// Appending digits never makes the value smaller.
pub proof fn lemma_digits_value_prefix(s: Seq<char>, k: int)
    requires
        all_digits(s),
        0 <= k <= s.len(),
    ensures
        0 <= digits_value(s.take(k)) <= digits_value(s),
    decreases s.len(),
{
    if s.len() > 0 && k < s.len() {
        assert(s.drop_last().take(k) =~= s.take(k));
        assert(is_digit(s[s.len() - 1]));
        lemma_digits_value_prefix(s.drop_last(), k);
    } else if k == s.len() {
        assert(s.take(k) =~= s);
        if s.len() > 0 {
            assert(is_digit(s[s.len() - 1]));
            lemma_digits_value_prefix(s.drop_last(), k - 1);
        }
    }
}

/// Reads `cs[lo..hi]` as a string of decimal digits. Gives the value when
/// every character is a digit and the value is at most `limit`.
fn digits_at_most(cs: &Vec<char>, lo: usize, hi: usize, limit: u64) -> (r: Option<u64>)
    requires
        lo <= hi <= cs.len(),
        limit <= u32::MAX,
    ensures
        ({
            let t = cs@.subrange(lo as int, hi as int);
            match r {
                Some(v) => all_digits(t) && v == digits_value(t) && v <= limit,
                None => !(all_digits(t) && digits_value(t) <= limit),
            }
        }),
{
    let mut acc: u64 = 0;
    let mut i = lo;
    assert(cs@.subrange(lo as int, lo as int) =~= Seq::<char>::empty());
    while i < hi
        invariant
            lo <= i <= hi <= cs.len(),
            limit <= u32::MAX,
            acc <= limit,
            all_digits(cs@.subrange(lo as int, i as int)),
            acc == digits_value(cs@.subrange(lo as int, i as int)),
        decreases hi - i,
    {
        let ghost t = cs@.subrange(lo as int, hi as int);
        let ghost k = (i - lo) as int;
        assert(cs@.subrange(lo as int, i as int) =~= t.take(k));
        assert(t[k] == cs@[i as int]);
        let c = cs[i];
        if !('0' <= c && c <= '9') {
            assert(!is_digit(t[k]));
            return None;
        }
        let d = (c as u32 - '0' as u32) as u64;
        let next = acc * 10 + d;
        let ghost nt = cs@.subrange(lo as int, i + 1);
        assert(nt.drop_last() =~= cs@.subrange(lo as int, i as int));
        assert(nt =~= t.take(k + 1));
        if next > limit {
            proof {
                if all_digits(t) {
                    lemma_digits_value_prefix(t, k + 1);
                }
            }
            return None;
        }
        acc = next;
        i += 1;
    }
    assert(cs@.subrange(lo as int, i as int) =~= cs@.subrange(lo as int, hi as int));
    Some(acc)
}

/// Parses `cs[lo..hi]` as `str::parse::<i32>` parses its text.
pub fn parse_i32_range(cs: &Vec<char>, lo: usize, hi: usize) -> (r: Option<i32>)
    requires
        lo <= hi <= cs.len(),
    ensures
        r == spec_parse_i32(cs@.subrange(lo as int, hi as int)),
{
    let ghost t = cs@.subrange(lo as int, hi as int);
    if hi - lo >= 2 && (cs[lo] == '-' || cs[lo] == '+') {
        assert(t.drop_first() =~= cs@.subrange(lo + 1, hi as int));
        assert(t[0] == cs@[lo as int]);
        if cs[lo] == '-' {
            match digits_at_most(cs, lo + 1, hi, 2147483648) {
                Some(v) => {
                    if v == 2147483648 {
                        Some(i32::MIN)
                    } else {
                        Some(-(v as i32))
                    }
                }
                None => None,
            }
        } else {
            match digits_at_most(cs, lo + 1, hi, 2147483647) {
                Some(v) => Some(v as i32),
                None => None,
            }
        }
    } else {
        proof {
            if t.len() >= 2 {
                assert(t[0] == cs@[lo as int]);
                assert(t[0] != '-' && t[0] != '+');
            }
        }
        if hi - lo >= 1 {
            proof {
                if all_digits(t) {
                    assert(is_digit(t[0]));
                }
            }
        }
        if hi == lo {
            return None;
        }
        match digits_at_most(cs, lo, hi, 2147483647) {
            Some(v) => Some(v as i32),
            None => None,
        }
    }
}

/// Parses `cs[lo..hi]` as `str::parse::<u16>` parses its text.
pub fn parse_u16_range(cs: &Vec<char>, lo: usize, hi: usize) -> (r: Option<u16>)
    requires
        lo <= hi <= cs.len(),
    ensures
        r == spec_parse_u16(cs@.subrange(lo as int, hi as int)),
{
    let ghost t = cs@.subrange(lo as int, hi as int);
    if hi - lo >= 2 && cs[lo] == '+' {
        assert(t.drop_first() =~= cs@.subrange(lo + 1, hi as int));
        assert(t[0] == cs@[lo as int]);
        match digits_at_most(cs, lo + 1, hi, 65535) {
            Some(v) => Some(v as u16),
            None => None,
        }
    } else {
        proof {
            if t.len() >= 2 {
                assert(t[0] == cs@[lo as int]);
            }
        }
        if hi == lo {
            return None;
        }
        proof {
            if all_digits(t) {
                assert(is_digit(t[0]));
            }
        }
        match digits_at_most(cs, lo, hi, 65535) {
            Some(v) => Some(v as u16),
            None => None,
        }
    }
}

/// `s.parse::<i32>()`, with `None` for every error.
pub fn parse_i32(s: &str) -> (r: Option<i32>)
    ensures
        r == spec_parse_i32(s@),
{
    let cs = str_chars(s);
    assert(cs@.subrange(0, cs@.len() as int) =~= cs@);
    parse_i32_range(&cs, 0, cs.len())
}

/// `s.parse::<u16>()`, with `None` for every error.
pub fn parse_u16(s: &str) -> (r: Option<u16>)
    ensures
        r == spec_parse_u16(s@),
{
    let cs = str_chars(s);
    assert(cs@.subrange(0, cs@.len() as int) =~= cs@);
    parse_u16_range(&cs, 0, cs.len())
}


/// The digit character of `d`.
fn digit_to_char(d: u64) -> (c: char)
    requires
        d < 10,
    ensures
        c == digit_char(d as nat),
{
    let b: u8 = 48 + d as u8;
    b as char
}

/// Appends the decimal text of `n` to `s`.
pub fn push_nat_text(s: &mut String, n: u64)
    ensures
        final(s)@ == old(s)@ + nat_text(n as nat),
    decreases n,
{
    if n >= 10 {
        push_nat_text(s, n / 10);
    }
    s.push(digit_to_char(n % 10));
    assert(old(s)@ + nat_text(n as nat) =~= (if n >= 10 { old(s)@ + nat_text((n / 10) as nat) } else { old(s)@ }).push(digit_char((n % 10) as nat)));
}

/// Appends the decimal text of `n` to `s`, as `format!("{}", n)` writes it.
pub fn push_int_text(s: &mut String, n: i64)
    ensures
        final(s)@ == old(s)@ + int_text(n as int),
{
    if n < 0 {
        s.push('-');
        let magnitude: u64 = if n == i64::MIN { 9223372036854775808u64 } else { (-n) as u64 };
        push_nat_text(s, magnitude);
        assert(old(s)@ + int_text(n as int) =~= old(s)@.push('-') + nat_text(magnitude as nat));
    } else {
        push_nat_text(s, n as u64);
    }
}


/// The decimal text of a natural number is a non-empty string of digits
/// that denotes the number.
pub proof fn lemma_nat_text_digits(n: nat)
    ensures
        nat_text(n).len() >= 1,
        all_digits(nat_text(n)),
        digits_value(nat_text(n)) == n,
    decreases n,
{
    let d = digit_char(n % 10);
    assert(is_digit(d) && digit_value(d) == n % 10);
    if n >= 10 {
        lemma_nat_text_digits(n / 10);
        let t = nat_text(n);
        assert(t.drop_last() =~= nat_text(n / 10));
        assert(t.last() == d);
        assert((n / 10) * 10 + n % 10 == n) by (nonlinear_arith);
        assert forall|i: int| 0 <= i < t.len() implies #[trigger] is_digit(t[i]) by {
            if i < t.len() - 1 {
                assert(t[i] == nat_text(n / 10)[i]);
            }
        }
    } else {
        assert(nat_text(n).drop_last() =~= Seq::<char>::empty());
        assert(nat_text(n).last() == d);
        assert(digits_value(Seq::<char>::empty()) == 0);
    }
}

/// Law: `str::parse::<i32>` reads back what `format!("{}", n)` writes.
pub proof fn lemma_parse_i32_int_text(n: i32)
    ensures
        spec_parse_i32(int_text(n as int)) == Some(n),
{
    if n < 0 {
        let t = int_text(n as int);
        lemma_nat_text_digits((-n) as nat);
        assert(t.drop_first() =~= nat_text((-n) as nat));
    } else {
        lemma_nat_text_digits(n as nat);
        assert(is_digit(nat_text(n as nat)[0]));
    }
}

/// Law: `str::parse::<u16>` reads back what `format!("{}", n)` writes.
pub proof fn lemma_parse_u16_nat_text(n: u16)
    ensures
        spec_parse_u16(nat_text(n as nat)) == Some(n),
{
    lemma_nat_text_digits(n as nat);
    assert(is_digit(nat_text(n as nat)[0]));
}

} // verus!
