//! Text built one character at a time, for messages and generated names.

use vstd::prelude::*;

verus! {

/// `String::push` appends one character.
pub assume_specification[ String::push ](s: &mut String, c: char)
    ensures
        final(s)@ == old(s)@.push(c),
;

/// The decimal digit of a number below ten.
pub open spec fn digit(n: nat) -> char {
    (48 + n) as char
}

/// A number in decimal, without leading zeros.
pub open spec fn decimal(n: nat) -> Seq<char>
    decreases n,
{
    if n < 10 {
        seq![digit(n)]
    } else {
        decimal(n / 10).push(digit(n % 10))
    }
}

/// Appends a number in decimal.
pub fn push_decimal(s: &mut String, n: u64)
    ensures
        final(s)@ == old(s)@ + decimal(n as nat),
    decreases n,
{
    if n < 10 {
        s.push((48u8 + n as u8) as char);
    } else {
        push_decimal(s, n / 10);
        s.push((48u8 + (n % 10) as u8) as char);
    }
    assert(s@ =~= old(s)@ + decimal(n as nat));
}

/// Appends a text.
pub fn push_text(s: &mut String, text: &str)
    ensures
        final(s)@ == old(s)@ + text@,
{
    s.append(text);
}

/// Whether two texts are the same.
pub fn same_text(a: &str, b: &str) -> (same: bool)
    ensures
        same == (a@ == b@),
{
    let len: usize = a.unicode_len();
    if len != b.unicode_len() {
        return false;
    }
    let mut at: usize = 0;
    while at < len
        invariant
            len == a@.len(),
            len == b@.len(),
            at <= len,
            forall|i: int| 0 <= i < at ==> a@[i] == b@[i],
        decreases len - at,
    {
        if a.get_char(at) != b.get_char(at) {
            return false;
        }
        at += 1;
    }
    assert(a@ =~= b@);
    true
}

/// Whether a character is a decimal digit.
pub open spec fn is_digit(c: char) -> bool {
    '0' <= c <= '9'
}

/// The number that digits spell.
pub open spec fn digits_value(s: Seq<char>) -> nat
    decreases s.len(),
{
    if s.len() == 0 {
        0
    } else {
        digits_value(s.drop_last()) * 10 + (s.last() as u32 - '0' as u32) as nat
    }
}

/// The number that a text spells: at least one digit and nothing but digits.
pub open spec fn spelled(s: Seq<char>) -> Option<nat> {
    if s.len() > 0 && forall|i: int| 0 <= i < s.len() ==> is_digit(#[trigger] s[i]) {
        Some(digits_value(s))
    } else {
        None
    }
}

/// The number that a text spells, with or without a plus sign before it.
pub open spec fn unsigned(s: Seq<char>) -> Option<nat> {
    if s.len() > 0 && s[0] == '+' {
        spelled(s.skip(1))
    } else {
        spelled(s)
    }
}

/// The number that a text spells, with or without a sign before it.
pub open spec fn signed(s: Seq<char>) -> Option<int> {
    if s.len() > 0 && s[0] == '-' {
        match spelled(s.skip(1)) {
            Some(n) => Some(-n),
            None => None,
        }
    } else {
        match unsigned(s) {
            Some(n) => Some(n as int),
            None => None,
        }
    }
}

/// A number in decimal spells that number.
pub proof fn lemma_decimal_spells(n: nat)
    ensures
        spelled(decimal(n)) == Some(n),
        unsigned(decimal(n)) == Some(n),
        signed(decimal(n)) == Some(n as int),
    decreases n,
{
    let s = decimal(n);
    if n < 10 {
        assert(s.drop_last() =~= Seq::<char>::empty());
        assert(is_digit(s[0]));
        assert(digits_value(s) == n) by {
            reveal_with_fuel(digits_value, 2);
        }
    } else {
        let head = decimal(n / 10);
        lemma_decimal_spells(n / 10);
        assert(s.drop_last() =~= head);
        assert forall|i: int| 0 <= i < s.len() implies is_digit(#[trigger] s[i]) by {
            if i < head.len() {
                assert(is_digit(head[i]));
            }
        }
    }
    assert(is_digit(s[0]));
}

/// Reads the digits of a text from a position on.
fn read_digits(text: &str, start: usize) -> (value: Option<u64>)
    requires
        start <= text@.len(),
    ensures
        value == match spelled(text@.skip(start as int)) {
            Some(n) => if n <= u64::MAX {
                Some(n as u64)
            } else {
                None
            },
            None => None,
        },
{
    let ghost rest = text@.skip(start as int);
    let len: usize = text.unicode_len();
    if start == len {
        return None;
    }
    let mut value: Option<u64> = Some(0);
    let mut at: usize = start;
    assert(rest.take(0) =~= Seq::<char>::empty());
    while at < len
        invariant
            len == text@.len(),
            start < len,
            start <= at <= len,
            rest == text@.skip(start as int),
            forall|i: int| 0 <= i < at - start ==> is_digit(#[trigger] rest[i]),
            match value {
                Some(n) => n == digits_value(rest.take(at - start)),
                None => digits_value(rest.take(at - start)) > u64::MAX,
            },
        decreases len - at,
    {
        let c = text.get_char(at);
        assert(rest[at - start] == c);
        if !('0' <= c && c <= '9') {
            return None;
        }
        let digit: u64 = (c as u32 - '0' as u32) as u64;
        let ghost next = rest.take(at - start + 1);
        assert(next.drop_last() =~= rest.take(at - start));
        assert(next.last() == c);
        value = match value {
            Some(n) => match n.checked_mul(10) {
                Some(tens) => tens.checked_add(digit),
                None => None,
            },
            None => None,
        };
        at += 1;
    }
    assert(rest.take(len - start) =~= rest);
    value
}

/// Reads a number with or without a plus sign; nothing if it does not fit.
pub fn parse_unsigned(text: &str) -> (value: Option<u64>)
    ensures
        value == match unsigned(text@) {
            Some(n) => if n <= u64::MAX {
                Some(n as u64)
            } else {
                None
            },
            None => None,
        },
{
    assert(text@.skip(0) =~= text@);
    if text.unicode_len() > 0 && text.get_char(0) == '+' {
        read_digits(text, 1)
    } else {
        read_digits(text, 0)
    }
}

/// Reads a number with or without a sign; nothing if it does not fit.
pub fn parse_signed(text: &str) -> (value: Option<i64>)
    ensures
        value == match signed(text@) {
            Some(n) => if i64::MIN <= n <= i64::MAX {
                Some(n as i64)
            } else {
                None
            },
            None => None,
        },
{
    if text.unicode_len() > 0 && text.get_char(0) == '-' {
        match read_digits(text, 1) {
            Some(n) => if n <= 0x7fff_ffff_ffff_ffff {
                Some(-(n as i64))
            } else if n == 0x8000_0000_0000_0000 {
                Some(i64::MIN)
            } else {
                None
            },
            None => None,
        }
    } else {
        match parse_unsigned(text) {
            Some(n) => if n <= 0x7fff_ffff_ffff_ffff {
                Some(n as i64)
            } else {
                None
            },
            None => None,
        }
    }
}

} // verus!
