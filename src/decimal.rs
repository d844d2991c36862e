//! Canonical decimal rendering of integers.

use vstd::prelude::*;

verus! {

/// The ASCII digit for `d`, which is below ten.
pub open spec fn digit_char(d: nat) -> char {
    if d == 0 {
        '0'
    } else if d == 1 {
        '1'
    } else if d == 2 {
        '2'
    } else if d == 3 {
        '3'
    } else if d == 4 {
        '4'
    } else if d == 5 {
        '5'
    } else if d == 6 {
        '6'
    } else if d == 7 {
        '7'
    } else if d == 8 {
        '8'
    } else {
        '9'
    }
}

/// The digits of `n`, most significant first, with no leading zeros.
pub open spec fn digits_of(n: nat) -> Seq<char>
    decreases n,
{
    if n < 10 {
        seq![digit_char(n)]
    } else {
        digits_of(n / 10).push(digit_char(n % 10))
    }
}

/// The canonical decimal form of `n`: a minus sign for negative values, then
/// the digits of its magnitude.
pub open spec fn decimal_of(n: int) -> Seq<char> {
    if n < 0 {
        seq!['-'] + digits_of((-n) as nat)
    } else {
        digits_of(n as nat)
    }
}

/// The value of a digit character, if it is one.
pub open spec fn digit_value(c: char) -> Option<nat> {
    if '0' <= c && c <= '9' {
        Some((c as nat - '0' as nat) as nat)
    } else {
        None
    }
}

/// The value that a non-empty string of digits denotes.
pub open spec fn value_of_digits(s: Seq<char>) -> nat
    decreases s.len(),
{
    if s.len() == 0 {
        0
    } else {
        let d = match digit_value(s.last()) {
            Some(v) => v,
            None => 0,
        };
        value_of_digits(s.drop_last()) * 10 + d
    }
}

/// The integer that a decimal string denotes: an optional minus sign and
/// digits.
pub open spec fn value_of_decimal(s: Seq<char>) -> int {
    if s.len() > 0 && s[0] == '-' {
        -(value_of_digits(s.drop_first()) as int)
    } else {
        value_of_digits(s) as int
    }
}

proof fn lemma_digit_char(d: nat)
    requires
        d < 10,
    ensures
        digit_value(digit_char(d)) == Some(d),
        digit_char(d) != '-',
{
}

proof fn lemma_digits_value(n: nat)
    ensures
        value_of_digits(digits_of(n)) == n,
        digits_of(n).len() > 0,
        digits_of(n)[0] != '-',
    decreases n,
{
    if n < 10 {
        lemma_digit_char(n);
        assert(digits_of(n).drop_last() =~= Seq::<char>::empty());
        assert(value_of_digits(Seq::<char>::empty()) == 0);
    } else {
        lemma_digits_value(n / 10);
        lemma_digit_char(n % 10);
        assert(digits_of(n).drop_last() =~= digits_of(n / 10));
        assert(n == (n / 10) * 10 + n % 10);
    }
}

/// Reading back the decimal form of an integer gives that integer.
pub proof fn lemma_decimal_round_trip(n: int)
    ensures
        value_of_decimal(decimal_of(n)) == n,
{
    if n < 0 {
        lemma_digits_value((-n) as nat);
        assert(decimal_of(n).drop_first() =~= digits_of((-n) as nat));
    } else {
        lemma_digits_value(n as nat);
    }
}

fn digit_text(d: u64) -> (r: &'static str)
    requires
        d < 10,
    ensures
        r@ == seq![digit_char(d as nat)],
{
    proof {
        reveal_strlit("0");
        reveal_strlit("1");
        reveal_strlit("2");
        reveal_strlit("3");
        reveal_strlit("4");
        reveal_strlit("5");
        reveal_strlit("6");
        reveal_strlit("7");
        reveal_strlit("8");
        reveal_strlit("9");
    }
    if d == 0 {
        "0"
    } else if d == 1 {
        "1"
    } else if d == 2 {
        "2"
    } else if d == 3 {
        "3"
    } else if d == 4 {
        "4"
    } else if d == 5 {
        "5"
    } else if d == 6 {
        "6"
    } else if d == 7 {
        "7"
    } else if d == 8 {
        "8"
    } else {
        "9"
    }
}

/// The digits of `n` as a string.
fn digits_text(n: u64) -> (r: String)
    ensures
        r@ == digits_of(n as nat),
{
    let mut m: u64 = n;
    let mut text = String::new();
    while m >= 10
        invariant
            digits_of(n as nat) == digits_of(m as nat) + text@,
        decreases m,
    {
        let d: u64 = m % 10;
        let head = String::from_str(digit_text(d));
        let ghost before = text@;
        text = head.concat(text.as_str());
        assert(digits_of((m / 10) as nat) + text@ =~= digits_of(m as nat) + before);
        m = m / 10;
    }
    let head = String::from_str(digit_text(m));
    let ghost before = text@;
    text = head.concat(text.as_str());
    assert(text@ =~= digits_of(m as nat) + before);
    text
}

/// The canonical decimal form of `n`.
pub fn decimal_text(n: i64) -> (r: String)
    ensures
        r@ == decimal_of(n as int),
{
    if n < 0 {
        let magnitude: u64 = (0 - (n as i128)) as u64;
        let digits = digits_text(magnitude);
        proof {
            reveal_strlit("-");
        }
        let sign = String::from_str("-");
        let r = sign.concat(digits.as_str());
        r
    } else {
        digits_text(n as u64)
    }
}

} // verus!
