//! Whole numbers written in decimal, as a short id appears in a lookup.

use vstd::prelude::*;

verus! {

/// The character of one decimal digit.
pub open spec fn digit_char(d: int) -> char {
    if d == 0 {
        '0'
    } else if d == 1 {
        '1'
    } else if d == 2 {
        '2'
    } else if d == 3 {
        '3'
    } else if d == 4 {
        '4'
    } else if d == 5 {
        '5'
    } else if d == 6 {
        '6'
    } else if d == 7 {
        '7'
    } else if d == 8 {
        '8'
    } else {
        '9'
    }
}

/// The decimal digits of a natural number, most significant first, without
/// leading zeros.
pub open spec fn digits(n: nat) -> Seq<char>
    decreases n,
{
    if n < 10 {
        seq![digit_char(n as int)]
    } else {
        digits(n / 10).push(digit_char((n % 10) as int))
    }
}

/// A whole number in decimal: a minus sign where it is negative, then its digits.
pub open spec fn decimal_text(n: int) -> Seq<char> {
    if n < 0 {
        seq!['-'] + digits((-n) as nat)
    } else {
        digits(n as nat)
    }
}

fn digit_of(d: u64) -> (c: char)
    requires
        d < 10,
    ensures
        c == digit_char(d as int),
{
    if d == 0 {
        '0'
    } else if d == 1 {
        '1'
    } else if d == 2 {
        '2'
    } else if d == 3 {
        '3'
    } else if d == 4 {
        '4'
    } else if d == 5 {
        '5'
    } else if d == 6 {
        '6'
    } else if d == 7 {
        '7'
    } else if d == 8 {
        '8'
    } else {
        '9'
    }
}

/// The digits of `n`, least significant first.
fn digits_reversed(n: u64) -> (rev: Vec<char>)
    ensures
        rev@.reverse() == digits(n as nat),
        rev@.len() >= 1,
{
    let mut rev: Vec<char> = Vec::new();
    rev.push(digit_of(n % 10));
    let mut rest: u64 = n / 10;
    proof {
        assert(rev@.reverse() =~= seq![digit_char((n % 10) as int)]);
    }
    while rest > 0
        invariant
            rev@.len() >= 1,
            rest == 0 ==> rev@.reverse() == digits(n as nat),
            rest > 0 ==> digits(rest as nat) + rev@.reverse() == digits(n as nat),
        decreases rest,
    {
        let ghost before = rev@;
        let ghost high = rest;
        rev.push(digit_of(rest % 10));
        rest = rest / 10;
        proof {
            let d = digit_char((high % 10) as int);
            assert(rev@.reverse() =~= seq![d] + before.reverse());
            if rest == 0 {
                assert(digits(high as nat) =~= seq![d]);
                assert(digits(high as nat) + before.reverse() =~= rev@.reverse());
            } else {
                assert(digits(high as nat) == digits(rest as nat).push(d));
                assert(digits(rest as nat) + rev@.reverse() =~= digits(high as nat)
                    + before.reverse());
            }
        }
    }
    rev
}

/// Whether `text` is `n` written in decimal.
pub fn is_decimal_of(text: &str, n: i64) -> (same: bool)
    ensures
        same == (text@ == decimal_text(n as int)),
{
    let negative = n < 0;
    let magnitude: u64 = if negative {
        (-(n + 1)) as u64 + 1
    } else {
        n as u64
    };
    let rev = digits_reversed(magnitude);
    let sign: usize = if negative {
        1
    } else {
        0
    };
    let len = text.unicode_len();
    let ghost wanted = decimal_text(n as int);
    proof {
        assert(magnitude as nat == if n < 0 {
            (-n) as nat
        } else {
            n as nat
        });
        assert(wanted.len() == sign + rev@.len());
    }
    if rev.len() > usize::MAX - sign || len != rev.len() + sign {
        return false;
    }
    if negative && text.get_char(0) != '-' {
        assert(wanted[0] == '-');
        return false;
    }
    let count = rev.len();
    let mut i: usize = 0;
    while i < count
        invariant
            i <= count,
            count == rev@.len(),
            len == count + sign,
            text@.len() == len,
            wanted == decimal_text(n as int),
            wanted.len() == len,
            sign == 0 || sign == 1,
            sign == 1 ==> text@[0] == wanted[0],
            forall|k: int| sign <= k < len ==> wanted[k] == rev@[len - 1 - k],
            forall|k: int| sign <= k < sign + i ==> text@[k] == wanted[k],
        decreases count - i,
    {
        if text.get_char(sign + i) != rev[count - 1 - i] {
            assert(text@[sign + i] != wanted[sign + i]);
            return false;
        }
        i += 1;
    }
    assert(text@ =~= wanted);
    true
}

} // verus!
