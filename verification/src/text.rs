//! Decimal rendering of counts and identifiers for messages.
use vstd::prelude::*;

verus! {

/// Digit character of `d < 10`.
pub open spec fn digit_char(d: int) -> char {
    (48 + d) as char
}

/// Decimal digits of `n`, most significant first, without leading zeros.
pub open spec fn decimal(n: nat) -> Seq<char>
    decreases n,
{
    if n < 10 {
        seq![digit_char(n as int)]
    } else {
        decimal(n / 10).push(digit_char((n % 10) as int))
    }
}

/// The one-character text of digit `d`.
fn digit_text(d: u64) -> (r: &'static str)
    requires
        d < 10,
    ensures
        r@ == seq![digit_char(d as int)],
{
    proof {
        reveal_strlit("0");
        reveal_strlit("1");
        reveal_strlit("2");
        reveal_strlit("3");
        reveal_strlit("4");
        reveal_strlit("5");
        reveal_strlit("6");
        reveal_strlit("7");
        reveal_strlit("8");
        reveal_strlit("9");
    }
    match d {
        0 => "0",
        1 => "1",
        2 => "2",
        3 => "3",
        4 => "4",
        5 => "5",
        6 => "6",
        7 => "7",
        8 => "8",
        _ => "9",
    }
}

/// The digits, last first, as characters.
pub open spec fn reversed_digits(digits: Seq<u64>) -> Seq<char> {
    Seq::new(digits.len(), |i: int| digit_char(digits[digits.len() - 1 - i] as int))
}

/// Appends the decimal digits of `n` to `s`.
pub fn push_decimal(s: &mut String, n: u64)
    ensures
        final(s)@ == old(s)@ + decimal(n as nat),
{
    let mut digits: Vec<u64> = Vec::new();
    let mut m: u64 = n;
    loop
        invariant_except_break
            m > 0 || digits@.len() == 0,
            m > 0 ==> decimal(n as nat) == decimal(m as nat) + reversed_digits(digits@),
            digits@.len() == 0 ==> m == n,
        invariant
            forall|i: int| 0 <= i < digits@.len() ==> #[trigger] digits@[i] < 10,
        ensures
            decimal(n as nat) == reversed_digits(digits@),
            forall|i: int| 0 <= i < digits@.len() ==> #[trigger] digits@[i] < 10,
        decreases m,
    {
        let ghost before = digits@;
        let d = m % 10;
        let rest = m / 10;
        digits.push(d);
        proof {
            assert(reversed_digits(digits@) =~= seq![digit_char(d as int)] + reversed_digits(before));
            if m >= 10 {
                assert(decimal(m as nat) == decimal(rest as nat).push(digit_char(d as int)));
                assert(decimal(rest as nat) + reversed_digits(digits@) =~= decimal(rest as nat).push(
                    digit_char(d as int),
                ) + reversed_digits(before));
            } else {
                assert(decimal(m as nat) =~= seq![digit_char(d as int)]);
            }
        }
        m = rest;
        if m == 0 {
            break;
        }
    }
    let ghost start = s@;
    let mut k: usize = digits.len();
    while k > 0
        invariant
            k <= digits@.len(),
            forall|i: int| 0 <= i < digits@.len() ==> #[trigger] digits@[i] < 10,
            s@ == start + reversed_digits(digits@).take(digits@.len() - k),
        decreases k,
    {
        k -= 1;
        let piece = digit_text(digits[k]);
        s.append(piece);
        proof {
            assert(reversed_digits(digits@).take(digits@.len() - k) =~= reversed_digits(digits@).take(
                digits@.len() - k - 1,
            ).push(digit_char(digits@[k as int] as int)));
        }
    }
    proof {
        assert(reversed_digits(digits@).take(digits@.len() as int) =~= reversed_digits(digits@));
    }
}

} // verus!
