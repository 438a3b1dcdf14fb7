//! Generated names: a prefix followed by a number in decimal.
use vstd::prelude::*;

verus! {

/// The decimal digits of `n`, most significant first.
pub open spec fn decimal(n: nat) -> Seq<char>
    decreases n,
{
    if n < 10 {
        seq![digit_char(n)]
    } else {
        decimal(n / 10).push(digit_char(n % 10))
    }
}

pub open spec fn digit_char(d: nat) -> char {
    if d < 10 {
        ((d + '0' as nat) as u8) as char
    } else {
        '?'
    }
}

/// The one-character string of a decimal digit.
fn digit_str(d: usize) -> (r: &'static str)
    requires
        d < 10,
    ensures
        r@ == seq![digit_char(d as nat)],
{
    proof {
        reveal_strlit("0");
        reveal_strlit("1");
        reveal_strlit("2");
        reveal_strlit("3");
        reveal_strlit("4");
        reveal_strlit("5");
        reveal_strlit("6");
        reveal_strlit("7");
        reveal_strlit("8");
        reveal_strlit("9");
    }
    let r = match d {
        0 => "0",
        1 => "1",
        2 => "2",
        3 => "3",
        4 => "4",
        5 => "5",
        6 => "6",
        7 => "7",
        8 => "8",
        _ => "9",
    };
    assert(r@ =~= seq![digit_char(d as nat)]);
    r
}

/// `prefix` followed by the decimal digits of `n`.
pub fn numbered_name(prefix: &str, n: usize) -> (r: String)
    ensures
        r@ == prefix@ + decimal(n as nat),
{
    let mut digits: Vec<usize> = Vec::new();
    let mut m: usize = n;
    // digits[i] is the i-th digit from the right
    while m >= 10
        invariant
            decimal(n as nat) == decimal(m as nat) + digits_seq(digits@),
            forall|i: int| 0 <= i < digits.len() ==> digits[i] < 10,
        decreases m,
    {
        let ghost old_digits = digits@;
        proof {
            assert(decimal(m as nat) == decimal((m / 10) as nat).push(digit_char((m % 10) as nat)));
        }
        digits.push(m % 10);
        m = m / 10;
        proof {
            assert(digits_seq(digits@) =~= seq![digit_char(digits@.last() as nat)] + digits_seq(
                old_digits,
            )) by {
                assert(digits@.drop_last() =~= old_digits);
            }
        }
    }
    let mut r = String::from_str(prefix);
    r.append(digit_str(m));
    let mut i: usize = digits.len();
    assert(digits@.take(i as int) =~= digits@);
    assert(decimal(m as nat) == seq![digit_char(m as nat)]);
    assert(r@ + digits_seq(digits@) =~= prefix@ + (decimal(m as nat) + digits_seq(digits@)));
    while i > 0
        invariant
            i <= digits.len(),
            forall|j: int| 0 <= j < digits.len() ==> digits[j] < 10,
            r@ + digits_seq(digits@.take(i as int)) == prefix@ + decimal(n as nat),
            decimal(n as nat) == decimal(m as nat) + digits_seq(digits@),
        decreases i,
    {
        i -= 1;
        let ghost before = r@;
        r.append(digit_str(digits[i]));
        proof {
            assert(digits@.take(i + 1).drop_last() =~= digits@.take(i as int));
            assert(digits_seq(digits@.take(i + 1)) == seq![digit_char(digits[i as int] as nat)]
                + digits_seq(digits@.take(i as int)));
            assert(r@ + digits_seq(digits@.take(i as int)) =~= before + digits_seq(
                digits@.take(i + 1),
            ));
        }
    }
    assert(digits@.take(0) =~= seq![]);
    r
}

/// The characters of digits stored least significant first, read most
/// significant first.
pub open spec fn digits_seq(ds: Seq<usize>) -> Seq<char>
    decreases ds.len(),
{
    if ds.len() == 0 {
        seq![]
    } else {
        seq![digit_char(ds.last() as nat)] + digits_seq(ds.drop_last())
    }
}

} // verus!
