//! Text made of numbers.

use crate::binary32::num::Num;
use crate::binary32::single::Single;
use vstd::prelude::*;
use vstd::string::StringExecFns;

verus! {

/// A decimal digit.
pub open spec fn digit(d: nat) -> char {
    ('0' as int + d) as char
}

/// A natural number in decimal, without leading zeros.
pub open spec fn decimal(n: nat) -> Seq<char>
    decreases n,
{
    if n < 10 {
        seq![digit(n)]
    } else {
        decimal(n / 10).push(digit(n % 10))
    }
}

/// A number rounded to a whole one, in decimal; of two whole numbers that are
/// equally near the even one is taken.
pub open spec fn whole(n: Num) -> Seq<char> {
    match n {
        Num::Nan => "NaN"@,
        Num::Infinite { negative } => if negative {
            "-inf"@
        } else {
            "inf"@
        },
        Num::Finite { negative, units } => {
            let text = decimal(Num::nearest_even(units, Num::one_units()));
            if negative {
                "-"@ + text
            } else {
                text
            }
        },
    }
}

/// Puts a digit at the end of a text.
fn push_digit(text: &mut String, d: u8)
    requires
        d < 10,
    ensures
        final(text)@ == old(text)@.push(digit(d as nat)),
{
    proof {
        reveal_strlit("0");
        reveal_strlit("1");
        reveal_strlit("2");
        reveal_strlit("3");
        reveal_strlit("4");
        reveal_strlit("5");
        reveal_strlit("6");
        reveal_strlit("7");
        reveal_strlit("8");
        reveal_strlit("9");
    }
    let last: &str = match d {
        0 => "0",
        1 => "1",
        2 => "2",
        3 => "3",
        4 => "4",
        5 => "5",
        6 => "6",
        7 => "7",
        8 => "8",
        _ => "9",
    };
    text.append(last);
    assert(text@ =~= old(text)@.push(digit(d as nat)));
}

/// Puts a number in decimal at the end of a text.
pub fn push_decimal(text: &mut String, n: u128)
    ensures
        final(text)@ == old(text)@ + decimal(n as nat),
    decreases n,
{
    if n >= 10 {
        push_decimal(text, n / 10);
    }
    push_digit(text, (n % 10) as u8);
    assert(text@ =~= old(text)@ + decimal(n as nat));
}

/// Puts a number, rounded to a whole one, at the end of a text.
pub fn push_whole(text: &mut String, x: Single)
    ensures
        final(text)@ == old(text)@ + whole(x@),
{
    if x.is_nan() {
        text.append("NaN");
        return;
    }
    if !x.is_finite() {
        if x.is_negative() {
            text.append("-inf");
        } else {
            text.append("inf");
        }
        return;
    }
    if x.is_negative() {
        text.append("-");
    }
    let n: u128 = x.nearest_whole();
    push_decimal(text, n);
    assert(text@ =~= old(text)@ + whole(x@));
}

/// The number that a row of decimal digits stands for.
pub open spec fn read(text: Seq<char>) -> nat
    decreases text.len(),
{
    if text.len() == 0 {
        0
    } else {
        read(text.drop_last()) * 10 + (text.last() as int - '0' as int) as nat
    }
}

/// A number in decimal is made of digits, reads as the number, and does not begin with a zero
/// unless it is zero.
pub proof fn law_decimal_reads_back(n: nat)
    ensures
        read(decimal(n)) == n,
        decimal(n).len() > 0,
        forall|i: int| 0 <= i < decimal(n).len() ==> '0' <= #[trigger] decimal(n)[i] <= '9',
        n > 0 ==> decimal(n)[0] != '0',
        n == 0 ==> decimal(n).len() == 1,
    decreases n,
{
    if n < 10 {
        let text = decimal(n);
        assert(text.drop_last() =~= Seq::<char>::empty());
        assert(read(text.drop_last()) == 0);
        assert(text.last() == digit(n));
    } else {
        law_decimal_reads_back(n / 10);
        let text = decimal(n);
        assert(text.drop_last() =~= decimal(n / 10));
        assert(text.last() == digit(n % 10));
        assert(text[0] == decimal(n / 10)[0]);
        assert forall|i: int| 0 <= i < text.len() implies '0' <= #[trigger] text[i] <= '9' by {
            if i < text.len() - 1 {
                assert(text[i] == decimal(n / 10)[i]);
            }
        }
    }
}

/// A number that is written as a whole one is the nearest whole number to it, in decimal, the
/// even one of two that are equally near, behind a minus sign where it is negative.
pub proof fn law_whole_is_nearest(x: Num)
    requires
        x is Finite,
    ensures
        exists|k: nat|
            {
                let off = 2 * (k * Num::one_units() - x->units);
                &&& -(Num::one_units() as int) <= off <= Num::one_units()
                &&& off == Num::one_units() || off == -(Num::one_units() as int) ==> k % 2 == 0
                &&& whole(x) == if x->Finite_negative {
                    "-"@ + #[trigger] decimal(k)
                } else {
                    decimal(k)
                }
            },
{
    let one = Num::one_units();
    let units = x->units;
    let k = Num::nearest_even(units, one);
    vstd::arithmetic::power2::lemma_pow2_pos(149);
    vstd::arithmetic::div_mod::lemma_fundamental_div_mod(units as int, one as int);
    let low = (units / one) as int;
    vstd::arithmetic::mul::lemma_mul_is_commutative(low, one as int);
    assert((low + 1) * one == low * one + one) by (nonlinear_arith);
    let off = 2 * (k * one - units);
    assert(-(one as int) <= off <= one);
    assert(off == one || off == -(one as int) ==> k % 2 == 0);
    assert(whole(x) == if x->Finite_negative {
        "-"@ + decimal(k)
    } else {
        decimal(k)
    });
}

/// What is no number, and what is infinite, is written in words.
pub proof fn law_whole_in_words(negative: bool)
    ensures
        whole(Num::Nan) == "NaN"@,
        whole(Num::Infinite { negative: true }) == "-inf"@,
        whole(Num::Infinite { negative: false }) == "inf"@,
{
}

} // verus!
