//! Decimal numerals.

use vstd::prelude::*;
use vstd::arithmetic::div_mod;
use vstd::arithmetic::power;
use vstd::string::StringExecFns;

verus! {

/// The digit character of a value below ten.
pub open spec fn digit(value: nat) -> char {
    (48 + value) as char
}

/// The decimal numeral of a number, without leading zeros.
pub open spec fn decimal(value: nat) -> Seq<char>
    decreases value,
{
    if value < 10 {
        seq![digit(value)]
    } else {
        decimal(value / 10).push(digit(value % 10))
    }
}

/// The numeral of a single digit.
fn digit_numeral(value: u64) -> (numeral: &'static str)
    requires
        value < 10,
    ensures
        numeral@ == seq![digit(value as nat)],
{
    proof {
        reveal_strlit("0");
        reveal_strlit("1");
        reveal_strlit("2");
        reveal_strlit("3");
        reveal_strlit("4");
        reveal_strlit("5");
        reveal_strlit("6");
        reveal_strlit("7");
        reveal_strlit("8");
        reveal_strlit("9");
    }
    let numeral = match value {
        0 => "0",
        1 => "1",
        2 => "2",
        3 => "3",
        4 => "4",
        5 => "5",
        6 => "6",
        7 => "7",
        8 => "8",
        _ => "9",
    };
    assert(numeral@ =~= seq![digit(value as nat)]);
    numeral
}

/// Appends the decimal numeral of a number.
pub fn append_decimal(out: &mut String, value: u64)
    ensures
        final(out)@ == old(out)@ + decimal(value as nat),
    decreases value,
{
    if value >= 10 {
        append_decimal(out, value / 10);
    }
    out.append(digit_numeral(value % 10));
    assert(out@ =~= old(out)@ + decimal(value as nat));
}

/// A numeral is made of the digits of the number to base ten, most significant
/// first, as many as the number needs and no more.
pub proof fn law_numeral_shows_the_digits(value: nat)
    ensures
        decimal(value).len() > 0,
        (value as int) < power::pow(10, decimal(value).len()),
        decimal(value).len() > 1 ==> power::pow(10, (decimal(value).len() - 1) as nat) <= value,
        forall|i: int|
            0 <= i < decimal(value).len() ==> #[trigger] decimal(value)[i] as int == '0' as int
                + value as int / power::pow(10, (decimal(value).len() - 1 - i) as nat) % 10,
    decreases value,
{
    let numeral = decimal(value);
    power::lemma_pow0(10);
    power::lemma_pow1(10);
    if value >= 10 {
        let shorter = decimal(value / 10);
        law_numeral_shows_the_digits(value / 10);
        assert(power::pow(10, numeral.len()) == 10 * power::pow(10, shorter.len())) by {
            reveal(power::pow);
        }
        if shorter.len() > 1 {
            assert(power::pow(10, shorter.len()) == 10 * power::pow(
                10,
                (shorter.len() - 1) as nat,
            )) by {
                reveal(power::pow);
            }
        }
        assert forall|i: int| 0 <= i < numeral.len() implies #[trigger] numeral[i] as int
            == '0' as int + value as int / power::pow(10, (numeral.len() - 1 - i) as nat) % 10 by {
            if i < shorter.len() {
                let weight = power::pow(10, (shorter.len() - 1 - i) as nat);
                assert(numeral[i] == shorter[i]);
                power::lemma_pow_positive(10, (shorter.len() - 1 - i) as nat);
                div_mod::lemma_div_denominator(value as int, 10, weight);
                assert(power::pow(10, (numeral.len() - 1 - i) as nat) == 10 * weight) by {
                    reveal(power::pow);
                }
            }
        }
    }
}

} // verus!
