//! Decimal numbers as text.

use vstd::prelude::*;
use vstd::string::StringExecFns;

verus! {

/// The character of a decimal digit.
pub open spec fn digit(value: nat) -> char {
    (48 + value) as char
}

/// A number in decimal, without leading zeros.
pub open spec fn decimal(value: nat) -> Seq<char>
    decreases value,
{
    if value < 10 {
        seq![digit(value)]
    } else {
        decimal(value / 10).push(digit(value % 10))
    }
}

/// The text of one digit.
fn digit_text(value: u64) -> (text: &'static str)
    requires
        value < 10,
    ensures
        text@ == seq![digit(value as nat)],
{
    proof {
        reveal_strlit("0");
        reveal_strlit("1");
        reveal_strlit("2");
        reveal_strlit("3");
        reveal_strlit("4");
        reveal_strlit("5");
        reveal_strlit("6");
        reveal_strlit("7");
        reveal_strlit("8");
        reveal_strlit("9");
    }
    if value == 0 {
        "0"
    } else if value == 1 {
        "1"
    } else if value == 2 {
        "2"
    } else if value == 3 {
        "3"
    } else if value == 4 {
        "4"
    } else if value == 5 {
        "5"
    } else if value == 6 {
        "6"
    } else if value == 7 {
        "7"
    } else if value == 8 {
        "8"
    } else {
        "9"
    }
}

/// Appends a number in decimal.
pub fn push_decimal(text: &mut String, value: u64)
    ensures
        final(text)@ == old(text)@ + decimal(value as nat),
    decreases value,
{
    if value < 10 {
        text.append(digit_text(value));
    } else {
        push_decimal(text, value / 10);
        text.append(digit_text(value % 10));
        assert(text@ =~= old(text)@ + decimal(value as nat));
    }
}

/// A number in decimal behind a text.
pub fn with_number(before: &str, value: u64) -> (text: String)
    ensures
        text@ == before@ + decimal(value as nat),
{
    let mut text: String = String::new();
    text.append(before);
    push_decimal(&mut text, value);
    assert(text@ =~= before@ + decimal(value as nat));
    text
}

/// A number in decimal between two texts.
pub fn numbered(before: &str, value: u64, behind: &str) -> (text: String)
    ensures
        text@ == before@ + decimal(value as nat) + behind@,
{
    let mut text: String = String::new();
    text.append(before);
    push_decimal(&mut text, value);
    text.append(behind);
    assert(text@ =~= before@ + decimal(value as nat) + behind@);
    text
}

/// One text behind another.
pub fn joined(before: &str, behind: &str) -> (text: String)
    ensures
        text@ == before@ + behind@,
{
    let mut text: String = String::new();
    text.append(before);
    text.append(behind);
    assert(text@ =~= before@ + behind@);
    text
}

/// The number that decimal digits spell.
pub open spec fn spelled(digits: Seq<char>) -> int
    decreases digits.len(),
{
    if digits.len() == 0 {
        0
    } else {
        10 * spelled(digits.drop_last()) + (digits.last() as int - 48)
    }
}

/// The digits of a number spell it, and only zero begins with a zero.
pub proof fn decimals_spell_their_number(value: nat)
    ensures
        spelled(decimal(value)) == value,
        decimal(value).len() > 0,
        decimal(value)[0] == '0' ==> value == 0,
        forall|i: int|
            0 <= i < decimal(value).len() ==> '0' <= #[trigger] decimal(value)[i]
                && decimal(value)[i] <= '9',
    decreases value,
{
    let digits = decimal(value);
    if value < 10 {
        assert(digits.drop_last() =~= Seq::empty());
        assert(digits.last() == digit(value));
        assert(spelled(digits.drop_last()) == 0);
    } else {
        decimals_spell_their_number(value / 10);
        assert(digits.drop_last() =~= decimal(value / 10));
        assert(digits.last() == digit(value % 10));
        assert(digits[0] == decimal(value / 10)[0]);
    }
}

} // verus!
