//! Numbers as text.
use vstd::prelude::*;
use vstd::string::StringExecFns;

verus! {

/// The digit for a value below sixteen.
pub open spec fn digit_char(value: nat) -> char {
    if value == 0 {
        '0'
    } else if value == 1 {
        '1'
    } else if value == 2 {
        '2'
    } else if value == 3 {
        '3'
    } else if value == 4 {
        '4'
    } else if value == 5 {
        '5'
    } else if value == 6 {
        '6'
    } else if value == 7 {
        '7'
    } else if value == 8 {
        '8'
    } else if value == 9 {
        '9'
    } else if value == 10 {
        'a'
    } else if value == 11 {
        'b'
    } else if value == 12 {
        'c'
    } else if value == 13 {
        'd'
    } else if value == 14 {
        'e'
    } else {
        'f'
    }
}

/// The last `count` hexadecimal digits of `value`, most significant first.
pub open spec fn hex_digits(value: nat, count: nat) -> Seq<char>
    decreases count,
{
    if count == 0 {
        Seq::empty()
    } else {
        hex_digits(value / 16, (count - 1) as nat).push(digit_char(value % 16))
    }
}

/// The decimal digits of `value`, most significant first.
pub open spec fn decimal_digits(value: nat) -> Seq<char>
    decreases value,
{
    if value < 10 {
        seq![digit_char(value)]
    } else {
        decimal_digits(value / 10).push(digit_char(value % 10))
    }
}

fn digit(value: u8) -> (text: &'static str)
    requires
        value < 16,
    ensures
        text@ == seq![digit_char(value as nat)],
{
    proof {
        reveal_strlit("0");
        reveal_strlit("1");
        reveal_strlit("2");
        reveal_strlit("3");
        reveal_strlit("4");
        reveal_strlit("5");
        reveal_strlit("6");
        reveal_strlit("7");
        reveal_strlit("8");
        reveal_strlit("9");
        reveal_strlit("a");
        reveal_strlit("b");
        reveal_strlit("c");
        reveal_strlit("d");
        reveal_strlit("e");
        reveal_strlit("f");
    }
    let text = match value {
        0 => "0",
        1 => "1",
        2 => "2",
        3 => "3",
        4 => "4",
        5 => "5",
        6 => "6",
        7 => "7",
        8 => "8",
        9 => "9",
        10 => "a",
        11 => "b",
        12 => "c",
        13 => "d",
        14 => "e",
        _ => "f",
    };
    assert(text@ =~= seq![digit_char(value as nat)]);
    text
}

/// Appends the last `count` hexadecimal digits of `value`.
pub fn push_hex(text: &mut String, value: u128, count: usize)
    ensures
        final(text)@ == old(text)@ + hex_digits(value as nat, count as nat),
    decreases count,
{
    if count > 0 {
        push_hex(text, value / 16, count - 1);
        text.append(digit((value % 16) as u8));
    }
    assert(text@ =~= old(text)@ + hex_digits(value as nat, count as nat));
}

/// Appends `value` in decimal.
pub fn push_decimal(text: &mut String, value: u64)
    ensures
        final(text)@ == old(text)@ + decimal_digits(value as nat),
    decreases value,
{
    if value < 10 {
        text.append(digit(value as u8));
    } else {
        push_decimal(text, value / 10);
        text.append(digit((value % 10) as u8));
    }
    assert(text@ =~= old(text)@ + decimal_digits(value as nat));
}

} // verus!
