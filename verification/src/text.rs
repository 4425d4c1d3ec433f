//! Numbers in decimal notation, and texts with numbers in them.
use vstd::prelude::*;

verus! {

/// The character of a decimal digit.
pub open spec fn digit(value: nat) -> char {
    if value == 0 {
        '0'
    } else if value == 1 {
        '1'
    } else if value == 2 {
        '2'
    } else if value == 3 {
        '3'
    } else if value == 4 {
        '4'
    } else if value == 5 {
        '5'
    } else if value == 6 {
        '6'
    } else if value == 7 {
        '7'
    } else if value == 8 {
        '8'
    } else {
        '9'
    }
}

/// The decimal notation of a number.
pub open spec fn decimal(value: nat) -> Seq<char>
    decreases value,
{
    if value < 10 {
        seq![digit(value)]
    } else {
        decimal(value / 10).push(digit(value % 10))
    }
}

/// Appends a decimal digit.
fn append_digit(text: &mut String, value: u64)
    requires
        value < 10,
    ensures
        final(text)@ == old(text)@.push(digit(value as nat)),
{
    let ghost before = text@;
    proof {
        reveal_strlit("0");
        reveal_strlit("1");
        reveal_strlit("2");
        reveal_strlit("3");
        reveal_strlit("4");
        reveal_strlit("5");
        reveal_strlit("6");
        reveal_strlit("7");
        reveal_strlit("8");
        reveal_strlit("9");
    }
    if value == 0 {
        text.append("0");
    } else if value == 1 {
        text.append("1");
    } else if value == 2 {
        text.append("2");
    } else if value == 3 {
        text.append("3");
    } else if value == 4 {
        text.append("4");
    } else if value == 5 {
        text.append("5");
    } else if value == 6 {
        text.append("6");
    } else if value == 7 {
        text.append("7");
    } else if value == 8 {
        text.append("8");
    } else {
        text.append("9");
    }
    assert(text@ =~= before.push(digit(value as nat)));
}

/// Appends the decimal notation of a number.
pub fn append_decimal(text: &mut String, value: u64)
    ensures
        final(text)@ == old(text)@ + decimal(value as nat),
    decreases value,
{
    let ghost before = text@;
    if value >= 10 {
        append_decimal(text, value / 10);
    }
    append_digit(text, value % 10);
    assert(text@ =~= before + decimal(value as nat));
}

/// The decimal notation of a number that may be negative.
pub open spec fn signed_decimal(value: int) -> Seq<char> {
    if value < 0 {
        "-"@ + decimal((-value) as nat)
    } else {
        decimal(value as nat)
    }
}

/// Appends the decimal notation of a number that may be negative.
pub fn append_signed_decimal(text: &mut String, value: i32)
    ensures
        final(text)@ == old(text)@ + signed_decimal(value as int),
{
    let ghost before = text@;
    if value < 0 {
        text.append("-");
        append_decimal(text, (-(value as i64)) as u64);
    } else {
        append_decimal(text, value as u64);
    }
    assert(text@ =~= before + signed_decimal(value as int));
}

/// A number with text before and, if there is any, after it.
pub fn one_number(before: &str, number: u64, after: Option<&str>) -> (message: String)
    ensures
        message@ == match after {
            Some(after) => before@ + decimal(number as nat) + after@,
            None => before@ + decimal(number as nat),
        },
{
    let mut message = before.to_owned();
    append_decimal(&mut message, number);
    if let Some(after) = after {
        message.append(after);
    }
    message
}

/// Two numbers with text before, between and, if there is any, after them.
pub fn two_numbers(
    before: &str,
    first: u64,
    between: &str,
    second: u64,
    after: Option<&str>,
) -> (message: String)
    ensures
        message@ == match after {
            Some(after) => before@ + decimal(first as nat) + between@ + decimal(second as nat)
                + after@,
            None => before@ + decimal(first as nat) + between@ + decimal(second as nat),
        },
{
    let mut message = one_number(before, first, Some(between));
    append_decimal(&mut message, second);
    if let Some(after) = after {
        message.append(after);
    }
    message
}

/// Two numbers with text between and after them.
pub fn leading_number(first: u64, between: &str, second: u64, after: &str) -> (message: String)
    ensures
        message@ == decimal(first as nat) + between@ + decimal(second as nat) + after@,
{
    let mut message = String::new();
    append_decimal(&mut message, first);
    assert(message@ =~= decimal(first as nat));
    message.append(between);
    append_decimal(&mut message, second);
    message.append(after);
    message
}

/// Reading a decimal notation digit by digit gives the number back, and it starts with a zero
/// only where the number is zero.
pub proof fn lemma_decimal_reads_back(value: nat)
    ensures
        decimal(value).fold_left(0int, |number: int, figure: char| 10 * number + (figure as int - 48))
            == value,
        value > 0 ==> decimal(value)[0] != '0',
        decimal(value).len() > 0,
    decreases value,
{
    let read = |number: int, figure: char| 10 * number + (figure as int - 48);
    let text = decimal(value);
    if value < 10 {
        assert(text.drop_last() =~= Seq::<char>::empty());
        assert(text.drop_last().fold_left(0int, read) == 0);
    } else {
        lemma_decimal_reads_back(value / 10);
        assert(text.drop_last() =~= decimal(value / 10));
    }
}

} // verus!
