use vstd::prelude::*;

verus! {

/// The character of a decimal digit.
pub open spec fn digit_char(digit: int) -> char {
    if digit == 0 {
        '0'
    } else if digit == 1 {
        '1'
    } else if digit == 2 {
        '2'
    } else if digit == 3 {
        '3'
    } else if digit == 4 {
        '4'
    } else if digit == 5 {
        '5'
    } else if digit == 6 {
        '6'
    } else if digit == 7 {
        '7'
    } else if digit == 8 {
        '8'
    } else {
        '9'
    }
}

/// The decimal writing of a natural number, without leading zeros.
pub open spec fn decimal(n: nat) -> Seq<char>
    decreases n,
{
    if n < 10 {
        seq![digit_char(n as int)]
    } else {
        decimal(n / 10).push(digit_char((n % 10) as int))
    }
}

/// The value of a decimal digit's character.
pub open spec fn digit_value(c: char) -> int {
    if c == '1' {
        1
    } else if c == '2' {
        2
    } else if c == '3' {
        3
    } else if c == '4' {
        4
    } else if c == '5' {
        5
    } else if c == '6' {
        6
    } else if c == '7' {
        7
    } else if c == '8' {
        8
    } else if c == '9' {
        9
    } else {
        0
    }
}

/// A character that is a decimal digit.
pub open spec fn is_digit(c: char) -> bool {
    '0' <= c <= '9'
}

/// The number that a sequence of decimal digits writes, most significant first.
pub open spec fn decimal_value(digits: Seq<char>) -> int
    decreases digits.len(),
{
    if digits.len() == 0 {
        0
    } else {
        decimal_value(digits.drop_last()) * 10 + digit_value(digits.last())
    }
}

/// The decimal writing of a natural number is made of digits only, starts with no `0` unless
/// the number is zero, and reads back as the number.
pub proof fn lemma_decimal_reads_back(n: nat)
    ensures
        decimal(n).len() >= 1,
        forall|i: int| 0 <= i < decimal(n).len() ==> is_digit(#[trigger] decimal(n)[i]),
        n > 0 ==> decimal(n)[0] != '0',
        decimal_value(decimal(n)) == n,
    decreases n,
{
    if n >= 10 {
        let q = n / 10;
        let r = n % 10;
        lemma_decimal_reads_back(q);
        let text = decimal(n);
        assert(text.drop_last() =~= decimal(q));
        assert(text[0] == decimal(q)[0]);
        assert forall|i: int| 0 <= i < text.len() implies is_digit(#[trigger] text[i]) by {
            if i < text.len() - 1 {
                assert(text[i] == decimal(q)[i]);
            }
        }
        assert(text.last() == digit_char(r as int));
        assert(digit_value(digit_char(r as int)) == r);
        assert(q * 10 + r == n);
        assert(decimal_value(text) == decimal_value(decimal(q)) * 10 + r);
    } else {
        assert(decimal(n).drop_last() =~= Seq::<char>::empty());
        assert(decimal(n).last() == digit_char(n as int));
        assert(digit_value(digit_char(n as int)) == n);
        assert(decimal_value(Seq::<char>::empty()) == 0);
        assert(decimal_value(decimal(n)) == decimal_value(Seq::<char>::empty()) * 10 + digit_value(digit_char(n as int)));
    }
}

/// The decimal writing of an integer, with a `-` in front when it is negative.
pub open spec fn signed_decimal(value: int) -> Seq<char> {
    if value < 0 {
        seq!['-'] + decimal((-value) as nat)
    } else {
        decimal(value as nat)
    }
}

/// The decimal writing of an integer on at least two characters, padded with a leading `0`.
pub open spec fn padded_decimal(value: int) -> Seq<char> {
    if 0 <= value < 10 {
        seq!['0', digit_char(value)]
    } else {
        signed_decimal(value)
    }
}

/// The quotient of `a` by `b`, rounded toward zero.
pub open spec fn truncated_div(a: int, b: int) -> int {
    if a >= 0 {
        a / b
    } else {
        -((-a) / b)
    }
}

/// The remainder of `a` by `b`, with the sign of `a`.
pub open spec fn truncated_rem(a: int, b: int) -> int {
    if a >= 0 {
        a % b
    } else {
        -((-a) % b)
    }
}

/// A number of seconds written as `1h02m03s`, `2m03s` or `3s`.
pub open spec fn duration_text(seconds: int) -> Seq<char> {
    let hours = truncated_div(seconds, 3600);
    let minutes_in_secs = truncated_rem(seconds, 3600);
    let minutes = truncated_div(minutes_in_secs, 60);
    let secs = truncated_rem(minutes_in_secs, 60);
    if hours != 0 {
        signed_decimal(hours) + seq!['h'] + padded_decimal(minutes) + seq!['m'] + padded_decimal(secs)
            + seq!['s']
    } else if minutes != 0 {
        signed_decimal(minutes) + seq!['m'] + padded_decimal(secs) + seq!['s']
    } else {
        signed_decimal(secs) + seq!['s']
    }
}

/// The text of a single decimal digit.
fn digit_str(digit: u64) -> (result: &'static str)
    requires
        digit < 10,
    ensures
        result@ == seq![digit_char(digit as int)],
{
    if digit == 0 {
        proof { reveal_strlit("0"); }
        "0"
    } else if digit == 1 {
        proof { reveal_strlit("1"); }
        "1"
    } else if digit == 2 {
        proof { reveal_strlit("2"); }
        "2"
    } else if digit == 3 {
        proof { reveal_strlit("3"); }
        "3"
    } else if digit == 4 {
        proof { reveal_strlit("4"); }
        "4"
    } else if digit == 5 {
        proof { reveal_strlit("5"); }
        "5"
    } else if digit == 6 {
        proof { reveal_strlit("6"); }
        "6"
    } else if digit == 7 {
        proof { reveal_strlit("7"); }
        "7"
    } else if digit == 8 {
        proof { reveal_strlit("8"); }
        "8"
    } else {
        proof { reveal_strlit("9"); }
        "9"
    }
}

/// Appends the decimal writing of `n`.
pub fn write_decimal(writer: &mut String, n: u64)
    ensures
        final(writer)@ == old(writer)@ + decimal(n as nat),
    decreases n,
{
    if n < 10 {
        writer.append(digit_str(n));
    } else {
        write_decimal(writer, n / 10);
        writer.append(digit_str(n % 10));
        proof {
            assert(decimal(n as nat) == decimal((n / 10) as nat).push(digit_char((n % 10) as int)));
            assert(final(writer)@ =~= old(writer)@ + decimal(n as nat));
        }
    }
}

/// The magnitude of a signed number.
fn magnitude(value: i64) -> (result: u64)
    ensures
        result == if value < 0 { -value } else { value as int },
{
    if value < 0 {
        let above: i64 = value + 1;
        let positive: i64 = -above;
        (positive as u64) + 1
    } else {
        value as u64
    }
}

/// Appends the decimal writing of `value`, with a `-` in front when it is negative.
pub fn write_signed_decimal(writer: &mut String, value: i64)
    ensures
        final(writer)@ == old(writer)@ + signed_decimal(value as int),
{
    if value < 0 {
        writer.append("-");
        proof { reveal_strlit("-"); }
        write_decimal(writer, magnitude(value));
        proof {
            assert(final(writer)@ =~= old(writer)@ + signed_decimal(value as int));
        }
    } else {
        write_decimal(writer, magnitude(value));
    }
}

/// Appends the decimal writing of `value` on at least two characters.
pub fn write_padded_decimal(writer: &mut String, value: i64)
    ensures
        final(writer)@ == old(writer)@ + padded_decimal(value as int),
{
    if 0 <= value && value < 10 {
        writer.append("0");
        proof { reveal_strlit("0"); }
        writer.append(digit_str(value as u64));
        proof {
            assert(final(writer)@ =~= old(writer)@ + padded_decimal(value as int));
        }
    } else {
        write_signed_decimal(writer, value);
    }
}

/// Appends the text of a duration given in seconds, as `1h02m03s`, `2m03s` or `3s`.
pub fn write_duration_text(writer: &mut String, seconds: i64)
    ensures
        final(writer)@ == old(writer)@ + duration_text(seconds as int),
{
    let hours: i64 = seconds / (60 * 60);
    let minutes_in_secs: i64 = seconds % (60 * 60);
    let minutes: i64 = minutes_in_secs / 60;
    let secs: i64 = minutes_in_secs % 60;
    proof {
        assert(hours == truncated_div(seconds as int, 3600));
        assert(minutes_in_secs == truncated_rem(seconds as int, 3600));
        assert(minutes == truncated_div(minutes_in_secs as int, 60));
        assert(secs == truncated_rem(minutes_in_secs as int, 60));
        reveal_strlit("h");
        reveal_strlit("m");
        reveal_strlit("s");
    }
    if hours != 0 {
        write_signed_decimal(writer, hours);
        writer.append("h");
        write_padded_decimal(writer, minutes);
        writer.append("m");
        write_padded_decimal(writer, secs);
        writer.append("s");
    } else if minutes != 0 {
        write_signed_decimal(writer, minutes);
        writer.append("m");
        write_padded_decimal(writer, secs);
        writer.append("s");
    } else {
        write_signed_decimal(writer, secs);
        writer.append("s");
    }
    assert(final(writer)@ =~= old(writer)@ + duration_text(seconds as int));
}

} // verus!
