//! Whole numbers and rounded readings as decimal text.

use crate::reading::Reading;
use vstd::prelude::*;
use vstd::string::{StrSliceExecFns, StringExecFns};

verus! {

/// `std::string::String::push`: afterwards the string holds what it held,
/// then `ch`. This is taken from the standard library's documentation and
/// is not proved here.
pub assume_specification[ std::string::String::push ](text: &mut String, ch: char)
    ensures
        final(text)@ == old(text)@.push(ch),
;

/// The ten digits in order.
pub open spec fn digits() -> Seq<char> {
    seq!['0', '1', '2', '3', '4', '5', '6', '7', '8', '9']
}

/// A natural number in decimal, most significant digit first, without
/// leading zeros; zero is "0".
pub open spec fn decimal(n: nat) -> Seq<char>
    decreases n,
{
    if n < 10 {
        seq![digits()[n as int]]
    } else {
        decimal(n / 10).push(digits()[(n % 10) as int])
    }
}

/// The character of one digit.
fn digit(d: u8) -> (ch: char)
    requires
        d < 10,
    ensures
        ch == digits()[d as int],
{
    if d == 0 {
        '0'
    } else if d == 1 {
        '1'
    } else if d == 2 {
        '2'
    } else if d == 3 {
        '3'
    } else if d == 4 {
        '4'
    } else if d == 5 {
        '5'
    } else if d == 6 {
        '6'
    } else if d == 7 {
        '7'
    } else if d == 8 {
        '8'
    } else {
        '9'
    }
}

/// Appends `n` in decimal.
pub fn push_decimal(text: &mut String, n: u128)
    ensures
        final(text)@ == old(text)@ + decimal(n as nat),
    decreases n,
{
    if n >= 10 {
        push_decimal(text, n / 10);
    }
    text.push(digit((n % 10) as u8));
}

/// A reading rounded to a whole number: a minus sign where the sign bit is
/// set, then the digits of the nearest whole number. An infinity reads
/// "inf", and what is not a number reads "NaN" without a sign.
pub open spec fn rounded(reading: Reading) -> Seq<char> {
    if reading.nan() {
        seq!['N', 'a', 'N']
    } else {
        let sign = if reading.negative() {
            seq!['-']
        } else {
            Seq::empty()
        };
        let body = if reading.infinite() {
            seq!['i', 'n', 'f']
        } else {
            decimal(reading.nearest())
        };
        sign + body
    }
}

/// `item` behind as many spaces as it lacks to `width` characters.
pub open spec fn right_justified(item: Seq<char>, width: nat) -> Seq<char> {
    if item.len() >= width {
        item
    } else {
        Seq::new((width - item.len()) as nat, |i: int| ' ') + item
    }
}

/// Appends `reading` rounded to a whole number.
pub fn push_rounded(text: &mut String, reading: Reading)
    ensures
        final(text)@ == old(text)@ + rounded(reading),
{
    if reading.is_nan() {
        text.push('N');
        text.push('a');
        text.push('N');
        assert(text@ == old(text)@ + seq!['N', 'a', 'N']);
        return;
    }
    if reading.is_sign_negative() {
        text.push('-');
    }
    let ghost signed = text@;
    assert(signed == old(text)@ + if reading.negative() {
        seq!['-']
    } else {
        Seq::empty()
    });
    match reading.round() {
        Some(nearest) => {
            push_decimal(text, nearest);
        },
        None => {
            text.push('i');
            text.push('n');
            text.push('f');
            assert(text@ == signed + seq!['i', 'n', 'f']);
        },
    }
}

/// Appends `item`, right-justified to `width` characters.
pub fn push_right_justified(text: &mut String, item: &str, width: usize)
    ensures
        final(text)@ == old(text)@ + right_justified(item@, width as nat),
{
    let len = item.unicode_len();
    let mut filled: usize = len;
    while filled < width
        invariant
            len == item@.len(),
            len <= filled,
            filled <= width || filled == len,
            text@ == old(text)@ + Seq::new((filled - len) as nat, |i: int| ' '),
        decreases width - filled,
    {
        text.push(' ');
        filled = filled + 1;
    }
    text.append(item);
}

/// A number in decimal is one digit at least, and digits only.
pub proof fn lemma_decimal_is_digits(n: nat)
    ensures
        decimal(n).len() >= 1,
        forall|i: int| 0 <= i < decimal(n).len() ==> digits().contains(#[trigger] decimal(n)[i]),
    decreases n,
{
    let last = digits()[(n % 10) as int];
    assert(digits().contains(last));
    if n >= 10 {
        lemma_decimal_is_digits(n / 10);
    }
}

/// A rounded reading holds no line feed.
pub proof fn lemma_rounded_is_one_line(reading: Reading)
    ensures
        !rounded(reading).contains('\n'),
{
    lemma_decimal_is_digits(reading.nearest());
    let text = rounded(reading);
    assert forall|i: int| 0 <= i < text.len() implies text[i] != '\n' by {
        if !reading.nan() && !reading.infinite() {
            let body = decimal(reading.nearest());
            let at = if reading.negative() {
                i - 1
            } else {
                i
            };
            if at >= 0 {
                assert(text[i] == body[at]);
                assert(digits().contains(body[at]));
            }
        }
    }
}

} // verus!
