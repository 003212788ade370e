//! Putting texts together.

use vstd::prelude::*;
use vstd::string::*;

verus! {

/// One text after the other.
pub fn joined(first: &str, second: &str) -> (r: String)
    ensures
        r@ == first@ + second@,
{
    let mut text = first.to_owned();
    text.append(second);
    text
}

/// A number in decimal digits.
pub open spec fn number_text(n: int) -> Seq<char>
    decreases n,
{
    if n < 10 {
        seq![digit_char(n)]
    } else {
        number_text(n / 10).push(digit_char(n % 10))
    }
}

pub open spec fn digit_char(digit: int) -> char {
    (48 + digit) as char
}

fn digit(n: usize) -> (r: &'static str)
    requires
        n < 10,
    ensures
        r@ == seq![digit_char(n as int)],
{
    proof {
        reveal_strlit("0");
        reveal_strlit("1");
        reveal_strlit("2");
        reveal_strlit("3");
        reveal_strlit("4");
        reveal_strlit("5");
        reveal_strlit("6");
        reveal_strlit("7");
        reveal_strlit("8");
        reveal_strlit("9");
    }
    let r = match n {
        0 => "0",
        1 => "1",
        2 => "2",
        3 => "3",
        4 => "4",
        5 => "5",
        6 => "6",
        7 => "7",
        8 => "8",
        _ => "9",
    };
    assert(r@ =~= seq![digit_char(n as int)]);
    r
}

/// Appends a number in decimal digits.
pub fn append_number(text: &mut String, n: usize)
    ensures
        final(text)@ == old(text)@ + number_text(n as int),
    decreases n,
{
    if n >= 10 {
        append_number(text, n / 10);
    }
    text.append(digit(n % 10));
    assert(text@ =~= old(text)@ + number_text(n as int));
}

} // verus!
