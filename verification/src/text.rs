//! Text, and numbers as text.

use vstd::prelude::*;

verus! {

/// `String::from` copies the text it is given.
pub assume_specification<'a>[ <String as From<&'a str>>::from ](chars: &str) -> (string: String)
    ensures
        string@ == chars@,
;

/// `given` may be turned into a `String` that reads `chars`.
pub open spec fn turns_into<S: Into<String>>(given: S, chars: Seq<char>) -> bool {
    exists|string: String| #[trigger] call_ensures(S::into, (given,), string) && string@ == chars
}

/// The character that a digit is written with.
pub open spec fn digit(n: nat) -> char {
    (48 + n) as char
}

/// `n` in decimal, without leading zeros.
pub open spec fn decimal(n: nat) -> Seq<char>
    decreases n,
{
    if n < 10 {
        seq![digit(n)]
    } else {
        decimal(n / 10).push(digit(n % 10))
    }
}

/// A digit as text.
fn digit_text(n: u64) -> (text: &'static str)
    requires
        n < 10,
    ensures
        text@ == seq![digit(n as nat)],
{
    proof {
        reveal_strlit("0");
        reveal_strlit("1");
        reveal_strlit("2");
        reveal_strlit("3");
        reveal_strlit("4");
        reveal_strlit("5");
        reveal_strlit("6");
        reveal_strlit("7");
        reveal_strlit("8");
        reveal_strlit("9");
    }
    match n {
        0 => "0",
        1 => "1",
        2 => "2",
        3 => "3",
        4 => "4",
        5 => "5",
        6 => "6",
        7 => "7",
        8 => "8",
        _ => "9",
    }
}

/// `n` as decimal text.
pub fn decimal_text(n: u64) -> (text: String)
    ensures
        text@ == decimal(n as nat),
    decreases n,
{
    if n < 10 {
        return String::from(digit_text(n));
    }
    let mut text: String = decimal_text(n / 10);
    text.append(digit_text(n % 10));
    assert(text@ =~= decimal((n / 10) as nat).push(digit((n % 10) as nat)));
    text
}

} // verus!
