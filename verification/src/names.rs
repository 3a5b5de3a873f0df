//! Names of nodes.

use vstd::prelude::*;
use vstd::string::StringExecFns;

verus! {

/// A digit.
pub open spec fn digit(d: int) -> char {
    (d + 0x30) as char
}

/// The decimal notation of a number.
pub open spec fn decimal(n: int) -> Seq<char>
    decreases n,
{
    if n < 10 {
        seq![digit(n)]
    } else {
        decimal(n / 10).push(digit(n % 10))
    }
}

/// A name, followed by a suffix.
pub fn suffixed(name: &String, suffix: &str) -> (r: String)
    ensures
        r@ == name@ + suffix@,
{
    name.clone().concat(suffix)
}

fn digit_text(d: usize) -> (r: &'static str)
    requires
        d < 10,
    ensures
        r@ == seq![digit(d as int)],
{
    proof {
        reveal_strlit("0");
        reveal_strlit("1");
        reveal_strlit("2");
        reveal_strlit("3");
        reveal_strlit("4");
        reveal_strlit("5");
        reveal_strlit("6");
        reveal_strlit("7");
        reveal_strlit("8");
        reveal_strlit("9");
    }
    let text = match d {
        0 => "0",
        1 => "1",
        2 => "2",
        3 => "3",
        4 => "4",
        5 => "5",
        6 => "6",
        7 => "7",
        8 => "8",
        _ => "9",
    };
    assert(text@ =~= seq![digit(d as int)]);
    text
}

/// A name, followed by a number in decimal notation.
pub fn numbered(name: &String, n: usize) -> (r: String)
    ensures
        r@ == name@ + decimal(n as int),
    decreases n,
{
    let digit_of = digit_text(n % 10);
    if n < 10 {
        suffixed(name, digit_of)
    } else {
        let r = suffixed(&numbered(name, n / 10), digit_of);
        assert(r@ =~= name@ + decimal(n as int));
        r
    }
}

} // verus!
