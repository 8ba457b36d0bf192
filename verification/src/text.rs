//! Text of the library's messages: concatenation and decimal numbers.
use vstd::prelude::*;
use vstd::string::StringExecFns;

verus! {

/// The character of a decimal digit.
pub open spec fn digit_char(d: nat) -> char {
    (48 + d) as char
}

/// Decimal representation of `n` without leading zeros (`"0"` for zero).
pub open spec fn decimal_chars(n: nat) -> Seq<char>
    decreases n,
{
    if n < 10 {
        seq![digit_char(n)]
    } else {
        decimal_chars(n / 10).push(digit_char(n % 10))
    }
}

/// The two texts one after the other.
pub(crate) fn concat_str(a: &str, b: &str) -> (s: String)
    ensures
        s@ == a@ + b@,
{
    let mut s = String::from_str(a);
    s.append(b);
    s
}

/// `a`, the decimal text of `x`, then `b`.
pub(crate) fn num_msg(a: &str, x: u64, b: &str) -> (s: String)
    ensures
        s@ == a@ + decimal_chars(x as nat) + b@,
{
    let mut s = String::from_str(a);
    s.append(decimal(x).as_str());
    s.append(b);
    s
}

/// Append the decimal text of `x`, then `b`.
pub(crate) fn push_num(s: &mut String, x: u64, b: &str)
    ensures
        final(s)@ == old(s)@ + decimal_chars(x as nat) + b@,
{
    s.append(decimal(x).as_str());
    s.append(b);
}

/// The one-character text of a decimal digit.
fn digit_str(d: u64) -> (s: &'static str)
    requires
        d < 10,
    ensures
        s@ == seq![digit_char(d as nat)],
{
    match d {
        0 => {
            proof {
                reveal_strlit("0");
            }
            "0"
        },
        1 => {
            proof {
                reveal_strlit("1");
            }
            "1"
        },
        2 => {
            proof {
                reveal_strlit("2");
            }
            "2"
        },
        3 => {
            proof {
                reveal_strlit("3");
            }
            "3"
        },
        4 => {
            proof {
                reveal_strlit("4");
            }
            "4"
        },
        5 => {
            proof {
                reveal_strlit("5");
            }
            "5"
        },
        6 => {
            proof {
                reveal_strlit("6");
            }
            "6"
        },
        7 => {
            proof {
                reveal_strlit("7");
            }
            "7"
        },
        8 => {
            proof {
                reveal_strlit("8");
            }
            "8"
        },
        _ => {
            proof {
                reveal_strlit("9");
            }
            "9"
        },
    }
}

/// Decimal text of `n`: the digits of `n / 10`, then the last digit.
pub(crate) fn decimal(n: u64) -> (s: String)
    ensures
        s@ == decimal_chars(n as nat),
    decreases n,
{
    if n < 10 {
        String::from_str(digit_str(n))
    } else {
        let mut s = decimal(n / 10);
        s.append(digit_str(n % 10));
        proof {
            assert(decimal_chars(n as nat) == decimal_chars((n / 10) as nat).push(
                digit_char((n % 10) as nat),
            ));
        }
        s
    }
}

} // verus!
