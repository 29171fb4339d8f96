use vstd::prelude::*;
use vstd::string::StrSliceExecFns;
use vstd::string::StringExecFns;

use crate::object::Value;

verus! {

pub open spec fn dec_digit(d: nat) -> char {
    if d == 0 {
        '0'
    } else if d == 1 {
        '1'
    } else if d == 2 {
        '2'
    } else if d == 3 {
        '3'
    } else if d == 4 {
        '4'
    } else if d == 5 {
        '5'
    } else if d == 6 {
        '6'
    } else if d == 7 {
        '7'
    } else if d == 8 {
        '8'
    } else {
        '9'
    }
}

/// The decimal rendering of a natural number, most significant digit first,
/// without leading zeroes (except for zero itself).
pub open spec fn dec_str(n: nat) -> Seq<char>
    decreases n,
{
    if n < 10 {
        seq![dec_digit(n)]
    } else {
        dec_str(n / 10) + seq![dec_digit(n % 10)]
    }
}

/// The decimal rendering of an integer, with a leading minus sign when it is
/// negative.
pub open spec fn int_str(v: int) -> Seq<char> {
    if v < 0 {
        seq!['-'] + dec_str((-v) as nat)
    } else {
        dec_str(v as nat)
    }
}

fn digit_str(d: u64) -> (r: &'static str)
    requires
        d < 10,
    ensures
        r@ == seq![dec_digit(d as nat)],
{
    match d {
        0 => {
            proof {
                reveal_strlit("0");
            }
            let r = "0";
            assert(r@ =~= seq![dec_digit(0)]);
            r
        }
        1 => {
            proof {
                reveal_strlit("1");
            }
            let r = "1";
            assert(r@ =~= seq![dec_digit(1)]);
            r
        }
        2 => {
            proof {
                reveal_strlit("2");
            }
            let r = "2";
            assert(r@ =~= seq![dec_digit(2)]);
            r
        }
        3 => {
            proof {
                reveal_strlit("3");
            }
            let r = "3";
            assert(r@ =~= seq![dec_digit(3)]);
            r
        }
        4 => {
            proof {
                reveal_strlit("4");
            }
            let r = "4";
            assert(r@ =~= seq![dec_digit(4)]);
            r
        }
        5 => {
            proof {
                reveal_strlit("5");
            }
            let r = "5";
            assert(r@ =~= seq![dec_digit(5)]);
            r
        }
        6 => {
            proof {
                reveal_strlit("6");
            }
            let r = "6";
            assert(r@ =~= seq![dec_digit(6)]);
            r
        }
        7 => {
            proof {
                reveal_strlit("7");
            }
            let r = "7";
            assert(r@ =~= seq![dec_digit(7)]);
            r
        }
        8 => {
            proof {
                reveal_strlit("8");
            }
            let r = "8";
            assert(r@ =~= seq![dec_digit(8)]);
            r
        }
        _ => {
            proof {
                reveal_strlit("9");
            }
            let r = "9";
            assert(r@ =~= seq![dec_digit(9)]);
            r
        }
    }
}

pub fn u64_to_string(n: u64) -> (r: String)
    ensures
        r@ == dec_str(n as nat),
    decreases n,
{
    if n < 10 {
        digit_str(n).to_owned()
    } else {
        let mut s = u64_to_string(n / 10);
        s.append(digit_str(n % 10));
        proof {
            assert(s@ =~= dec_str((n / 10) as nat) + seq![dec_digit((n % 10) as nat)]);
        }
        s
    }
}

pub fn i64_to_string(v: i64) -> (r: String)
    ensures
        r@ == int_str(v as int),
{
    if v >= 0 {
        u64_to_string(v as u64)
    } else {
        let mag: u64 = if v == i64::MIN {
            9223372036854775808u64
        } else {
            (-v) as u64
        };
        proof {
            reveal_strlit("-");
        }
        let mut s: String = "-".to_owned();
        let rest = u64_to_string(mag);
        s.append(rest.as_str());
        proof {
            assert(s@ =~= seq!['-'] + dec_str(mag as nat));
        }
        s
    }
}

/// The human-readable form of a value, as the built-in printing and
/// string-conversion natives produce it.  Rendering the uninitialised
/// sentinel is a fatal error, so its rendering is never observed.
pub open spec fn render_spec(v: Value) -> Seq<char> {
    match v {
        Value::Invalid => Seq::<char>::empty(),
        Value::Null => "null"@,
        Value::Integer(i) => int_str(i as int),
        Value::Boolean(b) => if b {
            "true"@
        } else {
            "false"@
        },
        Value::String(s) => s@,
        Value::Function(_) => "<function object>"@,
        Value::Instance(_) => "<instance object>"@,
    }
}

/// Renders any value but the uninitialised sentinel.
pub fn render_value(v: &Value) -> (r: Option<String>)
    ensures
        match r {
            Some(s) => !(v is Invalid) && s@ == render_spec(*v),
            None => v is Invalid,
        },
{
    match v {
        Value::Invalid => None,
        Value::Null => Some("null".to_owned()),
        Value::Integer(i) => Some(i64_to_string(*i)),
        Value::Boolean(b) => Some(
            (if *b {
                "true"
            } else {
                "false"
            }).to_owned(),
        ),
        Value::String(s) => Some(s.clone()),
        Value::Function(_) => Some("<function object>".to_owned()),
        Value::Instance(_) => Some("<instance object>".to_owned()),
    }
}

} // verus!
