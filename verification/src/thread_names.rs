//! The names of a device's worker pool and executor threads.

use vstd::prelude::*;
use vstd::string::StringExecFns;

verus! {

/// The character of a decimal digit.
pub open spec fn digit(d: nat) -> char {
    if d == 0 {
        '0'
    } else if d == 1 {
        '1'
    } else if d == 2 {
        '2'
    } else if d == 3 {
        '3'
    } else if d == 4 {
        '4'
    } else if d == 5 {
        '5'
    } else if d == 6 {
        '6'
    } else if d == 7 {
        '7'
    } else if d == 8 {
        '8'
    } else {
        '9'
    }
}

/// A number in decimal digits, without leading zeros.
pub open spec fn decimal(n: nat) -> Seq<char>
    decreases n,
{
    if n < 10 {
        seq![digit(n)]
    } else {
        decimal(n / 10).push(digit(n % 10))
    }
}

/// The prefix of the names of the workers that run the generators of
/// device `device_id`.
pub open spec fn spec_generator_pool_prefix(device_id: nat) -> Seq<char> {
    "generator-"@ + decimal(device_id) + "-"@
}

/// The name of the thread of executor `local_id` of device `device_id`.
pub open spec fn spec_executor_thread_name(device_id: nat, local_id: nat) -> Seq<char> {
    "gpu-expand-"@ + decimal(device_id) + "-"@ + decimal(local_id)
}

fn digit_str(d: usize) -> (s: &'static str)
    requires
        d < 10,
    ensures
        s@ == seq![digit(d as nat)],
{
    proof {
        reveal_strlit("0");
        reveal_strlit("1");
        reveal_strlit("2");
        reveal_strlit("3");
        reveal_strlit("4");
        reveal_strlit("5");
        reveal_strlit("6");
        reveal_strlit("7");
        reveal_strlit("8");
        reveal_strlit("9");
    }
    let s = if d == 0 {
        "0"
    } else if d == 1 {
        "1"
    } else if d == 2 {
        "2"
    } else if d == 3 {
        "3"
    } else if d == 4 {
        "4"
    } else if d == 5 {
        "5"
    } else if d == 6 {
        "6"
    } else if d == 7 {
        "7"
    } else if d == 8 {
        "8"
    } else {
        "9"
    };
    assert(s@ =~= seq![digit(d as nat)]);
    s
}

fn push_decimal(out: &mut String, n: usize)
    ensures
        final(out)@ == old(out)@ + decimal(n as nat),
    decreases n,
{
    if n >= 10 {
        push_decimal(out, n / 10);
    }
    out.append(digit_str(n % 10));
    proof {
        if n >= 10 {
            assert(old(out)@ + decimal((n / 10) as nat) + seq![digit((n % 10) as nat)] =~= old(
                out,
            )@ + decimal(n as nat));
        }
    }
}

/// The prefix of the names of the workers that run the generators of
/// device `device_id`.
pub fn generator_pool_prefix(device_id: usize) -> (name: String)
    ensures
        name@ == spec_generator_pool_prefix(device_id as nat),
{
    let mut name = String::from_str("generator-");
    push_decimal(&mut name, device_id);
    name.append("-");
    name
}

/// The name of the thread of executor `local_id` of device `device_id`.
pub fn executor_thread_name(device_id: usize, local_id: usize) -> (name: String)
    ensures
        name@ == spec_executor_thread_name(device_id as nat, local_id as nat),
{
    let mut name = String::from_str("gpu-expand-");
    push_decimal(&mut name, device_id);
    name.append("-");
    push_decimal(&mut name, local_id);
    name
}

} // verus!
