//! Short labels for step counts in progress output: whole billions,
//! millions or thousands get a unit suffix, other counts are written out.
use vstd::prelude::*;
use vstd::string::StringExecFns;

verus! {

/// The decimal digit for `d` in `0..10`.
pub open spec fn digit_char(d: nat) -> char {
    if d == 0 {
        '0'
    } else if d == 1 {
        '1'
    } else if d == 2 {
        '2'
    } else if d == 3 {
        '3'
    } else if d == 4 {
        '4'
    } else if d == 5 {
        '5'
    } else if d == 6 {
        '6'
    } else if d == 7 {
        '7'
    } else if d == 8 {
        '8'
    } else {
        '9'
    }
}

/// The decimal writing of `n`, without leading zeros.
pub open spec fn decimal(n: nat) -> Seq<char>
    decreases n,
{
    if n < 10 {
        seq![digit_char(n)]
    } else {
        decimal(n / 10) + seq![digit_char(n % 10)]
    }
}

/// The label of a step count: `n / 10^9` with "B" when `n` is a positive
/// multiple of a billion, else `n / 10^6` with "M" for a positive multiple of
/// a million, else `n / 1000` with "K" for a positive multiple of a thousand,
/// else `n` itself.
pub open spec fn step_label(n: nat) -> Seq<char> {
    if n % 1_000_000_000 == 0 && n >= 1_000_000_000 {
        decimal(n / 1_000_000_000) + "B"@
    } else if n % 1_000_000 == 0 && n >= 1_000_000 {
        decimal(n / 1_000_000) + "M"@
    } else if n % 1_000 == 0 && n >= 1_000 {
        decimal(n / 1_000) + "K"@
    } else {
        decimal(n)
    }
}

fn digit_text(d: usize) -> (r: &'static str)
    requires
        d < 10,
    ensures
        r@ == seq![digit_char(d as nat)],
{
    proof {
        reveal_strlit("0");
        reveal_strlit("1");
        reveal_strlit("2");
        reveal_strlit("3");
        reveal_strlit("4");
        reveal_strlit("5");
        reveal_strlit("6");
        reveal_strlit("7");
        reveal_strlit("8");
        reveal_strlit("9");
    }
    if d == 0 {
        "0"
    } else if d == 1 {
        "1"
    } else if d == 2 {
        "2"
    } else if d == 3 {
        "3"
    } else if d == 4 {
        "4"
    } else if d == 5 {
        "5"
    } else if d == 6 {
        "6"
    } else if d == 7 {
        "7"
    } else if d == 8 {
        "8"
    } else {
        "9"
    }
}

/// `n` written in decimal.
pub fn decimal_text(n: usize) -> (r: String)
    ensures
        r@ == decimal(n as nat),
    decreases n,
{
    if n < 10 {
        String::from_str(digit_text(n))
    } else {
        let mut s = decimal_text(n / 10);
        s.append(digit_text(n % 10));
        s
    }
}

/// The label of a step count (see [`step_label`]), such as "2M" for
/// 2000000 or "1500" for 1500.
pub fn fmt_step(n: usize) -> (r: String)
    ensures
        r@ == step_label(n as nat),
{
    proof {
        reveal_strlit("B");
        reveal_strlit("M");
        reveal_strlit("K");
    }
    if n % 1_000_000_000 == 0 && n >= 1_000_000_000 {
        let mut s = decimal_text(n / 1_000_000_000);
        s.append("B");
        s
    } else if n % 1_000_000 == 0 && n >= 1_000_000 {
        let mut s = decimal_text(n / 1_000_000);
        s.append("M");
        s
    } else if n % 1_000 == 0 && n >= 1_000 {
        let mut s = decimal_text(n / 1_000);
        s.append("K");
        s
    } else {
        decimal_text(n)
    }
}

} // verus!
