//! Text for quantities and units as the report prints them.
use vstd::prelude::*;
use vstd::string::*;

use crate::unit::{Measure, Unit, QUANTITY_SCALE};

verus! {

/// The character of a decimal digit.
pub open spec fn digit(d: nat) -> char {
    if d == 0 {
        '0'
    } else if d == 1 {
        '1'
    } else if d == 2 {
        '2'
    } else if d == 3 {
        '3'
    } else if d == 4 {
        '4'
    } else if d == 5 {
        '5'
    } else if d == 6 {
        '6'
    } else if d == 7 {
        '7'
    } else if d == 8 {
        '8'
    } else {
        '9'
    }
}

/// The decimal digits of `n`, most significant first, without leading zeros.
pub open spec fn digits(n: nat) -> Seq<char>
    decreases n,
{
    if n < 10 {
        seq![digit(n)]
    } else {
        digits(n / 10).push(digit(n % 10))
    }
}

/// `n` in decimal, with a leading `-` when negative.
pub open spec fn decimal(n: int) -> Seq<char> {
    if n < 0 {
        seq!['-'] + digits((-n) as nat)
    } else {
        digits(n as nat)
    }
}

/// A stored quantity rounded up to whole units.
pub open spec fn ceil_units(q: int) -> int {
    -((-q) / (QUANTITY_SCALE as int))
}

/// The printed name of a unit.
pub open spec fn unit_name(u: Unit) -> Seq<char> {
    match u {
        Unit::Pinch => "Pinch"@,
        Unit::Teaspoons => "Teaspoons"@,
        Unit::Tablespoons => "Tablespoons"@,
        Unit::Ounces => "Ounces"@,
        Unit::Cups => "Cups"@,
        Unit::Whole => "Whole"@,
    }
}

/// How a measure is printed: whole units rounded up, a space, the unit's name.
pub open spec fn amount(m: Measure) -> Seq<char> {
    decimal(ceil_units(m.quantity as int)) + seq![' '] + unit_name(m.unit)
}

impl Unit {
    /// The unit's printed name.
    pub fn name(&self) -> (r: &'static str)
        ensures
            r@ == unit_name(*self),
    {
        match self {
            Unit::Pinch => "Pinch",
            Unit::Teaspoons => "Teaspoons",
            Unit::Tablespoons => "Tablespoons",
            Unit::Ounces => "Ounces",
            Unit::Cups => "Cups",
            Unit::Whole => "Whole",
        }
    }
}

fn digit_str(d: u64) -> (r: &'static str)
    requires
        d < 10,
    ensures
        r@ == seq![digit(d as nat)],
{
    proof {
        reveal_strlit("0");
        reveal_strlit("1");
        reveal_strlit("2");
        reveal_strlit("3");
        reveal_strlit("4");
        reveal_strlit("5");
        reveal_strlit("6");
        reveal_strlit("7");
        reveal_strlit("8");
        reveal_strlit("9");
    }
    let r = if d == 0 {
        "0"
    } else if d == 1 {
        "1"
    } else if d == 2 {
        "2"
    } else if d == 3 {
        "3"
    } else if d == 4 {
        "4"
    } else if d == 5 {
        "5"
    } else if d == 6 {
        "6"
    } else if d == 7 {
        "7"
    } else if d == 8 {
        "8"
    } else {
        "9"
    };
    assert(r@ =~= seq![digit(d as nat)]);
    r
}

fn push_digits(s: &mut String, n: u64)
    ensures
        final(s)@ == old(s)@ + digits(n as nat),
    decreases n,
{
    if n >= 10 {
        push_digits(s, n / 10);
    }
    s.append(digit_str(n % 10));
    proof {
        if n >= 10 {
            assert(old(s)@ + digits(n as nat) =~= old(s)@ + digits((n / 10) as nat) + seq![
                digit((n % 10) as nat),
            ]);
        } else {
            assert(old(s)@ + digits(n as nat) =~= old(s)@ + seq![digit((n % 10) as nat)]);
        }
    }
}

/// `n` in decimal.
pub fn decimal_string(n: i64) -> (r: String)
    ensures
        r@ == decimal(n as int),
{
    let mut s = String::new();
    if n < 0 {
        s.append("-");
        proof {
            reveal_strlit("-");
        }
        let m: u64 = if n == i64::MIN {
            9_223_372_036_854_775_808
        } else {
            (-n) as u64
        };
        push_digits(&mut s, m);
        proof {
            assert(s@ =~= decimal(n as int));
        }
    } else {
        push_digits(&mut s, n as u64);
        proof {
            assert(s@ =~= decimal(n as int));
        }
    }
    s
}

/// A stored quantity rounded up to whole units.
pub fn ceil_quantity(q: i64) -> (r: i64)
    ensures
        r == ceil_units(q as int),
{
    let s = QUANTITY_SCALE;
    if q > 0 {
        let r = (q - 1) / s + 1;
        proof {
            let qi = q as int;
            let si = s as int;
            let m = (qi - 1) / si;
            assert(-((-qi) / si) == m + 1) by (nonlinear_arith)
                requires
                    qi > 0,
                    si == 1_000_000,
                    m == (qi - 1) / si,
            ;
        }
        r
    } else {
        let r = -((-(q as i128)) / (s as i128));
        r as i64
    }
}

/// How a measure is printed: whole units rounded up, a space, the unit's name.
pub fn amount_string(m: &Measure) -> (r: String)
    ensures
        r@ == amount(*m),
{
    let mut s = decimal_string(ceil_quantity(m.quantity));
    s.append(" ");
    s.append(m.unit.name());
    proof {
        reveal_strlit(" ");
        assert(s@ =~= amount(*m));
    }
    s
}

} // verus!
