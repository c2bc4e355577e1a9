//! Units of measure, the lattice that orders them, and quantities expressed in them.
use vstd::prelude::*;

verus! {

/// Number of stored quantity steps in one whole unit: quantities are kept in millionths.
pub const QUANTITY_SCALE: i64 = 1_000_000;

/// A measurement granularity. All variants but `Whole` form a lattice ordered by size,
/// `Pinch < Teaspoons < Tablespoons < Ounces < Cups`; `Whole` counts indivisible items.
#[derive(PartialEq, Eq, Structural, Hash, Copy, Clone, Debug, PartialOrd)]
pub enum Unit {
    Pinch,
    Teaspoons,
    Tablespoons,
    Ounces,
    Cups,
    Whole,
}

/// Truncating division (rounds toward zero), as integer division does at run time.
pub open spec fn trunc_div(a: int, d: int) -> int {
    if a >= 0 {
        a / d
    } else {
        -((-a) / d)
    }
}

/// Whether a value can be stored as an `i64`.
pub open spec fn fits_i64(v: int) -> bool {
    i64::MIN <= v <= i64::MAX
}

impl Unit {
    /// Position in the declared order; `Whole` comes last.
    pub open spec fn rank(self) -> int {
        match self {
            Unit::Pinch => 0,
            Unit::Teaspoons => 1,
            Unit::Tablespoons => 2,
            Unit::Ounces => 3,
            Unit::Cups => 4,
            Unit::Whole => 5,
        }
    }

    /// One ascending step: multiply by `.0`, divide by `.1`, and the quantity is in `.2`.
    pub open spec fn up_step(self) -> (int, int, Unit) {
        match self {
            Unit::Cups => (1, 1, Unit::Cups),
            Unit::Ounces => (1, 8, Unit::Cups),
            Unit::Tablespoons => (1, 2, Unit::Ounces),
            Unit::Teaspoons => (33, 100, Unit::Tablespoons),
            Unit::Pinch => (1, 4, Unit::Teaspoons),
            Unit::Whole => (1, 1, Unit::Whole),
        }
    }

    /// One descending step: multiply by `.0`, and the quantity is in `.1`.
    pub open spec fn down_step(self) -> (int, Unit) {
        match self {
            Unit::Cups => (8, Unit::Ounces),
            Unit::Ounces => (2, Unit::Tablespoons),
            Unit::Tablespoons => (3, Unit::Teaspoons),
            Unit::Teaspoons => (4, Unit::Pinch),
            Unit::Pinch => (1, Unit::Pinch),
            Unit::Whole => (1, Unit::Whole),
        }
    }

    /// The rank of the unit, computed.
    pub fn order(&self) -> (r: u8)
        ensures
            r == self.rank(),
    {
        match self {
            Unit::Pinch => 0,
            Unit::Teaspoons => 1,
            Unit::Tablespoons => 2,
            Unit::Ounces => 3,
            Unit::Cups => 4,
            Unit::Whole => 5,
        }
    }

    /// The ascending step out of this unit, as (multiplier, divisor, next unit).
    pub fn next_biggest(&self) -> (r: (i64, i64, Unit))
        ensures
            (r.0 as int, r.1 as int, r.2) == self.up_step(),
    {
        match self {
            Unit::Cups => (1, 1, Unit::Cups),
            Unit::Ounces => (1, 8, Unit::Cups),
            Unit::Tablespoons => (1, 2, Unit::Ounces),
            Unit::Teaspoons => (33, 100, Unit::Tablespoons),
            Unit::Pinch => (1, 4, Unit::Teaspoons),
            Unit::Whole => (1, 1, Unit::Whole),
        }
    }

    /// The descending step out of this unit, as (multiplier, next unit).
    pub fn next_smallest(&self) -> (r: (i64, Unit))
        ensures
            (r.0 as int, r.1) == self.down_step(),
    {
        match self {
            Unit::Cups => (8, Unit::Ounces),
            Unit::Ounces => (2, Unit::Tablespoons),
            Unit::Tablespoons => (3, Unit::Teaspoons),
            Unit::Teaspoons => (4, Unit::Pinch),
            Unit::Pinch => (1, Unit::Pinch),
            Unit::Whole => (1, Unit::Whole),
        }
    }
}

/// The ratio (multiplier, divisor) of the ascending walk from `from` up to `to`.
pub open spec fn up_factor(from: Unit, to: Unit) -> (int, int)
    decreases 4 - from.rank(),
{
    if from.rank() >= to.rank() || to.rank() > 4 {
        (1, 1)
    } else {
        let (n, d, next) = from.up_step();
        let (m, e) = up_factor(next, to);
        (n * m, d * e)
    }
}

/// The multiplier of the descending walk from `from` down to `to`.
pub open spec fn down_factor(from: Unit, to: Unit) -> int
    decreases from.rank(),
{
    if from.rank() <= to.rank() || from.rank() > 4 {
        1
    } else {
        let (m, next) = from.down_step();
        m * down_factor(next, to)
    }
}

/// Whether a conversion between the two units leaves the quantity as it is:
/// the same unit, or `Whole` on either side.
pub open spec fn is_identity_conversion(from: Unit, to: Unit) -> bool {
    from == to || from == Unit::Whole || to == Unit::Whole
}

/// The quantity `q` (in `from`) expressed in `to`: the ratio of the walk through the
/// lattice is applied at once and the result rounded toward zero.
pub open spec fn converted(q: int, from: Unit, to: Unit) -> int {
    if is_identity_conversion(from, to) {
        q
    } else if from.rank() < to.rank() {
        trunc_div(q * up_factor(from, to).0, up_factor(from, to).1)
    } else {
        q * down_factor(from, to)
    }
}

/// The unit that a conversion toward `to` ends in.
pub open spec fn converted_unit(from: Unit, to: Unit) -> Unit {
    if is_identity_conversion(from, to) {
        from
    } else {
        to
    }
}

proof fn lemma_up_factor_bounds(from: Unit, to: Unit)
    ensures
        1 <= up_factor(from, to).0 <= 33,
        1 <= up_factor(from, to).1 <= 6400,
        up_factor(from, to).0 <= up_factor(from, to).1,
{
    reveal_with_fuel(up_factor, 5);
}

proof fn lemma_down_factor_bounds(from: Unit, to: Unit)
    ensures
        1 <= down_factor(from, to) <= 192,
{
    reveal_with_fuel(down_factor, 5);
}

proof fn lemma_trunc_div_shrinks(q: int, n: int, d: int)
    requires
        1 <= n <= d,
    ensures
        -(if q >= 0 { q } else { -q }) <= trunc_div(q * n, d) <= (if q >= 0 { q } else { -q }),
{
    if q >= 0 {
        assert(0 <= q * n <= q * d) by (nonlinear_arith)
            requires
                q >= 0,
                1 <= n <= d,
        ;
        assert((q * n) / d <= q) by (nonlinear_arith)
            requires
                0 <= q * n <= q * d,
                d >= 1,
        ;
        assert(0 <= (q * n) / d) by (nonlinear_arith)
            requires
                0 <= q * n,
                d >= 1,
        ;
    } else {
        assert(q * n < 0 && -(q * n) <= (-q) * d) by (nonlinear_arith)
            requires
                q < 0,
                1 <= n <= d,
        ;
        assert((-(q * n)) / d <= -q) by (nonlinear_arith)
            requires
                0 <= -(q * n) <= (-q) * d,
                d >= 1,
        ;
        assert(0 <= (-(q * n)) / d) by (nonlinear_arith)
            requires
                0 <= -(q * n),
                d >= 1,
        ;
    }
}

/// A quantity together with its unit. The quantity is in millionths of the unit
/// (see `QUANTITY_SCALE`); zero and negative quantities are allowed.
#[derive(PartialEq, Eq, Structural, Copy, Clone, Debug)]
pub struct Measure {
    pub quantity: i64,
    pub unit: Unit,
}

/// The sum of two measures in the unit of the left one, with the right one converted
/// into it first unless either is `Whole`.
pub open spec fn sum_quantity(a: Measure, b: Measure) -> int {
    a.quantity + converted(b.quantity as int, b.unit, a.unit)
}

impl Measure {
    /// A zero quantity of the given unit.
    pub fn new(unit: Unit) -> (r: Measure)
        ensures
            r.quantity == 0,
            r.unit == unit,
    {
        Measure { quantity: 0, unit }
    }

    /// The conversion, or `None` when the converted quantity does not fit in an `i64`.
    pub fn checked_convert_to(&self, unit: Unit) -> (r: Option<Measure>)
        ensures
            r is Some <==> fits_i64(converted(self.quantity as int, self.unit, unit)),
            r is Some ==> r->0.quantity == converted(self.quantity as int, self.unit, unit)
                && r->0.unit == converted_unit(self.unit, unit),
    {
        if self.unit == unit || self.unit == Unit::Whole || unit == Unit::Whole {
            return Some(*self);
        }
        let mut current = self.unit;
        if self.unit.order() < unit.order() {
            let mut num: i64 = 1;
            let mut den: i64 = 1;
            proof {
                lemma_up_factor_bounds(current, unit);
            }
            while current != unit
                invariant
                    current.rank() <= unit.rank() <= 4,
                    num * up_factor(current, unit).0 == up_factor(self.unit, unit).0,
                    den * up_factor(current, unit).1 == up_factor(self.unit, unit).1,
                    1 <= num <= 33,
                    1 <= den <= 6400,
                decreases unit.rank() - current.rank(),
            {
                let (n, d, next) = current.next_biggest();
                proof {
                    lemma_up_factor_bounds(current, unit);
                    lemma_up_factor_bounds(next, unit);
                    lemma_up_factor_bounds(self.unit, unit);
                    assert(up_factor(current, unit) == (n * up_factor(next, unit).0, d
                        * up_factor(next, unit).1));
                    assert(num * n * up_factor(next, unit).0 == up_factor(self.unit, unit).0)
                        by (nonlinear_arith)
                        requires
                            num * (n * up_factor(next, unit).0) == up_factor(self.unit, unit).0,
                    ;
                    assert(den * d * up_factor(next, unit).1 == up_factor(self.unit, unit).1)
                        by (nonlinear_arith)
                        requires
                            den * (d * up_factor(next, unit).1) == up_factor(self.unit, unit).1,
                    ;
                    assert(1 <= num * n <= 33) by (nonlinear_arith)
                        requires
                            num * n * up_factor(next, unit).0 <= 33,
                            1 <= up_factor(next, unit).0,
                            1 <= num,
                            1 <= n,
                    ;
                    assert(1 <= den * d <= 6400) by (nonlinear_arith)
                        requires
                            den * d * up_factor(next, unit).1 <= 6400,
                            1 <= up_factor(next, unit).1,
                            1 <= den,
                            1 <= d,
                    ;
                }
                num = num * n;
                den = den * d;
                current = next;
            }
            proof {
                assert(up_factor(current, unit) == (1int, 1int));
                assert(num == up_factor(self.unit, unit).0 && den == up_factor(self.unit, unit).1)
                    by (nonlinear_arith)
                    requires
                        num * up_factor(current, unit).0 == up_factor(self.unit, unit).0,
                        den * up_factor(current, unit).1 == up_factor(self.unit, unit).1,
                        up_factor(current, unit) == (1int, 1int),
                ;
                assert(-33 * 0x8000_0000_0000_0000 <= self.quantity * num <= 33
                    * 0x8000_0000_0000_0000) by (nonlinear_arith)
                    requires
                        1 <= num <= 33,
                        i64::MIN <= self.quantity <= i64::MAX,
                ;
            }
            let scaled: i128 = (self.quantity as i128) * (num as i128);
            let q: i128 = scaled / (den as i128);
            proof {
                lemma_up_factor_bounds(self.unit, unit);
                lemma_trunc_div_shrinks(self.quantity as int, num as int, den as int);
            }
            Some(Measure { quantity: q as i64, unit })
        } else {
            let mut mult: i64 = 1;
            proof {
                lemma_down_factor_bounds(current, unit);
            }
            while current != unit
                invariant
                    0 <= unit.rank() <= current.rank() <= 4,
                    mult * down_factor(current, unit) == down_factor(self.unit, unit),
                    1 <= mult <= 192,
                decreases current.rank() - unit.rank(),
            {
                let (m, next) = current.next_smallest();
                proof {
                    lemma_down_factor_bounds(current, unit);
                    lemma_down_factor_bounds(next, unit);
                    assert(down_factor(current, unit) == m * down_factor(next, unit));
                    assert(mult * m * down_factor(next, unit) == down_factor(self.unit, unit))
                        by (nonlinear_arith)
                        requires
                            mult * (m * down_factor(next, unit)) == down_factor(self.unit, unit),
                    ;
                    lemma_down_factor_bounds(self.unit, unit);
                    assert(1 <= mult * m <= 192) by (nonlinear_arith)
                        requires
                            mult * m * down_factor(next, unit) <= 192,
                            1 <= down_factor(next, unit),
                            1 <= mult,
                            1 <= m,
                    ;
                }
                mult = mult * m;
                current = next;
            }
            proof {
                assert(down_factor(current, unit) == 1);
                assert(mult == down_factor(self.unit, unit)) by (nonlinear_arith)
                    requires
                        mult * down_factor(current, unit) == down_factor(self.unit, unit),
                        down_factor(current, unit) == 1,
                ;
                assert(-192 * 0x8000_0000_0000_0000 <= self.quantity * mult <= 192
                    * 0x8000_0000_0000_0000) by (nonlinear_arith)
                    requires
                        1 <= mult <= 192,
                        i64::MIN <= self.quantity <= i64::MAX,
                ;
            }
            let scaled: i128 = (self.quantity as i128) * (mult as i128);
            if scaled < i64::MIN as i128 || scaled > i64::MAX as i128 {
                None
            } else {
                Some(Measure { quantity: scaled as i64, unit })
            }
        }
    }

    /// This measure expressed in `unit`, by walking the lattice toward it. A measure in
    /// `Whole`, or a `Whole` target, leaves the measure unchanged.
    pub fn convert_to(&self, unit: Unit) -> (r: Measure)
        requires
            fits_i64(converted(self.quantity as int, self.unit, unit)),
        ensures
            r.quantity == converted(self.quantity as int, self.unit, unit),
            r.unit == converted_unit(self.unit, unit),
            self.unit == Unit::Whole || unit == Unit::Whole ==> r == *self,
    {
        match self.checked_convert_to(unit) {
            Some(m) => m,
            None => *self,
        }
    }

    /// The sum of two measures, in the unit of `self`: `rhs` is converted into that unit
    /// first, unless the units are the same or either is `Whole`, in which case the
    /// quantities are added as they are.
    pub fn add(&self, rhs: &Measure) -> (r: Measure)
        requires
            fits_i64(converted(rhs.quantity as int, rhs.unit, self.unit)),
            fits_i64(sum_quantity(*self, *rhs)),
        ensures
            r.unit == self.unit,
            r.quantity == sum_quantity(*self, *rhs),
    {
        let converted = rhs.convert_to(self.unit);
        Measure { quantity: self.quantity + converted.quantity, unit: self.unit }
    }

    /// The sum of two measures in the unit of `self`, as `add` gives it, for any two
    /// measures: `None` exactly where the converted right operand or the sum does not fit
    /// in an `i64`. Whatever the units, `Whole` included, a sum keeps the left unit.
    pub fn checked_add(&self, rhs: &Measure) -> (r: Option<Measure>)
        ensures
            r is Some <==> fits_i64(converted(rhs.quantity as int, rhs.unit, self.unit))
                && fits_i64(sum_quantity(*self, *rhs)),
            r is Some ==> r->0.unit == self.unit && r->0.quantity == sum_quantity(*self, *rhs),
    {
        match rhs.checked_convert_to(self.unit) {
            Some(c) => match self.quantity.checked_add(c.quantity) {
                Some(q) => Some(Measure { quantity: q, unit: self.unit }),
                None => None,
            },
            None => None,
        }
    }
}

/// The absolute value.
pub open spec fn abs(x: int) -> int {
    if x >= 0 {
        x
    } else {
        -x
    }
}

/// Whether the walk between the two units passes the teaspoon/tablespoon step, whose
/// ascending ratio 33/100 is not the inverse of its descending multiplier 3.
pub open spec fn crosses_inexact_step(u: Unit, v: Unit) -> bool {
    (u.rank() <= 1 && v.rank() >= 2) || (v.rank() <= 1 && u.rank() >= 2)
}

/// Where the walk between the two units passes the teaspoon/tablespoon step, going up and
/// back down keeps 99 parts in 100; elsewhere it keeps all 100.
pub open spec fn kept_per_hundred(u: Unit, v: Unit) -> int {
    if crosses_inexact_step(u, v) {
        99
    } else {
        100
    }
}

/// The up ratio times the down multiplier between two measurable units is exactly one,
/// or 99/100 where the walk passes the teaspoon/tablespoon step.
proof fn lemma_up_down_product(u: Unit, v: Unit)
    requires
        u.rank() < v.rank() <= 4,
    ensures
        up_factor(u, v).0 * down_factor(v, u) * 100 == up_factor(u, v).1 * kept_per_hundred(u, v),
{
    assert(up_factor(Unit::Cups, Unit::Cups) == (1int, 1int));
    assert(up_factor(Unit::Ounces, Unit::Cups) == (1int, 8int));
    assert(up_factor(Unit::Ounces, Unit::Ounces) == (1int, 1int));
    assert(up_factor(Unit::Tablespoons, Unit::Ounces) == (1int, 2int));
    assert(up_factor(Unit::Tablespoons, Unit::Cups) == (1int, 16int));
    assert(up_factor(Unit::Tablespoons, Unit::Tablespoons) == (1int, 1int));
    assert(up_factor(Unit::Teaspoons, Unit::Tablespoons) == (33int, 100int));
    assert(up_factor(Unit::Teaspoons, Unit::Teaspoons) == (1int, 1int));
    assert(up_factor(Unit::Teaspoons, Unit::Ounces) == (33int, 200int));
    assert(up_factor(Unit::Teaspoons, Unit::Cups) == (33int, 1600int));
    assert(up_factor(Unit::Pinch, Unit::Teaspoons) == (1int, 4int));
    assert(up_factor(Unit::Pinch, Unit::Tablespoons) == (33int, 400int));
    assert(up_factor(Unit::Pinch, Unit::Ounces) == (33int, 800int));
    assert(up_factor(Unit::Pinch, Unit::Cups) == (33int, 6400int));
    assert(down_factor(Unit::Pinch, Unit::Pinch) == 1);
    assert(down_factor(Unit::Teaspoons, Unit::Pinch) == 4);
    assert(down_factor(Unit::Tablespoons, Unit::Pinch) == 12);
    assert(down_factor(Unit::Ounces, Unit::Pinch) == 2 * down_factor(
        Unit::Tablespoons,
        Unit::Pinch,
    ));
    assert(down_factor(Unit::Ounces, Unit::Pinch) == 24);
    assert(down_factor(Unit::Cups, Unit::Pinch) == 8 * down_factor(Unit::Ounces, Unit::Pinch));
    assert(down_factor(Unit::Cups, Unit::Pinch) == 192);
    assert(down_factor(Unit::Teaspoons, Unit::Teaspoons) == 1);
    assert(down_factor(Unit::Tablespoons, Unit::Teaspoons) == 3);
    assert(down_factor(Unit::Ounces, Unit::Teaspoons) == 6);
    assert(down_factor(Unit::Cups, Unit::Teaspoons) == 48);
    assert(down_factor(Unit::Tablespoons, Unit::Tablespoons) == 1);
    assert(down_factor(Unit::Ounces, Unit::Tablespoons) == 2);
    assert(down_factor(Unit::Cups, Unit::Tablespoons) == 16);
    assert(down_factor(Unit::Ounces, Unit::Ounces) == 1);
    assert(down_factor(Unit::Cups, Unit::Ounces) == 8);
    let (n, d) = up_factor(u, v);
    let m = down_factor(v, u);
    let k = kept_per_hundred(u, v);
    match (u, v) {
        (Unit::Pinch, Unit::Teaspoons) => assert(n == 1 && d == 4 && m == 4 && k == 100),
        (Unit::Pinch, Unit::Tablespoons) => assert(n == 33 && d == 400 && m == 12 && k == 99),
        (Unit::Pinch, Unit::Ounces) => assert(n == 33 && d == 800 && m == 24 && k == 99),
        (Unit::Pinch, Unit::Cups) => assert(n == 33 && d == 6400 && m == 192 && k == 99),
        (Unit::Teaspoons, Unit::Tablespoons) => assert(n == 33 && d == 100 && m == 3 && k == 99),
        (Unit::Teaspoons, Unit::Ounces) => assert(n == 33 && d == 200 && m == 6 && k == 99),
        (Unit::Teaspoons, Unit::Cups) => assert(n == 33 && d == 1600 && m == 48 && k == 99),
        (Unit::Tablespoons, Unit::Ounces) => assert(n == 1 && d == 2 && m == 2 && k == 100),
        (Unit::Tablespoons, Unit::Cups) => assert(n == 1 && d == 16 && m == 16 && k == 100),
        (Unit::Ounces, Unit::Cups) => assert(n == 1 && d == 8 && m == 8 && k == 100),
        _ => {},
    }
    assert(n * m * 100 == d * k);
}

proof fn lemma_trunc_div_close(x: int, d: int)
    requires
        d > 0,
    ensures
        -d < d * trunc_div(x, d) - x < d,
{
    if x >= 0 {
        assert(d * (x / d) <= x < d * (x / d) + d) by (nonlinear_arith)
            requires
                d > 0,
                x >= 0,
        ;
    } else {
        let y = (-x) / d;
        assert(d * y <= -x < d * y + d) by (nonlinear_arith)
            requires
                d > 0,
                -x > 0,
                y == (-x) / d,
        ;
        assert(-d < d * (-y) - x < d) by (nonlinear_arith)
            requires
                d * y <= -x < d * y + d,
        ;
    }
}

/// Converting a quantity between two measurable units and back again gives it back up to
/// a bounded error, in millionths of a unit:
/// - without passing the teaspoon/tablespoon step, exactly when going down first, and
///   within less than the ascending divisor when going up first (the rounding of the
///   ascending conversion, scaled back down);
/// - passing that step, whose ratio is 0.33 rather than a third, 99/100 of the quantity,
///   within less than one going down first and less than the descending multiplier going
///   up first;
/// - in every case within a hundredth of the quantity plus 192.
pub proof fn lemma_round_trip(q: int, u: Unit, v: Unit)
    requires
        u != Unit::Whole,
        v != Unit::Whole,
    ensures
        100 * abs(converted(converted(q, u, v), v, u) - q) <= abs(q) + 19200,
        u.rank() >= v.rank() && !crosses_inexact_step(u, v) ==> converted(converted(q, u, v), v, u)
            == q,
        u.rank() < v.rank() && !crosses_inexact_step(u, v) ==> abs(
            converted(converted(q, u, v), v, u) - q,
        ) < up_factor(u, v).1,
        u.rank() >= v.rank() && crosses_inexact_step(u, v) ==> abs(
            100 * converted(converted(q, u, v), v, u) - 99 * q,
        ) < 100,
        u.rank() < v.rank() && crosses_inexact_step(u, v) ==> abs(
            100 * converted(converted(q, u, v), v, u) - 99 * q,
        ) < 100 * down_factor(v, u),
{
    let r = converted(converted(q, u, v), v, u);
    if u == v {
    } else if u.rank() < v.rank() {
        let n = up_factor(u, v).0;
        let d = up_factor(u, v).1;
        let m = down_factor(v, u);
        let k = kept_per_hundred(u, v);
        lemma_up_down_product(u, v);
        lemma_up_factor_bounds(u, v);
        lemma_down_factor_bounds(v, u);
        let t = trunc_div(q * n, d);
        lemma_trunc_div_close(q * n, d);
        assert(r == t * m);
        assert(-100 * m < 100 * r - k * q < 100 * m) by (nonlinear_arith)
            requires
                -d < d * t - q * n < d,
                r == t * m,
                n * m * 100 == d * k,
                d > 0,
                m > 0,
        ;
        assert(100 * abs(r - q) <= abs(q) + 19200) by (nonlinear_arith)
            requires
                -100 * m < 100 * r - k * q < 100 * m,
                1 <= m <= 192,
                k == 99 || k == 100,
        ;
        if k == 100 {
            assert(m <= d) by (nonlinear_arith)
                requires
                    n * m * 100 == d * 100,
                    n >= 1,
                    m >= 1,
            ;
        }
    } else {
        let n = up_factor(v, u).0;
        let d = up_factor(v, u).1;
        let m = down_factor(u, v);
        let k = kept_per_hundred(v, u);
        lemma_up_down_product(v, u);
        lemma_up_factor_bounds(v, u);
        lemma_down_factor_bounds(u, v);
        let x = q * m * n;
        lemma_trunc_div_close(x, d);
        assert(converted(q, u, v) == q * m);
        assert(r == trunc_div(q * m * n, d));
        assert(-100 * d < d * (100 * r - k * q) < 100 * d) by (nonlinear_arith)
            requires
                -d < d * r - x < d,
                x == q * m * n,
                n * m * 100 == d * k,
                d > 0,
        ;
        assert(-100 < 100 * r - k * q < 100) by (nonlinear_arith)
            requires
                -100 * d < d * (100 * r - k * q) < 100 * d,
                d > 0,
        ;
        assert(100 * abs(r - q) <= abs(q) + 19200);
        if !crosses_inexact_step(u, v) {
            assert(k == 100);
        }
    }
}

} // verus!
