//! A fixed-point number type with every operation stated exactly.
use crate::scalar::Scalar;
use vstd::prelude::*;

verus! {

/// One, in units of the last place.
pub const UNIT: u128 = 4294967296;

/// The largest raw value; it and its negative stand for what overflowed.
pub const LIMIT: i64 = 9223372036854775807;

/// A number in steps of `1 / UNIT`. Results beyond the range saturate at
/// `LIMIT` or `-LIMIT`, which count as not finite.
#[derive(Clone, Copy, Debug)]
pub struct Fixed {
    pub raw: i64,
}

/// `value`, held between `-LIMIT` and `LIMIT`.
pub open spec fn saturated(value: int) -> Fixed {
    if value > LIMIT {
        Fixed { raw: LIMIT }
    } else if value < -LIMIT {
        Fixed { raw: (-LIMIT) as i64 }
    } else {
        Fixed { raw: value as i64 }
    }
}

pub open spec fn distance(value: int) -> int {
    if value < 0 {
        -value
    } else {
        value
    }
}

/// `numerator / denominator`, rounded toward zero.
pub open spec fn toward_zero(numerator: int, denominator: int) -> int {
    let quotient = distance(numerator) / distance(denominator);
    if (numerator < 0) == (denominator < 0) {
        quotient
    } else {
        -quotient
    }
}

/// The integer square root.
pub open spec fn whole_root(n: int) -> int {
    choose|r: int| #[trigger] is_whole_root(n, r)
}

pub open spec fn is_whole_root(n: int, r: int) -> bool {
    0 <= r && r * r <= n && n < (r + 1) * (r + 1)
}

proof fn lemma_whole_root_unique(n: int, a: int, b: int)
    requires
        is_whole_root(n, a),
        is_whole_root(n, b),
    ensures
        a == b,
{
    assert(a == b) by (nonlinear_arith)
        requires
            0 <= a,
            0 <= b,
            a * a <= n,
            n < (a + 1) * (a + 1),
            b * b <= n,
            n < (b + 1) * (b + 1),
    ;
}

fn absolute(value: i128) -> (r: u128)
    requires
        value > i128::MIN,
    ensures
        r == distance(value as int),
{
    if value < 0 {
        (-value) as u128
    } else {
        value as u128
    }
}

/// The saturated value with magnitude `size`, negative if `negative`.
fn signed(negative: bool, size: u128) -> (r: Fixed)
    ensures
        r == saturated(if negative { -(size as int) } else { size as int }),
{
    if size > LIMIT as u128 {
        if negative {
            Fixed { raw: -LIMIT }
        } else {
            Fixed { raw: LIMIT }
        }
    } else if negative {
        Fixed { raw: -(size as i64) }
    } else {
        Fixed { raw: size as i64 }
    }
}

fn bounded(value: i128) -> (r: Fixed)
    requires
        value > i128::MIN,
    ensures
        r == saturated(value as int),
{
    signed(value < 0, absolute(value))
}

/// Binary search for the integer square root of `n`.
fn integer_root(n: u128) -> (r: u128)
    requires
        n < 0x8000_0000_0000_0000_0000_0000,
    ensures
        is_whole_root(n as int, r as int),
{
    let mut low: u128 = 0;
    let mut high: u128 = 0x1_0000_0000_0000;
    assert(n < high * high) by (nonlinear_arith)
        requires
            n < 0x8000_0000_0000_0000_0000_0000,
            high == 0x1_0000_0000_0000,
    ;
    assert(low * low <= n) by (nonlinear_arith)
        requires
            low == 0,
    ;
    while high - low > 1
        invariant
            low < high <= 0x1_0000_0000_0000,
            low * low <= n,
            n < high * high,
        decreases high - low,
    {
        let middle: u128 = low + (high - low) / 2;
        assert(middle * middle <= 0x1_0000_0000_0000 * 0x1_0000_0000_0000) by (nonlinear_arith)
            requires
                middle <= 0x1_0000_0000_0000,
        ;
        if middle * middle <= n {
            low = middle;
        } else {
            high = middle;
        }
    }
    low
}

impl Fixed {
    /// The whole number `value`.
    pub fn whole(value: i64) -> (r: Fixed)
        ensures
            r == saturated(value * UNIT),
    {
        bounded(value as i128 * 4294967296)
    }
}

impl Scalar for Fixed {
    open spec fn s_zero() -> Fixed {
        Fixed { raw: 0 }
    }

    open spec fn s_one() -> Fixed {
        Fixed { raw: 4294967296 }
    }

    open spec fn s_epsilon() -> Fixed {
        Fixed { raw: 1 }
    }

    open spec fn s_tiny() -> Fixed {
        Fixed { raw: 1 }
    }

    open spec fn s_infinity() -> Fixed {
        Fixed { raw: LIMIT }
    }

    open spec fn s_count(n: nat) -> Fixed {
        saturated(n * UNIT)
    }

    open spec fn s_plus(self, rhs: Fixed) -> Fixed {
        saturated(self.raw + rhs.raw)
    }

    open spec fn s_minus(self, rhs: Fixed) -> Fixed {
        saturated(self.raw - rhs.raw)
    }

    open spec fn s_times(self, rhs: Fixed) -> Fixed {
        saturated(toward_zero(self.raw * rhs.raw, UNIT as int))
    }

    open spec fn s_over(self, rhs: Fixed) -> Fixed {
        if rhs.raw != 0 {
            saturated(toward_zero(self.raw * UNIT, rhs.raw as int))
        } else if self.raw > 0 {
            Fixed { raw: LIMIT }
        } else if self.raw < 0 {
            Fixed { raw: (-LIMIT) as i64 }
        } else {
            Fixed { raw: 0 }
        }
    }

    open spec fn s_negate(self) -> Fixed {
        saturated(-self.raw)
    }

    open spec fn s_magnitude(self) -> Fixed {
        saturated(distance(self.raw as int))
    }

    open spec fn s_root(self) -> Fixed {
        if self.raw <= 0 {
            Fixed { raw: 0 }
        } else {
            saturated(whole_root(self.raw * UNIT))
        }
    }

    open spec fn s_nearest(self) -> Fixed {
        let whole = (distance(self.raw as int) + UNIT / 2) / (UNIT as int) * UNIT;
        saturated(if self.raw < 0 { -whole } else { whole })
    }

    open spec fn s_modulo(self, rhs: Fixed) -> Fixed {
        if rhs.raw == 0 {
            Fixed { raw: 0 }
        } else {
            saturated((self.raw as int) % distance(rhs.raw as int))
        }
    }

    open spec fn s_fused(self, factor: Fixed, addend: Fixed) -> Fixed {
        saturated(toward_zero(self.raw * factor.raw + addend.raw * UNIT, UNIT as int))
    }

    open spec fn s_larger(self, rhs: Fixed) -> Fixed {
        if self.raw < rhs.raw {
            rhs
        } else {
            self
        }
    }

    open spec fn s_smaller(self, rhs: Fixed) -> Fixed {
        if rhs.raw < self.raw {
            rhs
        } else {
            self
        }
    }

    open spec fn s_below(self, rhs: Fixed) -> bool {
        self.raw < rhs.raw
    }

    open spec fn s_at_most(self, rhs: Fixed) -> bool {
        self.raw <= rhs.raw
    }

    open spec fn s_same(self, rhs: Fixed) -> bool {
        self.raw == rhs.raw
    }

    open spec fn s_finite(self) -> bool {
        -LIMIT < self.raw < LIMIT
    }

    fn zero() -> Fixed {
        Fixed { raw: 0 }
    }

    fn one() -> Fixed {
        Fixed { raw: 4294967296 }
    }

    fn epsilon() -> Fixed {
        Fixed { raw: 1 }
    }

    fn tiny() -> Fixed {
        Fixed { raw: 1 }
    }

    fn infinity() -> Fixed {
        Fixed { raw: LIMIT }
    }

    fn count(n: usize) -> Fixed {
        bounded(n as i128 * 4294967296)
    }

    fn plus(self, rhs: Fixed) -> Fixed {
        bounded(self.raw as i128 + rhs.raw as i128)
    }

    fn minus(self, rhs: Fixed) -> Fixed {
        bounded(self.raw as i128 - rhs.raw as i128)
    }

    fn times(self, rhs: Fixed) -> Fixed {
        proof {
            lemma_product_bound(self.raw as int, rhs.raw as int);
        }
        let product: i128 = self.raw as i128 * rhs.raw as i128;
        let size: u128 = absolute(product) / UNIT;
        signed(product < 0, size)
    }

    fn over(self, rhs: Fixed) -> Fixed {
        if rhs.raw != 0 {
            let numerator: i128 = self.raw as i128 * 4294967296;
            let size: u128 = absolute(numerator) / absolute(rhs.raw as i128);
            signed((numerator < 0) != (rhs.raw < 0), size)
        } else if self.raw > 0 {
            Fixed { raw: LIMIT }
        } else if self.raw < 0 {
            Fixed { raw: -LIMIT }
        } else {
            Fixed { raw: 0 }
        }
    }

    fn negate(self) -> Fixed {
        bounded(-(self.raw as i128))
    }

    fn magnitude(self) -> Fixed {
        signed(false, absolute(self.raw as i128))
    }

    fn root(self) -> Fixed {
        if self.raw <= 0 {
            Fixed { raw: 0 }
        } else {
            let n: u128 = self.raw as u128 * UNIT;
            let r: u128 = integer_root(n);
            proof {
                assert(is_whole_root(n as int, r as int));
                lemma_whole_root_unique(n as int, r as int, whole_root(n as int));
            }
            signed(false, r)
        }
    }

    fn nearest(self) -> Fixed {
        let whole: u128 = (absolute(self.raw as i128) + UNIT / 2) / UNIT * UNIT;
        signed(self.raw < 0, whole)
    }

    fn modulo(self, rhs: Fixed) -> Fixed {
        if rhs.raw == 0 {
            return Fixed { raw: 0 };
        }
        let divisor: u128 = absolute(rhs.raw as i128);
        let size: u128 = absolute(self.raw as i128);
        let rest: u128 = size % divisor;
        if self.raw < 0 && rest > 0 {
            proof {
                vstd::arithmetic::div_mod::lemma_fundamental_div_mod(size as int, divisor as int);
                let q = size as int / divisor as int;
                assert(self.raw as int == (-q - 1) * divisor as int + (divisor - rest))
                    by (nonlinear_arith)
                    requires
                        self.raw == -(size as int),
                        size as int == divisor as int * q + rest as int,
                ;
                vstd::arithmetic::div_mod::lemma_fundamental_div_mod_converse(
                    self.raw as int,
                    divisor as int,
                    -q - 1,
                    divisor - rest,
                );
            }
            signed(false, divisor - rest)
        } else {
            proof {
                if self.raw < 0 {
                    vstd::arithmetic::div_mod::lemma_fundamental_div_mod(
                        size as int,
                        divisor as int,
                    );
                    let q = size as int / divisor as int;
                    assert(self.raw as int == (-q) * divisor as int + 0) by (nonlinear_arith)
                        requires
                            self.raw == -(size as int),
                            size as int == divisor as int * q,
                    ;
                    vstd::arithmetic::div_mod::lemma_fundamental_div_mod_converse(
                        self.raw as int,
                        divisor as int,
                        -q,
                        0,
                    );
                }
            }
            signed(false, rest)
        }
    }

    fn fused(self, factor: Fixed, addend: Fixed) -> Fixed {
        proof {
            lemma_product_bound(self.raw as int, factor.raw as int);
        }
        let total: i128 = self.raw as i128 * factor.raw as i128 + addend.raw as i128 * 4294967296;
        let size: u128 = absolute(total) / UNIT;
        signed(total < 0, size)
    }

    fn larger(self, rhs: Fixed) -> Fixed {
        if self.raw < rhs.raw {
            rhs
        } else {
            self
        }
    }

    fn smaller(self, rhs: Fixed) -> Fixed {
        if rhs.raw < self.raw {
            rhs
        } else {
            self
        }
    }

    fn below(self, rhs: Fixed) -> bool {
        self.raw < rhs.raw
    }

    fn at_most(self, rhs: Fixed) -> bool {
        self.raw <= rhs.raw
    }

    fn same(self, rhs: Fixed) -> bool {
        self.raw == rhs.raw
    }

    fn finite(self) -> bool {
        -LIMIT < self.raw && self.raw < LIMIT
    }
}

proof fn lemma_product_bound(a: int, b: int)
    requires
        -0x8000_0000_0000_0000 <= a <= 0x8000_0000_0000_0000,
        -0x8000_0000_0000_0000 <= b <= 0x8000_0000_0000_0000,
    ensures
        -0x4000_0000_0000_0000_0000_0000_0000_0000 <= a * b
            <= 0x4000_0000_0000_0000_0000_0000_0000_0000,
{
    assert(-0x4000_0000_0000_0000_0000_0000_0000_0000 <= a * b
        <= 0x4000_0000_0000_0000_0000_0000_0000_0000) by (nonlinear_arith)
        requires
            -0x8000_0000_0000_0000 <= a <= 0x8000_0000_0000_0000,
            -0x8000_0000_0000_0000 <= b <= 0x8000_0000_0000_0000,
    ;
}

} // verus!
