//! IEEE 754 doubles held by their bits.
//!
//! Amounts travel as JSON numbers, that is as doubles. Holding a double by its
//! 64 bits keeps every amount exact, and lets the comparison with a spending
//! cap and the conversion from base units be computed with integers.

use vstd::arithmetic::div_mod::{lemma_fundamental_div_mod, lemma_fundamental_div_mod_converse};
use vstd::arithmetic::power2::{
    lemma2_to64, lemma2_to64_rest, lemma_pow2_adds, lemma_pow2_pos, lemma_pow2_strictly_increases,
    lemma_pow2_unfold, pow2,
};
use vstd::prelude::*;

verus! {

/// Two to the power 52: the weight of the implicit leading mantissa bit.
pub const MANTISSA_UNIT: u64 = 0x0010_0000_0000_0000;

/// Twice [`MANTISSA_UNIT`]: one more than the largest 53-bit mantissa.
pub const MANTISSA_END: u64 = 0x0020_0000_0000_0000;

/// The sign bit.
pub const SIGN_BIT: u64 = 0x8000_0000_0000_0000;

/// The bits of positive infinity.
pub const INFINITY_BITS: u64 = 0x7ff0_0000_0000_0000;

/// An IEEE 754 double, held by its bits.
#[derive(Debug, Clone, Copy, PartialEq, Eq, Structural)]
pub struct Double {
    pub bits: u64,
}

/// The size of the double whose bits, the sign taken off, are `bits`, counted
/// in units of the smallest positive double. Infinity counts as the first size
/// that no finite double reaches.
pub open spec fn magnitude(bits: nat) -> nat {
    let exponent = bits / (MANTISSA_UNIT as nat);
    let fraction = bits % (MANTISSA_UNIT as nat);
    if exponent == 0 {
        fraction
    } else {
        (MANTISSA_UNIT + fraction) as nat * pow2((exponent - 1) as nat)
    }
}

impl Double {
    /// The bits without the sign.
    pub open spec fn unsigned_bits(self) -> nat {
        self.bits as nat % SIGN_BIT as nat
    }

    /// Whether this is not a number.
    pub open spec fn is_nan(self) -> bool {
        self.unsigned_bits() > INFINITY_BITS
    }

    /// The value, counted in units of the smallest positive double.
    pub open spec fn value(self) -> int {
        if self.bits < SIGN_BIT {
            magnitude(self.unsigned_bits()) as int
        } else {
            -(magnitude(self.unsigned_bits()) as int)
        }
    }

    /// Whether this is a number greater than the number `other`.
    pub open spec fn above(self, other: Double) -> bool {
        !self.is_nan() && !other.is_nan() && self.value() > other.value()
    }

    /// Whether `self > other` as doubles: never with a NaN on either side.
    pub fn exceeds(&self, other: &Double) -> (greater: bool)
        ensures
            greater == self.above(*other),
    {
        let a: u64 = if self.bits < SIGN_BIT {
            self.bits
        } else {
            self.bits - SIGN_BIT
        };
        let b: u64 = if other.bits < SIGN_BIT {
            other.bits
        } else {
            other.bits - SIGN_BIT
        };
        proof {
            assert(a == self.unsigned_bits());
            assert(b == other.unsigned_bits());
            lemma_magnitude_order(a as nat, b as nat);
            lemma_magnitude_order(b as nat, a as nat);
            lemma_magnitude_order(0, a as nat);
            lemma_magnitude_order(0, b as nat);
        }
        if a > INFINITY_BITS || b > INFINITY_BITS {
            false
        } else if self.bits < SIGN_BIT && other.bits < SIGN_BIT {
            a > b
        } else if self.bits < SIGN_BIT {
            a > 0 || b > 0
        } else if other.bits < SIGN_BIT {
            false
        } else {
            a < b
        }
    }
}

/// Sizes are ordered as the bits are.
proof fn lemma_magnitude_order(a: nat, b: nat)
    ensures
        magnitude(0) == 0,
        a < b ==> magnitude(a) < magnitude(b),
{
    if a < b {
        let unit = MANTISSA_UNIT as nat;
        let ea = a / unit;
        let eb = b / unit;
        let fa = a % unit;
        let fb = b % unit;
        assert(ea <= eb) by (nonlinear_arith)
            requires
                ea == a / unit,
                eb == b / unit,
                a < b,
                unit > 0,
        ;
        if ea == eb {
            assert(fa < fb);
            if ea > 0 {
                lemma_pow2_pos((ea - 1) as nat);
                let p = pow2((ea - 1) as nat);
                assert((unit + fa) * p < (unit + fb) * p) by (nonlinear_arith)
                    requires
                        fa < fb,
                        p > 0,
                ;
            }
        } else {
            lemma_pow2_pos((eb - 1) as nat);
            let q = pow2((eb - 1) as nat);
            assert((unit + fb) * q >= unit * q) by (nonlinear_arith)
                requires
                    q > 0,
                    fb >= 0,
            ;
            if ea == 0 {
                assert(unit * q >= unit) by (nonlinear_arith)
                    requires
                        q >= 1,
                ;
            } else {
                let p = pow2((ea - 1) as nat);
                lemma_pow2_pos((ea - 1) as nat);
                lemma_pow2_adds((ea - 1) as nat, (eb - ea) as nat);
                let r = pow2((eb - ea) as nat);
                lemma2_to64();
                if eb - ea > 1 {
                    lemma_pow2_strictly_increases(1, (eb - ea) as nat);
                }
                assert(r >= 2);
                assert((unit + fa) * p < 2 * unit * p) by (nonlinear_arith)
                    requires
                        fa < unit,
                        p > 0,
                ;
                assert(unit * (p * r) >= 2 * unit * p) by (nonlinear_arith)
                    requires
                        r >= 2,
                        p > 0,
                        unit > 0,
                ;
            }
        }
    }
}

/// `p / q` rounded to the nearest integer, a tie going to the even one.
pub open spec fn round_half_even(p: nat, q: nat) -> nat {
    let whole = p / q;
    let rest = p % q;
    if 2 * rest > q || (2 * rest == q && whole % 2 == 1) {
        whole + 1
    } else {
        whole
    }
}

/// How many bits of `n` lie beyond its 53 leading ones.
pub open spec fn excess_bits(n: nat) -> nat
    decreases n,
{
    if n < MANTISSA_END {
        0
    } else {
        1 + excess_bits(n / 2)
    }
}

/// The integer nearest to `n` that has at most 53 significant bits, a tie going
/// to the even mantissa: the value of `n` converted to a double.
pub open spec fn round_integer(n: nat) -> nat {
    let unit = pow2(excess_bits(n));
    round_half_even(n, unit) * unit
}

/// Whether `p / q`, divided by two to the power `e`, has 53 bits before the
/// binary point.
pub open spec fn spans(p: nat, q: nat, e: int) -> bool {
    if e >= 0 {
        MANTISSA_UNIT * (q * pow2(e as nat)) <= p < MANTISSA_END * (q * pow2(e as nat))
    } else {
        MANTISSA_UNIT * q <= p * pow2((-e) as nat) < MANTISSA_END * q
    }
}

/// The binary exponent of `p / q` as a double.
pub open spec fn ratio_exponent(p: nat, q: nat) -> int {
    choose|e: int| spans(p, q, e)
}

/// The mantissa of `p / q` at the binary exponent `e`, rounded to the nearest
/// integer, a tie going to the even one.
pub open spec fn ratio_mantissa(p: nat, q: nat, e: int) -> nat {
    if e >= 0 {
        round_half_even(p, q * pow2(e as nat))
    } else {
        round_half_even(p * pow2((-e) as nat), q)
    }
}

/// The bits of the double nearest to `p / q`, a tie going to the even mantissa
/// and what lies beyond every finite double to infinity; for a ratio that is
/// zero or no smaller than the least normal double.
pub open spec fn ratio_bits(p: nat, q: nat) -> int {
    if p == 0 {
        0
    } else {
        let e = ratio_exponent(p, q);
        let bits = (e + 1075) * MANTISSA_UNIT + (ratio_mantissa(p, q, e) - MANTISSA_UNIT);
        if bits < INFINITY_BITS {
            bits
        } else {
            INFINITY_BITS as int
        }
    }
}

/// Where the part cut off from a number stands against half a unit.
#[derive(Debug, Clone, Copy, PartialEq, Eq, Structural)]
pub enum Tail {
    Below,
    Half,
    Above,
}

/// `tail` says where `low` stands against half of `unit`.
pub open spec fn tail_of(tail: Tail, low: nat, unit: nat) -> bool {
    match tail {
        Tail::Below => 2 * low < unit,
        Tail::Half => 2 * low == unit,
        Tail::Above => 2 * low > unit,
    }
}

/// What has been cut off below `2 * unit`, given what was cut off below `unit`
/// and the bit between.
pub(crate) open spec fn cut_off(low: nat, unit: nat, bit: bool) -> nat {
    if bit {
        low + unit
    } else {
        low
    }
}

/// Cutting one more bit off `n == whole * unit + low` doubles the unit, and puts
/// the bit in front of what was cut off before.
pub(crate) proof fn lemma_cut_bit(n: nat, whole: nat, half: nat, bit: bool, unit: nat, low: nat)
    requires
        n == whole * unit + low,
        low < unit,
        whole == 2 * half + if bit {
            1int
        } else {
            0
        },
    ensures
        n == half * (2 * unit) + cut_off(low, unit, bit),
        cut_off(low, unit, bit) < 2 * unit,
{
    assert(whole * unit == half * (2 * unit) + if bit {
        unit
    } else {
        0
    }) by (nonlinear_arith)
        requires
            whole == 2 * half + if bit {
                1int
            } else {
                0
            },
    ;
}

/// Where the part cut off stands once `bit` has been cut off too; `dirty` says
/// whether anything but zeros was cut off before.
pub(crate) fn tail_after(bit: bool, dirty: bool) -> (tail: Tail)
    ensures
        forall|unit: nat, low: nat|
            low < unit && dirty == (low > 0) ==> tail_of(
                tail,
                #[trigger] cut_off(low, unit, bit),
                2 * unit,
            ),
{
    if !bit {
        Tail::Below
    } else if dirty {
        Tail::Above
    } else {
        Tail::Half
    }
}

/// Whether `whole`, with `tail` cut off below it, is rounded up to the nearest
/// integer.
pub(crate) fn round_up(whole: u64, tail: Tail) -> (up: bool)
    ensures
        forall|n: nat, unit: nat, low: nat|
            n == whole * unit + low && low < unit && #[trigger] tail_of(tail, low, unit)
                ==> #[trigger] round_half_even(n, unit) == if up {
                whole + 1
            } else {
                whole as int
            },
{
    let up = match tail {
        Tail::Below => false,
        Tail::Half => whole % 2 == 1,
        Tail::Above => true,
    };
    proof {
        assert forall|n: nat, unit: nat, low: nat|
            n == whole * unit + low && low < unit && #[trigger] tail_of(
                tail,
                low,
                unit,
            ) implies #[trigger] round_half_even(n, unit) == if up {
            whole + 1
        } else {
            whole as int
        } by {
            lemma_fundamental_div_mod_converse(n as int, unit as int, whole as int, low as int);
        }
    }
    up
}

/// The same ratio, written with other terms, rounds to the same integer and
/// lies between the same bounds.
proof fn lemma_same_ratio(a: nat, b: nat, c: nat, d: nat, x: nat, y: nat, lo: nat, hi: nat)
    requires
        b > 0,
        d > 0,
        x > 0,
        y > 0,
        a * x == c * y,
        b * x == d * y,
    ensures
        round_half_even(a, b) == round_half_even(c, d),
        (lo * b <= a < hi * b) == (lo * d <= c < hi * d),
{
    let q = a / b;
    let r = a % b;
    lemma_fundamental_div_mod(a as int, b as int);
    let s = c - q * d;
    assert(s * y == r * x) by (nonlinear_arith)
        requires
            s == c - q * d,
            a == b * q + r,
            a * x == c * y,
            b * x == d * y,
    ;
    assert(0 <= s < d) by (nonlinear_arith)
        requires
            s * y == r * x,
            b * x == d * y,
            0 <= r < b,
            x > 0,
            y > 0,
            d > 0,
    ;
    assert(c == q * d + s) by (nonlinear_arith)
        requires
            s == c - q * d,
    ;
    lemma_fundamental_div_mod_converse(c as int, d as int, q as int, s);
    assert((2 * r > b) == (2 * s > d)) by (nonlinear_arith)
        requires
            s * y == r * x,
            b * x == d * y,
            x > 0,
            y > 0,
    ;
    assert((2 * r == b) == (2 * s == d)) by (nonlinear_arith)
        requires
            s * y == r * x,
            b * x == d * y,
            x > 0,
            y > 0,
    ;
    assert((lo * b <= a) == (lo * d <= c)) by (nonlinear_arith)
        requires
            a * x == c * y,
            b * x == d * y,
            x > 0,
            y > 0,
    ;
    assert((a < hi * b) == (c < hi * d)) by (nonlinear_arith)
        requires
            a * x == c * y,
            b * x == d * y,
            x > 0,
            y > 0,
    ;
}

/// [`spans`] written without a negative power, for any shift that avoids one.
proof fn lemma_spans_shifted(p: nat, q: nat, e: int, m: nat)
    requires
        q > 0,
        e + m >= 0,
    ensures
        spans(p, q, e) == (MANTISSA_UNIT * (q * pow2((e + m) as nat)) <= p * pow2(m) < MANTISSA_END
            * (q * pow2((e + m) as nat))),
{
    lemma_pow2_pos(m);
    lemma_pow2_pos((e + m) as nat);
    let b = q * pow2((e + m) as nat);
    assert(b > 0) by (nonlinear_arith)
        requires
            b == q * pow2((e + m) as nat),
            q > 0,
            pow2((e + m) as nat) > 0,
    ;
    if e >= 0 {
        lemma_pow2_pos(e as nat);
        lemma_pow2_adds(e as nat, m);
        let d = q * pow2(e as nat);
        assert(d > 0) by (nonlinear_arith)
            requires
                d == q * pow2(e as nat),
                q > 0,
                pow2(e as nat) > 0,
        ;
        assert(b * 1 == d * pow2(m)) by (nonlinear_arith)
            requires
                b == q * pow2((e + m) as nat),
                d == q * pow2(e as nat),
                pow2((e + m) as nat) == pow2(e as nat) * pow2(m),
        ;
        lemma_same_ratio(
            p * pow2(m),
            b,
            p,
            d,
            1,
            pow2(m),
            MANTISSA_UNIT as nat,
            MANTISSA_END as nat,
        );
    } else {
        lemma_pow2_pos((-e) as nat);
        lemma_pow2_adds((-e) as nat, (e + m) as nat);
        let t = pow2((e + m) as nat);
        assert((p * pow2(m)) * 1 == (p * pow2((-e) as nat)) * t) by (nonlinear_arith)
            requires
                pow2(m) == pow2((-e) as nat) * t,
        ;
        lemma_same_ratio(
            p * pow2(m),
            b,
            p * pow2((-e) as nat),
            q,
            1,
            t,
            MANTISSA_UNIT as nat,
            MANTISSA_END as nat,
        );
    }
}

/// A ratio has one binary exponent at most.
proof fn lemma_exponent_unique(p: nat, q: nat, e: int, f: int)
    requires
        q > 0,
        spans(p, q, e),
        spans(p, q, f),
    ensures
        e == f,
{
    if e != f {
        let lo = if e < f {
            e
        } else {
            f
        };
        let hi = if e < f {
            f
        } else {
            e
        };
        let m = if lo < 0 {
            (-lo) as nat
        } else {
            0
        };
        lemma_spans_shifted(p, q, lo, m);
        lemma_spans_shifted(p, q, hi, m);
        let x = pow2((lo + m) as nat);
        let y = pow2((hi + m) as nat);
        lemma_pow2_pos((lo + m) as nat);
        lemma_pow2_adds((lo + m) as nat, (hi - lo) as nat);
        lemma2_to64();
        if hi - lo > 1 {
            lemma_pow2_strictly_increases(1, (hi - lo) as nat);
        }
        let z = pow2((hi - lo) as nat);
        let unit = MANTISSA_UNIT as nat;
        assert(unit * (q * y) >= 2 * unit * (q * x)) by (nonlinear_arith)
            requires
                y == x * z,
                z >= 2,
                x > 0,
                q > 0,
        ;
        assert(MANTISSA_END * (q * x) == 2 * unit * (q * x));
    }
}

/// The double nearest to `mantissa * 2^shift / divisor`.
pub(crate) fn ratio_to_double(mantissa: u64, shift: u128, divisor: u64) -> (double: Double)
    requires
        mantissa <= MANTISSA_END,
        shift <= 0x8_0000_0000_0000_0000,
        0 < divisor <= 1_000_000_000,
    ensures
        double.bits == ratio_bits(mantissa as nat * pow2(shift as nat), divisor as nat),
{
    if mantissa == 0 {
        return Double { bits: 0 };
    }
    let ghost p = mantissa as nat * pow2(shift as nat);
    let ghost q = divisor as nat;
    proof {
        lemma2_to64();
        lemma2_to64_rest();
    }
    // Scale up to a full mantissa: `scaled == mantissa * 2^up`.
    let mut scaled: u64 = mantissa;
    let mut up: u64 = 0;
    while scaled < MANTISSA_UNIT
        invariant
            0 < scaled <= MANTISSA_END,
            scaled == mantissa * pow2(up as nat),
            mantissa > 0,
            up <= 52,
            pow2(52) == MANTISSA_UNIT,
        decreases MANTISSA_END - scaled,
    {
        proof {
            assert(pow2(up as nat) <= scaled) by (nonlinear_arith)
                requires
                    scaled == mantissa * pow2(up as nat),
                    mantissa > 0,
            ;
            assert(up < 52);
            lemma_pow2_unfold((up + 1) as nat);
            assert(scaled * 2 == mantissa * pow2((up + 1) as nat)) by (nonlinear_arith)
                requires
                    scaled == mantissa * pow2(up as nat),
                    pow2((up + 1) as nat) == 2 * pow2(up as nat),
            ;
        }
        scaled = scaled * 2;
        up = up + 1;
    }
    let wide: u128 = scaled as u128 * 0x1_0000_0000_0000_0000u128;
    let mut whole: u128 = wide / divisor as u128;
    let mut dirty: bool = wide % divisor as u128 != 0;
    let mut tail: Tail = Tail::Below;
    let mut down: u64 = 0;
    let ghost mut low: nat = wide as nat % q;
    proof {
        lemma_fundamental_div_mod(wide as int, q as int);
        assert(whole >= 0x40_0000_0000_0000) by (nonlinear_arith)
            requires
                wide == q * whole + low,
                low < q,
                q <= 1_000_000_000,
                wide >= 0x10_0000_0000_0000 * 0x1_0000_0000_0000_0000,
        ;
        assert(wide == whole * (q * pow2(0)) + low) by (nonlinear_arith)
            requires
                wide == q * whole + low,
                pow2(0) == 1,
        ;
        assert(q * pow2(0) == q) by (nonlinear_arith)
            requires
                pow2(0) == 1,
        ;
    }
    while whole >= MANTISSA_END as u128
        invariant
            MANTISSA_UNIT <= whole,
            down == 0 ==> whole >= MANTISSA_END,
            wide == whole * (q * pow2(down as nat)) + low,
            low < q * pow2(down as nat),
            dirty == (low > 0),
            down > 0 ==> tail_of(tail, low, q * pow2(down as nat)),
            down <= 65,
            q > 0,
            pow2(64) == 0x1_0000_0000_0000_0000,
            wide <= MANTISSA_END * pow2(64),
        decreases whole,
    {
        let ghost unit = q * pow2(down as nat);
        let half: u128 = whole / 2;
        let bit: bool = whole % 2 == 1;
        assert(down <= 64) by {
            lemma_pow2_unfold(65);
            assert(wide >= whole * pow2(down as nat)) by (nonlinear_arith)
                requires
                    wide == whole * (q * pow2(down as nat)) + low,
                    q > 0,
            ;
            assert(whole * pow2(down as nat) >= MANTISSA_END * pow2(down as nat)) by (nonlinear_arith)
                requires
                    whole >= MANTISSA_END,
            ;
        }
        proof {
            lemma_pow2_unfold((down + 1) as nat);
            assert(q * pow2((down + 1) as nat) == 2 * unit) by (nonlinear_arith)
                requires
                    unit == q * pow2(down as nat),
                    pow2((down + 1) as nat) == 2 * pow2(down as nat),
            ;
            lemma_cut_bit(wide as nat, whole as nat, half as nat, bit, unit, low);
            low = cut_off(low, unit, bit);
        }
        tail = tail_after(bit, dirty);
        dirty = dirty || bit;
        whole = half;
        down = down + 1;
    }
    let up_one = round_up(whole as u64, tail);
    let rounded: u64 = if up_one {
        whole as u64 + 1
    } else {
        whole as u64
    };
    let exponent: i128 = down as i128 + shift as i128 - 64 - up as i128;
    let ghost e = exponent as int;
    proof {
        let unit = q * pow2(down as nat);
        assert(round_half_even(wide as nat, unit) == rounded);
        lemma_pow2_pos(down as nat);
        lemma_pow2_pos(shift as nat);
        lemma_pow2_pos((64 + up) as nat);
        lemma_pow2_adds(up as nat, 64);
        assert(wide == mantissa * pow2((64 + up) as nat)) by (nonlinear_arith)
            requires
                wide == scaled * pow2(64),
                scaled == mantissa * pow2(up as nat),
                pow2((64 + up) as nat) == pow2(up as nat) * pow2(64),
        ;
        assert(unit > 0) by (nonlinear_arith)
            requires
                unit == q * pow2(down as nat),
                q > 0,
                pow2(down as nat) > 0,
        ;
        assert(MANTISSA_UNIT * unit <= wide < MANTISSA_END * unit) by (nonlinear_arith)
            requires
                wide == whole * unit + low,
                low < unit,
                MANTISSA_UNIT <= whole < MANTISSA_END,
        ;
        if e >= 0 {
            let b = q * pow2(e as nat);
            lemma_pow2_pos(e as nat);
            lemma_pow2_adds(e as nat, (64 + up) as nat);
            lemma_pow2_adds(down as nat, shift as nat);
            assert(b > 0) by (nonlinear_arith)
                requires
                    b == q * pow2(e as nat),
                    q > 0,
                    pow2(e as nat) > 0,
            ;
            assert(p * pow2((64 + up) as nat) == wide * pow2(shift as nat)) by (nonlinear_arith)
                requires
                    p == mantissa * pow2(shift as nat),
                    wide == mantissa * pow2((64 + up) as nat),
            ;
            assert(b * pow2((64 + up) as nat) == unit * pow2(shift as nat)) by (nonlinear_arith)
                requires
                    b == q * pow2(e as nat),
                    unit == q * pow2(down as nat),
                    pow2(e as nat) * pow2((64 + up) as nat) == pow2(down as nat) * pow2(
                        shift as nat,
                    ),
            ;
            lemma_same_ratio(
                p,
                b,
                wide as nat,
                unit,
                pow2((64 + up) as nat),
                pow2(shift as nat),
                MANTISSA_UNIT as nat,
                MANTISSA_END as nat,
            );
        } else {
            let a = p * pow2((-e) as nat);
            lemma_pow2_pos((-e) as nat);
            lemma_pow2_adds(shift as nat, (-e) as nat);
            lemma_pow2_adds((shift + (-e)) as nat, down as nat);
            assert(a * pow2(down as nat) == wide * 1) by (nonlinear_arith)
                requires
                    a == p * pow2((-e) as nat),
                    p == mantissa * pow2(shift as nat),
                    wide == mantissa * pow2((64 + up) as nat),
                    pow2(shift as nat) * pow2((-e) as nat) * pow2(down as nat) == pow2(
                        (64 + up) as nat,
                    ),
            ;
            assert(q * pow2(down as nat) == unit * 1);
            lemma_same_ratio(
                a,
                q,
                wide as nat,
                unit,
                pow2(down as nat),
                1,
                MANTISSA_UNIT as nat,
                MANTISSA_END as nat,
            );
        }
        assert(spans(p, q, e));
        lemma_exponent_unique(p, q, e, ratio_exponent(p, q));
        assert(p > 0) by (nonlinear_arith)
            requires
                p == mantissa * pow2(shift as nat),
                mantissa > 0,
                pow2(shift as nat) > 0,
        ;
        assert(ratio_mantissa(p, q, e) == rounded);
    }
    assert(-200 <= exponent <= 0x8_0000_0000_0000_0000 + 65);
    assert(0 <= (exponent + 1075) * MANTISSA_UNIT <= 0x10_0000_0000_0000_0000 * MANTISSA_UNIT)
        by (nonlinear_arith)
        requires
            -200 <= exponent <= 0x8_0000_0000_0000_0000 + 65,
    ;
    let bits: i128 = (exponent + 1075) * MANTISSA_UNIT as i128 + (rounded as i128
        - MANTISSA_UNIT as i128);
    if bits < INFINITY_BITS as i128 {
        Double { bits: bits as u64 }
    } else {
        Double { bits: INFINITY_BITS }
    }
}

/// A greater numerator does not round to a smaller integer.
proof fn lemma_round_order(a: nat, b: nat, q: nat)
    requires
        a <= b,
        q > 0,
    ensures
        round_half_even(a, q) <= round_half_even(b, q),
{
    lemma_fundamental_div_mod(a as int, q as int);
    lemma_fundamental_div_mod(b as int, q as int);
    let x = a / q;
    let y = b / q;
    if x > y {
        assert(q * x >= q * y + q) by (nonlinear_arith)
            requires
                x >= y + 1,
                q > 0,
        ;
    }
}

/// What lies between two integers rounds to one of them or between them.
proof fn lemma_round_bounds(p: nat, q: nat, low: nat, high: nat)
    requires
        q > 0,
        low * q <= p,
        p <= high * q,
    ensures
        low <= round_half_even(p, q) <= high,
{
    lemma_fundamental_div_mod(p as int, q as int);
    let whole = p / q;
    let rest = p % q;
    assert(q * whole == whole * q) by (nonlinear_arith);
    if whole < low {
        assert(low * q >= whole * q + q) by (nonlinear_arith)
            requires
                low >= whole + 1,
                q > 0,
        ;
    }
    if whole >= high {
        if whole > high {
            assert(whole * q >= high * q + q) by (nonlinear_arith)
                requires
                    whole >= high + 1,
                    q > 0,
            ;
        }
        assert(rest == 0);
    }
}

/// The bits beyond the 53 leading ones leave a full mantissa.
proof fn lemma_excess_bits(n: nat)
    ensures
        n < MANTISSA_END * pow2(excess_bits(n)),
        excess_bits(n) > 0 ==> MANTISSA_UNIT * pow2(excess_bits(n)) <= n,
    decreases n,
{
    lemma2_to64();
    if n >= MANTISSA_END {
        let half = n / 2;
        lemma_excess_bits(half);
        lemma_pow2_unfold(excess_bits(n));
        let unit = pow2(excess_bits(half));
        assert(pow2(excess_bits(n)) == 2 * unit);
        assert(MANTISSA_END * (2 * unit) == 2 * (MANTISSA_END * unit)) by (nonlinear_arith);
        assert(MANTISSA_UNIT * (2 * unit) == 2 * (MANTISSA_UNIT * unit)) by (nonlinear_arith);
        if excess_bits(half) == 0 {
            assert(unit == 1);
        }
    }
}

/// A greater integer has no fewer bits.
proof fn lemma_excess_order(a: nat, b: nat)
    requires
        a <= b,
    ensures
        excess_bits(a) <= excess_bits(b),
    decreases b,
{
    if a >= MANTISSA_END {
        lemma_excess_order(a / 2, b / 2);
    }
}

/// A greater integer does not round to a smaller double.
proof fn lemma_round_integer_order(a: nat, b: nat)
    requires
        a <= b,
    ensures
        round_integer(a) <= round_integer(b),
{
    lemma_excess_order(a, b);
    lemma_excess_bits(a);
    lemma_excess_bits(b);
    let x = pow2(excess_bits(a));
    let y = pow2(excess_bits(b));
    lemma_pow2_pos(excess_bits(a));
    lemma_pow2_pos(excess_bits(b));
    if excess_bits(a) == excess_bits(b) {
        lemma_round_order(a, b, x);
        let m = round_half_even(a, x);
        let n = round_half_even(b, x);
        assert(m * x <= n * x) by (nonlinear_arith)
            requires
                m <= n,
        ;
    } else {
        let d = (excess_bits(b) - excess_bits(a)) as nat;
        lemma_pow2_adds(excess_bits(a), d);
        lemma2_to64();
        if d > 1 {
            lemma_pow2_strictly_increases(1, d);
        }
        let z = pow2(d);
        lemma_round_bounds(a, x, 0, MANTISSA_END as nat);
        lemma_round_bounds(b, y, MANTISSA_UNIT as nat, MANTISSA_END as nat);
        let m = round_half_even(a, x);
        let n = round_half_even(b, y);
        assert(m * x <= n * y) by (nonlinear_arith)
            requires
                m <= 2 * MANTISSA_UNIT,
                n >= MANTISSA_UNIT,
                y == x * z,
                z >= 2,
        ;
    }
}

/// Two to the power `n` exceeds `n`.
proof fn lemma_pow2_exceeds(n: nat)
    ensures
        n < pow2(n),
    decreases n,
{
    lemma2_to64();
    if n > 0 {
        lemma_pow2_exceeds((n - 1) as nat);
        lemma_pow2_unfold(n);
    }
}

/// The bits of the double nearest to a ratio, by its binary exponent: a ratio has
/// no other.
pub proof fn law_ratio_bits_by_exponent(p: nat, q: nat, e: int)
    requires
        p > 0,
        q > 0,
        spans(p, q, e),
    ensures
        ratio_exponent(p, q) == e,
        ratio_bits(p, q) == {
            let bits = (e + 1075) * MANTISSA_UNIT + (ratio_mantissa(p, q, e) - MANTISSA_UNIT);
            if bits < INFINITY_BITS {
                bits
            } else {
                INFINITY_BITS as int
            }
        },
{
    lemma_exponent_unique(p, q, e, ratio_exponent(p, q));
}

/// The largest power of two whose `MANTISSA_UNIT`-fold `p / q` reaches, found by
/// going down from `k`.
proof fn lemma_find_exponent(p: nat, q: nat, k: nat) -> (j: nat)
    requires
        q > 0,
        MANTISSA_UNIT * q <= p,
        p < MANTISSA_END * (q * pow2(k)),
    ensures
        MANTISSA_UNIT * (q * pow2(j)) <= p < MANTISSA_END * (q * pow2(j)),
    decreases k,
{
    lemma2_to64();
    if MANTISSA_UNIT * (q * pow2(k)) <= p {
        k
    } else {
        if k == 0 {
            assert(q * pow2(0) == q);
        }
        lemma_pow2_unfold(k);
        let half = pow2((k - 1) as nat);
        assert(MANTISSA_UNIT * (q * (2 * half)) == MANTISSA_END * (q * half)) by (nonlinear_arith)
            requires
                MANTISSA_END == 2 * MANTISSA_UNIT,
        ;
        lemma_find_exponent(p, q, (k - 1) as nat)
    }
}

/// A positive ratio has a binary exponent.
proof fn lemma_exponent_exists(p: nat, q: nat)
    requires
        p > 0,
        q > 0,
    ensures
        spans(p, q, ratio_exponent(p, q)),
{
    let m = MANTISSA_UNIT as nat * q;
    lemma_pow2_exceeds(m);
    let scaled = p * pow2(m);
    assert(scaled >= pow2(m)) by (nonlinear_arith)
        requires
            scaled == p * pow2(m),
            p >= 1,
    ;
    lemma_pow2_exceeds(scaled);
    assert(MANTISSA_END * (q * pow2(scaled)) >= pow2(scaled)) by (nonlinear_arith)
        requires
            q >= 1,
            MANTISSA_END >= 1,
    ;
    let j = lemma_find_exponent(scaled, q, scaled);
    let e = j - m;
    lemma_spans_shifted(p, q, e, m);
    assert(spans(p, q, e));
}

/// The binary exponent of a positive ratio with a small denominator lies well
/// within the range of doubles from below, and its mantissa is full.
proof fn lemma_ratio_parts(p: nat, q: nat)
    requires
        p > 0,
        0 < q <= 1_000_000_000,
    ensures
        ratio_exponent(p, q) > -1075,
        MANTISSA_UNIT <= ratio_mantissa(p, q, ratio_exponent(p, q)) <= MANTISSA_END,
{
    lemma_exponent_exists(p, q);
    let e = ratio_exponent(p, q);
    if e >= 0 {
        let d = q * pow2(e as nat);
        lemma_pow2_pos(e as nat);
        assert(d > 0) by (nonlinear_arith)
            requires
                d == q * pow2(e as nat),
                q > 0,
                pow2(e as nat) > 0,
        ;
        lemma_round_bounds(p, d, MANTISSA_UNIT as nat, MANTISSA_END as nat);
    } else {
        let t = pow2((-e) as nat);
        lemma_round_bounds(p * t, q, MANTISSA_UNIT as nat, MANTISSA_END as nat);
        if e <= -1075 {
            lemma2_to64();
            lemma2_to64_rest();
            lemma_pow2_adds(64, 32);
            lemma_pow2_strictly_increases(96, (-e) as nat);
            assert(p * t >= t) by (nonlinear_arith)
                requires
                    p >= 1,
            ;
        }
    }
}

/// A greater ratio does not have a smaller binary exponent.
proof fn lemma_exponent_order(a: nat, b: nat, q: nat, e: int, f: int)
    requires
        a <= b,
        q > 0,
        spans(a, q, e),
        spans(b, q, f),
    ensures
        e <= f,
{
    if f < e {
        let m = if f < 0 {
            (-f) as nat
        } else {
            0
        };
        lemma_spans_shifted(a, q, e, m);
        lemma_spans_shifted(b, q, f, m);
        let x = pow2((f + m) as nat);
        let d = (e - f) as nat;
        lemma_pow2_pos((f + m) as nat);
        lemma_pow2_adds((f + m) as nat, d);
        lemma2_to64();
        if d > 1 {
            lemma_pow2_strictly_increases(1, d);
        }
        let z = pow2(d);
        let y = pow2((e + m) as nat);
        assert(MANTISSA_UNIT * (q * y) >= MANTISSA_END * (q * x)) by (nonlinear_arith)
            requires
                MANTISSA_END == 2 * MANTISSA_UNIT,
                y == x * z,
                z >= 2,
        ;
        assert(a * pow2(m) <= b * pow2(m)) by (nonlinear_arith)
            requires
                a <= b,
        ;
    }
}

/// A greater ratio does not round to a smaller double.
proof fn lemma_ratio_bits_order(a: nat, b: nat, q: nat)
    requires
        a <= b,
        0 < q <= 1_000_000_000,
    ensures
        0 <= ratio_bits(a, q) <= ratio_bits(b, q) <= INFINITY_BITS,
{
    if b > 0 {
        lemma_ratio_parts(b, q);
        let f = ratio_exponent(b, q);
        if a > 0 {
            lemma_ratio_parts(a, q);
            lemma_exponent_exists(a, q);
            lemma_exponent_exists(b, q);
            let e = ratio_exponent(a, q);
            lemma_exponent_order(a, b, q, e, f);
            if e == f {
                if e >= 0 {
                    lemma_pow2_pos(e as nat);
                    let d = q * pow2(e as nat);
                    assert(d > 0) by (nonlinear_arith)
                        requires
                            d == q * pow2(e as nat),
                            q > 0,
                            pow2(e as nat) > 0,
                    ;
                    lemma_round_order(a, b, d);
                } else {
                    let t = pow2((-e) as nat);
                    assert(a * t <= b * t) by (nonlinear_arith)
                        requires
                            a <= b,
                    ;
                    lemma_round_order(a * t, b * t, q);
                }
            }
        }
    }
}

/// What a greater number of units comes to, divided, is no smaller a double; and
/// it is a number.
pub(crate) proof fn lemma_quotient_order(a: nat, b: nat, q: nat)
    requires
        a <= b,
        0 < q <= 1_000_000_000,
    ensures
        0 <= ratio_bits(round_integer(a), q) <= ratio_bits(round_integer(b), q) <= INFINITY_BITS,
{
    lemma_round_integer_order(a, b);
    lemma_ratio_bits_order(round_integer(a), round_integer(b), q);
}

/// Of two doubles that are not negative the one with the greater bits is no
/// smaller.
pub(crate) proof fn lemma_bits_order(a: Double, b: Double)
    requires
        a.bits <= b.bits <= INFINITY_BITS,
    ensures
        !a.is_nan(),
        !b.is_nan(),
        a.value() <= b.value(),
{
    lemma_magnitude_order(a.bits as nat, b.bits as nat);
}

/// One double is above another as IEEE 754 orders them: neither is a NaN, and with
/// the sign read as a sign the bits compare as integers, the zeros being equal.
pub proof fn law_above_compares_bits(a: Double, b: Double)
    ensures
        a.above(b) <==> {
            &&& a.bits as int % 0x8000_0000_0000_0000 <= 0x7ff0_0000_0000_0000
            &&& b.bits as int % 0x8000_0000_0000_0000 <= 0x7ff0_0000_0000_0000
            &&& (if a.bits >= 0x8000_0000_0000_0000 {
                0x8000_0000_0000_0000 - a.bits
            } else {
                a.bits as int
            }) > (if b.bits >= 0x8000_0000_0000_0000 {
                0x8000_0000_0000_0000 - b.bits
            } else {
                b.bits as int
            })
        },
{
    let x = a.unsigned_bits();
    let y = b.unsigned_bits();
    lemma_magnitude_order(x, y);
    lemma_magnitude_order(y, x);
    lemma_magnitude_order(0, x);
    lemma_magnitude_order(0, y);
}

/// The sizes of neighbouring doubles differ by one unit up to the second binade,
/// and by twice as much from each binade to the next.
pub proof fn law_neighbouring_sizes(bits: nat)
    ensures
        magnitude(0) == 0,
        magnitude(bits + 1) - magnitude(bits) == (if bits < 0x20_0000_0000_0000 {
            1
        } else {
            pow2((bits / 0x10_0000_0000_0000 - 1) as nat) as int
        }),
{
    lemma2_to64();
    let unit = MANTISSA_UNIT as nat;
    let e = bits / unit;
    let f = bits % unit;
    if f + 1 < unit {
        assert((bits + 1) / unit == e && (bits + 1) % unit == f + 1) by {
            lemma_fundamental_div_mod(bits as int, unit as int);
            lemma_fundamental_div_mod_converse(
                (bits + 1) as int,
                unit as int,
                e as int,
                (f + 1) as int,
            );
        }
        if e > 0 {
            let p = pow2((e - 1) as nat);
            assert((unit + f + 1) * p - (unit + f) * p == p) by (nonlinear_arith);
        }
    } else {
        assert((bits + 1) / unit == e + 1 && (bits + 1) % unit == 0) by {
            lemma_fundamental_div_mod(bits as int, unit as int);
            assert(unit * (e + 1) == unit * e + unit) by (nonlinear_arith);
            lemma_fundamental_div_mod_converse((bits + 1) as int, unit as int, (e + 1) as int, 0);
        }
        if e > 0 {
            let p = pow2((e - 1) as nat);
            lemma_pow2_unfold(e);
            assert(unit * (2 * p) - (unit + f) * p == p) by (nonlinear_arith)
                requires
                    f + 1 == unit,
            ;
        }
    }
}

/// A rounded quotient is within a half of the quotient, and even in a tie.
proof fn lemma_round_distance(p: nat, q: nat)
    requires
        q > 0,
    ensures
        -(q as int) <= 2 * (round_half_even(p, q) * q - p) <= q,
        2 * (round_half_even(p, q) * q - p) == q || 2 * (p - round_half_even(p, q) * q) == q
            ==> round_half_even(p, q) % 2 == 0,
{
    lemma_fundamental_div_mod(p as int, q as int);
    let whole = p / q;
    assert(q * whole == whole * q) by (nonlinear_arith);
    assert((whole + 1) * q == whole * q + q) by (nonlinear_arith);
}

/// An even multiple is a multiple of twice the unit.
proof fn lemma_even_multiple(k: nat, unit: nat)
    requires
        unit > 0,
    ensures
        (k * unit) % unit == 0,
        k % 2 == 0 ==> (k * unit) % (2 * unit) == 0,
{
    assert(k * unit == unit * k) by (nonlinear_arith);
    lemma_fundamental_div_mod_converse((k * unit) as int, unit as int, k as int, 0);
    if k % 2 == 0 {
        let h = k / 2;
        assert(k * unit == (2 * unit) * h) by (nonlinear_arith)
            requires
                k == 2 * h,
        ;
        lemma_fundamental_div_mod_converse((k * unit) as int, (2 * unit) as int, h as int, 0);
    }
}

/// An integer becomes the nearest one with 53 significant bits: one of up to 53
/// bits stays, and of a larger one the nearest multiple of the unit in its 53rd bit
/// is taken, the even one in a tie.
pub proof fn law_integers_round_to_nearest(n: nat, x: nat)
    requires
        pow2(52 + x) <= n < pow2(53 + x) || (x == 0 && n < pow2(53)),
    ensures
        x == 0 ==> round_integer(n) == n,
        round_integer(n) % pow2(x) == 0,
        2 * (round_integer(n) - n) <= pow2(x),
        2 * (n - round_integer(n)) <= pow2(x),
        2 * (round_integer(n) - n) == pow2(x) || 2 * (n - round_integer(n)) == pow2(x) ==> x == 0
            || round_integer(n) % (2 * pow2(x)) == 0,
{
    lemma2_to64();
    lemma2_to64_rest();
    lemma_pow2_adds(52, x);
    lemma_pow2_adds(53, x);
    lemma_pow2_pos(x);
    lemma_excess_bits(n);
    let y = excess_bits(n);
    lemma_pow2_pos(y);
    let u = pow2(x);
    let v = pow2(y);
    if y != x {
        lemma_pow2_adds(
            if x < y {
                x
            } else {
                y
            },
            if x < y {
                (y - x) as nat
            } else {
                (x - y) as nat
            },
        );
        let d = if x < y {
            (y - x) as nat
        } else {
            (x - y) as nat
        };
        if d > 1 {
            lemma_pow2_strictly_increases(1, d);
        }
        let z = pow2(d);
        if x < y {
            assert(MANTISSA_UNIT * v >= MANTISSA_END * u) by (nonlinear_arith)
                requires
                    v == u * z,
                    z >= 2,
                    MANTISSA_END == 2 * MANTISSA_UNIT,
            ;
        } else {
            assert(MANTISSA_UNIT * u >= MANTISSA_END * v) by (nonlinear_arith)
                requires
                    u == v * z,
                    z >= 2,
                    MANTISSA_END == 2 * MANTISSA_UNIT,
            ;
        }
    }
    assert(x == y);
    lemma_round_distance(n, u);
    lemma_even_multiple(round_half_even(n, u), u);
    if x == 0 {
        assert(u == 1);
        assert(n / 1 == n && n % 1 == 0);
    }
}

/// A mantissa at an exponent has the size of the mantissa in units of that exponent.
proof fn lemma_size_of_parts(m: nat, t: nat)
    requires
        MANTISSA_UNIT <= m <= MANTISSA_END,
    ensures
        magnitude(((t + 1) * MANTISSA_UNIT + (m - MANTISSA_UNIT)) as nat) == m * pow2(t),
{
    let unit = MANTISSA_UNIT as nat;
    let bits = ((t + 1) * MANTISSA_UNIT + (m - MANTISSA_UNIT)) as nat;
    assert((t + 1) * unit == unit * (t + 1)) by (nonlinear_arith);
    if m < MANTISSA_END {
        lemma_fundamental_div_mod_converse(bits as int, unit as int, (t + 1) as int, m - unit);
    } else {
        assert((t + 1) * unit + unit == unit * (t + 2)) by (nonlinear_arith);
        lemma_fundamental_div_mod_converse(bits as int, unit as int, (t + 2) as int, 0);
        lemma_pow2_unfold(t + 1);
        assert(unit * (2 * pow2(t)) == m * pow2(t)) by (nonlinear_arith)
            requires
                m == 2 * unit,
        ;
    }
}

/// The mantissa of a ratio, in units of the smallest double.
proof fn lemma_same_rounding(p: nat, q: nat, t: nat)
    requires
        q > 0,
    ensures
        ratio_mantissa(p, q, t - 1074) == round_half_even(p * pow2(1074), q * pow2(t)),
{
    let e = t - 1074;
    let b = q * pow2(t);
    lemma_pow2_pos(t);
    lemma_pow2_pos(1074);
    assert(b > 0) by (nonlinear_arith)
        requires
            b == q * pow2(t),
            q > 0,
            pow2(t) > 0,
    ;
    if e >= 0 {
        lemma_pow2_pos(e as nat);
        lemma_pow2_adds(e as nat, 1074);
        let d = q * pow2(e as nat);
        assert(d > 0) by (nonlinear_arith)
            requires
                d == q * pow2(e as nat),
                q > 0,
                pow2(e as nat) > 0,
        ;
        assert(b * 1 == d * pow2(1074)) by (nonlinear_arith)
            requires
                b == q * pow2(t),
                d == q * pow2(e as nat),
                pow2(t) == pow2(e as nat) * pow2(1074),
        ;
        lemma_same_ratio(p * pow2(1074), b, p, d, 1, pow2(1074), 0, 0);
    } else {
        lemma_pow2_pos((-e) as nat);
        lemma_pow2_adds((-e) as nat, t);
        let u = pow2(t);
        assert((p * pow2(1074)) * 1 == (p * pow2((-e) as nat)) * u) by (nonlinear_arith)
            requires
                pow2(1074) == pow2((-e) as nat) * u,
        ;
        lemma_same_ratio(p * pow2(1074), b, p * pow2((-e) as nat), q, 1, u, 0, 0);
    }
}

/// Nothing, divided, is zero, and its bits are all zero.
pub proof fn law_zero_stays_zero(q: nat)
    ensures
        ratio_bits(0, q) == 0,
        round_integer(0) == 0,
{
    lemma2_to64_rest();
    law_integers_round_to_nearest(0, 0);
}

/// A quotient becomes the nearest double: its size is the nearest multiple of the
/// unit in the 53rd bit of the quotient, the even one in a tie; beyond the doubles
/// it is infinity. Sizes count units of the smallest double, two to the power -1074.
pub proof fn law_quotients_round_to_nearest(p: nat, q: nat, t: nat)
    requires
        q > 0,
        pow2(52) * (q * pow2(t)) <= p * pow2(1074) < pow2(53) * (q * pow2(t)),
    ensures
        t >= 2046 ==> ratio_bits(p, q) == 0x7ff0_0000_0000_0000,
        ratio_bits(p, q) < 0x7ff0_0000_0000_0000 ==> {
            let size = magnitude(ratio_bits(p, q) as nat);
            &&& ratio_bits(p, q) >= 0
            &&& size % pow2(t) == 0
            &&& 2 * (size * q - p * pow2(1074)) <= q * pow2(t)
            &&& 2 * (p * pow2(1074) - size * q) <= q * pow2(t)
            &&& 2 * (size * q - p * pow2(1074)) == q * pow2(t) || 2 * (p * pow2(1074) - size * q)
                == q * pow2(t) ==> size % (2 * pow2(t)) == 0
        },
{
    lemma2_to64();
    lemma2_to64_rest();
    lemma_pow2_pos(t);
    let e = t - 1074;
    let scaled = p * pow2(1074);
    let u = pow2(t);
    assert(q * u > 0) by (nonlinear_arith)
        requires
            q > 0,
            u > 0,
    ;
    assert(p > 0) by {
        if p == 0 {
            assert(scaled == 0) by (nonlinear_arith)
                requires
                    scaled == p * pow2(1074),
                    p == 0,
            ;
        }
    }
    lemma_spans_shifted(p, q, e, 1074);
    law_ratio_bits_by_exponent(p, q, e);
    let m = ratio_mantissa(p, q, e);
    lemma_round_bounds(
        scaled,
        q * u,
        MANTISSA_UNIT as nat,
        MANTISSA_END as nat,
    );
    lemma_round_distance(scaled, q * u);
    lemma_same_rounding(p, q, t);
    assert(m == round_half_even(scaled, q * u));
    lemma_size_of_parts(m, t);
    lemma_even_multiple(m, u);
    let size = m * u;
    assert(m * (q * u) == size * q) by (nonlinear_arith)
        requires
            size == m * u,
    ;
}

} // verus!
