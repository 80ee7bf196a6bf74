use std::cmp::Ordering;
use vstd::arithmetic::power2::{
    lemma2_to64,
    lemma2_to64_rest,
    lemma_pow2_adds,
    lemma_pow2_pos,
    lemma_pow2_strictly_increases,
    lemma_pow2_unfold,
    pow2,
};
use vstd::prelude::*;

verus! {

/// Smallest exponent of a decoded `f64` (zero and the subnormals).
pub const MIN_EXPONENT: i16 = -1075;

/// Largest exponent of a decoded finite `f64`; NaN and the infinities decode above it.
pub const MAX_FINITE_EXPONENT: i16 = 971;

/// The implicit leading bit of a normal `f64` mantissa, 2^52.
pub const HIDDEN_BIT: u64 = 0x10_0000_0000_0000;

/// One past the largest decoded mantissa, 2^53.
pub const MANTISSA_LIMIT: u64 = 0x20_0000_0000_0000;

/// A floating-point coordinate, held as its exact decomposition
/// `sign * mantissa * 2^exponent` (the triple that `integer_decode` yields).
/// Two coordinates are the same key exactly when the three parts agree.
#[derive(Clone, Copy, Debug, PartialEq, Eq, Structural, Hash)]
pub struct Coord {
    pub mantissa: u64,
    pub exponent: i16,
    pub sign: i8,
}

/// Whether the triple is the decomposition of a finite `f64`
/// (so neither NaN nor an infinity).
pub open spec fn is_f64_decoding(mantissa: u64, exponent: i16, sign: i8) -> bool {
    &&& sign == 1 || sign == -1
    &&& MIN_EXPONENT <= exponent <= MAX_FINITE_EXPONENT
    &&& mantissa < MANTISSA_LIMIT
    &&& if exponent == MIN_EXPONENT {
        mantissa % 2 == 0
    } else {
        mantissa >= HIDDEN_BIT
    }
}

/// `|c| / 2^base`, an integer whenever `base <= c.exponent`.
pub open spec fn magnitude(c: Coord, base: int) -> int {
    c.mantissa * pow2((c.exponent - base) as nat)
}

/// `c / 2^base`, an integer whenever `base <= c.exponent`.
pub open spec fn scaled(c: Coord, base: int) -> int {
    if c.sign < 0 {
        -magnitude(c, base)
    } else {
        magnitude(c, base)
    }
}

pub open spec fn min_int(a: int, b: int) -> int {
    if a <= b {
        a
    } else {
        b
    }
}

pub open spec fn cmp_int(a: int, b: int) -> Ordering {
    if a < b {
        Ordering::Less
    } else if a > b {
        Ordering::Greater
    } else {
        Ordering::Equal
    }
}

/// How the exact values of two coordinates compare: both are scaled to the
/// smaller of their exponents, where they are integers.
pub open spec fn value_cmp(a: Coord, b: Coord) -> Ordering {
    let base = min_int(a.exponent as int, b.exponent as int);
    cmp_int(scaled(a, base), scaled(b, base))
}

pub open spec fn flip(o: Ordering) -> Ordering {
    match o {
        Ordering::Less => Ordering::Greater,
        Ordering::Greater => Ordering::Less,
        Ordering::Equal => Ordering::Equal,
    }
}

proof fn lemma_magnitude_sign(c: Coord, base: int)
    requires
        base <= c.exponent,
    ensures
        magnitude(c, base) >= 0,
        magnitude(c, base) == 0 <==> c.mantissa == 0,
{
    let p = pow2((c.exponent - base) as nat);
    lemma_pow2_pos((c.exponent - base) as nat);
    let m = c.mantissa as int;
    assert(m * p >= 0) by (nonlinear_arith)
        requires
            m >= 0,
            p > 0,
    ;
    assert(m * p == 0 <==> m == 0) by (nonlinear_arith)
        requires
            m >= 0,
            p > 0,
    ;
}

/// Scaling to a lower base multiplies by the power of two in between.
proof fn lemma_rebase(c: Coord, hi: int, lo: int)
    requires
        lo <= hi <= c.exponent,
    ensures
        scaled(c, lo) == scaled(c, hi) * pow2((hi - lo) as nat),
{
    let a = (c.exponent - hi) as nat;
    let b = (hi - lo) as nat;
    lemma_pow2_adds(a, b);
    assert((c.exponent - lo) as nat == a + b);
    let m = c.mantissa as int;
    let pa = pow2(a) as int;
    let pb = pow2(b) as int;
    assert(m * (pa * pb) == (m * pa) * pb) by (nonlinear_arith);
    assert(-(m * (pa * pb)) == (-(m * pa)) * pb) by (nonlinear_arith);
}

/// Comparing at any common base below both exponents gives `value_cmp`.
pub proof fn lemma_value_cmp_at(a: Coord, b: Coord, base: int)
    requires
        base <= a.exponent,
        base <= b.exponent,
    ensures
        value_cmp(a, b) == cmp_int(scaled(a, base), scaled(b, base)),
{
    let m = min_int(a.exponent as int, b.exponent as int);
    lemma_rebase(a, m, base);
    lemma_rebase(b, m, base);
    let p = pow2((m - base) as nat) as int;
    lemma_pow2_pos((m - base) as nat);
    let x = scaled(a, m);
    let y = scaled(b, m);
    assert(x < y ==> x * p < y * p) by (nonlinear_arith)
        requires
            p > 0,
    ;
    assert(x > y ==> x * p > y * p) by (nonlinear_arith)
        requires
            p > 0,
    ;
}

/// `value_cmp` orders coordinates by value: it is transitive.
pub proof fn lemma_value_cmp_trans(a: Coord, b: Coord, c: Coord)
    ensures
        value_cmp(a, b) != Ordering::Greater && value_cmp(b, c) != Ordering::Greater
            ==> value_cmp(a, c) != Ordering::Greater,
        value_cmp(a, b) == Ordering::Less && value_cmp(b, c) != Ordering::Greater
            ==> value_cmp(a, c) == Ordering::Less,
        value_cmp(a, b) != Ordering::Greater && value_cmp(b, c) == Ordering::Less
            ==> value_cmp(a, c) == Ordering::Less,
        value_cmp(a, b) == Ordering::Equal && value_cmp(b, c) == Ordering::Equal
            ==> value_cmp(a, c) == Ordering::Equal,
{
    let base = min_int(min_int(a.exponent as int, b.exponent as int), c.exponent as int);
    lemma_value_cmp_at(a, b, base);
    lemma_value_cmp_at(b, c, base);
    lemma_value_cmp_at(a, c, base);
}

/// Compares `m * 2^d` with `n`.
fn cmp_shifted(m: u64, d: u32, n: u64) -> (r: Ordering)
    ensures
        r == cmp_int(m * pow2(d as nat), n as int),
{
    let ghost p = pow2(d as nat) as int;
    proof {
        lemma_pow2_pos(d as nat);
    }
    if m == 0 {
        assert(m * p == 0);
        if n == 0 {
            Ordering::Equal
        } else {
            Ordering::Less
        }
    } else if d >= 64 {
        proof {
            lemma2_to64();
            if d > 64 {
                lemma_pow2_strictly_increases(64, d as nat);
            }
            assert(m * p >= p) by (nonlinear_arith)
                requires
                    m >= 1,
                    p > 0,
            ;
        }
        Ordering::Greater
    } else {
        let mut q: u128 = 1;
        let mut i: u32 = 0;
        proof {
            lemma2_to64();
            lemma2_to64_rest();
        }
        while i < d
            invariant
                i <= d,
                d < 64,
                q as int == pow2(i as nat),
                pow2(64) == 0x1_0000_0000_0000_0000,
            decreases d - i,
        {
            proof {
                lemma_pow2_strictly_increases(i as nat, 64);
                lemma_pow2_unfold((i + 1) as nat);
            }
            q = q * 2;
            i = i + 1;
        }
        proof {
            lemma_pow2_strictly_increases(d as nat, 64);
            assert((m as int) * (q as int) < 0x1_0000_0000_0000_0000_0000_0000_0000_0000)
                by (nonlinear_arith)
                requires
                    m < 0x1_0000_0000_0000_0000,
                    q < 0x1_0000_0000_0000_0000,
            ;
        }
        let lhs: u128 = (m as u128) * q;
        let rhs: u128 = n as u128;
        if lhs < rhs {
            Ordering::Less
        } else if lhs > rhs {
            Ordering::Greater
        } else {
            Ordering::Equal
        }
    }
}

/// Compares `|a|` with `|b|`.
fn cmp_magnitude(a: &Coord, b: &Coord) -> (r: Ordering)
    ensures
        r == cmp_int(
            magnitude(*a, min_int(a.exponent as int, b.exponent as int)),
            magnitude(*b, min_int(a.exponent as int, b.exponent as int)),
        ),
{
    if a.exponent >= b.exponent {
        let d: u32 = (a.exponent as i32 - b.exponent as i32) as u32;
        proof {
            lemma2_to64();
            let base = min_int(a.exponent as int, b.exponent as int);
            assert(base == b.exponent);
            assert(d as nat == (a.exponent - base) as nat);
            assert(magnitude(*b, base) == b.mantissa * pow2(0));
            let one = pow2(0) as int;
            assert(one == 1);
            assert(b.mantissa * one == b.mantissa) by (nonlinear_arith)
                requires
                    one == 1,
            ;
        }
        cmp_shifted(a.mantissa, d, b.mantissa)
    } else {
        let d: u32 = (b.exponent as i32 - a.exponent as i32) as u32;
        proof {
            lemma2_to64();
            let base = min_int(a.exponent as int, b.exponent as int);
            assert(base == a.exponent);
            assert(d as nat == (b.exponent - base) as nat);
            assert(magnitude(*a, base) == a.mantissa * pow2(0));
            let one = pow2(0) as int;
            assert(one == 1);
            assert(a.mantissa * one == a.mantissa) by (nonlinear_arith)
                requires
                    one == 1,
            ;
        }
        match cmp_shifted(b.mantissa, d, a.mantissa) {
            Ordering::Less => Ordering::Greater,
            Ordering::Greater => Ordering::Less,
            Ordering::Equal => Ordering::Equal,
        }
    }
}

impl Coord {
    /// Builds a coordinate from the decomposition of an `f64`; `None` when the
    /// triple is not that of a finite `f64` (NaN and the infinities among them).
    pub fn from_decoded(mantissa: u64, exponent: i16, sign: i8) -> (r: Option<Coord>)
        ensures
            r is Some <==> is_f64_decoding(mantissa, exponent, sign),
            r matches Some(c) ==> c == (Coord { mantissa, exponent, sign }),
    {
        if sign != 1 && sign != -1 {
            return None;
        }
        if exponent < MIN_EXPONENT || exponent > MAX_FINITE_EXPONENT {
            return None;
        }
        if mantissa >= MANTISSA_LIMIT {
            return None;
        }
        if exponent == MIN_EXPONENT {
            if mantissa % 2 != 0 {
                return None;
            }
        } else if mantissa < HIDDEN_BIT {
            return None;
        }
        Some(Coord { mantissa, exponent, sign })
    }

    /// Compares the exact values of two coordinates. `+0` and `-0` compare equal.
    pub fn value_cmp(&self, other: &Coord) -> (r: Ordering)
        ensures
            r == value_cmp(*self, *other),
    {
        let ghost base = min_int(self.exponent as int, other.exponent as int);
        proof {
            lemma_magnitude_sign(*self, base);
            lemma_magnitude_sign(*other, base);
        }
        if self.mantissa == 0 && other.mantissa == 0 {
            Ordering::Equal
        } else if self.sign < 0 && other.sign >= 0 {
            Ordering::Less
        } else if self.sign >= 0 && other.sign < 0 {
            Ordering::Greater
        } else if self.sign >= 0 {
            cmp_magnitude(self, other)
        } else {
            match cmp_magnitude(self, other) {
                Ordering::Less => Ordering::Greater,
                Ordering::Greater => Ordering::Less,
                Ordering::Equal => Ordering::Equal,
            }
        }
    }
}

} // verus!
