//! Fixed-point scalars with nine decimal places and saturating arithmetic.
use vstd::prelude::*;

verus! {

/// The raw value that stands for the number one.
pub const SCALE: i64 = 1_000_000_000;

/// The nearest raw value that a scalar can hold.
pub open spec fn clamp(x: int) -> int {
    if x < i64::MIN {
        i64::MIN as int
    } else if x > i64::MAX {
        i64::MAX as int
    } else {
        x
    }
}

/// The distance of `x` from zero.
pub open spec fn magnitude(x: int) -> int {
    if x < 0 {
        -x
    } else {
        x
    }
}

/// The quotient of `a` by a nonzero `b`, rounded toward zero.
pub open spec fn quotient(a: int, b: int) -> int {
    if (a < 0) == (b < 0) {
        magnitude(a) / magnitude(b)
    } else {
        -(magnitude(a) / magnitude(b))
    }
}

/// Zero divided by anything is zero.
pub proof fn lemma_quotient_zero(b: int)
    requires
        b != 0,
    ensures
        quotient(0, b) == 0,
{
    assert(0int / magnitude(b) == 0) by (nonlinear_arith)
        requires
            magnitude(b) > 0,
    ;
}

/// Negating the dividend negates the quotient.
pub proof fn lemma_quotient_negate(a: int, b: int)
    requires
        b != 0,
    ensures
        quotient(-a, b) == -quotient(a, b),
{
    if a == 0 {
        lemma_quotient_zero(b);
    }
}

/// A quotient of natural numbers lies between zero and the dividend, and
/// the divisor fits into the dividend that many times and no more.
pub proof fn lemma_quotient_bracket(a: int, b: int)
    requires
        a >= 0,
        b > 0,
    ensures
        0 <= quotient(a, b) <= a,
        quotient(a, b) * b <= a < (quotient(a, b) + 1) * b,
{
    let q = a / b;
    assert(0 <= q <= a && q * b <= a < (q + 1) * b) by (nonlinear_arith)
        requires
            a >= 0,
            b > 0,
            q == a / b,
    ;
}

/// A quotient takes its sign from the dividend and the divisor.
pub proof fn lemma_quotient_sign(a: int, b: int)
    requires
        b != 0,
    ensures
        (a >= 0) == (b > 0) ==> quotient(a, b) >= 0,
        (a <= 0) == (b > 0) ==> quotient(a, b) <= 0,
        a == 0 ==> quotient(a, b) == 0,
{
    lemma_quotient_bracket(magnitude(a), magnitude(b));
    if a == 0 {
        lemma_quotient_zero(b);
    }
}

/// A multiple of the divisor is divided without rounding.
pub proof fn lemma_quotient_exact(n: int, b: int)
    requires
        b != 0,
    ensures
        quotient(n * b, b) == n,
{
    let m = magnitude(b);
    let k = magnitude(n);
    assert(magnitude(n * b) == k * m) by (nonlinear_arith)
        requires
            m == magnitude(b),
            k == magnitude(n),
    ;
    assert((k * m) / m == k) by (nonlinear_arith)
        requires
            m > 0,
            k >= 0,
    ;
    assert((n * b < 0) == (n != 0 && ((n < 0) != (b < 0)))) by (nonlinear_arith)
        requires
            b != 0,
    ;
}

/// Whether `r` is the square root of `n`, rounded down.
pub open spec fn is_floor_sqrt(n: int, r: int) -> bool {
    0 <= r && r * r <= n && n < (r + 1) * (r + 1)
}

/// The square root of a natural number, rounded down.
pub open spec fn floor_sqrt(n: int) -> int {
    choose|r: int| is_floor_sqrt(n, r)
}

/// Squaring keeps the order of natural numbers.
pub proof fn lemma_square_monotone(a: int, b: int)
    requires
        0 <= a <= b,
    ensures
        a * a <= b * b,
{
    assert(a * a <= b * b) by (nonlinear_arith)
        requires
            0 <= a <= b,
    ;
}

/// A natural number has at most one rounded-down square root.
pub proof fn lemma_floor_sqrt_unique(n: int, r: int)
    requires
        is_floor_sqrt(n, r),
    ensures
        floor_sqrt(n) == r,
{
    let s = floor_sqrt(n);
    assert(is_floor_sqrt(n, s));
    if s < r {
        lemma_square_monotone(s + 1, r);
    } else if r < s {
        lemma_square_monotone(r + 1, s);
    }
}

/// Every natural number has a square root, rounded down.
pub proof fn lemma_floor_sqrt_exists(n: int)
    requires
        n >= 0,
    ensures
        is_floor_sqrt(n, floor_sqrt(n)),
    decreases n,
{
    if n == 0 {
        assert(is_floor_sqrt(0, 0));
    } else {
        lemma_floor_sqrt_exists(n - 1);
        let r = floor_sqrt(n - 1);
        assert(r * r <= n - 1 < (r + 1) * (r + 1));
        if n < (r + 1) * (r + 1) {
            assert(is_floor_sqrt(n, r));
        } else {
            assert((r + 2) * (r + 2) > (r + 1) * (r + 1)) by (nonlinear_arith)
                requires
                    r >= 0,
            ;
            assert(is_floor_sqrt(n, r + 1));
        }
    }
}

/// Computes the square root of `n`, rounded down, by bisection.
pub fn isqrt(n: u128) -> (r: u64)
    ensures
        is_floor_sqrt(n as int, r as int),
        r as int == floor_sqrt(n as int),
{
    let mut lo: u128 = 0;
    let mut hi: u128 = 0x1_0000_0000_0000_0000;
    assert(0x1_0000_0000_0000_0000int * 0x1_0000_0000_0000_0000int > u128::MAX);
    while hi - lo > 1
        invariant
            lo < hi <= 0x1_0000_0000_0000_0000,
            lo * lo <= n,
            n < hi * hi,
        decreases hi - lo,
    {
        let mid: u128 = lo + (hi - lo) / 2;
        proof {
            lemma_square_monotone(mid as int, 0xffff_ffff_ffff_ffff);
            assert(0xffff_ffff_ffff_ffffint * 0xffff_ffff_ffff_ffffint <= u128::MAX);
        }
        if mid * mid <= n {
            lo = mid;
        } else {
            hi = mid;
        }
    }
    proof {
        lemma_floor_sqrt_unique(n as int, lo as int);
    }
    lo as u64
}

/// A number with nine decimal places, held as a count of billionths.
#[derive(Clone, Copy, PartialEq, Eq, Debug, Structural)]
pub struct Fixed {
    pub raw: i64,
}

/// Brings a wide intermediate result back into the range of a scalar.
pub fn saturate(x: i128) -> (r: i64)
    ensures
        r == clamp(x as int),
{
    if x < i64::MIN as i128 {
        i64::MIN
    } else if x > i64::MAX as i128 {
        i64::MAX
    } else {
        x as i64
    }
}

/// Divides `a` by a nonzero `b`, rounding toward zero.
pub fn divide(a: i128, b: i128) -> (r: i128)
    requires
        b != 0,
        a > i128::MIN,
        b > i128::MIN,
    ensures
        r == quotient(a as int, b as int),
{
    let ma: i128 = if a < 0 {
        -a
    } else {
        a
    };
    let mb: i128 = if b < 0 {
        -b
    } else {
        b
    };
    let q: i128 = ma / mb;
    assert(0 <= q <= ma) by (nonlinear_arith)
        requires
            q == ma / mb,
            ma >= 0,
            mb > 0,
    ;
    if (a < 0) == (b < 0) {
        q
    } else {
        -q
    }
}

impl Fixed {
    /// The scalar with the given raw value.
    pub fn from_raw(raw: i64) -> (r: Fixed)
        ensures
            r.raw == raw,
    {
        Fixed { raw }
    }

    /// The scalar that stands for a whole number.
    pub fn from_int(n: i32) -> (r: Fixed)
        ensures
            r.raw == n * SCALE,
    {
        Fixed { raw: (n as i64) * SCALE }
    }

    /// The scalar zero.
    pub open spec fn spec_zero() -> Fixed {
        Fixed { raw: 0 }
    }

    /// The scalar zero.
    #[verifier::when_used_as_spec(spec_zero)]
    pub fn zero() -> (r: Fixed)
        ensures
            r == Fixed::spec_zero(),
    {
        Fixed { raw: 0 }
    }

    /// The scalar one.
    pub open spec fn spec_one() -> Fixed {
        Fixed { raw: SCALE }
    }

    /// The scalar one.
    #[verifier::when_used_as_spec(spec_one)]
    pub fn one() -> (r: Fixed)
        ensures
            r == Fixed::spec_one(),
    {
        Fixed { raw: SCALE }
    }

    /// Whether this scalar is zero.
    pub fn is_zero(self) -> (r: bool)
        ensures
            r == (self.raw == 0),
    {
        self.raw == 0
    }

    /// The sum, held at the nearest bound where it leaves the range.
    pub open spec fn spec_plus(self, rhs: Fixed) -> Fixed {
        Fixed { raw: clamp(self.raw + rhs.raw) as i64 }
    }

    /// Adds two scalars; a sum out of range becomes the nearest bound.
    #[verifier::when_used_as_spec(spec_plus)]
    pub fn plus(self, rhs: Fixed) -> (r: Fixed)
        ensures
            r == self.spec_plus(rhs),
    {
        Fixed { raw: saturate(self.raw as i128 + rhs.raw as i128) }
    }

    /// The difference, held at the nearest bound where it leaves the range.
    pub open spec fn spec_minus(self, rhs: Fixed) -> Fixed {
        Fixed { raw: clamp(self.raw - rhs.raw) as i64 }
    }

    /// Subtracts `rhs`; a difference out of range becomes the nearest bound.
    #[verifier::when_used_as_spec(spec_minus)]
    pub fn minus(self, rhs: Fixed) -> (r: Fixed)
        ensures
            r == self.spec_minus(rhs),
    {
        Fixed { raw: saturate(self.raw as i128 - rhs.raw as i128) }
    }

    /// The product, rounded toward zero and held within the range.
    pub open spec fn spec_times(self, rhs: Fixed) -> Fixed {
        Fixed { raw: clamp(quotient(self.raw * rhs.raw, SCALE as int)) as i64 }
    }

    /// Multiplies two scalars, rounding toward zero; a product out of range
    /// becomes the nearest bound.
    #[verifier::when_used_as_spec(spec_times)]
    pub fn times(self, rhs: Fixed) -> (r: Fixed)
        ensures
            r == self.spec_times(rhs),
    {
        let a: i128 = self.raw as i128;
        let b: i128 = rhs.raw as i128;
        assert(-0x4000_0000_0000_0000_0000_0000_0000_0000 <= a * b
            <= 0x4000_0000_0000_0000_0000_0000_0000_0000) by (nonlinear_arith)
            requires
                -0x8000_0000_0000_0000 <= a <= 0x8000_0000_0000_0000,
                -0x8000_0000_0000_0000 <= b <= 0x8000_0000_0000_0000,
        ;
        let p: i128 = a * b;
        Fixed { raw: saturate(divide(p, SCALE as i128)) }
    }

    /// The quotient by a nonzero scalar, rounded toward zero and held within
    /// the range.
    pub open spec fn spec_over(self, rhs: Fixed) -> Fixed {
        Fixed { raw: clamp(quotient(self.raw * SCALE, rhs.raw as int)) as i64 }
    }

    /// Divides by a nonzero scalar, rounding toward zero; a quotient out of
    /// range becomes the nearest bound.
    #[verifier::when_used_as_spec(spec_over)]
    pub fn over(self, rhs: Fixed) -> (r: Fixed)
        requires
            rhs.raw != 0,
        ensures
            r == self.spec_over(rhs),
    {
        let a: i128 = self.raw as i128;
        let b: i128 = rhs.raw as i128;
        assert(-0x4000_0000_0000_0000_0000_0000_0000_0000 <= a * (SCALE as i128)
            <= 0x4000_0000_0000_0000_0000_0000_0000_0000) by (nonlinear_arith)
            requires
                -0x8000_0000_0000_0000 <= a <= 0x8000_0000_0000_0000,
                SCALE == 1_000_000_000,
        ;
        let p: i128 = a * (SCALE as i128);
        Fixed { raw: saturate(divide(p, b)) }
    }

    /// Divides by `rhs`, or gives `None` where `rhs` is zero.
    pub fn checked_over(self, rhs: Fixed) -> (r: Option<Fixed>)
        ensures
            rhs.raw == 0 ==> r.is_none(),
            rhs.raw != 0 ==> r == Some(self.spec_over(rhs)),
    {
        if rhs.raw == 0 {
            None
        } else {
            Some(self.over(rhs))
        }
    }
}

} // verus!
