//! Decimal fixed-point numbers with nine fractional digits.
//!
//! A [`Fixed`] stands for the real number `raw / 10^9`. Sums and differences are
//! exact; products, quotients and square roots are rounded down to the next
//! representable number. Every operation reports a result that does not fit
//! as `None` instead of wrapping.
use vstd::prelude::*;

verus! {

/// Raw units in one: the step between neighbouring numbers is `1 / SCALE`.
pub const SCALE: i64 = 1_000_000_000;

/// A real number held as a count of steps of `10^-9`.
#[derive(Clone, Copy, Debug, PartialEq, Eq, Structural)]
pub struct Fixed {
    pub raw: i64,
}

impl View for Fixed {
    type V = real;

    open spec fn view(&self) -> real {
        self.raw as real / 1_000_000_000real
    }
}

/// The distance between neighbouring representable numbers.
pub open spec fn step() -> real {
    1real / 1_000_000_000real
}

/// The number of whole steps below or at `x`.
pub open spec fn steps_below(x: real) -> int {
    (x * 1_000_000_000real).floor()
}

/// The largest multiple of the step that does not exceed `x`.
pub open spec fn round_down(x: real) -> real {
    steps_below(x) as real / 1_000_000_000real
}

/// Whether `x` lies within the span that a `Fixed` covers.
pub open spec fn in_range(x: real) -> bool {
    i64::MIN as real <= x * 1_000_000_000real <= i64::MAX as real
}

/// `x` where it is in range, nothing otherwise.
pub open spec fn kept(x: real) -> Option<real> {
    if in_range(x) {
        Some(x)
    } else {
        None
    }
}

/// The value that an optional number stands for.
pub open spec fn value(x: Option<Fixed>) -> Option<real> {
    match x {
        Some(v) => Some(v@),
        None => None,
    }
}

/// Checked sum: exact where it is in range.
pub open spec fn fx_add(x: Option<real>, y: Option<real>) -> Option<real> {
    match (x, y) {
        (Some(a), Some(b)) => kept(a + b),
        _ => None,
    }
}

/// Checked difference: exact where it is in range.
pub open spec fn fx_sub(x: Option<real>, y: Option<real>) -> Option<real> {
    match (x, y) {
        (Some(a), Some(b)) => kept(a - b),
        _ => None,
    }
}

/// Checked product, rounded down.
pub open spec fn fx_mul(x: Option<real>, y: Option<real>) -> Option<real> {
    match (x, y) {
        (Some(a), Some(b)) => kept(round_down(a * b)),
        _ => None,
    }
}

/// Checked quotient, rounded down; nothing for a zero divisor.
pub open spec fn fx_div(x: Option<real>, y: Option<real>) -> Option<real> {
    match (x, y) {
        (Some(a), Some(b)) => if b == 0real {
            None
        } else {
            kept(round_down(a / b))
        },
        _ => None,
    }
}

/// Whether `r` is the square root of `x` rounded down: the largest
/// non-negative multiple of the step whose square does not exceed `x`.
pub open spec fn is_root_below(x: real, r: real) -> bool {
    &&& r >= 0real
    &&& round_down(r) == r
    &&& r * r <= x
    &&& x < (r + step()) * (r + step())
}

/// The square root of `x` rounded down, for `x >= 0`.
pub open spec fn root_below(x: real) -> real {
    choose|r: real| is_root_below(x, r)
}

/// Checked square root, rounded down; nothing for a negative argument.
pub open spec fn fx_sqrt(x: Option<real>) -> Option<real> {
    match x {
        Some(a) => if a < 0real {
            None
        } else {
            Some(root_below(a))
        },
        None => None,
    }
}

/// A count of steps, read as a real number.
pub open spec fn of_raw(raw: int) -> real {
    raw as real / 1_000_000_000real
}

/// Reading a count of steps and counting the steps again gives the count back.
pub proof fn lemma_steps_of_raw(raw: int)
    ensures
        steps_below(of_raw(raw)) == raw,
        round_down(of_raw(raw)) == of_raw(raw),
        in_range(of_raw(raw)) <==> i64::MIN <= raw <= i64::MAX,
{
    assert(of_raw(raw) * 1_000_000_000real == raw as real);
}

/// Two numbers with the same value are the same number.
pub proof fn lemma_view_injective(a: Fixed, b: Fixed)
    requires
        a@ == b@,
    ensures
        a == b,
{
    lemma_steps_of_raw(a.raw as int);
    lemma_steps_of_raw(b.raw as int);
    assert(a@ == of_raw(a.raw as int));
    assert(b@ == of_raw(b.raw as int));
}

/// Rounding down loses less than one step.
pub proof fn lemma_round_down_bounds(x: real)
    ensures
        round_down(x) <= x < round_down(x) + step(),
{
    let k = steps_below(x);
    assert(k as real <= x * 1_000_000_000real < (k + 1) as real);
}

/// The product of two counts of steps, divided by the scale, is the rounded
/// product of the numbers.
pub proof fn lemma_mul_rounds_down(a: int, b: int)
    ensures
        of_raw((a * b) / 1_000_000_000) == round_down(of_raw(a) * of_raw(b)),
{
    let p = a * b;
    let q = p / 1_000_000_000;
    let ar = a as real;
    let br = b as real;
    assert(p as real == ar * br) by (nonlinear_arith)
        requires
            p == a * b,
            ar == a as real,
            br == b as real,
    ;
    let x = of_raw(a) * of_raw(b);
    assert(x * 1_000_000_000real == (ar * br) / 1_000_000_000real) by (nonlinear_arith)
        requires
            x == (ar / 1_000_000_000real) * (br / 1_000_000_000real),
    ;
    assert(q as real <= (p as real) / 1_000_000_000real < (q + 1) as real);
    assert(steps_below(x) == q);
}

/// The scaled quotient of two counts of steps is the rounded quotient of the
/// numbers, for a positive divisor.
pub proof fn lemma_div_rounds_down(a: int, b: int)
    requires
        b > 0,
    ensures
        of_raw((a * 1_000_000_000) / b) == round_down(of_raw(a) / of_raw(b)),
{
    let n = a * 1_000_000_000;
    let q = n / b;
    let m = n % b;
    assert(n == q * b + m && 0 <= m < b) by (nonlinear_arith)
        requires
            q == n / b,
            m == n % b,
            b > 0,
    ;
    let ar = a as real;
    let br = b as real;
    let qr = q as real;
    let mr = m as real;
    assert((q * b) as real == qr * br) by (nonlinear_arith)
        requires
            qr == q as real,
            br == b as real,
    ;
    assert(ar * 1_000_000_000real == qr * br + mr);
    let x = of_raw(a) / of_raw(b);
    assert(qr <= x * 1_000_000_000real < qr + 1real) by (nonlinear_arith)
        requires
            x == (ar / 1_000_000_000real) / (br / 1_000_000_000real),
            ar * 1_000_000_000real == qr * br + mr,
            0real <= mr < br,
    ;
    assert(steps_below(x) == q);
}

/// Changing the sign of both the dividend and the divisor keeps the quotient.
pub proof fn lemma_div_signs(a: int, b: int)
    requires
        b != 0,
    ensures
        of_raw(-a) / of_raw(-b) == of_raw(a) / of_raw(b),
{
    let ar = a as real;
    let br = b as real;
    assert(((-ar) / 1_000_000_000real) / ((-br) / 1_000_000_000real) == (ar / 1_000_000_000real)
        / (br / 1_000_000_000real)) by (nonlinear_arith)
        requires
            br != 0real,
    ;
}

/// At most one number is the square root of `x` rounded down.
pub proof fn lemma_root_below_unique(x: real, r1: real, r2: real)
    requires
        is_root_below(x, r1),
        is_root_below(x, r2),
    ensures
        r1 == r2,
{
    let k1 = steps_below(r1);
    let k2 = steps_below(r2);
    if k1 < k2 {
        assert((r1 + step()) * (r1 + step()) <= r2 * r2) by (nonlinear_arith)
            requires
                0real <= r1 + step() <= r2,
        ;
    }
    if k2 < k1 {
        assert((r2 + step()) * (r2 + step()) <= r1 * r1) by (nonlinear_arith)
            requires
                0real <= r2 + step() <= r1,
        ;
    }
}

/// A count `r` with `r * r <= n * 10^9 < (r + 1) * (r + 1)` is the square
/// root, rounded down, of the number made of `n` steps.
pub proof fn lemma_root_of_raw(n: int, r: int)
    requires
        0 <= r,
        r * r <= n * 1_000_000_000,
        n * 1_000_000_000 < (r + 1) * (r + 1),
    ensures
        is_root_below(of_raw(n), of_raw(r)),
        root_below(of_raw(n)) == of_raw(r),
{
    let x = of_raw(n);
    let y = of_raw(r);
    let nr = n as real;
    let rr = r as real;
    lemma_steps_of_raw(r);
    assert((r * r) as real == rr * rr) by (nonlinear_arith)
        requires
            rr == r as real,
    ;
    assert(((r + 1) * (r + 1)) as real == (rr + 1real) * (rr + 1real)) by (nonlinear_arith)
        requires
            rr == r as real,
    ;
    assert(rr * rr <= nr * 1_000_000_000real);
    assert(nr * 1_000_000_000real < (rr + 1real) * (rr + 1real));
    assert(y * y <= x) by (nonlinear_arith)
        requires
            y == rr / 1_000_000_000real,
            x == nr / 1_000_000_000real,
            rr * rr <= nr * 1_000_000_000real,
    ;
    assert(x < (y + step()) * (y + step())) by (nonlinear_arith)
        requires
            y == rr / 1_000_000_000real,
            x == nr / 1_000_000_000real,
            step() == 1real / 1_000_000_000real,
            nr * 1_000_000_000real < (rr + 1real) * (rr + 1real),
    ;
    assert(is_root_below(x, y));
    lemma_root_below_unique(x, y, root_below(x));
}

/// The quotient of two whole numbers, rounded down, is their whole quotient.
pub proof fn lemma_floor_of_quotient(n: int, d: int)
    requires
        d > 0,
    ensures
        ((n as real) / (d as real)).floor() == n / d,
{
    let q = n / d;
    let m = n % d;
    assert(n == q * d + m && 0 <= m < d) by (nonlinear_arith)
        requires
            q == n / d,
            m == n % d,
            d > 0,
    ;
    let nr = n as real;
    let dr = d as real;
    let qr = q as real;
    assert((q * d) as real == qr * dr) by (nonlinear_arith)
        requires
            qr == q as real,
            dr == d as real,
    ;
    let x = nr / dr;
    assert(qr <= x < qr + 1real) by (nonlinear_arith)
        requires
            x == nr / dr,
            nr == qr * dr + (m as real),
            0real <= (m as real) < dr,
    ;
}

/// Rounding down keeps a number that is not negative from becoming negative.
pub proof fn lemma_round_down_not_negative(x: real)
    requires
        x >= 0real,
    ensures
        round_down(x) >= 0real,
{
    assert(x * 1_000_000_000real >= 0real);
}

/// Every natural number has a square root rounded down.
pub proof fn lemma_floor_root_exists(n: nat) -> (r: nat)
    ensures
        r * r <= n < (r + 1) * (r + 1),
    decreases n,
{
    if n == 0 {
        let zero: nat = 0;
        assert(zero * zero == 0 && (zero + 1) * (zero + 1) == 1) by (nonlinear_arith)
            requires
                zero == 0,
        ;
        zero
    } else {
        let below = lemma_floor_root_exists((n - 1) as nat);
        let next: nat = below + 1;
        if next * next <= n {
            assert(next * next < (next + 1) * (next + 1)) by (nonlinear_arith);
            next
        } else {
            below
        }
    }
}

/// For a number that is not negative, `root_below` is its square root
/// rounded down.
pub proof fn lemma_root_below_holds(x: Fixed)
    requires
        x.raw >= 0,
    ensures
        is_root_below(x@, root_below(x@)),
        root_below(x@) >= 0real,
{
    assert(0 <= x.raw * 1_000_000_000);
    let r = lemma_floor_root_exists((x.raw * 1_000_000_000) as nat);
    lemma_root_of_raw(x.raw as int, r as int);
}

impl Fixed {
    /// Zero.
    pub fn zero() -> (r: Fixed)
        ensures
            r.raw == 0,
            r@ == 0real,
    {
        Fixed { raw: 0 }
    }

    /// One.
    pub fn one() -> (r: Fixed)
        ensures
            r.raw == SCALE,
            r@ == 1real,
    {
        Fixed { raw: SCALE }
    }

    /// The number made of `raw` steps.
    pub fn from_raw(raw: i64) -> (r: Fixed)
        ensures
            r.raw == raw,
            r@ == of_raw(raw as int),
    {
        Fixed { raw }
    }

    /// The number of steps that make up `self`.
    pub fn raw(&self) -> (r: i64)
        ensures
            r == self.raw,
    {
        self.raw
    }

    /// `self + other`, exact; `None` where the sum is out of range.
    pub fn checked_add(self, other: Fixed) -> (r: Option<Fixed>)
        ensures
            value(r) == fx_add(Some(self@), Some(other@)),
            r is Some <==> i64::MIN <= self.raw + other.raw <= i64::MAX,
            r is Some ==> r->Some_0.raw == self.raw + other.raw,
    {
        proof {
            lemma_steps_of_raw(self.raw + other.raw);
        }
        match self.raw.checked_add(other.raw) {
            Some(raw) => Some(Fixed { raw }),
            None => None,
        }
    }

    /// `self - other`, exact; `None` where the difference is out of range.
    pub fn checked_sub(self, other: Fixed) -> (r: Option<Fixed>)
        ensures
            value(r) == fx_sub(Some(self@), Some(other@)),
            r is Some <==> i64::MIN <= self.raw - other.raw <= i64::MAX,
            r is Some ==> r->Some_0.raw == self.raw - other.raw,
    {
        proof {
            lemma_steps_of_raw(self.raw - other.raw);
        }
        match self.raw.checked_sub(other.raw) {
            Some(raw) => Some(Fixed { raw }),
            None => None,
        }
    }

    /// `self * other` rounded down; `None` where that is out of range.
    pub fn checked_mul(self, other: Fixed) -> (r: Option<Fixed>)
        ensures
            value(r) == fx_mul(Some(self@), Some(other@)),
            r is Some <==> i64::MIN <= (self.raw * other.raw) / 1_000_000_000 <= i64::MAX,
            r is Some ==> r->Some_0.raw == (self.raw * other.raw) / 1_000_000_000,
    {
        assert(-0x4000_0000_0000_0000_0000_0000_0000_0000 <= self.raw * other.raw
            <= 0x4000_0000_0000_0000_0000_0000_0000_0000) by (nonlinear_arith)
            requires
                -0x8000_0000_0000_0000 <= self.raw <= 0x7fff_ffff_ffff_ffff,
                -0x8000_0000_0000_0000 <= other.raw <= 0x7fff_ffff_ffff_ffff,
        ;
        let wide: i128 = (self.raw as i128) * (other.raw as i128);
        let steps: i128 = floor_div(wide, 1_000_000_000);
        proof {
            lemma_mul_rounds_down(self.raw as int, other.raw as int);
            lemma_steps_of_raw(steps as int);
        }
        if steps < i64::MIN as i128 || steps > i64::MAX as i128 {
            None
        } else {
            Some(Fixed { raw: steps as i64 })
        }
    }

    /// `self / other` rounded down; `None` for a zero divisor and where the
    /// quotient is out of range.
    pub fn checked_div(self, other: Fixed) -> (r: Option<Fixed>)
        ensures
            value(r) == fx_div(Some(self@), Some(other@)),
            other.raw == 0 ==> r is None,
            other.raw > 0 ==> (r is Some <==> i64::MIN <= (self.raw * 1_000_000_000) / (
            other.raw as int) <= i64::MAX),
            other.raw > 0 && r is Some ==> r->Some_0.raw == (self.raw * 1_000_000_000) / (
            other.raw as int),
    {
        if other.raw == 0 {
            return None;
        }
        let wide: i128 = (self.raw as i128) * 1_000_000_000;
        let steps: i128 = if other.raw > 0 {
            floor_div(wide, other.raw as i128)
        } else {
            floor_div(-wide, -(other.raw as i128))
        };
        proof {
            if other.raw > 0 {
                lemma_div_rounds_down(self.raw as int, other.raw as int);
            } else {
                lemma_div_rounds_down(-(self.raw as int), -(other.raw as int));
                lemma_div_signs(self.raw as int, other.raw as int);
            }
            lemma_steps_of_raw(steps as int);
        }
        if steps < i64::MIN as i128 || steps > i64::MAX as i128 {
            None
        } else {
            Some(Fixed { raw: steps as i64 })
        }
    }

    /// The square root of `self` rounded down; `None` for a negative number.
    pub fn checked_sqrt(self) -> (r: Option<Fixed>)
        ensures
            value(r) == fx_sqrt(Some(self@)),
            r is Some <==> self.raw >= 0,
            r is Some ==> {
                let root = r->Some_0.raw;
                0 <= root && root * root <= self.raw * 1_000_000_000 < (root + 1) * (root + 1)
            },
    {
        if self.raw < 0 {
            return None;
        }
        let wide: u128 = (self.raw as u128) * 1_000_000_000;
        let root: u64 = floor_sqrt(wide);
        proof {
            lemma_root_of_raw(self.raw as int, root as int);
        }
        Some(Fixed { raw: root as i64 })
    }

    /// The whole number `n`.
    pub fn from_u32(n: u32) -> (r: Fixed)
        ensures
            r.raw == n * SCALE,
            r@ == n as real,
    {
        Fixed { raw: (n as i64) * 1_000_000_000 }
    }
}

/// The largest `r` with `r * r <= n`, for `n` below `2^94`.
fn floor_sqrt(n: u128) -> (r: u64)
    requires
        n < 0x4000_0000_0000_0000_0000_0000,
    ensures
        r * r <= n < (r + 1) * (r + 1),
        r < 0x8000_0000_0000,
{
    let mut low: u64 = 0;
    let mut high: u64 = 0x8000_0000_0000;
    assert(0x8000_0000_0000 * 0x8000_0000_0000 == 0x4000_0000_0000_0000_0000_0000int);
    while high - low > 1
        invariant
            low < high <= 0x8000_0000_0000,
            low * low <= n < high * high,
        decreases high - low,
    {
        let mid: u64 = low + (high - low) / 2;
        assert(mid * mid < 0x4000_0000_0000_0000_0000_0000) by (nonlinear_arith)
            requires
                0 <= mid < 0x8000_0000_0000,
        ;
        let square: u128 = (mid as u128) * (mid as u128);
        if square <= n {
            low = mid;
        } else {
            high = mid;
        }
    }
    low
}

/// `n / d` rounded towards minus infinity, for a positive `d`.
pub(crate) fn floor_div(n: i128, d: i128) -> (q: i128)
    requires
        d > 0,
    ensures
        q == n / d,
{
    assert(i128::MIN <= n / d <= i128::MAX) by (nonlinear_arith)
        requires
            d > 0,
            i128::MIN <= n <= i128::MAX,
    ;
    match n.checked_div_euclid(d) {
        Some(q) => q,
        None => 0,
    }
}

} // verus!
