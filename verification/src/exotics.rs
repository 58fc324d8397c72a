//! Instruments that embed an option: the convertible bond.
//!
//! A convertible bond is worth the present value of its coupons and principal,
//! discounted once per period at the risk-free rate plus the credit spread,
//! plus the value of the calls on the stock that it converts into.
use vstd::prelude::*;

use crate::accuracy::bond_price_within;
use crate::accuracy::has_plain_cashflows;
use crate::accuracy::lemma_bond_price_accuracy;
use crate::accuracy::lemma_npv_within;
use crate::accuracy::npv_within;
use crate::black_scholes::call_price_rounded;
use crate::black_scholes::call_value;
use crate::conclude;
use crate::dividend_factor;
use crate::fixed::fx_add;
use crate::fixed::fx_div;
use crate::fixed::floor_div;
use crate::fixed::fx_mul;
use crate::fixed::lemma_floor_of_quotient;
use crate::fixed::lemma_steps_of_raw;
use crate::fixed::steps_below;
use crate::fixed::step;
use crate::fixed::value;
use crate::fixed::Fixed;
use crate::outcome;
use crate::settled;
use crate::Call;
use crate::PricingError;
use crate::Terms;

verus! {

/// Instruments priced from an embedded option.
#[derive(Clone, Copy, Debug)]
pub enum ExoticOptions {
    ConvertibleBond(ConvertibleBond),
}

/// A bond that its holder may convert into stock at the conversion price.
#[derive(Clone, Copy, Debug)]
pub struct ConvertibleBond {
    /// Principal repaid at maturity.
    pub face_value: Fixed,
    /// Coupon per year as a fraction of the face value.
    pub coupon_rate: Fixed,
    /// Years until the principal is repaid.
    pub maturity: Fixed,
    /// Coupon payments per year.
    pub payment_frequency: u32,
    /// Premium over the risk-free rate at which the cashflows are discounted.
    pub credit_spread: Fixed,
    /// Stock price at which the bond converts: the strike of the embedded call.
    pub conversion_price: Fixed,
    /// Price of the stock: the spot of the embedded call.
    pub stock_price: Fixed,
    /// Volatility of the stock.
    pub volatility: Fixed,
    /// Years until the conversion right expires.
    pub time_to_maturity: Fixed,
    /// Risk-free rate.
    pub risk_free_rate: Fixed,
    /// Dividend yield of the stock, if it pays any.
    pub dividend_yield: Option<Fixed>,
}

/// The number of coupon periods: the whole periods within `maturity` years at
/// `frequency` periods per year, at most `u32::MAX`.
pub open spec fn periods_of(maturity: real, frequency: u32) -> nat {
    let whole = (maturity * (frequency as real)).floor();
    if whole <= 0 {
        0
    } else if whole >= u32::MAX {
        u32::MAX as nat
    } else {
        whole as nat
    }
}

/// The step of the discount divisor, `10^-18`: the divisor is carried with
/// eighteen digits, so that the payments are rounded once each.
pub open spec fn fine_step() -> real {
    1real / 1_000_000_000_000_000_000real
}

/// A count of fine steps, read as a real number.
pub open spec fn of_fine(raw: int) -> real {
    raw as real / 1_000_000_000_000_000_000real
}

/// The largest multiple of the fine step that does not exceed `x`.
pub open spec fn fine_down(x: real) -> real {
    (x * 1_000_000_000_000_000_000real).floor() as real / 1_000_000_000_000_000_000real
}

/// Whether a product of a divisor and a growth factor can be carried: it
/// counts at most `2^127` steps of `10^-27`.
pub open spec fn fine_fits(x: real) -> bool {
    i128::MIN as real <= x * 1_000_000_000_000_000_000_000_000_000real <= i128::MAX as real
}

/// The divisor `d` grown by the factor `g` and rounded down to the fine
/// step; nothing where the product cannot be carried.
pub open spec fn fine_mul(d: Option<real>, g: real) -> Option<real> {
    match d {
        Some(v) => if fine_fits(v * g) {
            Some(fine_down(v * g))
        } else {
            None
        },
        None => None,
    }
}

/// The discount divisor after `n` periods, `g^n`, rounded down to the fine
/// step after every period.
pub open spec fn discounter_after(g: real, n: nat) -> Option<real>
    decreases n,
{
    if n == 0 {
        Some(1real)
    } else {
        fine_mul(discounter_after(g, (n - 1) as nat), g)
    }
}

/// The present value of the first `n` coupons of `c` each, the `k`-th
/// divided by the discount divisor after `k` periods.
pub open spec fn coupons_after(c: real, g: real, n: nat) -> Option<real>
    decreases n,
{
    if n == 0 {
        Some(0real)
    } else {
        fx_add(coupons_after(c, g, (n - 1) as nat), fx_div(Some(c), discounter_after(g, n)))
    }
}

/// The present value of `n` coupons of `c` each and of the principal `face`
/// after `n` periods, at the growth factor `g` per period.
pub open spec fn cashflows_rounded(face: real, c: real, g: real, n: nat) -> Option<real> {
    fx_add(coupons_after(c, g, n), fx_div(Some(face), discounter_after(g, n)))
}

/// Once the coupons are out of range they stay out of range.
pub proof fn lemma_coupons_stay_lost(c: real, g: real, i: nat, n: nat)
    requires
        i <= n,
        coupons_after(c, g, i) is None,
    ensures
        coupons_after(c, g, n) is None,
    decreases n,
{
    if i < n {
        lemma_coupons_stay_lost(c, g, i, (n - 1) as nat);
    }
}

fn period_count(maturity: Fixed, frequency: u32) -> (n: u32)
    ensures
        n == periods_of(maturity@, frequency),
{
    assert(-0x8000_0000_0000_0000_0000_0000 <= maturity.raw * frequency
        <= 0x8000_0000_0000_0000_0000_0000) by (nonlinear_arith)
        requires
            -0x8000_0000_0000_0000 <= maturity.raw <= 0x7fff_ffff_ffff_ffff,
            0 <= frequency <= 0xffff_ffff,
    ;
    let steps: i128 = (maturity.raw as i128) * (frequency as i128);
    proof {
        let m = maturity.raw as real;
        let f = frequency as real;
        assert((maturity.raw * frequency) as real == m * f) by (nonlinear_arith)
            requires
                m == maturity.raw as real,
                f == frequency as real,
        ;
        assert(maturity@ * f == (m * f) / 1_000_000_000real) by (nonlinear_arith)
            requires
                maturity@ == m / 1_000_000_000real,
        ;
        let whole = steps as int / 1_000_000_000;
        assert(whole as real <= (steps as real) / 1_000_000_000real < (whole + 1) as real);
        assert((maturity@ * f).floor() == whole);
    }
    if steps <= 0 {
        return 0;
    }
    let whole: i128 = steps / 1_000_000_000;
    if whole >= u32::MAX as i128 {
        u32::MAX
    } else {
        whole as u32
    }
}

/// The divisor of `w` fine steps grown by `g`.
fn grow(w: i128, g: Fixed) -> (r: Option<i128>)
    ensures
        match r {
            Some(n) => fine_mul(Some(of_fine(w as int)), g@) == Some(of_fine(n as int)) && n
                > i128::MIN,
            None => fine_mul(Some(of_fine(w as int)), g@) is None,
        },
{
    proof {
        let wr = w as real;
        let gr = g.raw as real;
        let x = of_fine(w as int) * g@;
        assert((w * g.raw) as real == wr * gr) by (nonlinear_arith)
            requires
                wr == w as real,
                gr == g.raw as real,
        ;
        assert(x * 1_000_000_000_000_000_000_000_000_000real == wr * gr) by (nonlinear_arith)
            requires
                x == (wr / 1_000_000_000_000_000_000real) * (gr / 1_000_000_000real),
        ;
        assert(x * 1_000_000_000_000_000_000real == (wr * gr) / 1_000_000_000real)
            by (nonlinear_arith)
            requires
                x == (wr / 1_000_000_000_000_000_000real) * (gr / 1_000_000_000real),
        ;
        let product = w * g.raw;
        lemma_floor_of_quotient(product, 1_000_000_000);
        assert(x * 1_000_000_000_000_000_000real == (product as real) / (1_000_000_000 as real));
        assert((x * 1_000_000_000_000_000_000real).floor() == product / 1_000_000_000);
        assert(fine_down(x) == of_fine(product / 1_000_000_000));
        assert(fine_fits(x) <==> i128::MIN <= product <= i128::MAX);
    }
    match w.checked_mul(g.raw as i128) {
        Some(product) => Some(floor_div(product, 1_000_000_000)),
        None => None,
    }
}

/// The amount `a` divided by the divisor of `w` fine steps, rounded down.
fn pay(a: Fixed, w: i128) -> (r: Option<Fixed>)
    requires
        w > i128::MIN,
    ensures
        value(r) == fx_div(Some(a@), Some(of_fine(w as int))),
{
    if w == 0 {
        return None;
    }
    let wide: i128 = (a.raw as i128) * 1_000_000_000_000_000_000;
    let steps: i128 = if w > 0 {
        floor_div(wide, w)
    } else {
        floor_div(-wide, -w)
    };
    proof {
        let ar = a.raw as real;
        let wr = w as real;
        let x = a@ / of_fine(w as int);
        if w > 0 {
            lemma_floor_of_quotient(wide as int, w as int);
            assert(x * 1_000_000_000real == (ar * 1_000_000_000_000_000_000real) / wr)
                by (nonlinear_arith)
                requires
                    x == (ar / 1_000_000_000real) / (wr / 1_000_000_000_000_000_000real),
                    wr > 0real,
            ;
        } else {
            lemma_floor_of_quotient(-(wide as int), -(w as int));
            assert(x * 1_000_000_000real == (-(ar * 1_000_000_000_000_000_000real)) / (-wr))
                by (nonlinear_arith)
                requires
                    x == (ar / 1_000_000_000real) / (wr / 1_000_000_000_000_000_000real),
                    wr < 0real,
            ;
        }
        assert(steps_below(x) == steps);
        lemma_steps_of_raw(steps as int);
    }
    if steps < i64::MIN as i128 || steps > i64::MAX as i128 {
        None
    } else {
        Some(Fixed { raw: steps as i64 })
    }
}

fn cashflow_steps(face: Fixed, coupon: Fixed, growth: Fixed, periods: u32) -> (r: Option<Fixed>)
    ensures
        value(r) == cashflows_rounded(face@, coupon@, growth@, periods as nat),
{
    let mut npv = Fixed::zero();
    let mut discounter: i128 = 1_000_000_000_000_000_000;
    let mut i: u32 = 0;
    while i < periods
        invariant
            i <= periods,
            discounter > i128::MIN,
            discounter_after(growth@, i as nat) == Some(of_fine(discounter as int)),
            coupons_after(coupon@, growth@, i as nat) == Some(npv@),
        decreases periods - i,
    {
        let grown = grow(discounter, growth);
        let paid = match grown {
            Some(d) => pay(coupon, d),
            None => None,
        };
        let sum = match paid {
            Some(p) => npv.checked_add(p),
            None => None,
        };
        match (grown, sum) {
            (Some(d), Some(s)) => {
                discounter = d;
                npv = s;
            },
            _ => {
                proof {
                    lemma_coupons_stay_lost(coupon@, growth@, (i + 1) as nat, periods as nat);
                }
                return None;
            },
        }
        i = i + 1;
    }
    npv.checked_add(pay(face, discounter)?)
}

impl ConvertibleBond {
    /// The conversion price, the stock price, the volatility, the time to
    /// maturity of the option and the maturity of the bond are positive, and
    /// there is at least one payment per year.
    pub open spec fn is_valid(&self) -> bool {
        &&& self.has_schedule()
        &&& self.conversion_price@ > 0real
        &&& self.stock_price@ > 0real
        &&& self.volatility@ > 0real
        &&& self.time_to_maturity@ > 0real
    }

    /// The maturity is positive and there is at least one payment per year.
    pub open spec fn has_schedule(&self) -> bool {
        &&& self.payment_frequency >= 1
        &&& self.maturity@ > 0real
    }

    /// The coupon per period in rounded arithmetic:
    /// `face_value * coupon_rate / payment_frequency`.
    pub open spec fn coupon_rounded(&self) -> Option<real> {
        fx_div(
            fx_mul(Some(self.face_value@), Some(self.coupon_rate@)),
            Some(self.payment_frequency as real),
        )
    }

    /// The growth factor per period in rounded arithmetic:
    /// `1 + (risk_free_rate + credit_spread) / payment_frequency`.
    pub open spec fn growth_rounded(&self) -> Option<real> {
        fx_add(
            Some(1real),
            fx_div(
                fx_add(Some(self.risk_free_rate@), Some(self.credit_spread@)),
                Some(self.payment_frequency as real),
            ),
        )
    }

    /// The present value of the coupons and of the principal in rounded
    /// arithmetic.
    pub open spec fn npv_rounded(&self) -> Option<real> {
        match (self.coupon_rounded(), self.growth_rounded()) {
            (Some(c), Some(g)) => cashflows_rounded(
                self.face_value@,
                c,
                g,
                periods_of(self.maturity@, self.payment_frequency),
            ),
            _ => None,
        }
    }

    /// The call that the bond embeds: struck at the conversion price, on the
    /// stock.
    pub open spec fn embedded_call(&self) -> Call {
        Call {
            strike_price: self.conversion_price,
            spot_price: self.stock_price,
            volatility: self.volatility,
            risk_free_rate: self.risk_free_rate,
            time_to_maturity: self.time_to_maturity,
            dividend_yield: self.dividend_yield,
        }
    }

    /// The exact price of the embedded call.
    pub open spec fn option_value(&self, terms: Terms) -> real {
        call_value(
            self.stock_price@,
            self.conversion_price@,
            dividend_factor(self.dividend_yield, terms),
            terms.rate_discount@,
            terms.cdf_d1@,
            terms.cdf_d2@,
        )
    }

    /// The price of the embedded call in rounded arithmetic.
    pub open spec fn option_rounded(&self, terms: Terms) -> Option<real> {
        call_price_rounded(
            self.stock_price@,
            self.conversion_price@,
            dividend_factor(self.dividend_yield, terms),
            terms.rate_discount@,
            terms.cdf_d1@,
            terms.cdf_d2@,
        )
    }

    /// The price of the bond in rounded arithmetic: the present value of the
    /// cashflows plus `face_value / conversion_price` calls.
    pub open spec fn price_rounded(&self, terms: Terms) -> Option<real> {
        fx_add(
            self.npv_rounded(),
            fx_mul(
                fx_div(Some(self.face_value@), Some(self.conversion_price@)),
                self.option_rounded(terms),
            ),
        )
    }

    /// Whether the bond has a schedule.
    fn check_schedule(&self) -> (ok: bool)
        ensures
            ok == self.has_schedule(),
    {
        self.payment_frequency >= 1 && self.maturity.raw > 0
    }

    /// Whether the bond is valid.
    pub fn check(&self) -> (ok: bool)
        ensures
            ok == self.is_valid(),
    {
        self.check_schedule() && self.conversion_price.raw > 0 && self.stock_price.raw > 0
            && self.volatility.raw > 0 && self.time_to_maturity.raw > 0
    }

    fn npv_steps(&self) -> (r: Option<Fixed>)
        ensures
            value(r) == self.npv_rounded(),
    {
        let frequency = Fixed::from_u32(self.payment_frequency);
        let coupon = self.face_value.checked_mul(self.coupon_rate)?.checked_div(frequency);
        let rate = self.risk_free_rate.checked_add(self.credit_spread);
        let growth = match rate {
            Some(y) => match y.checked_div(frequency) {
                Some(per_period) => Fixed::one().checked_add(per_period),
                None => None,
            },
            None => None,
        };
        match (coupon, growth) {
            (Some(c), Some(g)) => cashflow_steps(
                self.face_value,
                c,
                g,
                period_count(self.maturity, self.payment_frequency),
            ),
            _ => None,
        }
    }

    /// The present value of the coupons and of the principal, each discounted
    /// once per period at `(risk_free_rate + credit_spread) / payment_frequency`.
    ///
    /// The discount divisor is carried with eighteen digits and every payment
    /// is rounded once. The result is the sum in rounded arithmetic; for a bond with
    /// plain cashflows it is the exact present value up to rounding. Fails with
    /// `InvalidInput` unless the maturity is positive and there is at least
    /// one payment per year, and with `OutOfRange` where a step overflows or
    /// the discount divisor rounds to zero.
    pub fn npv(&self) -> (r: Result<Fixed, PricingError>)
        ensures
            settled(r) == outcome(self.has_schedule(), self.npv_rounded()),
            r matches Ok(v) ==> (has_plain_cashflows(*self) ==> npv_within(v@, *self)),
    {
        if !self.check_schedule() {
            return Err(PricingError::InvalidInput);
        }
        let r = conclude(self.npv_steps());
        proof {
            if r is Ok && has_plain_cashflows(*self) {
                lemma_npv_within(*self);
            }
        }
        r
    }

    /// The Black-Scholes price of the embedded call: the price formula in
    /// rounded arithmetic, which lies within two steps of the exact price.
    pub fn conversion_option_price(&self, terms: Terms) -> (r: Result<Fixed, PricingError>)
        ensures
            settled(r) == outcome(
                self.embedded_call().is_valid() && terms.is_valid(self.dividend_yield),
                self.option_rounded(terms),
            ),
            r matches Ok(v) ==> self.option_value(terms) - 2real * step() < v@
                < self.option_value(terms) + 2real * step(),
    {
        let underlying_call = Call {
            strike_price: self.conversion_price,
            spot_price: self.stock_price,
            volatility: self.volatility,
            risk_free_rate: self.risk_free_rate,
            time_to_maturity: self.time_to_maturity,
            dividend_yield: self.dividend_yield,
        };
        underlying_call.bs_pricing(terms)
    }

    fn price_steps(&self, npv: Fixed, option: Fixed) -> (r: Option<Fixed>)
        ensures
            value(r) == fx_add(
                Some(npv@),
                fx_mul(
                    fx_div(Some(self.face_value@), Some(self.conversion_price@)),
                    Some(option@),
                ),
            ),
    {
        let ratio = self.face_value.checked_div(self.conversion_price)?;
        npv.checked_add(ratio.checked_mul(option)?)
    }

    /// The price of the bond: the present value of its cashflows plus the
    /// value of the embedded call times the conversion ratio
    /// `face_value / conversion_price`.
    ///
    /// The result is the sum in rounded arithmetic; for a bond with
    /// plain cashflows it is the exact price up to rounding. Fails with
    /// `InvalidInput` unless the bond and the terms are valid, and with
    /// `OutOfRange` where a step of the computation overflows or divides by
    /// zero.
    pub fn bs_pricing(&self, terms: Terms) -> (r: Result<Fixed, PricingError>)
        ensures
            settled(r) == outcome(
                self.is_valid() && terms.is_valid(self.dividend_yield),
                self.price_rounded(terms),
            ),
            r matches Ok(v) ==> (has_plain_cashflows(*self) ==> bond_price_within(
                v@,
                *self,
                terms,
            )),
    {
        if !self.check() || !terms.check(self.dividend_yield) {
            return Err(PricingError::InvalidInput);
        }
        let npv = match self.npv() {
            Ok(v) => v,
            Err(_) => {
                return Err(PricingError::OutOfRange);
            },
        };
        let option = match self.conversion_option_price(terms) {
            Ok(v) => v,
            Err(_) => {
                return Err(PricingError::OutOfRange);
            },
        };
        let r = conclude(self.price_steps(npv, option));
        proof {
            if r is Ok && has_plain_cashflows(*self) {
                lemma_bond_price_accuracy(*self, terms);
            }
        }
        r
    }
}

} // verus!
