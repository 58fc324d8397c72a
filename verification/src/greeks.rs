//! Payout at expiry and the sensitivities of a call and of a put: delta,
//! gamma, vega, theta and rho.
//!
//! The sensitivities are taken at a market state that the caller chooses:
//! `d_terms` gives the points `d1` and `d2` for that state, the terms hold
//! the distribution values at those points, and the methods take the spot
//! price and the volatility of that state where their formula reads them.
use vstd::prelude::*;

use crate::accuracy::call_theta_within;
use crate::accuracy::d_minus_within;
use crate::accuracy::d_plus_within;
use crate::accuracy::gamma_within;
use crate::accuracy::lemma_call_theta_within;
use crate::accuracy::lemma_delta_accuracy;
use crate::accuracy::lemma_gamma_vega_within;
use crate::accuracy::lemma_put_theta_within;
use crate::accuracy::put_theta_within;
use crate::accuracy::vega_within;
use crate::accuracy::lemma_rho_accuracy;
use crate::black_scholes::d_minus;
use crate::black_scholes::d_minus_rounded;
use crate::black_scholes::d_plus;
use crate::black_scholes::d_plus_rounded;
use crate::conclude;
use crate::dividend_factor;
use crate::dividend_factor_of;
use crate::fixed::fx_add;
use crate::fixed::fx_div;
use crate::fixed::fx_mul;
use crate::fixed::fx_sqrt;
use crate::fixed::fx_sub;
use crate::fixed::in_range;
use crate::fixed::kept;
use crate::fixed::lemma_mul_rounds_down;
use crate::fixed::lemma_root_below_holds;
use crate::fixed::lemma_round_down_bounds;
use crate::fixed::lemma_round_down_not_negative;
use crate::fixed::lemma_steps_of_raw;
use crate::fixed::root_below;
use crate::fixed::round_down;
use crate::fixed::step;
use crate::fixed::of_raw;
use crate::fixed::value;
use crate::fixed::Fixed;
use crate::outcome;
use crate::settled;
use crate::yield_or_zero;
use crate::Call;
use crate::PricingError;
use crate::Put;
use crate::Terms;

verus! {

/// `max(0, x)`.
pub open spec fn positive_part(x: real) -> real {
    if x > 0real {
        x
    } else {
        0real
    }
}

/// `|x|`.
pub open spec fn magnitude(x: real) -> real {
    if x < 0real {
        -x
    } else {
        x
    }
}

/// `max(0, a - b)`; `None` where that is out of range.
fn excess(a: Fixed, b: Fixed) -> (r: Option<Fixed>)
    ensures
        value(r) == kept(positive_part(a@ - b@)),
{
    proof {
        lemma_steps_of_raw(a.raw - b.raw);
        lemma_steps_of_raw(0);
        assert(a@ - b@ == of_raw(a.raw - b.raw));
    }
    if a.raw <= b.raw {
        Some(Fixed::zero())
    } else {
        a.checked_sub(b)
    }
}

/// A result that has to be positive: nothing where rounding has left zero
/// or less of it.
pub open spec fn fx_positive(x: Option<real>) -> Option<real> {
    match x {
        Some(v) => if v > 0real {
            Some(v)
        } else {
            None
        },
        None => None,
    }
}

/// `N(d1) e^(-qT)` in rounded arithmetic, for a probability strictly between
/// zero and one; nothing where the probability has been rounded to zero or
/// one or the product to zero.
pub open spec fn call_delta_rounded(n1: real, dq: real) -> Option<real> {
    if 0real < n1 < 1real {
        fx_positive(fx_mul(Some(n1), Some(dq)))
    } else {
        None
    }
}

/// `(N(d1) - 1) e^(-qT)` in rounded arithmetic, for a probability strictly
/// between zero and one; nothing where the probability has been rounded to
/// zero or one.
pub open spec fn put_delta_rounded(n1: real, dq: real) -> Option<real> {
    if 0real < n1 < 1real {
        fx_mul(fx_sub(Some(n1), Some(1real)), Some(dq))
    } else {
        None
    }
}

/// `N'(d1) e^(-qT) / (S sigma sqrt(T))` in rounded arithmetic; nothing where
/// rounding leaves zero.
pub open spec fn gamma_rounded(pdf: real, dq: real, s: real, sigma: real, t: real) -> Option<
    real,
> {
    fx_positive(
        fx_div(
            fx_mul(Some(pdf), Some(dq)),
            fx_mul(fx_mul(Some(s), Some(sigma)), fx_sqrt(Some(t))),
        ),
    )
}

/// `S N'(d1) sqrt(T) e^(-qT)` in rounded arithmetic; nothing where rounding
/// leaves zero.
pub open spec fn vega_rounded(s: real, pdf: real, t: real, dq: real) -> Option<real> {
    fx_positive(fx_mul(fx_mul(fx_mul(Some(s), Some(pdf)), fx_sqrt(Some(t))), Some(dq)))
}

/// `-S N'(d1) sigma e^(-qT) / (2 sqrt(T))` in rounded arithmetic: the part of
/// theta that a call and a put share.
pub open spec fn decay_rounded(s: real, pdf: real, sigma: real, dq: real, t: real) -> Option<
    real,
> {
    fx_div(
        fx_sub(Some(0real), fx_mul(fx_mul(fx_mul(Some(s), Some(pdf)), Some(sigma)), Some(dq))),
        fx_mul(Some(2real), fx_sqrt(Some(t))),
    )
}

/// `q S e^(-qT) n` in rounded arithmetic, zero for a contract without
/// dividend yield; `n` is `N(d1)` for a call and `N(-d1)` for a put.
pub open spec fn dividend_flow_rounded(q: Option<Fixed>, s: real, dq: real, n: Option<real>)
    -> Option<real> {
    match q {
        Some(y) => fx_mul(fx_mul(fx_mul(Some(y@), Some(s)), Some(dq)), n),
        None => Some(0real),
    }
}

/// `r K e^(-rT) n` in rounded arithmetic; `n` is `N(d2)` for a call and
/// `N(-d2)` for a put.
pub open spec fn carry_rounded(r: real, k: real, dr: real, n: Option<real>) -> Option<real> {
    fx_mul(fx_mul(fx_mul(Some(r), Some(k)), Some(dr)), n)
}

/// Theta of a call in rounded arithmetic:
/// `-S N'(d1) sigma e^(-qT) / (2 sqrt(T)) + q S N(d1) e^(-qT) - r K e^(-rT) N(d2)`.
pub open spec fn call_theta_rounded(c: Call, sigma: real, s: real, terms: Terms) -> Option<real> {
    let dq = dividend_factor(c.dividend_yield, terms);
    fx_sub(
        fx_add(
            decay_rounded(s, terms.pdf_d1@, sigma, dq, c.time_to_maturity@),
            dividend_flow_rounded(c.dividend_yield, s, dq, Some(terms.cdf_d1@)),
        ),
        carry_rounded(
            c.risk_free_rate@,
            c.strike_price@,
            terms.rate_discount@,
            Some(terms.cdf_d2@),
        ),
    )
}

/// Theta of a put in rounded arithmetic:
/// `-S N'(d1) sigma e^(-qT) / (2 sqrt(T)) - q S N(-d1) e^(-qT) + r K e^(-rT) N(-d2)`,
/// with `N(-x) = 1 - N(x)`.
pub open spec fn put_theta_rounded(p: Put, sigma: real, s: real, terms: Terms) -> Option<real> {
    let dq = dividend_factor(p.dividend_yield, terms);
    fx_add(
        fx_sub(
            decay_rounded(s, terms.pdf_d1@, sigma, dq, p.time_to_maturity@),
            dividend_flow_rounded(
                p.dividend_yield,
                s,
                dq,
                fx_sub(Some(1real), Some(terms.cdf_d1@)),
            ),
        ),
        carry_rounded(
            p.risk_free_rate@,
            p.strike_price@,
            terms.rate_discount@,
            fx_sub(Some(1real), Some(terms.cdf_d2@)),
        ),
    )
}

/// `K T N(d2) e^(-rT)` in rounded arithmetic.
pub open spec fn call_rho_rounded(k: real, t: real, n2: real, dr: real) -> Option<real> {
    fx_mul(fx_mul(fx_mul(Some(k), Some(t)), Some(n2)), Some(dr))
}

/// `-K T N(-d2) e^(-rT)` in rounded arithmetic, with `N(-x) = 1 - N(x)`.
pub open spec fn put_rho_rounded(k: real, t: real, n2: real, dr: real) -> Option<real> {
    fx_mul(
        fx_mul(fx_mul(fx_sub(Some(0real), Some(k)), Some(t)), fx_sub(Some(1real), Some(n2))),
        Some(dr),
    )
}

/// `x` where it is positive.
fn positive(x: Option<Fixed>) -> (r: Option<Fixed>)
    ensures
        value(r) == fx_positive(value(x)),
{
    match x {
        Some(v) => if v.raw > 0 {
            Some(v)
        } else {
            None
        },
        None => None,
    }
}

fn gamma_steps(pdf: Fixed, dq: Fixed, s: Fixed, sigma: Fixed, t: Fixed) -> (g: Option<Fixed>)
    ensures
        value(g) == gamma_rounded(pdf@, dq@, s@, sigma@, t@),
{
    let density = pdf.checked_mul(dq)?;
    let width = s.checked_mul(sigma)?.checked_mul(t.checked_sqrt()?)?;
    positive(density.checked_div(width))
}

fn vega_steps(s: Fixed, pdf: Fixed, t: Fixed, dq: Fixed) -> (v: Option<Fixed>)
    ensures
        value(v) == vega_rounded(s@, pdf@, t@, dq@),
{
    positive(s.checked_mul(pdf)?.checked_mul(t.checked_sqrt()?)?.checked_mul(dq))
}

fn call_delta_steps(n1: Fixed, dq: Fixed) -> (d: Option<Fixed>)
    ensures
        value(d) == call_delta_rounded(n1@, dq@),
{
    if n1.raw <= 0 || n1.raw >= 1_000_000_000 {
        return None;
    }
    positive(n1.checked_mul(dq))
}

fn decay_steps(s: Fixed, pdf: Fixed, sigma: Fixed, dq: Fixed, t: Fixed) -> (d: Option<Fixed>)
    ensures
        value(d) == decay_rounded(s@, pdf@, sigma@, dq@, t@),
{
    let spread = s.checked_mul(pdf)?.checked_mul(sigma)?.checked_mul(dq)?;
    let two = Fixed::from_raw(2_000_000_000);
    let span = two.checked_mul(t.checked_sqrt()?)?;
    Fixed::zero().checked_sub(spread)?.checked_div(span)
}

fn dividend_flow_steps(q: Option<Fixed>, s: Fixed, dq: Fixed, n: Option<Fixed>) -> (f: Option<
    Fixed,
>)
    ensures
        value(f) == dividend_flow_rounded(q, s@, dq@, value(n)),
{
    match q {
        Some(y) => y.checked_mul(s)?.checked_mul(dq)?.checked_mul(n?),
        None => Some(Fixed::zero()),
    }
}

fn carry_steps(r: Fixed, k: Fixed, dr: Fixed, n: Fixed) -> (c: Option<Fixed>)
    ensures
        value(c) == carry_rounded(r@, k@, dr@, Some(n@)),
{
    r.checked_mul(k)?.checked_mul(dr)?.checked_mul(n)
}

fn call_theta_steps(c: Call, sigma: Fixed, s: Fixed, terms: Terms) -> (th: Option<Fixed>)
    ensures
        value(th) == call_theta_rounded(c, sigma@, s@, terms),
{
    let dq = dividend_factor_of(c.dividend_yield, terms);
    let decay = decay_steps(s, terms.pdf_d1, sigma, dq, c.time_to_maturity)?;
    let flow = dividend_flow_steps(c.dividend_yield, s, dq, Some(terms.cdf_d1))?;
    let carry = carry_steps(c.risk_free_rate, c.strike_price, terms.rate_discount, terms.cdf_d2)?;
    decay.checked_add(flow)?.checked_sub(carry)
}

fn put_theta_steps(p: Put, sigma: Fixed, s: Fixed, terms: Terms) -> (th: Option<Fixed>)
    ensures
        value(th) == put_theta_rounded(p, sigma@, s@, terms),
{
    let dq = dividend_factor_of(p.dividend_yield, terms);
    let one = Fixed::one();
    let decay = decay_steps(s, terms.pdf_d1, sigma, dq, p.time_to_maturity)?;
    let flow = dividend_flow_steps(p.dividend_yield, s, dq, one.checked_sub(terms.cdf_d1))?;
    let carry = carry_steps(
        p.risk_free_rate,
        p.strike_price,
        terms.rate_discount,
        one.checked_sub(terms.cdf_d2)?,
    )?;
    decay.checked_sub(flow)?.checked_add(carry)
}

fn put_delta_steps(n1: Fixed, dq: Fixed) -> (d: Option<Fixed>)
    ensures
        value(d) == put_delta_rounded(n1@, dq@),
{
    if n1.raw <= 0 || n1.raw >= 1_000_000_000 {
        return None;
    }
    n1.checked_sub(Fixed::one())?.checked_mul(dq)
}

fn call_rho_steps(k: Fixed, t: Fixed, n2: Fixed, dr: Fixed) -> (rho: Option<Fixed>)
    ensures
        value(rho) == call_rho_rounded(k@, t@, n2@, dr@),
{
    k.checked_mul(t)?.checked_mul(n2)?.checked_mul(dr)
}

fn put_rho_steps(k: Fixed, t: Fixed, n2: Fixed, dr: Fixed) -> (rho: Option<Fixed>)
    ensures
        value(rho) == put_rho_rounded(k@, t@, n2@, dr@),
{
    let tail = Fixed::one().checked_sub(n2)?;
    Fixed::zero().checked_sub(k)?.checked_mul(t)?.checked_mul(tail)?.checked_mul(dr)
}

/// What `d_terms` returns for a contract with time to maturity `t` and
/// dividend yield `q` at the volatility `sigma` and the rate `r`: both terms
/// in rounded arithmetic where the inputs are valid and both exist.
pub open spec fn d_terms_outcome(
    valid: bool,
    t: real,
    r: real,
    q: real,
    sigma: real,
    ln: real,
) -> Result<(real, real), PricingError> {
    if !valid {
        Err(PricingError::InvalidInput)
    } else {
        match (d_plus_rounded(t, r, q, sigma, ln), d_minus_rounded(t, r, q, sigma, ln)) {
            (Some(d1), Some(d2)) => Ok((d1, d2)),
            _ => Err(PricingError::OutOfRange),
        }
    }
}

/// A pair of terms, read as real numbers.
pub open spec fn settled_pair(r: Result<(Fixed, Fixed), PricingError>) -> Result<
    (real, real),
    PricingError,
> {
    match r {
        Ok((a, b)) => Ok((a@, b@)),
        Err(e) => Err(e),
    }
}

fn d_terms_of(
    valid: bool,
    t: Fixed,
    r: Fixed,
    q: Option<Fixed>,
    sigma: Fixed,
    ln: Fixed,
) -> (d: Result<(Fixed, Fixed), PricingError>)
    requires
        valid ==> t@ > 0real && sigma@ > 0real,
    ensures
        settled_pair(d) == d_terms_outcome(valid, t@, r@, yield_or_zero(q), sigma@, ln@),
        d matches Ok((d1, d2)) ==> d_plus_within(d1@, t, r@, yield_or_zero(q), sigma@, ln@)
            && d_minus_within(d2@, t, r@, yield_or_zero(q), sigma@, ln@),
{
    if !valid {
        return Err(PricingError::InvalidInput);
    }
    let d1 = match d_plus(t, r, q, sigma, ln) {
        Ok(v) => v,
        Err(_) => {
            return Err(PricingError::OutOfRange);
        },
    };
    let d2 = match d_minus(t, r, q, sigma, ln) {
        Ok(v) => v,
        Err(_) => {
            return Err(PricingError::OutOfRange);
        },
    };
    Ok((d1, d2))
}

impl Call {
    /// The terms `d1` and `d2` of the call at the volatility `imply_vol` and
    /// the rate `interest_rate`, for `log_moneyness = ln(spot / strike)` at
    /// the spot price of that market state: the points at which the
    /// distribution values of the terms are to be taken. Time to maturity and
    /// dividend yield are the contract's own.
    ///
    /// Fails with `InvalidInput` unless the contract is valid and the
    /// volatility positive, and with `OutOfRange` where one of the terms does
    /// not exist.
    pub fn d_terms(&self, imply_vol: Fixed, interest_rate: Fixed, log_moneyness: Fixed) -> (d:
        Result<(Fixed, Fixed), PricingError>)
        ensures
            settled_pair(d) == d_terms_outcome(
                self.is_valid() && imply_vol@ > 0real,
                self.time_to_maturity@,
                interest_rate@,
                yield_or_zero(self.dividend_yield),
                imply_vol@,
                log_moneyness@,
            ),
            d matches Ok((d1, d2)) ==> d_plus_within(
                d1@,
                self.time_to_maturity,
                interest_rate@,
                yield_or_zero(self.dividend_yield),
                imply_vol@,
                log_moneyness@,
            ) && d_minus_within(
                d2@,
                self.time_to_maturity,
                interest_rate@,
                yield_or_zero(self.dividend_yield),
                imply_vol@,
                log_moneyness@,
            ),
    {
        d_terms_of(
            self.check() && imply_vol.raw > 0,
            self.time_to_maturity,
            interest_rate,
            self.dividend_yield,
            imply_vol,
            log_moneyness,
        )
    }
    /// What the call pays at expiry at the price `spot`: `max(0, spot - strike)`.
    pub fn payout(&self, spot: Fixed) -> (r: Result<Fixed, PricingError>)
        ensures
            settled(r) == outcome(true, kept(positive_part(spot@ - self.strike_price@))),
    {
        conclude(excess(spot, self.strike_price))
    }

    /// Delta: the change of the price with the spot price, `e^(-qT) N(d1)`,
    /// rounded down. It is positive and below `e^(-qT)`; where the
    /// probability has been rounded to zero or one, or the product to zero,
    /// the call fails with `OutOfRange`.
    pub fn delta(&self, terms: Terms) -> (r: Result<Fixed, PricingError>)
        ensures
            settled(r) == outcome(
                self.is_valid() && terms.is_valid(self.dividend_yield),
                call_delta_rounded(terms.cdf_d1@, dividend_factor(self.dividend_yield, terms)),
            ),
            r matches Ok(v) ==> ({
                let exact = terms.cdf_d1@ * dividend_factor(self.dividend_yield, terms);
                exact - step() < v@ <= exact
            }),
            r matches Ok(v) ==> ({
                let dq = dividend_factor(self.dividend_yield, terms);
                0real < v@ < dq && (dq <= 1real ==> v@ < 1real)
            }),
    {
        if !self.check() || !terms.check(self.dividend_yield) {
            return Err(PricingError::InvalidInput);
        }
        proof {
            lemma_delta_accuracy(terms.cdf_d1@, dividend_factor(self.dividend_yield, terms));
            lemma_deltas_inside(terms.cdf_d1, dividend_factor(self.dividend_yield, terms));
        }
        conclude(call_delta_steps(terms.cdf_d1, dividend_factor_of(self.dividend_yield, terms)))
    }

    /// Theta: the change of the price with time, per year, at the volatility
    /// `imply_vol` and the spot price `spot_price`.
    pub fn theta(&self, imply_vol: Fixed, spot_price: Fixed, terms: Terms) -> (r: Result<
        Fixed,
        PricingError,
    >)
        ensures
            settled(r) == outcome(
                self.is_valid() && terms.is_valid(self.dividend_yield) && imply_vol@ > 0real && spot_price@ > 0real,
                call_theta_rounded(*self, imply_vol@, spot_price@, terms),
            ),
            r matches Ok(v) ==> call_theta_within(v@, *self, imply_vol@, spot_price@, terms),
    {
        if !self.check() || !terms.check(self.dividend_yield) || imply_vol.raw <= 0 || spot_price.raw <= 0 {
            return Err(PricingError::InvalidInput);
        }
        let r = conclude(call_theta_steps(*self, imply_vol, spot_price, terms));
        proof {
            if r is Ok {
                lemma_call_theta_within(*self, imply_vol@, spot_price@, terms);
            }
        }
        r
    }

    /// Gamma: the change of delta with the spot price, at the volatility
    /// `imply_vol` and the spot price `spot_price`. It is positive; a gamma
    /// of less than one step fails with `OutOfRange`.
    pub fn gamma(&self, imply_vol: Fixed, spot_price: Fixed, terms: Terms) -> (r: Result<
        Fixed,
        PricingError,
    >)
        ensures
            settled(r) == outcome(
                self.is_valid() && terms.is_valid(self.dividend_yield) && imply_vol@ > 0real && spot_price@ > 0real,
                gamma_rounded(
                    terms.pdf_d1@,
                    dividend_factor(self.dividend_yield, terms),
                    spot_price@,
                    imply_vol@,
                    self.time_to_maturity@,
                ),
            ),
            r matches Ok(v) ==> v@ > 0real,
            r matches Ok(v) ==> gamma_within(
                v@,
                terms.pdf_d1@,
                dividend_factor(self.dividend_yield, terms),
                spot_price@,
                imply_vol@,
                self.time_to_maturity,
            ),
    {
        if !self.check() || !terms.check(self.dividend_yield) || imply_vol.raw <= 0 || spot_price.raw <= 0 {
            return Err(PricingError::InvalidInput);
        }
        proof {
            lemma_gamma_vega_within(
                terms.pdf_d1@,
                dividend_factor(self.dividend_yield, terms),
                spot_price@,
                imply_vol@,
                self.time_to_maturity,
            );
        }
        conclude(
            gamma_steps(
                terms.pdf_d1,
                dividend_factor_of(self.dividend_yield, terms),
                spot_price,
                imply_vol,
                self.time_to_maturity,
            ),
        )
    }

    /// Vega: the change of the price with the volatility, at the spot price
    /// `spot_price`. It is positive; a vega of less than one step fails with
    /// `OutOfRange`.
    pub fn vega(&self, spot_price: Fixed, terms: Terms) -> (r: Result<Fixed, PricingError>)
        ensures
            settled(r) == outcome(
                self.is_valid() && terms.is_valid(self.dividend_yield) && spot_price@ > 0real,
                vega_rounded(
                    spot_price@,
                    terms.pdf_d1@,
                    self.time_to_maturity@,
                    dividend_factor(self.dividend_yield, terms),
                ),
            ),
            r matches Ok(v) ==> v@ > 0real,
            r matches Ok(v) ==> vega_within(
                v@,
                spot_price@,
                terms.pdf_d1@,
                self.time_to_maturity,
                dividend_factor(self.dividend_yield, terms),
            ),
    {
        if !self.check() || !terms.check(self.dividend_yield) || spot_price.raw <= 0 {
            return Err(PricingError::InvalidInput);
        }
        proof {
            // Vega reads no volatility; any positive one serves the lemma.
            lemma_gamma_vega_within(
                terms.pdf_d1@,
                dividend_factor(self.dividend_yield, terms),
                spot_price@,
                1real,
                self.time_to_maturity,
            );
        }
        conclude(
            vega_steps(
                spot_price,
                terms.pdf_d1,
                self.time_to_maturity,
                dividend_factor_of(self.dividend_yield, terms),
            ),
        )
    }

    /// Rho: the change of the price with the interest rate,
    /// `K T e^(-rT) N(d2)`, less than `2 e^(-rT) + 1` steps below the exact
    /// value.
    pub fn rho(&self, terms: Terms) -> (r: Result<Fixed, PricingError>)
        ensures
            settled(r) == outcome(
                self.is_valid() && terms.is_valid(self.dividend_yield),
                call_rho_rounded(
                    self.strike_price@,
                    self.time_to_maturity@,
                    terms.cdf_d2@,
                    terms.rate_discount@,
                ),
            ),
            r matches Ok(v) ==> ({
                let exact = self.strike_price@ * self.time_to_maturity@ * terms.cdf_d2@
                    * terms.rate_discount@;
                exact - (2real * terms.rate_discount@ + 1real) * step() < v@ <= exact
            }),
    {
        if !self.check() || !terms.check(self.dividend_yield) {
            return Err(PricingError::InvalidInput);
        }
        proof {
            lemma_rho_accuracy(
                self.strike_price@,
                self.time_to_maturity@,
                terms.cdf_d2@,
                terms.rate_discount@,
            );
        }
        conclude(
            call_rho_steps(
                self.strike_price,
                self.time_to_maturity,
                terms.cdf_d2,
                terms.rate_discount,
            ),
        )
    }
}

impl Put {
    /// The terms `d1` and `d2` of the put at the volatility `imply_vol` and
    /// the rate `interest_rate`, for `log_moneyness = ln(spot / strike)` at
    /// the spot price of that market state: the points at which the
    /// distribution values of the terms are to be taken. Time to maturity and
    /// dividend yield are the contract's own.
    ///
    /// Fails with `InvalidInput` unless the contract is valid and the
    /// volatility positive, and with `OutOfRange` where one of the terms does
    /// not exist.
    pub fn d_terms(&self, imply_vol: Fixed, interest_rate: Fixed, log_moneyness: Fixed) -> (d:
        Result<(Fixed, Fixed), PricingError>)
        ensures
            settled_pair(d) == d_terms_outcome(
                self.is_valid() && imply_vol@ > 0real,
                self.time_to_maturity@,
                interest_rate@,
                yield_or_zero(self.dividend_yield),
                imply_vol@,
                log_moneyness@,
            ),
            d matches Ok((d1, d2)) ==> d_plus_within(
                d1@,
                self.time_to_maturity,
                interest_rate@,
                yield_or_zero(self.dividend_yield),
                imply_vol@,
                log_moneyness@,
            ) && d_minus_within(
                d2@,
                self.time_to_maturity,
                interest_rate@,
                yield_or_zero(self.dividend_yield),
                imply_vol@,
                log_moneyness@,
            ),
    {
        d_terms_of(
            self.check() && imply_vol.raw > 0,
            self.time_to_maturity,
            interest_rate,
            self.dividend_yield,
            imply_vol,
            log_moneyness,
        )
    }
    /// What the put pays at expiry at the price `spot`: `max(0, strike - spot)`.
    pub fn payout(&self, spot: Fixed) -> (r: Result<Fixed, PricingError>)
        ensures
            settled(r) == outcome(true, kept(positive_part(self.strike_price@ - spot@))),
    {
        conclude(excess(self.strike_price, spot))
    }

    /// Delta: the change of the price with the spot price,
    /// `e^(-qT) (N(d1) - 1)`, rounded down. It is negative and not below
    /// `-e^(-qT)`; where the probability has been rounded to zero or one the
    /// call fails with `OutOfRange`.
    pub fn delta(&self, terms: Terms) -> (r: Result<Fixed, PricingError>)
        ensures
            settled(r) == outcome(
                self.is_valid() && terms.is_valid(self.dividend_yield),
                put_delta_rounded(terms.cdf_d1@, dividend_factor(self.dividend_yield, terms)),
            ),
            r matches Ok(v) ==> ({
                let exact = (terms.cdf_d1@ - 1real) * dividend_factor(self.dividend_yield, terms);
                exact - step() < v@ <= exact
            }),
            r matches Ok(v) ==> ({
                let dq = dividend_factor(self.dividend_yield, terms);
                -dq <= v@ < 0real && (dq <= 1real ==> -1real < v@)
            }),
    {
        if !self.check() || !terms.check(self.dividend_yield) {
            return Err(PricingError::InvalidInput);
        }
        let dq = dividend_factor_of(self.dividend_yield, terms);
        proof {
            lemma_delta_accuracy(terms.cdf_d1@, dq@);
            lemma_put_delta_inside(terms.cdf_d1, dq);
        }
        conclude(put_delta_steps(terms.cdf_d1, dq))
    }

    /// Theta: the change of the price with time, per year, at the volatility
    /// `imply_vol` and the spot price `spot_price`.
    pub fn theta(&self, imply_vol: Fixed, spot_price: Fixed, terms: Terms) -> (r: Result<
        Fixed,
        PricingError,
    >)
        ensures
            settled(r) == outcome(
                self.is_valid() && terms.is_valid(self.dividend_yield) && imply_vol@ > 0real && spot_price@ > 0real,
                put_theta_rounded(*self, imply_vol@, spot_price@, terms),
            ),
            r matches Ok(v) ==> put_theta_within(v@, *self, imply_vol@, spot_price@, terms),
    {
        if !self.check() || !terms.check(self.dividend_yield) || imply_vol.raw <= 0 || spot_price.raw <= 0 {
            return Err(PricingError::InvalidInput);
        }
        let r = conclude(put_theta_steps(*self, imply_vol, spot_price, terms));
        proof {
            if r is Ok {
                lemma_put_theta_within(*self, imply_vol@, spot_price@, terms);
            }
        }
        r
    }

    /// Gamma: the change of delta with the spot price, at the volatility
    /// `imply_vol` and the spot price `spot_price`; the same as for a call.
    /// It is positive; a gamma of less than one step fails with
    /// `OutOfRange`.
    pub fn gamma(&self, imply_vol: Fixed, spot_price: Fixed, terms: Terms) -> (r: Result<
        Fixed,
        PricingError,
    >)
        ensures
            settled(r) == outcome(
                self.is_valid() && terms.is_valid(self.dividend_yield) && imply_vol@ > 0real && spot_price@ > 0real,
                gamma_rounded(
                    terms.pdf_d1@,
                    dividend_factor(self.dividend_yield, terms),
                    spot_price@,
                    imply_vol@,
                    self.time_to_maturity@,
                ),
            ),
            r matches Ok(v) ==> v@ > 0real,
            r matches Ok(v) ==> gamma_within(
                v@,
                terms.pdf_d1@,
                dividend_factor(self.dividend_yield, terms),
                spot_price@,
                imply_vol@,
                self.time_to_maturity,
            ),
    {
        if !self.check() || !terms.check(self.dividend_yield) || imply_vol.raw <= 0 || spot_price.raw <= 0 {
            return Err(PricingError::InvalidInput);
        }
        proof {
            lemma_gamma_vega_within(
                terms.pdf_d1@,
                dividend_factor(self.dividend_yield, terms),
                spot_price@,
                imply_vol@,
                self.time_to_maturity,
            );
        }
        conclude(
            gamma_steps(
                terms.pdf_d1,
                dividend_factor_of(self.dividend_yield, terms),
                spot_price,
                imply_vol,
                self.time_to_maturity,
            ),
        )
    }

    /// Vega: the change of the price with the volatility, at the spot price
    /// `spot_price`; the same as for a call. It is positive; a vega of less
    /// than one step fails with `OutOfRange`.
    pub fn vega(&self, spot_price: Fixed, terms: Terms) -> (r: Result<Fixed, PricingError>)
        ensures
            settled(r) == outcome(
                self.is_valid() && terms.is_valid(self.dividend_yield) && spot_price@ > 0real,
                vega_rounded(
                    spot_price@,
                    terms.pdf_d1@,
                    self.time_to_maturity@,
                    dividend_factor(self.dividend_yield, terms),
                ),
            ),
            r matches Ok(v) ==> v@ > 0real,
            r matches Ok(v) ==> vega_within(
                v@,
                spot_price@,
                terms.pdf_d1@,
                self.time_to_maturity,
                dividend_factor(self.dividend_yield, terms),
            ),
    {
        if !self.check() || !terms.check(self.dividend_yield) || spot_price.raw <= 0 {
            return Err(PricingError::InvalidInput);
        }
        proof {
            // Vega reads no volatility; any positive one serves the lemma.
            lemma_gamma_vega_within(
                terms.pdf_d1@,
                dividend_factor(self.dividend_yield, terms),
                spot_price@,
                1real,
                self.time_to_maturity,
            );
        }
        conclude(
            vega_steps(
                spot_price,
                terms.pdf_d1,
                self.time_to_maturity,
                dividend_factor_of(self.dividend_yield, terms),
            ),
        )
    }

    /// Rho: the change of the price with the interest rate,
    /// `-K T e^(-rT) N(-d2)`, less than `2 e^(-rT) + 1` steps below the
    /// exact value.
    pub fn rho(&self, terms: Terms) -> (r: Result<Fixed, PricingError>)
        ensures
            settled(r) == outcome(
                self.is_valid() && terms.is_valid(self.dividend_yield),
                put_rho_rounded(
                    self.strike_price@,
                    self.time_to_maturity@,
                    terms.cdf_d2@,
                    terms.rate_discount@,
                ),
            ),
            r matches Ok(v) ==> ({
                let exact = (0real - self.strike_price@) * self.time_to_maturity@ * (1real
                    - terms.cdf_d2@) * terms.rate_discount@;
                exact - (2real * terms.rate_discount@ + 1real) * step() < v@ <= exact
            }),
    {
        if !self.check() || !terms.check(self.dividend_yield) {
            return Err(PricingError::InvalidInput);
        }
        proof {
            lemma_rho_accuracy(
                self.strike_price@,
                self.time_to_maturity@,
                terms.cdf_d2@,
                terms.rate_discount@,
            );
        }
        conclude(
            put_rho_steps(
                self.strike_price,
                self.time_to_maturity,
                terms.cdf_d2,
                terms.rate_discount,
            ),
        )
    }
}

/// Delta of a call, where it exists, is positive and lies below the
/// dividend discount factor: in `(0, 1)` for a factor of at most one.
pub proof fn lemma_deltas_inside(n1: Fixed, dq: real)
    requires
        dq > 0real,
    ensures
        call_delta_rounded(n1@, dq) matches Some(delta) ==> 0real < delta < dq && (dq <= 1real
            ==> delta < 1real),
{
    if call_delta_rounded(n1@, dq) is Some {
        lemma_round_down_bounds(n1@ * dq);
        assert(n1@ * dq < dq) by (nonlinear_arith)
            requires
                n1@ < 1real,
                dq > 0real,
        ;
    }
}

/// Delta of a put, where it exists, is negative and not below minus the
/// dividend discount factor: in `(-1, 0)` for a factor of at most one.
pub proof fn lemma_put_delta_inside(n1: Fixed, dq: Fixed)
    requires
        dq@ > 0real,
    ensures
        put_delta_rounded(n1@, dq@) matches Some(delta) ==> -dq@ <= delta < 0real && (dq@
            <= 1real ==> -1real < delta),
{
    if 0real < n1@ < 1real {
        let a = n1.raw - 1_000_000_000;
        let b = dq.raw as int;
        let m = a * b;
        assert(n1@ - 1real == of_raw(a));
        lemma_mul_rounds_down(a, b);
        assert(-1_000_000_000 * b < m < 0) by (nonlinear_arith)
            requires
                m == a * b,
                -1_000_000_000 < a < 0,
                b > 0,
        ;
        if b == 1_000_000_000 {
            assert(m == a * 1_000_000_000);
        }
        let steps = m / 1_000_000_000;
        assert(-b <= steps <= -1);
        assert(b <= 1_000_000_000 ==> steps > -1_000_000_000);
        assert(round_down((n1@ - 1real) * dq@) == of_raw(steps));
    }
}

/// Delta of a call exists where the probability lies strictly between zero
/// and one, the dividend discount factor is at most one and their product is
/// at least one step.
pub proof fn lemma_call_delta_range(n1: real, dq: real)
    requires
        0real < n1 < 1real,
        0real < dq <= 1real,
    ensures
        call_delta_rounded(n1, dq) is Some <==> n1 * dq >= step(),
        call_delta_rounded(n1, dq) matches Some(delta) ==> 0real < delta < 1real && delta <= n1
            * dq < delta + step(),
{
    assert(0real < n1 * dq < 1real) by (nonlinear_arith)
        requires
            0real < n1 < 1real,
            0real < dq <= 1real,
    ;
    lemma_round_down_bounds(n1 * dq);
    lemma_round_down_not_negative(n1 * dq);
    assert(n1 * dq >= step() <==> n1 * dq * 1_000_000_000real >= 1real);
}

/// Delta of a put exists for every probability strictly between zero and one
/// and every dividend discount factor of at most one, and lies in `[-1, 0)`.
pub proof fn lemma_put_delta_range(n1: real, dq: real)
    requires
        0real < n1 < 1real,
        0real < dq <= 1real,
    ensures
        put_delta_rounded(n1, dq) is Some,
        ({
            let delta = put_delta_rounded(n1, dq)->Some_0;
            &&& -1real <= delta < 0real
            &&& delta <= (n1 - 1real) * dq < delta + step()
        }),
{
    let x = (n1 - 1real) * dq;
    assert(-1real < x < 0real) by (nonlinear_arith)
        requires
            x == (n1 - 1real) * dq,
            0real < n1 < 1real,
            0real < dq <= 1real,
    ;
    lemma_round_down_bounds(x);
    assert(x * 1_000_000_000real > -1_000_000_000real);
}

/// Without dividend yield nothing is rounded: for a probability `n1`
/// strictly between zero and one the delta of a call is `n1`, in `(0, 1)`,
/// the delta of a put is `n1 - 1`, in `(-1, 0)`, and their magnitudes add up
/// to one.
pub proof fn lemma_deltas_without_dividend(n1: Fixed)
    requires
        0real < n1@ < 1real,
    ensures
        call_delta_rounded(n1@, 1real) == Some(n1@),
        put_delta_rounded(n1@, 1real) == Some(n1@ - 1real),
        ({
            let call_delta = call_delta_rounded(n1@, 1real)->Some_0;
            let put_delta = put_delta_rounded(n1@, 1real)->Some_0;
            &&& 0real < call_delta < 1real
            &&& -1real < put_delta < 0real
            &&& magnitude(call_delta) + magnitude(put_delta) == 1real
        }),
{
    lemma_steps_of_raw(n1.raw as int);
    lemma_steps_of_raw(n1.raw - 1_000_000_000);
    assert(n1@ * 1real == n1@);
    assert(n1@ - 1real == of_raw(n1.raw - 1_000_000_000));
    assert((n1@ - 1real) * 1real == n1@ - 1real);
}

/// Gamma and vega are strictly positive wherever they exist.
pub proof fn lemma_gamma_vega_positive(pdf: real, dq: real, s: real, sigma: real, t: real)
    ensures
        gamma_rounded(pdf, dq, s, sigma, t) matches Some(gamma) ==> gamma > 0real,
        vega_rounded(s, pdf, t, dq) matches Some(vega) ==> vega > 0real,
{
}

/// Gamma exists exactly where the rounded density `N'(d1) e^(-qT)` is at
/// least one step times the rounded width `S sigma sqrt(T)`, the width is
/// positive and the quotient is in range.
pub proof fn lemma_gamma_exists(pdf: real, dq: real, s: real, sigma: real, t: Fixed)
    requires
        pdf >= 0real,
        dq > 0real,
        s > 0real,
        sigma > 0real,
        t.raw >= 0,
        fx_mul(Some(pdf), Some(dq)) is Some,
        fx_mul(fx_mul(Some(s), Some(sigma)), fx_sqrt(Some(t@))) is Some,
    ensures
        ({
            let density = round_down(pdf * dq);
            let width = round_down(round_down(s * sigma) * root_below(t@));
            gamma_rounded(pdf, dq, s, sigma, t@) is Some <==> width > 0real && density >= width
                * step() && in_range(round_down(density / width))
        }),
{
    lemma_root_below_holds(t);
    let density = round_down(pdf * dq);
    let spread = round_down(s * sigma);
    let width = round_down(spread * root_below(t@));
    assert(pdf * dq >= 0real) by (nonlinear_arith)
        requires
            pdf >= 0real,
            dq > 0real,
    ;
    assert(s * sigma >= 0real) by (nonlinear_arith)
        requires
            s > 0real,
            sigma > 0real,
    ;
    lemma_round_down_not_negative(pdf * dq);
    lemma_round_down_not_negative(s * sigma);
    assert(spread * root_below(t@) >= 0real) by (nonlinear_arith)
        requires
            spread >= 0real,
            root_below(t@) >= 0real,
    ;
    lemma_round_down_not_negative(spread * root_below(t@));
    if width > 0real {
        let ratio = density / width;
        assert(ratio * width == density) by (nonlinear_arith)
            requires
                ratio == density / width,
                width > 0real,
        ;
        assert(ratio >= step() <==> density >= width * step()) by (nonlinear_arith)
            requires
                ratio * width == density,
                width > 0real,
        ;
        lemma_round_down_bounds(ratio);
        assert(ratio >= step() <==> ratio * 1_000_000_000real >= 1real);
    }
}

/// Vega exists exactly where its last product is in range and at least one
/// step.
pub proof fn lemma_vega_exists(s: real, pdf: real, t: Fixed, dq: real)
    requires
        t.raw >= 0,
        fx_mul(fx_mul(Some(s), Some(pdf)), fx_sqrt(Some(t@))) is Some,
    ensures
        ({
            let scaled = round_down(round_down(s * pdf) * root_below(t@));
            vega_rounded(s, pdf, t@, dq) is Some <==> scaled * dq >= step() && in_range(
                round_down(scaled * dq),
            )
        }),
{
    let scaled = round_down(round_down(s * pdf) * root_below(t@));
    lemma_round_down_bounds(scaled * dq);
    assert(scaled * dq >= step() <==> scaled * dq * 1_000_000_000real >= 1real);
}

} // verus!
