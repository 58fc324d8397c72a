//! Closed-form valuation of vanilla options and of a convertible bond.
//!
//! All quantities are decimal fixed-point numbers ([`fixed::Fixed`]). The
//! formulas are evaluated in checked arithmetic that rounds down, and every
//! function says in its contract which rounded expression it returns and when
//! it fails. The values of the exponential and of the standard normal
//! distribution enter as [`Terms`]: the caller evaluates them at the points
//! that `Call::d_terms` and `Put::d_terms` return for the market state at
//! hand.
use vstd::prelude::*;

pub mod accuracy;
pub mod black_scholes;
pub mod exotics;
pub mod fixed;
pub mod greeks;

use crate::black_scholes::black_scholes_price;
use crate::fixed::step;
use crate::fixed::value;
use crate::fixed::Fixed;

verus! {

/// Why a valuation gave no number.
#[derive(Clone, Copy, Debug, PartialEq, Eq, Structural)]
pub enum PricingError {
    /// A quantity that has to be positive is not, or a probability lies
    /// outside `[0, 1]`.
    InvalidInput,
    /// The inputs are admissible, but a step of the formula divides by zero
    /// or leaves the range of [`Fixed`], or rounding has left nothing of a
    /// quantity that is strictly positive: a delta at a probability rounded
    /// to zero or one, or a delta, gamma or vega of less than one step.
    OutOfRange,
}

/// What a valuation returns, read as real numbers.
pub open spec fn settled(r: Result<Fixed, PricingError>) -> Result<real, PricingError> {
    match r {
        Ok(v) => Ok(v@),
        Err(e) => Err(e),
    }
}

/// The outcome of a valuation whose inputs are `valid` or not and whose
/// formula evaluates to `x`.
pub open spec fn outcome(valid: bool, x: Option<real>) -> Result<real, PricingError> {
    if !valid {
        Err(PricingError::InvalidInput)
    } else {
        match x {
            Some(v) => Ok(v),
            None => Err(PricingError::OutOfRange),
        }
    }
}

/// Turns the result of checked arithmetic on valid inputs into an outcome.
pub(crate) fn conclude(x: Option<Fixed>) -> (r: Result<Fixed, PricingError>)
    ensures
        settled(r) == outcome(true, value(x)),
        r is Ok ==> x == Some(r->Ok_0),
{
    match x {
        Some(v) => Ok(v),
        None => Err(PricingError::OutOfRange),
    }
}

/// The values of the exponential and of the standard normal distribution that
/// the closed formulas read, for one contract at one market state.
#[derive(Clone, Copy, Debug)]
pub struct Terms {
    /// `e^(-rT)`, the discount factor at the risk-free rate.
    pub rate_discount: Fixed,
    /// `e^(-qT)`, the discount factor at the dividend yield; neither read nor
    /// checked for a contract without dividend yield.
    pub dividend_discount: Fixed,
    /// `N(d1)`, the distribution function at `d1`.
    pub cdf_d1: Fixed,
    /// `N(d2)`, the distribution function at `d2`.
    pub cdf_d2: Fixed,
    /// `N'(d1)`, the density at `d1`.
    pub pdf_d1: Fixed,
}

impl Terms {
    /// Whether the terms serve a contract with the dividend yield `q`: the
    /// discount factor at the risk-free rate is positive, and so is the one
    /// at the dividend yield where the contract has a dividend yield;
    /// probabilities lie in `[0, 1]` and the density is not negative.
    pub open spec fn is_valid(&self, q: Option<Fixed>) -> bool {
        &&& self.rate_discount@ > 0real
        &&& dividend_factor(q, *self) > 0real
        &&& 0real <= self.cdf_d1@ <= 1real
        &&& 0real <= self.cdf_d2@ <= 1real
        &&& self.pdf_d1@ >= 0real
    }

    /// Collects the five values.
    pub fn new(
        rate_discount: Fixed,
        dividend_discount: Fixed,
        cdf_d1: Fixed,
        cdf_d2: Fixed,
        pdf_d1: Fixed,
    ) -> (r: Terms)
        ensures
            r.rate_discount == rate_discount,
            r.dividend_discount == dividend_discount,
            r.cdf_d1 == cdf_d1,
            r.cdf_d2 == cdf_d2,
            r.pdf_d1 == pdf_d1,
    {
        Terms { rate_discount, dividend_discount, cdf_d1, cdf_d2, pdf_d1 }
    }

    /// Whether the terms serve a contract with the dividend yield `q`.
    pub fn check(&self, q: Option<Fixed>) -> (ok: bool)
        ensures
            ok == self.is_valid(q),
    {
        self.rate_discount.raw > 0 && (q.is_none() || self.dividend_discount.raw > 0) && 0
            <= self.cdf_d1.raw && self.cdf_d1.raw <= 1_000_000_000 && 0 <= self.cdf_d2.raw
            && self.cdf_d2.raw <= 1_000_000_000 && self.pdf_d1.raw >= 0
    }
}

/// The dividend yield that a formula reads: zero where the contract has none.
pub open spec fn yield_or_zero(q: Option<Fixed>) -> real {
    match q {
        Some(v) => v@,
        None => 0real,
    }
}

/// The dividend discount factor that a formula reads: one where the contract
/// has no dividend yield.
pub open spec fn dividend_factor(q: Option<Fixed>, terms: Terms) -> real {
    match q {
        Some(_) => terms.dividend_discount@,
        None => 1real,
    }
}

/// The dividend yield of a contract, zero where it has none.
pub(crate) fn yield_of(q: Option<Fixed>) -> (r: Fixed)
    ensures
        r@ == yield_or_zero(q),
{
    match q {
        Some(v) => v,
        None => Fixed::zero(),
    }
}

/// The dividend discount factor of a contract, one where it has no dividend
/// yield.
pub(crate) fn dividend_factor_of(q: Option<Fixed>, terms: Terms) -> (r: Fixed)
    ensures
        r@ == dividend_factor(q, terms),
{
    match q {
        Some(_) => terms.dividend_discount,
        None => Fixed::one(),
    }
}

/// A call or a put.
#[derive(Clone, Copy, Debug)]
pub enum Options {
    Call(Call),
    Put(Put),
}

/// The right to buy at the strike price.
#[derive(Clone, Copy, Debug)]
pub struct Call {
    pub strike_price: Fixed,
    pub spot_price: Fixed,
    pub volatility: Fixed,
    pub risk_free_rate: Fixed,
    pub time_to_maturity: Fixed,
    pub dividend_yield: Option<Fixed>,
}

/// The right to sell at the strike price.
#[derive(Clone, Copy, Debug)]
pub struct Put {
    pub strike_price: Fixed,
    pub spot_price: Fixed,
    pub volatility: Fixed,
    pub risk_free_rate: Fixed,
    pub time_to_maturity: Fixed,
    pub dividend_yield: Option<Fixed>,
}

impl Options {
    /// Strike, spot, volatility and time to maturity are positive.
    pub open spec fn is_valid(&self) -> bool {
        match *self {
            Options::Call(c) => c.is_valid(),
            Options::Put(p) => p.is_valid(),
        }
    }

    /// The dividend yield of the contract, if it has one.
    pub open spec fn dividend_yield(&self) -> Option<Fixed> {
        match *self {
            Options::Call(c) => c.dividend_yield,
            Options::Put(p) => p.dividend_yield,
        }
    }

    /// The Black-Scholes price of the contract.
    pub fn bs_pricing(&self, terms: Terms) -> (r: Result<Fixed, PricingError>)
        ensures
            settled(r) == black_scholes::price_outcome(*self, terms),
            r matches Ok(v) ==> black_scholes::price_value(*self, terms) - 2real * step() < v@
                < black_scholes::price_value(*self, terms) + 2real * step(),
    {
        black_scholes_price(*self, terms)
    }

    /// A call with the given fields.
    pub fn new_call(
        strike_price: Fixed,
        spot_price: Fixed,
        volatility: Fixed,
        risk_free_rate: Fixed,
        time_to_maturity: Fixed,
        dividend_yield: Option<Fixed>,
    ) -> (r: Self)
        ensures
            r == Options::Call(
                Call {
                    strike_price,
                    spot_price,
                    volatility,
                    risk_free_rate,
                    time_to_maturity,
                    dividend_yield,
                },
            ),
    {
        Options::Call(
            Call::new(
                strike_price,
                spot_price,
                volatility,
                risk_free_rate,
                time_to_maturity,
                dividend_yield,
            ),
        )
    }

    /// A put with the given fields.
    pub fn new_put(
        strike_price: Fixed,
        spot_price: Fixed,
        volatility: Fixed,
        risk_free_rate: Fixed,
        time_to_maturity: Fixed,
        dividend_yield: Option<Fixed>,
    ) -> (r: Self)
        ensures
            r == Options::Put(
                Put {
                    strike_price,
                    spot_price,
                    volatility,
                    risk_free_rate,
                    time_to_maturity,
                    dividend_yield,
                },
            ),
    {
        Options::Put(
            Put::new(
                strike_price,
                spot_price,
                volatility,
                risk_free_rate,
                time_to_maturity,
                dividend_yield,
            ),
        )
    }
}

impl Call {
    /// Strike, spot, volatility and time to maturity are positive.
    pub open spec fn is_valid(&self) -> bool {
        &&& self.strike_price@ > 0real
        &&& self.spot_price@ > 0real
        &&& self.volatility@ > 0real
        &&& self.time_to_maturity@ > 0real
    }

    /// Whether the contract is valid.
    pub fn check(&self) -> (ok: bool)
        ensures
            ok == self.is_valid(),
    {
        self.strike_price.raw > 0 && self.spot_price.raw > 0 && self.volatility.raw > 0
            && self.time_to_maturity.raw > 0
    }

    /// A call with the given fields.
    pub fn new(
        strike_price: Fixed,
        spot_price: Fixed,
        volatility: Fixed,
        risk_free_rate: Fixed,
        time_to_maturity: Fixed,
        dividend_yield: Option<Fixed>,
    ) -> (r: Self)
        ensures
            r == (Call {
                strike_price,
                spot_price,
                volatility,
                risk_free_rate,
                time_to_maturity,
                dividend_yield,
            }),
    {
        Call {
            strike_price,
            spot_price,
            volatility,
            risk_free_rate,
            time_to_maturity,
            dividend_yield,
        }
    }

    /// The Black-Scholes price of the call.
    pub fn bs_pricing(&self, terms: Terms) -> (r: Result<Fixed, PricingError>)
        ensures
            settled(r) == black_scholes::price_outcome(Options::Call(*self), terms),
            r matches Ok(v) ==> black_scholes::price_value(Options::Call(*self), terms) - 2real * step() < v@
                < black_scholes::price_value(Options::Call(*self), terms) + 2real * step(),
    {
        black_scholes_price(Options::Call(*self), terms)
    }
}

impl Put {
    /// Strike, spot, volatility and time to maturity are positive.
    pub open spec fn is_valid(&self) -> bool {
        &&& self.strike_price@ > 0real
        &&& self.spot_price@ > 0real
        &&& self.volatility@ > 0real
        &&& self.time_to_maturity@ > 0real
    }

    /// Whether the contract is valid.
    pub fn check(&self) -> (ok: bool)
        ensures
            ok == self.is_valid(),
    {
        self.strike_price.raw > 0 && self.spot_price.raw > 0 && self.volatility.raw > 0
            && self.time_to_maturity.raw > 0
    }

    /// A put with the given fields.
    pub fn new(
        strike_price: Fixed,
        spot_price: Fixed,
        volatility: Fixed,
        risk_free_rate: Fixed,
        time_to_maturity: Fixed,
        dividend_yield: Option<Fixed>,
    ) -> (r: Self)
        ensures
            r == (Put {
                strike_price,
                spot_price,
                volatility,
                risk_free_rate,
                time_to_maturity,
                dividend_yield,
            }),
    {
        Put {
            strike_price,
            spot_price,
            volatility,
            risk_free_rate,
            time_to_maturity,
            dividend_yield,
        }
    }

    /// The Black-Scholes price of the put.
    pub fn bs_pricing(&self, terms: Terms) -> (r: Result<Fixed, PricingError>)
        ensures
            settled(r) == black_scholes::price_outcome(Options::Put(*self), terms),
            r matches Ok(v) ==> black_scholes::price_value(Options::Put(*self), terms) - 2real * step() < v@
                < black_scholes::price_value(Options::Put(*self), terms) + 2real * step(),
    {
        black_scholes_price(Options::Put(*self), terms)
    }
}

} // verus!
