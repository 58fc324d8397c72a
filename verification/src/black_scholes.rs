//! The Black-Scholes terms `d1` and `d2` and the price of a call or a put.
use vstd::prelude::*;

use crate::accuracy::d_minus_within;
use crate::accuracy::d_plus_within;
use crate::accuracy::lemma_d_terms_within;
use crate::conclude;
use crate::dividend_factor;
use crate::dividend_factor_of;
use crate::fixed::fx_add;
use crate::fixed::fx_div;
use crate::fixed::fx_mul;
use crate::fixed::fx_sqrt;
use crate::fixed::fx_sub;
use crate::fixed::lemma_round_down_bounds;
use crate::fixed::lemma_round_down_not_negative;
use crate::fixed::round_down;
use crate::fixed::step;
use crate::fixed::value;
use crate::fixed::Fixed;
use crate::outcome;
use crate::settled;
use crate::yield_of;
use crate::yield_or_zero;
use crate::Call;
use crate::Options;
use crate::PricingError;
use crate::Put;
use crate::Terms;

verus! {

/// `d1 = (ln(S/K) + (r - q + sigma^2 / 2) T) / (sigma sqrt(T))` in rounded
/// arithmetic, `ln` standing for `ln(S/K)`.
pub open spec fn d_plus_rounded(t: real, r: real, q: real, sigma: real, ln: real) -> Option<real> {
    let half_variance = fx_mul(fx_mul(Some(1real / 2real), Some(sigma)), Some(sigma));
    let drift = fx_add(fx_sub(Some(r), Some(q)), half_variance);
    let numerator = fx_add(Some(ln), fx_mul(drift, Some(t)));
    let denominator = fx_mul(Some(sigma), fx_sqrt(Some(t)));
    fx_div(numerator, denominator)
}

/// `d2 = (ln(S/K) + (r - q - sigma^2 / 2) T) / (sigma sqrt(T))` in rounded
/// arithmetic, `ln` standing for `ln(S/K)`.
pub open spec fn d_minus_rounded(t: real, r: real, q: real, sigma: real, ln: real) -> Option<
    real,
> {
    let half_variance = fx_mul(fx_mul(Some(1real / 2real), Some(sigma)), Some(sigma));
    let drift = fx_sub(fx_sub(Some(r), Some(q)), half_variance);
    let numerator = fx_add(Some(ln), fx_mul(drift, Some(t)));
    let denominator = fx_mul(Some(sigma), fx_sqrt(Some(t)));
    fx_div(numerator, denominator)
}

fn d_plus_steps(t: Fixed, r: Fixed, q: Fixed, sigma: Fixed, ln: Fixed) -> (d: Option<Fixed>)
    ensures
        value(d) == d_plus_rounded(t@, r@, q@, sigma@, ln@),
{
    let half = Fixed::from_raw(500_000_000);
    let half_variance = half.checked_mul(sigma)?.checked_mul(sigma)?;
    let drift = r.checked_sub(q)?.checked_add(half_variance)?;
    let numerator = ln.checked_add(drift.checked_mul(t)?)?;
    let denominator = sigma.checked_mul(t.checked_sqrt()?)?;
    numerator.checked_div(denominator)
}

fn d_minus_steps(t: Fixed, r: Fixed, q: Fixed, sigma: Fixed, ln: Fixed) -> (d: Option<Fixed>)
    ensures
        value(d) == d_minus_rounded(t@, r@, q@, sigma@, ln@),
{
    let half = Fixed::from_raw(500_000_000);
    let half_variance = half.checked_mul(sigma)?.checked_mul(sigma)?;
    let drift = r.checked_sub(q)?.checked_sub(half_variance)?;
    let numerator = ln.checked_add(drift.checked_mul(t)?)?;
    let denominator = sigma.checked_mul(t.checked_sqrt()?)?;
    numerator.checked_div(denominator)
}

/// The term `d1` for time to maturity `t`, rate `r`, dividend yield `q`,
/// volatility `sigma` and `log_moneyness = ln(spot / strike)`.
///
/// The result is the formula in rounded arithmetic, which lies within
/// `d_slack / divisor` of the exact term. Fails with `InvalidInput` unless `t`
/// and `sigma` are positive, and with `OutOfRange` where `sigma sqrt(t)`
/// rounds to zero or a step overflows.
pub fn d_plus(t: Fixed, r: Fixed, q: Option<Fixed>, sigma: Fixed, log_moneyness: Fixed) -> (d:
    Result<Fixed, PricingError>)
    ensures
        settled(d) == outcome(
            t@ > 0real && sigma@ > 0real,
            d_plus_rounded(t@, r@, yield_or_zero(q), sigma@, log_moneyness@),
        ),
        d matches Ok(v) ==> d_plus_within(v@, t, r@, yield_or_zero(q), sigma@, log_moneyness@),
{
    if t.raw <= 0 || sigma.raw <= 0 {
        return Err(PricingError::InvalidInput);
    }
    proof {
        lemma_d_terms_within(t, r@, yield_or_zero(q), sigma@, log_moneyness@);
    }
    conclude(d_plus_steps(t, r, yield_of(q), sigma, log_moneyness))
}

/// The term `d2` for time to maturity `t`, rate `r`, dividend yield `q`,
/// volatility `sigma` and `log_moneyness = ln(spot / strike)`.
///
/// The result is the formula in rounded arithmetic, which lies within
/// `d_slack / divisor` of the exact term. Fails with `InvalidInput` unless `t`
/// and `sigma` are positive, and with `OutOfRange` where `sigma sqrt(t)`
/// rounds to zero or a step overflows.
pub fn d_minus(t: Fixed, r: Fixed, q: Option<Fixed>, sigma: Fixed, log_moneyness: Fixed) -> (d:
    Result<Fixed, PricingError>)
    ensures
        settled(d) == outcome(
            t@ > 0real && sigma@ > 0real,
            d_minus_rounded(t@, r@, yield_or_zero(q), sigma@, log_moneyness@),
        ),
        d matches Ok(v) ==> d_minus_within(v@, t, r@, yield_or_zero(q), sigma@, log_moneyness@),
{
    if t.raw <= 0 || sigma.raw <= 0 {
        return Err(PricingError::InvalidInput);
    }
    proof {
        lemma_d_terms_within(t, r@, yield_or_zero(q), sigma@, log_moneyness@);
    }
    conclude(d_minus_steps(t, r, yield_of(q), sigma, log_moneyness))
}

/// `S e^(-qT) N(d1) - K e^(-rT) N(d2)` in rounded arithmetic.
pub open spec fn call_price_rounded(
    s: real,
    k: real,
    dq: real,
    dr: real,
    n1: real,
    n2: real,
) -> Option<real> {
    fx_sub(
        fx_mul(fx_mul(Some(s), Some(dq)), Some(n1)),
        fx_mul(fx_mul(Some(k), Some(dr)), Some(n2)),
    )
}

/// `K e^(-rT) N(-d2) - S e^(-qT) N(-d1)` in rounded arithmetic, with
/// `N(-x) = 1 - N(x)`.
pub open spec fn put_price_rounded(
    s: real,
    k: real,
    dq: real,
    dr: real,
    n1: real,
    n2: real,
) -> Option<real> {
    fx_sub(
        fx_mul(fx_mul(Some(k), Some(dr)), fx_sub(Some(1real), Some(n2))),
        fx_mul(fx_mul(Some(s), Some(dq)), fx_sub(Some(1real), Some(n1))),
    )
}

/// The price formula of the contract in rounded arithmetic.
pub open spec fn price_rounded(option: Options, terms: Terms) -> Option<real> {
    match option {
        Options::Call(c) => call_price_rounded(
            c.spot_price@,
            c.strike_price@,
            dividend_factor(c.dividend_yield, terms),
            terms.rate_discount@,
            terms.cdf_d1@,
            terms.cdf_d2@,
        ),
        Options::Put(p) => put_price_rounded(
            p.spot_price@,
            p.strike_price@,
            dividend_factor(p.dividend_yield, terms),
            terms.rate_discount@,
            terms.cdf_d1@,
            terms.cdf_d2@,
        ),
    }
}

/// The exact price of the contract: `S e^(-qT) N(d1) - K e^(-rT) N(d2)` for
/// a call and `K e^(-rT) N(-d2) - S e^(-qT) N(-d1)` for a put.
pub open spec fn price_value(option: Options, terms: Terms) -> real {
    match option {
        Options::Call(c) => call_value(
            c.spot_price@,
            c.strike_price@,
            dividend_factor(c.dividend_yield, terms),
            terms.rate_discount@,
            terms.cdf_d1@,
            terms.cdf_d2@,
        ),
        Options::Put(p) => put_value(
            p.spot_price@,
            p.strike_price@,
            dividend_factor(p.dividend_yield, terms),
            terms.rate_discount@,
            terms.cdf_d1@,
            terms.cdf_d2@,
        ),
    }
}

/// What [`black_scholes_price`] returns: the rounded price for a valid
/// contract and valid terms.
pub open spec fn price_outcome(option: Options, terms: Terms) -> Result<real, PricingError> {
    outcome(
        option.is_valid() && terms.is_valid(option.dividend_yield()),
        price_rounded(option, terms),
    )
}

fn call_price_steps(s: Fixed, k: Fixed, dq: Fixed, dr: Fixed, n1: Fixed, n2: Fixed) -> (p: Option<
    Fixed,
>)
    ensures
        value(p) == call_price_rounded(s@, k@, dq@, dr@, n1@, n2@),
{
    let asset = s.checked_mul(dq)?.checked_mul(n1)?;
    let cash = k.checked_mul(dr)?.checked_mul(n2)?;
    asset.checked_sub(cash)
}

fn put_price_steps(s: Fixed, k: Fixed, dq: Fixed, dr: Fixed, n1: Fixed, n2: Fixed) -> (p: Option<
    Fixed,
>)
    ensures
        value(p) == put_price_rounded(s@, k@, dq@, dr@, n1@, n2@),
{
    let one = Fixed::one();
    let cash = k.checked_mul(dr)?.checked_mul(one.checked_sub(n2)?)?;
    let asset = s.checked_mul(dq)?.checked_mul(one.checked_sub(n1)?)?;
    cash.checked_sub(asset)
}

/// The Black-Scholes price of a call or a put, dividend-adjusted: the price
/// formula in rounded arithmetic, which lies within two steps of the exact
/// price.
///
/// Fails with `InvalidInput` unless the contract and the terms are valid, and
/// with `OutOfRange` where a step of the formula overflows.
pub fn black_scholes_price(option: Options, terms: Terms) -> (price: Result<Fixed, PricingError>)
    ensures
        settled(price) == price_outcome(option, terms),
        price matches Ok(v) ==> price_value(option, terms) - 2real * step() < v@ < price_value(
            option,
            terms,
        ) + 2real * step(),
{
    match option {
        Options::Call(call) => {
            if !call.check() || !terms.check(call.dividend_yield) {
                return Err(PricingError::InvalidInput);
            }
            let price = conclude(
                call_price_steps(
                    call.spot_price,
                    call.strike_price,
                    dividend_factor_of(call.dividend_yield, terms),
                    terms.rate_discount,
                    terms.cdf_d1,
                    terms.cdf_d2,
                ),
            );
            proof {
                if price is Ok {
                    lemma_call_price_accuracy(
                        call.spot_price@,
                        call.strike_price@,
                        dividend_factor(call.dividend_yield, terms),
                        terms.rate_discount@,
                        terms.cdf_d1@,
                        terms.cdf_d2@,
                    );
                }
            }
            price
        },
        Options::Put(put) => {
            if !put.check() || !terms.check(put.dividend_yield) {
                return Err(PricingError::InvalidInput);
            }
            let price = conclude(
                put_price_steps(
                    put.spot_price,
                    put.strike_price,
                    dividend_factor_of(put.dividend_yield, terms),
                    terms.rate_discount,
                    terms.cdf_d1,
                    terms.cdf_d2,
                ),
            );
            proof {
                if price is Ok {
                    lemma_put_price_accuracy(
                        put.spot_price@,
                        put.strike_price@,
                        dividend_factor(put.dividend_yield, terms),
                        terms.rate_discount@,
                        terms.cdf_d1@,
                        terms.cdf_d2@,
                    );
                }
            }
            price
        },
    }
}

/// The exact price of a call: `S e^(-qT) N(d1) - K e^(-rT) N(d2)`.
pub open spec fn call_value(s: real, k: real, dq: real, dr: real, n1: real, n2: real) -> real {
    s * dq * n1 - k * dr * n2
}

/// The exact price of a put: `K e^(-rT) N(-d2) - S e^(-qT) N(-d1)`, with
/// `N(-x) = 1 - N(x)`.
pub open spec fn put_value(s: real, k: real, dq: real, dr: real, n1: real, n2: real) -> real {
    k * dr * (1real - n2) - s * dq * (1real - n1)
}

/// Put-call parity of the exact prices: `C - P = S e^(-qT) - K e^(-rT)`.
pub proof fn lemma_parity_exact(s: real, k: real, dq: real, dr: real, n1: real, n2: real)
    ensures
        call_value(s, k, dq, dr, n1, n2) - put_value(s, k, dq, dr, n1, n2) == s * dq - k * dr,
{
    assert(s * dq * n1 - k * dr * n2 - (k * dr * (1real - n2) - s * dq * (1real - n1)) == s * dq
        - k * dr) by (nonlinear_arith);
}

/// Rounding a product in two steps: `round_down(round_down(a b) n)` lies
/// less than two steps below `a b n` for a probability `n`.
pub proof fn lemma_leg_accuracy(a: real, b: real, n: real)
    requires
        0real <= n <= 1real,
    ensures
        a * b * n - 2real * step() < round_down(round_down(a * b) * n) <= a * b * n,
{
    let x = round_down(a * b);
    lemma_round_down_bounds(a * b);
    lemma_round_down_bounds(x * n);
    assert(a * b * n - step() <= x * n <= a * b * n) by (nonlinear_arith)
        requires
            a * b - step() < x <= a * b,
            0real <= n <= 1real,
            step() > 0real,
    ;
}

/// The rounded price of a call lies within two steps of the exact price.
pub proof fn lemma_call_price_accuracy(
    s: real,
    k: real,
    dq: real,
    dr: real,
    n1: real,
    n2: real,
)
    requires
        0real <= n1 <= 1real,
        0real <= n2 <= 1real,
        call_price_rounded(s, k, dq, dr, n1, n2) is Some,
    ensures
        ({
            let c = call_price_rounded(s, k, dq, dr, n1, n2)->Some_0;
            let exact = call_value(s, k, dq, dr, n1, n2);
            exact - 2real * step() < c < exact + 2real * step()
        }),
{
    lemma_leg_accuracy(s, dq, n1);
    lemma_leg_accuracy(k, dr, n2);
}

/// The rounded price of a put lies within two steps of the exact price.
pub proof fn lemma_put_price_accuracy(s: real, k: real, dq: real, dr: real, n1: real, n2: real)
    requires
        0real <= n1 <= 1real,
        0real <= n2 <= 1real,
        put_price_rounded(s, k, dq, dr, n1, n2) is Some,
    ensures
        ({
            let p = put_price_rounded(s, k, dq, dr, n1, n2)->Some_0;
            let exact = put_value(s, k, dq, dr, n1, n2);
            exact - 2real * step() < p < exact + 2real * step()
        }),
{
    lemma_leg_accuracy(s, dq, 1real - n1);
    lemma_leg_accuracy(k, dr, 1real - n2);
}

/// A product split by a probability and its complement, each part rounded
/// down, adds up to the product less at most two steps.
proof fn lemma_split(a: real, n: real)
    ensures
        a - 2real * step() < round_down(a * n) + round_down(a * (1real - n)) <= a,
{
    lemma_round_down_bounds(a * n);
    lemma_round_down_bounds(a * (1real - n));
    assert(a * n + a * (1real - n) == a) by (nonlinear_arith);
}

/// Put-call parity of the rounded prices: for a call and a put on the same
/// strike and spot, priced with the same terms,
/// `C - P = S e^(-qT) - K e^(-rT)` up to three steps of rounding, which is
/// far within a ten-thousandth. Without dividend yield `e^(-qT)` is one.
pub proof fn lemma_put_call_parity(call: Call, put: Put, terms: Terms)
    requires
        call.strike_price == put.strike_price,
        call.spot_price == put.spot_price,
        call.dividend_yield == put.dividend_yield,
        price_rounded(Options::Call(call), terms) is Some,
        price_rounded(Options::Put(put), terms) is Some,
    ensures
        ({
            let c = price_rounded(Options::Call(call), terms)->Some_0;
            let p = price_rounded(Options::Put(put), terms)->Some_0;
            let forward = call.spot_price@ * dividend_factor(call.dividend_yield, terms)
                - call.strike_price@ * terms.rate_discount@;
            &&& forward - 3real * step() < c - p < forward + 3real * step()
            &&& forward - 1real / 10000real < c - p < forward + 1real / 10000real
        }),
{
    let s = call.spot_price@;
    let k = call.strike_price@;
    let dq = dividend_factor(call.dividend_yield, terms);
    let dr = terms.rate_discount@;
    lemma_round_down_bounds(s * dq);
    lemma_round_down_bounds(k * dr);
    lemma_split(round_down(s * dq), terms.cdf_d1@);
    lemma_split(round_down(k * dr), terms.cdf_d2@);
}

/// How far a call is from its intrinsic value `S e^(-qT) - K e^(-rT)`: the
/// rounded price exceeds it by less than `K e^(-rT) (1 - N(d2))` and falls
/// short of it by less than `S e^(-qT) (1 - N(d1))`, each plus two steps. As
/// the call goes deep into the money both probabilities tend to one and the
/// price to the intrinsic value.
pub proof fn lemma_call_near_intrinsic(s: real, k: real, dq: real, dr: real, n1: real, n2: real)
    requires
        s > 0real,
        k > 0real,
        dq > 0real,
        dr > 0real,
        0real <= n1 <= 1real,
        0real <= n2 <= 1real,
        call_price_rounded(s, k, dq, dr, n1, n2) is Some,
    ensures
        ({
            let c = call_price_rounded(s, k, dq, dr, n1, n2)->Some_0;
            let intrinsic = s * dq - k * dr;
            &&& c - intrinsic < k * dr * (1real - n2) + 2real * step()
            &&& intrinsic - c < s * dq * (1real - n1) + 2real * step()
        }),
{
    lemma_call_price_accuracy(s, k, dq, dr, n1, n2);
    let exact = call_value(s, k, dq, dr, n1, n2);
    assert(exact - (s * dq - k * dr) == k * dr * (1real - n2) - s * dq * (1real - n1))
        by (nonlinear_arith)
        requires
            exact == s * dq * n1 - k * dr * n2,
    ;
    assert(s * dq * (1real - n1) >= 0real) by (nonlinear_arith)
        requires
            s > 0real,
            dq > 0real,
            n1 <= 1real,
    ;
    assert(k * dr * (1real - n2) >= 0real) by (nonlinear_arith)
        requires
            k > 0real,
            dr > 0real,
            n2 <= 1real,
    ;
}

/// The price exists for ordinary magnitudes: for spot and strike of at most a
/// million and discount factors of at most a thousand, no step of the price
/// of a call or of a put leaves the range.
pub proof fn lemma_price_exists(s: real, k: real, dq: real, dr: real, n1: real, n2: real)
    requires
        0real < s <= 1_000_000real,
        0real < k <= 1_000_000real,
        0real < dq <= 1000real,
        0real < dr <= 1000real,
        0real <= n1 <= 1real,
        0real <= n2 <= 1real,
    ensures
        call_price_rounded(s, k, dq, dr, n1, n2) is Some,
        put_price_rounded(s, k, dq, dr, n1, n2) is Some,
{
    lemma_leg_range(s, dq, n1);
    lemma_leg_range(k, dr, n2);
    lemma_leg_range(s, dq, 1real - n1);
    lemma_leg_range(k, dr, 1real - n2);
}

/// A leg `a b n` of a price stays within a billion for `a` of at most a
/// million, `b` of at most a thousand and a probability `n`.
proof fn lemma_leg_range(a: real, b: real, n: real)
    requires
        0real < a <= 1_000_000real,
        0real < b <= 1000real,
        0real <= n <= 1real,
    ensures
        0real <= round_down(a * b) <= 1_000_000_000real,
        0real <= round_down(round_down(a * b) * n) <= 1_000_000_000real,
{
    assert(0real <= a * b <= 1_000_000_000real) by (nonlinear_arith)
        requires
            0real < a <= 1_000_000real,
            0real < b <= 1000real,
    ;
    lemma_round_down_bounds(a * b);
    lemma_round_down_not_negative(a * b);
    let x = round_down(a * b);
    assert(0real <= x * n <= 1_000_000_000real) by (nonlinear_arith)
        requires
            0real <= x <= 1_000_000_000real,
            0real <= n <= 1real,
    ;
    lemma_round_down_bounds(x * n);
    lemma_round_down_not_negative(x * n);
}

} // verus!
