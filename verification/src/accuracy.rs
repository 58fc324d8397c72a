//! How far the rounded formulas lie from the exact ones.
//!
//! Every rounded product, quotient and square root lies less than one step
//! below the exact one. The lemmas here carry these losses through the
//! formulas and bound the distance between what the library returns and the
//! value of the closed formula over the real numbers.
use vstd::prelude::*;

use crate::black_scholes::d_minus_rounded;
use crate::black_scholes::d_plus_rounded;
use crate::black_scholes::lemma_call_price_accuracy;
use crate::dividend_factor;
use crate::exotics::cashflows_rounded;
use crate::exotics::coupons_after;
use crate::exotics::discounter_after;
use crate::exotics::fine_down;
use crate::exotics::fine_step;
use crate::exotics::periods_of;
use crate::exotics::ConvertibleBond;
use crate::fixed::fx_div;
use crate::fixed::fx_sub;
use crate::fixed::is_root_below;
use crate::fixed::lemma_root_below_holds;
use crate::fixed::lemma_round_down_bounds;
use crate::fixed::lemma_round_down_not_negative;
use crate::fixed::root_below;
use crate::fixed::round_down;
use crate::fixed::step;
use crate::fixed::Fixed;
use crate::greeks::call_delta_rounded;
use crate::greeks::call_rho_rounded;
use crate::greeks::call_theta_rounded;
use crate::greeks::carry_rounded;
use crate::greeks::decay_rounded;
use crate::greeks::dividend_flow_rounded;
use crate::greeks::gamma_rounded;
use crate::greeks::magnitude;
use crate::greeks::put_delta_rounded;
use crate::greeks::put_rho_rounded;
use crate::greeks::put_theta_rounded;
use crate::greeks::vega_rounded;
use crate::yield_or_zero;
use crate::Call;
use crate::Put;
use crate::Terms;

verus! {

/// The square root rounded down lies less than one step below the square
/// root.
pub proof fn lemma_root_below_bounds(x: Fixed, root: real)
    requires
        x.raw >= 0,
        root >= 0real,
        root * root == x@,
    ensures
        0real <= root_below(x@) <= root < root_below(x@) + step(),
{
    lemma_root_below_holds(x);
    let r = root_below(x@);
    assert(is_root_below(x@, r));
    if r > root {
        assert(r * r > root * root) by (nonlinear_arith)
            requires
                r > root,
                root >= 0real,
        ;
    }
    if root >= r + step() {
        assert(root * root >= (r + step()) * (r + step())) by (nonlinear_arith)
            requires
                root >= r + step(),
                r + step() >= 0real,
        ;
    }
}

/// A product of a number known up to `slack` from below and a factor that
/// is not negative, rounded down, is known up to `slack * factor` and one
/// step from below.
pub proof fn lemma_scaled_below(exact: real, rounded: real, slack: real, factor: real)
    requires
        exact - slack < rounded <= exact,
        factor >= 0real,
    ensures
        exact * factor - slack * factor - step() < round_down(rounded * factor) <= exact * factor,
{
    assert(exact * factor - slack * factor <= rounded * factor <= exact * factor)
        by (nonlinear_arith)
        requires
            exact - slack < rounded <= exact,
            factor >= 0real,
    ;
    lemma_round_down_bounds(rounded * factor);
}

/// A rounded quotient of a numerator known up to `slack_n` and a positive
/// divisor known up to `slack_d` from below lies within
/// `(slack_n + |n / d| slack_d) / d' + step` of the exact quotient `n / d`.
pub proof fn lemma_quotient_close(
    n: real,
    n_rounded: real,
    d: real,
    d_rounded: real,
    slack_n: real,
    slack_d: real,
)
    requires
        0real < d_rounded <= d,
        d - d_rounded < slack_d,
        magnitude(n_rounded - n) < slack_n,
    ensures
        magnitude(round_down(n_rounded / d_rounded) - n / d) * d_rounded < slack_n + magnitude(
            n / d,
        ) * slack_d + d_rounded * step(),
{
    let exact = n / d;
    let ratio = n_rounded / d_rounded;
    assert(exact * d == n) by (nonlinear_arith)
        requires
            exact == n / d,
            d > 0real,
    ;
    assert(ratio * d_rounded == n_rounded) by (nonlinear_arith)
        requires
            ratio == n_rounded / d_rounded,
            d_rounded > 0real,
    ;
    // (ratio - exact) d' = (n' - n) + exact (d - d')
    assert((ratio - exact) * d_rounded == (n_rounded - n) + exact * (d - d_rounded))
        by (nonlinear_arith)
        requires
            exact * d == n,
            ratio * d_rounded == n_rounded,
    ;
    assert(magnitude(exact * (d - d_rounded)) <= magnitude(exact) * slack_d) by (nonlinear_arith)
        requires
            0real <= d - d_rounded < slack_d,
    ;
    assert(magnitude((ratio - exact) * d_rounded) < slack_n + magnitude(exact) * slack_d);
    assert(magnitude(ratio - exact) * d_rounded == magnitude((ratio - exact) * d_rounded))
        by (nonlinear_arith)
        requires
            d_rounded > 0real,
    ;
    lemma_round_down_bounds(ratio);
    let got = round_down(ratio);
    assert(magnitude(got - exact) <= magnitude(ratio - exact) + (ratio - got));
    assert(magnitude(got - exact) * d_rounded <= magnitude(ratio - exact) * d_rounded + (ratio
        - got) * d_rounded) by (nonlinear_arith)
        requires
            magnitude(got - exact) <= magnitude(ratio - exact) + (ratio - got),
            d_rounded > 0real,
    ;
    assert((ratio - got) * d_rounded < d_rounded * step()) by (nonlinear_arith)
        requires
            0real <= ratio - got < step(),
            d_rounded > 0real,
    ;
}

/// The exact term `d1 = (ln(S/K) + (r - q + sigma^2 / 2) T) / (sigma sqrt(T))`,
/// `ln` standing for `ln(S/K)` and `root` for `sqrt(T)`.
pub open spec fn d_plus_value(t: real, r: real, q: real, sigma: real, ln: real, root: real)
    -> real {
    (ln + (r - q + sigma * sigma / 2real) * t) / (sigma * root)
}

/// The exact term `d2 = (ln(S/K) + (r - q - sigma^2 / 2) T) / (sigma sqrt(T))`,
/// `ln` standing for `ln(S/K)` and `root` for `sqrt(T)`.
pub open spec fn d_minus_value(t: real, r: real, q: real, sigma: real, ln: real, root: real)
    -> real {
    (ln + (r - q - sigma * sigma / 2real) * t) / (sigma * root)
}

/// What the rounding of `sigma^2 / 2`, of the drift times `t` and of the
/// quotient can cost `d1` and `d2`, as a multiple of the step and of the
/// rounded divisor `sigma sqrt(T)`.
pub open spec fn d_slack(t: real, sigma: real, exact: real, divisor: real) -> real {
    ((sigma + 1real) * (t + magnitude(exact)) + 1real + divisor) * step()
}

/// Half the variance, rounded in two steps, lies less than `sigma + 1` steps
/// below `sigma^2 / 2`.
proof fn lemma_half_variance(sigma: real)
    requires
        sigma > 0real,
    ensures
        ({
            let rounded = round_down(round_down((1real / 2real) * sigma) * sigma);
            sigma * sigma / 2real - (sigma + 1real) * step() < rounded <= sigma * sigma / 2real
        }),
{
    let half = (1real / 2real) * sigma;
    lemma_round_down_bounds(half);
    lemma_scaled_below(half, round_down(half), step(), sigma);
    assert(half * sigma == sigma * sigma / 2real) by (nonlinear_arith)
        requires
            half == (1real / 2real) * sigma,
    ;
    assert(step() * sigma + step() == (sigma + 1real) * step()) by (nonlinear_arith);
}

/// The rounded divisor `sigma sqrt(T)` is positive where it is not zero and
/// lies less than `sigma + 1` steps below the exact one.
proof fn lemma_divisor(t: Fixed, sigma: real, root: real)
    requires
        t@ > 0real,
        sigma > 0real,
        root >= 0real,
        root * root == t@,
    ensures
        ({
            let rounded = round_down(sigma * root_below(t@));
            sigma * root - (sigma + 1real) * step() < rounded <= sigma * root && rounded >= 0real
        }),
{
    lemma_root_below_bounds(t, root);
    let w = root_below(t@);
    assert(sigma * root - sigma * step() <= sigma * w <= sigma * root && sigma * w >= 0real)
        by (nonlinear_arith)
        requires
            0real <= w <= root < w + step(),
            sigma > 0real,
    ;
    lemma_round_down_bounds(sigma * w);
    lemma_round_down_not_negative(sigma * w);
    assert(sigma * step() + step() == (sigma + 1real) * step()) by (nonlinear_arith);
}

/// The accuracy of `d1`: where the rounded term exists, it lies within
/// `d_slack / divisor` of the exact term, `divisor` being the rounded
/// `sigma sqrt(T)`, which is positive.
pub proof fn lemma_d_plus_accuracy(t: Fixed, r: real, q: real, sigma: real, ln: real, root: real)
    requires
        t@ > 0real,
        sigma > 0real,
        root >= 0real,
        root * root == t@,
        d_plus_rounded(t@, r, q, sigma, ln) is Some,
    ensures
        ({
            let rounded = d_plus_rounded(t@, r, q, sigma, ln)->Some_0;
            let exact = d_plus_value(t@, r, q, sigma, ln, root);
            let divisor = round_down(sigma * root_below(t@));
            &&& divisor > 0real
            &&& magnitude(rounded - exact) * divisor < d_slack(t@, sigma, exact, divisor)
        }),
{
    let half_variance = round_down(round_down((1real / 2real) * sigma) * sigma);
    let drift_rounded = r - q + half_variance;
    let drift = r - q + sigma * sigma / 2real;
    let n = ln + drift * t@;
    let n_rounded = ln + round_down(drift_rounded * t@);
    let d = sigma * root;
    let d_rounded = round_down(sigma * root_below(t@));
    let slack_n = ((sigma + 1real) * t@ + 1real) * step();
    let slack_d = (sigma + 1real) * step();
    lemma_half_variance(sigma);
    lemma_scaled_below(drift, drift_rounded, (sigma + 1real) * step(), t@);
    assert((sigma + 1real) * step() * t@ + step() == slack_n) by (nonlinear_arith)
        requires
            slack_n == ((sigma + 1real) * t@ + 1real) * step(),
    ;
    lemma_divisor(t, sigma, root);
    lemma_quotient_close(n, n_rounded, d, d_rounded, slack_n, slack_d);
    let exact = n / d;
    assert(slack_n + magnitude(exact) * slack_d + d_rounded * step() == d_slack(
        t@,
        sigma,
        exact,
        d_rounded,
    )) by (nonlinear_arith)
        requires
            slack_n == ((sigma + 1real) * t@ + 1real) * step(),
            slack_d == (sigma + 1real) * step(),
            d_slack(t@, sigma, exact, d_rounded) == ((sigma + 1real) * (t@ + magnitude(exact))
                + 1real + d_rounded) * step(),
    ;
}

/// The accuracy of `d2`: where the rounded term exists, it lies within
/// `d_slack / divisor` of the exact term, `divisor` being the rounded
/// `sigma sqrt(T)`, which is positive.
pub proof fn lemma_d_minus_accuracy(t: Fixed, r: real, q: real, sigma: real, ln: real, root: real)
    requires
        t@ > 0real,
        sigma > 0real,
        root >= 0real,
        root * root == t@,
        d_minus_rounded(t@, r, q, sigma, ln) is Some,
    ensures
        ({
            let rounded = d_minus_rounded(t@, r, q, sigma, ln)->Some_0;
            let exact = d_minus_value(t@, r, q, sigma, ln, root);
            let divisor = round_down(sigma * root_below(t@));
            &&& divisor > 0real
            &&& magnitude(rounded - exact) * divisor < d_slack(t@, sigma, exact, divisor)
        }),
{
    let half_variance = round_down(round_down((1real / 2real) * sigma) * sigma);
    let drift_rounded = r - q - half_variance;
    let drift = r - q - sigma * sigma / 2real;
    let n = ln + drift * t@;
    let n_rounded = ln + round_down(drift_rounded * t@);
    let d = sigma * root;
    let d_rounded = round_down(sigma * root_below(t@));
    let slack_n = ((sigma + 1real) * t@ + 1real) * step();
    let slack_d = (sigma + 1real) * step();
    lemma_half_variance(sigma);
    // Here the rounded drift lies above the exact one.
    assert(drift * t@ <= drift_rounded * t@ < drift * t@ + (sigma + 1real) * step() * t@)
        by (nonlinear_arith)
        requires
            drift <= drift_rounded < drift + (sigma + 1real) * step(),
            t@ > 0real,
    ;
    lemma_round_down_bounds(drift_rounded * t@);
    assert((sigma + 1real) * step() * t@ + step() == slack_n) by (nonlinear_arith)
        requires
            slack_n == ((sigma + 1real) * t@ + 1real) * step(),
    ;
    assert((sigma + 1real) * step() * t@ >= 0real) by (nonlinear_arith)
        requires
            sigma > 0real,
            t@ > 0real,
            step() > 0real,
    ;
    lemma_divisor(t, sigma, root);
    lemma_quotient_close(n, n_rounded, d, d_rounded, slack_n, slack_d);
    let exact = n / d;
    assert(slack_n + magnitude(exact) * slack_d + d_rounded * step() == d_slack(
        t@,
        sigma,
        exact,
        d_rounded,
    )) by (nonlinear_arith)
        requires
            slack_n == ((sigma + 1real) * t@ + 1real) * step(),
            slack_d == (sigma + 1real) * step(),
            d_slack(t@, sigma, exact, d_rounded) == ((sigma + 1real) * (t@ + magnitude(exact))
                + 1real + d_rounded) * step(),
    ;
}

/// A product of four factors rounded after every multiplication, the last
/// two factors not negative, lies less than `(c + 1) d + 1` steps below the
/// exact product.
pub proof fn lemma_chain(a: real, b: real, c: real, d: real)
    requires
        c >= 0real,
        d >= 0real,
    ensures
        ({
            let rounded = round_down(round_down(round_down(a * b) * c) * d);
            a * b * c * d - ((c + 1real) * d + 1real) * step() < rounded <= a * b * c * d
        }),
{
    lemma_round_down_bounds(a * b);
    lemma_scaled_below(a * b, round_down(a * b), step(), c);
    let second = round_down(round_down(a * b) * c);
    lemma_scaled_below(a * b * c, second, step() * c + step(), d);
    assert((step() * c + step()) * d + step() == ((c + 1real) * d + 1real) * step())
        by (nonlinear_arith);
}

/// Delta lies less than one step below the exact `N(d1) e^(-qT)` for a call
/// and `(N(d1) - 1) e^(-qT)` for a put.
pub proof fn lemma_delta_accuracy(n1: real, dq: real)
    ensures
        call_delta_rounded(n1, dq) is Some ==> ({
            let rounded = call_delta_rounded(n1, dq)->Some_0;
            n1 * dq - step() < rounded <= n1 * dq
        }),
        put_delta_rounded(n1, dq) is Some ==> ({
            let rounded = put_delta_rounded(n1, dq)->Some_0;
            (n1 - 1real) * dq - step() < rounded <= (n1 - 1real) * dq
        }),
{
    lemma_round_down_bounds(n1 * dq);
    lemma_round_down_bounds((n1 - 1real) * dq);
}

/// The exact gamma `N'(d1) e^(-qT) / (S sigma sqrt(T))`, `root` standing for
/// `sqrt(T)`.
pub open spec fn gamma_value(pdf: real, dq: real, s: real, sigma: real, root: real) -> real {
    (pdf * dq) / (s * sigma * root)
}

/// What the rounding can cost gamma, as a multiple of the step and of the
/// rounded width `S sigma sqrt(T)`.
pub open spec fn gamma_slack(s: real, sigma: real, root: real, exact: real, width: real) -> real {
    (1real + magnitude(exact) * (s * sigma + root + 1real) + width) * step()
}

/// The rounded product of a rounded factor and the rounded root lies less
/// than `x + root + 1` steps below `x root`.
proof fn lemma_times_root(x: real, t: Fixed, root: real)
    requires
        x >= 0real,
        t.raw >= 0,
        root >= 0real,
        root * root == t@,
    ensures
        ({
            let rounded = round_down(round_down(x) * root_below(t@));
            &&& x * root - (x + root + 1real) * step() < rounded <= x * root
            &&& rounded >= 0real
        }),
{
    lemma_root_below_bounds(t, root);
    lemma_round_down_bounds(x);
    lemma_round_down_not_negative(x);
    let a = round_down(x);
    let w = root_below(t@);
    assert(x * root - a * w == x * (root - w) + w * (x - a)) by (nonlinear_arith);
    assert(0real <= x * (root - w) <= x * step()) by (nonlinear_arith)
        requires
            x >= 0real,
            0real <= root - w < step(),
    ;
    assert(0real <= w * (x - a) <= root * step()) by (nonlinear_arith)
        requires
            0real <= w <= root,
            0real <= x - a < step(),
    ;
    assert(a * w >= 0real) by (nonlinear_arith)
        requires
            a >= 0real,
            w >= 0real,
    ;
    lemma_round_down_bounds(a * w);
    lemma_round_down_not_negative(a * w);
    assert(x * step() + root * step() + step() == (x + root + 1real) * step())
        by (nonlinear_arith);
}

/// The accuracy of gamma: where the rounded gamma exists, it lies within
/// `gamma_slack / width` of the exact one, `width` being the rounded
/// `S sigma sqrt(T)`, which is positive.
pub proof fn lemma_gamma_accuracy(
    pdf: real,
    dq: real,
    s: real,
    sigma: real,
    t: Fixed,
    root: real,
)
    requires
        pdf >= 0real,
        dq > 0real,
        s > 0real,
        sigma > 0real,
        t@ > 0real,
        root >= 0real,
        root * root == t@,
        gamma_rounded(pdf, dq, s, sigma, t@) is Some,
    ensures
        ({
            let rounded = gamma_rounded(pdf, dq, s, sigma, t@)->Some_0;
            let exact = gamma_value(pdf, dq, s, sigma, root);
            let width = round_down(round_down(s * sigma) * root_below(t@));
            &&& width > 0real
            &&& magnitude(rounded - exact) * width < gamma_slack(s, sigma, root, exact, width)
        }),
{
    let n = pdf * dq;
    let n_rounded = round_down(n);
    let d = s * sigma * root;
    let d_rounded = round_down(round_down(s * sigma) * root_below(t@));
    let slack_d = (s * sigma + root + 1real) * step();
    lemma_round_down_bounds(n);
    assert(s * sigma >= 0real) by (nonlinear_arith)
        requires
            s > 0real,
            sigma > 0real,
    ;
    lemma_times_root(s * sigma, t, root);
    lemma_quotient_close(n, n_rounded, d, d_rounded, step(), slack_d);
    let exact = n / d;
    assert(step() + magnitude(exact) * slack_d + d_rounded * step() == gamma_slack(
        s,
        sigma,
        root,
        exact,
        d_rounded,
    )) by (nonlinear_arith)
        requires
            slack_d == (s * sigma + root + 1real) * step(),
            gamma_slack(s, sigma, root, exact, d_rounded) == (1real + magnitude(exact) * (s
                * sigma + root + 1real) + d_rounded) * step(),
    ;
}

/// The exact vega `S N'(d1) sqrt(T) e^(-qT)`, `root` standing for `sqrt(T)`.
pub open spec fn vega_value(s: real, pdf: real, root: real, dq: real) -> real {
    s * pdf * root * dq
}

/// The accuracy of vega: where the rounded vega exists, it lies less than
/// `(S N'(d1) + sqrt(T) + 1) e^(-qT) + 1` steps below the exact one.
pub proof fn lemma_vega_accuracy(s: real, pdf: real, t: Fixed, root: real, dq: real)
    requires
        pdf >= 0real,
        dq > 0real,
        s > 0real,
        t@ > 0real,
        root >= 0real,
        root * root == t@,
        vega_rounded(s, pdf, t@, dq) is Some,
    ensures
        ({
            let rounded = vega_rounded(s, pdf, t@, dq)->Some_0;
            let exact = vega_value(s, pdf, root, dq);
            exact - ((s * pdf + root + 1real) * dq + 1real) * step() < rounded <= exact
        }),
{
    assert(s * pdf >= 0real) by (nonlinear_arith)
        requires
            s > 0real,
            pdf >= 0real,
    ;
    lemma_times_root(s * pdf, t, root);
    let scaled = round_down(round_down(s * pdf) * root_below(t@));
    let slack = (s * pdf + root + 1real) * step();
    lemma_scaled_below(s * pdf * root, scaled, slack, dq);
    assert(slack * dq + step() == ((s * pdf + root + 1real) * dq + 1real) * step())
        by (nonlinear_arith)
        requires
            slack == (s * pdf + root + 1real) * step(),
    ;
}

/// The accuracy of rho: where the rounded rho exists, it lies less than
/// `2 e^(-rT) + 1` steps below the exact `K T N(d2) e^(-rT)` for a call and
/// `-K T (1 - N(d2)) e^(-rT)` for a put.
pub proof fn lemma_rho_accuracy(k: real, t: real, n2: real, dr: real)
    requires
        0real <= n2 <= 1real,
        dr > 0real,
    ensures
        call_rho_rounded(k, t, n2, dr) is Some ==> ({
            let rounded = call_rho_rounded(k, t, n2, dr)->Some_0;
            let exact = k * t * n2 * dr;
            exact - (2real * dr + 1real) * step() < rounded <= exact
        }),
        put_rho_rounded(k, t, n2, dr) is Some ==> ({
            let rounded = put_rho_rounded(k, t, n2, dr)->Some_0;
            let exact = (0real - k) * t * (1real - n2) * dr;
            exact - (2real * dr + 1real) * step() < rounded <= exact
        }),
{
    lemma_chain(k, t, n2, dr);
    lemma_chain(0real - k, t, 1real - n2, dr);
    assert(((n2 + 1real) * dr + 1real) * step() <= (2real * dr + 1real) * step())
        by (nonlinear_arith)
        requires
            0real <= n2 <= 1real,
            dr > 0real,
            step() > 0real,
    ;
    assert((((1real - n2) + 1real) * dr + 1real) * step() <= (2real * dr + 1real) * step())
        by (nonlinear_arith)
        requires
            0real <= n2 <= 1real,
            dr > 0real,
            step() > 0real,
    ;
}

/// The exact decay `-S N'(d1) sigma e^(-qT) / (2 sqrt(T))`, `root` standing
/// for `sqrt(T)`.
pub open spec fn decay_value(s: real, pdf: real, sigma: real, dq: real, root: real) -> real {
    (0real - s * pdf * sigma * dq) / (2real * root)
}

/// The exact theta of a call,
/// `-S N'(d1) sigma e^(-qT) / (2 sqrt(T)) + q S N(d1) e^(-qT) - r K e^(-rT) N(d2)`,
/// `root` standing for `sqrt(T)`.
pub open spec fn call_theta_value(c: Call, sigma: real, s: real, terms: Terms, root: real)
    -> real {
    let dq = dividend_factor(c.dividend_yield, terms);
    decay_value(s, terms.pdf_d1@, sigma, dq, root) + yield_or_zero(c.dividend_yield) * s * dq
        * terms.cdf_d1@ - c.risk_free_rate@ * c.strike_price@ * terms.rate_discount@
        * terms.cdf_d2@
}

/// The exact theta of a put,
/// `-S N'(d1) sigma e^(-qT) / (2 sqrt(T)) - q S N(-d1) e^(-qT) + r K e^(-rT) N(-d2)`,
/// with `N(-x) = 1 - N(x)` and `root` standing for `sqrt(T)`.
pub open spec fn put_theta_value(p: Put, sigma: real, s: real, terms: Terms, root: real) -> real {
    let dq = dividend_factor(p.dividend_yield, terms);
    decay_value(s, terms.pdf_d1@, sigma, dq, root) - yield_or_zero(p.dividend_yield) * s * dq * (
    1real - terms.cdf_d1@) + p.risk_free_rate@ * p.strike_price@ * terms.rate_discount@ * (1real
        - terms.cdf_d2@)
}

/// What the rounding can cost theta, as a multiple of the step and of the
/// rounded span `2 sqrt(T)`.
pub open spec fn theta_slack(sigma: real, dq: real, dr: real, decay: real, span: real) -> real {
    ((sigma + 1real) * dq + 1real + 3real * magnitude(decay) + (dq + dr + 5real) * span) * step()
}

/// The accuracy of the decay: where the rounded decay exists, it lies
/// within `((sigma + 1) e^(-qT) + 1 + 3 |decay| + span) steps / span` of the
/// exact one, `span` being the rounded `2 sqrt(T)`, which is positive.
pub proof fn lemma_decay_accuracy(
    s: real,
    pdf: real,
    sigma: real,
    dq: real,
    t: Fixed,
    root: real,
)
    requires
        sigma > 0real,
        dq > 0real,
        t@ > 0real,
        root >= 0real,
        root * root == t@,
        decay_rounded(s, pdf, sigma, dq, t@) is Some,
    ensures
        ({
            let rounded = decay_rounded(s, pdf, sigma, dq, t@)->Some_0;
            let exact = decay_value(s, pdf, sigma, dq, root);
            let span = round_down(2real * root_below(t@));
            &&& span > 0real
            &&& magnitude(rounded - exact) * span < ((sigma + 1real) * dq + 1real + 3real
                * magnitude(exact) + span) * step()
        }),
{
    lemma_chain(s, pdf, sigma, dq);
    let spread = round_down(round_down(round_down(s * pdf) * sigma) * dq);
    let n = 0real - s * pdf * sigma * dq;
    let n_rounded = 0real - spread;
    let slack_n = ((sigma + 1real) * dq + 1real) * step();
    lemma_root_below_bounds(t, root);
    let w = root_below(t@);
    lemma_round_down_bounds(2real * w);
    lemma_round_down_not_negative(2real * w);
    let d = 2real * root;
    let d_rounded = round_down(2real * w);
    lemma_quotient_close(n, n_rounded, d, d_rounded, slack_n, 3real * step());
    let exact = n / d;
    assert(slack_n + magnitude(exact) * (3real * step()) + d_rounded * step() == ((sigma + 1real)
        * dq + 1real + 3real * magnitude(exact) + d_rounded) * step()) by (nonlinear_arith)
        requires
            slack_n == ((sigma + 1real) * dq + 1real) * step(),
    ;
}

/// The dividend flow `q S e^(-qT) n` lies less than `e^(-qT) + 2` steps
/// below the exact one for a probability `n`.
proof fn lemma_flow_accuracy(q: Option<Fixed>, s: real, dq: real, n: real)
    requires
        dq > 0real,
        0real <= n <= 1real,
        dividend_flow_rounded(q, s, dq, Some(n)) is Some,
    ensures
        ({
            let rounded = dividend_flow_rounded(q, s, dq, Some(n))->Some_0;
            let exact = yield_or_zero(q) * s * dq * n;
            exact - (dq + 2real) * step() < rounded <= exact
        }),
{
    match q {
        Some(y) => {
            lemma_chain(y@, s, dq, n);
            assert(((dq + 1real) * n + 1real) * step() <= (dq + 2real) * step())
                by (nonlinear_arith)
                requires
                    dq > 0real,
                    0real <= n <= 1real,
                    step() > 0real,
            ;
        },
        None => {
            assert(0real * s * dq * n == 0real) by (nonlinear_arith);
            assert((dq + 2real) * step() > 0real) by (nonlinear_arith)
                requires
                    dq > 0real,
                    step() > 0real,
            ;
        },
    }
}

/// The carry `r K e^(-rT) n` lies less than `e^(-rT) + 2` steps below the
/// exact one for a probability `n`.
proof fn lemma_carry_accuracy(r: real, k: real, dr: real, n: real)
    requires
        dr > 0real,
        0real <= n <= 1real,
        carry_rounded(r, k, dr, Some(n)) is Some,
    ensures
        ({
            let rounded = carry_rounded(r, k, dr, Some(n))->Some_0;
            let exact = r * k * dr * n;
            exact - (dr + 2real) * step() < rounded <= exact
        }),
{
    lemma_chain(r, k, dr, n);
    assert(((dr + 1real) * n + 1real) * step() <= (dr + 2real) * step()) by (nonlinear_arith)
        requires
            dr > 0real,
            0real <= n <= 1real,
            step() > 0real,
    ;
}

/// The accuracy of the theta of a call: where the rounded theta exists, it
/// lies within `theta_slack / span` of the exact one, `span` being the
/// rounded `2 sqrt(T)`, which is positive.
pub proof fn lemma_call_theta_accuracy(c: Call, sigma: real, s: real, terms: Terms, root: real)
    requires
        terms.is_valid(c.dividend_yield),
        sigma > 0real,
        c.time_to_maturity@ > 0real,
        root >= 0real,
        root * root == c.time_to_maturity@,
        call_theta_rounded(c, sigma, s, terms) is Some,
    ensures
        ({
            let rounded = call_theta_rounded(c, sigma, s, terms)->Some_0;
            let exact = call_theta_value(c, sigma, s, terms, root);
            let dq = dividend_factor(c.dividend_yield, terms);
            let decay = decay_value(s, terms.pdf_d1@, sigma, dq, root);
            let span = round_down(2real * root_below(c.time_to_maturity@));
            &&& span > 0real
            &&& magnitude(rounded - exact) * span < theta_slack(
                sigma,
                dq,
                terms.rate_discount@,
                decay,
                span,
            )
        }),
{
    let dq = dividend_factor(c.dividend_yield, terms);
    let dr = terms.rate_discount@;
    let t = c.time_to_maturity;
    lemma_decay_accuracy(s, terms.pdf_d1@, sigma, dq, t, root);
    lemma_flow_accuracy(c.dividend_yield, s, dq, terms.cdf_d1@);
    lemma_carry_accuracy(c.risk_free_rate@, c.strike_price@, dr, terms.cdf_d2@);
    let decay_r = decay_rounded(s, terms.pdf_d1@, sigma, dq, t@)->Some_0;
    let flow_r = dividend_flow_rounded(c.dividend_yield, s, dq, Some(terms.cdf_d1@))->Some_0;
    let carry_r = carry_rounded(c.risk_free_rate@, c.strike_price@, dr, Some(terms.cdf_d2@))->Some_0;
    let decay = decay_value(s, terms.pdf_d1@, sigma, dq, root);
    let flow = yield_or_zero(c.dividend_yield) * s * dq * terms.cdf_d1@;
    let carry = c.risk_free_rate@ * c.strike_price@ * dr * terms.cdf_d2@;
    let span = round_down(2real * root_below(t@));
    lemma_sum_of_parts(
        decay_r - decay,
        (flow_r - flow) - (carry_r - carry),
        span,
        ((sigma + 1real) * dq + 1real + 3real * magnitude(decay) + span) * step(),
        (dq + dr + 4real) * step(),
    );
    assert(((sigma + 1real) * dq + 1real + 3real * magnitude(decay) + span) * step() + (dq + dr
        + 4real) * step() * span == theta_slack(sigma, dq, dr, decay, span)) by (nonlinear_arith)
        requires
            theta_slack(sigma, dq, dr, decay, span) == ((sigma + 1real) * dq + 1real + 3real
                * magnitude(decay) + (dq + dr + 5real) * span) * step(),
    ;
}

/// The accuracy of the theta of a put: where the rounded theta exists, it
/// lies within `theta_slack / span` of the exact one, `span` being the
/// rounded `2 sqrt(T)`, which is positive.
pub proof fn lemma_put_theta_accuracy(p: Put, sigma: real, s: real, terms: Terms, root: real)
    requires
        terms.is_valid(p.dividend_yield),
        sigma > 0real,
        p.time_to_maturity@ > 0real,
        root >= 0real,
        root * root == p.time_to_maturity@,
        put_theta_rounded(p, sigma, s, terms) is Some,
    ensures
        ({
            let rounded = put_theta_rounded(p, sigma, s, terms)->Some_0;
            let exact = put_theta_value(p, sigma, s, terms, root);
            let dq = dividend_factor(p.dividend_yield, terms);
            let decay = decay_value(s, terms.pdf_d1@, sigma, dq, root);
            let span = round_down(2real * root_below(p.time_to_maturity@));
            &&& span > 0real
            &&& magnitude(rounded - exact) * span < theta_slack(
                sigma,
                dq,
                terms.rate_discount@,
                decay,
                span,
            )
        }),
{
    let dq = dividend_factor(p.dividend_yield, terms);
    let dr = terms.rate_discount@;
    let t = p.time_to_maturity;
    let m1 = 1real - terms.cdf_d1@;
    let m2 = 1real - terms.cdf_d2@;
    assert(fx_sub(Some(1real), Some(terms.cdf_d1@)) == Some(m1));
    assert(fx_sub(Some(1real), Some(terms.cdf_d2@)) == Some(m2));
    lemma_decay_accuracy(s, terms.pdf_d1@, sigma, dq, t, root);
    lemma_flow_accuracy(p.dividend_yield, s, dq, m1);
    lemma_carry_accuracy(p.risk_free_rate@, p.strike_price@, dr, m2);
    let decay_r = decay_rounded(s, terms.pdf_d1@, sigma, dq, t@)->Some_0;
    let flow_r = dividend_flow_rounded(p.dividend_yield, s, dq, Some(m1))->Some_0;
    let carry_r = carry_rounded(p.risk_free_rate@, p.strike_price@, dr, Some(m2))->Some_0;
    let decay = decay_value(s, terms.pdf_d1@, sigma, dq, root);
    let flow = yield_or_zero(p.dividend_yield) * s * dq * m1;
    let carry = p.risk_free_rate@ * p.strike_price@ * dr * m2;
    let span = round_down(2real * root_below(t@));
    lemma_sum_of_parts(
        decay_r - decay,
        (carry_r - carry) - (flow_r - flow),
        span,
        ((sigma + 1real) * dq + 1real + 3real * magnitude(decay) + span) * step(),
        (dq + dr + 4real) * step(),
    );
    assert(((sigma + 1real) * dq + 1real + 3real * magnitude(decay) + span) * step() + (dq + dr
        + 4real) * step() * span == theta_slack(sigma, dq, dr, decay, span)) by (nonlinear_arith)
        requires
            theta_slack(sigma, dq, dr, decay, span) == ((sigma + 1real) * dq + 1real + 3real
                * magnitude(decay) + (dq + dr + 5real) * span) * step(),
    ;
}

/// Two errors, the first bounded after scaling by `span` and the second
/// bounded outright, add up to a bound after scaling.
proof fn lemma_sum_of_parts(first: real, second: real, span: real, bound: real, plain: real)
    requires
        span > 0real,
        magnitude(first) * span < bound,
        magnitude(second) < plain,
    ensures
        magnitude(first + second) * span < bound + plain * span,
{
    assert(magnitude(first + second) <= magnitude(first) + magnitude(second));
    assert(magnitude(first + second) * span <= magnitude(first) * span + magnitude(second) * span)
        by (nonlinear_arith)
        requires
            magnitude(first + second) <= magnitude(first) + magnitude(second),
            span > 0real,
    ;
    assert(magnitude(second) * span < plain * span) by (nonlinear_arith)
        requires
            magnitude(second) < plain,
            span > 0real,
    ;
}

/// `g^n`: the exact discount divisor after `n` periods.
pub open spec fn growth_power(g: real, n: nat) -> real
    decreases n,
{
    if n == 0 {
        1real
    } else {
        growth_power(g, (n - 1) as nat) * g
    }
}

/// The exact present value of `n` coupons of `c` each:
/// `c / g + c / g^2 + ... + c / g^n`.
pub open spec fn annuity_value(c: real, g: real, n: nat) -> real
    decreases n,
{
    if n == 0 {
        0real
    } else {
        annuity_value(c, g, (n - 1) as nat) + c / growth_power(g, n)
    }
}

/// The exact present value of `n` coupons of `c` each and of the principal
/// `face` after `n` periods, at the growth factor `g` per period.
pub open spec fn cashflows_value(face: real, c: real, g: real, n: nat) -> real {
    annuity_value(c, g, n) + face / growth_power(g, n)
}

/// What the rounding can cost the discount divisor after `k` periods:
/// `(1 + g + ... + g^(k-1))` fine steps.
pub open spec fn divisor_slack(g: real, k: nat) -> real
    decreases k,
{
    if k == 0 {
        0real
    } else {
        divisor_slack(g, (k - 1) as nat) * g + fine_step()
    }
}

/// What the rounding of the divisor can add to a payment of `amount` after
/// `k` periods: `amount * divisor_slack / (divisor * g^k)`, `divisor` being
/// the rounded divisor.
pub open spec fn payment_slack(amount: real, g: real, k: nat) -> real {
    amount * divisor_slack(g, k) / (discounter_after(g, k)->Some_0 * growth_power(g, k))
}

/// What the rounding of the divisor can add to the first `n` coupons.
pub open spec fn coupons_slack(c: real, g: real, n: nat) -> real
    decreases n,
{
    if n == 0 {
        0real
    } else {
        coupons_slack(c, g, (n - 1) as nat) + payment_slack(c, g, n)
    }
}

/// What the rounding of the divisor can add to the present value of the
/// cashflows.
pub open spec fn cashflows_slack(face: real, c: real, g: real, n: nat) -> real {
    coupons_slack(c, g, n) + payment_slack(face, g, n)
}

/// Rounding down to the fine step loses less than one fine step and keeps a
/// number that is not negative from becoming negative.
pub proof fn lemma_fine_down_bounds(x: real)
    ensures
        fine_down(x) <= x < fine_down(x) + fine_step(),
        x >= 0real ==> fine_down(x) >= 0real,
        x >= 1real ==> fine_down(x) >= 1real,
{
    let k = (x * 1_000_000_000_000_000_000real).floor();
    assert(k as real <= x * 1_000_000_000_000_000_000real < (k + 1) as real);
}

/// For a growth factor that is not negative, the rounded discount divisor
/// after `k` periods is not negative and lies at most `divisor_slack` below
/// `g^k`.
pub proof fn lemma_discounter_accuracy(g: real, k: nat)
    requires
        g >= 0real,
        discounter_after(g, k) is Some,
    ensures
        ({
            let rounded = discounter_after(g, k)->Some_0;
            let exact = growth_power(g, k);
            &&& 0real <= rounded <= exact
            &&& exact - rounded <= divisor_slack(g, k)
            &&& divisor_slack(g, k) >= 0real
        }),
    decreases k,
{
    if k > 0 {
        let before = (k - 1) as nat;
        lemma_discounter_accuracy(g, before);
        let d = discounter_after(g, before)->Some_0;
        let p = growth_power(g, before);
        let sl = divisor_slack(g, before);
        lemma_fine_down_bounds(d * g);
        assert(0real <= d * g <= p * g) by (nonlinear_arith)
            requires
                0real <= d <= p,
                g >= 0real,
        ;
        assert(p * g - d * g <= sl * g && sl * g >= 0real) by (nonlinear_arith)
            requires
                p - d <= sl,
                sl >= 0real,
                g >= 0real,
        ;
    }
}

/// One payment: for an amount and a growth factor that are not negative, the
/// amount divided by the rounded discount divisor after `k` periods lies
/// less than one step below and at most `payment_slack` above the exact
/// present value `amount / g^k`.
pub proof fn lemma_payment_accuracy(amount: real, g: real, k: nat)
    requires
        amount >= 0real,
        g >= 0real,
        fx_div(Some(amount), discounter_after(g, k)) is Some,
    ensures
        ({
            let rounded = fx_div(Some(amount), discounter_after(g, k))->Some_0;
            let exact = amount / growth_power(g, k);
            &&& exact - step() < rounded <= exact + payment_slack(amount, g, k)
            &&& payment_slack(amount, g, k) >= 0real
            &&& discounter_after(g, k)->Some_0 > 0real
        }),
{
    lemma_discounter_accuracy(g, k);
    let d = discounter_after(g, k)->Some_0;
    let p = growth_power(g, k);
    let sl = divisor_slack(g, k);
    let paid = amount / d;
    let exact = amount / p;
    let slack = payment_slack(amount, g, k);
    lemma_round_down_bounds(paid);
    assert(d * p > 0real) by (nonlinear_arith)
        requires
            d > 0real,
            p >= d,
    ;
    assert(paid * d == amount && exact * p == amount && slack * (d * p) == amount * sl)
        by (nonlinear_arith)
        requires
            paid == amount / d,
            exact == amount / p,
            slack == amount * sl / (d * p),
            d > 0real,
            p > 0real,
            d * p > 0real,
    ;
    assert(exact >= 0real) by (nonlinear_arith)
        requires
            exact * p == amount,
            p > 0real,
            amount >= 0real,
    ;
    // (paid - exact) d = exact (p - d) <= exact sl = slack d
    assert((paid - exact) * d == exact * (p - d)) by (nonlinear_arith)
        requires
            paid * d == amount,
            exact * p == amount,
    ;
    assert(exact * (p - d) <= exact * sl) by (nonlinear_arith)
        requires
            exact >= 0real,
            p - d <= sl,
    ;
    assert(slack * d == exact * sl) by (nonlinear_arith)
        requires
            slack * (d * p) == amount * sl,
            exact * p == amount,
            p > 0real,
    ;
    assert(paid - exact <= slack) by (nonlinear_arith)
        requires
            (paid - exact) * d <= slack * d,
            d > 0real,
    ;
    assert(slack >= 0real) by (nonlinear_arith)
        requires
            slack * d == exact * sl,
            exact >= 0real,
            sl >= 0real,
            d > 0real,
    ;
    assert(paid >= exact) by (nonlinear_arith)
        requires
            (paid - exact) * d == exact * (p - d),
            exact >= 0real,
            p >= d,
            d > 0real,
    ;
}

/// The coupons: for a coupon and a growth factor that are not negative, the
/// rounded present value of `n` coupons lies at most `n` steps below and at
/// most `coupons_slack` above the exact one.
pub proof fn lemma_annuity_accuracy(c: real, g: real, n: nat)
    requires
        c >= 0real,
        g >= 0real,
        coupons_after(c, g, n) is Some,
    ensures
        ({
            let rounded = coupons_after(c, g, n)->Some_0;
            let exact = annuity_value(c, g, n);
            &&& exact - (n as real) * step() <= rounded
            &&& rounded <= exact + coupons_slack(c, g, n)
            &&& coupons_slack(c, g, n) >= 0real
        }),
    decreases n,
{
    let j = n as real;
    if n == 0 {
        assert(j * step() == 0real) by (nonlinear_arith)
            requires
                j == 0real,
        ;
    } else {
        let before = (n - 1) as nat;
        lemma_annuity_accuracy(c, g, before);
        lemma_payment_accuracy(c, g, n);
        assert(before as real == j - 1real);
        assert((j - 1real) * step() + step() == j * step()) by (nonlinear_arith);
    }
}

/// The accuracy of the present value of the cashflows: for a face value, a
/// coupon and a growth factor that are not negative, the rounded present
/// value lies less than `n + 1` steps below and at most `cashflows_slack`
/// above the exact one.
pub proof fn lemma_cashflows_accuracy(face: real, c: real, g: real, n: nat)
    requires
        face >= 0real,
        c >= 0real,
        g >= 0real,
        cashflows_rounded(face, c, g, n) is Some,
    ensures
        ({
            let rounded = cashflows_rounded(face, c, g, n)->Some_0;
            let exact = cashflows_value(face, c, g, n);
            &&& exact - ((n + 1) as real) * step() < rounded
            &&& rounded <= exact + cashflows_slack(face, c, g, n)
            &&& cashflows_slack(face, c, g, n) >= 0real
        }),
{
    lemma_annuity_accuracy(c, g, n);
    lemma_payment_accuracy(face, g, n);
    let j = n as real;
    assert((n + 1) as real == j + 1real);
    assert(j * step() + step() == (j + 1real) * step()) by (nonlinear_arith);
}

/// `1 + 2 + ... + n`, the number of periods over which the `n` coupons are
/// discounted in all.
pub open spec fn period_sum(n: nat) -> nat {
    n * (n + 1) / 2
}

/// `period_sum(n) = period_sum(n - 1) + n`.
proof fn lemma_period_sum_step(n: nat)
    requires
        n > 0,
    ensures
        period_sum(n) == period_sum((n - 1) as nat) + n,
{
    let m = (n - 1) as nat;
    assert(n * (n + 1) == m * (m + 1) + 2 * n) by (nonlinear_arith)
        requires
            m == n - 1,
    ;
    assert((m * (m + 1) + 2 * n) / 2 == m * (m + 1) / 2 + n);
}

/// For a growth factor of at least one the rounded divisor is at least one
/// and its slack at most `k g^k` fine steps.
pub proof fn lemma_forward_divisor(g: real, k: nat)
    requires
        g >= 1real,
        discounter_after(g, k) is Some,
    ensures
        discounter_after(g, k)->Some_0 >= 1real,
        growth_power(g, k) >= 1real,
        divisor_slack(g, k) <= (k as real) * growth_power(g, k) * fine_step(),
    decreases k,
{
    let j = k as real;
    if k == 0 {
        assert(j * 1real * fine_step() == 0real) by (nonlinear_arith)
            requires
                j == 0real,
        ;
    } else {
        let before = (k - 1) as nat;
        lemma_forward_divisor(g, before);
        lemma_discounter_accuracy(g, k);
        let d = discounter_after(g, before)->Some_0;
        let p = growth_power(g, before);
        let sl = divisor_slack(g, before);
        let i = before as real;
        assert(d * g >= 1real) by (nonlinear_arith)
            requires
                d >= 1real,
                g >= 1real,
        ;
        lemma_fine_down_bounds(d * g);
        assert(sl * g <= i * (p * g) * fine_step()) by (nonlinear_arith)
            requires
                sl <= i * p * fine_step(),
                g >= 1real,
        ;
        assert(i * (p * g) * fine_step() + fine_step() <= (i + 1real) * (p * g) * fine_step())
            by (nonlinear_arith)
            requires
                p * g >= 1real,
                fine_step() > 0real,
        ;
        assert(j == i + 1real);
    }
}

/// For a growth factor of at least one the slack of a payment after `k`
/// periods is at most `amount k` fine steps.
pub proof fn lemma_forward_payment(amount: real, g: real, k: nat)
    requires
        amount >= 0real,
        g >= 1real,
        discounter_after(g, k) is Some,
    ensures
        payment_slack(amount, g, k) <= amount * (k as real) * fine_step(),
{
    lemma_forward_divisor(g, k);
    let d = discounter_after(g, k)->Some_0;
    let p = growth_power(g, k);
    let sl = divisor_slack(g, k);
    let j = k as real;
    let slack = payment_slack(amount, g, k);
    assert(d * p >= 1real) by (nonlinear_arith)
        requires
            d >= 1real,
            p >= 1real,
    ;
    assert(slack * (d * p) == amount * sl) by (nonlinear_arith)
        requires
            slack == amount * sl / (d * p),
            d * p >= 1real,
    ;
    assert(amount * sl <= amount * j * fine_step() * p) by (nonlinear_arith)
        requires
            amount >= 0real,
            sl <= j * p * fine_step(),
    ;
    let bound = amount * j * fine_step();
    assert(bound >= 0real && bound * p >= 0real) by (nonlinear_arith)
        requires
            bound == amount * j * fine_step(),
            amount >= 0real,
            j >= 0real,
            fine_step() > 0real,
            p >= 1real,
    ;
    assert(slack <= bound) by (nonlinear_arith)
        requires
            slack * (d * p) <= bound * p,
            d >= 1real,
            p >= 1real,
            bound * p >= 0real,
    ;
}

/// For a growth factor of at least one the slack of the cashflows is at most
/// `c (1 + 2 + ... + n) + face n` fine steps.
pub proof fn lemma_forward_cashflows(face: real, c: real, g: real, n: nat)
    requires
        face >= 0real,
        c >= 0real,
        g >= 1real,
        discounter_after(g, n) is Some,
    ensures
        coupons_slack(c, g, n) <= c * (period_sum(n) as real) * fine_step(),
        cashflows_slack(face, c, g, n) <= (c * (period_sum(n) as real) + face * (n as real))
            * fine_step(),
    decreases n,
{
    let j = n as real;
    let tn = period_sum(n) as real;
    lemma_forward_payment(face, g, n);
    if n == 0 {
        assert(period_sum(n) == 0) by (nonlinear_arith)
            requires
                n == 0,
                period_sum(n) == n * (n + 1) / 2,
        ;
        assert(c * tn * fine_step() == 0real) by (nonlinear_arith)
            requires
                tn == 0real,
        ;
    } else {
        let before = (n - 1) as nat;
        lemma_forward_cashflows(face, c, g, before);
        lemma_forward_payment(c, g, n);
        lemma_period_sum_step(n);
        let tb = period_sum(before) as real;
        assert(tn == j + tb);
        assert(c * tb * fine_step() + c * j * fine_step() == c * tn * fine_step())
            by (nonlinear_arith)
            requires
                tn == j + tb,
        ;
    }
    assert(c * tn * fine_step() + face * j * fine_step() == (c * tn + face * j) * fine_step())
        by (nonlinear_arith);
}

/// A bond whose coupon per period is its face value times its rate per
/// period is worth its face value: `c = face (g - 1)` gives an exact present
/// value of `face` over any number of periods.
pub proof fn lemma_par_value(face: real, g: real, n: nat)
    requires
        g > 0real,
    ensures
        growth_power(g, n) > 0real,
        annuity_value(face * (g - 1real), g, n) == face - face / growth_power(g, n),
        cashflows_value(face, face * (g - 1real), g, n) == face,
    decreases n,
{
    let c = face * (g - 1real);
    if n > 0 {
        let before = (n - 1) as nat;
        lemma_par_value(face, g, before);
        let pb = growth_power(g, before);
        let p = growth_power(g, n);
        assert(p > 0real) by (nonlinear_arith)
            requires
                p == pb * g,
                pb > 0real,
                g > 0real,
        ;
        assert(face / pb == face * g / p && c / p == face * g / p - face / p) by (nonlinear_arith)
            requires
                p == pb * g,
                pb > 0real,
                g > 0real,
                c == face * (g - 1real),
        ;
    }
}

/// The coupon per period lies less than two steps below the exact
/// `face_value * coupon_rate / payment_frequency`, and the growth factor per
/// period less than one step below the exact
/// `1 + (risk_free_rate + credit_spread) / payment_frequency`.
pub proof fn lemma_period_terms_accuracy(bond: ConvertibleBond)
    requires
        bond.payment_frequency >= 1,
    ensures
        bond.coupon_rounded() is Some ==> ({
            let exact = bond.face_value@ * bond.coupon_rate@ / (bond.payment_frequency as real);
            exact - 2real * step() < bond.coupon_rounded()->Some_0 <= exact
        }),
        bond.growth_rounded() is Some ==> ({
            let exact = 1real + (bond.risk_free_rate@ + bond.credit_spread@) / (
            bond.payment_frequency as real);
            exact - step() < bond.growth_rounded()->Some_0 <= exact
        }),
{
    let f = bond.payment_frequency as real;
    let gross = bond.face_value@ * bond.coupon_rate@;
    lemma_round_down_bounds(gross);
    let kept_gross = round_down(gross);
    lemma_round_down_bounds(kept_gross / f);
    assert(gross / f - step() <= kept_gross / f <= gross / f) by (nonlinear_arith)
        requires
            gross - step() < kept_gross <= gross,
            f >= 1real,
            step() > 0real,
    ;
    lemma_round_down_bounds((bond.risk_free_rate@ + bond.credit_spread@) / f);
}

/// The exact price of a convertible bond with the coupon `c` and the growth
/// factor `g` per period: the present value of the cashflows plus
/// `face_value / conversion_price` calls.
pub open spec fn bond_value(bond: ConvertibleBond, c: real, g: real, terms: Terms) -> real {
    cashflows_value(bond.face_value@, c, g, periods_of(bond.maturity@, bond.payment_frequency))
        + bond.face_value@ / bond.conversion_price@ * bond.option_value(terms)
}

/// What the rounding can cost the option leg of a convertible bond, in
/// steps: twice the conversion ratio plus the magnitude of the call plus
/// one.
pub open spec fn option_leg_slack(ratio: real, call: real) -> real {
    (2real * ratio + magnitude(call) + 1real) * step()
}

/// Whether the cashflows of the bond can be bounded: its face value and its
/// rounded coupon and growth factor per period are not negative.
pub open spec fn has_plain_cashflows(bond: ConvertibleBond) -> bool {
    &&& bond.face_value@ >= 0real
    &&& bond.coupon_rounded() matches Some(c) && c >= 0real
    &&& bond.growth_rounded() matches Some(g) && g >= 0real
}

/// Whether `rounded` is the present value of the cashflows of the bond up to
/// rounding: less than `n + 1` steps below and at most `cashflows_slack`
/// above the exact present value at the rounded coupon `c` and growth factor
/// `g` per period, over the `n` periods. For a growth factor of at least one
/// that is at most `c (1 + ... + n) + face n` fine steps above.
pub open spec fn npv_within(rounded: real, bond: ConvertibleBond) -> bool {
    let face = bond.face_value@;
    let c = bond.coupon_rounded()->Some_0;
    let g = bond.growth_rounded()->Some_0;
    let n = periods_of(bond.maturity@, bond.payment_frequency);
    let exact = cashflows_value(face, c, g, n);
    &&& exact - ((n + 1) as real) * step() < rounded
    &&& rounded <= exact + cashflows_slack(face, c, g, n)
    &&& g >= 1real ==> rounded <= exact + (c * (period_sum(n) as real) + face * (n as real))
        * fine_step()
}

/// Whether `rounded` is the price of the bond up to rounding: less than
/// `n + 1` steps and the slack of the option leg below, and at most the
/// slack of the cashflows and of the option leg above the exact price at the
/// rounded coupon and growth factor per period.
pub open spec fn bond_price_within(rounded: real, bond: ConvertibleBond, terms: Terms) -> bool {
    let face = bond.face_value@;
    let c = bond.coupon_rounded()->Some_0;
    let g = bond.growth_rounded()->Some_0;
    let n = periods_of(bond.maturity@, bond.payment_frequency);
    let exact = bond_value(bond, c, g, terms);
    let leg = option_leg_slack(face / bond.conversion_price@, bond.option_value(terms));
    &&& exact - ((n + 1) as real) * step() - leg < rounded
    &&& rounded < exact + cashflows_slack(face, c, g, n) + leg
    &&& g >= 1real ==> rounded < exact + (c * (period_sum(n) as real) + face * (n as real))
        * fine_step() + leg
}

/// Where it exists, the rounded present value of a bond with plain cashflows
/// is the exact one up to rounding.
pub proof fn lemma_npv_within(bond: ConvertibleBond)
    requires
        has_plain_cashflows(bond),
        bond.npv_rounded() is Some,
    ensures
        npv_within(bond.npv_rounded()->Some_0, bond),
{
    let face = bond.face_value@;
    let c = bond.coupon_rounded()->Some_0;
    let g = bond.growth_rounded()->Some_0;
    let n = periods_of(bond.maturity@, bond.payment_frequency);
    lemma_cashflows_accuracy(face, c, g, n);
    if g >= 1real {
        lemma_forward_cashflows(face, c, g, n);
    }
}

/// Where it exists, the rounded price of a convertible bond with plain
/// cashflows, a positive conversion price and valid terms is the exact one
/// up to rounding.
pub proof fn lemma_bond_price_accuracy(bond: ConvertibleBond, terms: Terms)
    requires
        terms.is_valid(bond.dividend_yield),
        has_plain_cashflows(bond),
        bond.conversion_price@ > 0real,
        bond.price_rounded(terms) is Some,
    ensures
        bond_price_within(bond.price_rounded(terms)->Some_0, bond, terms),
{
    let face = bond.face_value@;
    lemma_npv_within(bond);
    lemma_call_price_accuracy(
        bond.stock_price@,
        bond.conversion_price@,
        dividend_factor(bond.dividend_yield, terms),
        terms.rate_discount@,
        terms.cdf_d1@,
        terms.cdf_d2@,
    );
    let call = bond.option_value(terms);
    let call_r = bond.option_rounded(terms)->Some_0;
    let ratio = face / bond.conversion_price@;
    let ratio_r = round_down(ratio);
    lemma_round_down_bounds(ratio);
    assert(ratio >= 0real) by (nonlinear_arith)
        requires
            ratio == face / bond.conversion_price@,
            face >= 0real,
            bond.conversion_price@ > 0real,
    ;
    lemma_round_down_not_negative(ratio);
    lemma_round_down_bounds(ratio_r * call_r);
    // ratio' call' - ratio call = ratio' (call' - call) + call (ratio' - ratio)
    assert(ratio_r * call_r - ratio * call == ratio_r * (call_r - call) + call * (ratio_r - ratio))
        by (nonlinear_arith);
    assert(magnitude(ratio_r * (call_r - call)) <= ratio * (2real * step())) by (nonlinear_arith)
        requires
            0real <= ratio_r <= ratio,
            magnitude(call_r - call) < 2real * step(),
    ;
    assert(magnitude(call * (ratio_r - ratio)) <= magnitude(call) * step()) by (nonlinear_arith)
        requires
            magnitude(ratio_r - ratio) < step(),
    ;
    assert(ratio * (2real * step()) + magnitude(call) * step() + step() == option_leg_slack(
        ratio,
        call,
    )) by (nonlinear_arith)
        requires
            option_leg_slack(ratio, call) == (2real * ratio + magnitude(call) + 1real) * step(),
    ;
}

/// The present value within a millionth: for a bond with plain cashflows and
/// a growth factor per period of at least one, over at most 999 periods,
/// with a coupon per period of at most a million and a face value of at most
/// a hundred million, the rounded present value lies within `10^-6` of the
/// exact one; so a bond whose coupon per period is its face value times its
/// rate per period is worth its face value within `10^-6`.
pub proof fn lemma_npv_within_a_millionth(bond: ConvertibleBond)
    requires
        has_plain_cashflows(bond),
        bond.npv_rounded() is Some,
        bond.growth_rounded()->Some_0 >= 1real,
        bond.coupon_rounded()->Some_0 <= 1_000_000real,
        bond.face_value@ <= 100_000_000real,
        periods_of(bond.maturity@, bond.payment_frequency) <= 999,
    ensures
        ({
            let face = bond.face_value@;
            let c = bond.coupon_rounded()->Some_0;
            let g = bond.growth_rounded()->Some_0;
            let n = periods_of(bond.maturity@, bond.payment_frequency);
            let rounded = bond.npv_rounded()->Some_0;
            &&& magnitude(rounded - cashflows_value(face, c, g, n)) <= 1real / 1_000_000real
            &&& c == face * (g - 1real) ==> magnitude(rounded - face) <= 1real / 1_000_000real
        }),
{
    let face = bond.face_value@;
    let c = bond.coupon_rounded()->Some_0;
    let g = bond.growth_rounded()->Some_0;
    let n = periods_of(bond.maturity@, bond.payment_frequency);
    let j = n as real;
    let tn = period_sum(n) as real;
    lemma_npv_within(bond);
    assert(period_sum(n) <= 499_500) by (nonlinear_arith)
        requires
            n <= 999,
            period_sum(n) == n * (n + 1) / 2,
    ;
    assert((n + 1) as real == j + 1real);
    assert((j + 1real) * step() <= 1real / 1_000_000real);
    assert(c * tn + face * j <= 599_400_000_000real) by (nonlinear_arith)
        requires
            0real <= c <= 1_000_000real,
            0real <= face <= 100_000_000real,
            0real <= tn <= 499_500real,
            0real <= j <= 999real,
    ;
    assert((c * tn + face * j) * fine_step() <= 1real / 1_000_000real) by (nonlinear_arith)
        requires
            c * tn + face * j <= 599_400_000_000real,
            fine_step() == 1real / 1_000_000_000_000_000_000real,
    ;
    if c == face * (g - 1real) {
        lemma_par_value(face, g, n);
    }
}

/// Whether `rounded` is `d1` up to rounding: within `d_slack / divisor` of
/// the exact term, `divisor` being the rounded `sigma sqrt(T)`.
pub open spec fn d_plus_within(
    rounded: real,
    t: Fixed,
    r: real,
    q: real,
    sigma: real,
    ln: real,
) -> bool {
    let divisor = round_down(sigma * root_below(t@));
    &&& divisor > 0real
    &&& forall|root: real|
        root >= 0real && root * root == t@ ==> magnitude(
            rounded - #[trigger] d_plus_value(t@, r, q, sigma, ln, root),
        ) * divisor < d_slack(t@, sigma, d_plus_value(t@, r, q, sigma, ln, root), divisor)
}

/// Whether `rounded` is `d2` up to rounding: within `d_slack / divisor` of
/// the exact term, `divisor` being the rounded `sigma sqrt(T)`.
pub open spec fn d_minus_within(
    rounded: real,
    t: Fixed,
    r: real,
    q: real,
    sigma: real,
    ln: real,
) -> bool {
    let divisor = round_down(sigma * root_below(t@));
    &&& divisor > 0real
    &&& forall|root: real|
        root >= 0real && root * root == t@ ==> magnitude(
            rounded - #[trigger] d_minus_value(t@, r, q, sigma, ln, root),
        ) * divisor < d_slack(t@, sigma, d_minus_value(t@, r, q, sigma, ln, root), divisor)
}

/// Whether `rounded` is gamma up to rounding: within `gamma_slack / width`
/// of the exact gamma, `width` being the rounded `S sigma sqrt(T)`.
pub open spec fn gamma_within(
    rounded: real,
    pdf: real,
    dq: real,
    s: real,
    sigma: real,
    t: Fixed,
) -> bool {
    let width = round_down(round_down(s * sigma) * root_below(t@));
    &&& width > 0real
    &&& forall|root: real|
        root >= 0real && root * root == t@ ==> magnitude(
            rounded - #[trigger] gamma_value(pdf, dq, s, sigma, root),
        ) * width < gamma_slack(s, sigma, root, gamma_value(pdf, dq, s, sigma, root), width)
}

/// Whether `rounded` is vega up to rounding: less than
/// `(S N'(d1) + sqrt(T) + 1) e^(-qT) + 1` steps below the exact vega.
pub open spec fn vega_within(rounded: real, s: real, pdf: real, t: Fixed, dq: real) -> bool {
    forall|root: real|
        root >= 0real && root * root == t@ ==> (#[trigger] vega_value(s, pdf, root, dq)) - ((s
            * pdf + root + 1real) * dq + 1real) * step() < rounded <= vega_value(
            s,
            pdf,
            root,
            dq,
        )
}

/// Whether `rounded` is the theta of the call up to rounding: within
/// `theta_slack / span` of the exact theta, `span` being the rounded
/// `2 sqrt(T)`.
pub open spec fn call_theta_within(rounded: real, c: Call, sigma: real, s: real, terms: Terms)
    -> bool {
    let span = round_down(2real * root_below(c.time_to_maturity@));
    let dq = dividend_factor(c.dividend_yield, terms);
    &&& span > 0real
    &&& forall|root: real|
        root >= 0real && root * root == c.time_to_maturity@ ==> magnitude(
            rounded - #[trigger] call_theta_value(c, sigma, s, terms, root),
        ) * span < theta_slack(
            sigma,
            dq,
            terms.rate_discount@,
            decay_value(s, terms.pdf_d1@, sigma, dq, root),
            span,
        )
}

/// Whether `rounded` is the theta of the put up to rounding: within
/// `theta_slack / span` of the exact theta, `span` being the rounded
/// `2 sqrt(T)`.
pub open spec fn put_theta_within(rounded: real, p: Put, sigma: real, s: real, terms: Terms)
    -> bool {
    let span = round_down(2real * root_below(p.time_to_maturity@));
    let dq = dividend_factor(p.dividend_yield, terms);
    &&& span > 0real
    &&& forall|root: real|
        root >= 0real && root * root == p.time_to_maturity@ ==> magnitude(
            rounded - #[trigger] put_theta_value(p, sigma, s, terms, root),
        ) * span < theta_slack(
            sigma,
            dq,
            terms.rate_discount@,
            decay_value(s, terms.pdf_d1@, sigma, dq, root),
            span,
        )
}

/// Where they exist, the rounded `d1` and `d2` are the exact terms up to
/// rounding.
pub proof fn lemma_d_terms_within(t: Fixed, r: real, q: real, sigma: real, ln: real)
    requires
        t@ > 0real,
        sigma > 0real,
    ensures
        d_plus_rounded(t@, r, q, sigma, ln) is Some ==> d_plus_within(
            d_plus_rounded(t@, r, q, sigma, ln)->Some_0,
            t,
            r,
            q,
            sigma,
            ln,
        ),
        d_minus_rounded(t@, r, q, sigma, ln) is Some ==> d_minus_within(
            d_minus_rounded(t@, r, q, sigma, ln)->Some_0,
            t,
            r,
            q,
            sigma,
            ln,
        ),
{
    lemma_root_below_holds(t);
    assert(sigma * root_below(t@) >= 0real) by (nonlinear_arith)
        requires
            sigma > 0real,
            root_below(t@) >= 0real,
    ;
    lemma_round_down_not_negative(sigma * root_below(t@));
    if d_plus_rounded(t@, r, q, sigma, ln) is Some {
        assert forall|root: real| root >= 0real && root * root == t@ implies magnitude(
            d_plus_rounded(t@, r, q, sigma, ln)->Some_0 - #[trigger] d_plus_value(
                t@,
                r,
                q,
                sigma,
                ln,
                root,
            ),
        ) * round_down(sigma * root_below(t@)) < d_slack(
            t@,
            sigma,
            d_plus_value(t@, r, q, sigma, ln, root),
            round_down(sigma * root_below(t@)),
        ) by {
            lemma_d_plus_accuracy(t, r, q, sigma, ln, root);
        }
    }
    if d_minus_rounded(t@, r, q, sigma, ln) is Some {
        assert forall|root: real| root >= 0real && root * root == t@ implies magnitude(
            d_minus_rounded(t@, r, q, sigma, ln)->Some_0 - #[trigger] d_minus_value(
                t@,
                r,
                q,
                sigma,
                ln,
                root,
            ),
        ) * round_down(sigma * root_below(t@)) < d_slack(
            t@,
            sigma,
            d_minus_value(t@, r, q, sigma, ln, root),
            round_down(sigma * root_below(t@)),
        ) by {
            lemma_d_minus_accuracy(t, r, q, sigma, ln, root);
        }
    }
}

/// Where they exist, the rounded gamma and vega are the exact ones up to
/// rounding.
pub proof fn lemma_gamma_vega_within(pdf: real, dq: real, s: real, sigma: real, t: Fixed)
    requires
        pdf >= 0real,
        dq > 0real,
        s > 0real,
        t@ > 0real,
    ensures
        sigma > 0real && gamma_rounded(pdf, dq, s, sigma, t@) is Some ==> gamma_within(
            gamma_rounded(pdf, dq, s, sigma, t@)->Some_0,
            pdf,
            dq,
            s,
            sigma,
            t,
        ),
        vega_rounded(s, pdf, t@, dq) is Some ==> vega_within(
            vega_rounded(s, pdf, t@, dq)->Some_0,
            s,
            pdf,
            t,
            dq,
        ),
{
    lemma_root_below_holds(t);
    if sigma > 0real && gamma_rounded(pdf, dq, s, sigma, t@) is Some {
        let width = round_down(round_down(s * sigma) * root_below(t@));
        assert(s * sigma >= 0real) by (nonlinear_arith)
            requires
                s > 0real,
                sigma > 0real,
        ;
        lemma_round_down_not_negative(s * sigma);
        assert(round_down(s * sigma) * root_below(t@) >= 0real) by (nonlinear_arith)
            requires
                round_down(s * sigma) >= 0real,
                root_below(t@) >= 0real,
        ;
        lemma_round_down_not_negative(round_down(s * sigma) * root_below(t@));
        assert forall|root: real| root >= 0real && root * root == t@ implies magnitude(
            gamma_rounded(pdf, dq, s, sigma, t@)->Some_0 - #[trigger] gamma_value(
                pdf,
                dq,
                s,
                sigma,
                root,
            ),
        ) * width < gamma_slack(s, sigma, root, gamma_value(pdf, dq, s, sigma, root), width) by {
            lemma_gamma_accuracy(pdf, dq, s, sigma, t, root);
        }
    }
    if vega_rounded(s, pdf, t@, dq) is Some {
        assert forall|root: real| root >= 0real && root * root == t@ implies (
        #[trigger] vega_value(s, pdf, root, dq)) - ((s * pdf + root + 1real) * dq + 1real)
            * step() < vega_rounded(s, pdf, t@, dq)->Some_0 <= vega_value(s, pdf, root, dq) by {
            lemma_vega_accuracy(s, pdf, t, root, dq);
        }
    }
}

/// Where it exists, the rounded theta of a call is the exact one up to
/// rounding.
pub proof fn lemma_call_theta_within(c: Call, sigma: real, s: real, terms: Terms)
    requires
        terms.is_valid(c.dividend_yield),
        sigma > 0real,
        c.time_to_maturity@ > 0real,
        call_theta_rounded(c, sigma, s, terms) is Some,
    ensures
        call_theta_within(call_theta_rounded(c, sigma, s, terms)->Some_0, c, sigma, s, terms),
{
    let t = c.time_to_maturity;
    let span = round_down(2real * root_below(t@));
    let dq = dividend_factor(c.dividend_yield, terms);
    lemma_root_below_holds(t);
    lemma_round_down_not_negative(2real * root_below(t@));
    assert forall|root: real| root >= 0real && root * root == t@ implies magnitude(
        call_theta_rounded(c, sigma, s, terms)->Some_0 - #[trigger] call_theta_value(
            c,
            sigma,
            s,
            terms,
            root,
        ),
    ) * span < theta_slack(
        sigma,
        dq,
        terms.rate_discount@,
        decay_value(s, terms.pdf_d1@, sigma, dq, root),
        span,
    ) by {
        lemma_call_theta_accuracy(c, sigma, s, terms, root);
    }
}

/// Where it exists, the rounded theta of a put is the exact one up to
/// rounding.
pub proof fn lemma_put_theta_within(p: Put, sigma: real, s: real, terms: Terms)
    requires
        terms.is_valid(p.dividend_yield),
        sigma > 0real,
        p.time_to_maturity@ > 0real,
        put_theta_rounded(p, sigma, s, terms) is Some,
    ensures
        put_theta_within(put_theta_rounded(p, sigma, s, terms)->Some_0, p, sigma, s, terms),
{
    let t = p.time_to_maturity;
    let span = round_down(2real * root_below(t@));
    let dq = dividend_factor(p.dividend_yield, terms);
    lemma_root_below_holds(t);
    lemma_round_down_not_negative(2real * root_below(t@));
    assert forall|root: real| root >= 0real && root * root == t@ implies magnitude(
        put_theta_rounded(p, sigma, s, terms)->Some_0 - #[trigger] put_theta_value(
            p,
            sigma,
            s,
            terms,
            root,
        ),
    ) * span < theta_slack(
        sigma,
        dq,
        terms.rate_discount@,
        decay_value(s, terms.pdf_d1@, sigma, dq, root),
        span,
    ) by {
        lemma_put_theta_accuracy(p, sigma, s, terms, root);
    }
}

} // verus!
