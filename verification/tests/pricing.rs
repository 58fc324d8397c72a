use options::black_scholes::{black_scholes_price, d_minus, d_plus};
use options::fixed::Fixed;
use options::{Call, Options, PricingError, Put, Terms};
use statrs::distribution::{Continuous, ContinuousCDF, Normal};

fn fx(x: f64) -> Fixed {
    Fixed::from_raw((x * 1e9).round() as i64)
}

fn fl(x: Fixed) -> f64 {
    x.raw() as f64 / 1e9
}

/// The terms of a contract at its own market state.
fn terms(strike: f64, spot: f64, vol: f64, rate: f64, time: f64, q: Option<f64>) -> Terms {
    let ln = fx((spot / strike).ln());
    let d1 = fl(d_plus(fx(time), fx(rate), q.map(fx), fx(vol), ln).unwrap());
    let d2 = fl(d_minus(fx(time), fx(rate), q.map(fx), fx(vol), ln).unwrap());
    let std_norm = Normal::new(0.0, 1.0).unwrap();
    Terms::new(
        fx((-rate * time).exp()),
        fx((-q.unwrap_or(0.0) * time).exp()),
        fx(std_norm.cdf(d1)),
        fx(std_norm.cdf(d2)),
        fx(std_norm.pdf(d1)),
    )
}

fn call_price(strike: f64, spot: f64, vol: f64, rate: f64, time: f64, q: Option<f64>) -> f64 {
    let option = Options::Call(Call {
        strike_price: fx(strike),
        spot_price: fx(spot),
        volatility: fx(vol),
        risk_free_rate: fx(rate),
        time_to_maturity: fx(time),
        dividend_yield: q.map(fx),
    });
    fl(black_scholes_price(option, terms(strike, spot, vol, rate, time, q)).unwrap())
}

fn put_price(strike: f64, spot: f64, vol: f64, rate: f64, time: f64, q: Option<f64>) -> f64 {
    let option = Options::Put(Put {
        strike_price: fx(strike),
        spot_price: fx(spot),
        volatility: fx(vol),
        risk_free_rate: fx(rate),
        time_to_maturity: fx(time),
        dividend_yield: q.map(fx),
    });
    fl(black_scholes_price(option, terms(strike, spot, vol, rate, time, q)).unwrap())
}

#[test]
fn test_black_scholes_call() {
    let price = call_price(100.0, 105.0, 0.2, 0.05, 1.0, None);
    assert!((price - 13.8579).abs() < 0.0001);
}

#[test]
fn test_black_scholes_put() {
    let price = put_price(100.0, 95.0, 0.2, 0.05, 1.0, None);
    assert!((price - 7.6338).abs() < 0.0001);
}

#[test]
fn test_at_the_money_call() {
    let price = call_price(100.0, 100.0, 0.25, 0.03, 0.5, None);
    assert!(price > 0.0);
    assert!((price - 7.7603).abs() < 0.0001);
}

#[test]
fn test_at_the_money_put() {
    let price = put_price(100.0, 100.0, 0.25, 0.03, 0.5, None);
    assert!(price > 0.0);
    assert!((price - 6.2715).abs() < 0.0001);
}

#[test]
fn test_out_of_money_call() {
    let price = call_price(110.0, 100.0, 0.2, 0.05, 1.0, None);
    assert!(price > 0.0);
    assert!((price - 6.0401).abs() < 0.0001);
}

#[test]
fn test_out_of_money_put() {
    let price = put_price(90.0, 100.0, 0.2, 0.05, 1.0, None);
    assert!(price > 0.0);
    assert!((price - 2.3101).abs() < 0.0001);
}

#[test]
fn test_put_call_parity() {
    let strike = 100.0;
    let spot = 105.0;
    let vol = 0.2;
    let rate = 0.05;
    let time = 1.0;

    let call_price = call_price(strike, spot, vol, rate, time, None);
    let put_price = put_price(strike, spot, vol, rate, time, None);

    let left_side = call_price - put_price;
    let right_side = spot - strike * (-rate * time).exp();

    assert!((left_side - right_side).abs() < 0.0001);
}

#[test]
fn test_deep_in_money_call() {
    let price = call_price(50.0, 100.0, 0.2, 0.05, 1.0, None);
    let intrinsic_value = 100.0 - 50.0 * (-0.05 * 1.0_f64).exp();
    assert!((price - intrinsic_value).abs() < 1.0);
    assert!((price - 52.4389).abs() < 0.0001);
}

#[test]
fn test_low_volatility() {
    let price = call_price(100.0, 100.0, 0.01, 0.05, 1.0, None);
    assert!(price > 0.0);
    assert!((price - 4.8771).abs() < 0.0001);
}

#[test]
fn test_high_volatility() {
    let price = call_price(100.0, 100.0, 0.5, 0.05, 1.0, None);
    assert!(price > 10.0);
    assert!((price - 21.7926).abs() < 0.0001);
}

#[test]
fn test_black_scholes_pricing() {
    let call_itm_price = call_price(100.0, 105.0, 0.2, 0.05, 1.0, None);
    let put_itm_price = put_price(100.0, 95.0, 0.2, 0.05, 1.0, None);
    let call_atm_price = call_price(100.0, 100.0, 0.2, 0.05, 1.0, None);
    let call_div_price = call_price(100.0, 105.0, 0.2, 0.05, 1.0, Some(0.02));
    let put_div_price = put_price(100.0, 95.0, 0.2, 0.05, 1.0, Some(0.02));

    assert!(
        (call_itm_price - 13.8579).abs() < 0.0001,
        "ITM Call price incorrect"
    );
    assert!(
        (put_itm_price - 7.6338).abs() < 0.0001,
        "ITM Put price incorrect"
    );
    assert!(call_atm_price > 0.0, "ATM Call price should be positive");
    assert!(
        (call_div_price - 12.3885).abs() < 0.001,
        "Call with dividend price incorrect"
    );
    assert!(
        (put_div_price - 8.5416).abs() < 0.001,
        "Put with dividend price incorrect"
    );
}

#[test]
fn d_terms_match_the_closed_form() {
    // ln(105/100) = 0.048790164, sigma = 0.2, r = 0.05, T = 1:
    // d1 = (0.048790164 + 0.07) / 0.2 and d2 = (0.048790164 + 0.03) / 0.2.
    let ln = Fixed::from_raw(48_790_164);
    let d1 = d_plus(fx(1.0), fx(0.05), None, fx(0.2), ln).unwrap();
    let d2 = d_minus(fx(1.0), fx(0.05), None, fx(0.2), ln).unwrap();
    assert_eq!(d1.raw(), 593_950_820);
    assert_eq!(d2.raw(), 393_950_820);
    // A dividend yield of 2% lowers the drift by as much.
    let d1_div = d_plus(fx(1.0), fx(0.05), Some(fx(0.02)), fx(0.2), ln).unwrap();
    assert_eq!(d1_div.raw(), 493_950_820);
}

#[test]
fn d_terms_reject_degenerate_inputs() {
    let ln = Fixed::zero();
    assert_eq!(
        d_plus(Fixed::zero(), fx(0.05), None, fx(0.2), ln),
        Err(PricingError::InvalidInput)
    );
    assert_eq!(
        d_minus(fx(1.0), fx(0.05), None, fx(-0.2), ln),
        Err(PricingError::InvalidInput)
    );
    // sigma * sqrt(T) rounds to zero: there is nothing to divide by.
    assert_eq!(
        d_plus(Fixed::from_raw(1), fx(0.05), None, Fixed::from_raw(1), ln),
        Err(PricingError::OutOfRange)
    );
}

#[test]
fn price_is_exact_on_round_terms() {
    // S = 100, K = 80, e^(-rT) = 0.5, N(d1) = 0.75, N(d2) = 0.25:
    // C = 100 * 0.75 - 80 * 0.5 * 0.25 = 65 and P = 80 * 0.5 * 0.75 - 100 * 0.25 = 5.
    let t = Terms::new(fx(0.5), fx(1.0), fx(0.75), fx(0.25), fx(0.3));
    let call = Options::new_call(fx(80.0), fx(100.0), fx(0.2), fx(0.05), fx(1.0), None);
    let put = Options::new_put(fx(80.0), fx(100.0), fx(0.2), fx(0.05), fx(1.0), None);
    assert_eq!(call.bs_pricing(t), Ok(fx(65.0)));
    assert_eq!(put.bs_pricing(t), Ok(fx(5.0)));
    // With a dividend discount factor of 0.9 the asset leg shrinks by a tenth.
    let t = Terms::new(fx(0.5), fx(0.9), fx(0.75), fx(0.25), fx(0.3));
    let call = Options::new_call(fx(80.0), fx(100.0), fx(0.2), fx(0.05), fx(1.0), Some(fx(0.1)));
    assert_eq!(call.bs_pricing(t), Ok(fx(57.5)));
}

#[test]
fn price_rejects_invalid_inputs() {
    let t = Terms::new(fx(0.5), fx(1.0), fx(0.75), fx(0.25), fx(0.3));
    let good = Call::new(fx(80.0), fx(100.0), fx(0.2), fx(0.05), fx(1.0), None);
    assert!(good.bs_pricing(t).is_ok());
    let mut bad = good;
    bad.strike_price = Fixed::zero();
    assert_eq!(bad.bs_pricing(t), Err(PricingError::InvalidInput));
    let mut bad = good;
    bad.spot_price = fx(-1.0);
    assert_eq!(bad.bs_pricing(t), Err(PricingError::InvalidInput));
    let mut bad = good;
    bad.volatility = Fixed::zero();
    assert_eq!(bad.bs_pricing(t), Err(PricingError::InvalidInput));
    let mut bad = good;
    bad.time_to_maturity = Fixed::zero();
    assert_eq!(bad.bs_pricing(t), Err(PricingError::InvalidInput));
    // A probability above one.
    let t = Terms::new(fx(0.5), fx(1.0), fx(1.5), fx(0.25), fx(0.3));
    assert_eq!(good.bs_pricing(t), Err(PricingError::InvalidInput));
    // A discount factor of zero.
    let t = Terms::new(Fixed::zero(), fx(1.0), fx(0.75), fx(0.25), fx(0.3));
    assert_eq!(
        Put::new(fx(80.0), fx(100.0), fx(0.2), fx(0.05), fx(1.0), None).bs_pricing(t),
        Err(PricingError::InvalidInput)
    );
}

#[test]
fn price_reports_overflow() {
    // 9e9 * 1e9 is past the largest number.
    let t = Terms::new(fx(0.5), Fixed::from_raw(i64::MAX), fx(0.75), fx(0.25), fx(0.3));
    let call = Call::new(fx(80.0), Fixed::from_raw(i64::MAX), fx(0.2), fx(0.05), fx(1.0), Some(fx(0.1)));
    assert_eq!(call.bs_pricing(t), Err(PricingError::OutOfRange));
}

#[test]
fn parity_holds_with_dividend_yield() {
    for (strike, spot, vol, rate, time, q) in [
        (100.0, 105.0, 0.2, 0.05, 1.0, 0.02),
        (90.0, 100.0, 0.35, 0.01, 2.5, 0.04),
        (120.0, 80.0, 0.15, -0.01, 0.25, 0.0),
    ] {
        let c = call_price(strike, spot, vol, rate, time, Some(q));
        let p = put_price(strike, spot, vol, rate, time, Some(q));
        let forward = fl(fx(spot)) * fl(fx((-q * time).exp())) - fl(fx(strike)) * fl(fx((-rate * time).exp()));
        assert!((c - p - forward).abs() < 4e-9);
    }
}

#[test]
fn price_grows_with_volatility() {
    let mut last_call = 0.0;
    let mut last_put = 0.0;
    for vol in [0.05, 0.1, 0.2, 0.4, 0.8] {
        let c = call_price(100.0, 100.0, vol, 0.05, 1.0, None);
        let p = put_price(100.0, 100.0, vol, 0.05, 1.0, None);
        assert!(c > last_call);
        assert!(p > last_put);
        last_call = c;
        last_put = p;
    }
}

#[test]
fn deep_in_the_money_call_nears_intrinsic_value() {
    let intrinsic = 100.0 - 20.0 * (-0.05_f64).exp();
    let mut last_gap = f64::MAX;
    for vol in [0.8, 0.4, 0.2, 0.1] {
        let gap = (call_price(20.0, 100.0, vol, 0.05, 1.0, None) - intrinsic).abs();
        assert!(gap <= last_gap);
        last_gap = gap;
    }
    assert!(last_gap < 1e-6);
}

#[test]
fn dividend_discount_is_checked_where_it_is_read() {
    // A contract without dividend yield does not read the dividend discount factor.
    let t = Terms::new(fx(0.5), Fixed::zero(), fx(0.75), fx(0.25), fx(0.3));
    let plain = Options::new_call(fx(80.0), fx(100.0), fx(0.2), fx(0.05), fx(1.0), None);
    assert_eq!(plain.bs_pricing(t), Ok(fx(65.0)));
    let paying = Options::new_put(fx(80.0), fx(100.0), fx(0.2), fx(0.05), fx(1.0), Some(fx(0.1)));
    assert_eq!(paying.bs_pricing(t), Err(PricingError::InvalidInput));
}
