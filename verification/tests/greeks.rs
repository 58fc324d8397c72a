use options::black_scholes::{d_minus, d_plus};
use options::fixed::Fixed;
use options::{Call, PricingError, Put, Terms};
use statrs::distribution::{Continuous, ContinuousCDF, Normal};

fn fx(x: f64) -> Fixed {
    Fixed::from_raw((x * 1e9).round() as i64)
}

fn fl(x: Fixed) -> f64 {
    x.raw() as f64 / 1e9
}

/// The terms of a contract at the market state `(vol, spot, rate)`.
fn terms(strike: f64, spot: f64, vol: f64, rate: f64, time: f64, q: Option<f64>) -> Terms {
    let ln = fx((spot / strike).ln());
    let d1 = fl(d_plus(fx(time), fx(rate), q.map(fx), fx(vol), ln).unwrap());
    let d2 = fl(d_minus(fx(time), fx(rate), q.map(fx), fx(vol), ln).unwrap());
    let std_norm = Normal::new(0.0, 1.0).unwrap();
    Terms::new(
        fx((-rate * time).exp()),
        fx((-q.unwrap_or(0.0) * time).exp()),
        fx(std_norm.cdf(d1)),
        fx(std_norm.cdf(d2)),
        fx(std_norm.pdf(d1)),
    )
}

fn round_terms(dividend_discount: f64) -> Terms {
    Terms::new(fx(0.5), fx(dividend_discount), fx(0.75), fx(0.25), fx(0.3))
}

fn round_call(q: Option<f64>) -> Call {
    Call::new(fx(80.0), fx(100.0), fx(0.2), fx(0.05), fx(4.0), q.map(fx))
}

fn round_put(q: Option<f64>) -> Put {
    Put::new(fx(80.0), fx(100.0), fx(0.2), fx(0.05), fx(4.0), q.map(fx))
}

#[test]
fn test_greeks() {
    let call = Call {
        strike_price: fx(100.0),
        spot_price: fx(100.0),
        volatility: fx(0.2),
        risk_free_rate: fx(0.05),
        time_to_maturity: fx(1.0),
        dividend_yield: None,
    };

    let put = Put {
        strike_price: fx(100.0),
        spot_price: fx(100.0),
        volatility: fx(0.2),
        risk_free_rate: fx(0.05),
        time_to_maturity: fx(1.0),
        dividend_yield: None,
    };

    let at = terms(100.0, 100.0, 0.2, 0.05, 1.0, None);

    let call_delta = fl(call.delta(at).unwrap());
    let call_gamma = fl(call.gamma(fx(0.2), fx(100.0), at).unwrap());
    let call_vega = fl(call.vega(fx(100.0), at).unwrap());
    let call_theta = fl(call.theta(fx(0.2), fx(100.0), at).unwrap());
    let call_rho = fl(call.rho(at).unwrap());

    let put_delta = fl(put.delta(at).unwrap());
    let put_gamma = fl(put.gamma(fx(0.2), fx(100.0), at).unwrap());
    let put_vega = fl(put.vega(fx(100.0), at).unwrap());
    let put_theta = fl(put.theta(fx(0.2), fx(100.0), at).unwrap());
    let put_rho = fl(put.rho(at).unwrap());

    assert!(
        call_delta > 0.0 && call_delta < 1.0,
        "Call delta should be between 0 and 1"
    );
    assert!(
        (call_delta - 0.6368).abs() < 0.001,
        "Call delta value incorrect"
    );

    assert!(call_gamma > 0.0, "Call gamma should be positive");
    assert!(
        (call_gamma - 0.01876).abs() < 0.00001,
        "Call gamma value incorrect"
    );

    assert!(call_vega > 0.0, "Call vega should be positive");
    assert!(
        (call_vega - 37.524).abs() < 0.001,
        "Call vega value incorrect"
    );

    assert!(call_theta < 0.0, "Call theta should be negative");

    assert!(call_rho > 0.0, "Call rho should be positive");

    assert!(
        (put_delta + 0.3632).abs() < 0.001,
        "Put delta value incorrect"
    );

    assert!(put_gamma > 0.0, "Put gamma should be positive");
    assert!(
        (put_gamma - 0.01876).abs() < 0.00001,
        "Put gamma value incorrect"
    );

    assert!(put_vega > 0.0, "Put vega should be positive");
    assert!(
        (put_vega - 37.524).abs() < 0.001,
        "Put vega value incorrect"
    );

    assert!(put_theta < 0.0, "Put theta should be negative");

    assert!(put_rho < 0.0, "Put rho should be negative");
}

#[test]
fn test_greeks_with_dividend() {
    let call = Call {
        strike_price: fx(100.0),
        spot_price: fx(100.0),
        volatility: fx(0.2),
        risk_free_rate: fx(0.05),
        time_to_maturity: fx(1.0),
        dividend_yield: Some(fx(0.03)),
    };
    let at = terms(100.0, 100.0, 0.2, 0.05, 1.0, Some(0.03));
    let delta = fl(call.delta(at).unwrap());
    println!("Call delta with dividend: {}", delta);
    assert!(delta > 0.0 && delta < 1.0, "Delta with div incorrect");

    let put = Put {
        strike_price: fx(100.0),
        spot_price: fx(100.0),
        volatility: fx(0.2),
        risk_free_rate: fx(0.05),
        time_to_maturity: fx(1.0),
        dividend_yield: Some(fx(0.03)),
    };
    let gamma = fl(put.gamma(fx(0.2), fx(100.0), at).unwrap());
    assert!(gamma > 0.0, "Gamma with div incorrect");
    assert!(
        (gamma - 0.01897).abs() < 0.00001,
        "Gamma with div incorrect"
    );
}

#[test]
fn payout_is_the_positive_part() {
    let call = round_call(None);
    let put = round_put(None);
    assert_eq!(call.payout(fx(120.0)), Ok(fx(40.0)));
    assert_eq!(call.payout(fx(80.0)), Ok(Fixed::zero()));
    assert_eq!(call.payout(fx(15.5)), Ok(Fixed::zero()));
    assert_eq!(put.payout(fx(15.5)), Ok(fx(64.5)));
    assert_eq!(put.payout(fx(80.0)), Ok(Fixed::zero()));
    assert_eq!(put.payout(fx(120.0)), Ok(Fixed::zero()));
    // The excess over a negative strike can leave the range.
    let odd = Call::new(Fixed::from_raw(-2), fx(1.0), fx(0.2), fx(0.05), fx(1.0), None);
    assert_eq!(odd.payout(Fixed::from_raw(i64::MAX)), Err(PricingError::OutOfRange));
    assert_eq!(odd.payout(Fixed::from_raw(i64::MIN)), Ok(Fixed::zero()));
}

#[test]
fn greeks_are_exact_on_round_terms() {
    // K = 80, T = 4, r = 0.05, e^(-rT) = 0.5, N(d1) = 0.75, N(d2) = 0.25,
    // N'(d1) = 0.3, at S = 100 and sigma = 0.2.
    let call = round_call(None);
    let put = round_put(None);
    let t = round_terms(1.0);
    assert_eq!(call.delta(t), Ok(fx(0.75)));
    assert_eq!(put.delta(t), Ok(fx(-0.25)));
    // 0.3 / (100 * 0.2 * 2)
    assert_eq!(call.gamma(fx(0.2), fx(100.0), t), Ok(fx(0.0075)));
    assert_eq!(put.gamma(fx(0.2), fx(100.0), t), Ok(fx(0.0075)));
    // 100 * 0.3 * 2
    assert_eq!(call.vega(fx(100.0), t), Ok(fx(60.0)));
    assert_eq!(put.vega(fx(100.0), t), Ok(fx(60.0)));
    // -(100 * 0.3 * 0.2) / (2 * 2) - 0.05 * 80 * 0.5 * 0.25
    assert_eq!(call.theta(fx(0.2), fx(100.0), t), Ok(fx(-2.0)));
    // -(100 * 0.3 * 0.2) / (2 * 2) + 0.05 * 80 * 0.5 * 0.75
    assert_eq!(put.theta(fx(0.2), fx(100.0), t), Ok(Fixed::zero()));
    // 80 * 4 * 0.25 * 0.5 and -80 * 4 * 0.75 * 0.5
    assert_eq!(call.rho(t), Ok(fx(40.0)));
    assert_eq!(put.rho(t), Ok(fx(-120.0)));
}

#[test]
fn greeks_are_exact_with_dividend_yield() {
    // As above with q = 0.1 and e^(-qT) = 0.9.
    let call = round_call(Some(0.1));
    let put = round_put(Some(0.1));
    let t = round_terms(0.9);
    assert_eq!(call.delta(t), Ok(fx(0.675)));
    assert_eq!(put.delta(t), Ok(fx(-0.225)));
    assert_eq!(call.gamma(fx(0.2), fx(100.0), t), Ok(fx(0.00675)));
    assert_eq!(call.vega(fx(100.0), t), Ok(fx(54.0)));
    // -1.35 + 0.1 * 100 * 0.9 * 0.75 - 0.5
    assert_eq!(call.theta(fx(0.2), fx(100.0), t), Ok(fx(4.9)));
    // -1.35 - 0.1 * 100 * 0.9 * 0.25 + 1.5
    assert_eq!(put.theta(fx(0.2), fx(100.0), t), Ok(fx(-2.1)));
    // Rho does not read the dividend terms.
    assert_eq!(call.rho(t), Ok(fx(40.0)));
}

#[test]
fn greeks_read_the_given_market_state() {
    // The same contract at S = 50 and sigma = 0.4.
    let call = round_call(Some(0.1));
    let t = round_terms(0.9);
    // 0.27 / (50 * 0.4 * 2)
    assert_eq!(call.gamma(fx(0.4), fx(50.0), t), Ok(fx(0.00675)));
    // 50 * 0.3 * 2 * 0.9
    assert_eq!(call.vega(fx(50.0), t), Ok(fx(27.0)));
    // -(50 * 0.3 * 0.4 * 0.9) / 4 + 0.1 * 50 * 0.9 * 0.75 - 0.5
    assert_eq!(call.theta(fx(0.4), fx(50.0), t), Ok(fx(1.525)));
}

#[test]
fn greeks_reject_invalid_inputs() {
    let call = round_call(None);
    let put = round_put(None);
    let t = round_terms(1.0);
    assert_eq!(call.gamma(Fixed::zero(), fx(100.0), t), Err(PricingError::InvalidInput));
    assert_eq!(call.gamma(fx(0.2), Fixed::zero(), t), Err(PricingError::InvalidInput));
    assert_eq!(put.theta(fx(-0.2), fx(100.0), t), Err(PricingError::InvalidInput));
    assert_eq!(put.vega(fx(-100.0), t), Err(PricingError::InvalidInput));
    let bad = Terms::new(fx(0.5), fx(1.0), fx(0.75), fx(0.25), fx(-0.3));
    assert_eq!(call.delta(bad), Err(PricingError::InvalidInput));
    assert_eq!(put.rho(bad), Err(PricingError::InvalidInput));
    let mut expired = call;
    expired.time_to_maturity = Fixed::zero();
    assert_eq!(expired.delta(t), Err(PricingError::InvalidInput));
    assert_eq!(expired.rho(t), Err(PricingError::InvalidInput));
}

#[test]
fn greeks_report_degenerate_width() {
    // S * sigma rounds to zero: gamma has nothing to divide by.
    let call = round_call(None);
    let t = round_terms(1.0);
    assert_eq!(
        call.gamma(Fixed::from_raw(1), Fixed::from_raw(1), t),
        Err(PricingError::OutOfRange)
    );
    // A product past the largest number.
    let mut long = call;
    long.time_to_maturity = Fixed::from_raw(i64::MAX);
    assert_eq!(long.vega(fx(1_000_000.0), t), Err(PricingError::OutOfRange));
    assert_eq!(long.rho(t), Err(PricingError::OutOfRange));
}

#[test]
fn deltas_stay_in_range() {
    for (strike, spot, vol, rate, time, q) in [
        (100.0, 105.0, 0.2, 0.05, 1.0, None),
        (100.0, 40.0, 0.3, 0.02, 0.5, Some(0.03)),
        (50.0, 200.0, 0.6, 0.01, 3.0, Some(0.01)),
    ] {
        let at = terms(strike, spot, vol, rate, time, q);
        let call = Call::new(fx(strike), fx(spot), fx(vol), fx(rate), fx(time), q.map(fx));
        let put = Put::new(fx(strike), fx(spot), fx(vol), fx(rate), fx(time), q.map(fx));
        let dc = call.delta(at).unwrap();
        let dp = put.delta(at).unwrap();
        assert!(0 < dc.raw() && dc.raw() < 1_000_000_000);
        assert!(-1_000_000_000 < dp.raw() && dp.raw() < 0);
        if q.is_none() {
            assert_eq!(dc.raw() - dp.raw(), 1_000_000_000);
        }
        assert!(call.gamma(fx(vol), fx(spot), at).unwrap().raw() > 0);
        assert!(put.vega(fx(spot), at).unwrap().raw() > 0);
    }
}

#[test]
fn degenerate_delta_is_refused() {
    // N(d1) e^(-qT) = 0.5e-9 is less than one step: there is no positive delta to return.
    let call = round_call(Some(0.1));
    let t = Terms::new(fx(0.5), fx(0.5), Fixed::from_raw(1), fx(0.25), fx(0.3));
    assert_eq!(call.delta(t), Err(PricingError::OutOfRange));
    // One step more and delta is one step.
    let t = Terms::new(fx(0.5), fx(0.5), Fixed::from_raw(2), fx(0.25), fx(0.3));
    assert_eq!(call.delta(t), Ok(Fixed::from_raw(1)));
    // A probability rounded to zero or to one leaves no delta strictly inside its range.
    let put = round_put(None);
    for saturated in [Fixed::zero(), Fixed::one()] {
        let t = Terms::new(fx(0.5), fx(1.0), saturated, fx(0.25), fx(0.3));
        assert_eq!(round_call(None).delta(t), Err(PricingError::OutOfRange));
        assert_eq!(put.delta(t), Err(PricingError::OutOfRange));
    }
    // The put stays inside: (1e-9 - 1) * 0.5 rounds down to -0.5.
    let t = Terms::new(fx(0.5), fx(0.5), Fixed::from_raw(1), fx(0.25), fx(0.3));
    assert_eq!(round_put(Some(0.1)).delta(t), Ok(fx(-0.5)));
}

#[test]
fn degenerate_gamma_and_vega_are_refused() {
    // A density of one step over a width of 329 * 0.2: 1.5e-11 is less than one step.
    let call = Call::new(fx(100.0), fx(329.0), fx(0.2), fx(0.05), fx(1.0), None);
    let put = Put::new(fx(100.0), fx(329.0), fx(0.2), fx(0.05), fx(1.0), None);
    let t = Terms::new(fx(0.95), fx(1.0), fx(0.99), fx(0.98), Fixed::from_raw(1));
    assert_eq!(call.gamma(fx(0.2), fx(329.0), t), Err(PricingError::OutOfRange));
    assert_eq!(put.gamma(fx(0.2), fx(329.0), t), Err(PricingError::OutOfRange));
    // S N'(d1) = 0.5e-9 is less than one step.
    let call = Call::new(fx(0.152), fx(0.5), fx(0.2), fx(0.05), fx(1.0), None);
    let put = Put::new(fx(0.152), fx(0.5), fx(0.2), fx(0.05), fx(1.0), None);
    assert_eq!(call.vega(fx(0.5), t), Err(PricingError::OutOfRange));
    assert_eq!(put.vega(fx(0.5), t), Err(PricingError::OutOfRange));
    // A density of zero leaves nothing positive either.
    let call = round_call(Some(0.1));
    let t = Terms::new(fx(0.5), fx(0.5), fx(0.75), fx(0.25), Fixed::zero());
    assert_eq!(call.gamma(fx(0.2), fx(100.0), t), Err(PricingError::OutOfRange));
    assert_eq!(call.vega(fx(100.0), t), Err(PricingError::OutOfRange));
    // The smallest gamma and vega are one step.
    let call = Call::new(fx(100.0), fx(1.0), fx(1.0), fx(0.05), fx(1.0), None);
    let t = Terms::new(fx(0.95), fx(1.0), fx(0.99), fx(0.98), Fixed::from_raw(1));
    assert_eq!(call.gamma(fx(1.0), fx(1.0), t), Ok(Fixed::from_raw(1)));
    assert_eq!(call.vega(fx(1.0), t), Ok(Fixed::from_raw(1)));
}

#[test]
fn d_terms_take_the_contract_and_the_market_state() {
    // T = 1 and q = 2% from the contract; sigma = 0.2 and r = 5% from the market state.
    let call = Call::new(fx(100.0), fx(105.0), fx(0.3), fx(0.01), fx(1.0), Some(fx(0.02)));
    let put = Put::new(fx(100.0), fx(105.0), fx(0.3), fx(0.01), fx(1.0), Some(fx(0.02)));
    let ln = Fixed::from_raw(48_790_164);
    let (d1, d2) = call.d_terms(fx(0.2), fx(0.05), ln).unwrap();
    assert_eq!(d1.raw(), 493_950_820);
    assert_eq!(d2.raw(), 293_950_820);
    assert_eq!(put.d_terms(fx(0.2), fx(0.05), ln), Ok((d1, d2)));
    assert_eq!(d1, d_plus(fx(1.0), fx(0.05), Some(fx(0.02)), fx(0.2), ln).unwrap());
    assert_eq!(d2, d_minus(fx(1.0), fx(0.05), Some(fx(0.02)), fx(0.2), ln).unwrap());
    // At the contract's own state the volatility is 0.3 and the rate 1%.
    let (own1, own2) = call.d_terms(call.volatility, call.risk_free_rate, ln).unwrap();
    assert_eq!(own1.raw(), 279_300_546);
    assert_eq!(own2.raw(), -20_699_454);
    assert_eq!(call.d_terms(Fixed::zero(), fx(0.05), ln), Err(PricingError::InvalidInput));
    let mut expired = put;
    expired.time_to_maturity = Fixed::zero();
    assert_eq!(expired.d_terms(fx(0.2), fx(0.05), ln), Err(PricingError::InvalidInput));
    assert_eq!(
        call.d_terms(Fixed::from_raw(1), fx(0.05), Fixed::from_raw(i64::MAX)),
        Err(PricingError::OutOfRange)
    );
}

#[test]
fn rho_alone_takes_another_rate() {
    // Sensitivities at the stored rate of 5%, rho at a rate of 8%.
    let call = Call::new(fx(100.0), fx(100.0), fx(0.2), fx(0.05), fx(1.0), None);
    let own = terms(100.0, 100.0, 0.2, 0.05, 1.0, None);
    let moved = terms(100.0, 100.0, 0.2, 0.08, 1.0, None);
    let std_norm = Normal::new(0.0, 1.0).unwrap();
    let d2 = (0.08_f64 - 0.5 * 0.2 * 0.2) / 0.2;
    let want = 100.0 * 1.0 * (-0.08_f64).exp() * std_norm.cdf(d2);
    assert!((fl(call.rho(moved).unwrap()) - want).abs() < 1e-5);
    assert!(fl(call.rho(moved).unwrap()) > fl(call.rho(own).unwrap()));
}

#[test]
fn greeks_agree_with_the_closed_formulas() {
    let std_norm = Normal::new(0.0, 1.0).unwrap();
    for (strike, spot, vol, rate, time, q) in [
        (100.0_f64, 100.0_f64, 0.2_f64, 0.05_f64, 1.0_f64, None),
        (100.0, 105.0, 0.2, 0.05, 1.0, Some(0.02_f64)),
        (120.0, 95.0, 0.35, 0.01, 2.5, Some(0.04)),
        (80.0, 110.0, 0.15, -0.01, 0.25, None),
    ] {
        let y = q.unwrap_or(0.0);
        let d1 = ((spot / strike).ln() + (rate - y + 0.5 * vol * vol) * time) / (vol * time.sqrt());
        let d2 = d1 - vol * time.sqrt();
        let dq = (-y * time).exp();
        let dr = (-rate * time).exp();
        let decay = -(spot * std_norm.pdf(d1) * vol * dq) / (2.0 * time.sqrt());

        let at = terms(strike, spot, vol, rate, time, q);
        let call = Call::new(fx(strike), fx(spot), fx(vol), fx(rate), fx(time), q.map(fx));
        let put = Put::new(fx(strike), fx(spot), fx(vol), fx(rate), fx(time), q.map(fx));
        let close = |got: Fixed, want: f64| (fl(got) - want).abs() < 1e-5;

        assert!(close(call.delta(at).unwrap(), dq * std_norm.cdf(d1)));
        assert!(close(put.delta(at).unwrap(), dq * (std_norm.cdf(d1) - 1.0)));
        let gamma = dq * std_norm.pdf(d1) / (spot * vol * time.sqrt());
        assert!(close(call.gamma(fx(vol), fx(spot), at).unwrap(), gamma));
        assert!(close(put.gamma(fx(vol), fx(spot), at).unwrap(), gamma));
        let vega = spot * std_norm.pdf(d1) * time.sqrt() * dq;
        assert!(close(call.vega(fx(spot), at).unwrap(), vega));
        assert!(close(put.vega(fx(spot), at).unwrap(), vega));
        let call_theta = decay + y * spot * std_norm.cdf(d1) * dq - rate * strike * dr * std_norm.cdf(d2);
        assert!(close(call.theta(fx(vol), fx(spot), at).unwrap(), call_theta));
        let put_theta = decay - y * spot * std_norm.cdf(-d1) * dq + rate * strike * dr * std_norm.cdf(-d2);
        assert!(close(put.theta(fx(vol), fx(spot), at).unwrap(), put_theta));
        assert!(close(call.rho(at).unwrap(), strike * time * dr * std_norm.cdf(d2)));
        assert!(close(put.rho(at).unwrap(), -strike * time * dr * std_norm.cdf(-d2)));
    }
}
