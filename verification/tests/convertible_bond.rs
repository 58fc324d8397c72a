use options::black_scholes::{d_minus, d_plus};
use options::exotics::{ConvertibleBond, ExoticOptions};
use options::fixed::Fixed;
use options::{PricingError, Terms};
use statrs::distribution::{Continuous, ContinuousCDF, Normal};

fn fx(x: f64) -> Fixed {
    Fixed::from_raw((x * 1e9).round() as i64)
}

fn fl(x: Fixed) -> f64 {
    x.raw() as f64 / 1e9
}

/// The terms of the call that the bond embeds.
fn terms(cb: &ConvertibleBond) -> Terms {
    let spot = fl(cb.stock_price);
    let strike = fl(cb.conversion_price);
    let rate = fl(cb.risk_free_rate);
    let time = fl(cb.time_to_maturity);
    let q = cb.dividend_yield.map(fl).unwrap_or(0.0);
    let ln = fx((spot / strike).ln());
    let d1 = fl(d_plus(cb.time_to_maturity, cb.risk_free_rate, cb.dividend_yield, cb.volatility, ln).unwrap());
    let d2 = fl(d_minus(cb.time_to_maturity, cb.risk_free_rate, cb.dividend_yield, cb.volatility, ln).unwrap());
    let std_norm = Normal::new(0.0, 1.0).unwrap();
    Terms::new(
        fx((-rate * time).exp()),
        fx((-q * time).exp()),
        fx(std_norm.cdf(d1)),
        fx(std_norm.cdf(d2)),
        fx(std_norm.pdf(d1)),
    )
}

fn round_bond() -> ConvertibleBond {
    ConvertibleBond {
        face_value: fx(1000.0),
        coupon_rate: fx(0.05),
        maturity: fx(2.0),
        payment_frequency: 1,
        credit_spread: fx(0.05),
        risk_free_rate: fx(0.2),
        conversion_price: fx(50.0),
        stock_price: fx(55.0),
        volatility: fx(0.2),
        time_to_maturity: fx(2.0),
        dividend_yield: None,
    }
}

fn round_terms() -> Terms {
    Terms::new(fx(0.5), fx(1.0), fx(0.75), fx(0.25), fx(0.3))
}

#[test]
fn test_convertible_bond_pricing() {
    let cb = ConvertibleBond {
        face_value: fx(1000.0),
        coupon_rate: fx(0.05),
        maturity: fx(5.0),
        payment_frequency: 2,
        credit_spread: fx(0.02),
        risk_free_rate: fx(0.03),
        conversion_price: fx(50.0),
        stock_price: fx(55.0),
        volatility: fx(0.2),
        time_to_maturity: fx(5.0),
        dividend_yield: None,
    };
    let price = fl(cb.bs_pricing(terms(&cb)).unwrap());
    println!("Convertible Bond Price: {:.4}", price);
    assert!((price - 1_318.0).abs() < 1e-1); // expected value
}

#[test]
fn bond_at_par_when_coupon_equals_yield() {
    let cb = ConvertibleBond {
        face_value: fx(1000.0),
        coupon_rate: fx(0.05),
        maturity: fx(5.0),
        payment_frequency: 2,
        credit_spread: fx(0.02),
        risk_free_rate: fx(0.03),
        conversion_price: fx(50.0),
        stock_price: fx(55.0),
        volatility: fx(0.2),
        time_to_maturity: fx(5.0),
        dividend_yield: None,
    };
    let npv = fl(cb.npv().unwrap());
    assert!((npv - 1000.0).abs() < 1e-6);
}

#[test]
fn bond_is_exact_on_round_inputs() {
    // Two yearly coupons of 50 at a growth factor of 1.25:
    // 50 / 1.25 + 50 / 1.5625 + 1000 / 1.5625 = 40 + 32 + 640.
    let cb = round_bond();
    assert_eq!(cb.npv(), Ok(fx(712.0)));
    // The call: 55 * 0.75 - 50 * 0.5 * 0.25 = 35; twenty of them per bond.
    assert_eq!(cb.conversion_option_price(round_terms()), Ok(fx(35.0)));
    assert_eq!(cb.bs_pricing(round_terms()), Ok(fx(1412.0)));
    let wrapped = ExoticOptions::ConvertibleBond(cb);
    match wrapped {
        ExoticOptions::ConvertibleBond(inner) => assert_eq!(inner.npv(), Ok(fx(712.0))),
    }
}

#[test]
fn bond_counts_whole_periods() {
    // 2.9 years of yearly coupons are two periods; 0.9 years are none.
    let mut cb = round_bond();
    cb.maturity = fx(2.9);
    assert_eq!(cb.npv(), Ok(fx(712.0)));
    cb.maturity = fx(0.9);
    assert_eq!(cb.npv(), Ok(fx(1000.0)));
    // Half-yearly: one year holds two periods at a growth factor of 1.125.
    cb.maturity = fx(1.0);
    cb.payment_frequency = 2;
    // 25 / 1.125 + 25 / 1.265625 + 1000 / 1.265625, each rounded down.
    assert_eq!(cb.npv().unwrap().raw(), 22_222_222_222 + 19_753_086_419 + 790_123_456_790);
}

#[test]
fn bond_rejects_invalid_inputs() {
    let t = round_terms();
    let mut cb = round_bond();
    cb.conversion_price = Fixed::zero();
    assert_eq!(cb.bs_pricing(t), Err(PricingError::InvalidInput));
    let mut cb = round_bond();
    cb.payment_frequency = 0;
    assert_eq!(cb.bs_pricing(t), Err(PricingError::InvalidInput));
    assert_eq!(cb.npv(), Err(PricingError::InvalidInput));
    let mut cb = round_bond();
    cb.maturity = Fixed::zero();
    assert_eq!(cb.npv(), Err(PricingError::InvalidInput));
    let mut cb = round_bond();
    cb.stock_price = fx(-55.0);
    assert_eq!(cb.bs_pricing(t), Err(PricingError::InvalidInput));
    assert_eq!(cb.conversion_option_price(t), Err(PricingError::InvalidInput));
    assert!(cb.npv().is_ok());
    let mut cb = round_bond();
    cb.volatility = Fixed::zero();
    assert_eq!(cb.bs_pricing(t), Err(PricingError::InvalidInput));
    let mut cb = round_bond();
    cb.time_to_maturity = Fixed::zero();
    assert_eq!(cb.bs_pricing(t), Err(PricingError::InvalidInput));
    let bad = Terms::new(fx(0.5), fx(1.0), fx(0.75), fx(1.25), fx(0.3));
    assert_eq!(round_bond().bs_pricing(bad), Err(PricingError::InvalidInput));
}

#[test]
fn bond_reports_degenerate_discounting() {
    // A rate of -100% per period makes the growth factor zero.
    let mut cb = round_bond();
    cb.risk_free_rate = fx(-1.05);
    assert_eq!(cb.npv(), Err(PricingError::OutOfRange));
    assert_eq!(cb.bs_pricing(round_terms()), Err(PricingError::OutOfRange));
    // A growth factor of 1000 per period leaves the range within four periods.
    let mut cb = round_bond();
    cb.risk_free_rate = fx(998.95);
    cb.maturity = fx(10.0);
    assert_eq!(cb.npv(), Err(PricingError::OutOfRange));
}

#[test]
fn bond_agrees_with_the_closed_formula() {
    for (face, coupon, maturity, frequency, spread, rate) in [
        (1000.0_f64, 0.05_f64, 5.0_f64, 2_u32, 0.02_f64, 0.03_f64),
        (100.0, 0.08, 10.0, 4, 0.01, 0.02),
        (5000.0, 0.0, 3.0, 1, 0.0, 0.04),
        (1000.0, 0.03, 7.5, 12, 0.015, 0.0),
    ] {
        let mut cb = round_bond();
        cb.face_value = fx(face);
        cb.coupon_rate = fx(coupon);
        cb.maturity = fx(maturity);
        cb.payment_frequency = frequency;
        cb.credit_spread = fx(spread);
        cb.risk_free_rate = fx(rate);
        let periods = (maturity * frequency as f64) as u32;
        let payment = face * coupon / frequency as f64;
        let growth = 1.0 + (rate + spread) / frequency as f64;
        let mut want = 0.0;
        for k in 1..=periods {
            want += payment / growth.powi(k as i32);
        }
        want += face / growth.powi(periods as i32);
        let got = fl(cb.npv().unwrap());
        assert!((got - want).abs() < 1e-4, "{} against {}", got, want);
    }
}

#[test]
fn bond_prices_at_par_within_a_millionth() {
    for (face, rate, frequency, maturity) in [
        (1000.0_f64, 0.05_f64, 2_u32, 5.0_f64),
        (100.0, 0.08, 4, 10.0),
        (250_000.0, 0.03, 12, 30.0),
        (1.0, 0.12, 1, 40.0),
    ] {
        let mut cb = round_bond();
        cb.face_value = fx(face);
        cb.coupon_rate = fx(rate);
        cb.risk_free_rate = fx(rate / 2.0);
        cb.credit_spread = fx(rate / 2.0);
        cb.payment_frequency = frequency;
        cb.maturity = fx(maturity);
        let got = fl(cb.npv().unwrap());
        assert!((got - face).abs() < 1e-6, "{} against {}", got, face);
    }
}

#[test]
fn bond_discounts_at_negative_rates() {
    // A growth factor of 0.5 per period doubles the worth of a payment with each period:
    // 50 / 0.5 + 50 / 0.25 + 1000 / 0.25.
    let mut cb = round_bond();
    cb.risk_free_rate = fx(-0.55);
    assert_eq!(cb.npv(), Ok(fx(4300.0)));
}

#[test]
fn terms_without_dividend_discount_serve_a_bond_without_dividend_yield() {
    let t = Terms::new(fx(0.5), Fixed::zero(), fx(0.75), fx(0.25), fx(0.3));
    assert_eq!(round_bond().bs_pricing(t), Ok(fx(1412.0)));
    let mut paying = round_bond();
    paying.dividend_yield = Some(fx(0.01));
    assert_eq!(paying.bs_pricing(t), Err(PricingError::InvalidInput));
}
