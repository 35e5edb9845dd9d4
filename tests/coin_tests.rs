use xcosm::{
    Coin, CoinSet, FromResult, IntoResult, TryMinus, TryMinusMut, TryPlus, TryPlusMut, XcosmError,
};

fn set(entries: &[(&str, u128)]) -> CoinSet {
    let coins = entries.iter().map(|(d, a)| Coin::new(*a, d.to_string())).collect();
    CoinSet::try_from_coins(coins).unwrap()
}

fn entries(s: &CoinSet) -> Vec<(String, u128)> {
    s.to_coins().into_iter().map(|c| (c.denom, c.amount)).collect()
}

fn e(d: &str, a: u128) -> (String, u128) {
    (d.to_string(), a)
}

#[test]
fn subtract_more_than_held_underflows() {
    let a3 = set(&[("a", 3)]);
    assert_eq!(a3.try_minus(&set(&[("a", 5)])).unwrap_err(), XcosmError::MathUnderflow {});
}

#[test]
fn subtract_absent_denomination_is_no_op() {
    let a3 = set(&[("a", 3)]);
    let r = a3.try_minus(&set(&[("b", 5)])).unwrap();
    assert_eq!(entries(&r), vec![e("a", 3)]);
}

#[test]
fn subtract_sets() {
    let s = set(&[("a", 10), ("b", 7)]);
    let r = s.try_minus(&set(&[("b", 7), ("a", 4)])).unwrap();
    assert_eq!(entries(&r), vec![e("a", 6), e("b", 0)]);
    assert_eq!(entries(&s), vec![e("a", 10), e("b", 7)]);
}

#[test]
fn subtract_coin() {
    let s = set(&[("a", 10), ("b", 7)]);
    let r = s.try_minus(&Coin::new(2, "b".to_string())).unwrap();
    assert_eq!(entries(&r), vec![e("a", 10), e("b", 5)]);
    assert_eq!(s.try_minus(&Coin::new(8, "b".to_string())).unwrap_err(), XcosmError::MathUnderflow {});
}

#[test]
fn add_sets_drops_absent_denominations() {
    let s = set(&[("a", 1)]);
    let r = s.try_plus(&set(&[("a", 2), ("b", 9)])).unwrap();
    assert_eq!(entries(&r), vec![e("a", 3)]);
}

#[test]
fn add_coin() {
    let s = set(&[("a", 1), ("b", 2)]);
    let r = s.try_plus(&Coin::new(5, "b".to_string())).unwrap();
    assert_eq!(entries(&r), vec![e("a", 1), e("b", 7)]);
    let r = s.try_plus(&Coin::new(5, "c".to_string())).unwrap();
    assert_eq!(entries(&r), vec![e("a", 1), e("b", 2)]);
}

#[test]
fn add_overflow_fails() {
    let s = set(&[("a", u128::MAX)]);
    assert_eq!(s.try_plus(&Coin::new(1, "a".to_string())).unwrap_err(), XcosmError::MathOverflow {});
    assert_eq!(s.try_plus(&set(&[("a", 1)])).unwrap_err(), XcosmError::MathOverflow {});
}

#[test]
fn add_in_place() {
    let mut s = set(&[("a", 1), ("b", 2)]);
    s.try_plus_mut(&Coin::new(4, "a".to_string())).unwrap();
    assert_eq!(entries(&s), vec![e("a", 5), e("b", 2)]);
    s.try_plus_mut(&set(&[("b", 3), ("c", 1)])).unwrap();
    assert_eq!(entries(&s), vec![e("a", 5), e("b", 5)]);
}

#[test]
fn failed_add_in_place_leaves_balance_unchanged() {
    let mut s = set(&[("a", 1), ("b", u128::MAX)]);
    let r = s.try_plus_mut(&set(&[("a", 1), ("b", 1)]));
    assert_eq!(r, Err(XcosmError::MathOverflow {}));
    assert_eq!(entries(&s), vec![e("a", 1), e("b", u128::MAX)]);
}

#[test]
fn subtract_in_place() {
    let mut s = set(&[("a", 5), ("b", 2)]);
    s.try_minus_mut(&Coin::new(4, "a".to_string())).unwrap();
    assert_eq!(entries(&s), vec![e("a", 1), e("b", 2)]);
    s.try_minus_mut(&set(&[("b", 2)])).unwrap();
    assert_eq!(entries(&s), vec![e("a", 1), e("b", 0)]);
}

#[test]
fn failed_subtract_in_place_leaves_balance_unchanged() {
    let mut s = set(&[("a", 5), ("b", 2)]);
    assert_eq!(s.try_minus_mut(&set(&[("a", 1), ("b", 3)])), Err(XcosmError::MathUnderflow {}));
    assert_eq!(entries(&s), vec![e("a", 5), e("b", 2)]);
    assert_eq!(s.try_minus_mut(&Coin::new(6, "a".to_string())), Err(XcosmError::MathUnderflow {}));
    assert_eq!(entries(&s), vec![e("a", 5), e("b", 2)]);
}

#[test]
fn duplicate_denominations_are_rejected() {
    let coins = vec![
        Coin::new(1, "a".to_string()),
        Coin::new(2, "b".to_string()),
        Coin::new(3, "a".to_string()),
    ];
    assert_eq!(
        CoinSet::try_from_coins(coins).unwrap_err(),
        XcosmError::CoinsDuplicate { denom: Some("a".to_string()) }
    );
}

#[test]
fn amount_of_and_expect_none() {
    let s = set(&[("a", 5), ("b", 2)]);
    assert_eq!(s.amount_of(&"b".to_string()), 2);
    assert_eq!(s.amount_of(&"c".to_string()), 0);
    assert_eq!(s.expect_none(), Err(XcosmError::CoinsNotAllowed {}));
    assert_eq!(CoinSet::new().expect_none(), Ok(()));
    assert_eq!(entries(&s.clone()), entries(&s));
}

#[test]
fn result_conversions_keep_ok_values() {
    let ok: Result<u8, XcosmError> = Ok(7);
    let r: Result<u8, XcosmError> = ok.into_result();
    assert_eq!(r, Ok(7));
    let err: Result<u8, XcosmError> = Err(XcosmError::Parse {});
    let r: Result<u8, XcosmError> = Result::from_result(err);
    assert_eq!(r, Err(XcosmError::Parse {}));
}

#[test]
fn error_constructors() {
    assert_eq!(XcosmError::unauthorized(), XcosmError::Unauthorized {});
    assert_eq!(XcosmError::disabled(), XcosmError::Disabled {});
    assert_eq!(XcosmError::parse(), XcosmError::Parse {});
    assert_eq!(XcosmError::coins_not_allowed(), XcosmError::CoinsNotAllowed {});
    assert_eq!(
        XcosmError::invalid("address".to_string(), "bad".to_string()),
        XcosmError::Invalid { kind: "address".to_string(), reason: "bad".to_string() }
    );
    assert_eq!(XcosmError::any("m".to_string()), XcosmError::Any { msg: "m".to_string() });
    assert_eq!(
        XcosmError::coins_insufficient("1a".to_string()),
        XcosmError::CoinsInsufficient { expect: "1a".to_string() }
    );
    assert_eq!(
        XcosmError::coins_not_exact("1a".to_string()),
        XcosmError::CoinsNotExact { expect: "1a".to_string() }
    );
}

#[test]
fn expect_coins_exact_accepts_same_coins_in_any_order() {
    let s = set(&[("a", 5), ("b", 2)]);
    assert_eq!(s.expect_coins_exact(&set(&[("b", 2), ("a", 5)])), Ok(()));
    assert_eq!(CoinSet::new().expect_coins_exact(&CoinSet::new()), Ok(()));
}

#[test]
fn expect_coins_exact_rejects_other_coins() {
    let s = set(&[("a", 5), ("b", 2)]);
    let err = XcosmError::CoinsNotExact { expect: "5a,3b".to_string() };
    assert_eq!(s.expect_coins_exact(&set(&[("a", 5), ("b", 3)])), Err(err));
    let err = XcosmError::CoinsNotExact { expect: "5a".to_string() };
    assert_eq!(s.expect_coins_exact(&set(&[("a", 5)])), Err(err));
    let err = XcosmError::CoinsNotExact { expect: "5a,2c".to_string() };
    assert_eq!(s.expect_coins_exact(&set(&[("a", 5), ("c", 2)])), Err(err));
}

#[test]
fn coins_as_text() {
    assert_eq!(CoinSet::new().to_text(), "");
    assert_eq!(set(&[("uatom", 0)]).to_text(), "0uatom");
    assert_eq!(
        set(&[("x", 1234567890), ("y", u128::MAX)]).to_text(),
        format!("1234567890x,{}y", u128::MAX)
    );
}
