use xcosm::{Addr, Claim, Coin, CoinSet, Distribution, XcosmError};

fn addr(s: &str) -> Addr {
    Addr::unchecked(s.to_string())
}

fn set(entries: &[(&str, u128)]) -> CoinSet {
    let coins = entries.iter().map(|(d, a)| Coin::new(*a, d.to_string())).collect();
    CoinSet::try_from_coins(coins).unwrap()
}

fn dist(entries: &[(&str, u32)]) -> Distribution {
    let claims = entries.iter().map(|(a, b)| (addr(a), Claim::new(*b))).collect();
    Distribution::new(claims).unwrap()
}

#[test]
fn claim_quarter_of_thousand() {
    assert_eq!(Claim::new(2500).claim_amount(1000), Ok(25));
}

#[test]
fn claim_amount_rounds_down() {
    assert_eq!(Claim::new(33333).claim_amount(10), Ok(3));
    assert_eq!(Claim::new(0).claim_amount(1000), Ok(0));
    assert_eq!(Claim::new(100000).claim_amount(1000), Ok(1000));
}

#[test]
fn claim_amount_full_share_of_max_does_not_overflow() {
    assert_eq!(Claim::new(100000).claim_amount(u128::MAX), Ok(u128::MAX));
    assert_eq!(Claim::new(50000).claim_amount(u128::MAX), Ok(u128::MAX / 2));
}

#[test]
fn claim_amount_overflows_above_whole() {
    assert_eq!(Claim::new(200000).claim_amount(u128::MAX), Err(XcosmError::MathOverflow {}));
    assert_eq!(Claim::new(200000).claim_amount(u128::MAX / 2), Ok(u128::MAX - 1));
}

#[test]
fn claim_amount_is_monotonic_and_bounded() {
    let c = Claim::new(7777);
    let mut last = 0u128;
    for total in [0u128, 1, 12, 13, 99, 100000, 123456789, u128::MAX] {
        let a = c.claim_amount(total).unwrap();
        assert!(a >= last);
        assert!(a <= total);
        last = a;
    }
}

#[test]
fn claim_keeps_every_denomination() {
    let funds = set(&[("uatom", 1000), ("dust", 3), ("zero", 0)]);
    let claimed = Claim::new(2500).claim(&funds).unwrap();
    let got: Vec<(String, u128)> =
        claimed.to_coins().into_iter().map(|c| (c.denom, c.amount)).collect();
    assert_eq!(
        got,
        vec![("uatom".to_string(), 25), ("dust".to_string(), 0), ("zero".to_string(), 0)]
    );
}

#[test]
fn claim_fails_on_overflowing_amount() {
    let funds = set(&[("a", u128::MAX)]);
    assert_eq!(Claim::new(100001).claim(&funds).unwrap_err(), XcosmError::MathOverflow {});
}

#[test]
fn total_bps_sums_claims() {
    assert_eq!(dist(&[("a", 6000), ("b", 4000)]).total_bps(), Ok(10000));
    assert_eq!(dist(&[("a", 60000), ("b", 40000)]).total_bps(), Ok(100000));
    assert_eq!(Distribution::default().total_bps(), Ok(0));
}

#[test]
fn overclaimed_distribution_fails_everywhere() {
    let d = dist(&[("a", 60000), ("b", 40001)]);
    assert_eq!(d.total_bps(), Err(XcosmError::FundsOverclaimed {}));
    assert_eq!(d.with_remainder_to(addr("c")).unwrap_err(), XcosmError::FundsOverclaimed {});
    let funds = set(&[("utoken", 1000)]);
    assert_eq!(d.distribute_coins(&addr("me"), &funds).unwrap_err(), XcosmError::FundsOverclaimed {});
}

#[test]
fn overclaimed_by_large_claims_does_not_wrap() {
    let d = dist(&[("a", u32::MAX), ("b", u32::MAX)]);
    assert_eq!(d.total_bps(), Err(XcosmError::FundsOverclaimed {}));
}

#[test]
fn duplicate_beneficiary_is_rejected() {
    let claims = vec![(addr("a"), Claim::new(1)), (addr("a"), Claim::new(2))];
    assert!(matches!(Distribution::new(claims), Err(XcosmError::Invalid { .. })));
}

#[test]
fn remainder_to_new_beneficiary() {
    let d = dist(&[("b", 20000), ("a", 30000)]);
    let d2 = d.with_remainder_to(addr("c")).unwrap();
    assert_eq!(d2.total_bps(), Ok(100000));
    let got: Vec<(String, u32)> =
        d2.claims().iter().map(|(a, c)| (a.as_str().to_string(), c.bps())).collect();
    assert_eq!(
        got,
        vec![("a".to_string(), 30000), ("b".to_string(), 20000), ("c".to_string(), 50000)]
    );
    // the receiver is unchanged
    assert_eq!(d.total_bps(), Ok(50000));
    assert_eq!(d.claims().len(), 2);
}

#[test]
fn remainder_to_existing_beneficiary() {
    let d = dist(&[("a", 30000), ("b", 20000)]);
    let d2 = d.with_remainder_to(addr("b")).unwrap();
    let got: Vec<(String, u32)> =
        d2.claims().iter().map(|(a, c)| (a.as_str().to_string(), c.bps())).collect();
    assert_eq!(got, vec![("a".to_string(), 30000), ("b".to_string(), 70000)]);
    assert_eq!(d2.total_bps(), Ok(100000));
}

#[test]
fn remainder_on_empty_distribution() {
    let d2 = Distribution::default().with_remainder_to(addr("z")).unwrap();
    assert_eq!(d2.total_bps(), Ok(100000));
    assert_eq!(d2.claims().len(), 1);
}

fn payout_amounts(ps: &[xcosm::Payout], denom: &str) -> Vec<(String, u128)> {
    ps.iter()
        .map(|p| (p.to.as_str().to_string(), p.coins.amount_of(&denom.to_string())))
        .collect()
}

#[test]
fn distribute_six_thousand_four_thousand_bps() {
    // 6000 and 4000 basis points of 100000 are 6% and 4%; the first
    // beneficiary also takes the unclaimed rest.
    let d = dist(&[("A", 6000), ("B", 4000)]);
    let funds = set(&[("utoken", 1000)]);
    let ps = d.distribute_coins(&addr("contract"), &funds).unwrap();
    assert_eq!(
        payout_amounts(&ps, "utoken"),
        vec![("A".to_string(), 960), ("B".to_string(), 40)]
    );
    assert_eq!(ps.iter().map(|p| p.coins.amount_of(&"utoken".to_string())).sum::<u128>(), 1000);
    assert!(ps.iter().all(|p| p.from.as_str() == "contract"));
}

#[test]
fn distribute_sixty_forty_percent() {
    let d = dist(&[("A", 60000), ("B", 40000)]);
    let funds = set(&[("utoken", 1000)]);
    let ps = d.distribute_coins(&addr("contract"), &funds).unwrap();
    assert_eq!(
        payout_amounts(&ps, "utoken"),
        vec![("A".to_string(), 600), ("B".to_string(), 400)]
    );
}

#[test]
fn distribute_gives_rounding_rest_to_first() {
    let d = dist(&[("c", 33334), ("b", 33333), ("a", 33333)]);
    let funds = set(&[("x", 10), ("y", u128::MAX)]);
    let ps = d.distribute_coins(&addr("me"), &funds).unwrap();
    assert_eq!(
        payout_amounts(&ps, "x"),
        vec![("a".to_string(), 4), ("b".to_string(), 3), ("c".to_string(), 3)]
    );
    let total_y: u128 = ps.iter().map(|p| p.coins.amount_of(&"y".to_string())).fold(0, |a, b| a + b);
    assert_eq!(total_y, u128::MAX);
    for p in &ps {
        assert_eq!(p.coins.amount_of(&"absent".to_string()), 0);
        assert_eq!(p.coins.len(), 2);
    }
}

#[test]
fn distribute_empty_distribution_is_unclaimed() {
    let funds = set(&[("utoken", 1000)]);
    assert_eq!(
        Distribution::default().distribute_coins(&addr("me"), &funds).unwrap_err(),
        XcosmError::FundsUnclaimed {}
    );
}

#[test]
fn distribute_zero_claims_gives_all_to_first() {
    let d = dist(&[("a", 0), ("b", 0)]);
    let funds = set(&[("u", 77)]);
    let ps = d.distribute_coins(&addr("me"), &funds).unwrap();
    assert_eq!(payout_amounts(&ps, "u"), vec![("a".to_string(), 77), ("b".to_string(), 0)]);
}

#[test]
fn distribute_empty_balance() {
    let d = dist(&[("a", 50000)]);
    let ps = d.distribute_coins(&addr("me"), &CoinSet::new()).unwrap();
    assert_eq!(ps.len(), 1);
    assert_eq!(ps[0].coins.len(), 0);
}

#[test]
fn distribution_to_msg_keeps_order() {
    let d = dist(&[("b", 1), ("a", 2)]);
    let m = d.to_msg();
    assert_eq!(m.claims, vec![("a".to_string(), Claim::new(2)), ("b".to_string(), Claim::new(1))]);
}

#[test]
fn distribution_order_does_not_depend_on_input_order() {
    let funds = set(&[("u", 1)]);
    let d1 = dist(&[("A", 0), ("B", 0)]);
    let d2 = dist(&[("B", 0), ("A", 0)]);
    let p1 = d1.distribute_coins(&addr("me"), &funds).unwrap();
    let p2 = d2.distribute_coins(&addr("me"), &funds).unwrap();
    assert_eq!(payout_amounts(&p1, "u"), vec![("A".to_string(), 1), ("B".to_string(), 0)]);
    assert_eq!(payout_amounts(&p1, "u"), payout_amounts(&p2, "u"));
}

#[test]
fn claims_are_sorted_by_address_text() {
    let d = dist(&[("cc", 1), ("a", 2), ("ca", 3), ("b", 4), ("c", 5)]);
    let got: Vec<String> = d.claims().iter().map(|(a, _)| a.as_str().to_string()).collect();
    assert_eq!(got, vec!["a", "b", "c", "ca", "cc"]);
    let d2 = d.with_remainder_to(addr("bb")).unwrap();
    let got: Vec<String> = d2.claims().iter().map(|(a, _)| a.as_str().to_string()).collect();
    assert_eq!(got, vec!["a", "b", "bb", "c", "ca", "cc"]);
    assert_eq!(d2.claims()[2].1.bps(), 100000 - 15);
}

#[test]
fn address_order_matches_string_order() {
    let names = ["", "a", "ab", "b", "B", "\u{e9}", "z", "aa", "\u{1F600}"];
    for x in names {
        for y in names {
            assert_eq!(addr(x).precedes(&addr(y)), x < y, "{x:?} {y:?}");
        }
    }
}
