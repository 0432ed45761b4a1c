use grug_core::coin::{Coin, CoinError, Coins};
use grug_core::math::Uint128;

fn mock_coins() -> Coins {
    Coins::try_from_vec(vec![
        Coin::new("uatom".to_string(), Uint128::new(123)).unwrap(),
        Coin::new("umars".to_string(), Uint128::new(456)).unwrap(),
        Coin::new("uosmo".to_string(), Uint128::new(789)).unwrap(),
    ])
    .unwrap()
}

#[test]
fn coins_from_str() {
    let s = "uosmo:789,uatom:123,umars:456";
    assert_eq!(Coins::from_str(s).unwrap(), mock_coins());

    let s = "uatom:0";
    assert!(Coins::from_str(s).is_err());

    let s = "uatom:123,uatom:456";
    assert!(Coins::from_str(s).is_err())
}

#[test]
fn coins_to_string_sorted() {
    assert_eq!(mock_coins().to_string(), "uatom:123,umars:456,uosmo:789");
    assert_eq!(Coins::new().to_string(), "[]");
    assert_eq!(Coins::from_str("[]").unwrap(), Coins::new());
    assert_eq!(Coins::from_str("uatom"), Err(CoinError::InvalidCoins));
    assert_eq!(Coins::from_str(":5"), Err(CoinError::InvalidCoins));
}

#[test]
fn coins_amounts() {
    let mut c = mock_coins();
    assert_eq!(c.len(), 3);
    assert!(c.has("umars"));
    assert!(!c.has("uusd"));
    assert_eq!(c.amount_of("uosmo"), Uint128::new(789));
    assert_eq!(c.amount_of("uusd"), Uint128::new(0));
    c.increase_amount("uusd", Uint128::new(5)).unwrap();
    assert_eq!(c.to_string(), "uatom:123,umars:456,uosmo:789,uusd:5");
    c.decrease_amount("umars", Uint128::new(456)).unwrap();
    assert!(!c.has("umars"));
    assert_eq!(c.decrease_amount("uatom", Uint128::new(500)), Err(CoinError::Math(grug_core::math::MathError::Overflow)));
    assert_eq!(c.decrease_amount("umars", Uint128::new(1)), Err(CoinError::DenomNotFound));
    assert_eq!(c.increase_amount("", Uint128::new(1)), Err(CoinError::InvalidDenom));
    c.increase_amount("aaa", Uint128::new(0)).unwrap();
    assert!(!c.has("aaa"));
}

#[test]
fn coins_payment_checks() {
    assert_eq!(Coins::new().assert_empty(), Ok(()));
    assert_eq!(mock_coins().assert_empty(), Err(CoinError::InvalidPayment { expect: 0, actual: 3 }));
    let one = Coins::one("uatom".to_string(), Uint128::new(9)).unwrap();
    let c = one.one_coin().unwrap();
    assert_eq!(c.denom, "uatom");
    assert_eq!(*c.amount, Uint128::new(9));
    assert!(mock_coins().one_coin().is_err());
    assert_eq!(Coins::one("uatom".to_string(), Uint128::new(0)).err(), Some(CoinError::ZeroAmount));
    assert_eq!(
        Coins::try_from_vec(vec![
            Coin::new("uatom".to_string(), Uint128::new(1)).unwrap(),
            Coin::new("uatom".to_string(), Uint128::new(2)).unwrap(),
        ])
        .err(),
        Some(CoinError::DuplicateDenom)
    );
}
