use grug_core::chain::Message;
use grug_core::coin::{Coin, Coins};
use grug_core::math::Uint128;
use grug_core::types::{
    BankQueryResponse, Bound, ChangeSet, DuplicateData, InvalidChangeSetError, RawBound, ReplyOn, Response, SubMessage,
    UniqueVec,
};

#[test]
fn response_builders() {
    let r = Response::new()
        .add_message(Message::upload(vec![1, 2]))
        .add_submessage(SubMessage::reply_on_success(Message::upload(vec![3]), b"p".to_vec()))
        .add_attribute("k".to_string(), "v".to_string());
    assert_eq!(r.submsgs.len(), 2);
    assert!(matches!(r.submsgs[0].reply_on, ReplyOn::Never));
    assert!(matches!(&r.submsgs[1].reply_on, ReplyOn::Success(p) if p == b"p"));
    assert_eq!(r.attributes[0].key, "k");
    assert!(matches!(SubMessage::reply_always(Message::upload(vec![]), vec![]).reply_on, ReplyOn::Always(_)));
    assert!(matches!(SubMessage::reply_on_error(Message::upload(vec![]), vec![]).reply_on, ReplyOn::Error(_)));
}

#[test]
fn change_set_must_be_disjoint() {
    let ok = ChangeSet::new(vec![("a".to_string(), 1usize), ("b".to_string(), 2)], vec!["d".to_string(), "e".to_string()]).unwrap();
    assert_eq!(ok.add().len(), 2);
    assert_eq!(ok.remove().len(), 2);
    assert_eq!(ok.clone().into_add()[1].1, 2);
    assert_eq!(ok.into_remove()[0], "d");
    let bad = ChangeSet::new(vec![("a".to_string(), 1usize), ("c".to_string(), 3)], vec!["c".to_string()]);
    assert_eq!(bad.err(), Some(InvalidChangeSetError));
}

#[test]
fn unique_vec_rejects_duplicates() {
    let u = UniqueVec::try_from_vec(vec![3, 1, 2]).unwrap();
    assert_eq!(u.iter().copied().collect::<Vec<u64>>(), vec![3, 1, 2]);
    assert_eq!(u.clone().into_iter().count(), 3);
    assert_eq!(u.into_inner(), vec![3, 1, 2]);
    assert_eq!(UniqueVec::try_from_vec(vec![1, 2, 1]).err(), Some(DuplicateData));
}

#[test]
fn bounds_and_bank_responses() {
    assert!(matches!(Bound::inclusive(b"k".to_vec()).into_raw(), RawBound::Inclusive(k) if k == b"k"));
    assert!(matches!(Bound::exclusive(b"k".to_vec()).into_raw(), RawBound::Exclusive(_)));
    assert!(matches!(Bound::<Vec<u8>>::ExclusiveRaw(vec![1]).into_raw(), RawBound::Exclusive(_)));
    let coin = Coin::new("uatom".to_string(), Uint128::new(5)).unwrap();
    assert_eq!(BankQueryResponse::Balance(coin.clone()).as_balance(), coin);
    assert_eq!(BankQueryResponse::Supply(coin.clone()).as_supply(), coin);
    assert_eq!(BankQueryResponse::Balances(Coins::new()).as_balances(), Coins::new());
    assert_eq!(BankQueryResponse::Supplies(Coins::new()).as_supplies(), Coins::new());
}
