use vstd::prelude::*;
use crate::chain::{Addr, Message};
use crate::coin::{Coin, Coins, compare_str};
use vstd::std_specs::iter::IteratorSpec;

verus! {

/// A bound of a range of stored keys, as raw bytes.
#[derive(Debug, Clone)]
pub enum RawBound {
    Inclusive(Vec<u8>),
    Exclusive(Vec<u8>),
}

/// A bound of a range of keys, typed or already raw.
#[derive(Debug, Clone)]
pub enum Bound<K> {
    Inclusive(K),
    Exclusive(K),
    InclusiveRaw(Vec<u8>),
    ExclusiveRaw(Vec<u8>),
}

impl<K> Bound<K> {
    pub fn inclusive(t: K) -> (r: Bound<K>)
        ensures
            r == Bound::Inclusive(t),
    {
        Bound::Inclusive(t)
    }

    pub fn exclusive(t: K) -> (r: Bound<K>)
        ensures
            r == Bound::Exclusive(t),
    {
        Bound::Exclusive(t)
    }
}

impl Bound<Vec<u8>> {
    /// The bound over raw key bytes.
    pub fn into_raw(self) -> (r: RawBound)
        ensures
            match self {
                Bound::Inclusive(k) | Bound::InclusiveRaw(k) => r == RawBound::Inclusive(k),
                Bound::Exclusive(k) | Bound::ExclusiveRaw(k) => r == RawBound::Exclusive(k),
            },
    {
        match self {
            Bound::Inclusive(k) => RawBound::Inclusive(k),
            Bound::Exclusive(k) => RawBound::Exclusive(k),
            Bound::InclusiveRaw(k) => RawBound::Inclusive(k),
            Bound::ExclusiveRaw(k) => RawBound::Exclusive(k),
        }
    }
}

/// A transfer of coins between two accounts.
#[derive(Debug, Clone)]
pub struct BankMsg {
    pub from: Addr,
    pub to: Addr,
    pub coins: Coins,
}

/// A query of the bank contract.
#[derive(Debug, Clone)]
pub enum BankQuery {
    Balance { address: Addr, denom: String },
    Balances { address: Addr, start_after: Option<String>, limit: Option<u32> },
    Supply { denom: String },
    Supplies { start_after: Option<String>, limit: Option<u32> },
}

/// The answer of the bank contract to a `BankQuery`.
#[derive(Debug, Clone)]
pub enum BankQueryResponse {
    Balance(Coin),
    Balances(Coins),
    Supply(Coin),
    Supplies(Coins),
}

impl BankQueryResponse {
    pub fn as_balance(self) -> (r: Coin)
        requires
            self is Balance,
        ensures
            self == BankQueryResponse::Balance(r),
    {
        match self {
            BankQueryResponse::Balance(c) => c,
            _ => unreached(),
        }
    }

    pub fn as_balances(self) -> (r: Coins)
        requires
            self is Balances,
        ensures
            self == BankQueryResponse::Balances(r),
    {
        match self {
            BankQueryResponse::Balances(c) => c,
            _ => unreached(),
        }
    }

    pub fn as_supply(self) -> (r: Coin)
        requires
            self is Supply,
        ensures
            self == BankQueryResponse::Supply(r),
    {
        match self {
            BankQueryResponse::Supply(c) => c,
            _ => unreached(),
        }
    }

    pub fn as_supplies(self) -> (r: Coins)
        requires
            self is Supplies,
        ensures
            self == BankQueryResponse::Supplies(r),
    {
        match self {
            BankQueryResponse::Supplies(c) => c,
            _ => unreached(),
        }
    }
}

/// When a contract wants to hear back about a message it sent, with the
/// payload to hand back.
#[derive(Debug, Clone)]
pub enum ReplyOn {
    Success(Vec<u8>),
    Error(Vec<u8>),
    Always(Vec<u8>),
    Never,
}

#[derive(Debug, Clone)]
pub struct SubMessage {
    pub msg: Message,
    pub reply_on: ReplyOn,
}

impl SubMessage {
    pub fn reply_never(msg: Message) -> (r: SubMessage)
        ensures
            r.msg == msg,
            r.reply_on == ReplyOn::Never,
    {
        SubMessage { msg, reply_on: ReplyOn::Never }
    }

    pub fn reply_always(msg: Message, payload: Vec<u8>) -> (r: SubMessage)
        ensures
            r.msg == msg,
            r.reply_on == ReplyOn::Always(payload),
    {
        SubMessage { msg, reply_on: ReplyOn::Always(payload) }
    }

    pub fn reply_on_success(msg: Message, payload: Vec<u8>) -> (r: SubMessage)
        ensures
            r.msg == msg,
            r.reply_on == ReplyOn::Success(payload),
    {
        SubMessage { msg, reply_on: ReplyOn::Success(payload) }
    }

    pub fn reply_on_error(msg: Message, payload: Vec<u8>) -> (r: SubMessage)
        ensures
            r.msg == msg,
            r.reply_on == ReplyOn::Error(payload),
    {
        SubMessage { msg, reply_on: ReplyOn::Error(payload) }
    }
}

#[derive(Debug, Clone)]
pub struct Attribute {
    pub key: String,
    pub value: String,
}

/// What a contract call asks for: messages to send and attributes to log.
#[derive(Debug, Clone)]
pub struct Response {
    pub submsgs: Vec<SubMessage>,
    pub attributes: Vec<Attribute>,
}

impl Response {
    pub fn new() -> (r: Response)
        ensures
            r.submsgs@.len() == 0,
            r.attributes@.len() == 0,
    {
        Response { submsgs: Vec::new(), attributes: Vec::new() }
    }

    /// Adds a message that is not replied to.
    pub fn add_message(self, msg: Message) -> (r: Response)
        ensures
            r.submsgs@ == self.submsgs@.push(SubMessage { msg, reply_on: ReplyOn::Never }),
            r.attributes == self.attributes,
    {
        let mut r = self;
        r.submsgs.push(SubMessage::reply_never(msg));
        r
    }

    pub fn add_submessage(self, submsg: SubMessage) -> (r: Response)
        ensures
            r.submsgs@ == self.submsgs@.push(submsg),
            r.attributes == self.attributes,
    {
        let mut r = self;
        r.submsgs.push(submsg);
        r
    }

    pub fn add_attribute(self, key: String, value: String) -> (r: Response)
        ensures
            r.submsgs == self.submsgs,
            r.attributes@ == self.attributes@.push(Attribute { key, value }),
    {
        let mut r = self;
        r.attributes.push(Attribute { key, value });
        r
    }
}

/// A vector without duplicates.
#[derive(Debug, Clone)]
pub struct UniqueVec<T>(Vec<T>);

impl<T> UniqueVec<T> {
    pub closed spec fn view(&self) -> Seq<T> {
        self.0@
    }

    pub fn into_inner(self) -> (r: Vec<T>)
        ensures
            r@ == self@,
    {
        self.0
    }

    pub fn iter(&self) -> (r: std::slice::Iter<'_, T>)
        ensures
            r.remaining() == self@.as_ref(),
    {
        let sl = self.0.as_slice();
        let r = sl.iter();
        proof {
            vstd::std_specs::slice::axiom_spec_slice_iter(sl);
        }
        r
    }

    /// The elements, to change in place; what becomes of them becomes of
    /// the vector.
    pub fn iter_mut(&mut self) -> (r: &mut [T])
        ensures
            r@ == old(self)@,
            final(self)@ == final(r)@,
    {
        self.0.as_mut_slice()
    }

    pub fn into_iter(self) -> (r: std::vec::IntoIter<T>)
        ensures
            r.remaining() == self@,
    {
        let ghost v = self.0;
        let r = self.0.into_iter();
        proof {
            vstd::std_specs::vec::axiom_spec_into_iter(v);
        }
        r
    }
}

impl UniqueVec<u64> {
    /// The vector, where no value occurs twice.
    pub fn try_from_vec(v: Vec<u64>) -> (r: Result<UniqueVec<u64>, DuplicateData>)
        ensures
            r is Ok <==> v@.no_duplicates(),
            r matches Ok(u) ==> u@ == v@,
    {
        let mut i: usize = 0;
        while i < v.len()
            invariant
                i <= v@.len(),
                forall|a: int, b: int| 0 <= a < b < v@.len() && a < i ==> v@[a] != v@[b],
            decreases v@.len() - i,
        {
            let mut j: usize = i + 1;
            while j < v.len()
                invariant
                    i < v@.len(),
                    i < j <= v@.len(),
                    forall|a: int, b: int| 0 <= a < b < v@.len() && a < i ==> v@[a] != v@[b],
                    forall|b: int| i < b < j ==> v@[i as int] != v@[b],
                decreases v@.len() - j,
            {
                if v[i] == v[j] {
                    return Err(DuplicateData);
                }
                j = j + 1;
            }
            i = i + 1;
        }
        Ok(UniqueVec(v))
    }
}

/// The error of a vector that holds a value twice.
#[derive(Debug, Clone, Copy, PartialEq, Eq)]
pub struct DuplicateData;

/// The error of a change set whose add and remove sets meet.
#[derive(Debug, Clone, Copy, PartialEq, Eq)]
pub struct InvalidChangeSetError;

/// Entries to add and keys to remove, with no key in both.
#[derive(Debug, Clone)]
pub struct ChangeSet<K, V> {
    add: Vec<(K, V)>,
    remove: Vec<K>,
}

impl<K, V> ChangeSet<K, V> {
    pub closed spec fn spec_add(&self) -> Seq<(K, V)> {
        self.add@
    }

    pub closed spec fn spec_remove(&self) -> Seq<K> {
        self.remove@
    }

    pub fn add(&self) -> (r: &Vec<(K, V)>)
        ensures
            r@ == self.spec_add(),
    {
        &self.add
    }

    pub fn into_add(self) -> (r: Vec<(K, V)>)
        ensures
            r@ == self.spec_add(),
    {
        self.add
    }

    pub fn remove(&self) -> (r: &Vec<K>)
        ensures
            r@ == self.spec_remove(),
    {
        &self.remove
    }

    pub fn into_remove(self) -> (r: Vec<K>)
        ensures
            r@ == self.spec_remove(),
    {
        self.remove
    }
}

impl<V> ChangeSet<String, V> {
    /// The change set, where no key to add is also to be removed.
    pub fn new(add: Vec<(String, V)>, remove: Vec<String>) -> (r: Result<ChangeSet<String, V>, InvalidChangeSetError>)
        ensures
            r is Ok <==> forall|i: int, j: int| 0 <= i < add@.len() && 0 <= j < remove@.len() ==> add@[i].0@ != remove@[j]@,
            r matches Ok(c) ==> c.spec_add() == add@ && c.spec_remove() == remove@,
    {
        let mut i: usize = 0;
        while i < add.len()
            invariant
                i <= add@.len(),
                forall|a: int, b: int| 0 <= a < i && 0 <= b < remove@.len() ==> add@[a].0@ != remove@[b]@,
            decreases add@.len() - i,
        {
            let mut j: usize = 0;
            while j < remove.len()
                invariant
                    i < add@.len(),
                    j <= remove@.len(),
                    forall|a: int, b: int| 0 <= a < i && 0 <= b < remove@.len() ==> add@[a].0@ != remove@[b]@,
                    forall|b: int| 0 <= b < j ==> add@[i as int].0@ != remove@[b]@,
                decreases remove@.len() - j,
            {
                if compare_str(add[i].0.as_str(), remove[j].as_str()) == 0 {
                    return Err(InvalidChangeSetError);
                }
                j = j + 1;
            }
            i = i + 1;
        }
        Ok(ChangeSet { add, remove })
    }
}

/// A message or value with no content.
#[derive(Debug, Clone, Copy, PartialEq, Eq, Structural)]
pub struct Empty {}

} // verus!
