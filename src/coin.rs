use vstd::prelude::*;
use crate::math::{in_u128, uint_str_value, MathError, Uint, Uint128};
use crate::text::{chars_of, nat_digits, string_from_chars, push_digits};
use crate::dec::{find_char, first_char, has_char};
use crate::math::parse_uint;

verus! {

/// The error of building or changing a set of coins.
#[derive(Debug, Clone, PartialEq, Eq)]
pub enum CoinError {
    /// A denomination that is empty.
    InvalidDenom,
    /// A denomination given twice.
    DuplicateDenom,
    /// A zero amount where coins must be positive.
    ZeroAmount,
    /// A string that is not `denom:amount[,denom:amount...]`.
    InvalidCoins,
    /// A decrease of a denomination that is not held.
    DenomNotFound,
    /// A number of coins other than the one asked for.
    InvalidPayment { expect: usize, actual: usize },
    Math(MathError),
}

/// Lexicographic order of strings by code point (the order of their UTF-8 bytes).
pub open spec fn str_lt(a: Seq<char>, b: Seq<char>) -> bool
    decreases a.len(),
{
    if a.len() == 0 {
        b.len() > 0
    } else if b.len() == 0 {
        false
    } else if a[0] != b[0] {
        a[0] < b[0]
    } else {
        str_lt(a.drop_first(), b.drop_first())
    }
}

pub proof fn lemma_str_lt_irreflexive(a: Seq<char>)
    ensures
        !str_lt(a, a),
    decreases a.len(),
{
    if a.len() > 0 {
        lemma_str_lt_irreflexive(a.drop_first());
    }
}

pub proof fn lemma_str_lt_transitive(a: Seq<char>, b: Seq<char>, c: Seq<char>)
    requires
        str_lt(a, b),
        str_lt(b, c),
    ensures
        str_lt(a, c),
    decreases a.len(),
{
    if a.len() > 0 && b.len() > 0 && c.len() > 0 && a[0] == b[0] && b[0] == c[0] {
        lemma_str_lt_transitive(a.drop_first(), b.drop_first(), c.drop_first());
    }
}

pub proof fn lemma_str_lt_total(a: Seq<char>, b: Seq<char>)
    ensures
        a != b ==> (str_lt(a, b) || str_lt(b, a)),
        !(str_lt(a, b) && str_lt(b, a)),
    decreases a.len(),
{
    if a.len() > 0 && b.len() > 0 {
        lemma_str_lt_total(a.drop_first(), b.drop_first());
        if a[0] == b[0] && a != b {
            assert(a =~= seq![a[0]] + a.drop_first());
            assert(b =~= seq![b[0]] + b.drop_first());
        }
    } else if a.len() == 0 && b.len() == 0 {
        assert(a =~= b);
    }
}

/// Compares two strings: `-1`, `0` or `1` for less, equal or greater.
pub fn compare_str(a: &str, b: &str) -> (r: i8)
    ensures
        r == 0 <==> a@ == b@,
        r < 0 <==> str_lt(a@, b@),
        r > 0 <==> str_lt(b@, a@),
{
    let x = chars_of(a);
    let y = chars_of(b);
    let mut i: usize = 0;
    while i < x.len() && i < y.len() && x[i] == y[i]
        invariant
            x@ == a@,
            y@ == b@,
            i <= x@.len(),
            i <= y@.len(),
            x@.subrange(0, i as int) == y@.subrange(0, i as int),
        decreases x@.len() - i,
    {
        assert(x@.subrange(0, i + 1) =~= x@.subrange(0, i as int).push(x@[i as int]));
        assert(y@.subrange(0, i + 1) =~= y@.subrange(0, i as int).push(y@[i as int]));
        i = i + 1;
    }
    proof {
        lemma_str_lt_total(a@, b@);
        lemma_str_lt_irreflexive(a@);
        lemma_str_lt_suffix(x@, y@, i as int);
    }
    if i == x.len() && i == y.len() {
        assert(x@ =~= x@.subrange(0, i as int));
        assert(y@ =~= y@.subrange(0, i as int));
        0
    } else if i == x.len() {
        -1
    } else if i == y.len() {
        1
    } else if x[i] < y[i] {
        -1
    } else {
        1
    }
}

/// Two strings with a common prefix compare as what follows it.
proof fn lemma_str_lt_suffix(a: Seq<char>, b: Seq<char>, i: int)
    requires
        0 <= i <= a.len(),
        i <= b.len(),
        a.subrange(0, i) == b.subrange(0, i),
    ensures
        str_lt(a, b) == str_lt(a.subrange(i, a.len() as int), b.subrange(i, b.len() as int)),
        str_lt(b, a) == str_lt(b.subrange(i, b.len() as int), a.subrange(i, a.len() as int)),
    decreases i,
{
    if i == 0 {
        assert(a.subrange(0, a.len() as int) =~= a);
        assert(b.subrange(0, b.len() as int) =~= b);
    } else {
        assert(a[0] == a.subrange(0, i)[0]);
        assert(b[0] == b.subrange(0, i)[0]);
        assert(a.drop_first().subrange(0, i - 1) =~= a.subrange(0, i).drop_first());
        assert(b.drop_first().subrange(0, i - 1) =~= b.subrange(0, i).drop_first());
        lemma_str_lt_suffix(a.drop_first(), b.drop_first(), i - 1);
        assert(a.drop_first().subrange(i - 1, a.len() - 1) =~= a.subrange(i, a.len() as int));
        assert(b.drop_first().subrange(i - 1, b.len() - 1) =~= b.subrange(i, b.len() as int));
    }
}

/// A coin written `denom:amount`: a non-empty denomination before the first
/// colon and a positive amount after it.
pub open spec fn coin_part(p: Seq<char>) -> Option<(Seq<char>, u128)> {
    if !has_char(p, ':') {
        None
    } else {
        let c = first_char(p, ':');
        let d = p.subrange(0, c);
        match uint_str_value(p.subrange(c + 1, p.len() as int)) {
            Some(v) => if d.len() > 0 && in_u128(v) && v > 0 { Some((d, v as u128)) } else { None },
            None => None,
        }
    }
}

/// Adds the coin written `part` to `m`; `None` where it is malformed or its
/// denomination is already there.
pub open spec fn add_part(m: Map<Seq<char>, u128>, part: Seq<char>) -> Option<Map<Seq<char>, u128>> {
    match coin_part(part) {
        Some((d, v)) => if m.contains_key(d) { None } else { Some(m.insert(d, v)) },
        None => None,
    }
}

/// Reads `s` up to its last comma: the coins of the complete parts and the
/// text of the part under way.
pub open spec fn coins_fold(s: Seq<char>) -> Option<(Map<Seq<char>, u128>, Seq<char>)>
    decreases s.len(),
{
    if s.len() == 0 {
        Some((Map::empty(), Seq::empty()))
    } else {
        match coins_fold(s.drop_last()) {
            None => None,
            Some((m, cur)) => if s.last() == ',' {
                match add_part(m, cur) {
                    Some(m2) => Some((m2, Seq::empty())),
                    None => None,
                }
            } else {
                Some((m, cur.push(s.last())))
            },
        }
    }
}

/// The coins that a string denotes: `[]` for none, else
/// `denom:amount[,denom:amount...]` with distinct denominations.
pub open spec fn coins_str_value(s: Seq<char>) -> Option<Map<Seq<char>, u128>> {
    if s == seq!['[', ']'] {
        Some(Map::empty())
    } else {
        match coins_fold(s) {
            Some((m, cur)) => add_part(m, cur),
            None => None,
        }
    }
}

proof fn lemma_fold_none_extends(s: Seq<char>, i: int)
    requires
        0 <= i <= s.len(),
        coins_fold(s.take(i)) is None,
    ensures
        coins_fold(s) is None,
    decreases s.len() - i,
{
    if i < s.len() {
        assert(s.take(i + 1).drop_last() =~= s.take(i));
        lemma_fold_none_extends(s, i + 1);
    } else {
        assert(s.take(i) =~= s);
    }
}

proof fn lemma_list_none_extends(s: Seq<Coin>, i: int)
    requires
        0 <= i <= s.len(),
        coins_list_value(s.take(i)) is None,
    ensures
        coins_list_value(s) is None,
    decreases s.len() - i,
{
    if i < s.len() {
        assert(s.take(i + 1).drop_last() =~= s.take(i));
        lemma_list_none_extends(s, i + 1);
    } else {
        assert(s.take(i) =~= s);
    }
}

/// Characters `from..to` of `v`.
pub fn chars_slice(v: &Vec<char>, from: usize, to: usize) -> (r: Vec<char>)
    requires
        from <= to <= v@.len(),
    ensures
        r@ == v@.subrange(from as int, to as int),
{
    let mut r: Vec<char> = Vec::new();
    let mut i: usize = from;
    while i < to
        invariant
            from <= i <= to <= v@.len(),
            r@ == v@.subrange(from as int, i as int),
        decreases to - i,
    {
        r.push(v[i]);
        i = i + 1;
        assert(r@ =~= v@.subrange(from as int, i as int));
    }
    r
}

/// Reads one `denom:amount` part.
fn parse_coin_part(p: &Vec<char>) -> (r: Option<(String, u128)>)
    ensures
        match coin_part(p@) {
            Some((d, v)) => r matches Some((d2, v2)) && d2@ == d && v2 == v,
            None => r is None,
        },
{
    proof {
        reveal(has_char);
        reveal(first_char);
    }
    match find_char(p, 0, ':') {
        None => {
            assert(!has_char(p@, ':'));
            None
        },
        Some(c) => {
            proof {
                assert(has_char(p@, ':'));
                let f = first_char(p@, ':');
                assert(!has_char(p@.subrange(0, c as int), ':')) by {
                    assert forall|i: int| 0 <= i < c implies p@.subrange(0, c as int)[i] != ':' by {}
                }
                assert(0 <= f < p@.len() && p@[f] == ':' && !has_char(p@.subrange(0, f), ':'));
                if f < c {
                    assert(p@[f] != ':');
                } else if f > c {
                    assert(p@.subrange(0, f)[c as int] == ':');
                }
                assert(f == c);
            }
            if c == 0 {
                return None;
            }
            assert(c < p.len());
            match parse_uint(p, c + 1, p.len()) {
                None => None,
                Some(v) => {
                    if v == 0 {
                        None
                    } else {
                        let d = chars_slice(p, 0, c);
                        Some((string_from_chars(&d), v))
                    }
                },
            }
        },
    }
}

/// The coins of a list, or `None` where an amount is zero, a denomination
/// is empty or one is given twice.
pub open spec fn coins_list_value(s: Seq<Coin>) -> Option<Map<Seq<char>, u128>>
    decreases s.len(),
{
    if s.len() == 0 {
        Some(Map::empty())
    } else {
        match coins_list_value(s.drop_last()) {
            None => None,
            Some(m) => {
                let c = s.last();
                if c.amount.0 == 0 || c.denom@.len() == 0 || m.contains_key(c.denom@) {
                    None
                } else {
                    Some(m.insert(c.denom@, c.amount.0))
                }
            },
        }
    }
}

pub open spec fn coin_chars(c: Coin) -> Seq<char> {
    c.denom@ + seq![':'] + nat_digits(c.amount.0 as nat)
}

/// The coins written one after the other, separated by commas.
pub open spec fn coins_chars(e: Seq<Coin>) -> Seq<char>
    decreases e.len(),
{
    if e.len() == 0 {
        Seq::empty()
    } else if e.len() == 1 {
        coin_chars(e[0])
    } else {
        coins_chars(e.drop_last()) + seq![','] + coin_chars(e.last())
    }
}

/// An amount of one denomination.
#[derive(Debug, Clone, PartialEq, Eq)]
pub struct Coin {
    pub denom: String,
    pub amount: Uint128,
}

/// A coin seen through references.
#[derive(Debug)]
pub struct CoinRef<'a> {
    pub denom: &'a String,
    pub amount: &'a Uint128,
}

impl Coin {
    /// A coin; the denomination must not be empty.
    pub fn new(denom: String, amount: Uint128) -> (r: Result<Coin, CoinError>)
        ensures
            denom@.len() > 0 ==> (r matches Ok(c) && c.denom@ == denom@ && c.amount == amount),
            denom@.len() == 0 ==> r == Err::<Coin, CoinError>(CoinError::InvalidDenom),
    {
        if denom.as_str().unicode_len() == 0 {
            return Err(CoinError::InvalidDenom);
        }
        Ok(Coin { denom, amount })
    }

    pub fn as_ref(&self) -> (r: CoinRef<'_>)
        ensures
            r.denom == &self.denom,
            r.amount == &self.amount,
    {
        CoinRef { denom: &self.denom, amount: &self.amount }
    }

    /// `denom:amount`.
    pub fn to_string(&self) -> (r: String)
        ensures
            r@ == self.denom@ + seq![':'] + nat_digits(self.amount.0 as nat),
    {
        let mut out = chars_of(self.denom.as_str());
        out.push(':');
        push_digits(self.amount.0, &mut out);
        string_from_chars(&out)
    }
}

/// A set of coins: positive amounts, at most one per denomination, kept in
/// ascending order of denomination.
#[derive(Debug, Clone, PartialEq, Eq)]
pub struct Coins {
    coins: Vec<Coin>,
}

impl Coins {
    pub closed spec fn entries(&self) -> Seq<Coin> {
        self.coins@
    }

    pub open spec fn wf(&self) -> bool {
        &&& forall|i: int, j: int| 0 <= i < j < self.entries().len()
            ==> str_lt(#[trigger] self.entries()[i].denom@, #[trigger] self.entries()[j].denom@)
        &&& forall|i: int| 0 <= i < self.entries().len() ==> #[trigger] self.entries()[i].amount.0 > 0
        &&& forall|i: int| 0 <= i < self.entries().len() ==> #[trigger] self.entries()[i].denom@.len() > 0
    }

    /// The position of `d` among the entries, where it is held.
    pub open spec fn index_of(&self, d: Seq<char>) -> int {
        choose|i: int| 0 <= i < self.entries().len() && self.entries()[i].denom@ == d
    }

    pub open spec fn holds(&self, d: Seq<char>) -> bool {
        exists|i: int| 0 <= i < self.entries().len() && self.entries()[i].denom@ == d
    }

    /// Each denomination held and its amount.
    pub open spec fn view(&self) -> Map<Seq<char>, u128> {
        Map::new(|d: Seq<char>| self.holds(d), |d: Seq<char>| self.entries()[self.index_of(d)].amount.0)
    }

    pub fn new() -> (r: Coins)
        ensures
            r.wf(),
            r.entries().len() == 0,
            r@ == Map::<Seq<char>, u128>::empty(),
    {
        let r = Coins { coins: Vec::new() };
        assert(r@ =~= Map::<Seq<char>, u128>::empty());
        r
    }

    pub fn is_empty(&self) -> (r: bool)
        ensures
            r == (self.entries().len() == 0),
    {
        self.coins.len() == 0
    }

    pub fn len(&self) -> (r: usize)
        ensures
            r == self.entries().len(),
    {
        self.coins.len()
    }

    /// The coins in ascending order of denomination.
    pub fn to_vec(&self) -> (r: Vec<Coin>)
        ensures
            r@.len() == self.entries().len(),
            forall|i: int| 0 <= i < r@.len() ==> r@[i].denom@ == self.entries()[i].denom@ && r@[i].amount == self.entries()[i].amount,
    {
        let mut r: Vec<Coin> = Vec::new();
        let mut i: usize = 0;
        while i < self.coins.len()
            invariant
                i <= self.coins@.len(),
                r@.len() == i,
                forall|j: int| 0 <= j < i ==> r@[j].denom@ == self.coins@[j].denom@ && r@[j].amount == self.coins@[j].amount,
            decreases self.coins@.len() - i,
        {
            let c = &self.coins[i];
            r.push(Coin { denom: c.denom.clone(), amount: c.amount });
            i = i + 1;
        }
        r
    }

    /// The position of `denom`, or where it would be inserted.
    fn search(&self, denom: &str) -> (r: (usize, bool))
        requires
            self.wf(),
        ensures
            r.0 <= self.entries().len(),
            r.1 ==> r.0 < self.entries().len() && self.entries()[r.0 as int].denom@ == denom@,
            !r.1 ==> forall|i: int| 0 <= i < self.entries().len() ==> self.entries()[i].denom@ != denom@,
            forall|i: int| 0 <= i < r.0 ==> str_lt(#[trigger] self.entries()[i].denom@, denom@),
            !r.1 ==> forall|i: int| r.0 <= i < self.entries().len() ==> str_lt(denom@, #[trigger] self.entries()[i].denom@),
    {
        let mut i: usize = 0;
        while i < self.coins.len()
            invariant
                self.wf(),
                i <= self.coins@.len(),
                forall|j: int| 0 <= j < i ==> str_lt(#[trigger] self.coins@[j].denom@, denom@),
            decreases self.coins@.len() - i,
        {
            let c = compare_str(self.coins[i].denom.as_str(), denom);
            if c == 0 {
                return (i, true);
            }
            if c > 0 {
                proof {
                    assert forall|j: int| i <= j < self.coins@.len() implies str_lt(denom@, #[trigger] self.coins@[j].denom@) by {
                        if j > i {
                            assert(str_lt(self.entries()[i as int].denom@, self.entries()[j].denom@));
                            lemma_str_lt_transitive(denom@, self.coins@[i as int].denom@, self.coins@[j].denom@);
                        }
                    }
                    assert forall|j: int| 0 <= j < self.coins@.len() implies self.coins@[j].denom@ != denom@ by {
                        if j >= i {
                            lemma_str_lt_irreflexive(denom@);
                        } else {
                            lemma_str_lt_irreflexive(denom@);
                        }
                    }
                }
                return (i, false);
            }
            i = i + 1;
        }
        proof {
            assert forall|j: int| 0 <= j < self.coins@.len() implies self.coins@[j].denom@ != denom@ by {
                lemma_str_lt_irreflexive(denom@);
            }
        }
        (i, false)
    }

    pub fn has(&self, denom: &str) -> (r: bool)
        requires
            self.wf(),
        ensures
            r == self@.contains_key(denom@),
    {
        let (_, found) = self.search(denom);
        found
    }

    /// The amount held of `denom`; zero where none is.
    pub fn amount_of(&self, denom: &str) -> (r: Uint128)
        requires
            self.wf(),
        ensures
            self@.contains_key(denom@) ==> r.0 == self@[denom@],
            !self@.contains_key(denom@) ==> r.0 == 0,
    {
        let (i, found) = self.search(denom);
        if found {
            proof {
                self.lemma_view_at(i as int);
            }
            self.coins[i].amount
        } else {
            Uint(0)
        }
    }

    proof fn lemma_view_at(&self, i: int)
        requires
            self.wf(),
            0 <= i < self.entries().len(),
        ensures
            self@.contains_key(self.entries()[i].denom@),
            self@[self.entries()[i].denom@] == self.entries()[i].amount.0,
    {
        let d = self.entries()[i].denom@;
        assert(0 <= i < self.entries().len() && self.entries()[i].denom@ == d);
        let c = self.index_of(d);
        assert(0 <= c < self.entries().len() && self.entries()[c].denom@ == d);
        if c != i {
            if c < i {
                assert(str_lt(self.entries()[c].denom@, self.entries()[i].denom@));
            } else {
                assert(str_lt(self.entries()[i].denom@, self.entries()[c].denom@));
            }
            lemma_str_lt_irreflexive(d);
        }
        assert(self@.contains_key(d));
        assert(self@[d] == self.entries()[c].amount.0);
    }

    /// Every key of the view is the denomination of an entry.
    proof fn lemma_view_keys(&self, d: Seq<char>)
        requires
            self.wf(),
            self@.contains_key(d),
        ensures
            0 <= self.index_of(d) < self.entries().len(),
            self.entries()[self.index_of(d)].denom@ == d,
    {
    }

    /// Puts `coin` at position `i`, where its denomination belongs and is not held.
    fn insert_at(&mut self, i: usize, coin: Coin)
        requires
            old(self).wf(),
            i <= old(self).entries().len(),
            coin.amount.0 > 0,
            coin.denom@.len() > 0,
            forall|j: int| 0 <= j < i ==> str_lt(#[trigger] old(self).entries()[j].denom@, coin.denom@),
            forall|j: int| i <= j < old(self).entries().len() ==> str_lt(coin.denom@, #[trigger] old(self).entries()[j].denom@),
        ensures
            final(self).wf(),
            final(self)@ == old(self)@.insert(coin.denom@, coin.amount.0),
    {
        let ghost d = coin.denom@;
        let ghost a = coin.amount.0;
        let ghost old_e = self.entries();
        self.coins.insert(i, coin);
        proof {
            let e = self.entries();
            assert(e == old_e.insert(i as int, e[i as int]));
            assert forall|x: int, y: int| 0 <= x < y < e.len() implies str_lt(#[trigger] e[x].denom@, #[trigger] e[y].denom@) by {
                if x < i && y == i {
                } else if x < i && y > i {
                    assert(old_e[y - 1] == e[y]);
                } else if x == i {
                    assert(old_e[y - 1] == e[y]);
                } else if x > i {
                    assert(old_e[x - 1] == e[x]);
                    assert(old_e[y - 1] == e[y]);
                    assert(str_lt(old_e[x - 1].denom@, old_e[y - 1].denom@));
                }
            }
            assert forall|x: int| 0 <= x < e.len() implies #[trigger] e[x].amount.0 > 0 && e[x].denom@.len() > 0 by {
                if x > i {
                    assert(old_e[x - 1] == e[x]);
                }
            }
            assert forall|q: Seq<char>| #[trigger] self@.contains_key(q) == old(self)@.insert(d, a).contains_key(q) by {
                if self@.contains_key(q) {
                    let k = self.index_of(q);
                    if k > i {
                        assert(old_e[k - 1].denom@ == q);
                    } else if k < i {
                        assert(old_e[k].denom@ == q);
                    }
                }
                if old(self)@.contains_key(q) {
                    let k = old(self).index_of(q);
                    if k >= i {
                        assert(e[k + 1].denom@ == q);
                    } else {
                        assert(e[k].denom@ == q);
                    }
                }
                if q == d {
                    assert(e[i as int].denom@ == q);
                }
            }
            assert forall|q: Seq<char>| #[trigger] self@.contains_key(q) implies self@[q] == old(self)@.insert(d, a)[q] by {
                let k = self.index_of(q);
                self.lemma_view_at(k);
                if k > i {
                    old(self).lemma_view_at(k - 1);
                    assert(old_e[k - 1] == e[k]);
                    assert(str_lt(e[i as int].denom@, e[k].denom@));
                    lemma_str_lt_irreflexive(q);
                } else if k < i {
                    old(self).lemma_view_at(k);
                    assert(old_e[k] == e[k]);
                    assert(str_lt(e[k].denom@, e[i as int].denom@));
                    lemma_str_lt_irreflexive(q);
                } else {
                    assert(e[i as int].amount.0 == a);
                }
            }
            assert(self@ =~= old(self)@.insert(d, a));
        }
    }

    /// The coins holding `amount` of `denom` alone.
    pub fn one(denom: String, amount: Uint128) -> (r: Result<Coins, CoinError>)
        ensures
            denom@.len() == 0 ==> r == Err::<Coins, CoinError>(CoinError::InvalidDenom),
            denom@.len() > 0 && amount.0 == 0 ==> r == Err::<Coins, CoinError>(CoinError::ZeroAmount),
            denom@.len() > 0 && amount.0 > 0 ==> (r matches Ok(c) && c.wf()
                && c@ == Map::<Seq<char>, u128>::empty().insert(denom@, amount.0)),
    {
        if denom.as_str().unicode_len() == 0 {
            return Err(CoinError::InvalidDenom);
        }
        if amount.0 == 0 {
            return Err(CoinError::ZeroAmount);
        }
        let mut c = Coins::new();
        c.insert_at(0, Coin { denom, amount });
        Ok(c)
    }

    /// Adds `by` of `denom`. A zero increase of a denomination not held
    /// changes nothing.
    pub fn increase_amount(&mut self, denom: &str, by: Uint128) -> (r: Result<(), CoinError>)
        requires
            old(self).wf(),
        ensures
            final(self).wf(),
            denom@.len() == 0 ==> r == Err::<(), CoinError>(CoinError::InvalidDenom) && final(self)@ == old(self)@,
            denom@.len() > 0 ==> {
                let cur: int = if old(self)@.contains_key(denom@) { old(self)@[denom@] as int } else { 0 };
                &&& in_u128(cur + by.0) ==> r is Ok && final(self)@ == (if cur + by.0 == 0 {
                    old(self)@
                } else {
                    old(self)@.insert(denom@, (cur + by.0) as u128)
                })
                &&& !in_u128(cur + by.0) ==> r == Err::<(), CoinError>(CoinError::Math(MathError::Overflow))
                    && final(self)@ == old(self)@
            },
    {
        if denom.unicode_len() == 0 {
            return Err(CoinError::InvalidDenom);
        }
        let (i, found) = self.search(denom);
        if found {
            proof {
                self.lemma_view_at(i as int);
            }
            let cur = self.coins[i].amount;
            match cur.checked_add(by) {
                Err(e) => Err(CoinError::Math(e)),
                Ok(v) => {
                    let d = self.coins[i].denom.clone();
                    self.remove_at(i);
                    proof {
                        assert forall|j: int| 0 <= j < i implies str_lt(#[trigger] self.entries()[j].denom@, denom@) by {
                            assert(self.entries()[j] == old(self).entries()[j]);
                        }
                        assert forall|j: int| i <= j < self.entries().len() implies str_lt(denom@, #[trigger] self.entries()[j].denom@) by {
                            assert(self.entries()[j] == old(self).entries()[j + 1]);
                            assert(str_lt(old(self).entries()[i as int].denom@, old(self).entries()[j + 1].denom@));
                        }
                    }
                    self.insert_at(i, Coin { denom: d, amount: v });
                    proof {
                        assert(self@ =~= old(self)@.insert(denom@, v.0));
                    }
                    Ok(())
                },
            }
        } else {
            if by.0 != 0 {
                let d = denom.to_owned();
                self.insert_at(i, Coin { denom: d, amount: by });
            }
            Ok(())
        }
    }

    /// Removes the entry at position `i`.
    fn remove_at(&mut self, i: usize)
        requires
            old(self).wf(),
            i < old(self).entries().len(),
        ensures
            final(self).wf(),
            final(self).entries() == old(self).entries().remove(i as int),
            final(self)@ == old(self)@.remove(old(self).entries()[i as int].denom@),
    {
        let ghost old_e = self.entries();
        let ghost d = old_e[i as int].denom@;
        self.coins.remove(i);
        proof {
            let e = self.entries();
            assert(e == old_e.remove(i as int));
            assert forall|x: int, y: int| 0 <= x < y < e.len() implies str_lt(#[trigger] e[x].denom@, #[trigger] e[y].denom@) by {
                let ox = if x < i { x } else { x + 1 };
                let oy = if y < i { y } else { y + 1 };
                assert(old_e[ox] == e[x]);
                assert(old_e[oy] == e[y]);
                assert(str_lt(old_e[ox].denom@, old_e[oy].denom@));
            }
            assert forall|x: int| 0 <= x < e.len() implies #[trigger] e[x].amount.0 > 0 && e[x].denom@.len() > 0 by {
                let ox = if x < i { x } else { x + 1 };
                assert(old_e[ox] == e[x]);
            }
            assert forall|q: Seq<char>| #[trigger] self@.contains_key(q) == old(self)@.remove(d).contains_key(q) by {
                if self@.contains_key(q) {
                    let k = self.index_of(q);
                    let ok = if k < i { k } else { k + 1 };
                    assert(old_e[ok].denom@ == q);
                    if ok != i {
                        if ok < i {
                            assert(str_lt(old_e[ok].denom@, old_e[i as int].denom@));
                        } else {
                            assert(str_lt(old_e[i as int].denom@, old_e[ok].denom@));
                        }
                        lemma_str_lt_irreflexive(q);
                    }
                }
                if old(self)@.contains_key(q) && q != d {
                    let k = old(self).index_of(q);
                    if k < i {
                        assert(e[k].denom@ == q);
                    } else if k > i {
                        assert(e[k - 1].denom@ == q);
                    }
                }
            }
            assert forall|q: Seq<char>| #[trigger] self@.contains_key(q) implies self@[q] == old(self)@.remove(d)[q] by {
                let k = self.index_of(q);
                self.lemma_view_at(k);
                let ok = if k < i { k } else { k + 1 };
                assert(old_e[ok] == e[k]);
                old(self).lemma_view_at(ok);
            }
            assert(self@ =~= old(self)@.remove(d));
        }
    }

    /// Takes `by` of `denom` away; a denomination that reaches zero is removed.
    pub fn decrease_amount(&mut self, denom: &str, by: Uint128) -> (r: Result<(), CoinError>)
        requires
            old(self).wf(),
        ensures
            final(self).wf(),
            denom@.len() == 0 ==> r == Err::<(), CoinError>(CoinError::InvalidDenom) && final(self)@ == old(self)@,
            denom@.len() > 0 && !old(self)@.contains_key(denom@) ==> r == Err::<(), CoinError>(CoinError::DenomNotFound)
                && final(self)@ == old(self)@,
            denom@.len() > 0 && old(self)@.contains_key(denom@) && old(self)@[denom@] < by.0 ==> r == Err::<(), CoinError>(
                CoinError::Math(MathError::Overflow),
            ) && final(self)@ == old(self)@,
            denom@.len() > 0 && old(self)@.contains_key(denom@) && old(self)@[denom@] >= by.0 ==> r is Ok
                && final(self)@ == (if old(self)@[denom@] == by.0 {
                    old(self)@.remove(denom@)
                } else {
                    old(self)@.insert(denom@, (old(self)@[denom@] - by.0) as u128)
                }),
    {
        if denom.unicode_len() == 0 {
            return Err(CoinError::InvalidDenom);
        }
        let (i, found) = self.search(denom);
        if !found {
            return Err(CoinError::DenomNotFound);
        }
        proof {
            self.lemma_view_at(i as int);
        }
        let cur = self.coins[i].amount;
        match cur.checked_sub(by) {
            Err(e) => Err(CoinError::Math(e)),
            Ok(v) => {
                let d = self.coins[i].denom.clone();
                self.remove_at(i);
                if v.0 != 0 {
                    proof {
                        assert forall|j: int| 0 <= j < i implies str_lt(#[trigger] self.entries()[j].denom@, denom@) by {
                            assert(self.entries()[j] == old(self).entries()[j]);
                        }
                        assert forall|j: int| i <= j < self.entries().len() implies str_lt(denom@, #[trigger] self.entries()[j].denom@) by {
                            assert(self.entries()[j] == old(self).entries()[j + 1]);
                            assert(str_lt(old(self).entries()[i as int].denom@, old(self).entries()[j + 1].denom@));
                        }
                    }
                    self.insert_at(i, Coin { denom: d, amount: v });
                    proof {
                        assert(self@ =~= old(self)@.insert(denom@, v.0));
                    }
                }
                Ok(())
            },
        }
    }

    /// Adds a coin of a denomination not held; `false`, changing nothing,
    /// where it is held.
    fn try_insert(&mut self, denom: String, amount: Uint128) -> (r: bool)
        requires
            old(self).wf(),
            amount.0 > 0,
            denom@.len() > 0,
        ensures
            final(self).wf(),
            r == !old(self)@.contains_key(denom@),
            r ==> final(self)@ == old(self)@.insert(denom@, amount.0),
            !r ==> final(self)@ == old(self)@,
    {
        let (i, found) = self.search(denom.as_str());
        if found {
            proof {
                self.lemma_view_at(i as int);
            }
            false
        } else {
            proof {
                if self@.contains_key(denom@) {
                    self.lemma_view_keys(denom@);
                }
            }
            self.insert_at(i, Coin { denom, amount });
            true
        }
    }

    /// Parses `[]` or `denom:amount[,denom:amount...]`; amounts must be
    /// positive and denominations distinct.
    pub fn from_str(s: &str) -> (r: Result<Coins, CoinError>)
        ensures
            match coins_str_value(s@) {
                Some(m) => r matches Ok(c) && c.wf() && c@ == m,
                None => r == Err::<Coins, CoinError>(CoinError::InvalidCoins),
            },
    {
        let cs = chars_of(s);
        if cs.len() == 2 && cs[0] == '[' && cs[1] == ']' {
            assert(s@ =~= seq!['[', ']']);
            return Ok(Coins::new());
        }
        proof {
            if s@ == seq!['[', ']'] {
                assert(cs@[0] == '[' && cs@[1] == ']');
            }
        }
        let mut coins = Coins::new();
        let mut cur: Vec<char> = Vec::new();
        let mut i: usize = 0;
        while i < cs.len()
            invariant
                i <= cs@.len(),
                cs@ == s@,
                coins.wf(),
                coins_fold(cs@.take(i as int)) == Some((coins@, cur@)),
            decreases cs@.len() - i,
        {
            let c = cs[i];
            proof {
                assert(cs@.take(i + 1).drop_last() =~= cs@.take(i as int));
                assert(cs@.take(i + 1).last() == c);
            }
            if c == ',' {
                match parse_coin_part(&cur) {
                    None => {
                        proof { lemma_fold_none_extends(cs@, i + 1); }
                        return Err(CoinError::InvalidCoins);
                    },
                    Some((d, v)) => {
                        if !coins.try_insert(d, Uint(v)) {
                            proof { lemma_fold_none_extends(cs@, i + 1); }
                            return Err(CoinError::InvalidCoins);
                        }
                        cur = Vec::new();
                    },
                }
            } else {
                cur.push(c);
            }
            i = i + 1;
        }
        proof {
            assert(cs@.take(cs@.len() as int) =~= cs@);
        }
        match parse_coin_part(&cur) {
            None => Err(CoinError::InvalidCoins),
            Some((d, v)) => {
                if !coins.try_insert(d, Uint(v)) {
                    return Err(CoinError::InvalidCoins);
                }
                Ok(coins)
            },
        }
    }

    /// The coins of a list: amounts must be positive and denominations
    /// non-empty and distinct.
    pub fn try_from_vec(list: Vec<Coin>) -> (r: Result<Coins, CoinError>)
        ensures
            match coins_list_value(list@) {
                Some(m) => r matches Ok(c) && c.wf() && c@ == m,
                None => r is Err,
            },
    {
        let mut coins = Coins::new();
        let mut i: usize = 0;
        while i < list.len()
            invariant
                i <= list@.len(),
                coins.wf(),
                coins_list_value(list@.take(i as int)) == Some(coins@),
            decreases list@.len() - i,
        {
            proof {
                assert(list@.take(i + 1).drop_last() =~= list@.take(i as int));
            }
            let c = &list[i];
            if c.amount.0 == 0 {
                proof { lemma_list_none_extends(list@, i + 1); }
                return Err(CoinError::ZeroAmount);
            }
            if c.denom.as_str().unicode_len() == 0 {
                proof { lemma_list_none_extends(list@, i + 1); }
                return Err(CoinError::InvalidDenom);
            }
            let d = c.denom.clone();
            if !coins.try_insert(d, c.amount) {
                proof { lemma_list_none_extends(list@, i + 1); }
                return Err(CoinError::DuplicateDenom);
            }
            i = i + 1;
        }
        proof {
            assert(list@.take(list@.len() as int) =~= list@);
        }
        Ok(coins)
    }

    /// `[]` where empty, else `denom:amount` for each coin in order,
    /// separated by commas.
    pub fn to_string(&self) -> (r: String)
        ensures
            self.entries().len() == 0 ==> r@ == seq!['[', ']'],
            self.entries().len() > 0 ==> r@ == coins_chars(self.entries()),
    {
        let mut out: Vec<char> = Vec::new();
        if self.coins.len() == 0 {
            out.push('[');
            out.push(']');
            assert(out@ =~= seq!['[', ']']);
            return string_from_chars(&out);
        }
        let mut i: usize = 0;
        while i < self.coins.len()
            invariant
                i <= self.coins@.len(),
                self.coins@.len() > 0,
                i > 0 ==> out@ == coins_chars(self.coins@.take(i as int)),
                i == 0 ==> out@.len() == 0,
            decreases self.coins@.len() - i,
        {
            if i > 0 {
                out.push(',');
            }
            let mut part = chars_of(self.coins[i].denom.as_str());
            part.push(':');
            push_digits(self.coins[i].amount.0, &mut part);
            let ghost before = out@;
            out.append(&mut part);
            proof {
                let t = self.coins@.take(i + 1);
                assert(t.drop_last() =~= self.coins@.take(i as int));
                assert(t.last() == self.coins@[i as int]);
                if i == 0 {
                    assert(t.len() == 1);
                    assert(out@ =~= coin_chars(t[0]));
                } else {
                    assert(out@ =~= coins_chars(t.drop_last()) + seq![','] + coin_chars(t.last()));
                }
            }
            i = i + 1;
        }
        proof {
            assert(self.coins@.take(self.coins@.len() as int) =~= self.coins@);
        }
        string_from_chars(&out)
    }

    /// Fails unless no coin is held.
    pub fn assert_empty(&self) -> (r: Result<(), CoinError>)
        ensures
            self.entries().len() == 0 ==> r is Ok,
            self.entries().len() > 0 ==> r == Err::<(), CoinError>(
                CoinError::InvalidPayment { expect: 0, actual: self.entries().len() as usize },
            ),
    {
        if self.coins.len() != 0 {
            return Err(CoinError::InvalidPayment { expect: 0, actual: self.coins.len() });
        }
        Ok(())
    }

    /// The single coin held; an error where there is none or more than one.
    pub fn one_coin(&self) -> (r: Result<CoinRef<'_>, CoinError>)
        ensures
            self.entries().len() == 1 ==> (r matches Ok(c) && *c.denom == self.entries()[0].denom && *c.amount == self.entries()[0].amount),
            self.entries().len() == 0 ==> r == Err::<CoinRef<'_>, CoinError>(CoinError::InvalidPayment { expect: 1, actual: 0 }),
            self.entries().len() > 1 ==> r == Err::<CoinRef<'_>, CoinError>(
                CoinError::InvalidPayment { expect: 1, actual: self.entries().len() as usize },
            ),
    {
        if self.coins.len() == 0 {
            return Err(CoinError::InvalidPayment { expect: 1, actual: 0 });
        }
        if self.coins.len() > 1 {
            return Err(CoinError::InvalidPayment { expect: 1, actual: self.coins.len() });
        }
        Ok(self.coins[0].as_ref())
    }
}

} // verus!
