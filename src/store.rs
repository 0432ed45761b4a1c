use vstd::prelude::*;

verus! {

/// The abstract contents of a key-value store: each present key and its value.
pub type StoreMap = Map<Seq<u8>, Seq<u8>>;

/// A pending write: put a value, or delete the key.
#[derive(Debug, Clone)]
pub enum Op {
    Put(Vec<u8>),
    Delete,
}

impl Op {
    /// `Some(value)` for a put, `None` for a delete.
    pub open spec fn spec_value(&self) -> Option<Seq<u8>> {
        match self {
            Op::Put(v) => Some(v@),
            Op::Delete => None,
        }
    }
}

/// The abstract form of a sequence of writes.
pub open spec fn ops_view(ops: Seq<(Vec<u8>, Op)>) -> Seq<(Seq<u8>, Option<Seq<u8>>)> {
    ops.map_values(|e: (Vec<u8>, Op)| (e.0@, e.1.spec_value()))
}

/// The store obtained by performing `ops` on `base`, in order.
pub open spec fn apply_ops(base: StoreMap, ops: Seq<(Seq<u8>, Option<Seq<u8>>)>) -> StoreMap
    decreases ops.len(),
{
    if ops.len() == 0 {
        base
    } else {
        let m = apply_ops(base, ops.drop_last());
        match ops.last().1 {
            Some(v) => m.insert(ops.last().0, v),
            None => m.remove(ops.last().0),
        }
    }
}

/// Performing `a` then `b` is performing their concatenation.
pub proof fn lemma_apply_concat(base: StoreMap, a: Seq<(Seq<u8>, Option<Seq<u8>>)>, b: Seq<(Seq<u8>, Option<Seq<u8>>)>)
    ensures
        apply_ops(base, a + b) == apply_ops(apply_ops(base, a), b),
    decreases b.len(),
{
    if b.len() == 0 {
        assert(a + b =~= a);
    } else {
        assert((a + b).drop_last() =~= a + b.drop_last());
        lemma_apply_concat(base, a, b.drop_last());
    }
}

/// Writes to other keys leave a key as it was.
pub proof fn lemma_apply_other_keys(base: StoreMap, ops: Seq<(Seq<u8>, Option<Seq<u8>>)>, k: Seq<u8>)
    requires
        forall|j: int| 0 <= j < ops.len() ==> ops[j].0 != k,
    ensures
        apply_ops(base, ops).contains_key(k) == base.contains_key(k),
        base.contains_key(k) ==> apply_ops(base, ops)[k] == base[k],
    decreases ops.len(),
{
    if ops.len() > 0 {
        lemma_apply_other_keys(base, ops.drop_last(), k);
    }
}

/// A key reads as the last write to it, or as in `base` where none wrote it.
proof fn lemma_apply_last_write(base: StoreMap, ops: Seq<(Seq<u8>, Option<Seq<u8>>)>, i: int)
    requires
        0 <= i < ops.len(),
        forall|j: int| i < j < ops.len() ==> ops[j].0 != ops[i].0,
    ensures
        match ops[i].1 {
            Some(v) => apply_ops(base, ops).contains_key(ops[i].0) && apply_ops(base, ops)[ops[i].0] == v,
            None => !apply_ops(base, ops).contains_key(ops[i].0),
        },
{
    let k = ops[i].0;
    let pre = ops.subrange(0, i + 1);
    let post = ops.subrange(i + 1, ops.len() as int);
    assert(ops =~= pre + post);
    lemma_apply_concat(base, pre, post);
    assert(pre.drop_last() =~= ops.subrange(0, i));
    lemma_apply_other_keys(apply_ops(base, pre), post, k);
}

/// Lexicographic order of byte strings.
pub open spec fn bytes_lt(a: Seq<u8>, b: Seq<u8>) -> bool
    decreases a.len(),
{
    if a.len() == 0 {
        b.len() > 0
    } else if b.len() == 0 {
        false
    } else if a[0] != b[0] {
        a[0] < b[0]
    } else {
        bytes_lt(a.drop_first(), b.drop_first())
    }
}

proof fn lemma_bytes_lt_suffix(a: Seq<u8>, b: Seq<u8>, i: int)
    requires
        0 <= i <= a.len(),
        i <= b.len(),
        a.subrange(0, i) == b.subrange(0, i),
    ensures
        bytes_lt(a, b) == bytes_lt(a.subrange(i, a.len() as int), b.subrange(i, b.len() as int)),
    decreases i,
{
    if i == 0 {
        assert(a.subrange(0, a.len() as int) =~= a);
        assert(b.subrange(0, b.len() as int) =~= b);
    } else {
        assert(a[0] == a.subrange(0, i)[0]);
        assert(b[0] == b.subrange(0, i)[0]);
        assert(a.drop_first().subrange(0, i - 1) =~= a.subrange(0, i).drop_first());
        assert(b.drop_first().subrange(0, i - 1) =~= b.subrange(0, i).drop_first());
        lemma_bytes_lt_suffix(a.drop_first(), b.drop_first(), i - 1);
        assert(a.drop_first().subrange(i - 1, a.len() - 1) =~= a.subrange(i, a.len() as int));
        assert(b.drop_first().subrange(i - 1, b.len() - 1) =~= b.subrange(i, b.len() as int));
    }
}

/// Whether `a` comes before `b` in lexicographic byte order.
pub fn addr_less(a: &Vec<u8>, b: &Vec<u8>) -> (r: bool)
    ensures
        r == bytes_lt(a@, b@),
{
    let mut i: usize = 0;
    while i < a.len() && i < b.len() && a[i] == b[i]
        invariant
            i <= a@.len(),
            i <= b@.len(),
            a@.subrange(0, i as int) == b@.subrange(0, i as int),
        decreases a@.len() - i,
    {
        assert(a@.subrange(0, i + 1) =~= a@.subrange(0, i as int).push(a@[i as int]));
        assert(b@.subrange(0, i + 1) =~= b@.subrange(0, i as int).push(b@[i as int]));
        i = i + 1;
    }
    proof {
        lemma_bytes_lt_suffix(a@, b@, i as int);
    }
    if i == b.len() {
        false
    } else if i == a.len() {
        true
    } else {
        a[i] < b[i]
    }
}

pub proof fn lemma_bytes_lt_irreflexive(a: Seq<u8>)
    ensures
        !bytes_lt(a, a),
    decreases a.len(),
{
    if a.len() > 0 {
        lemma_bytes_lt_irreflexive(a.drop_first());
    }
}

pub proof fn lemma_bytes_lt_transitive(a: Seq<u8>, b: Seq<u8>, c: Seq<u8>)
    requires
        bytes_lt(a, b),
        bytes_lt(b, c),
    ensures
        bytes_lt(a, c),
    decreases a.len(),
{
    if a.len() > 0 && b.len() > 0 && c.len() > 0 && a[0] == b[0] && b[0] == c[0] {
        lemma_bytes_lt_transitive(a.drop_first(), b.drop_first(), c.drop_first());
    }
}

pub proof fn lemma_bytes_lt_total(a: Seq<u8>, b: Seq<u8>)
    ensures
        a != b ==> (bytes_lt(a, b) || bytes_lt(b, a)),
        !(bytes_lt(a, b) && bytes_lt(b, a)),
    decreases a.len(),
{
    if a.len() > 0 && b.len() > 0 {
        lemma_bytes_lt_total(a.drop_first(), b.drop_first());
        if a[0] == b[0] && a != b {
            assert(a =~= seq![a[0]] + a.drop_first());
            assert(b =~= seq![b[0]] + b.drop_first());
        }
    } else if a.len() == 0 && b.len() == 0 {
        assert(a =~= b);
    }
}

/// Whether some key of `s` is `q`.
pub open spec fn has_key(s: Seq<Vec<u8>>, q: Seq<u8>) -> bool {
    exists|i: int| 0 <= i < s.len() && (#[trigger] s[i])@ == q
}

proof fn lemma_has_key_push(s: Seq<Vec<u8>>, x: Vec<u8>, q: Seq<u8>)
    ensures
        has_key(s.push(x), q) == (has_key(s, q) || x@ == q),
{
    if has_key(s, q) {
        let i = choose|i: int| 0 <= i < s.len() && (#[trigger] s[i])@ == q;
        assert(s.push(x)[i] == s[i]);
    }
    if x@ == q {
        assert(s.push(x)[s.len() as int] == x);
    }
    if has_key(s.push(x), q) {
        let i = choose|i: int| 0 <= i < s.len() + 1 && (#[trigger] s.push(x)[i])@ == q;
        if i < s.len() {
            assert(s[i] == s.push(x)[i]);
        }
    }
}

/// What a store, a buffer or a layer of them reads as.
pub trait Storage {
    /// The well-formedness that reads rely on.
    spec fn inv(&self) -> bool;

    spec fn view_map(&self) -> StoreMap;

    fn read(&self, key: &Vec<u8>) -> (r: Option<Vec<u8>>)
        requires
            self.inv(),
        ensures
            r is Some <==> self.view_map().contains_key(key@),
            r matches Some(v) ==> v@ == self.view_map()[key@];

    /// The keys present, each at least once, in no particular order.
    fn keys(&self) -> (r: Vec<Vec<u8>>)
        requires
            self.inv(),
        ensures
            forall|k: Seq<u8>| #[trigger] self.view_map().contains_key(k) <==> has_key(r@, k);
}

/// Whether two byte strings are equal.
pub fn bytes_eq(a: &Vec<u8>, b: &Vec<u8>) -> (r: bool)
    ensures
        r == (a@ == b@),
{
    if a.len() != b.len() {
        return false;
    }
    let mut i: usize = 0;
    while i < a.len()
        invariant
            a@.len() == b@.len(),
            0 <= i <= a@.len(),
            a@.subrange(0, i as int) == b@.subrange(0, i as int),
        decreases a@.len() - i,
    {
        if a[i] != b[i] {
            assert(a@[i as int] != b@[i as int]);
            return false;
        }
        assert(a@.subrange(0, i + 1) =~= a@.subrange(0, i as int).push(a@[i as int]));
        assert(b@.subrange(0, i + 1) =~= b@.subrange(0, i as int).push(b@[i as int]));
        i = i + 1;
    }
    assert(a@ =~= a@.subrange(0, a@.len() as int));
    assert(b@ =~= b@.subrange(0, b@.len() as int));
    true
}

/// Finds the last write to `key` among `ops`.
fn find_last_write(ops: &Vec<(Vec<u8>, Op)>, key: &Vec<u8>) -> (r: Option<usize>)
    ensures
        match r {
            Some(i) => i < ops@.len() && ops@[i as int].0@ == key@ && forall|j: int|
                i < j < ops@.len() ==> ops@[j].0@ != key@,
            None => forall|j: int| 0 <= j < ops@.len() ==> ops@[j].0@ != key@,
        },
{
    let mut i: usize = ops.len();
    while i > 0
        invariant
            i <= ops@.len(),
            forall|j: int| i <= j < ops@.len() ==> ops@[j].0@ != key@,
        decreases i,
    {
        i = i - 1;
        if bytes_eq(&ops[i].0, key) {
            return Some(i);
        }
    }
    None
}

/// Reads `key` from `base` overlaid with `ops`.
fn read_through<S: Storage>(base: &S, ops: &Vec<(Vec<u8>, Op)>, key: &Vec<u8>) -> (r: Option<Vec<u8>>)
    requires
        base.inv(),
    ensures
        r is Some <==> apply_ops(base.view_map(), ops_view(ops@)).contains_key(key@),
        r matches Some(v) ==> v@ == apply_ops(base.view_map(), ops_view(ops@))[key@],
{
    let ghost ov = ops_view(ops@);
    match find_last_write(ops, key) {
        Some(i) => {
            proof {
                assert forall|j: int| i < j < ov.len() implies ov[j].0 != ov[i as int].0 by {
                    assert(ov[j].0 == ops@[j].0@);
                }
                lemma_apply_last_write(base.view_map(), ov, i as int);
            }
            match &ops[i].1 {
                Op::Put(v) => Some(v.clone()),
                Op::Delete => None,
            }
        },
        None => {
            proof {
                assert forall|j: int| 0 <= j < ov.len() implies ov[j].0 != key@ by {
                    assert(ov[j].0 == ops@[j].0@);
                }
                lemma_apply_other_keys(base.view_map(), ov, key@);
            }
            base.read(key)
        },
    }
}

/// A batch of writes, in the order they were made; a later write to a key
/// shadows an earlier one.
#[derive(Debug, Clone)]
pub struct Batch {
    pub ops: Vec<(Vec<u8>, Op)>,
}

impl Batch {
    pub open spec fn view(&self) -> Seq<(Seq<u8>, Option<Seq<u8>>)> {
        ops_view(self.ops@)
    }

    pub fn new() -> (r: Batch)
        ensures
            r.view().len() == 0,
    {
        Batch { ops: Vec::new() }
    }

    pub fn len(&self) -> (r: usize)
        ensures
            r == self.view().len(),
    {
        self.ops.len()
    }

    pub fn is_empty(&self) -> (r: bool)
        ensures
            r == (self.view().len() == 0),
    {
        self.ops.len() == 0
    }

    pub fn put(&mut self, key: Vec<u8>, value: Vec<u8>)
        ensures
            final(self).view() == old(self).view().push((key@, Some(value@))),
    {
        self.ops.push((key, Op::Put(value)));
        proof {
            assert(final(self).view() =~= old(self).view().push((key@, Some(value@))));
        }
    }

    pub fn delete(&mut self, key: Vec<u8>)
        ensures
            final(self).view() == old(self).view().push((key@, None)),
    {
        self.ops.push((key, Op::Delete));
        proof {
            assert(final(self).view() =~= old(self).view().push((key@, None)));
        }
    }

    /// Appends the writes of `other` after those of `self`.
    pub fn extend(&mut self, other: Batch)
        ensures
            final(self).view() == old(self).view() + other.view(),
    {
        let mut other = other;
        let ghost before = self.ops@;
        let ghost theirs = other.ops@;
        self.ops.append(&mut other.ops);
        proof {
            assert(self.ops@ == before + theirs);
            assert(ops_view(before + theirs) =~= ops_view(before) + ops_view(theirs));
        }
    }
}

/// An in-memory key-value store. Keys are distinct.
#[derive(Debug, Clone)]
pub struct MemStore {
    pub entries: Vec<(Vec<u8>, Vec<u8>)>,
}

impl MemStore {
    pub open spec fn wf(&self) -> bool {
        forall|i: int, j: int|
            0 <= i < j < self.entries@.len() ==> self.entries@[i].0@ != self.entries@[j].0@
    }

    pub open spec fn view(&self) -> StoreMap {
        Map::new(
            |k: Seq<u8>| exists|i: int| 0 <= i < self.entries@.len() && self.entries@[i].0@ == k,
            |k: Seq<u8>|
                self.entries@[choose|i: int| 0 <= i < self.entries@.len() && self.entries@[i].0@ == k].1@,
        )
    }

    pub fn new() -> (r: MemStore)
        ensures
            r.wf(),
            r.view() == Map::<Seq<u8>, Seq<u8>>::empty(),
    {
        let r = MemStore { entries: Vec::new() };
        assert(r.view() =~= Map::<Seq<u8>, Seq<u8>>::empty());
        r
    }

    fn find(&self, key: &Vec<u8>) -> (r: Option<usize>)
        ensures
            match r {
                Some(i) => i < self.entries@.len() && self.entries@[i as int].0@ == key@,
                None => forall|j: int| 0 <= j < self.entries@.len() ==> self.entries@[j].0@ != key@,
            },
    {
        let mut i: usize = 0;
        while i < self.entries.len()
            invariant
                i <= self.entries@.len(),
                forall|j: int| 0 <= j < i ==> self.entries@[j].0@ != key@,
            decreases self.entries@.len() - i,
        {
            if bytes_eq(&self.entries[i].0, key) {
                return Some(i);
            }
            i = i + 1;
        }
        None
    }

    /// A store holds some key exactly when it has entries.
    pub proof fn lemma_nonempty(&self)
        requires
            self.wf(),
        ensures
            self.entries@.len() > 0 <==> exists|k: Seq<u8>| #[trigger] self.view().contains_key(k),
    {
        if self.entries@.len() > 0 {
            assert(self.view().contains_key(self.entries@[0].0@));
        }
    }

    /// A copy of the store.
    pub fn duplicate(&self) -> (r: MemStore)
        requires
            self.wf(),
        ensures
            r.wf(),
            r.view() == self.view(),
            r.entries@.len() == self.entries@.len(),
    {
        let mut entries: Vec<(Vec<u8>, Vec<u8>)> = Vec::new();
        let mut i: usize = 0;
        while i < self.entries.len()
            invariant
                i <= self.entries@.len(),
                entries@.len() == i,
                forall|j: int| 0 <= j < i ==> (#[trigger] entries@[j]).0@ == self.entries@[j].0@
                    && entries@[j].1@ == self.entries@[j].1@,
            decreases self.entries@.len() - i,
        {
            let e = (self.entries[i].0.clone(), self.entries[i].1.clone());
            entries.push(e);
            i = i + 1;
        }
        let r = MemStore { entries };
        proof {
            assert forall|q: Seq<u8>| #[trigger] r.view().contains_key(q) == self.view().contains_key(q) by {
                if r.view().contains_key(q) {
                    let j = choose|j: int| 0 <= j < r.entries@.len() && r.entries@[j].0@ == q;
                    assert(self.entries@[j].0@ == q);
                }
                if self.view().contains_key(q) {
                    let j = choose|j: int| 0 <= j < self.entries@.len() && self.entries@[j].0@ == q;
                    assert(r.entries@[j].0@ == q);
                }
            }
            assert forall|q: Seq<u8>| #[trigger] r.view().contains_key(q) implies r.view()[q] == self.view()[q] by {
                let j = choose|j: int| 0 <= j < r.entries@.len() && r.entries@[j].0@ == q;
                let k = choose|k: int| 0 <= k < self.entries@.len() && self.entries@[k].0@ == q;
                assert(self.entries@[j].0@ == q);
                assert(j == k);
            }
            assert(r.view() =~= self.view());
        }
        r
    }

    pub fn len(&self) -> (r: usize)
        ensures
            r == self.entries@.len(),
    {
        self.entries.len()
    }

    pub fn get(&self, key: &Vec<u8>) -> (r: Option<Vec<u8>>)
        requires
            self.wf(),
        ensures
            r is Some <==> self.view().contains_key(key@),
            r matches Some(v) ==> v@ == self.view()[key@],
    {
        match self.find(key) {
            Some(i) => {
                let ghost c = choose|j: int| 0 <= j < self.entries@.len() && self.entries@[j].0@ == key@;
                assert(c == i);
                Some(self.entries[i].1.clone())
            },
            None => None,
        }
    }

    pub fn insert(&mut self, key: Vec<u8>, value: Vec<u8>)
        requires
            old(self).wf(),
        ensures
            final(self).wf(),
            final(self).view() == old(self).view().insert(key@, value@),
    {
        let ghost old_view = self.view();
        match self.find(&key) {
            Some(i) => {
                let ghost k = key@;
                let ghost v = value@;
                self.entries.set(i, (key, value));
                proof {
                    assert forall|q: Seq<u8>| #[trigger] self.view().contains_key(q)
                        == old_view.insert(k, v).contains_key(q) by {
                        if q == k {
                            assert(self.entries@[i as int].0@ == q);
                        } else if old_view.contains_key(q) {
                            let j = choose|j: int| 0 <= j < old(self).entries@.len() && old(self).entries@[j].0@ == q;
                            assert(self.entries@[j].0@ == q);
                        }
                        if self.view().contains_key(q) && q != k {
                            let j = choose|j: int| 0 <= j < self.entries@.len() && self.entries@[j].0@ == q;
                            assert(old(self).entries@[j].0@ == q);
                        }
                    }
                    assert forall|q: Seq<u8>| #[trigger] self.view().contains_key(q) implies
                        self.view()[q] == old_view.insert(k, v)[q] by {
                        let c = choose|j: int| 0 <= j < self.entries@.len() && self.entries@[j].0@ == q;
                        if q == k {
                            assert(c == i);
                        } else {
                            let c0 = choose|j: int| 0 <= j < old(self).entries@.len() && old(self).entries@[j].0@ == q;
                            assert(c0 == c);
                        }
                    }
                    assert(self.view() =~= old_view.insert(k, v));
                }
            },
            None => {
                let ghost k = key@;
                let ghost v = value@;
                let ghost n = self.entries@.len();
                self.entries.push((key, value));
                proof {
                    assert forall|q: Seq<u8>| #[trigger] self.view().contains_key(q)
                        == old_view.insert(k, v).contains_key(q) by {
                        if q == k {
                            assert(self.entries@[n as int].0@ == q);
                        } else if old_view.contains_key(q) {
                            let j = choose|j: int| 0 <= j < old(self).entries@.len() && old(self).entries@[j].0@ == q;
                            assert(self.entries@[j].0@ == q);
                        }
                    }
                    assert forall|q: Seq<u8>| #[trigger] self.view().contains_key(q) implies
                        self.view()[q] == old_view.insert(k, v)[q] by {
                        let c = choose|j: int| 0 <= j < self.entries@.len() && self.entries@[j].0@ == q;
                        if q == k {
                            assert(c == n);
                        } else {
                            let c0 = choose|j: int| 0 <= j < old(self).entries@.len() && old(self).entries@[j].0@ == q;
                            assert(c0 == c);
                        }
                    }
                    assert(self.view() =~= old_view.insert(k, v));
                }
            },
        }
    }

    pub fn remove(&mut self, key: &Vec<u8>)
        requires
            old(self).wf(),
        ensures
            final(self).wf(),
            final(self).view() == old(self).view().remove(key@),
    {
        let ghost old_view = self.view();
        match self.find(key) {
            Some(i) => {
                let ghost old_entries = self.entries@;
                self.entries.remove(i);
                proof {
                    let k = key@;
                    assert(self.entries@ == old_entries.remove(i as int));
                    assert forall|q: Seq<u8>| #[trigger] self.view().contains_key(q)
                        == old_view.remove(k).contains_key(q) by {
                        if q != k && old_view.contains_key(q) {
                            let j = choose|j: int| 0 <= j < old_entries.len() && old_entries[j].0@ == q;
                            if j < i {
                                assert(self.entries@[j].0@ == q);
                            } else {
                                assert(self.entries@[j - 1].0@ == q);
                            }
                        }
                        if self.view().contains_key(q) {
                            let j = choose|j: int| 0 <= j < self.entries@.len() && self.entries@[j].0@ == q;
                            if j < i {
                                assert(old_entries[j].0@ == q);
                            } else {
                                assert(old_entries[j + 1].0@ == q);
                            }
                        }
                    }
                    assert forall|q: Seq<u8>| #[trigger] self.view().contains_key(q) implies
                        self.view()[q] == old_view.remove(k)[q] by {
                        let c = choose|j: int| 0 <= j < self.entries@.len() && self.entries@[j].0@ == q;
                        let c0 = choose|j: int| 0 <= j < old_entries.len() && old_entries[j].0@ == q;
                        if c < i {
                            assert(old_entries[c].0@ == q);
                            assert(c0 == c);
                        } else {
                            assert(old_entries[c + 1].0@ == q);
                            assert(c0 == c + 1);
                        }
                    }
                    assert(self.view() =~= old_view.remove(k));
                }
            },
            None => {
                assert(self.view() =~= old_view.remove(key@));
            },
        }
    }

    /// Performs the writes of `batch`, in order.
    pub fn flush(&mut self, batch: Batch)
        requires
            old(self).wf(),
        ensures
            final(self).wf(),
            final(self).view() == apply_ops(old(self).view(), batch.view()),
    {
        let ghost base = self.view();
        let ghost bv = batch.view();
        let mut i: usize = 0;
        let ops = batch.ops;
        while i < ops.len()
            invariant
                self.wf(),
                i <= ops@.len(),
                bv == ops_view(ops@),
                self.view() == apply_ops(base, bv.subrange(0, i as int)),
            decreases ops@.len() - i,
        {
            let key = ops[i].0.clone();
            match &ops[i].1 {
                Op::Put(v) => self.insert(key, v.clone()),
                Op::Delete => self.remove(&key),
            }
            proof {
                assert(bv.subrange(0, i + 1).drop_last() =~= bv.subrange(0, i as int));
            }
            i = i + 1;
        }
        assert(bv.subrange(0, bv.len() as int) =~= bv);
    }
}

impl Storage for MemStore {
    open spec fn inv(&self) -> bool {
        self.wf()
    }

    open spec fn view_map(&self) -> StoreMap {
        self.view()
    }

    fn read(&self, key: &Vec<u8>) -> (r: Option<Vec<u8>>) {
        self.get(key)
    }

    fn keys(&self) -> (r: Vec<Vec<u8>>) {
        let mut r: Vec<Vec<u8>> = Vec::new();
        let mut i: usize = 0;
        while i < self.entries.len()
            invariant
                i <= self.entries@.len(),
                r@.len() == i,
                forall|j: int| 0 <= j < i ==> (#[trigger] r@[j])@ == self.entries@[j].0@,
            decreases self.entries@.len() - i,
        {
            r.push(self.entries[i].0.clone());
            i = i + 1;
        }
        proof {
            assert forall|k: Seq<u8>| #[trigger] self.view().contains_key(k) <==> has_key(r@, k) by {
                if self.view().contains_key(k) {
                    let j = choose|j: int| 0 <= j < self.entries@.len() && self.entries@[j].0@ == k;
                    assert(r@[j]@ == k);
                }
                if has_key(r@, k) {
                    let j = choose|i: int| 0 <= i < r@.len() && (#[trigger] r@[i])@ == k;
                    assert(self.entries@[j].0@ == k);
                }
            }
        }
        r
    }
}

/// A copy-on-write overlay over a read-only base store.
///
/// Writes are recorded in `pending` and never reach `base`. Nested scopes
/// are marks into `pending`: committing a scope keeps its writes for the
/// enclosing one, discarding it drops them. Dropping the whole buffer drops
/// every pending write.
pub struct Buffer<'a, S: Storage> {
    pub base: &'a S,
    pub pending: Batch,
    pub marks: Vec<usize>,
}

impl<'a, S: Storage> Buffer<'a, S> {
    pub open spec fn wf(&self) -> bool {
        &&& self.base.inv()
        &&& forall|i: int| 0 <= i < self.marks@.len() ==> self.marks@[i] <= self.pending.view().len()
        &&& forall|i: int, j: int| 0 <= i <= j < self.marks@.len() ==> self.marks@[i] <= self.marks@[j]
    }

    /// What the buffer reads as: the base with the pending writes performed.
    pub open spec fn view(&self) -> StoreMap {
        apply_ops(self.base.view_map(), self.pending.view())
    }

    /// What the buffer read as when its innermost open scope began.
    pub open spec fn scope_start_view(&self) -> StoreMap {
        apply_ops(self.base.view_map(), self.pending.view().take(self.marks@.last() as int))
    }

    /// What the buffer read as when its second innermost open scope began.
    pub open spec fn scope_start_view_outer(&self) -> StoreMap {
        apply_ops(self.base.view_map(), self.pending.view().take(self.marks@[self.marks@.len() - 2] as int))
    }

    /// `self` is `earlier` with more writes after it, within the scopes of
    /// `earlier` and perhaps scopes opened since.
    pub open spec fn extends(&self, earlier: &Self) -> bool {
        let n = earlier.pending.view().len();
        let k = earlier.marks@.len();
        &&& self.base == earlier.base
        &&& n <= self.pending.view().len()
        &&& self.pending.view().take(n as int) == earlier.pending.view()
        &&& k <= self.marks@.len()
        &&& self.marks@.take(k as int) == earlier.marks@
        &&& forall|i: int| k <= i < self.marks@.len() ==> self.marks@[i] >= n
    }

    pub proof fn lemma_extends_refl(a: &Self)
        ensures
            a.extends(a),
    {
        assert(a.pending.view().take(a.pending.view().len() as int) =~= a.pending.view());
        assert(a.marks@.take(a.marks@.len() as int) =~= a.marks@);
    }

    pub proof fn lemma_extends_trans(a: &Self, b: &Self, c: &Self)
        requires
            b.extends(a),
            c.extends(b),
        ensures
            c.extends(a),
    {
        let n = a.pending.view().len() as int;
        assert(c.pending.view().take(n) =~= c.pending.view().take(b.pending.view().len() as int).take(n));
        let k = a.marks@.len() as int;
        assert(c.marks@.take(k) =~= c.marks@.take(b.marks@.len() as int).take(k));
        assert forall|i: int| k <= i < c.marks@.len() implies c.marks@[i] >= n by {
            if i < b.marks@.len() {
                assert(c.marks@[i] == c.marks@.take(b.marks@.len() as int)[i]);
            }
        }
    }

    /// Writes after the scopes began leave what the scopes began with.
    pub proof fn lemma_extends_views(a: &Self, b: &Self)
        requires
            a.wf(),
            b.extends(a),
            b.marks@.len() == a.marks@.len(),
        ensures
            b.marks@ == a.marks@,
            a.marks@.len() > 0 ==> b.scope_start_view() == a.scope_start_view(),
            a.marks@.len() > 1 ==> b.scope_start_view_outer() == a.scope_start_view_outer(),
    {
        assert(b.marks@ =~= b.marks@.take(a.marks@.len() as int));
        let n = a.pending.view().len() as int;
        if a.marks@.len() > 0 {
            let m = a.marks@.last() as int;
            assert(b.pending.view().take(m) =~= b.pending.view().take(n).take(m));
        }
        if a.marks@.len() > 1 {
            let m = a.marks@[a.marks@.len() - 2] as int;
            assert(b.pending.view().take(m) =~= b.pending.view().take(n).take(m));
        }
    }

    /// Closing a scope opened since `a`, keeping or dropping its writes,
    /// still extends `a`.
    pub proof fn lemma_extends_close(a: &Self, mid: &Self, end: &Self)
        requires
            mid.extends(a),
            mid.marks@.len() > a.marks@.len(),
            end.base == mid.base,
            end.marks@ == mid.marks@.drop_last(),
            end.pending.view() == mid.pending.view() || end.pending.view() == mid.pending.view().take(mid.marks@.last() as int),
            mid.marks@.last() <= mid.pending.view().len(),
        ensures
            end.extends(a),
    {
        let n = a.pending.view().len() as int;
        let k = a.marks@.len() as int;
        assert(mid.marks@[mid.marks@.len() - 1] >= n);
        if end.pending.view() != mid.pending.view() {
            let m = mid.marks@.last() as int;
            assert(end.pending.view().take(n) =~= mid.pending.view().take(n));
        }
        assert(end.marks@.take(k) =~= mid.marks@.take(k));
        assert forall|i: int| k <= i < end.marks@.len() implies end.marks@[i] >= n by {
            assert(end.marks@[i] == mid.marks@[i]);
        }
    }

    pub fn new(base: &'a S) -> (r: Buffer<'a, S>)
        requires
            base.inv(),
        ensures
            r.wf(),
            r.base == base,
            r.pending.view().len() == 0,
            r.marks@.len() == 0,
            r.view() == base.view_map(),
    {
        Buffer { base, pending: Batch::new(), marks: Vec::new() }
    }

    pub fn get(&self, key: &Vec<u8>) -> (r: Option<Vec<u8>>)
        requires
            self.wf(),
        ensures
            r is Some <==> self.view().contains_key(key@),
            r matches Some(v) ==> v@ == self.view()[key@],
    {
        read_through(self.base, &self.pending.ops, key)
    }

    pub fn write(&mut self, key: Vec<u8>, value: Vec<u8>)
        requires
            old(self).wf(),
        ensures
            final(self).wf(),
            final(self).base == old(self).base,
            final(self).marks == old(self).marks,
            final(self).pending.view() == old(self).pending.view().push((key@, Some(value@))),
            final(self).view() == old(self).view().insert(key@, value@),
            old(self).marks@.len() > 0 ==> final(self).scope_start_view() == old(self).scope_start_view(),
            final(self).extends(&*old(self)),
    {
        let ghost k = key@;
        let ghost v = value@;
        self.pending.put(key, value);
        proof {
            assert(self.pending.view().drop_last() == old(self).pending.view());
            assert(self.pending.view().take(old(self).pending.view().len() as int) =~= old(self).pending.view());
            assert(self.marks@.take(self.marks@.len() as int) =~= self.marks@);
            if self.marks@.len() > 0 {
                let m = self.marks@.last() as int;
                assert(self.pending.view().take(m) =~= old(self).pending.view().take(m));
            }
        }
    }

    pub fn remove(&mut self, key: Vec<u8>)
        requires
            old(self).wf(),
        ensures
            final(self).wf(),
            final(self).base == old(self).base,
            final(self).marks == old(self).marks,
            final(self).pending.view() == old(self).pending.view().push((key@, None)),
            final(self).view() == old(self).view().remove(key@),
            old(self).marks@.len() > 0 ==> final(self).scope_start_view() == old(self).scope_start_view(),
            final(self).extends(&*old(self)),
    {
        let ghost k = key@;
        self.pending.delete(key);
        proof {
            assert(self.pending.view().drop_last() == old(self).pending.view());
            assert(self.pending.view().take(old(self).pending.view().len() as int) =~= old(self).pending.view());
            assert(self.marks@.take(self.marks@.len() as int) =~= self.marks@);
            if self.marks@.len() > 0 {
                let m = self.marks@.last() as int;
                assert(self.pending.view().take(m) =~= old(self).pending.view().take(m));
            }
        }
    }

    /// Performs the writes of `batch`, in order, on top of the buffer.
    pub fn apply(&mut self, batch: Batch)
        requires
            old(self).wf(),
        ensures
            final(self).wf(),
            final(self).base == old(self).base,
            final(self).marks == old(self).marks,
            final(self).pending.view() == old(self).pending.view() + batch.view(),
            final(self).view() == apply_ops(old(self).view(), batch.view()),
            old(self).marks@.len() > 0 ==> final(self).scope_start_view() == old(self).scope_start_view(),
            final(self).extends(&*old(self)),
    {
        let ghost bv = batch.view();
        self.pending.extend(batch);
        proof {
            lemma_apply_concat(self.base.view_map(), old(self).pending.view(), bv);
            assert(self.pending.view().take(old(self).pending.view().len() as int) =~= old(self).pending.view());
            assert(self.marks@.take(self.marks@.len() as int) =~= self.marks@);
            if self.marks@.len() > 0 {
                let m = self.marks@.last() as int;
                assert(self.pending.view().take(m) =~= old(self).pending.view().take(m));
            }
        }
    }

    /// Begins a nested scope whose writes can later be kept or dropped.
    pub fn open_scope(&mut self)
        requires
            old(self).wf(),
        ensures
            final(self).wf(),
            final(self).base == old(self).base,
            final(self).pending == old(self).pending,
            final(self).marks@ == old(self).marks@.push(old(self).pending.view().len() as usize),
            final(self).view() == old(self).view(),
            final(self).scope_start_view() == old(self).view(),
            old(self).marks@.len() > 0 ==> final(self).scope_start_view_outer() == old(self).scope_start_view(),
            final(self).extends(&*old(self)),
    {
        let n = self.pending.len();
        self.marks.push(n);
        proof {
            assert(self.pending.view().take(n as int) =~= old(self).pending.view());
            assert(self.marks@.take(old(self).marks@.len() as int) =~= old(self).marks@);
            assert(self.pending.view().take(n as int) =~= self.pending.view());
        }
    }

    /// Ends the innermost scope and keeps its writes.
    pub fn commit_scope(&mut self)
        requires
            old(self).wf(),
            old(self).marks@.len() > 0,
        ensures
            final(self).wf(),
            final(self).base == old(self).base,
            final(self).pending == old(self).pending,
            final(self).marks@ == old(self).marks@.drop_last(),
            final(self).view() == old(self).view(),
            old(self).marks@.len() > 1 ==> final(self).scope_start_view() == old(self).scope_start_view_outer(),
    {
        self.marks.pop();
    }

    /// Ends the innermost scope and drops its writes: the buffer reads again
    /// as it did when the scope began.
    pub fn discard_scope(&mut self)
        requires
            old(self).wf(),
            old(self).marks@.len() > 0,
        ensures
            final(self).wf(),
            final(self).base == old(self).base,
            final(self).marks@ == old(self).marks@.drop_last(),
            final(self).pending.view() == old(self).pending.view().take(old(self).marks@.last() as int),
            final(self).view() == old(self).scope_start_view(),
            old(self).marks@.len() > 1 ==> final(self).scope_start_view() == old(self).scope_start_view_outer(),
    {
        let m = self.marks.pop().unwrap();
        let ghost before = self.pending.ops@;
        self.pending.ops.truncate(m);
        proof {
            assert(self.pending.ops@ == before.take(m as int));
            assert(ops_view(before.take(m as int)) =~= ops_view(before).take(m as int));
            if old(self).marks@.len() > 1 {
                let m2 = old(self).marks@[old(self).marks@.len() - 2] as int;
                assert(self.marks@.last() == m2);
                assert(self.pending.view().take(m2) =~= old(self).pending.view().take(m2));
            }
        }
    }

    /// Splits the buffer into its base and the writes pending on it.
    pub fn disassemble(self) -> (r: (&'a S, Batch))
        ensures
            r.0 == self.base,
            r.1 == self.pending,
    {
        (self.base, self.pending)
    }
}

impl<'a, S: Storage> Storage for Buffer<'a, S> {
    open spec fn inv(&self) -> bool {
        self.wf()
    }

    open spec fn view_map(&self) -> StoreMap {
        self.view()
    }

    fn read(&self, key: &Vec<u8>) -> (r: Option<Vec<u8>>) {
        self.get(key)
    }

    fn keys(&self) -> (r: Vec<Vec<u8>>) {
        let candidates = self.base.keys();
        let mut r: Vec<Vec<u8>> = Vec::new();
        let mut i: usize = 0;
        while i < candidates.len()
            invariant
                self.wf(),
                i <= candidates@.len(),
                forall|k: Seq<u8>| #[trigger] self.base.view_map().contains_key(k) <==> has_key(candidates@, k),
                forall|j: int| 0 <= j < r@.len() ==> self.view().contains_key(#[trigger] r@[j]@),
                forall|j: int| 0 <= j < i && self.view().contains_key((#[trigger] candidates@[j])@)
                    ==> has_key(r@, candidates@[j]@),
            decreases candidates@.len() - i,
        {
            if self.get(&candidates[i]).is_some() {
                let ghost before = r@;
                let c = candidates[i].clone();
                r.push(c);
                proof {
                    assert forall|j: int| 0 <= j < i + 1 && self.view().contains_key((#[trigger] candidates@[j])@)
                        implies has_key(r@, candidates@[j]@) by {
                        lemma_has_key_push(before, c, candidates@[j]@);
                    }
                }
            }
            i = i + 1;
        }
        let mut j: usize = 0;
        while j < self.pending.ops.len()
            invariant
                self.wf(),
                j <= self.pending.ops@.len(),
                forall|k: Seq<u8>| #[trigger] self.base.view_map().contains_key(k) <==> has_key(candidates@, k),
                forall|x: int| 0 <= x < r@.len() ==> self.view().contains_key(#[trigger] r@[x]@),
                forall|x: int| 0 <= x < candidates@.len() && self.view().contains_key((#[trigger] candidates@[x])@)
                    ==> has_key(r@, candidates@[x]@),
                forall|x: int| 0 <= x < j && self.view().contains_key((#[trigger] self.pending.ops@[x]).0@)
                    ==> has_key(r@, self.pending.ops@[x].0@),
            decreases self.pending.ops@.len() - j,
        {
            if self.get(&self.pending.ops[j].0).is_some() {
                let ghost before = r@;
                let c = self.pending.ops[j].0.clone();
                r.push(c);
                proof {
                    assert forall|x: int| 0 <= x < candidates@.len() && self.view().contains_key((#[trigger] candidates@[x])@)
                        implies has_key(r@, candidates@[x]@) by {
                        lemma_has_key_push(before, c, candidates@[x]@);
                    }
                    assert forall|x: int| 0 <= x < j + 1 && self.view().contains_key((#[trigger] self.pending.ops@[x]).0@)
                        implies has_key(r@, self.pending.ops@[x].0@) by {
                        lemma_has_key_push(before, c, self.pending.ops@[x].0@);
                    }
                }
            }
            j = j + 1;
        }
        proof {
            assert forall|k: Seq<u8>| #[trigger] self.view().contains_key(k) <==> has_key(r@, k) by {
                if has_key(r@, k) {
                    let y = choose|y: int| 0 <= y < r@.len() && (#[trigger] r@[y])@ == k;
                }
                if self.view().contains_key(k) {
                    let ov = self.pending.view();
                    if exists|x: int| 0 <= x < ov.len() && ov[x].0 == k {
                        let x = choose|x: int| 0 <= x < ov.len() && ov[x].0 == k;
                        assert(self.pending.ops@[x].0@ == k);
                    } else {
                        lemma_apply_other_keys(self.base.view_map(), ov, k);
                        let x = choose|x: int| 0 <= x < candidates@.len() && (#[trigger] candidates@[x])@ == k;
                    }
                }
            }
        }
        r
    }
}

/// Whether `k` lies between the bounds: at or above `min`, below `max`.
pub open spec fn in_bounds(k: Seq<u8>, min: Option<Seq<u8>>, max: Option<Seq<u8>>) -> bool {
    &&& (min matches Some(lo) ==> !bytes_lt(k, lo))
    &&& (max matches Some(hi) ==> bytes_lt(k, hi))
}

pub open spec fn opt_view(b: Option<&Vec<u8>>) -> Option<Seq<u8>> {
    match b {
        Some(v) => Some(v@),
        None => None,
    }
}

fn within(k: &Vec<u8>, min: Option<&Vec<u8>>, max: Option<&Vec<u8>>) -> (r: bool)
    ensures
        r == in_bounds(k@, opt_view(min), opt_view(max)),
{
    let above = match min {
        Some(lo) => !addr_less(k, lo),
        None => true,
    };
    let below = match max {
        Some(hi) => addr_less(k, hi),
        None => true,
    };
    above && below
}

/// Keys in strictly ascending order.
pub open spec fn strictly_ascending(s: Seq<Vec<u8>>) -> bool {
    forall|i: int, j: int| 0 <= i < j < s.len() ==> bytes_lt((#[trigger] s[i])@, (#[trigger] s[j])@)
}

/// Adds `k` to the ordered keys unless it is there.
fn insert_sorted(keys: &mut Vec<Vec<u8>>, k: Vec<u8>)
    requires
        strictly_ascending(old(keys)@),
    ensures
        strictly_ascending(final(keys)@),
        forall|q: Seq<u8>| #[trigger] has_key(final(keys)@, q) <==> (q == k@ || has_key(old(keys)@, q)),
{
    let mut i: usize = 0;
    while i < keys.len() && addr_less(&keys[i], &k)
        invariant
            i <= keys@.len(),
            keys@ == old(keys)@,
            forall|j: int| 0 <= j < i ==> bytes_lt((#[trigger] keys@[j])@, k@),
        decreases keys@.len() - i,
    {
        i = i + 1;
    }
    if i < keys.len() && bytes_eq(&keys[i], &k) {
        proof {
            assert forall|q: Seq<u8>| #[trigger] has_key(keys@, q) <==> (q == k@ || has_key(old(keys)@, q)) by {
                if q == k@ {
                    assert(keys@[i as int]@ == q);
                }
            }
        }
        return;
    }
    let ghost before = keys@;
    let ghost kv = k@;
    proof {
        if i < keys@.len() {
            lemma_bytes_lt_total(keys@[i as int]@, k@);
        }
    }
    keys.insert(i, k);
    proof {
        let s = keys@;
        assert(s == before.insert(i as int, s[i as int]));
        assert forall|x: int, y: int| 0 <= x < y < s.len() implies bytes_lt((#[trigger] s[x])@, (#[trigger] s[y])@) by {
            if y < i {
                assert(s[x] == before[x] && s[y] == before[y]);
            } else if y == i {
                assert(s[x] == before[x]);
            } else if x < i {
                assert(s[x] == before[x] && s[y] == before[y - 1]);
                assert(bytes_lt(kv, before[i as int]@));
                if y - 1 > i {
                    assert(bytes_lt(before[i as int]@, before[y - 1]@));
                    lemma_bytes_lt_transitive(kv, before[i as int]@, before[y - 1]@);
                }
                lemma_bytes_lt_transitive(s[x]@, kv, s[y]@);
            } else if x == i {
                assert(s[y] == before[y - 1]);
                if y - 1 > i {
                    assert(bytes_lt(before[i as int]@, before[y - 1]@));
                    lemma_bytes_lt_transitive(kv, before[i as int]@, before[y - 1]@);
                }
            } else {
                assert(s[x] == before[x - 1] && s[y] == before[y - 1]);
            }
        }
        assert forall|q: Seq<u8>| #[trigger] has_key(s, q) <==> (q == kv || has_key(before, q)) by {
            if has_key(s, q) {
                let x = choose|x: int| 0 <= x < s.len() && (#[trigger] s[x])@ == q;
                if x < i {
                    assert(before[x] == s[x]);
                } else if x > i {
                    assert(before[x - 1] == s[x]);
                }
            }
            if q == kv {
                assert(s[i as int]@ == q);
            } else if has_key(before, q) {
                let x = choose|x: int| 0 <= x < before.len() && (#[trigger] before[x])@ == q;
                if x < i {
                    assert(s[x] == before[x]);
                } else {
                    assert(s[x + 1] == before[x]);
                }
            }
        }
    }
}

impl<'a, S: Storage> Buffer<'a, S> {
    /// The entries whose keys lie between `min` (inclusive) and `max`
    /// (exclusive), pending writes taking precedence over the base and
    /// deleted keys left out, in ascending order of key, or descending
    /// where `ascending` is false.
    pub fn scan(&self, min: Option<&Vec<u8>>, max: Option<&Vec<u8>>, ascending: bool) -> (r: Vec<(Vec<u8>, Vec<u8>)>)
        requires
            self.wf(),
        ensures
            forall|i: int| 0 <= i < r@.len() ==> {
                &&& self.view().contains_key((#[trigger] r@[i]).0@)
                &&& self.view()[r@[i].0@] == r@[i].1@
                &&& in_bounds(r@[i].0@, opt_view(min), opt_view(max))
            },
            forall|k: Seq<u8>| #[trigger] self.view().contains_key(k) && in_bounds(k, opt_view(min), opt_view(max))
                ==> exists|i: int| 0 <= i < r@.len() && r@[i].0@ == k,
            forall|i: int, j: int| 0 <= i < j < r@.len() ==> if ascending {
                bytes_lt((#[trigger] r@[i]).0@, (#[trigger] r@[j]).0@)
            } else {
                bytes_lt(r@[j].0@, r@[i].0@)
            },
    {
        let all = self.keys();
        proof {
            assert forall|k: Seq<u8>| #[trigger] self.view().contains_key(k) <==> has_key(all@, k) by {
                assert(self.view_map().contains_key(k) <==> has_key(all@, k));
            }
        }
        let mut sorted: Vec<Vec<u8>> = Vec::new();
        let mut i: usize = 0;
        while i < all.len()
            invariant
                self.wf(),
                i <= all@.len(),
                strictly_ascending(sorted@),
                forall|k: Seq<u8>| #[trigger] self.view().contains_key(k) <==> has_key(all@, k),
                forall|x: int| 0 <= x < sorted@.len() ==> self.view().contains_key((#[trigger] sorted@[x])@)
                    && in_bounds(sorted@[x]@, opt_view(min), opt_view(max)),
                forall|x: int| 0 <= x < i && in_bounds((#[trigger] all@[x])@, opt_view(min), opt_view(max))
                    ==> has_key(sorted@, all@[x]@),
            decreases all@.len() - i,
        {
            if within(&all[i], min, max) {
                let ghost before = sorted@;
                insert_sorted(&mut sorted, all[i].clone());
                proof {
                    assert forall|x: int| 0 <= x < sorted@.len() implies self.view().contains_key((#[trigger] sorted@[x])@)
                        && in_bounds(sorted@[x]@, opt_view(min), opt_view(max)) by {
                        let q = sorted@[x]@;
                        assert(has_key(sorted@, q));
                        if q != all@[i as int]@ {
                            let y = choose|y: int| 0 <= y < before.len() && (#[trigger] before[y])@ == q;
                        } else {
                            assert(all@[i as int]@ == q);
                        }
                    }
                    assert forall|x: int| 0 <= x < i + 1 && in_bounds((#[trigger] all@[x])@, opt_view(min), opt_view(max))
                        implies has_key(sorted@, all@[x]@) by {
                        let q = all@[x]@;
                        if x < i {
                            assert(has_key(before, q));
                        }
                    }
                }
            }
            i = i + 1;
        }
        let n = sorted.len();
        let mut r: Vec<(Vec<u8>, Vec<u8>)> = Vec::new();
        let mut j: usize = 0;
        while j < n
            invariant
                self.wf(),
                n == sorted@.len(),
                j <= n,
                r@.len() == j,
                strictly_ascending(sorted@),
                forall|x: int| 0 <= x < sorted@.len() ==> self.view().contains_key((#[trigger] sorted@[x])@)
                    && in_bounds(sorted@[x]@, opt_view(min), opt_view(max)),
                forall|x: int| 0 <= x < j ==> (#[trigger] r@[x]).0@ == sorted@[if ascending { x } else { n - 1 - x }]@
                    && self.view()[r@[x].0@] == r@[x].1@,
            decreases n - j,
        {
            let idx = if ascending { j } else { n - 1 - j };
            let k = sorted[idx].clone();
            let v = match self.get(&k) {
                Some(v) => v,
                None => Vec::new(),
            };
            r.push((k, v));
            j = j + 1;
        }
        proof {
            assert forall|i: int| 0 <= i < r@.len() implies {
                &&& self.view().contains_key((#[trigger] r@[i]).0@)
                &&& self.view()[r@[i].0@] == r@[i].1@
                &&& in_bounds(r@[i].0@, opt_view(min), opt_view(max))
            } by {
                let x = if ascending { i } else { n - 1 - i };
                assert(r@[i].0@ == sorted@[x]@);
            }
            assert forall|k: Seq<u8>| #[trigger] self.view().contains_key(k) && in_bounds(k, opt_view(min), opt_view(max))
                implies exists|i: int| 0 <= i < r@.len() && r@[i].0@ == k by {
                let x = choose|x: int| 0 <= x < all@.len() && (#[trigger] all@[x])@ == k;
                assert(has_key(sorted@, all@[x]@));
                let y = choose|y: int| 0 <= y < sorted@.len() && (#[trigger] sorted@[y])@ == k;
                let i = if ascending { y } else { n - 1 - y };
                assert(r@[i].0@ == sorted@[y]@);
            }
            assert forall|i: int, j: int| 0 <= i < j < r@.len() implies if ascending {
                bytes_lt((#[trigger] r@[i]).0@, (#[trigger] r@[j]).0@)
            } else {
                bytes_lt(r@[j].0@, r@[i].0@)
            } by {
                if ascending {
                    assert(r@[i].0@ == sorted@[i]@ && r@[j].0@ == sorted@[j]@);
                } else {
                    assert(r@[i].0@ == sorted@[n - 1 - i]@ && r@[j].0@ == sorted@[n - 1 - j]@);
                }
            }
        }
        r
    }
}

impl<'a, S: Storage> Buffer<'a, S> {
    /// Deletes every key between `min` (inclusive) and `max` (exclusive).
    pub fn remove_range(&mut self, min: Option<&Vec<u8>>, max: Option<&Vec<u8>>)
        requires
            old(self).wf(),
        ensures
            final(self).wf(),
            final(self).extends(&*old(self)),
            final(self).view() == Map::new(
                |k: Seq<u8>| old(self).view().contains_key(k) && !in_bounds(k, opt_view(min), opt_view(max)),
                |k: Seq<u8>| old(self).view()[k],
            ),
    {
        let doomed = self.scan(min, max, true);
        let ghost start = *self;
        proof {
            Buffer::lemma_extends_refl(&*self);
        }
        let mut i: usize = 0;
        while i < doomed.len()
            invariant
                self.wf(),
                self.extends(&start),
                start == *old(self),
                i <= doomed@.len(),
                forall|x: int| 0 <= x < doomed@.len() ==> in_bounds((#[trigger] doomed@[x]).0@, opt_view(min), opt_view(max)),
                forall|k: Seq<u8>| #[trigger] start.view().contains_key(k) && in_bounds(k, opt_view(min), opt_view(max))
                    ==> exists|x: int| 0 <= x < doomed@.len() && doomed@[x].0@ == k,
                forall|k: Seq<u8>| #[trigger] self.view().contains_key(k) <==> (start.view().contains_key(k)
                    && !(exists|x: int| 0 <= x < i && doomed@[x].0@ == k)),
                forall|k: Seq<u8>| #[trigger] self.view().contains_key(k) ==> self.view()[k] == start.view()[k],
            decreases doomed@.len() - i,
        {
            let ghost before = *self;
            self.remove(doomed[i].0.clone());
            proof {
                Buffer::lemma_extends_trans(&start, &before, &*self);
                assert forall|k: Seq<u8>| #[trigger] self.view().contains_key(k) <==> (start.view().contains_key(k)
                    && !(exists|x: int| 0 <= x < i + 1 && doomed@[x].0@ == k)) by {
                    if exists|x: int| 0 <= x < i + 1 && doomed@[x].0@ == k {
                        let x = choose|x: int| 0 <= x < i + 1 && doomed@[x].0@ == k;
                        if x < i {
                            assert(exists|y: int| 0 <= y < i && doomed@[y].0@ == k);
                        }
                    } else {
                        assert(!(exists|y: int| 0 <= y < i && doomed@[y].0@ == k));
                    }
                }
            }
            i = i + 1;
        }
        proof {
            let m = Map::new(
                |k: Seq<u8>| old(self).view().contains_key(k) && !in_bounds(k, opt_view(min), opt_view(max)),
                |k: Seq<u8>| old(self).view()[k],
            );
            assert forall|k: Seq<u8>| #[trigger] self.view().contains_key(k) <==> m.contains_key(k) by {
                if exists|x: int| 0 <= x < doomed@.len() && doomed@[x].0@ == k {
                    let x = choose|x: int| 0 <= x < doomed@.len() && doomed@[x].0@ == k;
                    assert(in_bounds(doomed@[x].0@, opt_view(min), opt_view(max)));
                }
            }
            assert(self.view() =~= m);
        }
    }
}

} // verus!
