use vstd::prelude::*;
use crate::store::{bytes_eq, MemStore};

verus! {

/// The SHA-256 digest of a byte string.
pub uninterp spec fn sha256_of(data: Seq<u8>) -> Seq<u8>;

/// Relies on `sha2::Sha256::digest`: the SHA-256 digest of the bytes, which
/// is 32 bytes long.
#[verifier::external_body]
pub fn sha256(data: &Vec<u8>) -> (r: Vec<u8>)
    ensures
        r@ == sha256_of(data@),
        r@.len() == 32,
{
    <sha2::Sha256 as sha2::Digest>::digest(data).to_vec()
}

/// A 32-byte hash.
pub type Hash256 = Vec<u8>;

/// The tag byte that starts the hashed form of an internal node.
pub const INTERNAL_NODE_HASH_PREFIX: u8 = 0;

/// The tag byte that starts the hashed form of a leaf node.
pub const LEAF_NODE_HASH_PREFIX: u8 = 1;

/// The hash that stands for an absent child: 32 zero bytes.
pub open spec fn zero_hash() -> Seq<u8> {
    Seq::new(32, |i: int| 0u8)
}

pub open spec fn or_zero(h: Option<Seq<u8>>) -> Seq<u8> {
    match h {
        Some(h) => h,
        None => zero_hash(),
    }
}

/// `H(0 || left || right)`, an absent child hashing as 32 zero bytes.
pub open spec fn internal_hash(left: Option<Seq<u8>>, right: Option<Seq<u8>>) -> Seq<u8> {
    sha256_of(seq![INTERNAL_NODE_HASH_PREFIX] + or_zero(left) + or_zero(right))
}

/// `H(1 || key_hash || value_hash)`.
pub open spec fn leaf_hash(key_hash: Seq<u8>, value_hash: Seq<u8>) -> Seq<u8> {
    sha256_of(seq![LEAF_NODE_HASH_PREFIX] + key_hash + value_hash)
}

pub fn zero_hash_vec() -> (r: Vec<u8>)
    ensures
        r@ == zero_hash(),
{
    let mut r: Vec<u8> = Vec::new();
    let mut i: usize = 0;
    while i < 32
        invariant
            i <= 32,
            r@ == Seq::new(i as nat, |j: int| 0u8),
        decreases 32 - i,
    {
        r.push(0u8);
        i = i + 1;
        assert(r@ =~= Seq::new(i as nat, |j: int| 0u8));
    }
    r
}

/// `a` followed by `b`.
pub fn concat_bytes(a: &Vec<u8>, b: &Vec<u8>) -> (r: Vec<u8>)
    ensures
        r@ == a@ + b@,
{
    let mut r = a.clone();
    r.extend_from_slice(b.as_slice());
    r
}

pub fn hash_internal_node(left_hash: Option<&Hash256>, right_hash: Option<&Hash256>) -> (r: Hash256)
    ensures
        r@ == internal_hash(
            match left_hash { Some(h) => Some(h@), None => None },
            match right_hash { Some(h) => Some(h@), None => None },
        ),
        r@.len() == 32,
{
    let zero = zero_hash_vec();
    let mut data: Vec<u8> = Vec::new();
    data.push(INTERNAL_NODE_HASH_PREFIX);
    let l = match left_hash {
        Some(h) => h,
        None => &zero,
    };
    let r = match right_hash {
        Some(h) => h,
        None => &zero,
    };
    let data = concat_bytes(&data, l);
    let data = concat_bytes(&data, r);
    sha256(&data)
}

pub fn hash_leaf_node(key_hash: &Hash256, value_hash: &Hash256) -> (r: Hash256)
    ensures
        r@ == leaf_hash(key_hash@, value_hash@),
        r@.len() == 32,
{
    let mut data: Vec<u8> = Vec::new();
    data.push(LEAF_NODE_HASH_PREFIX);
    let data = concat_bytes(&data, key_hash);
    let data = concat_bytes(&data, value_hash);
    sha256(&data)
}

/// A reference from an internal node to a child: the version at which the
/// child was written and its hash.
#[derive(Debug, Clone)]
pub struct Child {
    pub version: u64,
    pub hash: Hash256,
}

#[derive(Debug, Clone)]
pub struct InternalNode {
    pub left_child: Option<Child>,
    pub right_child: Option<Child>,
}

#[derive(Debug, Clone)]
pub struct LeafNode {
    pub key_hash: Hash256,
    pub value_hash: Hash256,
}

#[derive(Debug, Clone)]
pub enum Node {
    Internal(InternalNode),
    Leaf(LeafNode),
}

pub open spec fn child_hash(c: Option<Child>) -> Option<Seq<u8>> {
    match c {
        Some(c) => Some(c.hash@),
        None => None,
    }
}

impl Node {
    pub open spec fn spec_hash(&self) -> Seq<u8> {
        match self {
            Node::Internal(n) => internal_hash(child_hash(n.left_child), child_hash(n.right_child)),
            Node::Leaf(n) => leaf_hash(n.key_hash@, n.value_hash@),
        }
    }

    pub fn is_leaf(&self) -> (r: bool)
        ensures
            r == (self is Leaf),
    {
        match self {
            Node::Internal(_) => false,
            Node::Leaf(_) => true,
        }
    }

    pub fn hash(&self) -> (r: Hash256)
        ensures
            r@ == self.spec_hash(),
    {
        match self {
            Node::Internal(n) => {
                let l = match &n.left_child {
                    Some(c) => Some(&c.hash),
                    None => None,
                };
                let r = match &n.right_child {
                    Some(c) => Some(&c.hash),
                    None => None,
                };
                hash_internal_node(l, r)
            },
            Node::Leaf(n) => hash_leaf_node(&n.key_hash, &n.value_hash),
        }
    }
}

/// Bit `i` of a hash, most significant bit of the first byte first.
pub open spec fn bit_at(h: Seq<u8>, i: nat) -> bool {
    (h[(i / 8) as int] >> ((7 - i % 8) as u8)) & 1u8 == 1u8
}

pub fn get_bit(h: &Vec<u8>, i: usize) -> (r: bool)
    requires
        i < 256,
        h@.len() == 32,
    ensures
        r == bit_at(h@, i as nat),
{
    let b = h[i / 8];
    let s = (7 - i % 8) as u8;
    (b >> s) & 1u8 == 1u8
}

/// A leaf of the tree, as key hash and value hash.
pub type LeafView = (Seq<u8>, Seq<u8>);

pub open spec fn leaves_view(v: Seq<(Vec<u8>, Vec<u8>)>) -> Seq<LeafView> {
    v.map_values(|e: (Vec<u8>, Vec<u8>)| (e.0@, e.1@))
}

pub open spec fn goes_right(depth: nat) -> spec_fn(LeafView) -> bool {
    |e: LeafView| bit_at(e.0, depth)
}

pub open spec fn goes_left(depth: nat) -> spec_fn(LeafView) -> bool {
    |e: LeafView| !bit_at(e.0, depth)
}

/// The hash of the subtree holding `leaves` below `depth` bits of their key
/// hashes: nothing when empty, the leaf itself when alone, else an internal
/// node over the leaves whose next bit is 0 and those whose next bit is 1.
pub open spec fn subtree_hash(leaves: Seq<LeafView>, depth: nat) -> Option<Seq<u8>>
    decreases 256 - depth,
{
    if leaves.len() == 0 {
        None
    } else if leaves.len() == 1 || depth >= 256 {
        Some(leaf_hash(leaves[0].0, leaves[0].1))
    } else {
        Some(internal_hash(
            subtree_hash(leaves.filter(goes_left(depth)), depth + 1),
            subtree_hash(leaves.filter(goes_right(depth)), depth + 1),
        ))
    }
}

/// The sibling hashes on the way from the subtree at `depth` down to the
/// leaf of `key_hash`, top first.
pub open spec fn proof_path(leaves: Seq<LeafView>, key_hash: Seq<u8>, depth: nat) -> Seq<Option<Seq<u8>>>
    decreases 256 - depth,
{
    if leaves.len() <= 1 || depth >= 256 {
        Seq::empty()
    } else if bit_at(key_hash, depth) {
        seq![subtree_hash(leaves.filter(goes_left(depth)), depth + 1)]
            + proof_path(leaves.filter(goes_right(depth)), key_hash, depth + 1)
    } else {
        seq![subtree_hash(leaves.filter(goes_right(depth)), depth + 1)]
            + proof_path(leaves.filter(goes_left(depth)), key_hash, depth + 1)
    }
}

/// The root that a leaf hash and its sibling hashes (top first) lead to,
/// starting at `depth`.
pub open spec fn fold_path(leaf: Seq<u8>, key_hash: Seq<u8>, siblings: Seq<Option<Seq<u8>>>, depth: nat) -> Seq<u8>
    decreases siblings.len(),
{
    if siblings.len() == 0 {
        leaf
    } else {
        let below = fold_path(leaf, key_hash, siblings.drop_first(), depth + 1);
        if bit_at(key_hash, depth) {
            internal_hash(siblings[0], Some(below))
        } else {
            internal_hash(Some(below), siblings[0])
        }
    }
}

/// The leaves that go to one side at `depth`.
fn split_leaves(leaves: &Vec<(Vec<u8>, Vec<u8>)>, depth: usize, right: bool) -> (r: Vec<(Vec<u8>, Vec<u8>)>)
    requires
        depth < 256,
        forall|i: int| 0 <= i < leaves@.len() ==> (#[trigger] leaves@[i]).0@.len() == 32,
    ensures
        leaves_view(r@) == leaves_view(leaves@).filter(if right { goes_right(depth as nat) } else { goes_left(depth as nat) }),
        forall|i: int| 0 <= i < r@.len() ==> (#[trigger] r@[i]).0@.len() == 32,
{
    let ghost pred = if right { goes_right(depth as nat) } else { goes_left(depth as nat) };
    let ghost lv = leaves_view(leaves@);
    let mut r: Vec<(Vec<u8>, Vec<u8>)> = Vec::new();
    let mut i: usize = 0;
    while i < leaves.len()
        invariant
            depth < 256,
            i <= leaves@.len(),
            lv == leaves_view(leaves@),
            forall|j: int| 0 <= j < leaves@.len() ==> (#[trigger] leaves@[j]).0@.len() == 32,
            forall|j: int| 0 <= j < r@.len() ==> (#[trigger] r@[j]).0@.len() == 32,
            pred == (if right { goes_right(depth as nat) } else { goes_left(depth as nat) }),
            leaves_view(r@) == lv.subrange(0, i as int).filter(pred),
        decreases leaves@.len() - i,
    {
        let b = get_bit(&leaves[i].0, depth);
        proof {
            reveal(Seq::filter);
            assert(lv.subrange(0, i + 1).drop_last() =~= lv.subrange(0, i as int));
            assert(lv.subrange(0, i + 1).last() == lv[i as int]);
            assert(lv[i as int].0 == leaves@[i as int].0@);
            assert(pred(lv[i as int]) == (b == right));
        }
        if b == right {
            let e = (leaves[i].0.clone(), leaves[i].1.clone());
            let ghost before = r@;
            r.push(e);
            proof {
                assert(leaves_view(r@) =~= leaves_view(before).push(lv[i as int]));
            }
        }
        i = i + 1;
    }
    assert(lv.subrange(0, leaves@.len() as int) =~= lv);
    r
}

/// The hash of the subtree of `leaves` at `depth`.
pub fn compute_subtree(leaves: &Vec<(Vec<u8>, Vec<u8>)>, depth: usize) -> (r: Option<Hash256>)
    requires
        depth <= 256,
        forall|i: int| 0 <= i < leaves@.len() ==> (#[trigger] leaves@[i]).0@.len() == 32,
    ensures
        match r {
            Some(h) => subtree_hash(leaves_view(leaves@), depth as nat) == Some(h@),
            None => subtree_hash(leaves_view(leaves@), depth as nat) is None,
        },
    decreases 256 - depth,
{
    if leaves.len() == 0 {
        return None;
    }
    if leaves.len() == 1 || depth >= 256 {
        return Some(hash_leaf_node(&leaves[0].0, &leaves[0].1));
    }
    let l = split_leaves(leaves, depth, false);
    let r = split_leaves(leaves, depth, true);
    let lh = compute_subtree(&l, depth + 1);
    let rh = compute_subtree(&r, depth + 1);
    let lr = match &lh {
        Some(h) => Some(h),
        None => None,
    };
    let rr = match &rh {
        Some(h) => Some(h),
        None => None,
    };
    Some(hash_internal_node(lr, rr))
}

/// A Merkle proof: the sibling hashes from the root down to where the key
/// belongs, and what is there: the leaf (key hash, value hash) that sits
/// there, or nothing.
#[derive(Debug, Clone)]
pub struct MerkleProof {
    pub sibling_hashes: Vec<Option<Hash256>>,
    pub terminal: Option<(Hash256, Hash256)>,
}

impl MerkleProof {
    /// The hash at the end of the path: the leaf there, if any.
    pub open spec fn bottom(&self) -> Option<Seq<u8>> {
        match self.terminal {
            Some((k, v)) => Some(leaf_hash(k@, v@)),
            None => None,
        }
    }

    /// The path ends at nothing or at a leaf of another key.
    pub open spec fn ends_elsewhere(&self, key_hash: Seq<u8>) -> bool {
        match self.terminal {
            Some((k, _)) => k@ != key_hash,
            None => true,
        }
    }

    pub open spec fn view(&self) -> Seq<Option<Seq<u8>>> {
        self.sibling_hashes@.map_values(|h: Option<Hash256>| match h {
            Some(h) => Some(h@),
            None => None,
        })
    }
}

/// The sibling hashes on the way to `key_hash` in the subtree of `leaves` at `depth`.
pub fn compute_path(leaves: &Vec<(Vec<u8>, Vec<u8>)>, key_hash: &Vec<u8>, depth: usize) -> (r: Vec<Option<Hash256>>)
    requires
        depth <= 256,
        key_hash@.len() == 32,
        forall|i: int| 0 <= i < leaves@.len() ==> (#[trigger] leaves@[i]).0@.len() == 32,
    ensures
        (MerkleProof { sibling_hashes: r, terminal: None }).view() == proof_path(leaves_view(leaves@), key_hash@, depth as nat),
    decreases 256 - depth,
{
    if leaves.len() <= 1 || depth >= 256 {
        let r: Vec<Option<Hash256>> = Vec::new();
        assert((MerkleProof { sibling_hashes: r, terminal: None }).view() =~= Seq::<Option<Seq<u8>>>::empty());
        return r;
    }
    let l = split_leaves(leaves, depth, false);
    let rt = split_leaves(leaves, depth, true);
    let (sib, mut rest) = if get_bit(key_hash, depth) {
        (compute_subtree(&l, depth + 1), compute_path(&rt, key_hash, depth + 1))
    } else {
        (compute_subtree(&rt, depth + 1), compute_path(&l, key_hash, depth + 1))
    };
    let mut r: Vec<Option<Hash256>> = Vec::new();
    r.push(sib);
    let ghost rv = (MerkleProof { sibling_hashes: rest, terminal: None }).view();
    r.append(&mut rest);
    proof {
        let v = (MerkleProof { sibling_hashes: r, terminal: None }).view();
        assert(v =~= seq![v[0]] + rv);
    }
    r
}

/// Whether the proof leads from the leaf of `key_hash` and `value_hash` to `root`.
pub fn verify_proof(proof: &MerkleProof, root: &Hash256, key_hash: &Hash256, value_hash: &Hash256) -> (r: bool)
    requires
        key_hash@.len() == 32,
        proof.view().len() <= 256,
    ensures
        r == (fold_path(leaf_hash(key_hash@, value_hash@), key_hash@, proof.view(), 0) == root@),
{
    let sibs = &proof.sibling_hashes;
    let ghost pv = proof.view();
    let mut cur = hash_leaf_node(key_hash, value_hash);
    let mut i: usize = sibs.len();
    proof {
        assert(pv.subrange(i as int, pv.len() as int).len() == 0);
    }
    while i > 0
        invariant
            i <= sibs@.len(),
            sibs@.len() <= 256,
            key_hash@.len() == 32,
            pv == proof.view(),
            sibs == &proof.sibling_hashes,
            cur@ == fold_path(leaf_hash(key_hash@, value_hash@), key_hash@, pv.subrange(i as int, pv.len() as int), i as nat),
        decreases i,
    {
        i = i - 1;
        let s = match &sibs[i] {
            Some(h) => Some(h),
            None => None,
        };
        proof {
            let tail = pv.subrange(i as int, pv.len() as int);
            assert(tail.drop_first() =~= pv.subrange(i + 1, pv.len() as int));
            assert(tail[0] == pv[i as int]);
        }
        if get_bit(key_hash, i) {
            cur = hash_internal_node(s, Some(&cur));
        } else {
            cur = hash_internal_node(Some(&cur), s);
        }
    }
    assert(pv.subrange(0, pv.len() as int) =~= pv);
    bytes_eq(&cur, root)
}

/// A byte is determined by its eight bits.
proof fn lemma_byte_from_bits(x: u8, y: u8)
    requires
        ((x >> 0u8) & 1u8 == 1u8) == ((y >> 0u8) & 1u8 == 1u8),
        ((x >> 1u8) & 1u8 == 1u8) == ((y >> 1u8) & 1u8 == 1u8),
        ((x >> 2u8) & 1u8 == 1u8) == ((y >> 2u8) & 1u8 == 1u8),
        ((x >> 3u8) & 1u8 == 1u8) == ((y >> 3u8) & 1u8 == 1u8),
        ((x >> 4u8) & 1u8 == 1u8) == ((y >> 4u8) & 1u8 == 1u8),
        ((x >> 5u8) & 1u8 == 1u8) == ((y >> 5u8) & 1u8 == 1u8),
        ((x >> 6u8) & 1u8 == 1u8) == ((y >> 6u8) & 1u8 == 1u8),
        ((x >> 7u8) & 1u8 == 1u8) == ((y >> 7u8) & 1u8 == 1u8),
    ensures
        x == y,
{
    assert(x == y) by (bit_vector)
        requires
            ((x >> 0u8) & 1u8 == 1u8) == ((y >> 0u8) & 1u8 == 1u8),
            ((x >> 1u8) & 1u8 == 1u8) == ((y >> 1u8) & 1u8 == 1u8),
            ((x >> 2u8) & 1u8 == 1u8) == ((y >> 2u8) & 1u8 == 1u8),
            ((x >> 3u8) & 1u8 == 1u8) == ((y >> 3u8) & 1u8 == 1u8),
            ((x >> 4u8) & 1u8 == 1u8) == ((y >> 4u8) & 1u8 == 1u8),
            ((x >> 5u8) & 1u8 == 1u8) == ((y >> 5u8) & 1u8 == 1u8),
            ((x >> 6u8) & 1u8 == 1u8) == ((y >> 6u8) & 1u8 == 1u8),
            ((x >> 7u8) & 1u8 == 1u8) == ((y >> 7u8) & 1u8 == 1u8),
    ;
}

/// Two 32-byte hashes with the same 256 bits are equal.
proof fn lemma_hash_from_bits(a: Seq<u8>, b: Seq<u8>)
    requires
        a.len() == 32,
        b.len() == 32,
        forall|i: nat| i < 256 ==> #[trigger] bit_at(a, i) == bit_at(b, i),
    ensures
        a == b,
{
    assert forall|j: int| 0 <= j < 32 implies a[j] == b[j] by {
        assert(bit_at(a, (8 * j + 7) as nat) == bit_at(b, (8 * j + 7) as nat));
        assert(bit_at(a, (8 * j + 6) as nat) == bit_at(b, (8 * j + 6) as nat));
        assert(bit_at(a, (8 * j + 5) as nat) == bit_at(b, (8 * j + 5) as nat));
        assert(bit_at(a, (8 * j + 4) as nat) == bit_at(b, (8 * j + 4) as nat));
        assert(bit_at(a, (8 * j + 3) as nat) == bit_at(b, (8 * j + 3) as nat));
        assert(bit_at(a, (8 * j + 2) as nat) == bit_at(b, (8 * j + 2) as nat));
        assert(bit_at(a, (8 * j + 1) as nat) == bit_at(b, (8 * j + 1) as nat));
        assert(bit_at(a, (8 * j) as nat) == bit_at(b, (8 * j) as nat));
        lemma_byte_from_bits(a[j], b[j]);
    }
    assert(a =~= b);
}

/// The leaves agree with `key_hash` on their first `depth` bits, are 32-byte
/// hashes, and no two different leaves share a key hash.
pub open spec fn leaves_below(leaves: Seq<LeafView>, key_hash: Seq<u8>, depth: nat) -> bool {
    &&& forall|e: LeafView| #[trigger] leaves.contains(e) ==> e.0.len() == 32
    &&& forall|e: LeafView, b: nat| leaves.contains(e) && b < depth ==> #[trigger] bit_at(e.0, b) == bit_at(key_hash, b)
    &&& forall|e: LeafView, f: LeafView| #[trigger] leaves.contains(e) && #[trigger] leaves.contains(f) && e.0 == f.0 ==> e == f
}

proof fn lemma_round_trip_at(leaves: Seq<LeafView>, key_hash: Seq<u8>, value_hash: Seq<u8>, depth: nat)
    requires
        depth <= 256,
        key_hash.len() == 32,
        leaves.contains((key_hash, value_hash)),
        leaves_below(leaves, key_hash, depth),
    ensures
        subtree_hash(leaves, depth) == Some(fold_path(leaf_hash(key_hash, value_hash), key_hash, proof_path(leaves, key_hash, depth), depth)),
    decreases 256 - depth,
{
    let kv = (key_hash, value_hash);
    if leaves.len() == 1 || depth >= 256 {
        let e = leaves[0];
        assert(leaves.contains(e));
        if depth >= 256 {
            assert forall|i: nat| i < 256 implies #[trigger] bit_at(e.0, i) == bit_at(key_hash, i) by {
                assert(leaves.contains(e) && i < depth);
            }
            lemma_hash_from_bits(e.0, key_hash);
        } else {
            let j = choose|j: int| 0 <= j < leaves.len() && leaves[j] == kv;
            assert(j == 0);
        }
        assert(e == kv);
    } else {
        let right = bit_at(key_hash, depth);
        let p = if right { goes_right(depth) } else { goes_left(depth) };
        let q = if right { goes_left(depth) } else { goes_right(depth) };
        let side = leaves.filter(p);
        let j = choose|j: int| 0 <= j < leaves.len() && leaves[j] == kv;
        leaves.lemma_filter_contains(p, j);
        assert(side.contains(kv));
        assert forall|e: LeafView| #[trigger] side.contains(e) implies leaves.contains(e) by {
            leaves.lemma_filter_contains_rev(p, e);
        }
        assert forall|e: LeafView, b: nat| side.contains(e) && b < depth + 1 implies #[trigger] bit_at(e.0, b) == bit_at(key_hash, b) by {
            if b == depth {
                let k = choose|k: int| 0 <= k < side.len() && side[k] == e;
                leaves.lemma_filter_pred(p, k);
            }
        }
        lemma_round_trip_at(side, key_hash, value_hash, depth + 1);
        let path = proof_path(leaves, key_hash, depth);
        assert(path.drop_first() =~= proof_path(side, key_hash, depth + 1));
    }
}

/// Merkle round trip: in the tree of `leaves`, the proof generated for a leaf
/// leads from that leaf to the root, so it verifies against the root and
/// against no other hash. Key hashes are 32 bytes and no two leaves share one.
pub proof fn lemma_merkle_round_trip(leaves: Seq<LeafView>, key_hash: Seq<u8>, value_hash: Seq<u8>, other_root: Seq<u8>)
    requires
        key_hash.len() == 32,
        leaves.contains((key_hash, value_hash)),
        forall|e: LeafView| #[trigger] leaves.contains(e) ==> e.0.len() == 32,
        forall|e: LeafView, f: LeafView| #[trigger] leaves.contains(e) && #[trigger] leaves.contains(f) && e.0 == f.0 ==> e == f,
        subtree_hash(leaves, 0) != Some(other_root),
    ensures
        subtree_hash(leaves, 0) is Some,
        fold_path(leaf_hash(key_hash, value_hash), key_hash, proof_path(leaves, key_hash, 0), 0) == subtree_hash(leaves, 0)->Some_0,
        fold_path(leaf_hash(key_hash, value_hash), key_hash, proof_path(leaves, key_hash, 0), 0) != other_root,
{
    lemma_round_trip_at(leaves, key_hash, value_hash, 0);
}

/// What sits where `key_hash` belongs in the subtree of `leaves` at
/// `depth`: nothing, or the one leaf left there.
pub open spec fn terminal_leaf(leaves: Seq<LeafView>, key_hash: Seq<u8>, depth: nat) -> Option<LeafView>
    decreases 256 - depth,
{
    if leaves.len() == 0 {
        None
    } else if leaves.len() == 1 || depth >= 256 {
        Some(leaves[0])
    } else if bit_at(key_hash, depth) {
        terminal_leaf(leaves.filter(goes_right(depth)), key_hash, depth + 1)
    } else {
        terminal_leaf(leaves.filter(goes_left(depth)), key_hash, depth + 1)
    }
}

pub open spec fn terminal_hash(t: Option<LeafView>) -> Option<Seq<u8>> {
    match t {
        Some(l) => Some(leaf_hash(l.0, l.1)),
        None => None,
    }
}

/// The root that a possibly absent bottom hash and its sibling hashes (top
/// first) lead to, starting at `depth`.
pub open spec fn fold_path_opt(bottom: Option<Seq<u8>>, key_hash: Seq<u8>, siblings: Seq<Option<Seq<u8>>>, depth: nat) -> Option<Seq<u8>>
    decreases siblings.len(),
{
    if siblings.len() == 0 {
        bottom
    } else {
        let below = fold_path_opt(bottom, key_hash, siblings.drop_first(), depth + 1);
        if bit_at(key_hash, depth) {
            Some(internal_hash(siblings[0], below))
        } else {
            Some(internal_hash(below, siblings[0]))
        }
    }
}

/// The path and what it ends at rebuild the subtree's hash.
pub proof fn lemma_path_rebuilds_subtree(leaves: Seq<LeafView>, key_hash: Seq<u8>, depth: nat)
    requires
        depth <= 256,
    ensures
        subtree_hash(leaves, depth) == fold_path_opt(
            terminal_hash(terminal_leaf(leaves, key_hash, depth)), key_hash, proof_path(leaves, key_hash, depth), depth),
    decreases 256 - depth,
{
    if leaves.len() > 1 && depth < 256 {
        let right = bit_at(key_hash, depth);
        let side = if right { leaves.filter(goes_right(depth)) } else { leaves.filter(goes_left(depth)) };
        lemma_path_rebuilds_subtree(side, key_hash, depth + 1);
        let path = proof_path(leaves, key_hash, depth);
        assert(path.drop_first() =~= proof_path(side, key_hash, depth + 1));
    }
}

/// The leaf that a path ends at is one of the leaves.
proof fn lemma_terminal_is_leaf(leaves: Seq<LeafView>, key_hash: Seq<u8>, depth: nat)
    ensures
        terminal_leaf(leaves, key_hash, depth) matches Some(l) ==> leaves.contains(l),
    decreases 256 - depth,
{
    if leaves.len() == 1 || (leaves.len() > 0 && depth >= 256) {
        assert(leaves.contains(leaves[0]));
    } else if leaves.len() > 1 {
        let p = if bit_at(key_hash, depth) { goes_right(depth) } else { goes_left(depth) };
        lemma_terminal_is_leaf(leaves.filter(p), key_hash, depth + 1);
        match terminal_leaf(leaves, key_hash, depth) {
            Some(l) => {
                leaves.lemma_filter_contains_rev(p, l);
            },
            None => {},
        }
    }
}

/// What sits where `key_hash` belongs.
pub fn compute_terminal(leaves: &Vec<(Vec<u8>, Vec<u8>)>, key_hash: &Vec<u8>, depth: usize) -> (r: Option<(Hash256, Hash256)>)
    requires
        depth <= 256,
        key_hash@.len() == 32,
        forall|i: int| 0 <= i < leaves@.len() ==> (#[trigger] leaves@[i]).0@.len() == 32,
    ensures
        match r {
            Some((k, v)) => terminal_leaf(leaves_view(leaves@), key_hash@, depth as nat) == Some((k@, v@)),
            None => terminal_leaf(leaves_view(leaves@), key_hash@, depth as nat) is None,
        },
    decreases 256 - depth,
{
    if leaves.len() == 0 {
        return None;
    }
    if leaves.len() == 1 || depth >= 256 {
        return Some((leaves[0].0.clone(), leaves[0].1.clone()));
    }
    let right = get_bit(key_hash, depth);
    let side = split_leaves(leaves, depth, right);
    compute_terminal(&side, key_hash, depth + 1)
}

/// Whether the proof shows that no leaf has `key_hash` in the tree of `root`
/// (`None` for an empty tree): what the path ends at is nothing or a leaf of
/// another key, and the path leads from there to the root.
pub fn verify_absence(proof: &MerkleProof, root: Option<&Hash256>, key_hash: &Hash256) -> (r: bool)
    requires
        key_hash@.len() == 32,
        proof.view().len() <= 256,
    ensures
        r == (proof.ends_elsewhere(key_hash@)
            && fold_path_opt(proof.bottom(), key_hash@, proof.view(), 0) == match root { Some(h) => Some(h@), None => None }),
{
    let sibs = &proof.sibling_hashes;
    let ghost pv = proof.view();
    let other_key = match &proof.terminal {
        Some((k, _)) => !bytes_eq(k, key_hash),
        None => true,
    };
    let mut cur: Option<Hash256> = match &proof.terminal {
        Some((k, v)) => Some(hash_leaf_node(k, v)),
        None => None,
    };
    let ghost bottom = proof.bottom();
    let mut i: usize = sibs.len();
    proof {
        assert(pv.subrange(i as int, pv.len() as int).len() == 0);
    }
    while i > 0
        invariant
            i <= sibs@.len(),
            sibs@.len() <= 256,
            key_hash@.len() == 32,
            pv == proof.view(),
            sibs == &proof.sibling_hashes,
            (match cur { Some(h) => Some(h@), None => None }) == fold_path_opt(bottom, key_hash@, pv.subrange(i as int, pv.len() as int), i as nat),
        decreases i,
    {
        i = i - 1;
        let s = match &sibs[i] {
            Some(h) => Some(h),
            None => None,
        };
        proof {
            let tail = pv.subrange(i as int, pv.len() as int);
            assert(tail.drop_first() =~= pv.subrange(i + 1, pv.len() as int));
            assert(tail[0] == pv[i as int]);
        }
        let below = match &cur {
            Some(h) => Some(h),
            None => None,
        };
        let next = if get_bit(key_hash, i) {
            hash_internal_node(s, below)
        } else {
            hash_internal_node(below, s)
        };
        cur = Some(next);
    }
    assert(pv.subrange(0, pv.len() as int) =~= pv);
    let same = match (&cur, root) {
        (Some(a), Some(b)) => bytes_eq(a, b),
        (None, None) => true,
        _ => false,
    };
    other_key && same
}

/// Merkle exclusion round trip: in the tree of `leaves`, where no leaf has
/// `key_hash`, the path to where it would be and what sits there rebuild the
/// root, and what sits there is nothing or a leaf of another key.
pub proof fn lemma_absence_round_trip(leaves: Seq<LeafView>, key_hash: Seq<u8>)
    requires
        forall|e: LeafView| #[trigger] leaves.contains(e) ==> e.0 != key_hash,
    ensures
        fold_path_opt(terminal_hash(terminal_leaf(leaves, key_hash, 0)), key_hash, proof_path(leaves, key_hash, 0), 0)
            == subtree_hash(leaves, 0),
        terminal_leaf(leaves, key_hash, 0) matches Some(l) ==> l.0 != key_hash,
{
    lemma_path_rebuilds_subtree(leaves, key_hash, 0);
    lemma_terminal_is_leaf(leaves, key_hash, 0);
}

} // verus!
