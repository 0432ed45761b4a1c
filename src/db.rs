use vstd::prelude::*;
use crate::merkle::{fold_path, leaf_hash, lemma_merkle_round_trip, compute_terminal, proof_path, terminal_leaf, compute_path, compute_subtree, leaves_view, sha256, sha256_of, subtree_hash, Hash256, MerkleProof, LeafView};
use crate::store::{apply_ops, Batch, MemStore, StoreMap};

verus! {

/// The error of a versioned store.
#[derive(Debug, Clone, Copy, PartialEq, Eq, Structural)]
pub enum DbError {
    /// The version asked for was never committed.
    VersionNotFound { version: u64 },
    /// A flush while an earlier one waits for its commit.
    PendingNotCommitted,
    /// A commit with nothing flushed.
    NothingToCommit,
    /// A state with no data has no root hash.
    EmptyState,
}

/// The leaves of the Merkle tree of a store: for each entry, the hash of
/// its key and the hash of its value.
pub open spec fn store_leaves(entries: Seq<(Vec<u8>, Vec<u8>)>) -> Seq<LeafView> {
    entries.map_values(|e: (Vec<u8>, Vec<u8>)| (sha256_of(e.0@), sha256_of(e.1@)))
}

/// The root hash of a store's Merkle tree; `None` for an empty store.
pub open spec fn store_root(s: MemStore) -> Option<Seq<u8>> {
    subtree_hash(store_leaves(s.entries@), 0)
}

fn tree_leaves(s: &MemStore) -> (r: Vec<(Vec<u8>, Vec<u8>)>)
    ensures
        leaves_view(r@) == store_leaves(s.entries@),
        forall|i: int| 0 <= i < r@.len() ==> (#[trigger] r@[i]).0@.len() == 32,
{
    let mut r: Vec<(Vec<u8>, Vec<u8>)> = Vec::new();
    let mut i: usize = 0;
    while i < s.entries.len()
        invariant
            i <= s.entries@.len(),
            leaves_view(r@) == store_leaves(s.entries@.subrange(0, i as int)),
            forall|j: int| 0 <= j < r@.len() ==> (#[trigger] r@[j]).0@.len() == 32,
        decreases s.entries@.len() - i,
    {
        let k = sha256(&s.entries[i].0);
        let v = sha256(&s.entries[i].1);
        let ghost before = r@;
        let ghost kv = (k@, v@);
        r.push((k, v));
        proof {
            assert(leaves_view(r@) =~= leaves_view(before).push(kv));
            assert(store_leaves(s.entries@.subrange(0, i + 1)) =~= store_leaves(s.entries@.subrange(0, i as int)).push(kv));
        }
        i = i + 1;
    }
    assert(s.entries@.subrange(0, s.entries@.len() as int) =~= s.entries@);
    r
}

/// The root hash of a store.
pub fn root_of(s: &MemStore) -> (r: Option<Hash256>)
    ensures
        match r {
            Some(h) => store_root(*s) == Some(h@),
            None => store_root(*s) is None,
        },
        r is None <==> s.entries@.len() == 0,
{
    let leaves = tree_leaves(s);
    compute_subtree(&leaves, 0)
}

/// A Merkle proof of `key` in a store: of its presence where it is
/// there, of its absence where it is not.
pub fn prove_key(s: &MemStore, key: &Vec<u8>) -> (r: MerkleProof)
    ensures
        r.view() == proof_path(store_leaves(s.entries@), sha256_of(key@), 0),
        match r.terminal {
            Some((k, v)) => terminal_leaf(store_leaves(s.entries@), sha256_of(key@), 0) == Some((k@, v@)),
            None => terminal_leaf(store_leaves(s.entries@), sha256_of(key@), 0) is None,
        },
{
    let leaves = tree_leaves(s);
    let k = sha256(key);
    let sibling_hashes = compute_path(&leaves, &k, 0);
    let terminal = compute_terminal(&leaves, &k, 0);
    let r = MerkleProof { sibling_hashes, terminal };
    assert(r.view() == (MerkleProof { sibling_hashes: r.sibling_hashes, terminal: None }).view());
    r
}

/// `p` is the proof that `prove_key` gives of `key` in `s`: the path to
/// where its hash belongs in the tree of `s`, and what sits there.
pub open spec fn proves(p: MerkleProof, s: MemStore, key: Seq<u8>) -> bool {
    &&& p.view() == proof_path(store_leaves(s.entries@), sha256_of(key), 0)
    &&& match p.terminal {
        Some((k, v)) => terminal_leaf(store_leaves(s.entries@), sha256_of(key), 0) == Some((k@, v@)),
        None => terminal_leaf(store_leaves(s.entries@), sha256_of(key), 0) is None,
    }
}

/// A versioned in-memory store: each committed version of the state with
/// its root hash, and at most one flushed version waiting for its commit.
pub struct MemDb {
    pub versions: Vec<MemStore>,
    pub roots: Vec<Hash256>,
    pub pending: Option<(MemStore, Hash256)>,
}

impl MemDb {
    pub open spec fn wf(&self) -> bool {
        &&& self.versions@.len() == self.roots@.len()
        &&& self.versions@.len() < u64::MAX
        &&& forall|i: int| 0 <= i < self.versions@.len() ==> (#[trigger] self.versions@[i]).wf()
        &&& forall|i: int| 0 <= i < self.versions@.len() ==> store_root(self.versions@[i]) == Some((#[trigger] self.roots@[i])@)
        &&& self.pending matches Some((s, h)) ==> s.wf() && store_root(s) == Some(h@)
    }

    /// The latest committed state; empty before the first commit.
    pub open spec fn latest_view(&self) -> StoreMap {
        if self.versions@.len() > 0 { self.versions@[self.versions@.len() - 1].view() } else { Map::empty() }
    }

    /// The version that `version` asks for: itself, or the latest for `None`.
    pub open spec fn version_index(&self, version: Option<u64>) -> int {
        match version {
            Some(v) => v as int,
            None => self.versions@.len() - 1,
        }
    }

    /// The root hash of committed version `v`, where there is one.
    pub open spec fn spec_root_hash(&self, v: int) -> Option<Seq<u8>> {
        if 0 <= v < self.roots@.len() {
            Some(self.roots@[v]@)
        } else {
            None
        }
    }

    pub fn new() -> (r: MemDb)
        ensures
            r.wf(),
            r.versions@.len() == 0,
            r.pending is None,
    {
        MemDb { versions: Vec::new(), roots: Vec::new(), pending: None }
    }

    /// The latest committed version; `None` before the first commit.
    pub fn latest_version(&self) -> (r: Option<u64>)
        requires
            self.wf(),
        ensures
            self.versions@.len() == 0 ==> r is None,
            self.versions@.len() > 0 ==> r == Some((self.versions@.len() - 1) as u64),
    {
        let n = self.versions.len();
        if n == 0 {
            None
        } else {
            Some((n - 1) as u64)
        }
    }

    /// The root hash of a committed version (the latest one for `None`).
    /// It exists for exactly the versions that were committed.
    pub fn root_hash(&self, version: Option<u64>) -> (r: Option<Hash256>)
        requires
            self.wf(),
        ensures
            version matches Some(v) ==> (r is Some <==> v < self.versions@.len()),
            version is None ==> (r is Some <==> self.versions@.len() > 0),
            (version matches Some(v) && v < self.versions@.len()) ==> (r matches Some(h) && h@ == self.roots@[version->Some_0 as int]@),
    {
        let n = self.versions.len();
        let v = match version {
            Some(v) => v,
            None => {
                if n == 0 {
                    return None;
                }
                (n - 1) as u64
            },
        };
        if v < n as u64 {
            Some(self.roots[v as usize].clone())
        } else {
            None
        }
    }

    /// The state at a committed version (the latest one for `None`; the
    /// empty state before any commit).
    pub fn state_storage(&self, version: Option<u64>) -> (r: Result<&MemStore, DbError>)
        requires
            self.wf(),
        ensures
            r matches Ok(s) ==> s.wf(),
            version matches Some(v) ==> (r is Ok <==> v < self.versions@.len()),
            (version matches Some(v) && v < self.versions@.len()) ==> r == Ok::<&MemStore, DbError>(&self.versions@[version->Some_0 as int]),
            version is None && self.versions@.len() > 0 ==> r == Ok::<&MemStore, DbError>(&self.versions@[self.versions@.len() - 1]),
            version is None && self.versions@.len() == 0 ==> r is Err,
    {
        let n = self.versions.len();
        match version {
            Some(v) => {
                if v < n as u64 {
                    Ok(&self.versions[v as usize])
                } else {
                    Err(DbError::VersionNotFound { version: v })
                }
            },
            None => {
                if n == 0 {
                    Err(DbError::VersionNotFound { version: 0 })
                } else {
                    Ok(&self.versions[n - 1])
                }
            },
        }
    }

    /// The latest committed state with `batch` performed on it.
    fn next_state(&self, batch: Batch) -> (r: MemStore)
        requires
            self.wf(),
        ensures
            r.wf(),
            self.versions@.len() > 0 ==> r.view() == apply_ops(self.versions@[self.versions@.len() - 1].view(), batch.view()),
            self.versions@.len() == 0 ==> r.view() == apply_ops(Map::empty(), batch.view()),
    {
        let n = self.versions.len();
        let mut s = if n == 0 {
            MemStore::new()
        } else {
            self.versions[n - 1].duplicate()
        };
        s.flush(batch);
        s
    }

    /// Performs `batch` on the latest committed state as the next version,
    /// held in memory until `commit`. Returns that version and its root.
    pub fn flush_but_not_commit(&mut self, batch: Batch) -> (r: Result<(u64, Hash256), DbError>)
        requires
            old(self).wf(),
        ensures
            final(self).wf(),
            final(self).versions == old(self).versions,
            final(self).roots == old(self).roots,
            old(self).pending is Some ==> r == Err::<(u64, Hash256), DbError>(DbError::PendingNotCommitted),
            r matches Ok((v, h)) ==> (v == old(self).versions@.len() && (final(self).pending matches Some((_, p)) && p@ == h@)),
            r is Ok ==> (final(self).pending matches Some((s, _)) && s.view() == apply_ops(
                if old(self).versions@.len() > 0 { old(self).versions@[old(self).versions@.len() - 1].view() } else { Map::empty() },
                batch.view())),
            r is Err ==> final(self).pending == old(self).pending,
            old(self).pending is None ==> (r is Ok <==> exists|k: Seq<u8>|
                #[trigger] apply_ops(old(self).latest_view(), batch.view()).contains_key(k)),
    {
        if self.pending.is_some() {
            return Err(DbError::PendingNotCommitted);
        }
        let ghost bv = batch.view();
        let s = self.next_state(batch);
        proof {
            s.lemma_nonempty();
            assert(s.view() == apply_ops(self.latest_view(), bv));
            if exists|k: Seq<u8>| #[trigger] apply_ops(self.latest_view(), bv).contains_key(k) {
                let k = choose|k: Seq<u8>| #[trigger] apply_ops(self.latest_view(), bv).contains_key(k);
                assert(s.view().contains_key(k));
            }
        }
        match root_of(&s) {
            None => Err(DbError::EmptyState),
            Some(h) => {
                let v = self.versions.len() as u64;
                self.pending = Some((s, h.clone()));
                Ok((v, h))
            },
        }
    }

    /// Makes the flushed version durable.
    pub fn commit(&mut self) -> (r: Result<(), DbError>)
        requires
            old(self).wf(),
            old(self).versions@.len() + 1 < u64::MAX,
        ensures
            final(self).wf(),
            old(self).pending is None ==> r == Err::<(), DbError>(DbError::NothingToCommit) && *final(self) == *old(self),
            old(self).pending matches Some((s, h)) ==> (r is Ok && final(self).pending is None
                && final(self).versions@ == old(self).versions@.push(s)
                && final(self).roots@ == old(self).roots@.push(h)),
    {
        let p = self.pending.take();
        match p {
            None => Err(DbError::NothingToCommit),
            Some((s, h)) => {
                self.versions.push(s);
                self.roots.push(h);
                Ok(())
            },
        }
    }

    /// Performs `batch` as the next version and commits it at once.
    pub fn flush_and_commit(&mut self, batch: Batch) -> (r: Result<(u64, Hash256), DbError>)
        requires
            old(self).wf(),
            old(self).versions@.len() + 1 < u64::MAX,
        ensures
            final(self).wf(),
            r matches Ok((v, h)) ==> (v == old(self).versions@.len() && final(self).versions@.len() == old(self).versions@.len() + 1
                && final(self).pending is None && final(self).roots@.last()@ == h@),
            r is Err ==> final(self).versions == old(self).versions && final(self).roots == old(self).roots
                && final(self).pending == old(self).pending,
            old(self).pending is None ==> (r is Ok <==> exists|k: Seq<u8>|
                #[trigger] apply_ops(old(self).latest_view(), batch.view()).contains_key(k)),
            r is Ok ==> final(self).versions@.drop_last() == old(self).versions@
                && final(self).versions@.last().view() == apply_ops(old(self).latest_view(), batch.view()),
    {
        let r = self.flush_but_not_commit(batch);
        match r {
            Err(e) => Err(e),
            Ok((v, h)) => {
                let c = self.commit();
                proof {
                    assert(self.versions@.drop_last() =~= old(self).versions@);
                }
                Ok((v, h))
            },
        }
    }

    /// A Merkle proof of `key` at a committed version (the latest for `None`).
    pub fn prove(&self, key: &Vec<u8>, version: Option<u64>) -> (r: Result<MerkleProof, DbError>)
        requires
            self.wf(),
        ensures
            version matches Some(v) ==> (r is Ok <==> v < self.versions@.len()),
            version is None ==> (r is Ok <==> self.versions@.len() > 0),
            r matches Ok(p) ==> proves(p, self.versions@[self.version_index(version)], key@),
    {
        match self.state_storage(version) {
            Ok(s) => Ok(prove_key(s, key)),
            Err(e) => Err(e),
        }
    }
}

/// Merkle round trip on a stored state: the proof of a stored key leads
/// from the leaf of that key and its value to the state's root, and so
/// checks against that root and no other. Digests are 32 bytes and no two
/// stored keys have the same one.
pub proof fn lemma_store_proof_round_trip(s: MemStore, key: Seq<u8>, other_root: Seq<u8>)
    requires
        s.wf(),
        s.view().contains_key(key),
        forall|q: Seq<u8>| #[trigger] sha256_of(q).len() == 32,
        forall|a: Seq<u8>, b: Seq<u8>| s.view().contains_key(a) && s.view().contains_key(b)
            && #[trigger] sha256_of(a) == #[trigger] sha256_of(b) ==> a == b,
        store_root(s) != Some(other_root),
    ensures
        store_root(s) is Some,
        fold_path(leaf_hash(sha256_of(key), sha256_of(s.view()[key])), sha256_of(key),
            proof_path(store_leaves(s.entries@), sha256_of(key), 0), 0) == store_root(s)->Some_0,
        fold_path(leaf_hash(sha256_of(key), sha256_of(s.view()[key])), sha256_of(key),
            proof_path(store_leaves(s.entries@), sha256_of(key), 0), 0) != other_root,
{
    let leaves = store_leaves(s.entries@);
    let i = choose|i: int| 0 <= i < s.entries@.len() && s.entries@[i].0@ == key;
    assert(s.view()[key] == s.entries@[i].1@);
    assert(leaves[i] == (sha256_of(key), sha256_of(s.view()[key])));
    assert(leaves.contains(leaves[i]));
    assert forall|e: LeafView| #[trigger] leaves.contains(e) implies e.0.len() == 32 by {
        let j = choose|j: int| 0 <= j < leaves.len() && leaves[j] == e;
        assert(e.0 == sha256_of(s.entries@[j].0@));
    }
    assert forall|e: LeafView, f: LeafView| #[trigger] leaves.contains(e) && #[trigger] leaves.contains(f) && e.0 == f.0 implies e == f by {
        let a = choose|a: int| 0 <= a < leaves.len() && leaves[a] == e;
        let b = choose|b: int| 0 <= b < leaves.len() && leaves[b] == f;
        let ka = s.entries@[a].0@;
        let kb = s.entries@[b].0@;
        assert(s.view().contains_key(ka));
        assert(s.view().contains_key(kb));
        assert(sha256_of(ka) == sha256_of(kb));
        assert(ka == kb);
        if a != b {
            if a < b {
                assert(s.entries@[a].0@ != s.entries@[b].0@);
            } else {
                assert(s.entries@[b].0@ != s.entries@[a].0@);
            }
        }
    }
    lemma_merkle_round_trip(leaves, sha256_of(key), sha256_of(s.view()[key]), other_root);
}

} // verus!
