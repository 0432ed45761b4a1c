use vstd::prelude::*;

verus! {

/// The error of a gas tracker whose consumption went past its limit.
#[derive(Debug, Clone, Copy, PartialEq, Eq, Structural)]
pub enum GasError {
    OutOfGas { limit: u64, used: u64 },
}

/// `a + b`, saturated at `u64::MAX`.
pub open spec fn saturating_sum(a: u64, b: u64) -> u64 {
    if a + b > u64::MAX {
        u64::MAX
    } else {
        (a + b) as u64
    }
}

/// Accounting of the gas consumed by one call, against an optional limit.
///
/// `limit == None` is the limitless mode (genesis and cronjobs). A consumption
/// that takes `used` past `limit` fails, and the tracker stays in that
/// over-limit state so that the caller can still report what was used.
#[derive(Debug, Clone, Copy, PartialEq, Eq, Structural)]
pub struct GasTracker {
    pub limit: Option<u64>,
    pub used: u64,
}

impl GasTracker {
    /// Whether the tracker is past its limit.
    pub open spec fn is_exhausted(&self) -> bool {
        match self.limit {
            Some(l) => self.used > l,
            None => false,
        }
    }

    pub fn new_limitless() -> (r: GasTracker)
        ensures
            r.limit is None,
            r.used == 0,
    {
        GasTracker { limit: None, used: 0 }
    }

    pub fn new_limited(limit: u64) -> (r: GasTracker)
        ensures
            r.limit == Some(limit),
            r.used == 0,
    {
        GasTracker { limit: Some(limit), used: 0 }
    }

    pub fn is_exhausted_exec(&self) -> (r: bool)
        ensures
            r == self.is_exhausted(),
    {
        match self.limit {
            Some(l) => self.used > l,
            None => false,
        }
    }

    pub fn limit(&self) -> (r: Option<u64>)
        ensures
            r == self.limit,
    {
        self.limit
    }

    pub fn used(&self) -> (r: u64)
        ensures
            r == self.used,
    {
        self.used
    }

    /// The gas that can still be consumed; `None` in limitless mode.
    pub fn remaining(&self) -> (r: Option<u64>)
        ensures
            match self.limit {
                None => r is None,
                Some(l) => r == Some(if self.used >= l { 0 } else { (l - self.used) as u64 }),
            },
    {
        match self.limit {
            None => None,
            Some(l) => {
                if self.used >= l {
                    Some(0)
                } else {
                    Some(l - self.used)
                }
            },
        }
    }

    /// Records the consumption of `amount` gas.
    ///
    /// `used` always grows by `amount` (saturating at `u64::MAX`); the call
    /// fails exactly when the tracker is limited and the new total exceeds
    /// the limit.
    pub fn consume(&mut self, amount: u64) -> (r: Result<(), GasError>)
        ensures
            final(self).limit == old(self).limit,
            final(self).used == saturating_sum(old(self).used, amount),
            r is Ok <==> !final(self).is_exhausted(),
            r matches Err(GasError::OutOfGas { limit, used }) ==> old(self).limit == Some(limit)
                && used == final(self).used,
    {
        let used = self.used.saturating_add(amount);
        self.used = used;
        match self.limit {
            Some(limit) => {
                if used > limit {
                    Err(GasError::OutOfGas { limit, used })
                } else {
                    Ok(())
                }
            },
            None => Ok(()),
        }
    }
}

/// A cost of the form `base + per_item * items`.
#[derive(Debug, Clone, Copy, PartialEq, Eq, Structural)]
pub struct LinearGasCost {
    pub base: u64,
    pub per_item: u64,
}

impl LinearGasCost {
    pub open spec fn spec_cost(&self, items: int) -> int {
        self.base + self.per_item * items
    }

    pub fn new(base: u64, per_item: u64) -> (r: LinearGasCost)
        ensures
            r.base == base,
            r.per_item == per_item,
    {
        LinearGasCost { base, per_item }
    }

    /// The cost of `items` items; the sum must fit in a `u64`.
    pub fn cost(&self, items: usize) -> (r: u64)
        requires
            self.spec_cost(items as int) <= u64::MAX,
        ensures
            r == self.spec_cost(items as int),
    {
        proof {
            assert(self.per_item * (items as int) <= self.spec_cost(items as int)) by (nonlinear_arith)
                requires
                    self.spec_cost(items as int) == self.base + self.per_item * (items as int),
                    self.base >= 0,
            ;
        }
        self.base + self.per_item * items as u64
    }

    /// The cost of `items` items, or `None` where it does not fit in a `u64`.
    pub fn checked_cost(&self, items: usize) -> (r: Option<u64>)
        ensures
            r is Some <==> self.spec_cost(items as int) <= u64::MAX,
            r matches Some(c) ==> c == self.spec_cost(items as int),
    {
        match self.per_item.checked_mul(items as u64) {
            None => {
                proof {
                    assert(self.per_item * (items as int) <= self.spec_cost(items as int)) by (nonlinear_arith)
                        requires
                            self.spec_cost(items as int) == self.base + self.per_item * (items as int),
                            self.base >= 0,
                    ;
                }
                None
            },
            Some(p) => self.base.checked_add(p),
        }
    }
}

/// The gas charged for each chargeable primitive: storage access, signature
/// verification and hashing (per byte).
#[derive(Debug, Clone, Copy, PartialEq, Eq, Structural)]
pub struct GasCosts {
    pub db_read: LinearGasCost,
    pub db_scan: u64,
    pub db_next: u64,
    pub db_write: LinearGasCost,
    pub db_remove: u64,
    pub secp256r1_verify: u64,
    pub secp256k1_verify: u64,
    pub secp256k1_pubkey_recover: u64,
    pub ed25519_verify: u64,
    pub ed25519_batch_verify: LinearGasCost,
    pub sha2_256: LinearGasCost,
    pub sha2_512: LinearGasCost,
    pub sha2_512_truncated: LinearGasCost,
    pub sha3_256: LinearGasCost,
    pub sha3_512: LinearGasCost,
    pub sha3_512_truncated: LinearGasCost,
    pub keccak256: LinearGasCost,
    pub blake2s_256: LinearGasCost,
    pub blake2b_512: LinearGasCost,
    pub blake3: LinearGasCost,
}

impl GasCosts {
    /// The schedule the chain charges by.
    pub fn standard() -> (r: GasCosts)
        ensures
            r.db_read == (LinearGasCost { base: 588, per_item: 2 }),
            r.db_write == (LinearGasCost { base: 1176, per_item: 18 }),
            r.ed25519_batch_verify == (LinearGasCost { base: 1_340_000, per_item: 188_000 }),
            r.sha2_256 == (LinearGasCost { base: 0, per_item: 27 }),
    {
        GasCosts {
            db_read: LinearGasCost::new(588, 2),
            db_scan: 588,
            db_next: 18,
            db_write: LinearGasCost::new(1176, 18),
            db_remove: 588,
            secp256r1_verify: 1_880_000,
            secp256k1_verify: 770_000,
            secp256k1_pubkey_recover: 1_580_000,
            ed25519_verify: 410_000,
            ed25519_batch_verify: LinearGasCost::new(1_340_000, 188_000),
            sha2_256: LinearGasCost::new(0, 27),
            sha2_512: LinearGasCost::new(0, 16),
            sha2_512_truncated: LinearGasCost::new(0, 16),
            sha3_256: LinearGasCost::new(0, 15),
            sha3_512: LinearGasCost::new(0, 28),
            sha3_512_truncated: LinearGasCost::new(0, 28),
            keccak256: LinearGasCost::new(0, 15),
            blake2s_256: LinearGasCost::new(0, 15),
            blake2b_512: LinearGasCost::new(0, 9),
            blake3: LinearGasCost::new(0, 5),
        }
    }
}

} // verus!
