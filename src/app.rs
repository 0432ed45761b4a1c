use vstd::prelude::*;
use crate::chain::{
    config_record, encode_config, genesis_sender, genesis_sender_bytes, has_permission, Addr, BlockInfo, Config, Event, Message,
    Outcome, Tx, TxOutcome,
};
use crate::coin::Coins;
use crate::gas::{GasCosts, GasTracker};
use crate::merkle::{concat_bytes, sha256, sha256_of};
use crate::store::{apply_ops, lemma_apply_concat, bytes_eq, Batch, Buffer, MemStore, Op, StoreMap};

verus! {

/// What a contract call produced: its events and the writes it asks for.
pub struct VmOutput {
    pub events: Vec<Event>,
    pub writes: Batch,
}

/// The contract execution capability. Each call reads the state it is given
/// and hands back its writes; the pipeline decides whether they are kept.
/// Errors are messages that end up in outcomes.
pub trait Vm {
    fn withhold_fee(&self, state: &Buffer<MemStore>, gas: &mut GasTracker, block: &BlockInfo, tx: &Tx) -> Result<VmOutput, String>;

    fn finalize_fee(&self, state: &Buffer<MemStore>, gas: &mut GasTracker, block: &BlockInfo, tx: &Tx, outcome: &Outcome) -> Result<VmOutput, String>;

    fn before_tx(&self, state: &Buffer<MemStore>, gas: &mut GasTracker, block: &BlockInfo, tx: &Tx, simulate: bool) -> Result<VmOutput, String>;

    fn after_tx(&self, state: &Buffer<MemStore>, gas: &mut GasTracker, block: &BlockInfo, tx: &Tx, simulate: bool) -> Result<VmOutput, String>;

    fn transfer(&self, state: &Buffer<MemStore>, gas: &mut GasTracker, block: &BlockInfo, bank: &Addr, from: &Addr, to: &Addr, coins: &Coins) -> Result<VmOutput, String>;

    fn instantiate(&self, state: &Buffer<MemStore>, gas: &mut GasTracker, block: &BlockInfo, contract: &Addr, code_hash: &Vec<u8>, sender: &Addr, msg: &Vec<u8>, funds: &Coins) -> Result<VmOutput, String>;

    fn execute(&self, state: &Buffer<MemStore>, gas: &mut GasTracker, block: &BlockInfo, contract: &Addr, code_hash: &Vec<u8>, sender: &Addr, msg: &Vec<u8>, funds: &Coins) -> Result<VmOutput, String>;

    fn migrate(&self, state: &Buffer<MemStore>, gas: &mut GasTracker, block: &BlockInfo, contract: &Addr, code_hash: &Vec<u8>, sender: &Addr, msg: &Vec<u8>) -> Result<VmOutput, String>;

    fn cron_execute(&self, state: &Buffer<MemStore>, gas: &mut GasTracker, block: &BlockInfo, contract: &Addr) -> Result<VmOutput, String>;

    fn query(&self, state: &MemStore, gas: &mut GasTracker, block: &BlockInfo, contract: &Addr, msg: &Vec<u8>) -> Result<Vec<u8>, String>;
}

/// Namespace byte of uploaded code, keyed by its hash.
pub const CODE_NAMESPACE: u8 = 99;

/// Namespace byte of contract records, keyed by address.
pub const CONTRACT_NAMESPACE: u8 = 97;

/// Namespace byte of the chain identifier.
pub const CHAIN_ID_NAMESPACE: u8 = 105;

/// Namespace byte of the last finalized block.
pub const LAST_BLOCK_NAMESPACE: u8 = 98;

/// Namespace byte of the chain's configuration.
pub const CONFIG_NAMESPACE: u8 = 102;

/// Namespace byte of the cronjob schedule.
pub const SCHEDULE_NAMESPACE: u8 = 110;

pub open spec fn namespaced(tag: u8, rest: Seq<u8>) -> Seq<u8> {
    seq![tag] + rest
}

/// Keys in different namespaces differ.
pub proof fn lemma_namespaces_differ(a: u8, b: u8, x: Seq<u8>, y: Seq<u8>)
    requires
        a != b,
    ensures
        namespaced(a, x) != namespaced(b, y),
{
    assert(namespaced(a, x)[0] == a);
    assert(namespaced(b, y)[0] == b);
}

pub fn namespaced_key(tag: u8, rest: &Vec<u8>) -> (r: Vec<u8>)
    ensures
        r@ == namespaced(tag, rest@),
{
    let mut t: Vec<u8> = Vec::new();
    t.push(tag);
    concat_bytes(&t, rest)
}

/// The stored form of a contract record: a flag for the admin, the 32-byte
/// code hash, then the admin's address where there is one.
pub open spec fn contract_record(code_hash: Seq<u8>, admin: Option<Seq<u8>>) -> Seq<u8> {
    match admin {
        None => seq![0u8] + code_hash,
        Some(a) => seq![1u8] + code_hash + a,
    }
}

pub fn encode_contract(code_hash: &Vec<u8>, admin: &Option<Addr>) -> (r: Vec<u8>)
    ensures
        r@ == contract_record(code_hash@, match admin { Some(a) => Some(a@), None => None }),
{
    let mut t: Vec<u8> = Vec::new();
    match admin {
        None => {
            t.push(0u8);
            concat_bytes(&t, code_hash)
        },
        Some(a) => {
            t.push(1u8);
            let h = concat_bytes(&t, code_hash);
            concat_bytes(&h, a)
        },
    }
}

/// Bytes `from..to` of `v`.
pub fn slice_bytes(v: &Vec<u8>, from: usize, to: usize) -> (r: Vec<u8>)
    requires
        from <= to <= v@.len(),
    ensures
        r@ == v@.subrange(from as int, to as int),
{
    let mut r: Vec<u8> = Vec::new();
    let mut i: usize = from;
    while i < to
        invariant
            from <= i <= to <= v@.len(),
            r@ == v@.subrange(from as int, i as int),
        decreases to - i,
    {
        r.push(v[i]);
        i = i + 1;
        assert(r@ =~= v@.subrange(from as int, i as int));
    }
    r
}

/// Reads a contract record back: its code hash and admin.
pub fn decode_contract(v: &Vec<u8>) -> (r: Option<(Vec<u8>, Option<Addr>)>)
    ensures
        r matches Some((h, a)) ==> h@.len() == 32 && v@ == contract_record(h@, match a { Some(a) => Some(a@), None => None }),
        forall|h: Seq<u8>, a: Option<Seq<u8>>| h.len() == 32 && v@ == contract_record(h, a) ==> r is Some,
{
    if v.len() < 33 {
        proof {
            assert forall|h: Seq<u8>, a: Option<Seq<u8>>| h.len() == 32 && v@ == contract_record(h, a) implies false by {
                assert(contract_record(h, a).len() >= 33);
            }
        }
        return None;
    }
    let h = slice_bytes(v, 1, 33);
    if v[0] == 0u8 && v.len() == 33 {
        assert(v@ =~= seq![0u8] + h@);
        Some((h, None))
    } else if v[0] == 1u8 {
        let a = slice_bytes(v, 33, v.len());
        assert(v@ =~= seq![1u8] + h@ + a@);
        Some((h, Some(a)))
    } else {
        proof {
            assert forall|h2: Seq<u8>, a: Option<Seq<u8>>| h2.len() == 32 && v@ == contract_record(h2, a) implies false by {
                assert(contract_record(h2, a)[0] == v@[0]);
                if a is None {
                    assert(contract_record(h2, a).len() == 33);
                }
            }
        }
        None
    }
}

/// The address of a contract instantiated by `sender` from `code_hash` with
/// `salt`: the first 20 bytes of the hash of the three.
pub open spec fn derived_address(sender: Seq<u8>, code_hash: Seq<u8>, salt: Seq<u8>) -> Seq<u8> {
    sha256_of(sender + code_hash + salt).subrange(0, 20)
}

pub fn derive_address(sender: &Addr, code_hash: &Vec<u8>, salt: &Vec<u8>) -> (r: Addr)
    ensures
        r@ == derived_address(sender@, code_hash@, salt@),
{
    let a = concat_bytes(sender, code_hash);
    let b = concat_bytes(&a, salt);
    let h = sha256(&b);
    slice_bytes(&h, 0, 20)
}

/// The gas charged for a batch of writes: a linear cost in the bytes of
/// each put, a flat one for each delete.
pub open spec fn writes_cost(costs: GasCosts, ops: Seq<(Vec<u8>, Op)>) -> int
    decreases ops.len(),
{
    if ops.len() == 0 {
        0
    } else {
        writes_cost(costs, ops.drop_last()) + op_cost(costs, ops.last())
    }
}

pub open spec fn op_cost(costs: GasCosts, e: (Vec<u8>, Op)) -> int {
    match e.1 {
        Op::Put(v) => if e.0@.len() + v@.len() <= usize::MAX {
            costs.db_write.spec_cost((e.0@.len() + v@.len()) as int)
        } else {
            u64::MAX as int
        },
        Op::Delete => costs.db_remove as int,
    }
}

/// The gas of one write, saturated at `u64::MAX`.
fn write_cost(costs: &GasCosts, e: &(Vec<u8>, Op)) -> (r: u64)
    ensures
        op_cost(*costs, *e) >= 0,
        op_cost(*costs, *e) <= u64::MAX ==> r == op_cost(*costs, *e),
{
    match &e.1 {
        Op::Put(v) => {
            match e.0.len().checked_add(v.len()) {
                Some(items) => {
                    proof {
                        let t = items as int;
                        assert(costs.db_write.per_item * t >= 0) by (nonlinear_arith)
                            requires t >= 0;
                    }
                    match costs.db_write.checked_cost(items) {
                        Some(c) => c,
                        None => u64::MAX,
                    }
                },
                None => u64::MAX,
            }
        },
        Op::Delete => costs.db_remove,
    }
}

/// Charges `gas` for the writes of `batch`; fails when the tracker runs out.
pub fn charge_writes(gas: &mut GasTracker, costs: &GasCosts, batch: &Batch) -> (r: Result<(), String>)
    ensures
        final(gas).limit == old(gas).limit,
        final(gas).used >= old(gas).used,
        r is Ok ==> !final(gas).is_exhausted(),
        r is Ok && writes_cost(*costs, batch.ops@) <= u64::MAX - old(gas).used ==>
            final(gas).used == old(gas).used + writes_cost(*costs, batch.ops@),
        old(gas).limit is None ==> r is Ok,
{
    let mut i: usize = 0;
    let ghost start = gas.used;
    proof {
        lemma_writes_cost_nonneg(*costs, batch.ops@);
    }
    while i < batch.ops.len()
        invariant
            i <= batch.ops@.len(),
            gas.limit == old(gas).limit,
            gas.used >= start,
            start == old(gas).used,
            old(gas).limit is None ==> !gas.is_exhausted(),
            writes_cost(*costs, batch.ops@.subrange(0, i as int)) <= u64::MAX - start ==>
                gas.used == start + writes_cost(*costs, batch.ops@.subrange(0, i as int)),
        decreases batch.ops@.len() - i,
    {
        let cost = write_cost(costs, &batch.ops[i]);
        proof {
            assert(batch.ops@.subrange(0, i + 1).drop_last() =~= batch.ops@.subrange(0, i as int));
            lemma_writes_cost_nonneg(*costs, batch.ops@.subrange(0, i as int));
        }
        match gas.consume(cost) {
            Ok(()) => {},
            Err(_) => {
                return Err(String::from_str("out of gas"));
            },
        }
        i = i + 1;
    }
    proof {
        assert(batch.ops@.subrange(0, batch.ops@.len() as int) =~= batch.ops@);
    }
    if gas.is_exhausted_exec() {
        return Err(String::from_str("out of gas"));
    }
    Ok(())
}

pub proof fn lemma_writes_cost_nonneg(costs: GasCosts, ops: Seq<(Vec<u8>, Op)>)
    ensures
        writes_cost(costs, ops) >= 0,
    decreases ops.len(),
{
    if ops.len() > 0 {
        lemma_writes_cost_nonneg(costs, ops.drop_last());
        let e = ops.last();
        match e.1 {
            Op::Put(v) => {
                let t = (e.0@.len() + v@.len()) as int;
                assert(costs.db_write.per_item * t >= 0) by (nonlinear_arith)
                    requires t >= 0;
            },
            Op::Delete => {},
        }
    }
}

/// Takes in the result of a contract call: on success its writes are
/// charged for and performed on `buf` and its events appended; on failure,
/// or where the gas runs out, nothing is performed.
pub fn absorb(buf: &mut Buffer<MemStore>, gas: &mut GasTracker, costs: &GasCosts, result: Result<VmOutput, String>, events: &mut Vec<Event>) -> (r: Result<(), String>)
    requires
        old(buf).wf(),
    ensures
        final(buf).wf(),
        final(buf).base == old(buf).base,
        final(buf).marks@ == old(buf).marks@,
        final(gas).limit == old(gas).limit,
        r is Err ==> final(buf).pending == old(buf).pending,
        final(buf).extends(&*old(buf)),
        final(gas).used >= old(gas).used,
        r is Ok ==> !final(gas).is_exhausted(),
        old(buf).marks@.len() > 0 ==> final(buf).scope_start_view() == old(buf).scope_start_view(),
        r is Ok ==> result is Ok && final(buf).pending.view() == old(buf).pending.view() + result->Ok_0.writes.view(),
        r is Ok ==> final(events)@ == old(events)@ + result->Ok_0.events@,
        result is Err ==> r == Err::<(), String>(result->Err_0),
        result is Ok && old(gas).limit is None ==> r is Ok,
{
    proof {
        Buffer::lemma_extends_refl(&*buf);
    }
    match result {
        Err(e) => Err(e),
        Ok(out) => {
            let mut out = out;
            match charge_writes(gas, costs, &out.writes) {
                Err(e) => Err(e),
                Ok(()) => {
                    buf.apply(out.writes);
                    events.append(&mut out.events);
                    Ok(())
                },
            }
        },
    }
}

/// Whether `sender` may change the chain's configuration.
pub open spec fn may_configure(cfg: Config, sender: Seq<u8>) -> bool {
    sender == genesis_sender_bytes() || (cfg.owner matches Some(o) && o@ == sender)
}

/// A contract record is stored for `addr`.
pub open spec fn recorded(view: StoreMap, addr: Seq<u8>) -> bool {
    view.contains_key(namespaced(CONTRACT_NAMESPACE, addr))
        && exists|h: Seq<u8>, a: Option<Seq<u8>>| h.len() == 32
            && #[trigger] contract_record(h, a) == view[namespaced(CONTRACT_NAMESPACE, addr)]
}

/// The contract record of `addr` names `admin` as its admin.
pub open spec fn admin_is(view: StoreMap, addr: Seq<u8>, admin: Seq<u8>) -> bool {
    view.contains_key(namespaced(CONTRACT_NAMESPACE, addr))
        && exists|h: Seq<u8>| h.len() == 32
            && #[trigger] contract_record(h, Some(admin)) == view[namespaced(CONTRACT_NAMESPACE, addr)]
}

/// What a message did to the state: its events, and the configuration it
/// set, if it was `Configure`.
pub type MsgResult = Result<(Vec<Event>, Option<Config>), String>;

/// Runs one message of `sender` on `buf`.
///
/// `Configure` stores the new configuration and is allowed only to the owner
/// and the genesis sender; `Upload` stores the code under its hash where the
/// upload permission allows it and the code is new; `Instantiate` and
/// `Migrate` check their permission before any call; the rest is up to the
/// contract calls. A message that fails leaves `buf` as it was.
pub fn process_msg<V: Vm>(vm: &V, buf: &mut Buffer<MemStore>, cfg: &Config, gas: &mut GasTracker, costs: &GasCosts, block: &BlockInfo, sender: &Addr, msg: &Message) -> (r: MsgResult)
    requires
        old(buf).wf(),
    ensures
        final(buf).wf(),
        final(buf).base == old(buf).base,
        final(buf).marks@ == old(buf).marks@,
        final(gas).limit == old(gas).limit,
        r is Err ==> final(buf)@ == old(buf)@,
        final(buf).extends(&*old(buf)),
        final(gas).used >= old(gas).used,
        r matches Ok((_, c)) ==> (c is Some <==> msg is Configure),
        msg is Configure ==> (r is Ok <==> may_configure(*cfg, sender@)),
        msg is Configure && r is Ok ==> final(buf)@
            == old(buf)@.insert(namespaced(CONFIG_NAMESPACE, Seq::empty()), config_record(msg->new_cfg)),
        msg matches Message::Upload { code } ==> {
            &&& !has_permission_spec(cfg.upload_permission, cfg.owner, sender@) ==> r is Err
            &&& r is Ok ==> final(buf)@ == old(buf)@.insert(namespaced(CODE_NAMESPACE, sha256_of(code@)), code@)
                && !old(buf)@.contains_key(namespaced(CODE_NAMESPACE, sha256_of(code@)))
        },
        msg is Instantiate && !has_permission_spec(cfg.instantiate_permission, cfg.owner, sender@) ==> r is Err,
        msg matches Message::Upload { code } && has_permission_spec(cfg.upload_permission, cfg.owner, sender@)
            && !old(buf)@.contains_key(namespaced(CODE_NAMESPACE, sha256_of(code@))) ==> r is Ok,
        msg matches Message::Instantiate { code_hash, salt, .. } ==> (r is Ok ==> (code_hash@.len() == 32
            && old(buf)@.contains_key(namespaced(CODE_NAMESPACE, code_hash@))
            && !old(buf)@.contains_key(namespaced(CONTRACT_NAMESPACE, derived_address(sender@, code_hash@, salt@))))),
        msg matches Message::Execute { contract, .. } ==> (r is Ok ==> recorded(old(buf)@, contract@)),
        msg matches Message::Migrate { contract, new_code_hash, .. } ==> (r is Ok ==> (admin_is(old(buf)@, contract@, sender@)
            && new_code_hash@.len() == 32 && old(buf)@.contains_key(namespaced(CODE_NAMESPACE, new_code_hash@)))),
{
    let ghost start = *buf;
    proof {
        Buffer::lemma_extends_refl(&*buf);
    }
    match msg {
        Message::Configure { new_cfg } => {
            let g = genesis_sender();
            let mut ok = bytes_eq(sender, &g);
            if !ok {
                if let Some(o) = &cfg.owner {
                    ok = bytes_eq(sender, o);
                }
            }
            if ok {
                buf.write(namespaced_key(CONFIG_NAMESPACE, &Vec::new()), encode_config(new_cfg));
                Ok((Vec::new(), Some(new_cfg.clone())))
            } else {
                Err(String::from_str("sender is not the owner"))
            }
        },
        Message::Transfer { to, coins } => {
            let mut events: Vec<Event> = Vec::new();
            let mut g = *gas;
            let out = vm.transfer(buf, &mut g, block, &cfg.bank, sender, to, coins);
            merge_gas(gas, g);
            match absorb(buf, gas, costs, out, &mut events) {
                Ok(()) => Ok((events, None)),
                Err(e) => Err(e),
            }
        },
        Message::Upload { code } => {
            if !has_permission(&cfg.upload_permission, owner_ref(&cfg.owner), sender) {
                return Err(String::from_str("no permission to upload code"));
            }
            let hash = sha256(code);
            let key = namespaced_key(CODE_NAMESPACE, &hash);
            if buf.get(&key).is_some() {
                return Err(String::from_str("code already exists"));
            }
            buf.write(key, code.clone());
            Ok((Vec::new(), None))
        },
        Message::Instantiate { code_hash, msg, salt, funds, admin } => {
            if !has_permission(&cfg.instantiate_permission, owner_ref(&cfg.owner), sender) {
                return Err(String::from_str("no permission to instantiate contract"));
            }
            let code_key = namespaced_key(CODE_NAMESPACE, code_hash);
            if buf.get(&code_key).is_none() || code_hash.len() != 32 {
                return Err(String::from_str("code not found"));
            }
            let address = derive_address(sender, code_hash, salt);
            let key = namespaced_key(CONTRACT_NAMESPACE, &address);
            if buf.get(&key).is_some() {
                return Err(String::from_str("contract already exists"));
            }
            buf.open_scope();
            let ghost opened = *buf;
            buf.write(key, encode_contract(code_hash, admin));
            proof { Buffer::lemma_extends_trans(&start, &opened, &*buf); }
            let mut events: Vec<Event> = Vec::new();
            if !funds.is_empty() {
                let mut g = *gas;
                let out = vm.transfer(buf, &mut g, block, &cfg.bank, sender, &address, funds);
                merge_gas(gas, g);
                let ghost before = *buf;
                let res = absorb(buf, gas, costs, out, &mut events);
                proof { Buffer::lemma_extends_trans(&start, &before, &*buf); }
                if let Err(e) = res {
                    return Err(close_scope(buf, false, Ghost(start), Ghost(opened), e));
                }
            }
            let mut g = *gas;
            let out = vm.instantiate(buf, &mut g, block, &address, code_hash, sender, msg, funds);
            merge_gas(gas, g);
            let ghost before = *buf;
            let res = absorb(buf, gas, costs, out, &mut events);
            proof { Buffer::lemma_extends_trans(&start, &before, &*buf); }
            match res {
                Ok(()) => {
                    close_scope(buf, true, Ghost(start), Ghost(opened), ());
                    Ok((events, None))
                },
                Err(e) => Err(close_scope(buf, false, Ghost(start), Ghost(opened), e)),
            }
        },
        Message::Execute { contract, msg, funds } => {
            let key = namespaced_key(CONTRACT_NAMESPACE, contract);
            let (code_hash, _admin) = match buf.get(&key) {
                Some(v) => match decode_contract(&v) {
                    Some(rec) => rec,
                    None => return Err(String::from_str("malformed contract record")),
                },
                None => return Err(String::from_str("contract not found")),
            };
            buf.open_scope();
            let ghost opened = *buf;
            let mut events: Vec<Event> = Vec::new();
            if !funds.is_empty() {
                let mut g = *gas;
                let out = vm.transfer(buf, &mut g, block, &cfg.bank, sender, contract, funds);
                merge_gas(gas, g);
                let ghost before = *buf;
                let res = absorb(buf, gas, costs, out, &mut events);
                proof { Buffer::lemma_extends_trans(&start, &before, &*buf); }
                if let Err(e) = res {
                    return Err(close_scope(buf, false, Ghost(start), Ghost(opened), e));
                }
            }
            let mut g = *gas;
            let out = vm.execute(buf, &mut g, block, contract, &code_hash, sender, msg, funds);
            merge_gas(gas, g);
            let ghost before = *buf;
            let res = absorb(buf, gas, costs, out, &mut events);
            proof { Buffer::lemma_extends_trans(&start, &before, &*buf); }
            match res {
                Ok(()) => {
                    close_scope(buf, true, Ghost(start), Ghost(opened), ());
                    Ok((events, None))
                },
                Err(e) => Err(close_scope(buf, false, Ghost(start), Ghost(opened), e)),
            }
        },
        Message::Migrate { contract, new_code_hash, msg } => {
            let key = namespaced_key(CONTRACT_NAMESPACE, contract);
            let admin = match buf.get(&key) {
                Some(v) => match decode_contract(&v) {
                    Some((_, admin)) => admin,
                    None => return Err(String::from_str("malformed contract record")),
                },
                None => return Err(String::from_str("contract not found")),
            };
            let is_admin = match &admin {
                Some(a) => bytes_eq(a, sender),
                None => false,
            };
            if !is_admin {
                return Err(String::from_str("sender is not the contract's admin"));
            }
            let code_key = namespaced_key(CODE_NAMESPACE, new_code_hash);
            if buf.get(&code_key).is_none() || new_code_hash.len() != 32 {
                return Err(String::from_str("code not found"));
            }
            buf.open_scope();
            let ghost opened = *buf;
            buf.write(key, encode_contract(new_code_hash, &admin));
            proof { Buffer::lemma_extends_trans(&start, &opened, &*buf); }
            let mut events: Vec<Event> = Vec::new();
            let mut g = *gas;
            let out = vm.migrate(buf, &mut g, block, contract, new_code_hash, sender, msg);
            merge_gas(gas, g);
            let ghost before = *buf;
            let res = absorb(buf, gas, costs, out, &mut events);
            proof { Buffer::lemma_extends_trans(&start, &before, &*buf); }
            match res {
                Ok(()) => {
                    close_scope(buf, true, Ghost(start), Ghost(opened), ());
                    Ok((events, None))
                },
                Err(e) => Err(close_scope(buf, false, Ghost(start), Ghost(opened), e)),
            }
        },
    }
}

/// Closes the scope that was opened on `start`, keeping its writes or
/// dropping them; hands back `value`.
fn close_scope<T>(buf: &mut Buffer<MemStore>, keep: bool, Ghost(start): Ghost<Buffer<MemStore>>, Ghost(opened): Ghost<Buffer<MemStore>>, value: T) -> (r: T)
    requires
        old(buf).wf(),
        start.wf(),
        opened.base == start.base,
        opened.pending == start.pending,
        opened.marks@ == start.marks@.push(start.pending.view().len() as usize),
        opened.scope_start_view() == start@,
        old(buf).extends(&start),
        old(buf).extends(&opened),
        old(buf).marks@.len() == opened.marks@.len(),
    ensures
        r == value,
        final(buf).wf(),
        final(buf).extends(&start),
        final(buf).marks@ == start.marks@,
        !keep ==> final(buf)@ == start@,
{
    let ghost mid = *buf;
    proof {
        Buffer::lemma_extends_views(&opened, &mid);
    }
    if keep {
        buf.commit_scope();
    } else {
        buf.discard_scope();
    }
    proof {
        Buffer::lemma_extends_close(&start, &mid, &*buf);
        assert(buf.marks@ =~= start.marks@);
    }
    value
}

pub open spec fn has_permission_spec(permission: crate::chain::Permission, owner: Option<Addr>, sender: Seq<u8>) -> bool {
    sender == genesis_sender_bytes() || (owner matches Some(o) && o@ == sender)
        || crate::chain::permits(permission, sender)
}

fn owner_ref(owner: &Option<Addr>) -> (r: Option<&Addr>)
    ensures
        match owner {
            Some(o) => r == Some(o),
            None => r is None,
        },
{
    match owner {
        Some(o) => Some(o),
        None => None,
    }
}

/// A scope opened on `start` and discarded reads again as `start`.
proof fn lemma_marks_restored(start: Buffer<MemStore>, now: Buffer<MemStore>, mid: Buffer<MemStore>)
    requires
        mid.marks@ == start.marks@.push(start.pending.view().len() as usize),
        now.marks@ == mid.marks@.drop_last(),
    ensures
        now.marks@ == start.marks@,
{
    assert(now.marks@ =~= start.marks@);
}

/// Keeps the limit of `gas` and takes what a call reports to have used,
/// never less than before.
pub fn merge_gas(gas: &mut GasTracker, after: GasTracker)
    ensures
        final(gas).limit == old(gas).limit,
        final(gas).used == if after.used > old(gas).used { after.used } else { old(gas).used },
{
    if after.used > gas.used {
        gas.used = after.used;
    }
}

/// Runs the message phase of `tx` on `buf`: the sender's `before_tx`, each
/// message in order, then the sender's `after_tx`, stopping at the first
/// error. Returns the events in call order, or the error, and the
/// configuration that a `Configure` message set.
pub fn process_msgs<V: Vm>(vm: &V, buf: &mut Buffer<MemStore>, cfg: &Config, gas: &mut GasTracker, costs: &GasCosts, block: &BlockInfo, tx: &Tx, simulate: bool) -> (r: (Result<Vec<Event>, String>, Option<Config>))
    requires
        old(buf).wf(),
    ensures
        final(buf).wf(),
        final(buf).base == old(buf).base,
        final(buf).marks@ == old(buf).marks@,
        final(gas).limit == old(gas).limit,
        final(gas).used >= old(gas).used,
        final(buf).extends(&*old(buf)),
        r.0 is Ok ==> !final(gas).is_exhausted(),
{
    let ghost start = *buf;
    let mut events: Vec<Event> = Vec::new();
    let mut new_cfg: Option<Config> = None;
    let mut g = *gas;
    let out = vm.before_tx(buf, &mut g, block, tx, simulate);
    merge_gas(gas, g);
    let res = absorb(buf, gas, costs, out, &mut events);
    if let Err(e) = res {
        return (Err(e), None);
    }
    let mut i: usize = 0;
    while i < tx.msgs.len()
        invariant
            buf.wf(),
            buf.base == old(buf).base,
            buf.marks@ == old(buf).marks@,
            gas.limit == old(gas).limit,
            gas.used >= old(gas).used,
            buf.extends(&start),
            start == *old(buf),
        decreases tx.msgs@.len() - i,
    {
        let ghost b0 = *buf;
        let res = match &new_cfg {
            Some(c) => process_msg(vm, buf, c, gas, costs, block, &tx.sender, &tx.msgs[i]),
            None => process_msg(vm, buf, cfg, gas, costs, block, &tx.sender, &tx.msgs[i]),
        };
        proof {
            Buffer::lemma_extends_trans(&start, &b0, &*buf);
        }
        match res {
            Err(e) => return (Err(e), None),
            Ok((evs, c)) => {
                let mut evs = evs;
                events.append(&mut evs);
                if c.is_some() {
                    new_cfg = c;
                }
            },
        }
        i = i + 1;
    }
    let mut g = *gas;
    let out = vm.after_tx(buf, &mut g, block, tx, simulate);
    merge_gas(gas, g);
    let ghost b1 = *buf;
    let res = absorb(buf, gas, costs, out, &mut events);
    proof { Buffer::lemma_extends_trans(&start, &b1, &*buf); }
    if let Err(e) = res {
        return (Err(e), None);
    }
    (Ok(events), new_cfg)
}

/// Runs one transaction on `buf`, in four phases: the taxman withholds the
/// fee (limitless gas); the messages run in a nested scope with the
/// transaction's gas limit, and that scope is dropped if they fail; the
/// taxman finalizes the fee, told how the messages went; the whole is kept
/// only if that last call succeeds.
///
/// A failed withholding ends the transaction with nothing changed and no
/// gas used. A failed finalization drops everything the transaction did.
/// A new configuration takes effect only where everything succeeded.
pub fn process_tx<V: Vm>(vm: &V, buf: &mut Buffer<MemStore>, cfg: &mut Config, costs: &GasCosts, block: &BlockInfo, tx: &Tx, simulate: bool) -> (o: TxOutcome)
    requires
        old(buf).wf(),
    ensures
        final(buf).wf(),
        final(buf).base == old(buf).base,
        final(buf).marks@ == old(buf).marks@,
        o.gas_limit == tx.gas_limit,
        (o.withhold_fee_result matches Some(Err(_))) ==> (o.gas_used == 0 && o.process_msgs_result is None
            && o.finalize_fee_result is None && final(buf)@ == old(buf)@),
        o.withhold_fee_result is None ==> (o.process_msgs_result is None && (o.finalize_fee_result matches Some(Err(_)))
            && final(buf)@ == old(buf)@),
        (o.withhold_fee_result matches Some(Ok(_))) ==> (o.process_msgs_result is Some && (o.finalize_fee_result matches Some(Ok(_)))),
        (o.finalize_fee_result matches Some(Err(_))) ==> o.withhold_fee_result is None,
        (o.process_msgs_result matches Some(Ok(_))) ==> o.gas_used <= tx.gas_limit,
        (o.process_msgs_result matches Some(Err(_))) ==> ((o.withhold_fee_result matches Some(Ok(_)))
            && (o.finalize_fee_result matches Some(Ok(_)))),
        !(o.process_msgs_result matches Some(Ok(_))) ==> *final(cfg) == *old(cfg),
{
    let ghost start = *buf;
    // The taxman runs without a gas limit.
    let mut fee_gas = GasTracker::new_limitless();
    let out = vm.withhold_fee(buf, &mut fee_gas, block, tx);
    let withhold_events = match begin_tx(buf, costs, tx, out) {
        Err(o) => return o,
        Ok(events) => events,
    };
    let ghost fee_scope = *buf;

    // The message phase, in a scope of its own.
    buf.open_scope();
    let ghost msg_open = *buf;
    let mut msg_gas = GasTracker::new_limited(tx.gas_limit);
    let (msgs_result, new_cfg) = process_msgs(vm, buf, cfg, &mut msg_gas, costs, block, tx, simulate);
    proof {
        Buffer::lemma_extends_views(&msg_open, &*buf);
    }
    let msgs_ok = msgs_result.is_ok();
    let ghost before_settle = *buf;
    settle_messages(buf, msgs_ok);
    proof {
        lemma_marks_restored(fee_scope, *buf, before_settle);
    }

    let outcome = message_outcome(tx, &msg_gas, msgs_result);
    let mut fin_gas = GasTracker::new_limitless();
    let out = vm.finalize_fee(buf, &mut fin_gas, block, tx, &outcome);
    let ghost before_finish = *buf;
    let o = finish_tx(buf, costs, tx, withhold_events, outcome, out);
    proof {
        assert(buf.marks@ =~= start.marks@);
    }
    if msgs_ok && o.finalize_fee_result.is_some() && o.withhold_fee_result.is_some() {
        if let Some(c) = new_cfg {
            *cfg = c;
        }
    }
    o
}

/// Takes the taxman's answer to the fee withholding. On failure the
/// transaction ends here: no gas used, only that result, nothing changed.
/// On success a scope is opened for the transaction with the withheld
/// fee's writes in it, and the events are handed back.
pub fn begin_tx(buf: &mut Buffer<MemStore>, costs: &GasCosts, tx: &Tx, withheld: Result<VmOutput, String>) -> (r: Result<Vec<Event>, TxOutcome>)
    requires
        old(buf).wf(),
    ensures
        final(buf).wf(),
        final(buf).base == old(buf).base,
        withheld is Err ==> r == Err::<Vec<Event>, TxOutcome>(TxOutcome {
            gas_limit: tx.gas_limit,
            gas_used: 0,
            withhold_fee_result: Some(Err(withheld->Err_0)),
            process_msgs_result: None,
            finalize_fee_result: None,
        }) && final(buf)@ == old(buf)@ && final(buf).marks@ == old(buf).marks@,
        withheld is Ok ==> (r matches Ok(ev) && ev@ == withheld->Ok_0.events@)
            && final(buf).marks@ == old(buf).marks@.push(old(buf).pending.view().len() as usize)
            && final(buf).pending.view() == old(buf).pending.view() + withheld->Ok_0.writes.view()
            && final(buf).scope_start_view() == old(buf)@
            && final(buf)@ == apply_ops(old(buf)@, withheld->Ok_0.writes.view()),
{
    let ghost start = *buf;
    buf.open_scope();
    let ghost opened = *buf;
    let mut fee_gas = GasTracker::new_limitless();
    let mut events: Vec<Event> = Vec::new();
    match absorb(buf, &mut fee_gas, costs, withheld, &mut events) {
        Err(e) => {
            let ghost mid = *buf;
            buf.discard_scope();
            proof {
                lemma_marks_restored(start, *buf, mid);
                assert(opened.pending.view().take(opened.pending.view().len() as int) =~= opened.pending.view());
            }
            Err(TxOutcome {
                gas_limit: tx.gas_limit,
                gas_used: 0,
                withhold_fee_result: Some(Err(e)),
                process_msgs_result: None,
                finalize_fee_result: None,
            })
        },
        Ok(()) => {
            proof {
                lemma_apply_concat(buf.base.view(), opened.pending.view(), withheld->Ok_0.writes.view());
            }
            Ok(events)
        },
    }
}

/// What the taxman is told of the message phase: the transaction's gas
/// limit, the gas the phase used and its result.
pub fn message_outcome(tx: &Tx, gas: &GasTracker, result: Result<Vec<Event>, String>) -> (o: Outcome)
    ensures
        o == (Outcome { gas_limit: Some(tx.gas_limit), gas_used: gas.used, result }),
{
    Outcome { gas_limit: Some(tx.gas_limit), gas_used: gas.used, result }
}

/// Takes the taxman's answer to the fee finalization and closes the
/// transaction's scope. On failure everything the transaction did is
/// dropped and only that result is kept; on success everything is kept,
/// with the finalization's writes, and every phase's result recorded. The
/// gas used is the message phase's.
pub fn finish_tx(buf: &mut Buffer<MemStore>, costs: &GasCosts, tx: &Tx, withhold_events: Vec<Event>, msgs: Outcome, finalized: Result<VmOutput, String>) -> (o: TxOutcome)
    requires
        old(buf).wf(),
        old(buf).marks@.len() > 0,
    ensures
        final(buf).wf(),
        final(buf).base == old(buf).base,
        final(buf).marks@ == old(buf).marks@.drop_last(),
        finalized is Err ==> o == (TxOutcome {
            gas_limit: tx.gas_limit,
            gas_used: msgs.gas_used,
            withhold_fee_result: None,
            process_msgs_result: None,
            finalize_fee_result: Some(Err(finalized->Err_0)),
        }) && final(buf)@ == old(buf).scope_start_view(),
        finalized is Ok ==> o.gas_limit == tx.gas_limit && o.gas_used == msgs.gas_used
            && o.withhold_fee_result == Some(Ok::<Vec<Event>, String>(withhold_events))
            && o.process_msgs_result == Some(msgs.result)
            && (o.finalize_fee_result matches Some(Ok(ev)) && ev@ == finalized->Ok_0.events@)
            && final(buf).pending.view() == old(buf).pending.view() + finalized->Ok_0.writes.view()
            && final(buf)@ == apply_ops(old(buf)@, finalized->Ok_0.writes.view()),
{
    let ghost start = *buf;
    let mut fee_gas = GasTracker::new_limitless();
    let mut events: Vec<Event> = Vec::new();
    match absorb(buf, &mut fee_gas, costs, finalized, &mut events) {
        Ok(()) => {
            proof {
                lemma_apply_concat(buf.base.view(), start.pending.view(), finalized->Ok_0.writes.view());
            }
            buf.commit_scope();
            TxOutcome {
                gas_limit: tx.gas_limit,
                gas_used: msgs.gas_used,
                withhold_fee_result: Some(Ok(withhold_events)),
                process_msgs_result: Some(msgs.result),
                finalize_fee_result: Some(Ok(events)),
            }
        },
        Err(e) => {
            buf.discard_scope();
            TxOutcome {
                gas_limit: tx.gas_limit,
                gas_used: msgs.gas_used,
                withhold_fee_result: None,
                process_msgs_result: None,
                finalize_fee_result: Some(Err(e)),
            }
        },
    }
}

/// Ends the message scope of a transaction: its writes are kept where the
/// messages succeeded and dropped where they failed, in which case the
/// buffer reads exactly as it did before the first message.
pub fn settle_messages(buf: &mut Buffer<MemStore>, succeeded: bool)
    requires
        old(buf).wf(),
        old(buf).marks@.len() > 0,
    ensures
        final(buf).wf(),
        final(buf).base == old(buf).base,
        final(buf).marks@ == old(buf).marks@.drop_last(),
        succeeded ==> final(buf)@ == old(buf)@,
        !succeeded ==> final(buf)@ == old(buf).scope_start_view(),
        final(buf).marks@.len() > 0 ==> final(buf).scope_start_view() == old(buf).scope_start_view_outer(),
{
    if succeeded {
        buf.commit_scope();
    } else {
        buf.discard_scope();
    }
}

} // verus!
