use vstd::prelude::*;
use crate::app::{
    SCHEDULE_NAMESPACE, VmOutput, lemma_namespaces_differ, CONFIG_NAMESPACE, contract_record, slice_bytes, LAST_BLOCK_NAMESPACE, absorb, merge_gas, decode_contract, namespaced, namespaced_key, process_msg, process_tx, Vm, CHAIN_ID_NAMESPACE,
    CODE_NAMESPACE, CONTRACT_NAMESPACE,
};
use crate::chain::{encode_schedule, schedule_record, config_record, block_record, decode_block, encode_block, encode_config, genesis_sender, Addr, BlockInfo, BlockOutcome, Config, Event, Message, Outcome, Tx, TxOutcome};
use crate::db::{proves, store_root, DbError, MemDb};
use crate::gas::{GasCosts, GasTracker};
use crate::merkle::{Hash256, MerkleProof};
use crate::store::{addr_less, bytes_eq, bytes_lt, in_bounds, opt_view, Buffer, MemStore};

verus! {

/// Jobs are in ascending order of time.
pub open spec fn times_sorted(s: Seq<(u64, Addr)>) -> bool {
    forall|i: int, j: int| 0 <= i < j < s.len() ==> (#[trigger] s[i]).0 <= (#[trigger] s[j]).0
}

pub open spec fn sched_view(s: Seq<(u64, Addr)>) -> Seq<(u64, Seq<u8>)> {
    s.map_values(|e: (u64, Addr)| (e.0, e.1@))
}

/// `a + b`, saturated at `u64::MAX`.
pub open spec fn time_after(a: u64, b: u64) -> u64 {
    if a + b > u64::MAX { u64::MAX } else { (a + b) as u64 }
}

/// Schedules `contract` at `current_time + interval`, after the jobs due
/// earlier and, at the same time, in order of address.
pub fn schedule_cronjob(schedule: &mut Vec<(u64, Addr)>, contract: Addr, current_time: u64, interval: u64)
    requires
        times_sorted(old(schedule)@),
    ensures
        times_sorted(final(schedule)@),
        exists|i: int| 0 <= i <= old(schedule)@.len()
            && sched_view(final(schedule)@) == sched_view(old(schedule)@).insert(i, (time_after(current_time, interval), contract@)),
{
    let t = current_time.saturating_add(interval);
    let mut i: usize = 0;
    while i < schedule.len() && (schedule[i].0 < t || (schedule[i].0 == t && !addr_less(&contract, &schedule[i].1)))
        invariant
            i <= schedule@.len(),
            schedule@ == old(schedule)@,
            forall|j: int| 0 <= j < i ==> (#[trigger] schedule@[j]).0 <= t,
        decreases schedule@.len() - i,
    {
        i = i + 1;
    }
    let ghost c = contract@;
    let ghost before = schedule@;
    schedule.insert(i, (t, contract));
    proof {
        let s = schedule@;
        assert(s == before.insert(i as int, (t, s[i as int].1)));
        assert forall|x: int, y: int| 0 <= x < y < s.len() implies (#[trigger] s[x]).0 <= (#[trigger] s[y]).0 by {
            if y < i {
                assert(s[x] == before[x]);
                assert(s[y] == before[y]);
            } else if x < i && y == i {
            } else if x < i && y > i {
                assert(s[y] == before[y - 1]);
                if i < before.len() {
                    assert(before[i as int].0 >= t);
                    assert(before[i as int].0 <= before[y - 1].0);
                }
            } else if x == i {
                assert(s[y] == before[y - 1]);
                assert(before[i as int].0 >= t);
                if y - 1 > i {
                    assert(before[i as int].0 <= before[y - 1].0);
                }
            } else {
                assert(s[x] == before[x - 1]);
                assert(s[y] == before[y - 1]);
            }
        }
        assert(sched_view(s) =~= sched_view(before).insert(i as int, (time_after(current_time, interval), c)));
    }
}

/// Takes out the jobs due at `now`: they are the first ones, since the
/// schedule is in order of time.
pub fn take_due(schedule: &mut Vec<(u64, Addr)>, now: u64) -> (due: Vec<(u64, Addr)>)
    requires
        times_sorted(old(schedule)@),
    ensures
        times_sorted(final(schedule)@),
        times_sorted(due@),
        due@ + final(schedule)@ == old(schedule)@,
        forall|i: int| 0 <= i < due@.len() ==> (#[trigger] due@[i]).0 <= now,
        forall|i: int| 0 <= i < final(schedule)@.len() ==> (#[trigger] final(schedule)@[i]).0 > now,
{
    let mut k: usize = 0;
    while k < schedule.len() && schedule[k].0 <= now
        invariant
            k <= schedule@.len(),
            schedule@ == old(schedule)@,
            forall|j: int| 0 <= j < k ==> (#[trigger] schedule@[j]).0 <= now,
        decreases schedule@.len() - k,
    {
        k = k + 1;
    }
    let mut rest = schedule.split_off(k);
    std::mem::swap(schedule, &mut rest);
    proof {
        assert(rest@ + schedule@ =~= old(schedule)@);
        assert forall|i: int| 0 <= i < schedule@.len() implies (#[trigger] schedule@[i]).0 > now by {
            if k < old(schedule)@.len() {
                assert(old(schedule)@[k as int].0 > now);
                assert(schedule@[i] == old(schedule)@[k + i]);
                if i > 0 {
                    assert(old(schedule)@[k as int].0 <= old(schedule)@[k + i].0);
                }
            }
        }
        assert forall|x: int, y: int| 0 <= x < y < rest@.len() implies (#[trigger] rest@[x]).0 <= (#[trigger] rest@[y]).0 by {
            assert(rest@[x] == old(schedule)@[x]);
            assert(rest@[y] == old(schedule)@[y]);
        }
        assert forall|x: int, y: int| 0 <= x < y < schedule@.len() implies (#[trigger] schedule@[x]).0 <= (#[trigger] schedule@[y]).0 by {
            assert(schedule@[x] == old(schedule)@[k + x]);
            assert(schedule@[y] == old(schedule)@[k + y]);
        }
    }
    rest
}

/// The interval of the first cronjob entry for `a`, if there is one.
pub open spec fn interval_spec(jobs: Seq<(Addr, u64)>, a: Seq<u8>) -> Option<u64>
    decreases jobs.len(),
{
    if jobs.len() == 0 {
        None
    } else if jobs[0].0@ == a {
        Some(jobs[0].1)
    } else {
        interval_spec(jobs.drop_first(), a)
    }
}

/// The interval configured for `contract`, if it is a cronjob.
pub fn interval_of(cfg: &Config, contract: &Addr) -> (r: Option<u64>)
    ensures
        r == interval_spec(cfg.cronjobs@, contract@),
{
    let ghost jobs = cfg.cronjobs@;
    let mut i: usize = 0;
    proof {
        assert(jobs.subrange(0, jobs.len() as int) =~= jobs);
    }
    while i < cfg.cronjobs.len()
        invariant
            i <= jobs.len(),
            jobs == cfg.cronjobs@,
            interval_spec(jobs, contract@) == interval_spec(jobs.subrange(i as int, jobs.len() as int), contract@),
        decreases jobs.len() - i,
    {
        let ghost rest = jobs.subrange(i as int, jobs.len() as int);
        assert(rest[0] == jobs[i as int]);
        assert(rest.drop_first() =~= jobs.subrange(i + 1, jobs.len() as int));
        if bytes_eq(&cfg.cronjobs[i].0, contract) {
            return Some(cfg.cronjobs[i].1);
        }
        i = i + 1;
    }
    None
}

/// `e` is a due job of `due[..i]` scheduled again: at `now` plus its interval.
pub open spec fn rescheduled(due: Seq<(u64, Addr)>, jobs: Seq<(Addr, u64)>, now: u64, i: int, e: (u64, Seq<u8>)) -> bool {
    exists|j: int| 0 <= j < i && (#[trigger] interval_spec(jobs, due[j].1@)) is Some
        && e == (time_after(now, interval_spec(jobs, due[j].1@)->Some_0), due[j].1@)
}

proof fn lemma_insert_contains(v: Seq<(u64, Seq<u8>)>, w: Seq<(u64, Seq<u8>)>, pos: int, x: (u64, Seq<u8>))
    requires
        0 <= pos <= v.len(),
        w == v.insert(pos, x),
    ensures
        forall|e: (u64, Seq<u8>)| #[trigger] w.contains(e) <==> (v.contains(e) || e == x),
{
    assert forall|e: (u64, Seq<u8>)| #[trigger] w.contains(e) <==> (v.contains(e) || e == x) by {
        if w.contains(e) {
            let k = choose|k: int| 0 <= k < w.len() && w[k] == e;
            if k < pos {
                assert(v[k] == e);
            } else if k > pos {
                assert(v[k - 1] == e);
            }
        }
        if v.contains(e) {
            let k = choose|k: int| 0 <= k < v.len() && v[k] == e;
            if k < pos {
                assert(w[k] == e);
            } else {
                assert(w[k + 1] == e);
            }
        }
        if e == x {
            assert(w[pos] == e);
        }
    }
}

/// Runs the cronjobs due at the block's time, in order of time, each with
/// unlimited gas and in a scope of its own (its writes dropped if it
/// fails), and schedules each again at the block's time plus its interval.
/// Afterwards the schedule holds exactly the jobs that were not due and the
/// due jobs scheduled again; there is one outcome per due job.
pub fn run_cronjobs<V: Vm>(vm: &V, buf: &mut Buffer<MemStore>, schedule: &mut Vec<(u64, Addr)>, cfg: &Config, costs: &GasCosts, block: &BlockInfo) -> (outs: Vec<Outcome>)
    requires
        old(buf).wf(),
        old(buf).marks@.len() == 0,
        times_sorted(old(schedule)@),
    ensures
        final(buf).wf(),
        final(buf).base == old(buf).base,
        final(buf).marks@.len() == 0,
        times_sorted(final(schedule)@),
        forall|i: int| 0 <= i < outs@.len() ==> (#[trigger] outs@[i]).gas_limit is None,
        0 <= outs@.len() <= old(schedule)@.len(),
        forall|i: int| 0 <= i < outs@.len() ==> (#[trigger] old(schedule)@[i]).0 <= block.timestamp,
        forall|i: int| outs@.len() <= i < old(schedule)@.len() ==> (#[trigger] old(schedule)@[i]).0 > block.timestamp,
        forall|e: (u64, Seq<u8>)| #[trigger] sched_view(final(schedule)@).contains(e) <==> (
            sched_view(old(schedule)@.skip(outs@.len() as int)).contains(e)
            || rescheduled(old(schedule)@, cfg.cronjobs@, block.timestamp, outs@.len() as int, e)),
{
    let ghost old_sched = schedule@;
    let due = take_due(schedule, block.timestamp);
    let ghost k = due@.len();
    proof {
        assert(schedule@ =~= old_sched.skip(k as int));
        assert forall|j: int| 0 <= j < k implies due@[j] == old_sched[j] by {
            assert((due@ + schedule@)[j] == due@[j]);
        }
        assert forall|j: int| k <= j < old_sched.len() implies old_sched[j] == schedule@[j - k] by {
            assert((due@ + schedule@)[j] == schedule@[j - k]);
        }
        assert forall|j: int| k <= j < old_sched.len() implies (#[trigger] old_sched[j]).0 > block.timestamp by {
            assert(old_sched[j] == schedule@[j - k]);
        }
        assert forall|j: int| 0 <= j < k implies (#[trigger] old_sched[j]).0 <= block.timestamp by {
            assert(due@[j] == old_sched[j]);
        }
    }
    let mut outs: Vec<Outcome> = Vec::new();
    let mut i: usize = 0;
    while i < due.len()
        invariant
            buf.wf(),
            buf.base == old(buf).base,
            buf.marks@.len() == 0,
            times_sorted(schedule@),
            i <= due@.len(),
            k == due@.len(),
            outs@.len() == i,
            forall|x: int| 0 <= x < outs@.len() ==> (#[trigger] outs@[x]).gas_limit is None,
            forall|j: int| 0 <= j < k ==> due@[j] == old_sched[j],
            k <= old_sched.len(),
            old_sched == old(schedule)@,
            forall|j: int| k <= j < old_sched.len() ==> (#[trigger] old_sched[j]).0 > block.timestamp,
            forall|j: int| 0 <= j < k ==> (#[trigger] old_sched[j]).0 <= block.timestamp,
            forall|e: (u64, Seq<u8>)| #[trigger] sched_view(schedule@).contains(e) <==> (
                sched_view(old_sched.skip(k as int)).contains(e)
                || rescheduled(old_sched, cfg.cronjobs@, block.timestamp, i as int, e)),
        decreases due@.len() - i,
    {
        let contract = &due[i].1;
        buf.open_scope();
        let mut gas = GasTracker::new_limitless();
        let mut g = gas;
        let out = vm.cron_execute(buf, &mut g, block, contract);
        merge_gas(&mut gas, g);
        let mut events: Vec<Event> = Vec::new();
        let res = absorb(buf, &mut gas, costs, out, &mut events);
        let result = match res {
            Ok(()) => {
                buf.commit_scope();
                Ok(events)
            },
            Err(e) => {
                buf.discard_scope();
                Err(e)
            },
        };
        proof {
            assert(buf.marks@.len() == 0);
        }
        outs.push(Outcome { gas_limit: None, gas_used: gas.used, result });
        let ghost before = sched_view(schedule@);
        let iv = interval_of(cfg, contract);
        if let Some(interval) = iv {
            schedule_cronjob(schedule, contract.clone(), block.timestamp, interval);
            proof {
                let x = (time_after(block.timestamp, interval), contract@);
                let pos = choose|p: int| 0 <= p <= before.len() && sched_view(schedule@) == before.insert(p, x);
                lemma_insert_contains(before, sched_view(schedule@), pos, x);
            }
        }
        proof {
            assert(due@[i as int] == old_sched[i as int]);
            assert forall|e: (u64, Seq<u8>)| #[trigger] sched_view(schedule@).contains(e) <==> (
                sched_view(old_sched.skip(k as int)).contains(e)
                || rescheduled(old_sched, cfg.cronjobs@, block.timestamp, i + 1, e)) by {
                if rescheduled(old_sched, cfg.cronjobs@, block.timestamp, i + 1, e)
                    && !rescheduled(old_sched, cfg.cronjobs@, block.timestamp, i as int, e) {
                    let j = choose|j: int| 0 <= j < i + 1 && (#[trigger] interval_spec(cfg.cronjobs@, old_sched[j].1@)) is Some
                        && e == (time_after(block.timestamp, interval_spec(cfg.cronjobs@, old_sched[j].1@)->Some_0), old_sched[j].1@);
                    assert(j == i);
                }
                if rescheduled(old_sched, cfg.cronjobs@, block.timestamp, i as int, e) {
                    let j = choose|j: int| 0 <= j < i && (#[trigger] interval_spec(cfg.cronjobs@, old_sched[j].1@)) is Some
                        && e == (time_after(block.timestamp, interval_spec(cfg.cronjobs@, old_sched[j].1@)->Some_0), old_sched[j].1@);
                    assert(0 <= j < i + 1);
                }
                if iv is Some {
                    let t = iv->Some_0;
                    if e == (time_after(block.timestamp, t), contract@) {
                        assert(interval_spec(cfg.cronjobs@, old_sched[i as int].1@) == Some(t));
                    }
                }
            }
        }
        i = i + 1;
    }
    outs
}

/// The error of an application call.
#[derive(Debug, Clone, PartialEq, Eq)]
pub enum AppError {
    /// A block whose height is not the one after the last finalized block
    /// (zero at genesis).
    IncorrectBlockHeight { expect: u64, actual: u64 },
    /// A call that needs the chain to have started.
    NotInitialized,
    /// Genesis on a chain that has started.
    AlreadyInitialized,
    /// A Merkle proof of something that cannot be proved.
    ProofNotSupported,
    /// A simulation at a height other than the latest.
    PastHeightNotSupported,
    /// A genesis message that failed.
    Genesis(String),
    /// A stored item that was asked for and is not there.
    NotFound,
    /// Too many versions for the version counter.
    VersionLimit,
    Db(DbError),
    Vm(String),
}

/// The chain's own state beside the store: its identifier, configuration,
/// last finalized block and cronjob schedule.
pub struct ChainState {
    pub chain_id: String,
    pub config: Config,
    pub last_block: BlockInfo,
    pub cronjobs: Vec<(u64, Addr)>,
}

/// A query of the application state.
pub enum QueryRequest {
    /// The code stored under a hash.
    Code { hash: Vec<u8> },
    /// The code hash and admin of a contract.
    Contract { address: Addr },
    /// A contract's own query entry point.
    WasmSmart { contract: Addr, msg: Vec<u8> },
    /// Contracts in order of address, after `start_after`, at most `limit`.
    Contracts { start_after: Option<Addr>, limit: u32 },
    /// The chain's identifier and its last finalized block, as stored.
    Info,
}

#[derive(Debug)]
pub enum QueryResponse {
    Code(Vec<u8>),
    Contract { code_hash: Vec<u8>, admin: Option<Addr> },
    WasmSmart(Vec<u8>),
    Contracts(Vec<(Addr, Vec<u8>, Option<Addr>)>),
    Info { chain_id: Vec<u8>, last_block: BlockInfo },
}

/// A key between `[tag]` and `[tag + 1]` is `tag` followed by the rest.
proof fn lemma_key_in_namespace(k: Seq<u8>, tag: u8)
    requires
        tag < 255,
        !bytes_lt(k, seq![tag]),
        bytes_lt(k, seq![(tag + 1) as u8]),
    ensures
        k.len() >= 1,
        k == namespaced(tag, k.subrange(1, k.len() as int)),
{
    let t = seq![tag];
    let u = seq![(tag + 1) as u8];
    if k.len() == 0 {
        assert(bytes_lt(k, t));
    }
    if k[0] < tag {
        assert(bytes_lt(k, t));
    } else if k[0] == (tag + 1) as u8 {
        assert(u.drop_first().len() == 0);
        assert(!bytes_lt(k.drop_first(), u.drop_first()));
        assert(!bytes_lt(k, u));
    } else if k[0] > (tag + 1) as u8 {
        assert(!bytes_lt(k, u));
    }
    assert(k[0] == tag);
    assert(k =~= namespaced(tag, k.subrange(1, k.len() as int)));
}

/// The contracts recorded in `storage` whose addresses come after
/// `start_after`, in order of address, at most `limit` of them.
fn list_contracts(storage: &MemStore, start_after: &Option<Addr>, limit: u32) -> (r: Vec<(Addr, Vec<u8>, Option<Addr>)>)
    requires
        storage.wf(),
    ensures
        r@.len() <= limit,
        forall|i: int| 0 <= i < r@.len() ==> (#[trigger] r@[i]).1@.len() == 32
            && storage.view().contains_key(namespaced(CONTRACT_NAMESPACE, r@[i].0@))
            && storage.view()[namespaced(CONTRACT_NAMESPACE, r@[i].0@)]
                == contract_record(r@[i].1@, match r@[i].2 { Some(a) => Some(a@), None => None }),
{
    let lo = match start_after {
        Some(a) => {
            let mut k = namespaced_key(CONTRACT_NAMESPACE, a);
            k.push(0u8);
            k
        },
        None => namespaced_key(CONTRACT_NAMESPACE, &Vec::new()),
    };
    assert(lo@.len() >= 1 && lo@[0] == CONTRACT_NAMESPACE);
    let hi = namespaced_key(CONTRACT_NAMESPACE + 1, &Vec::new());
    let buf = Buffer::new(storage);
    let entries = buf.scan(Some(&lo), Some(&hi), true);
    let mut out: Vec<(Addr, Vec<u8>, Option<Addr>)> = Vec::new();
    let mut i: usize = 0;
    while i < entries.len() && out.len() < limit as usize
        invariant
            storage.wf(),
            buf.wf(),
            buf.base == storage,
            buf.pending.view().len() == 0,
            i <= entries@.len(),
            out@.len() <= limit,
            hi@ == seq![(CONTRACT_NAMESPACE + 1) as u8],
            lo@.len() >= 1 && lo@[0] == CONTRACT_NAMESPACE,
            forall|x: int| 0 <= x < entries@.len() ==> {
                &&& buf.view().contains_key((#[trigger] entries@[x]).0@)
                &&& buf.view()[entries@[x].0@] == entries@[x].1@
                &&& in_bounds(entries@[x].0@, opt_view(Some(&lo)), opt_view(Some(&hi)))
            },
            forall|x: int| 0 <= x < out@.len() ==> (#[trigger] out@[x]).1@.len() == 32
                && storage.view().contains_key(namespaced(CONTRACT_NAMESPACE, out@[x].0@))
                && storage.view()[namespaced(CONTRACT_NAMESPACE, out@[x].0@)]
                    == contract_record(out@[x].1@, match out@[x].2 { Some(a) => Some(a@), None => None }),
        decreases entries@.len() - i,
    {
        let key = &entries[i].0;
        proof {
            assert(buf.view() == storage.view());
            let k = key@;
            assert(hi@ =~= seq![(CONTRACT_NAMESPACE + 1) as u8]);
            lemma_bytes_lt_prefix_floor(k, lo@, CONTRACT_NAMESPACE);
            lemma_key_in_namespace(k, CONTRACT_NAMESPACE);
        }
        let addr = slice_bytes(key, 1, key.len());
        match decode_contract(&entries[i].1) {
            Some((code_hash, admin)) => {
                out.push((addr, code_hash, admin));
            },
            None => {},
        }
        i = i + 1;
    }
    out
}

/// A key not below a bound that starts with `tag` is not below `[tag]`.
proof fn lemma_bytes_lt_prefix_floor(k: Seq<u8>, lo: Seq<u8>, tag: u8)
    requires
        lo.len() >= 1,
        lo[0] == tag,
        !bytes_lt(k, lo),
    ensures
        !bytes_lt(k, seq![tag]),
{
    let t = seq![tag];
    if k.len() == 0 {
        assert(bytes_lt(k, lo));
    } else if k[0] == tag {
        assert(t.drop_first().len() == 0);
        assert(!bytes_lt(k.drop_first(), t.drop_first()));
        assert(!bytes_lt(k, t));
    } else if k[0] < tag {
        assert(bytes_lt(k, lo));
    } else {
        assert(t[0] == tag);
        assert(!bytes_lt(k, t));
    }
}

/// The outcome of pre-validating `tx`: its gas limit, the gas the sender's
/// `before_tx` used, and that call's events or error. Its writes are not
/// kept.
pub fn check_outcome(tx: &Tx, gas: &GasTracker, out: Result<VmOutput, String>) -> (o: Outcome)
    ensures
        o.gas_limit == Some(tx.gas_limit),
        o.gas_used == gas.used,
        out is Err ==> o.result == Err::<Vec<Event>, String>(out->Err_0),
        out is Ok ==> o.result == Ok::<Vec<Event>, String>(out->Ok_0.events),
{
    let result = match out {
        Ok(v) => Ok(v.events),
        Err(e) => Err(e),
    };
    Outcome { gas_limit: Some(tx.gas_limit), gas_used: gas.used, result }
}

/// What the answer to `req` on `storage` is owed to be, apart from what a
/// contract's own query decides: each request is answered with its own kind
/// of response; code and contract records are read as stored; a listing of
/// contracts always succeeds.
pub open spec fn query_answered(req: QueryRequest, storage: MemStore, r: Result<QueryResponse, AppError>) -> bool {
    &&& r matches Ok(resp) ==> ((req is Code <==> resp is Code) && (req is Contract <==> resp is Contract)
        && (req is WasmSmart <==> resp is WasmSmart) && (req is Contracts <==> resp is Contracts)
        && (req is Info <==> resp is Info))
    &&& req matches QueryRequest::Code { hash } ==> (r is Ok <==> storage.view().contains_key(namespaced(CODE_NAMESPACE, hash@)))
    &&& req matches QueryRequest::Contract { address } ==> (r is Ok <==> (
        storage.view().contains_key(namespaced(CONTRACT_NAMESPACE, address@))
        && exists|h: Seq<u8>, a: Option<Seq<u8>>| h.len() == 32
            && #[trigger] contract_record(h, a) == storage.view()[namespaced(CONTRACT_NAMESPACE, address@)]))
    &&& (r matches Ok(QueryResponse::Contract { code_hash, admin }) ==> req is Contract
        && storage.view()[namespaced(CONTRACT_NAMESPACE, req->address@)]
            == contract_record(code_hash@, match admin { Some(a) => Some(a@), None => None }))
    &&& req is Contracts ==> r is Ok
    &&& req is Info ==> (r is Ok <==> (storage.view().contains_key(namespaced(CHAIN_ID_NAMESPACE, Seq::empty()))
        && storage.view().contains_key(namespaced(LAST_BLOCK_NAMESPACE, Seq::empty()))
        && storage.view()[namespaced(LAST_BLOCK_NAMESPACE, Seq::empty())].len() >= 16))
    &&& (r matches Ok(QueryResponse::Info { chain_id, last_block }) ==> req is Info
        && chain_id@ == storage.view()[namespaced(CHAIN_ID_NAMESPACE, Seq::empty())]
        && block_record(last_block) == storage.view()[namespaced(LAST_BLOCK_NAMESPACE, Seq::empty())])
}

/// Answers a query on a committed state, within the query gas limit.
pub fn process_query<V: Vm>(vm: &V, storage: &MemStore, gas: &mut GasTracker, block: &BlockInfo, req: &QueryRequest) -> (r: Result<QueryResponse, AppError>)
    requires
        storage.wf(),
    ensures
        req matches QueryRequest::Code { hash } ==> (r is Ok <==> storage.view().contains_key(namespaced(CODE_NAMESPACE, hash@))),
        r matches Ok(QueryResponse::Code(c)) ==> req matches QueryRequest::Code { hash } && c@ == storage.view()[namespaced(CODE_NAMESPACE, hash@)],
        query_answered(*req, *storage, r),
{
    match req {
        QueryRequest::Code { hash } => {
            match storage.get(&namespaced_key(CODE_NAMESPACE, hash)) {
                Some(code) => Ok(QueryResponse::Code(code)),
                None => Err(AppError::NotFound),
            }
        },
        QueryRequest::Contract { address } => {
            match storage.get(&namespaced_key(CONTRACT_NAMESPACE, address)) {
                Some(v) => match decode_contract(&v) {
                    Some((code_hash, admin)) => Ok(QueryResponse::Contract { code_hash, admin }),
                    None => Err(AppError::NotFound),
                },
                None => Err(AppError::NotFound),
            }
        },
        QueryRequest::Info => {
            let id = match storage.get(&namespaced_key(CHAIN_ID_NAMESPACE, &Vec::new())) {
                Some(v) => v,
                None => return Err(AppError::NotFound),
            };
            match storage.get(&namespaced_key(LAST_BLOCK_NAMESPACE, &Vec::new())) {
                Some(bytes) => match decode_block(&bytes) {
                    Some(b) => Ok(QueryResponse::Info { chain_id: id, last_block: b }),
                    None => Err(AppError::NotFound),
                },
                None => Err(AppError::NotFound),
            }
        },
        QueryRequest::Contracts { start_after, limit } => {
            Ok(QueryResponse::Contracts(list_contracts(storage, start_after, *limit)))
        },
        QueryRequest::WasmSmart { contract, msg } => {
            match vm.query(storage, gas, block, contract, msg) {
                Ok(v) => Ok(QueryResponse::WasmSmart(v)),
                Err(e) => Err(AppError::Vm(e)),
            }
        },
    }
}

/// The application: the contract capability, the versioned store, the gas
/// limit of queries and the chain's state once it has started.
pub struct App<V: Vm> {
    pub vm: V,
    pub db: MemDb,
    /// The gas limit of each query this node serves, independent of any
    /// transaction's limit.
    pub query_gas_limit: u64,
    pub costs: GasCosts,
    pub chain: Option<ChainState>,
}

impl<V: Vm> App<V> {
    /// Block height and store version go together: each committed block has
    /// its version, and a finalized block waits for its commit as the
    /// pending version.
    pub open spec fn wf(&self) -> bool {
        &&& self.db.wf()
        &&& match self.chain {
            None => self.db.versions@.len() == 0 && self.db.pending is None,
            Some(c) => {
                &&& times_sorted(c.cronjobs@)
                &&& self.db.pending is None ==> self.db.versions@.len() == c.last_block.height + 1
                &&& self.db.pending is Some ==> self.db.versions@.len() == c.last_block.height
                    && c.last_block.height >= 1
            },
        }
    }

    pub fn new(db: MemDb, vm: V, query_gas_limit: u64) -> (r: App<V>)
        requires
            db.wf(),
            db.versions@.len() == 0,
            db.pending is None,
        ensures
            r.wf(),
            r.db == db,
            r.vm == vm,
            r.query_gas_limit == query_gas_limit,
            r.chain is None,
    {
        App { vm, db, query_gas_limit, costs: GasCosts::standard(), chain: None }
    }

    /// Starts the chain: stores the chain identifier, schedules the
    /// configured cronjobs, runs the genesis messages with unlimited gas
    /// and commits the result as version 0. Any failing message aborts.
    pub fn do_init_chain(&mut self, chain_id: String, block: BlockInfo, config: Config, msgs: Vec<Message>) -> (r: Result<Hash256, AppError>)
        requires
            old(self).wf(),
        ensures
            final(self).wf(),
            block.height != 0 ==> r == Err::<Hash256, AppError>(AppError::IncorrectBlockHeight { expect: 0, actual: block.height }),
            r is Ok ==> final(self).db.versions@.len() == 1 && (final(self).chain matches Some(c) && c.last_block.height == 0)
                && final(self).db.spec_root_hash(0) == Some(r->Ok_0@),
            r is Ok ==> final(self).db.pending is None && final(self).db.versions@[0].view().contains_key(namespaced(CHAIN_ID_NAMESPACE, Seq::empty()))
                && final(self).db.versions@[0].view()[namespaced(LAST_BLOCK_NAMESPACE, Seq::empty())] == block_record(block)
                && final(self).db.versions@[0].view()[namespaced(CONFIG_NAMESPACE, Seq::empty())] == config_record(final(self).chain->Some_0.config)
                && final(self).db.versions@[0].view().contains_key(namespaced(LAST_BLOCK_NAMESPACE, Seq::empty()))
                && final(self).db.versions@[0].view().contains_key(namespaced(CONFIG_NAMESPACE, Seq::empty()))
                && final(self).db.versions@[0].view()[namespaced(SCHEDULE_NAMESPACE, Seq::empty())]
                    == schedule_record(final(self).chain->Some_0.cronjobs@),
            r is Ok && msgs@.len() == 0 ==> final(self).chain->Some_0.config == config,
            r is Err ==> final(self).db == old(self).db,
            block.height == 0 && old(self).chain is Some ==> r == Err::<Hash256, AppError>(AppError::AlreadyInitialized),
            block.height == 0 && old(self).chain is None && msgs@.len() == 0 ==> r is Ok,
    {
        if block.height != 0 {
            return Err(AppError::IncorrectBlockHeight { expect: 0, actual: block.height });
        }
        if self.chain.is_some() {
            return Err(AppError::AlreadyInitialized);
        }
        let empty = MemStore::new();
        let mut buf = Buffer::new(&empty);
        let id_bytes = chain_id.as_str().as_bytes_vec();
        buf.write(namespaced_key(CHAIN_ID_NAMESPACE, &Vec::new()), id_bytes.clone());
        buf.write(namespaced_key(LAST_BLOCK_NAMESPACE, &Vec::new()), encode_block(&block));
        buf.write(namespaced_key(CONFIG_NAMESPACE, &Vec::new()), encode_config(&config));

        let mut cronjobs: Vec<(u64, Addr)> = Vec::new();
        let mut i: usize = 0;
        while i < config.cronjobs.len()
            invariant
                times_sorted(cronjobs@),
                block.height == 0,
                self.db.wf(),
                self.db.versions@.len() == 0,
                self.db.pending is None,
                self.db == old(self).db,
                self.chain is None,
            decreases config.cronjobs@.len() - i,
        {
            let (contract, interval) = (&config.cronjobs[i].0, config.cronjobs[i].1);
            schedule_cronjob(&mut cronjobs, contract.clone(), block.timestamp, interval);
            i = i + 1;
        }

        let ghost given = config;
        let mut cfg = config;
        let mut gas = GasTracker::new_limitless();
        let sender = genesis_sender();
        let mut j: usize = 0;
        while j < msgs.len()
            invariant
                buf.wf(),
                buf.base == &empty,
                empty.wf(),
                block.height == 0,
                self.db.wf(),
                self.db.versions@.len() == 0,
                self.db.pending is None,
                self.db == old(self).db,
                self.chain is None,
                msgs@.len() == 0 ==> cfg == given,
                times_sorted(cronjobs@),
            decreases msgs@.len() - j,
        {
            match process_msg(&self.vm, &mut buf, &cfg, &mut gas, &self.costs, &block, &sender, &msgs[j]) {
                Err(e) => return Err(AppError::Genesis(e)),
                Ok((_, new_cfg)) => {
                    if let Some(c) = new_cfg {
                        cfg = c;
                    }
                },
            }
            j = j + 1;
        }
        // The records of the chain, whatever the genesis messages wrote.
        buf.write(namespaced_key(CHAIN_ID_NAMESPACE, &Vec::new()), id_bytes);
        buf.write(namespaced_key(LAST_BLOCK_NAMESPACE, &Vec::new()), encode_block(&block));
        buf.write(namespaced_key(CONFIG_NAMESPACE, &Vec::new()), encode_config(&cfg));
        buf.write(namespaced_key(SCHEDULE_NAMESPACE, &Vec::new()), encode_schedule(&cronjobs));
        proof {
            lemma_namespaces_differ(SCHEDULE_NAMESPACE, LAST_BLOCK_NAMESPACE, Seq::empty(), Seq::empty());
            lemma_namespaces_differ(SCHEDULE_NAMESPACE, CONFIG_NAMESPACE, Seq::empty(), Seq::empty());
            lemma_namespaces_differ(SCHEDULE_NAMESPACE, CHAIN_ID_NAMESPACE, Seq::empty(), Seq::empty());
            assert(empty.view() == self.db.latest_view());
            assert(buf.view().contains_key(namespaced(CONFIG_NAMESPACE, Seq::empty())));
            lemma_namespaces_differ(CONFIG_NAMESPACE, LAST_BLOCK_NAMESPACE, Seq::empty(), Seq::empty());
            lemma_namespaces_differ(CONFIG_NAMESPACE, CHAIN_ID_NAMESPACE, Seq::empty(), Seq::empty());
            lemma_namespaces_differ(LAST_BLOCK_NAMESPACE, CHAIN_ID_NAMESPACE, Seq::empty(), Seq::empty());
        }
        let ghost final_view = buf.view();
        let (_, batch) = buf.disassemble();
        match self.db.flush_and_commit(batch) {
            Err(e) => Err(AppError::Db(e)),
            Ok((_, root)) => {
                proof {
                    assert(self.db.versions@[0] == self.db.versions@.last());
                    assert(self.db.versions@[0].view() == final_view);
                }
                self.chain = Some(ChainState { chain_id, config: cfg, last_block: block, cronjobs });
                Ok(root)
            },
        }
    }

    /// Finalizes a block: runs the cronjobs that are due, then the
    /// transactions in order, records the block as the last finalized one
    /// and flushes the result as the next version, not yet committed.
    /// The block must be the one after the last finalized block.
    pub fn do_finalize_block(&mut self, block: BlockInfo, txs: Vec<Tx>) -> (r: Result<BlockOutcome, AppError>)
        requires
            old(self).wf(),
        ensures
            final(self).wf(),
            old(self).chain is None ==> r == Err::<BlockOutcome, AppError>(AppError::NotInitialized),
            old(self).chain matches Some(c) && c.last_block.height + 1 != block.height ==> (r matches Err(AppError::IncorrectBlockHeight { expect, actual })
                && actual == block.height && (old(self).chain->Some_0.last_block.height < u64::MAX
                    ==> expect == old(self).chain->Some_0.last_block.height + 1)
                && *final(self) == *old(self)),
            r is Ok ==> (final(self).chain matches Some(c) && c.last_block.height == block.height)
                && final(self).db.pending is Some
                && final(self).db.versions@.len() == block.height,
            r is Ok ==> (final(self).db.pending matches Some((s, _))
                && s.view().contains_key(namespaced(LAST_BLOCK_NAMESPACE, Seq::empty()))
                && s.view()[namespaced(LAST_BLOCK_NAMESPACE, Seq::empty())] == block_record(block)),
            r matches Ok(o) ==> o.tx_outcomes@.len() == txs@.len(),
            old(self).chain matches Some(c) && c.last_block.height + 1 == block.height && old(self).db.pending is None ==> r is Ok,
            r matches Ok(o) ==> (final(self).db.pending matches Some((_, h)) && h@ == o.app_hash@),
            r is Ok ==> (final(self).db.pending matches Some((s, _))
                && s.view()[namespaced(SCHEDULE_NAMESPACE, Seq::empty())] == schedule_record(final(self).chain->Some_0.cronjobs@)),
            r matches Ok(o) ==> ({
                let before = old(self).chain->Some_0.cronjobs@;
                let after = final(self).chain->Some_0.cronjobs@;
                let k = o.cron_outcomes@.len() as int;
                &&& k <= before.len()
                &&& forall|i: int| 0 <= i < k ==> (#[trigger] before[i]).0 <= block.timestamp
                &&& forall|i: int| k <= i < before.len() ==> (#[trigger] before[i]).0 > block.timestamp
                &&& forall|i: int| 0 <= i < k ==> (#[trigger] o.cron_outcomes@[i]).gas_limit is None
                &&& forall|e: (u64, Seq<u8>)| #[trigger] sched_view(after).contains(e) <==> (
                    sched_view(before.skip(k)).contains(e)
                    || rescheduled(before, old(self).chain->Some_0.config.cronjobs@, block.timestamp, k, e))
            }),
    {
        let last = match &self.chain {
            None => return Err(AppError::NotInitialized),
            Some(c) => c.last_block.height,
        };
        if last == u64::MAX || block.height != last + 1 {
            return Err(AppError::IncorrectBlockHeight { expect: last.saturating_add(1), actual: block.height });
        }
        if self.db.pending.is_some() {
            return Err(AppError::Db(DbError::PendingNotCommitted));
        }
        let mut chain = match self.chain.take() {
            Some(c) => c,
            None => return Err(AppError::NotInitialized),
        };
        let mut tx_outcomes: Vec<TxOutcome> = Vec::new();
        let n = self.db.versions.len();
        let base = &self.db.versions[n - 1];
        let mut buf = Buffer::new(base);

        // Cronjobs due by the block's time, in order, each with unlimited gas
        // and in a scope of its own; each is scheduled again.
        let cron_outcomes = run_cronjobs(&self.vm, &mut buf, &mut chain.cronjobs, &chain.config, &self.costs, &block);
        let ghost sched_after = chain.cronjobs@;

        // Transactions, in order, on the same state.
        let mut k: usize = 0;
        while k < txs.len()
            invariant
                buf.wf(),
                buf.base == base,
                buf.marks@.len() == 0,
                tx_outcomes@.len() == k,
                k <= txs@.len(),
                times_sorted(chain.cronjobs@),
                self.db == old(self).db,
                self.chain is None,
                self.db.pending is None,
                self.db.versions@.len() == block.height,
                chain.last_block.height + 1 == block.height,
                chain.cronjobs@ == sched_after,
                n == self.db.versions@.len(),
                base == &self.db.versions@[n - 1],
            decreases txs@.len() - k,
        {
            let o = process_tx(&self.vm, &mut buf, &mut chain.config, &self.costs, &block, &txs[k], false);
            tx_outcomes.push(o);
            k = k + 1;
        }

        // The block becomes the last finalized one only now: transactions
        // saw the previous one.
        let block_key = namespaced_key(LAST_BLOCK_NAMESPACE, &Vec::new());
        buf.write(block_key, encode_block(&block));
        buf.write(namespaced_key(SCHEDULE_NAMESPACE, &Vec::new()), encode_schedule(&chain.cronjobs));
        proof {
            lemma_namespaces_differ(SCHEDULE_NAMESPACE, LAST_BLOCK_NAMESPACE, Seq::empty(), Seq::empty());
            assert(base.view() == self.db.latest_view());
            assert(buf.view().contains_key(namespaced(LAST_BLOCK_NAMESPACE, Seq::empty())));
        }
        let (_, batch) = buf.disassemble();
        match self.db.flush_but_not_commit(batch) {
            Err(e) => {
                self.chain = Some(chain);
                Err(AppError::Db(e))
            },
            Ok((_, app_hash)) => {
                chain.last_block = block;
                self.chain = Some(chain);
                Ok(BlockOutcome { app_hash, cron_outcomes, tx_outcomes })
            },
        }
    }

    /// Pre-validates a transaction: only the sender's `before_tx` runs, on
    /// the latest committed state, within the transaction's gas limit.
    pub fn do_check_tx(&self, tx: &Tx) -> (r: Result<Outcome, AppError>)
        requires
            self.wf(),
        ensures
            self.chain is None ==> r == Err::<Outcome, AppError>(AppError::NotInitialized),
            self.chain is Some ==> r is Ok,
            r matches Ok(o) ==> o.gas_limit == Some(tx.gas_limit),
    {
        let chain = match &self.chain {
            None => return Err(AppError::NotInitialized),
            Some(c) => c,
        };
        let base = match self.db.state_storage(None) {
            Ok(s) => s,
            Err(e) => return Err(AppError::Db(e)),
        };
        let buf = Buffer::new(base);
        let mut gas = GasTracker::new_limited(tx.gas_limit);
        let mut g = gas;
        let out = self.vm.before_tx(&buf, &mut g, &chain.last_block, tx, false);
        merge_gas(&mut gas, g);
        Ok(check_outcome(tx, &gas, out))
    }

    /// Runs the messages of `sender` as a transaction on the latest state
    /// without keeping anything, with the query gas limit as its limit and
    /// with `simulate` set for the account's checks. It cannot be proved and
    /// runs only at the latest height (`0` meaning the latest).
    pub fn do_simulate(&self, sender: Addr, msgs: Vec<Message>, height: u64, prove: bool) -> (r: Result<TxOutcome, AppError>)
        requires
            self.wf(),
        ensures
            self.chain is None ==> r == Err::<TxOutcome, AppError>(AppError::NotInitialized),
            self.chain is Some && prove ==> r == Err::<TxOutcome, AppError>(AppError::ProofNotSupported),
            (self.chain matches Some(c) && !prove && height != 0 && height != c.last_block.height)
                ==> r == Err::<TxOutcome, AppError>(AppError::PastHeightNotSupported),
            (self.chain matches Some(c) && !prove && (height == 0 || height == c.last_block.height)) ==> r is Ok,
            r matches Ok(o) ==> o.gas_limit == self.query_gas_limit,
    {
        let chain = match &self.chain {
            None => return Err(AppError::NotInitialized),
            Some(c) => c,
        };
        if prove {
            return Err(AppError::ProofNotSupported);
        }
        if height != 0 && height != chain.last_block.height {
            return Err(AppError::PastHeightNotSupported);
        }
        let base = match self.db.state_storage(None) {
            Ok(s) => s,
            Err(e) => return Err(AppError::Db(e)),
        };
        let mut buf = Buffer::new(base);
        let tx = Tx { sender, msgs, gas_limit: self.query_gas_limit, data: Vec::new(), credential: Vec::new() };
        let mut cfg = chain.config.clone();
        Ok(process_tx(&self.vm, &mut buf, &mut cfg, &self.costs, &chain.last_block, &tx, true))
    }

    /// Reads one key of the store at a height (`0` for the latest), with a
    /// Merkle proof where asked.
    pub fn do_query_store(&self, key: &Vec<u8>, height: u64, prove: bool) -> (r: Result<(Option<Vec<u8>>, Option<MerkleProof>), AppError>)
        requires
            self.wf(),
        ensures
            height != 0 ==> (r is Ok <==> height < self.db.versions@.len()),
            height != 0 && height < self.db.versions@.len() ==> (r matches Ok((v, p)) && (p is Some <==> prove)
                && (v is Some <==> self.db.versions@[height as int].view().contains_key(key@))
                && (v matches Some(x) ==> x@ == self.db.versions@[height as int].view()[key@])),
            height == 0 ==> (r is Ok <==> self.db.versions@.len() > 0),
            height == 0 && self.db.versions@.len() > 0 ==> (r matches Ok((v, p)) && (p is Some <==> prove)
                && (v is Some <==> self.db.versions@.last().view().contains_key(key@))
                && (v matches Some(x) ==> x@ == self.db.versions@.last().view()[key@])),
            r matches Ok((_, Some(p))) ==> proves(p, self.db.versions@[self.db.version_index(
                if height == 0 { None } else { Some(height) })], key@),
    {
        let version = if height == 0 { None } else { Some(height) };
        let proof = if prove {
            match self.db.prove(key, version) {
                Ok(p) => Some(p),
                Err(e) => return Err(AppError::Db(e)),
            }
        } else {
            None
        };
        match self.db.state_storage(version) {
            Ok(s) => Ok((s.get(key), proof)),
            Err(e) => Err(AppError::Db(e)),
        }
    }

    /// Answers a query at a height (`0` for the latest) within the query gas
    /// limit, with the block recorded at that height. Such answers cannot be
    /// Merkle-proved.
    pub fn do_query_app(&self, req: &QueryRequest, height: u64, prove: bool) -> (r: Result<QueryResponse, AppError>)
        requires
            self.wf(),
        ensures
            prove ==> r == Err::<QueryResponse, AppError>(AppError::ProofNotSupported),
            self.chain is None && !prove ==> r == Err::<QueryResponse, AppError>(AppError::NotInitialized),
            self.chain is Some && !prove && height != 0 && height >= self.db.versions@.len() ==> r is Err,
            self.chain is Some && !prove && (height == 0 || height < self.db.versions@.len()) ==> query_answered(*req,
                self.db.versions@[self.db.version_index(if height == 0 { None } else { Some(height) })], r),
    {
        if prove {
            return Err(AppError::ProofNotSupported);
        }
        let chain = match &self.chain {
            None => return Err(AppError::NotInitialized),
            Some(c) => c,
        };
        let version = if height == 0 { None } else { Some(height) };
        let storage = match self.db.state_storage(version) {
            Ok(s) => s,
            Err(e) => return Err(AppError::Db(e)),
        };
        // The block of that version, as recorded in its own state.
        let block = match storage.get(&namespaced_key(LAST_BLOCK_NAMESPACE, &Vec::new())) {
            Some(bytes) => match decode_block(&bytes) {
                Some(b) => b,
                None => chain.last_block.clone(),
            },
            None => chain.last_block.clone(),
        };
        let mut gas = GasTracker::new_limited(self.query_gas_limit);
        process_query(&self.vm, storage, &mut gas, &block, req)
    }

    /// The latest committed height and its root hash; zero and a zero hash
    /// before the chain starts.
    pub fn do_info(&self) -> (r: (u64, Hash256))
        requires
            self.wf(),
        ensures
            self.db.versions@.len() == 0 ==> r.0 == 0,
            self.db.versions@.len() > 0 ==> r.0 == self.db.versions@.len() - 1
                && Some(r.1@) == self.db.spec_root_hash(r.0 as int),
    {
        match self.db.latest_version() {
            None => (0, crate::merkle::zero_hash_vec()),
            Some(v) => match self.db.root_hash(Some(v)) {
                Some(h) => (v, h),
                None => (0, crate::merkle::zero_hash_vec()),
            },
        }
    }

    /// Makes the last finalized block's version durable.
    pub fn do_commit(&mut self) -> (r: Result<(), AppError>)
        requires
            old(self).wf(),
        ensures
            final(self).wf(),
            r is Ok ==> final(self).db.pending is None && final(self).db.versions@.len() == old(self).db.versions@.len() + 1,
            old(self).db.pending is None ==> r is Err,
            old(self).db.pending is Some && old(self).db.versions@.len() < 0xFFFF_FFFF_FFFF_FFF0 ==> (r is Ok
                && final(self).db.versions@ == old(self).db.versions@.push(old(self).db.pending->Some_0.0)
                && final(self).db.roots@ == old(self).db.roots@.push(old(self).db.pending->Some_0.1)
                && final(self).chain == old(self).chain),
    {
        if self.db.versions.len() as u64 >= 0xFFFF_FFFF_FFFF_FFF0u64 {
            return Err(AppError::VersionLimit);
        }
        match self.db.commit() {
            Ok(()) => Ok(()),
            Err(e) => Err(AppError::Db(e)),
        }
    }
}

/// Every block height that has been committed is a version of the store
/// with a root hash: all heights up to the last finalized block, except
/// that block itself while its commit is pending.
pub proof fn lemma_committed_heights_have_roots<V: Vm>(app: &App<V>, h: int)
    requires
        app.wf(),
        app.chain is Some,
        0 <= h <= app.chain->Some_0.last_block.height,
        app.db.pending is Some ==> h < app.chain->Some_0.last_block.height,
    ensures
        app.db.spec_root_hash(h) is Some,
        store_root(app.db.versions@[h]) == app.db.spec_root_hash(h),
{
}

} // verus!
