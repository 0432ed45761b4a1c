use grug_core::chain::Signer;
use grug_core::app::{Vm, VmOutput};
use grug_core::chain::{BlockInfo, Config, Event, Message, Outcome, Permission, Tx};
use grug_core::coin::Coins;
use grug_core::db::MemDb;
use grug_core::facade::{schedule_cronjob, take_due, App, AppError, QueryRequest, QueryResponse};
use grug_core::merkle::sha256;
use grug_core::gas::{GasCosts, GasTracker, LinearGasCost};
use grug_core::math::Uint128;
use grug_core::store::{Batch, Buffer, MemStore};

const DENOM: &str = "uatom";
const TRANSFER_GAS: u64 = 900;

fn balance_key(addr: &[u8]) -> Vec<u8> {
    let mut k = b"bal/".to_vec();
    k.extend_from_slice(addr);
    k
}

fn read_u128(state: &Buffer<MemStore>, key: &Vec<u8>) -> u128 {
    match state.get(key) {
        Some(v) => u128::from_be_bytes(v.try_into().unwrap()),
        None => 0,
    }
}

fn genesis_addr() -> Vec<u8> {
    vec![0u8; 20]
}

/// A bank that moves one denomination (minting what the genesis sender
/// sends) and a taxman that withholds one unit per 1000 gas of the limit and
/// keeps one unit per 1000 gas used.
struct TestVm;

impl Vm for TestVm {
    fn withhold_fee(&self, state: &Buffer<MemStore>, _gas: &mut GasTracker, _block: &BlockInfo, tx: &Tx) -> Result<VmOutput, String> {
        let max_fee = ((tx.gas_limit + 999) / 1000) as u128;
        let bal = read_u128(state, &balance_key(&tx.sender));
        if bal < max_fee {
            return Err("insufficient balance to pay fee".to_string());
        }
        let mut writes = Batch::new();
        writes.put(balance_key(&tx.sender), (bal - max_fee).to_be_bytes().to_vec());
        writes.put(b"withheld".to_vec(), max_fee.to_be_bytes().to_vec());
        Ok(VmOutput { events: vec![], writes })
    }

    fn finalize_fee(&self, state: &Buffer<MemStore>, _gas: &mut GasTracker, _block: &BlockInfo, tx: &Tx, outcome: &Outcome) -> Result<VmOutput, String> {
        let withheld = read_u128(state, &b"withheld".to_vec());
        let fee = std::cmp::min((outcome.gas_used / 1000) as u128, withheld);
        let bal = read_u128(state, &balance_key(&tx.sender));
        let taxman = read_u128(state, &balance_key(b"taxman"));
        let mut writes = Batch::new();
        writes.put(balance_key(&tx.sender), (bal + withheld - fee).to_be_bytes().to_vec());
        writes.put(balance_key(b"taxman"), (taxman + fee).to_be_bytes().to_vec());
        writes.delete(b"withheld".to_vec());
        Ok(VmOutput { events: vec![], writes })
    }

    fn before_tx(&self, _state: &Buffer<MemStore>, _gas: &mut GasTracker, _block: &BlockInfo, _tx: &Tx, _simulate: bool) -> Result<VmOutput, String> {
        Ok(VmOutput { events: vec![], writes: Batch::new() })
    }

    fn after_tx(&self, _state: &Buffer<MemStore>, _gas: &mut GasTracker, _block: &BlockInfo, _tx: &Tx, _simulate: bool) -> Result<VmOutput, String> {
        Ok(VmOutput { events: vec![], writes: Batch::new() })
    }

    fn transfer(&self, state: &Buffer<MemStore>, gas: &mut GasTracker, _block: &BlockInfo, bank: &Vec<u8>, from: &Vec<u8>, to: &Vec<u8>, coins: &Coins) -> Result<VmOutput, String> {
        gas.consume(TRANSFER_GAS).map_err(|_| "out of gas".to_string())?;
        let amount = coins.amount_of(DENOM).number();
        let mut writes = Batch::new();
        if *from != genesis_addr() {
            let bal = read_u128(state, &balance_key(from));
            if bal < amount {
                return Err("insufficient funds".to_string());
            }
            writes.put(balance_key(from), (bal - amount).to_be_bytes().to_vec());
        }
        let to_bal = read_u128(state, &balance_key(to));
        writes.put(balance_key(to), (to_bal + amount).to_be_bytes().to_vec());
        let event = Event { contract: bank.clone(), kind: "transfer".to_string(), data: vec![] };
        Ok(VmOutput { events: vec![event], writes })
    }

    fn instantiate(&self, _state: &Buffer<MemStore>, _gas: &mut GasTracker, _block: &BlockInfo, _contract: &Vec<u8>, _code_hash: &Vec<u8>, _sender: &Vec<u8>, _msg: &Vec<u8>, _funds: &Coins) -> Result<VmOutput, String> {
        Ok(VmOutput { events: vec![], writes: Batch::new() })
    }

    fn execute(&self, _state: &Buffer<MemStore>, _gas: &mut GasTracker, _block: &BlockInfo, _contract: &Vec<u8>, _code_hash: &Vec<u8>, _sender: &Vec<u8>, _msg: &Vec<u8>, _funds: &Coins) -> Result<VmOutput, String> {
        Ok(VmOutput { events: vec![], writes: Batch::new() })
    }

    fn migrate(&self, _state: &Buffer<MemStore>, _gas: &mut GasTracker, _block: &BlockInfo, _contract: &Vec<u8>, _code_hash: &Vec<u8>, _sender: &Vec<u8>, _msg: &Vec<u8>) -> Result<VmOutput, String> {
        Ok(VmOutput { events: vec![], writes: Batch::new() })
    }

    fn cron_execute(&self, state: &Buffer<MemStore>, _gas: &mut GasTracker, block: &BlockInfo, contract: &Vec<u8>) -> Result<VmOutput, String> {
        let mut key = b"cron/".to_vec();
        key.extend_from_slice(contract);
        let runs = read_u128(state, &key);
        let mut writes = Batch::new();
        writes.put(key, (runs + 1).to_be_bytes().to_vec());
        let event = Event { contract: contract.clone(), kind: "cron".to_string(), data: block.timestamp.to_be_bytes().to_vec() };
        Ok(VmOutput { events: vec![event], writes })
    }

    fn query(&self, _state: &MemStore, _gas: &mut GasTracker, _block: &BlockInfo, _contract: &Vec<u8>, _msg: &Vec<u8>) -> Result<Vec<u8>, String> {
        Err("no query".to_string())
    }
}

fn free_costs() -> GasCosts {
    let z = LinearGasCost::new(0, 0);
    GasCosts {
        db_read: z, db_scan: 0, db_next: 0, db_write: z, db_remove: 0,
        secp256r1_verify: 0, secp256k1_verify: 0, secp256k1_pubkey_recover: 0, ed25519_verify: 0,
        ed25519_batch_verify: z, sha2_256: z, sha2_512: z, sha2_512_truncated: z, sha3_256: z,
        sha3_512: z, sha3_512_truncated: z, keccak256: z, blake2s_256: z, blake2b_512: z, blake3: z,
    }
}

fn config(cronjobs: Vec<(Vec<u8>, u64)>) -> Config {
    Config {
        owner: None,
        bank: b"bank".to_vec(),
        taxman: b"taxman".to_vec(),
        upload_permission: Permission::Everybody,
        instantiate_permission: Permission::Everybody,
        cronjobs,
    }
}

fn block(height: u64, timestamp: u64) -> BlockInfo {
    BlockInfo { height, timestamp, hash: vec![height as u8; 32] }
}

fn coins(amount: u128) -> Coins {
    Coins::one(DENOM.to_string(), Uint128::new(amount)).unwrap()
}

fn transfer_tx(from: &[u8], to: &[u8], amount: u128, gas_limit: u64) -> Tx {
    Tx {
        sender: from.to_vec(),
        msgs: vec![Message::transfer(to.to_vec(), coins(amount))],
        gas_limit,
        data: vec![],
        credential: vec![],
    }
}

/// A chain whose genesis gives `alice` 100 units.
fn start_chain(cronjobs: Vec<(Vec<u8>, u64)>, genesis_time: u64) -> App<TestVm> {
    let mut app = App::new(MemDb::new(), TestVm, 1_000_000);
    app.costs = free_costs();
    let fund = Message::transfer(b"alice".to_vec(), coins(100));
    app.do_init_chain("test-1".to_string(), block(0, genesis_time), config(cronjobs), vec![fund]).unwrap();
    app
}

fn balance(app: &App<TestVm>, addr: &[u8]) -> u128 {
    match app.do_query_store(&balance_key(addr), 0, false).unwrap().0 {
        Some(v) => u128::from_be_bytes(v.try_into().unwrap()),
        None => 0,
    }
}

#[test]
fn transfer_then_out_of_gas_transfer() {
    let mut app = start_chain(vec![], 0);
    assert_eq!(balance(&app, b"alice"), 100);

    // Block 1: 25 to bob. 900 gas used, so no whole unit of fee.
    let out = app.do_finalize_block(block(1, 10), vec![transfer_tx(b"alice", b"bob", 25, 999)]).unwrap();
    app.do_commit().unwrap();
    let o = &out.tx_outcomes[0];
    assert_eq!(o.gas_used, 900);
    assert!(matches!(o.process_msgs_result, Some(Ok(_))));
    assert_eq!(balance(&app, b"alice"), 75);
    assert_eq!(balance(&app, b"bob"), 25);

    // Block 2: a gas limit below what the transfer needs. The message phase
    // fails; the gas spent (over the limit) is reported and charged; the
    // transfer itself leaves no trace.
    let out = app.do_finalize_block(block(2, 20), vec![transfer_tx(b"alice", b"bob", 25, 500)]).unwrap();
    app.do_commit().unwrap();
    let o = &out.tx_outcomes[0];
    assert_eq!(o.gas_limit, 500);
    assert_eq!(o.gas_used, 900);
    assert!(matches!(o.withhold_fee_result, Some(Ok(_))));
    assert!(matches!(o.process_msgs_result, Some(Err(_))));
    assert!(matches!(o.finalize_fee_result, Some(Ok(_))));
    assert_eq!(balance(&app, b"alice"), 75);
    assert_eq!(balance(&app, b"bob"), 25);
}

#[test]
fn failed_message_phase_still_pays_fee() {
    let mut app = start_chain(vec![], 0);
    // 200 units asked, 100 held: the transfer fails after 900 gas; the fee
    // (one unit per 1000 gas, 5000 gas limit) is withheld and settled.
    let mut tx = transfer_tx(b"alice", b"bob", 200, 5000);
    tx.msgs.push(Message::transfer(b"carol".to_vec(), coins(1)));
    let out = app.do_finalize_block(block(1, 10), vec![tx]).unwrap();
    app.do_commit().unwrap();
    let o = &out.tx_outcomes[0];
    assert!(matches!(o.withhold_fee_result, Some(Ok(_))));
    assert!(matches!(o.process_msgs_result, Some(Err(_))));
    assert!(matches!(o.finalize_fee_result, Some(Ok(_))));
    assert_eq!(balance(&app, b"bob"), 0);
    assert_eq!(balance(&app, b"carol"), 0);
    assert_eq!(balance(&app, b"alice"), 100);
    assert_eq!(balance(&app, b"taxman"), 0);

    // With 2500 gas used the fee is two units.
    let tx = Tx {
        sender: b"alice".to_vec(),
        msgs: vec![
            Message::transfer(b"bob".to_vec(), coins(1)),
            Message::transfer(b"bob".to_vec(), coins(1)),
            Message::transfer(b"bob".to_vec(), coins(500)),
        ],
        gas_limit: 5000,
        data: vec![],
        credential: vec![],
    };
    let out = app.do_finalize_block(block(2, 20), vec![tx]).unwrap();
    app.do_commit().unwrap();
    let o = &out.tx_outcomes[0];
    assert_eq!(o.gas_used, 2700);
    assert!(matches!(o.process_msgs_result, Some(Err(_))));
    assert_eq!(balance(&app, b"bob"), 0);
    assert_eq!(balance(&app, b"alice"), 98);
    assert_eq!(balance(&app, b"taxman"), 2);
}

#[test]
fn failed_withholding_changes_nothing() {
    let mut app = start_chain(vec![], 0);
    let mut twin = start_chain(vec![], 0);
    // carol holds nothing and cannot pay the fee.
    let out = app.do_finalize_block(block(1, 10), vec![transfer_tx(b"carol", b"bob", 1, 5000)]).unwrap();
    let empty = twin.do_finalize_block(block(1, 10), vec![]).unwrap();
    app.do_commit().unwrap();
    let o = &out.tx_outcomes[0];
    assert_eq!(o.gas_used, 0);
    assert!(matches!(o.withhold_fee_result, Some(Err(_))));
    assert!(o.process_msgs_result.is_none());
    assert!(o.finalize_fee_result.is_none());
    assert_eq!(balance(&app, b"bob"), 0);
    assert_eq!(balance(&app, b"alice"), 100);
    // The same block without the transaction leads to the same state.
    assert_eq!(out.app_hash, empty.app_hash);
}

#[test]
fn wrong_block_height_is_refused() {
    let mut app = start_chain(vec![], 0);
    let err = app.do_finalize_block(block(2, 10), vec![]).err().unwrap();
    assert_eq!(err, AppError::IncorrectBlockHeight { expect: 1, actual: 2 });
    let err = app.do_finalize_block(block(0, 10), vec![]).err().unwrap();
    assert_eq!(err, AppError::IncorrectBlockHeight { expect: 1, actual: 0 });
    app.do_finalize_block(block(1, 10), vec![]).unwrap();
    app.do_commit().unwrap();
    let err = app.do_finalize_block(block(1, 20), vec![]).err().unwrap();
    assert_eq!(err, AppError::IncorrectBlockHeight { expect: 2, actual: 1 });

    let mut fresh = App::new(MemDb::new(), TestVm, 1_000);
    let err = fresh.do_init_chain("x".to_string(), block(3, 0), config(vec![]), vec![]).err().unwrap();
    assert_eq!(err, AppError::IncorrectBlockHeight { expect: 0, actual: 3 });
    assert_eq!(fresh.do_finalize_block(block(1, 0), vec![]).err(), Some(AppError::NotInitialized));
}

#[test]
fn committed_heights_have_root_hashes() {
    let mut app = start_chain(vec![], 0);
    for h in 1..=3u64 {
        app.do_finalize_block(block(h, h * 10), vec![transfer_tx(b"alice", b"bob", 1, 1000)]).unwrap();
        app.do_commit().unwrap();
    }
    for h in 0..=3u64 {
        assert!(app.db.root_hash(Some(h)).is_some());
    }
    assert!(app.db.root_hash(Some(4)).is_none());
    assert_eq!(app.do_info().0, 3);
    assert_eq!(app.do_commit().err(), Some(AppError::Db(grug_core::db::DbError::NothingToCommit)));
    // The last finalized block is in the store: height and time in eight
    // big-endian bytes each, then the hash.
    let record = app.do_query_store(&vec![98u8], 0, false).unwrap().0.unwrap();
    assert_eq!(&record[..8], &3u64.to_be_bytes());
    assert_eq!(&record[8..16], &30u64.to_be_bytes());
    assert_eq!(&record[16..], &[3u8; 32]);
}

#[test]
fn cronjobs_run_when_due() {
    // Both scheduled at genesis time 5 with intervals 5 and 15: due at 10 and 20.
    let mut app = start_chain(vec![(b"job_a".to_vec(), 5), (b"job_b".to_vec(), 15)], 5);
    let out = app.do_finalize_block(block(1, 12), vec![]).unwrap();
    app.do_commit().unwrap();
    assert_eq!(out.cron_outcomes.len(), 1);
    assert!(out.cron_outcomes[0].result.is_ok());
    assert!(out.cron_outcomes[0].gas_limit.is_none());
    // job_a ran at 12 and is due again at 12 + 5 = 17; job_b at 20.
    let out = app.do_finalize_block(block(2, 16), vec![]).unwrap();
    app.do_commit().unwrap();
    assert_eq!(out.cron_outcomes.len(), 0);
    let out = app.do_finalize_block(block(3, 20), vec![]).unwrap();
    app.do_commit().unwrap();
    assert_eq!(out.cron_outcomes.len(), 2);
}

#[test]
fn schedule_takes_due_jobs_in_time_order() {
    let mut s: Vec<(u64, Vec<u8>)> = Vec::new();
    schedule_cronjob(&mut s, b"second".to_vec(), 0, 20);
    schedule_cronjob(&mut s, b"first".to_vec(), 0, 10);
    let due = take_due(&mut s, 12);
    assert_eq!(due, vec![(10, b"first".to_vec())]);
    schedule_cronjob(&mut s, b"first".to_vec(), 12, 5);
    assert_eq!(s, vec![(17, b"first".to_vec()), (20, b"second".to_vec())]);
    let due = take_due(&mut s, 16);
    assert!(due.is_empty());
    let due = take_due(&mut s, 20);
    assert_eq!(due.len(), 2);
    assert!(s.is_empty());
    schedule_cronjob(&mut s, b"b".to_vec(), 1, 1);
    schedule_cronjob(&mut s, b"a".to_vec(), 1, 1);
    assert_eq!(s, vec![(2, b"a".to_vec()), (2, b"b".to_vec())]);
}

#[test]
fn check_tx_and_simulate() {
    let mut app = start_chain(vec![], 0);
    app.query_gas_limit = 5000;
    let o = app.do_check_tx(&transfer_tx(b"alice", b"bob", 1, 777)).unwrap();
    assert_eq!(o.gas_limit, Some(777));
    assert!(o.result.is_ok());
    let s = app.do_simulate(b"alice".to_vec(), vec![Message::transfer(b"bob".to_vec(), coins(5))], 0, false).unwrap();
    assert_eq!(s.gas_limit, 5000);
    assert_eq!(s.gas_used, 900);
    assert_eq!(balance(&app, b"bob"), 0);
    assert_eq!(app.do_simulate(b"alice".to_vec(), vec![], 0, true).err(), Some(AppError::ProofNotSupported));
    assert_eq!(app.do_simulate(b"alice".to_vec(), vec![], 7, false).err(), Some(AppError::PastHeightNotSupported));
}

#[test]
fn upload_and_configure_rules() {
    let mut app = start_chain(vec![], 0);
    let tx = Tx {
        sender: b"alice".to_vec(),
        msgs: vec![Message::upload(b"code bytes".to_vec())],
        gas_limit: 1000,
        data: vec![],
        credential: vec![],
    };
    let out = app.do_finalize_block(block(1, 1), vec![tx.clone()]).unwrap();
    app.do_commit().unwrap();
    assert!(matches!(out.tx_outcomes[0].process_msgs_result, Some(Ok(_))));
    // The same code twice is refused.
    let out = app.do_finalize_block(block(2, 2), vec![tx]).unwrap();
    app.do_commit().unwrap();
    assert!(matches!(out.tx_outcomes[0].process_msgs_result, Some(Err(_))));
    // Only the owner (there is none) or the genesis sender may configure.
    let tx = Tx {
        sender: b"alice".to_vec(),
        msgs: vec![Message::configure(config(vec![]))],
        gas_limit: 1000,
        data: vec![],
        credential: vec![],
    };
    let out = app.do_finalize_block(block(3, 3), vec![tx]).unwrap();
    assert!(matches!(out.tx_outcomes[0].process_msgs_result, Some(Err(_))));
}

#[test]
fn contracts_are_listed_in_address_order() {
    let mut app = start_chain(vec![], 0);
    let code = b"wasm".to_vec();
    let hash = sha256(&code);
    let mut msgs = vec![Message::upload(code.clone())];
    for salt in [b"1", b"2", b"3"] {
        msgs.push(Message::instantiate(hash.clone(), vec![], salt.to_vec(), Coins::new(), Some(b"alice".to_vec())));
    }
    let tx = Tx { sender: b"alice".to_vec(), msgs, gas_limit: 1000, data: vec![], credential: vec![] };
    let out = app.do_finalize_block(block(1, 1), vec![tx]).unwrap();
    app.do_commit().unwrap();
    assert!(matches!(out.tx_outcomes[0].process_msgs_result, Some(Ok(_))));

    match app.do_query_app(&QueryRequest::Code { hash: hash.clone() }, 0, false).unwrap() {
        QueryResponse::Code(c) => assert_eq!(c, code),
        other => panic!("unexpected {:?}", other),
    }
    let all = match app.do_query_app(&QueryRequest::Contracts { start_after: None, limit: 10 }, 0, false).unwrap() {
        QueryResponse::Contracts(list) => list,
        other => panic!("unexpected {:?}", other),
    };
    assert_eq!(all.len(), 3);
    assert!(all[0].0 < all[1].0 && all[1].0 < all[2].0);
    assert!(all.iter().all(|c| c.1 == hash && c.2 == Some(b"alice".to_vec())));
    let page = match app.do_query_app(&QueryRequest::Contracts { start_after: Some(all[0].0.clone()), limit: 1 }, 0, false).unwrap() {
        QueryResponse::Contracts(list) => list,
        other => panic!("unexpected {:?}", other),
    };
    assert_eq!(page.len(), 1);
    assert_eq!(page[0].0, all[1].0);
    match app.do_query_app(&QueryRequest::Contract { address: all[2].0.clone() }, 1, false).unwrap() {
        QueryResponse::Contract { code_hash, admin } => {
            assert_eq!(code_hash, hash);
            assert_eq!(admin, Some(b"alice".to_vec()));
        },
        other => panic!("unexpected {:?}", other),
    }
    assert_eq!(app.do_query_app(&QueryRequest::Code { hash: vec![0; 32] }, 0, false).err(), Some(AppError::NotFound));
    assert_eq!(app.do_query_app(&QueryRequest::Code { hash: hash.clone() }, 0, true).err(), Some(AppError::ProofNotSupported));
}

struct CountingSigner {
    addr: Vec<u8>,
    sequence: u32,
}

impl grug_core::chain::Addressable for CountingSigner {
    fn address(&self) -> Vec<u8> {
        self.addr.clone()
    }
}

impl grug_core::chain::Signer for CountingSigner {
    fn sign_transaction(&mut self, msgs: Vec<Message>, chain_id: &str, gas_limit: u64) -> Result<Tx, String> {
        self.sequence += 1;
        let mut credential = chain_id.as_bytes().to_vec();
        credential.extend_from_slice(&self.sequence.to_be_bytes());
        Ok(Tx { sender: self.addr.clone(), msgs, gas_limit, data: vec![], credential })
    }
}

#[test]
fn signed_transactions_run() {
    let mut app = start_chain(vec![], 0);
    let mut alice = CountingSigner { addr: b"alice".to_vec(), sequence: 0 };
    let tx = alice.sign_transaction(vec![Message::transfer(b"bob".to_vec(), coins(10))], "test-1", 1000).unwrap();
    assert_eq!(alice.sequence, 1);
    app.do_finalize_block(block(1, 1), vec![tx]).unwrap();
    app.do_commit().unwrap();
    assert_eq!(balance(&app, b"bob"), 10);
}

#[test]
fn configuration_is_stored_and_rolled_back_with_its_transaction() {
    let mut app = App::new(MemDb::new(), TestVm, 1_000_000);
    app.costs = free_costs();
    let mut cfg = config(vec![]);
    cfg.owner = Some(b"alice".to_vec());
    let fund = Message::transfer(b"alice".to_vec(), coins(100));
    app.do_init_chain("test-1".to_string(), block(0, 0), cfg.clone(), vec![fund]).unwrap();
    let stored = app.do_query_store(&vec![102u8], 0, false).unwrap().0.unwrap();
    assert_eq!(stored, grug_core::chain::encode_config(&cfg));
    assert_eq!(stored[0], 1);

    // A new configuration together with a failing transfer: both are dropped.
    let mut new_cfg = cfg.clone();
    new_cfg.taxman = b"taxman2".to_vec();
    let tx = Tx {
        sender: b"alice".to_vec(),
        msgs: vec![Message::configure(new_cfg.clone()), Message::transfer(b"bob".to_vec(), coins(1000))],
        gas_limit: 5000,
        data: vec![],
        credential: vec![],
    };
    app.do_finalize_block(block(1, 1), vec![tx]).unwrap();
    app.do_commit().unwrap();
    assert_eq!(app.do_query_store(&vec![102u8], 0, false).unwrap().0.unwrap(), grug_core::chain::encode_config(&cfg));
    assert_eq!(app.chain.as_ref().unwrap().config.taxman, b"taxman".to_vec());

    // On its own it takes effect.
    let tx = Tx { sender: b"alice".to_vec(), msgs: vec![Message::configure(new_cfg.clone())], gas_limit: 5000, data: vec![], credential: vec![] };
    app.do_finalize_block(block(2, 2), vec![tx]).unwrap();
    app.do_commit().unwrap();
    assert_eq!(app.do_query_store(&vec![102u8], 0, false).unwrap().0.unwrap(), grug_core::chain::encode_config(&new_cfg));
    assert_eq!(app.chain.as_ref().unwrap().config.taxman, b"taxman2".to_vec());
}

#[test]
fn committed_app_hash_is_the_version_root() {
    let mut app = start_chain(vec![(b"job".to_vec(), 5)], 0);
    let out = app.do_finalize_block(block(1, 7), vec![]).unwrap();
    app.do_commit().unwrap();
    assert_eq!(app.db.latest_version(), Some(1));
    assert_eq!(app.db.root_hash(Some(1)), Some(out.app_hash.clone()));
    assert_eq!(app.do_info(), (1, out.app_hash));
    assert_eq!(out.cron_outcomes.len(), 1);
    // The schedule is part of the state: one job, due at 7 + 5.
    let sched = app.do_query_store(&vec![110u8], 0, false).unwrap().0.unwrap();
    assert_eq!(&sched[..8], &1u64.to_be_bytes());
    assert_eq!(&sched[8..16], &12u64.to_be_bytes());
    match app.do_query_app(&QueryRequest::Info, 0, false).unwrap() {
        QueryResponse::Info { chain_id, last_block } => {
            assert_eq!(chain_id, b"test-1".to_vec());
            assert_eq!(last_block.height, 1);
            assert_eq!(last_block.timestamp, 7);
        },
        other => panic!("unexpected {:?}", other),
    }
    match app.do_query_app(&QueryRequest::Info, 0 + 1, false).unwrap() {
        QueryResponse::Info { last_block, .. } => assert_eq!(last_block.height, 1),
        other => panic!("unexpected {:?}", other),
    }
    assert!(app.do_query_app(&QueryRequest::Info, 5, false).is_err());
}
