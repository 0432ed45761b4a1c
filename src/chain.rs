use vstd::prelude::*;
use crate::coin::Coins;
use crate::store::bytes_eq;

verus! {

/// An account or contract address.
pub type Addr = Vec<u8>;

/// The sender of genesis messages, allowed everything.
pub fn genesis_sender() -> (r: Addr)
    ensures
        r@ == genesis_sender_bytes(),
{
    let mut r: Vec<u8> = Vec::new();
    let mut i: usize = 0;
    while i < 20
        invariant
            i <= 20,
            r@ == Seq::new(i as nat, |j: int| 0u8),
        decreases 20 - i,
    {
        r.push(0u8);
        i = i + 1;
        assert(r@ =~= Seq::new(i as nat, |j: int| 0u8));
    }
    r
}

/// Twenty zero bytes.
pub open spec fn genesis_sender_bytes() -> Seq<u8> {
    Seq::new(20, |j: int| 0u8)
}

/// Height, time (in nanoseconds) and hash of a block.
#[derive(Debug, Clone)]
pub struct BlockInfo {
    pub height: u64,
    pub timestamp: u64,
    pub hash: Vec<u8>,
}

/// The last `n` bytes of `x`, most significant first.
pub open spec fn be_bytes(x: nat, n: nat) -> Seq<u8>
    decreases n,
{
    if n == 0 {
        Seq::empty()
    } else {
        be_bytes(x / 256, (n - 1) as nat).push((x % 256) as u8)
    }
}

/// Appends the last `n` bytes of `x`, most significant first.
pub fn push_be_bytes(x: u64, n: u32, out: &mut Vec<u8>)
    ensures
        final(out)@ == old(out)@ + be_bytes(x as nat, n as nat),
    decreases n,
{
    if n > 0 {
        push_be_bytes(x / 256, n - 1, out);
        out.push((x % 256) as u8);
    }
}

/// The stored form of a block: height and time as eight big-endian bytes
/// each, then the hash.
pub open spec fn block_record(b: BlockInfo) -> Seq<u8> {
    be_bytes(b.height as nat, 8) + be_bytes(b.timestamp as nat, 8) + b.hash@
}

pub fn encode_block(b: &BlockInfo) -> (r: Vec<u8>)
    ensures
        r@ == block_record(*b),
{
    let mut out: Vec<u8> = Vec::new();
    push_be_bytes(b.height, 8, &mut out);
    push_be_bytes(b.timestamp, 8, &mut out);
    let mut h = b.hash.clone();
    out.append(&mut h);
    assert(out@ =~= block_record(*b));
    out
}

/// Reads eight bytes at `at` as a big-endian `u64`.
fn read_be_u64(v: &Vec<u8>, at: usize) -> (r: u64)
    requires
        at + 8 <= v@.len(),
    ensures
        be_bytes(r as nat, 8) == v@.subrange(at as int, at + 8),
{
    let n = v.len();
    let mut x: u64 = 0;
    let mut i: usize = 0;
    while i < 8
        invariant
            n == v@.len(),
            at + 8 <= v@.len(),
            i <= 8,
            x < pow256(i as nat),
            be_bytes(x as nat, i as nat) == v@.subrange(at as int, at + i),
        decreases 8 - i,
    {
        assert(at + i < v@.len());
        let b = v[at + i];
        proof {
            lemma_pow256_le(i as nat);
            assert(x * 256 + b < pow256((i + 1) as nat)) by (nonlinear_arith)
                requires x < pow256(i as nat), b < 256, pow256((i + 1) as nat) == 256 * pow256(i as nat);
            lemma_pow256_mono((i + 1) as nat, 8);
            assert(x * 256 + b < 0x1_0000_0000_0000_0000);
        }
        let y = x * 256 + b as u64;
        proof {
            assert(y / 256 == x && y % 256 == b) by (nonlinear_arith)
                requires y == x * 256 + b, b < 256, x >= 0;
            assert(v@.subrange(at as int, at + i + 1) =~= v@.subrange(at as int, at + i).push(b));
        }
        x = y;
        i = i + 1;
    }
    x
}

pub open spec fn pow256(n: nat) -> nat
    decreases n,
{
    if n == 0 { 1 } else { 256 * pow256((n - 1) as nat) }
}

proof fn lemma_pow256_le(n: nat)
    ensures
        pow256(n + 1) == 256 * pow256(n),
{
}

proof fn lemma_pow256_mono(i: nat, j: nat)
    requires
        i <= j,
    ensures
        pow256(i) <= pow256(j),
        pow256(8) == 0x1_0000_0000_0000_0000,
    decreases j,
{
    reveal_with_fuel(pow256, 9);
    if i < j {
        lemma_pow256_mono(i, (j - 1) as nat);
    }
}

/// Reads a block back from its stored form.
pub fn decode_block(v: &Vec<u8>) -> (r: Option<BlockInfo>)
    ensures
        r matches Some(b) ==> block_record(b) == v@,
        r is Some <==> v@.len() >= 16,
{
    if v.len() < 16 {
        return None;
    }
    let height = read_be_u64(v, 0);
    let timestamp = read_be_u64(v, 8);
    let mut hash: Vec<u8> = Vec::new();
    let mut i: usize = 16;
    while i < v.len()
        invariant
            16 <= i <= v@.len(),
            hash@ == v@.subrange(16, i as int),
        decreases v@.len() - i,
    {
        hash.push(v[i]);
        i = i + 1;
        assert(hash@ =~= v@.subrange(16, i as int));
    }
    let b = BlockInfo { height, timestamp, hash };
    assert(block_record(b) =~= v@);
    Some(b)
}

/// Something that a contract or the chain reports having done.
#[derive(Debug, Clone)]
pub struct Event {
    pub contract: Addr,
    pub kind: String,
    pub data: Vec<u8>,
}

/// Who may upload code or instantiate contracts.
#[derive(Debug, Clone)]
pub enum Permission {
    Nobody,
    Everybody,
    Somebodies(Vec<Addr>),
}

/// Chain-level parameters.
#[derive(Debug, Clone)]
pub struct Config {
    pub owner: Option<Addr>,
    pub bank: Addr,
    pub taxman: Addr,
    pub upload_permission: Permission,
    pub instantiate_permission: Permission,
    /// Each contract to run as a cronjob and its interval in nanoseconds.
    pub cronjobs: Vec<(Addr, u64)>,
}

/// A message of a transaction.
#[derive(Debug, Clone)]
pub enum Message {
    Configure { new_cfg: Config },
    Transfer { to: Addr, coins: Coins },
    Upload { code: Vec<u8> },
    Instantiate { code_hash: Vec<u8>, msg: Vec<u8>, salt: Vec<u8>, funds: Coins, admin: Option<Addr> },
    Execute { contract: Addr, msg: Vec<u8>, funds: Coins },
    Migrate { contract: Addr, new_code_hash: Vec<u8>, msg: Vec<u8> },
}

impl Message {
    pub fn configure(new_cfg: Config) -> (r: Message)
        ensures
            r matches Message::Configure { new_cfg: c } && c == new_cfg,
    {
        Message::Configure { new_cfg }
    }

    pub fn transfer(to: Addr, coins: Coins) -> (r: Message)
        ensures
            r matches Message::Transfer { to: t, coins: c } && t == to && c == coins,
    {
        Message::Transfer { to, coins }
    }

    pub fn upload(code: Vec<u8>) -> (r: Message)
        ensures
            r matches Message::Upload { code: c } && c == code,
    {
        Message::Upload { code }
    }

    pub fn instantiate(code_hash: Vec<u8>, msg: Vec<u8>, salt: Vec<u8>, funds: Coins, admin: Option<Addr>) -> (r: Message)
        ensures
            r matches Message::Instantiate { code_hash: h, msg: m, salt: s, funds: f, admin: a }
                && h == code_hash && m == msg && s == salt && f == funds && a == admin,
    {
        Message::Instantiate { code_hash, msg, salt, funds, admin }
    }

    pub fn execute(contract: Addr, msg: Vec<u8>, funds: Coins) -> (r: Message)
        ensures
            r matches Message::Execute { contract: c, msg: m, funds: f } && c == contract && m == msg && f == funds,
    {
        Message::Execute { contract, msg, funds }
    }

    pub fn migrate(contract: Addr, new_code_hash: Vec<u8>, msg: Vec<u8>) -> (r: Message)
        ensures
            r matches Message::Migrate { contract: c, new_code_hash: h, msg: m } && c == contract && h == new_code_hash && m == msg,
    {
        Message::Migrate { contract, new_code_hash, msg }
    }
}

/// A transaction: its sender, its messages in order, the gas it may use and
/// the credential that authenticates it.
#[derive(Debug, Clone)]
pub struct Tx {
    pub sender: Addr,
    pub msgs: Vec<Message>,
    pub gas_limit: u64,
    pub data: Vec<u8>,
    pub credential: Vec<u8>,
}

/// The result of a gas-tracked call.
#[derive(Debug)]
pub struct Outcome {
    pub gas_limit: Option<u64>,
    pub gas_used: u64,
    pub result: Result<Vec<Event>, String>,
}

/// How far a transaction got: the result of each of its phases that ran.
#[derive(Debug)]
pub struct TxOutcome {
    pub gas_limit: u64,
    pub gas_used: u64,
    pub withhold_fee_result: Option<Result<Vec<Event>, String>>,
    pub process_msgs_result: Option<Result<Vec<Event>, String>>,
    pub finalize_fee_result: Option<Result<Vec<Event>, String>>,
}

/// The outcome of a block: the new root hash, then the outcome of each
/// cronjob and of each transaction, in order.
#[derive(Debug)]
pub struct BlockOutcome {
    pub app_hash: Vec<u8>,
    pub cron_outcomes: Vec<Outcome>,
    pub tx_outcomes: Vec<TxOutcome>,
}

/// A byte string with its length in front, as eight big-endian bytes.
pub open spec fn lp(a: Seq<u8>) -> Seq<u8> {
    be_bytes(a.len(), 8) + a
}

pub open spec fn addr_list_record(list: Seq<Addr>) -> Seq<u8>
    decreases list.len(),
{
    if list.len() == 0 { Seq::empty() } else { addr_list_record(list.drop_last()) + lp(list.last()@) }
}

pub open spec fn permission_record(p: Permission) -> Seq<u8> {
    match p {
        Permission::Nobody => seq![0u8],
        Permission::Everybody => seq![1u8],
        Permission::Somebodies(list) => seq![2u8] + be_bytes(list@.len(), 8) + addr_list_record(list@),
    }
}

pub open spec fn cronjobs_record(jobs: Seq<(Addr, u64)>) -> Seq<u8>
    decreases jobs.len(),
{
    if jobs.len() == 0 {
        Seq::empty()
    } else {
        cronjobs_record(jobs.drop_last()) + lp(jobs.last().0@) + be_bytes(jobs.last().1 as nat, 8)
    }
}

/// The stored form of a configuration: the owner (a flag, then the
/// address), bank, taxman, the two permissions (a tag, then the addresses
/// for a list), then the number of cronjobs and each address and interval.
/// Addresses carry their length in front.
pub open spec fn config_record(c: Config) -> Seq<u8> {
    (match c.owner { None => seq![0u8], Some(o) => seq![1u8] + lp(o@) })
        + lp(c.bank@) + lp(c.taxman@)
        + permission_record(c.upload_permission) + permission_record(c.instantiate_permission)
        + be_bytes(c.cronjobs@.len(), 8) + cronjobs_record(c.cronjobs@)
}

pub fn push_lp(a: &Vec<u8>, out: &mut Vec<u8>)
    ensures
        final(out)@ == old(out)@ + lp(a@),
{
    push_be_bytes(a.len() as u64, 8, out);
    let mut c = a.clone();
    out.append(&mut c);
    assert(final(out)@ =~= old(out)@ + lp(a@));
}

fn push_permission(p: &Permission, out: &mut Vec<u8>)
    ensures
        final(out)@ == old(out)@ + permission_record(*p),
{
    match p {
        Permission::Nobody => {
            out.push(0u8);
            assert(final(out)@ =~= old(out)@ + permission_record(*p));
        },
        Permission::Everybody => {
            out.push(1u8);
            assert(final(out)@ =~= old(out)@ + permission_record(*p));
        },
        Permission::Somebodies(list) => {
            out.push(2u8);
            push_be_bytes(list.len() as u64, 8, out);
            let ghost head = out@;
            let mut i: usize = 0;
            while i < list.len()
                invariant
                    i <= list@.len(),
                    out@ == head + addr_list_record(list@.take(i as int)),
                decreases list@.len() - i,
            {
                push_lp(&list[i], out);
                proof {
                    assert(list@.take(i + 1).drop_last() =~= list@.take(i as int));
                }
                i = i + 1;
            }
            assert(list@.take(list@.len() as int) =~= list@);
            assert(final(out)@ =~= old(out)@ + permission_record(*p));
        },
    }
}

/// The stored form of a configuration.
pub fn encode_config(c: &Config) -> (r: Vec<u8>)
    ensures
        r@ == config_record(*c),
{
    let mut out: Vec<u8> = Vec::new();
    match &c.owner {
        None => out.push(0u8),
        Some(o) => {
            out.push(1u8);
            push_lp(o, &mut out);
        },
    }
    push_lp(&c.bank, &mut out);
    push_lp(&c.taxman, &mut out);
    push_permission(&c.upload_permission, &mut out);
    push_permission(&c.instantiate_permission, &mut out);
    push_be_bytes(c.cronjobs.len() as u64, 8, &mut out);
    let ghost head = out@;
    let mut i: usize = 0;
    while i < c.cronjobs.len()
        invariant
            i <= c.cronjobs@.len(),
            out@ == head + cronjobs_record(c.cronjobs@.take(i as int)),
        decreases c.cronjobs@.len() - i,
    {
        push_lp(&c.cronjobs[i].0, &mut out);
        push_be_bytes(c.cronjobs[i].1, 8, &mut out);
        proof {
            assert(c.cronjobs@.take(i + 1).drop_last() =~= c.cronjobs@.take(i as int));
        }
        i = i + 1;
    }
    assert(c.cronjobs@.take(c.cronjobs@.len() as int) =~= c.cronjobs@);
    assert(out@ =~= config_record(*c));
    out
}

pub open spec fn schedule_entries(jobs: Seq<(u64, Addr)>) -> Seq<u8>
    decreases jobs.len(),
{
    if jobs.len() == 0 {
        Seq::empty()
    } else {
        schedule_entries(jobs.drop_last()) + be_bytes(jobs.last().0 as nat, 8) + lp(jobs.last().1@)
    }
}

/// The stored form of the cronjob schedule: the number of jobs, then each
/// job's time (eight big-endian bytes) and contract address.
pub open spec fn schedule_record(jobs: Seq<(u64, Addr)>) -> Seq<u8> {
    be_bytes(jobs.len(), 8) + schedule_entries(jobs)
}

pub fn encode_schedule(jobs: &Vec<(u64, Addr)>) -> (r: Vec<u8>)
    ensures
        r@ == schedule_record(jobs@),
{
    let mut out: Vec<u8> = Vec::new();
    push_be_bytes(jobs.len() as u64, 8, &mut out);
    let ghost head = out@;
    let mut i: usize = 0;
    while i < jobs.len()
        invariant
            i <= jobs@.len(),
            out@ == head + schedule_entries(jobs@.take(i as int)),
        decreases jobs@.len() - i,
    {
        push_be_bytes(jobs[i].0, 8, &mut out);
        push_lp(&jobs[i].1, &mut out);
        proof {
            assert(jobs@.take(i + 1).drop_last() =~= jobs@.take(i as int));
        }
        i = i + 1;
    }
    assert(jobs@.take(jobs@.len() as int) =~= jobs@);
    out
}

/// Whether `list` holds `a`.
pub fn contains_addr(list: &Vec<Addr>, a: &Addr) -> (r: bool)
    ensures
        r == exists|i: int| 0 <= i < list@.len() && (#[trigger] list@[i])@ == a@,
{
    let mut i: usize = 0;
    while i < list.len()
        invariant
            i <= list@.len(),
            forall|j: int| 0 <= j < i ==> (#[trigger] list@[j])@ != a@,
        decreases list@.len() - i,
    {
        if bytes_eq(&list[i], a) {
            return true;
        }
        i = i + 1;
    }
    false
}

pub open spec fn permits(permission: Permission, sender: Seq<u8>) -> bool {
    match permission {
        Permission::Nobody => false,
        Permission::Everybody => true,
        Permission::Somebodies(list) => exists|i: int| 0 <= i < list@.len() && (#[trigger] list@[i])@ == sender,
    }
}

/// Whether `sender` may act under `permission`: the genesis sender and the
/// owner always may; others as the permission says.
pub fn has_permission(permission: &Permission, owner: Option<&Addr>, sender: &Addr) -> (r: bool)
    ensures
        r == (sender@ == genesis_sender_bytes() || (owner matches Some(o) && o@ == sender@)
            || permits(*permission, sender@)),
{
    let g = genesis_sender();
    if bytes_eq(sender, &g) {
        return true;
    }
    if let Some(o) = owner {
        if bytes_eq(sender, o) {
            return true;
        }
    }
    match permission {
        Permission::Nobody => false,
        Permission::Everybody => true,
        Permission::Somebodies(list) => contains_addr(list, sender),
    }
}

/// Something with an address on the chain.
pub trait Addressable {
    fn address(&self) -> Addr;
}

/// Something that signs transactions: given the messages, the chain and
/// the gas limit, it produces a transaction with its credential. Signing
/// may update the signer (a sequence number, say).
pub trait Signer: Addressable {
    fn sign_transaction(&mut self, msgs: Vec<Message>, chain_id: &str, gas_limit: u64) -> Result<Tx, String>;
}

} // verus!
