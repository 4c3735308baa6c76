//! The state stage: reads headers and bodies over a block range, validates
//! the transaction windows, and applies the executor's changesets to the
//! plain state — accounts, storage and bytecodes — committing progress per
//! sub-range.

use crate::blocks::{Header, StoredBlockBody, TransactionRecord, Withdrawal};
use crate::chain::ChainSpec;
use crate::codec::{keccak256, keccak_of};
use crate::db::{BodiesDb, HeadersDb, StateDb, StateView};
use crate::errors::SyncError;
use crate::kv::tbl_get;
use crate::nums::{b256_of_w256, AddressV, B256, W256};
use crate::state_tables::{spec_delete_entry, spec_put_entry, Account};
use vstd::prelude::*;

verus! {

/// What a transaction or block did to one account's basic state.
#[derive(Clone, Copy, PartialEq, Eq, Structural, Debug)]
pub enum AccountInfoChangeSet {
    Changed { new: Account, old: Account },
    Created { new: Account },
    Destroyed { old: Account },
    NoChange,
}

/// One storage slot's transition.
#[derive(Clone, Copy, PartialEq, Eq, Structural, Debug)]
pub struct StorageChange {
    pub key: W256,
    pub old_value: W256,
    pub new_value: W256,
}

/// Everything a transaction did to one account.
#[derive(Clone, Debug)]
pub struct AccountChangeSet {
    pub account: AccountInfoChangeSet,
    pub wipe_storage: bool,
    pub storage: Vec<StorageChange>,
}

/// One transaction's changes, with the bytecodes it deployed.
#[derive(Clone, Debug)]
pub struct TxChangeSet {
    pub changeset: Vec<(AddressV, AccountChangeSet)>,
    pub new_bytecodes: Vec<(B256, Vec<u8>)>,
}

/// What executing one block yields: per-transaction changes in order, then
/// the block-level changes (rewards).
#[derive(Clone, Debug)]
pub struct ExecutionResult {
    pub tx_changesets: Vec<TxChangeSet>,
    pub block_changesets: Vec<(AddressV, AccountInfoChangeSet)>,
}

/// One assembled block, ready for the executor.
pub struct BlockInput {
    pub header: Header,
    pub td: W256,
    pub body: StoredBlockBody,
    pub transactions: Vec<TransactionRecord>,
    pub ommers: Vec<Header>,
    pub withdrawals: Option<Vec<Withdrawal>>,
}

/// An account-info change on the account map. Under the EIP-161 rule an
/// empty account is not written.
pub open spec fn sv_apply_account(
    v: StateView,
    address: AddressV,
    ch: AccountInfoChangeSet,
    spurious: bool,
) -> StateView {
    match ch {
        AccountInfoChangeSet::Changed { new, .. } => if spurious && new.spec_is_empty() {
            v
        } else {
            StateView { accounts: v.accounts.insert(address, new), ..v }
        },
        AccountInfoChangeSet::Created { new } => if spurious && new.spec_is_empty() {
            v
        } else {
            StateView { accounts: v.accounts.insert(address, new), ..v }
        },
        AccountInfoChangeSet::Destroyed { .. } => StateView {
            accounts: v.accounts.remove(address),
            ..v
        },
        AccountInfoChangeSet::NoChange => v,
    }
}

/// One slot transition: the old duplicate row goes, a non-zero new value
/// comes back.
pub open spec fn sv_apply_storage_entry(
    v: StateView,
    address: AddressV,
    c: StorageChange,
) -> StateView {
    let k = b256_of_w256(c.key);
    let st1 = spec_delete_entry(v.storage, address, k, c.old_value);
    if c.new_value.value() != 0 {
        StateView { storage: spec_put_entry(st1, address, k, c.new_value), ..v }
    } else {
        StateView { storage: st1, ..v }
    }
}

/// The first `n` slot transitions, in order.
pub open spec fn sv_apply_storage(
    v: StateView,
    address: AddressV,
    cs: Seq<StorageChange>,
    n: int,
) -> StateView
    decreases n,
{
    if n <= 0 {
        v
    } else {
        sv_apply_storage_entry(sv_apply_storage(v, address, cs, n - 1), address, cs[n - 1])
    }
}

/// After a wipe: the account's rows are gone, and the first `n` non-zero
/// new values are written fresh.
pub open spec fn sv_apply_storage_wiped(
    v: StateView,
    address: AddressV,
    cs: Seq<StorageChange>,
    n: int,
) -> StateView
    decreases n,
{
    if n <= 0 {
        v
    } else {
        let prev = sv_apply_storage_wiped(v, address, cs, n - 1);
        if cs[n - 1].new_value.value() != 0 {
            StateView {
                storage: spec_put_entry(
                    prev.storage,
                    address,
                    b256_of_w256(cs[n - 1].key),
                    cs[n - 1].new_value,
                ),
                ..prev
            }
        } else {
            prev
        }
    }
}

/// One account's whole changeset: the account change, then its storage.
pub open spec fn sv_apply_account_changeset(
    v: StateView,
    address: AddressV,
    acs: AccountChangeSet,
    spurious: bool,
) -> StateView {
    let v1 = sv_apply_account(v, address, acs.account, spurious);
    if acs.wipe_storage {
        sv_apply_storage_wiped(
            StateView { storage: v1.storage.remove(address), ..v1 },
            address,
            acs.storage@,
            acs.storage@.len() as int,
        )
    } else {
        sv_apply_storage(v1, address, acs.storage@, acs.storage@.len() as int)
    }
}

/// The first `n` per-account changesets of a transaction, in order.
pub open spec fn sv_apply_changeset_list(
    v: StateView,
    cs: Seq<(AddressV, AccountChangeSet)>,
    n: int,
    spurious: bool,
) -> StateView
    decreases n,
{
    if n <= 0 {
        v
    } else {
        let prev = sv_apply_changeset_list(v, cs, n - 1, spurious);
        sv_apply_account_changeset(prev, cs[n - 1].0, cs[n - 1].1, spurious)
    }
}

/// The first `n` block-level account changes, in order.
pub open spec fn sv_apply_info_list(
    v: StateView,
    cs: Seq<(AddressV, AccountInfoChangeSet)>,
    n: int,
    spurious: bool,
) -> StateView
    decreases n,
{
    if n <= 0 {
        v
    } else {
        sv_apply_account(
            sv_apply_info_list(v, cs, n - 1, spurious),
            cs[n - 1].0,
            cs[n - 1].1,
            spurious,
        )
    }
}

/// The first `n` deployed bytecodes, keyed by their hashes.
pub open spec fn sv_apply_bytecodes(v: StateView, bs: Seq<(B256, Vec<u8>)>, n: int) -> StateView
    decreases n,
{
    if n <= 0 {
        v
    } else {
        let prev = sv_apply_bytecodes(v, bs, n - 1);
        StateView { bytecodes: prev.bytecodes.insert(bs[n - 1].0, bs[n - 1].1@), ..prev }
    }
}

/// The first `n` transactions' changesets of a block, each followed by its
/// bytecodes.
pub open spec fn sv_apply_tx_changesets(
    v: StateView,
    ts: Seq<TxChangeSet>,
    n: int,
    spurious: bool,
) -> StateView
    decreases n,
{
    if n <= 0 {
        v
    } else {
        let prev = sv_apply_tx_changesets(v, ts, n - 1, spurious);
        let t = ts[n - 1];
        sv_apply_bytecodes(
            sv_apply_changeset_list(prev, t.changeset@, t.changeset@.len() as int, spurious),
            t.new_bytecodes@,
            t.new_bytecodes@.len() as int,
        )
    }
}

/// A whole block's result: the transactions in order, then the block-level
/// changes.
pub open spec fn sv_apply_result(v: StateView, r: ExecutionResult, spurious: bool) -> StateView {
    let v1 = sv_apply_tx_changesets(v, r.tx_changesets@, r.tx_changesets@.len() as int, spurious);
    sv_apply_info_list(v1, r.block_changesets@, r.block_changesets@.len() as int, spurious)
}

/// The first `n` blocks' results, block numbers counting up from
/// `first_block`, each under its own fork activation.
pub open spec fn sv_apply_results(
    v: StateView,
    rs: Seq<ExecutionResult>,
    first_block: u64,
    n: int,
    chain: ChainSpec,
) -> StateView
    decreases n,
{
    if n <= 0 {
        v
    } else {
        let prev = sv_apply_results(v, rs, first_block, n - 1, chain);
        sv_apply_result(
            prev,
            rs[n - 1],
            chain.spec_spurious_dragon_active((first_block + n - 1) as u64),
        )
    }
}

/// Law: a run split at any block boundary commits the same state as one
/// uninterrupted run — executing the first `a` blocks and then the rest
/// ends exactly where executing all of them at once does.
pub proof fn lemma_sv_apply_results_split(
    v: StateView,
    rs: Seq<ExecutionResult>,
    first_block: u64,
    a: int,
    n: int,
    chain: ChainSpec,
)
    requires
        0 <= a <= n <= rs.len(),
        first_block + n <= u64::MAX,
    ensures
        sv_apply_results(v, rs, first_block, n, chain) == sv_apply_results(
            sv_apply_results(v, rs, first_block, a, chain),
            rs.skip(a),
            (first_block + a) as u64,
            n - a,
            chain,
        ),
    decreases n - a,
{
    if a < n {
        lemma_sv_apply_results_split(v, rs, first_block, a, n - 1, chain);
        let w = sv_apply_results(v, rs, first_block, a, chain);
        assert(rs.skip(a)[n - 1 - a] == rs[n - 1]);
        assert(sv_apply_results(w, rs.skip(a), (first_block + a) as u64, n - a, chain)
            == sv_apply_result(
            sv_apply_results(w, rs.skip(a), (first_block + a) as u64, n - a - 1, chain),
            rs.skip(a)[n - a - 1],
            chain.spec_spurious_dragon_active((first_block + a + (n - a) - 1) as u64),
        ));
    }
}

/// All deployed bytecodes of a result are keyed by their own hashes.
pub open spec fn bytecodes_hashed(r: ExecutionResult) -> bool {
    forall|i: int, j: int|
        0 <= i < r.tx_changesets@.len() && 0 <= j < (#[trigger] r.tx_changesets@[i]).new_bytecodes@
            .len() ==> (#[trigger] r.tx_changesets@[i].new_bytecodes@[j]).0 == keccak_of(
            r.tx_changesets@[i].new_bytecodes@[j].1@,
        )
}

/// The sum of the difficulties of the first `n` header rows.
pub open spec fn td_sum(s: Seq<(u64, Header)>, n: int) -> int
    decreases n,
{
    if n <= 0 {
        0
    } else {
        td_sum(s, n - 1) + s[n - 1].1.difficulty.value()
    }
}

/// The assembled form of block `n`: the stored header and body, the
/// verified gap-free transaction window, and the ommers and withdrawals
/// with absent rows meaning none.
#[verifier::opaque]
pub open spec fn assembled_block(
    headers: HeadersDb,
    bodies: BodiesDb,
    input: BlockInput,
    n: u64,
) -> bool {
    &&& tbl_get(headers.headers@, n) == Some(input.header)
    &&& tbl_get(bodies.bodies@, n) == Some(input.body)
    &&& input.transactions@.len() == input.body.tx_count
    &&& (forall|k: int|
        0 <= k < input.transactions@.len() ==> tbl_get(
            bodies.transactions@,
            (input.body.start_tx_id + k) as u64,
        ) == Some(#[trigger] input.transactions@[k]))
    &&& (match tbl_get(bodies.ommers@, n) {
        Some(row) => input.ommers@ == row.ommers@,
        None => input.ommers@.len() == 0,
    })
    &&& (match tbl_get(bodies.withdrawals@, n) {
        Some(row) => input.withdrawals matches Some(w) && w@ == row.withdrawals@,
        None => input.withdrawals is None,
    })
}

/// What each sub-range error testifies to: a missing row, a transaction
/// gap, a difficulty overflow, an overflowing id window, or a mis-keyed
/// bytecode; nothing else aborts a sub-range.
pub open spec fn chunk_error_witnessed(e: SyncError, headers: HeadersDb, bodies: BodiesDb) -> bool {
    match e {
        SyncError::HeaderMissing { number } => tbl_get(headers.headers@, number) is None,
        SyncError::BlockBodyMissing { number } => tbl_get(bodies.bodies@, number) is None,
        SyncError::TransactionsGap { missing } => tbl_get(bodies.transactions@, missing) is None,
        SyncError::DifficultyOverflow => true,
        SyncError::Database => exists|n: u64|
            #[trigger] tbl_get(bodies.bodies@, n) matches Some(b) && (b.start_tx_id > u64::MAX
                - b.tx_count || b.tx_count > usize::MAX as u64),
        SyncError::BytecodeHashMismatch { .. } => true,
        _ => false,
    }
}

/// A failed run leaves exactly the state of the last committed sub-range:
/// the content maps are the fold of the results through some boundary `p`,
/// and the marker names `p` — the failing sub-range is fully rolled back.
pub open spec fn rolled_back_to(
    pre: StateSync,
    post: StateSync,
    results: Seq<ExecutionResult>,
    to: u64,
    p: u64,
) -> bool {
    let p0 = (match pre.db.progress {
        Some(q) => q,
        None => 0u64,
    });
    &&& p0 <= p <= to
    &&& post.db@.accounts == sv_apply_results(
        pre.db@,
        results,
        (p0 + 1) as u64,
        p - p0,
        pre.chain_spec,
    ).accounts
    &&& post.db@.storage == sv_apply_results(
        pre.db@,
        results,
        (p0 + 1) as u64,
        p - p0,
        pre.chain_spec,
    ).storage
    &&& post.db@.bytecodes == sv_apply_results(
        pre.db@,
        results,
        (p0 + 1) as u64,
        p - p0,
        pre.chain_spec,
    ).bytecodes
    &&& (p > p0 ==> post.db.progress == Some(p))
    &&& (p == p0 ==> post.db.progress == pre.db.progress)
}

/// The total difficulty of the `t`-th assembled block continues its
/// predecessor's — or the seed, for the first — by its own difficulty.
#[verifier::opaque]
pub open spec fn td_chained(batch: Seq<BlockInput>, td0: W256, t: int) -> bool {
    batch[t].td.value() == (if t == 0 {
        td0.value()
    } else {
        batch[t - 1].td.value()
    }) + batch[t].header.difficulty.value()
}

/// The state stage: executes block ranges against the plain state.
pub struct StateSync {
    pub db: StateDb,
    pub commit_threshold: u64,
    pub chain_spec: ChainSpec,
}

impl StateSync {
    pub fn new(db: StateDb, commit_threshold: u64, chain_spec: ChainSpec) -> (r: StateSync)
        ensures
            r.db == db,
            r.commit_threshold == commit_threshold,
            r.chain_spec == chain_spec,
    {
        StateSync { db, commit_threshold, chain_spec }
    }

    /// Gives the database back when the stage is done.
    pub fn into_db(self) -> (r: StateDb)
        ensures
            r == self.db,
    {
        self.db
    }

    /// The stage's progress marker; a fresh database reads as zero.
    pub fn get_progress(&self) -> (r: u64)
        ensures
            r == match self.db.progress {
                Some(p) => p,
                None => 0u64,
            },
    {
        match self.db.progress {
            Some(p) => p,
            None => 0,
        }
    }

    /// The total difficulty through `block`: the genesis difficulty at
    /// block zero, otherwise the sum over the stored headers up to and
    /// including it. A sum beyond 256 bits is an error.
    #[verifier::loop_isolation(false)]
    pub fn get_td(&self, headers: &HeadersDb, block: u64) -> (r: Result<W256, SyncError>)
        requires
            headers.wf(),
        ensures
            match r {
                Ok(td) => block == 0 && td == self.chain_spec.genesis.header.difficulty || block
                    > 0 && td.value() == td_sum(
                    headers.headers@,
                    prefix_upto(headers.headers@, block),
                ),
                Err(e) => block > 0 && e == SyncError::DifficultyOverflow && exists|k: int|
                    0 <= k <= headers.headers@.len() && td_sum(#[trigger] headers.headers@, k)
                        >= crate::nums::pow2_256(),
            },
    {
        if block == 0 {
            return Ok(self.chain_spec.genesis.header.difficulty);
        }
        let mut td = W256::zero();
        let n = self.table_len(headers);
        let mut i: usize = 0;
        while i < n
            invariant
                0 <= i <= n,
                n == headers.headers@.len(),
                forall|t: int| 0 <= t < i ==> (#[trigger] headers.headers@[t]).0 <= block,
                td.value() == td_sum(headers.headers@, i as int),
            decreases n - i,
        {
            let e = headers.headers.entry_at(i);
            if e.0 > block {
                proof {
                    lemma_prefix_upto_bound(headers.headers@, block, i as int);
                    lemma_prefix_upto_nonneg(headers.headers@, block);
                    if i > 0 {
                        lemma_prefix_upto_step(headers.headers@, block, i - 1);
                    }
                }
                return Ok(td);
            }
            td = match td.checked_add(e.1.difficulty) {
                Some(t) => t,
                None => {
                    proof {
                        assert(td_sum(headers.headers@, i + 1) == td_sum(
                            headers.headers@,
                            i as int,
                        ) + headers.headers@[i as int].1.difficulty.value());
                        assert(td_sum(headers.headers@, i + 1) >= crate::nums::pow2_256());
                    }
                    return Err(SyncError::DifficultyOverflow);
                },
            };
            i = i + 1;
        }
        proof {
            lemma_prefix_upto_all(headers.headers@, block);
            lemma_prefix_upto_nonneg(headers.headers@, block);
            if n > 0 {
                lemma_prefix_upto_step(headers.headers@, block, n - 1);
            }
        }
        Ok(td)
    }

    fn table_len(&self, headers: &HeadersDb) -> (r: usize)
        ensures
            r == headers.headers@.len(),
    {
        headers.headers.len()
    }

    /// Applies one account-info change: an upsert for a changed or created
    /// account — skipped for an account that the EIP-161 rule clears — a
    /// delete for a destroyed one, nothing otherwise.
    pub fn apply_account_changeset(
        &mut self,
        changeset: &AccountInfoChangeSet,
        address: &AddressV,
        has_state_clear_eip: bool,
    )
        requires
            old(self).db.wf(),
        ensures
            final(self).db.wf(),
            final(self).db@ == sv_apply_account(
                old(self).db@,
                *address,
                *changeset,
                has_state_clear_eip,
            ),
            final(self).commit_threshold == old(self).commit_threshold,
            final(self).chain_spec == old(self).chain_spec,
    {
        match changeset {
            AccountInfoChangeSet::Changed { new, .. } => {
                if has_state_clear_eip && new.is_empty() {
                    return ;
                }
                self.db.accounts.upsert(*address, *new);
            },
            AccountInfoChangeSet::Created { new } => {
                if has_state_clear_eip && new.is_empty() {
                    return ;
                }
                self.db.accounts.upsert(*address, *new);
            },
            AccountInfoChangeSet::Destroyed { .. } => {
                self.db.accounts.delete(address);
            },
            AccountInfoChangeSet::NoChange => {},
        }
    }

    /// Applies one account's whole changeset: the account change, then —
    /// after a wipe, from a clean slate — every slot transition, storing no
    /// zero value.
    #[verifier::loop_isolation(false)]
    pub fn apply_one_account(
        &mut self,
        address: &AddressV,
        acs: &AccountChangeSet,
        has_state_clear_eip: bool,
    )
        requires
            old(self).db.wf(),
        ensures
            final(self).db.wf(),
            final(self).db@ == sv_apply_account_changeset(
                old(self).db@,
                *address,
                *acs,
                has_state_clear_eip,
            ),
            final(self).commit_threshold == old(self).commit_threshold,
            final(self).chain_spec == old(self).chain_spec,
    {
        self.apply_account_changeset(&acs.account, address, has_state_clear_eip);
        let n = acs.storage.len();
        let mut i: usize = 0;
        if acs.wipe_storage {
            self.db.storage.wipe(address);
            let ghost v1 = self.db@;
            while i < n
                invariant
                    0 <= i <= n,
                    self.db.wf(),
                    self.db@ == sv_apply_storage_wiped(v1, *address, acs.storage@, i as int),
                    self.commit_threshold == old(self).commit_threshold,
                    self.chain_spec == old(self).chain_spec,
                decreases n - i,
            {
                let c = acs.storage[i];
                if !c.new_value.is_zero() {
                    let key = crate::nums::w256_to_b256(c.key);
                    self.db.storage.put_entry(address, &key, &c.new_value);
                }
                i = i + 1;
            }
        } else {
            let ghost v1 = self.db@;
            while i < n
                invariant
                    0 <= i <= n,
                    self.db.wf(),
                    self.db@ == sv_apply_storage(v1, *address, acs.storage@, i as int),
                    self.commit_threshold == old(self).commit_threshold,
                    self.chain_spec == old(self).chain_spec,
                decreases n - i,
            {
                let c = acs.storage[i];
                let key = crate::nums::w256_to_b256(c.key);
                self.db.storage.delete_entry(address, &key, &c.old_value);
                if !c.new_value.is_zero() {
                    self.db.storage.put_entry(address, &key, &c.new_value);
                }
                i = i + 1;
            }
        }
    }

    /// Applies a whole execution result to the plain state: per transaction
    /// the account and storage changes in order and then the deployed
    /// bytecodes, finally the block-level changes. Every bytecode must come
    /// keyed by its own hash.
    #[verifier::loop_isolation(false)]
    pub fn apply_state_changes(&mut self, block: u64, result: &ExecutionResult)
        requires
            old(self).db.wf(),
            bytecodes_hashed(*result),
        ensures
            final(self).db.wf(),
            final(self).db@ == sv_apply_result(
                old(self).db@,
                *result,
                old(self).chain_spec.spec_spurious_dragon_active(block),
            ),
            final(self).commit_threshold == old(self).commit_threshold,
            final(self).chain_spec == old(self).chain_spec,
    {
        let spurious = self.chain_spec.spurious_dragon_active_at_block(block);
        let nt = result.tx_changesets.len();
        let mut t: usize = 0;
        let ghost v0 = self.db@;
        while t < nt
            invariant
                0 <= t <= nt,
                self.db.wf(),
                self.db@ == sv_apply_tx_changesets(v0, result.tx_changesets@, t as int, spurious),
                self.commit_threshold == old(self).commit_threshold,
                self.chain_spec == old(self).chain_spec,
            decreases nt - t,
        {
            let tx = &result.tx_changesets[t];
            let nc = tx.changeset.len();
            let mut c: usize = 0;
            let ghost vt = self.db@;
            while c < nc
                invariant
                    0 <= c <= nc,
                    self.db.wf(),
                    self.db@ == sv_apply_changeset_list(vt, tx.changeset@, c as int, spurious),
                    self.commit_threshold == old(self).commit_threshold,
                    self.chain_spec == old(self).chain_spec,
                decreases nc - c,
            {
                let (address, acs) = &tx.changeset[c];
                self.apply_one_account(address, acs, spurious);
                c = c + 1;
            }
            let nb = tx.new_bytecodes.len();
            let mut b: usize = 0;
            let ghost vb = self.db@;
            while b < nb
                invariant
                    0 <= b <= nb,
                    self.db.wf(),
                    self.db@ == sv_apply_bytecodes(vb, tx.new_bytecodes@, b as int),
                    self.commit_threshold == old(self).commit_threshold,
                    self.chain_spec == old(self).chain_spec,
                decreases nb - b,
            {
                let (hash, code) = &tx.new_bytecodes[b];
                let mut copied: Vec<u8> = Vec::new();
                let m = code.len();
                let mut k: usize = 0;
                while k < m
                    invariant
                        0 <= k <= m,
                        copied@ == code@.take(k as int),
                    decreases m - k,
                {
                    copied.push(code[k]);
                    proof {
                        assert(copied@ =~= code@.take(k + 1));
                    }
                    k = k + 1;
                }
                proof {
                    assert(copied@ =~= code@);
                }
                self.db.bytecodes.put(*hash, copied);
                proof {
                    assert forall|h: B256| #[trigger]
                        self.db.bytecodes@.contains_key(h) implies h == keccak_of(
                        self.db.bytecodes@[h],
                    ) by {
                    }
                }
                b = b + 1;
            }
            t = t + 1;
        }
        let nb = result.block_changesets.len();
        let mut c: usize = 0;
        let ghost vf = self.db@;
        while c < nb
            invariant
                0 <= c <= nb,
                self.db.wf(),
                self.db@ == sv_apply_info_list(vf, result.block_changesets@, c as int, spurious),
                self.commit_threshold == old(self).commit_threshold,
                self.chain_spec == old(self).chain_spec,
            decreases nb - c,
        {
            let (address, ch) = &result.block_changesets[c];
            self.apply_account_changeset(ch, address, spurious);
            c = c + 1;
        }
    }

    /// Executes a contiguous window of blocks from `first_block` on: checks
    /// every deployed bytecode against its hash, applies each block's
    /// result in order, and advances the `EXECUTION` marker to the last
    /// block — exactly the highest block whose changeset was applied.
    #[verifier::loop_isolation(false)]
    pub fn execute_batch(
        &mut self,
        first_block: u64,
        results: &Vec<ExecutionResult>,
        offset: usize,
        count: usize,
    ) -> (r: Result<(), SyncError>)
        requires
            old(self).db.wf(),
            count > 0,
            offset + count <= results@.len(),
            first_block + count <= u64::MAX,
        ensures
            final(self).db.wf(),
            final(self).commit_threshold == old(self).commit_threshold,
            final(self).chain_spec == old(self).chain_spec,
            match r {
                Ok(()) => {
                    &&& forall|i: int|
                        offset <= i < offset + count ==> bytecodes_hashed(#[trigger] results@[i])
                    &&& final(self).db@.accounts == sv_apply_results(
                        old(self).db@,
                        results@.skip(offset as int),
                        first_block,
                        count as int,
                        old(self).chain_spec,
                    ).accounts
                    &&& final(self).db@.storage == sv_apply_results(
                        old(self).db@,
                        results@.skip(offset as int),
                        first_block,
                        count as int,
                        old(self).chain_spec,
                    ).storage
                    &&& final(self).db@.bytecodes == sv_apply_results(
                        old(self).db@,
                        results@.skip(offset as int),
                        first_block,
                        count as int,
                        old(self).chain_spec,
                    ).bytecodes
                    &&& final(self).db.progress == Some((first_block + count - 1) as u64)
                },
                Err(e) => {
                    &&& *final(self) == *old(self)
                    &&& e matches SyncError::BytecodeHashMismatch { .. }
                    &&& exists|i: int|
                        offset <= i < offset + count && !bytecodes_hashed(#[trigger] results@[i])
                },
            },
    {
        let rn = results.len();
        // verify every deployed bytecode against its hash before anything
        // is written
        let mut i: usize = 0;
        while i < count
            invariant
                0 <= i <= count,
                rn == results@.len(),
                forall|t: int|
                    offset <= t < offset + i ==> bytecodes_hashed(#[trigger] results@[t]),
            decreases count - i,
        {
            match Self::check_bytecodes(&results[offset + i]) {
                Ok(()) => {},
                Err(e) => {
                    return Err(e);
                },
            }
            i = i + 1;
        }
        let ghost v0 = self.db@;
        let ghost window = results@.skip(offset as int);
        let mut b: usize = 0;
        while b < count
            invariant
                0 <= b <= count,
                rn == results@.len(),
                self.db.wf(),
                self.db@.accounts == sv_apply_results(
                    v0,
                    window,
                    first_block,
                    b as int,
                    old(self).chain_spec,
                ).accounts,
                self.db@.storage == sv_apply_results(
                    v0,
                    window,
                    first_block,
                    b as int,
                    old(self).chain_spec,
                ).storage,
                self.db@.bytecodes == sv_apply_results(
                    v0,
                    window,
                    first_block,
                    b as int,
                    old(self).chain_spec,
                ).bytecodes,
                self.commit_threshold == old(self).commit_threshold,
                self.chain_spec == old(self).chain_spec,
            decreases count - b,
        {
            let ghost before = self.db@;
            let block = first_block + b as u64;
            proof {
                assert(window[b as int] == results@[offset + b]);
            }
            self.apply_state_changes(block, &results[offset + b]);
            proof {
                lemma_sv_apply_result_parts(
                    before,
                    sv_apply_results(v0, window, first_block, b as int, old(self).chain_spec),
                    window[b as int],
                    old(self).chain_spec.spec_spurious_dragon_active(block),
                );
            }
            b = b + 1;
        }
        self.db.progress = Some(first_block + (count - 1) as u64);
        Ok(())
    }

    /// Assembles one block for execution: the stored header, the advanced
    /// total difficulty, the body row, its transaction window — verified
    /// gap-free — and the ommers and withdrawals, absent rows meaning none.
    #[verifier::loop_isolation(false)]
    pub fn assemble_one(
        &self,
        headers: &HeadersDb,
        bodies: &BodiesDb,
        n: u64,
        td: &mut W256,
    ) -> (r: Result<BlockInput, SyncError>)
        requires
            headers.wf(),
            bodies.wf(),
        ensures
            match r {
                Ok(input) => {
                    &&& assembled_block(*headers, *bodies, input, n)
                    &&& input.td.value() == old(td).value() + input.header.difficulty.value()
                    &&& *final(td) == input.td
                },
                Err(e) => match e {
                    SyncError::HeaderMissing { number } => number == n && tbl_get(
                        headers.headers@,
                        number,
                    ) is None,
                    SyncError::BlockBodyMissing { number } => number == n && tbl_get(
                        bodies.bodies@,
                        number,
                    ) is None,
                    SyncError::TransactionsGap { missing } => tbl_get(
                        bodies.transactions@,
                        missing,
                    ) is None,
                    SyncError::DifficultyOverflow => true,
                    SyncError::Database => tbl_get(bodies.bodies@, n) matches Some(b) && (
                    b.start_tx_id > u64::MAX - b.tx_count || b.tx_count > usize::MAX as u64),
                    _ => false,
                },
            },
    {
        let header = match headers.headers.get(n) {
            Some(h) => *h,
            None => {
                return Err(SyncError::HeaderMissing { number: n });
            },
        };
        *td = match td.checked_add(header.difficulty) {
            Some(t) => t,
            None => {
                return Err(SyncError::DifficultyOverflow);
            },
        };
        let body = match bodies.bodies.get(n) {
            Some(b) => *b,
            None => {
                return Err(SyncError::BlockBodyMissing { number: n });
            },
        };
        if body.start_tx_id > u64::MAX - body.tx_count {
            return Err(SyncError::Database);
        }
        if body.tx_count > usize::MAX as u64 {
            return Err(SyncError::Database);
        }
        // walk the block's transaction window and verify it is gap-free
        let mut transactions: Vec<TransactionRecord> = Vec::new();
        let tc = body.tx_count as usize;
        let mut k: usize = 0;
        while k < tc
            invariant
                0 <= k <= tc,
                tc == body.tx_count,
                body.start_tx_id + body.tx_count <= u64::MAX,
                transactions@.len() == k,
                forall|t: int|
                    0 <= t < k ==> tbl_get(bodies.transactions@, (body.start_tx_id + t) as u64)
                        == Some(#[trigger] transactions@[t]),
            decreases tc - k,
        {
            let id = body.start_tx_id + k as u64;
            match bodies.transactions.get(id) {
                Some(tx) => {
                    transactions.push(*tx);
                },
                None => {
                    return Err(SyncError::TransactionsGap { missing: id });
                },
            }
            k = k + 1;
        }
        // ommers and withdrawals: absent rows mean none
        let mut ommers: Vec<Header> = Vec::new();
        match bodies.ommers.get(n) {
            Some(row) => {
                let w = row.ommers.len();
                let mut t: usize = 0;
                while t < w
                    invariant
                        0 <= t <= w,
                        w == row.ommers@.len(),
                        ommers@ == row.ommers@.take(t as int),
                    decreases w - t,
                {
                    ommers.push(row.ommers[t]);
                    proof {
                        assert(ommers@ =~= row.ommers@.take(t + 1));
                    }
                    t = t + 1;
                }
                proof {
                    assert(ommers@ =~= row.ommers@);
                }
            },
            None => {},
        }
        let withdrawals: Option<Vec<Withdrawal>> = match bodies.withdrawals.get(n) {
            Some(row) => {
                let mut ws: Vec<Withdrawal> = Vec::new();
                let w = row.withdrawals.len();
                let mut t: usize = 0;
                while t < w
                    invariant
                        0 <= t <= w,
                        w == row.withdrawals@.len(),
                        ws@ == row.withdrawals@.take(t as int),
                    decreases w - t,
                {
                    ws.push(row.withdrawals[t]);
                    proof {
                        assert(ws@ =~= row.withdrawals@.take(t + 1));
                    }
                    t = t + 1;
                }
                proof {
                    assert(ws@ =~= row.withdrawals@);
                }
                Some(ws)
            },
            None => None,
        };
        proof {
            reveal(assembled_block);
        }
        Ok(BlockInput { header, td: *td, body, transactions, ommers, withdrawals })
    }

    /// Assembles the blocks of an inclusive range for execution, block by
    /// block through `assemble_one`, threading the total difficulty.
    #[verifier::loop_isolation(false)]
    #[verifier::rlimit(60)]
    pub fn assemble_batch(
        &self,
        headers: &HeadersDb,
        bodies: &BodiesDb,
        from: u64,
        to: u64,
        td: &mut W256,
    ) -> (r: Result<Vec<BlockInput>, SyncError>)
        requires
            headers.wf(),
            bodies.wf(),
            0 < from <= to,
            to < u64::MAX,
            to - from + 1 <= usize::MAX,
        ensures
            match r {
                Ok(batch) => {
                    &&& batch@.len() == to - from + 1
                    &&& forall|i: int|
                        #![trigger batch@[i]]
                        0 <= i < batch@.len() ==> assembled_block(
                            *headers,
                            *bodies,
                            batch@[i],
                            (from + i) as u64,
                        )
                    &&& forall|i: int|
                        0 <= i < batch@.len() ==> td_chained(batch@, *old(td), i)
                    &&& *final(td) == batch@.last().td
                },
                Err(e) => match e {
                    SyncError::HeaderMissing { number } => from <= number <= to && tbl_get(
                        headers.headers@,
                        number,
                    ) is None,
                    SyncError::BlockBodyMissing { number } => from <= number <= to && tbl_get(
                        bodies.bodies@,
                        number,
                    ) is None,
                    SyncError::TransactionsGap { missing } => tbl_get(
                        bodies.transactions@,
                        missing,
                    ) is None,
                    SyncError::DifficultyOverflow => true,
                    SyncError::Database => exists|n: u64|
                        #[trigger] tbl_get(bodies.bodies@, n) matches Some(b) && (b.start_tx_id
                            > u64::MAX - b.tx_count || b.tx_count > usize::MAX as u64),
                    _ => false,
                },
            },
    {
        let count = (to - from + 1) as usize;
        let mut batch: Vec<BlockInput> = Vec::new();
        let mut i: usize = 0;
        let ghost td0 = *td;
        while i < count
            invariant
                0 <= i <= count,
                count == to - from + 1,
                from + i <= u64::MAX,
                batch@.len() == i,
                forall|t: int|
                    #![trigger batch@[t]]
                    0 <= t < i ==> assembled_block(*headers, *bodies, batch@[t], (from + t) as u64),
                forall|t: int| 0 <= t < i ==> td_chained(batch@, td0, t),
                i > 0 ==> *td == batch@.last().td,
                i == 0 ==> *td == td0,
            decreases count - i,
        {
            let n = from + i as u64;
            let ghost batch0 = batch@;
            let ghost td_before = *td;
            let input = match self.assemble_one(headers, bodies, n, td) {
                Ok(inp) => inp,
                Err(e) => {
                    return Err(e);
                },
            };
            batch.push(input);
            proof {
                assert(batch@[i as int] == input);
                assert(batch@.last() == input);
                assert forall|t: int|
                    #![trigger batch@[t]]
                    0 <= t < i + 1 implies assembled_block(
                    *headers,
                    *bodies,
                    batch@[t],
                    (from + t) as u64,
                ) by {
                    if t < i {
                        assert(batch@[t] == batch0[t]);
                        assert(assembled_block(*headers, *bodies, batch0[t], (from + t) as u64));
                    }
                }
                assert forall|t: int| 0 <= t < i + 1 implies td_chained(batch@, td0, t) by {
                    if t < i {
                        assert(td_chained(batch0, td0, t));
                        assert(batch@[t] == batch0[t]);
                        if t > 0 {
                            assert(batch@[t - 1] == batch0[t - 1]);
                        }
                        reveal(td_chained);
                    } else {
                        reveal(td_chained);
                        if i > 0 {
                            assert(batch@[t - 1] == batch0[i - 1]);
                            assert(batch0[i - 1] == batch0.last());
                            assert(td_before == batch0.last().td);
                        } else {
                            assert(td_before == td0);
                        }
                    }
                }
            }
            i = i + 1;
        }
        Ok(batch)
    }

    /// One committed sub-range: assembles the blocks — validating the
    /// stored chain — then executes their results and commits the marker.
    #[verifier::loop_isolation(false)]
    fn run_chunk(
        &mut self,
        headers: &HeadersDb,
        bodies: &BodiesDb,
        start: u64,
        until: u64,
        results: &Vec<ExecutionResult>,
        offset: usize,
        td: &mut W256,
    ) -> (r: Result<(), SyncError>)
        requires
            old(self).db.wf(),
            headers.wf(),
            bodies.wf(),
            0 < start <= until,
            until < u64::MAX,
            offset + (until - start + 1) <= results@.len(),
        ensures
            final(self).db.wf(),
            final(self).commit_threshold == old(self).commit_threshold,
            final(self).chain_spec == old(self).chain_spec,
            match r {
                Ok(()) => {
                    &&& final(self).db@.accounts == sv_apply_results(
                        old(self).db@,
                        results@.skip(offset as int),
                        start,
                        until - start + 1,
                        old(self).chain_spec,
                    ).accounts
                    &&& final(self).db@.storage == sv_apply_results(
                        old(self).db@,
                        results@.skip(offset as int),
                        start,
                        until - start + 1,
                        old(self).chain_spec,
                    ).storage
                    &&& final(self).db@.bytecodes == sv_apply_results(
                        old(self).db@,
                        results@.skip(offset as int),
                        start,
                        until - start + 1,
                        old(self).chain_spec,
                    ).bytecodes
                    &&& final(self).db.progress == Some(until)
                },
                Err(e) => {
                    &&& *final(self) == *old(self)
                    &&& chunk_error_witnessed(e, *headers, *bodies)
                },
            },
    {
        let rn = results.len();
        proof {
            assert(until - start + 1 <= rn);
        }
        match self.assemble_batch(headers, bodies, start, until, td) {
            Ok(_batch) => {},
            Err(e) => {
                return Err(e);
            },
        }
        let chunk = (until - start + 1) as usize;
        match self.execute_batch(start, results, offset, chunk) {
            Ok(()) => {},
            Err(e) => {
                return Err(e);
            },
        }
        Ok(())
    }

    /// Drives the stage over an inclusive range ending at `to`, in
    /// sub-ranges of at most the commit threshold: each sub-range is
    /// assembled — validating the stored chain — executed through the
    /// given per-block results, and committed with its progress marker.
    /// A stage already at or past `to` touches nothing. On failure the
    /// error names its defect and the database equals the fold of the
    /// completed sub-ranges, the marker naming the last committed boundary
    /// — the failing sub-range is fully rolled back. The results are
    /// indexed from the block after the current progress.
    #[verifier::loop_isolation(false)]
    #[verifier::rlimit(60)]
    pub fn run(
        &mut self,
        headers: &HeadersDb,
        bodies: &BodiesDb,
        to: u64,
        results: &Vec<ExecutionResult>,
    ) -> (r: Result<(), SyncError>)
        requires
            old(self).db.wf(),
            headers.wf(),
            bodies.wf(),
            old(self).commit_threshold > 0,
            to < u64::MAX,
            results@.len() == (if to > (match old(self).db.progress {
                Some(p) => p,
                None => 0u64,
            }) {
                to - (match old(self).db.progress {
                    Some(p) => p,
                    None => 0u64,
                })
            } else {
                0
            }),
        ensures
            final(self).db.wf(),
            final(self).commit_threshold == old(self).commit_threshold,
            final(self).chain_spec == old(self).chain_spec,
            to <= (match old(self).db.progress {
                Some(p) => p,
                None => 0u64,
            }) ==> *final(self) == *old(self) && r is Ok,
            match r {
                Ok(()) => {
                    let p0 = (match old(self).db.progress {
                        Some(p) => p,
                        None => 0u64,
                    });
                    &&& to > p0 ==> {
                        &&& final(self).db.progress == Some(to)
                        &&& final(self).db@.accounts == sv_apply_results(
                            old(self).db@,
                            results@,
                            (p0 + 1) as u64,
                            results@.len() as int,
                            old(self).chain_spec,
                        ).accounts
                        &&& final(self).db@.storage == sv_apply_results(
                            old(self).db@,
                            results@,
                            (p0 + 1) as u64,
                            results@.len() as int,
                            old(self).chain_spec,
                        ).storage
                        &&& final(self).db@.bytecodes == sv_apply_results(
                            old(self).db@,
                            results@,
                            (p0 + 1) as u64,
                            results@.len() as int,
                            old(self).chain_spec,
                        ).bytecodes
                    }
                    &&& to <= p0 ==> *final(self) == *old(self)
                },
                Err(e) => {
                    &&& chunk_error_witnessed(e, *headers, *bodies)
                    &&& exists|p: u64|
                        rolled_back_to(*old(self), *final(self), results@, to, p)
                },
            },
    {
        let progress0 = self.get_progress();
        if to <= progress0 {
            return Ok(());
        }
        let mut td = match self.get_td(headers, progress0) {
            Ok(t) => t,
            Err(e) => {
                proof {
                    assert(rolled_back_to(*old(self), *self, results@, to, progress0));
                }
                return Err(e);
            },
        };
        let rn = results.len();
        let ghost v0 = self.db@;
        let ghost chain = self.chain_spec;
        let mut progress = progress0;
        while progress < to
            invariant
                progress0 <= progress <= to,
                to > progress0,
                to < u64::MAX,
                self.db.wf(),
                self.commit_threshold == old(self).commit_threshold,
                self.chain_spec == old(self).chain_spec,
                self.commit_threshold > 0,
                rn == results@.len(),
                results@.len() == to - progress0,
                self.db@.accounts == sv_apply_results(
                    v0,
                    results@,
                    (progress0 + 1) as u64,
                    progress - progress0,
                    chain,
                ).accounts,
                self.db@.storage == sv_apply_results(
                    v0,
                    results@,
                    (progress0 + 1) as u64,
                    progress - progress0,
                    chain,
                ).storage,
                self.db@.bytecodes == sv_apply_results(
                    v0,
                    results@,
                    (progress0 + 1) as u64,
                    progress - progress0,
                    chain,
                ).bytecodes,
                progress > progress0 ==> self.db.progress == Some(progress),
                progress == progress0 ==> self.db.progress == old(self).db.progress,
            decreases to - progress,
        {
            let start = progress + 1;
            let until = if to - start >= self.commit_threshold {
                start + self.commit_threshold
            } else {
                to
            };
            let offset = (start - progress0 - 1) as usize;
            let ghost applied = progress - progress0;
            let ghost mid = self.db@;
            match self.run_chunk(headers, bodies, start, until, results, offset, &mut td) {
                Ok(()) => {},
                Err(e) => {
                    proof {
                        assert(rolled_back_to(*old(self), *self, results@, to, progress));
                    }
                    return Err(e);
                },
            }
            proof {
                let chunk = until - start + 1;
                lemma_sv_apply_results_split(
                    v0,
                    results@,
                    (progress0 + 1) as u64,
                    applied,
                    applied + chunk,
                    chain,
                );
                lemma_sv_apply_results_parts(
                    mid,
                    sv_apply_results(v0, results@, (progress0 + 1) as u64, applied, chain),
                    results@.skip(applied),
                    start,
                    chunk,
                    chain,
                );
            }
            progress = until;
        }
        Ok(())
    }

    /// Checks one result's deployed bytecodes against their hashes.
    #[verifier::loop_isolation(false)]
    fn check_bytecodes(result: &ExecutionResult) -> (r: Result<(), SyncError>)
        ensures
            match r {
                Ok(()) => bytecodes_hashed(*result),
                Err(e) => e matches SyncError::BytecodeHashMismatch { .. } && !bytecodes_hashed(
                    *result,
                ),
            },
    {
        let nt = result.tx_changesets.len();
        let mut t: usize = 0;
        while t < nt
            invariant
                0 <= t <= nt,
                forall|i: int, j: int|
                    0 <= i < t && 0 <= j < (#[trigger] result.tx_changesets@[i]).new_bytecodes@
                        .len() ==> (#[trigger] result.tx_changesets@[i].new_bytecodes@[j]).0
                        == keccak_of(result.tx_changesets@[i].new_bytecodes@[j].1@),
            decreases nt - t,
        {
            let nb = result.tx_changesets[t].new_bytecodes.len();
            let mut j: usize = 0;
            while j < nb
                invariant
                    0 <= j <= nb,
                    nb == result.tx_changesets@[t as int].new_bytecodes@.len(),
                    0 <= t < nt,
                    forall|k: int|
                        0 <= k < j ==> (#[trigger] result.tx_changesets@[t as int].new_bytecodes@[
                            k]).0 == keccak_of(
                            result.tx_changesets@[t as int].new_bytecodes@[k].1@,
                        ),
                decreases nb - j,
            {
                let entry = &result.tx_changesets[t].new_bytecodes[j];
                let computed = keccak256(&entry.1);
                if !(computed == entry.0) {
                    return Err(SyncError::BytecodeHashMismatch { code_hash: entry.0 });
                }
                j = j + 1;
            }
            t = t + 1;
        }
        Ok(())
    }
}

/// The position of the first header row above `block`; all rows below it
/// are at or under `block`.
pub open spec fn prefix_upto(s: Seq<(u64, Header)>, block: u64) -> int
    decreases s.len(),
{
    if s.len() == 0 {
        0
    } else if s.last().0 > block {
        prefix_upto(s.drop_last(), block)
    } else {
        s.len() as int
    }
}

proof fn lemma_prefix_upto_nonneg(s: Seq<(u64, Header)>, block: u64)
    ensures
        prefix_upto(s, block) >= 0,
    decreases s.len(),
{
    if s.len() > 0 && s.last().0 > block {
        lemma_prefix_upto_nonneg(s.drop_last(), block);
    }
}

proof fn lemma_prefix_upto_bound(s: Seq<(u64, Header)>, block: u64, i: int)
    requires
        crate::kv::tbl_sorted(s),
        0 <= i < s.len(),
        s[i].0 > block,
    ensures
        prefix_upto(s, block) <= i,
    decreases s.len(),
{
    if s.len() > 0 {
        if s.last().0 > block {
            if i < s.len() - 1 {
                assert(crate::kv::tbl_sorted(s.drop_last())) by {
                    assert(forall|a: int, b: int|
                        0 <= a < b < s.drop_last().len() ==> (#[trigger] s.drop_last()[a]).0 < (
                        #[trigger] s.drop_last()[b]).0);
                }
                assert(s.drop_last()[i] == s[i]);
                lemma_prefix_upto_bound(s.drop_last(), block, i);
            } else {
                lemma_prefix_upto_all(s.drop_last(), block);
            }
        } else {
            assert(s[i].0 < s.last().0 || i == s.len() - 1);
            assert(false);
        }
    }
}

proof fn lemma_prefix_upto_step(s: Seq<(u64, Header)>, block: u64, i: int)
    requires
        crate::kv::tbl_sorted(s),
        0 <= i < s.len(),
        s[i].0 <= block,
    ensures
        prefix_upto(s, block) > i,
    decreases s.len(),
{
    if s.last().0 > block {
        assert(i < s.len() - 1);
        assert(crate::kv::tbl_sorted(s.drop_last())) by {
            assert(forall|a: int, b: int|
                0 <= a < b < s.drop_last().len() ==> (#[trigger] s.drop_last()[a]).0 < (
                #[trigger] s.drop_last()[b]).0);
        }
        assert(s.drop_last()[i] == s[i]);
        lemma_prefix_upto_step(s.drop_last(), block, i);
    }
}

proof fn lemma_prefix_upto_all(s: Seq<(u64, Header)>, block: u64)
    ensures
        prefix_upto(s, block) <= s.len(),
    decreases s.len(),
{
    if s.len() > 0 && s.last().0 > block {
        lemma_prefix_upto_all(s.drop_last(), block);
    }
}

/// Applying one block's result only reshapes the three content maps; with
/// equal content maps on both sides it lands on equal content maps.
proof fn lemma_sv_apply_result_parts(a: StateView, b: StateView, r: ExecutionResult, spurious: bool)
    requires
        a.accounts == b.accounts,
        a.storage == b.storage,
        a.bytecodes == b.bytecodes,
    ensures
        sv_apply_result(a, r, spurious).accounts == sv_apply_result(b, r, spurious).accounts,
        sv_apply_result(a, r, spurious).storage == sv_apply_result(b, r, spurious).storage,
        sv_apply_result(a, r, spurious).bytecodes == sv_apply_result(b, r, spurious).bytecodes,
{
    lemma_sv_tx_parts(a, b, r.tx_changesets@, r.tx_changesets@.len() as int, spurious);
    let a1 = sv_apply_tx_changesets(a, r.tx_changesets@, r.tx_changesets@.len() as int, spurious);
    let b1 = sv_apply_tx_changesets(b, r.tx_changesets@, r.tx_changesets@.len() as int, spurious);
    lemma_sv_info_parts(a1, b1, r.block_changesets@, r.block_changesets@.len() as int, spurious);
}

/// Folding the same results over views with equal content maps lands on
/// equal content maps.
proof fn lemma_sv_apply_results_parts(
    a: StateView,
    b: StateView,
    rs: Seq<ExecutionResult>,
    first_block: u64,
    n: int,
    chain: ChainSpec,
)
    requires
        a.accounts == b.accounts,
        a.storage == b.storage,
        a.bytecodes == b.bytecodes,
        first_block + n <= u64::MAX,
    ensures
        sv_apply_results(a, rs, first_block, n, chain).accounts == sv_apply_results(
            b,
            rs,
            first_block,
            n,
            chain,
        ).accounts,
        sv_apply_results(a, rs, first_block, n, chain).storage == sv_apply_results(
            b,
            rs,
            first_block,
            n,
            chain,
        ).storage,
        sv_apply_results(a, rs, first_block, n, chain).bytecodes == sv_apply_results(
            b,
            rs,
            first_block,
            n,
            chain,
        ).bytecodes,
    decreases n,
{
    if n > 0 {
        lemma_sv_apply_results_parts(a, b, rs, first_block, n - 1, chain);
        lemma_sv_apply_result_parts(
            sv_apply_results(a, rs, first_block, n - 1, chain),
            sv_apply_results(b, rs, first_block, n - 1, chain),
            rs[n - 1],
            chain.spec_spurious_dragon_active((first_block + n - 1) as u64),
        );
    }
}

proof fn lemma_sv_info_parts(
    a: StateView,
    b: StateView,
    cs: Seq<(AddressV, AccountInfoChangeSet)>,
    n: int,
    spurious: bool,
)
    requires
        a.accounts == b.accounts,
        a.storage == b.storage,
        a.bytecodes == b.bytecodes,
    ensures
        sv_apply_info_list(a, cs, n, spurious).accounts == sv_apply_info_list(
            b,
            cs,
            n,
            spurious,
        ).accounts,
        sv_apply_info_list(a, cs, n, spurious).storage == sv_apply_info_list(
            b,
            cs,
            n,
            spurious,
        ).storage,
        sv_apply_info_list(a, cs, n, spurious).bytecodes == sv_apply_info_list(
            b,
            cs,
            n,
            spurious,
        ).bytecodes,
    decreases n,
{
    if n > 0 {
        lemma_sv_info_parts(a, b, cs, n - 1, spurious);
    }
}

proof fn lemma_sv_tx_parts(
    a: StateView,
    b: StateView,
    ts: Seq<TxChangeSet>,
    n: int,
    spurious: bool,
)
    requires
        a.accounts == b.accounts,
        a.storage == b.storage,
        a.bytecodes == b.bytecodes,
    ensures
        sv_apply_tx_changesets(a, ts, n, spurious).accounts == sv_apply_tx_changesets(
            b,
            ts,
            n,
            spurious,
        ).accounts,
        sv_apply_tx_changesets(a, ts, n, spurious).storage == sv_apply_tx_changesets(
            b,
            ts,
            n,
            spurious,
        ).storage,
        sv_apply_tx_changesets(a, ts, n, spurious).bytecodes == sv_apply_tx_changesets(
            b,
            ts,
            n,
            spurious,
        ).bytecodes,
    decreases n,
{
    if n > 0 {
        lemma_sv_tx_parts(a, b, ts, n - 1, spurious);
        let pa = sv_apply_tx_changesets(a, ts, n - 1, spurious);
        let pb = sv_apply_tx_changesets(b, ts, n - 1, spurious);
        let t = ts[n - 1];
        lemma_sv_list_parts(pa, pb, t.changeset@, t.changeset@.len() as int, spurious);
        let qa = sv_apply_changeset_list(pa, t.changeset@, t.changeset@.len() as int, spurious);
        let qb = sv_apply_changeset_list(pb, t.changeset@, t.changeset@.len() as int, spurious);
        lemma_sv_bytes_parts(qa, qb, t.new_bytecodes@, t.new_bytecodes@.len() as int);
    }
}

proof fn lemma_sv_bytes_parts(a: StateView, b: StateView, bs: Seq<(B256, Vec<u8>)>, n: int)
    requires
        a.accounts == b.accounts,
        a.storage == b.storage,
        a.bytecodes == b.bytecodes,
    ensures
        sv_apply_bytecodes(a, bs, n).accounts == sv_apply_bytecodes(b, bs, n).accounts,
        sv_apply_bytecodes(a, bs, n).storage == sv_apply_bytecodes(b, bs, n).storage,
        sv_apply_bytecodes(a, bs, n).bytecodes == sv_apply_bytecodes(b, bs, n).bytecodes,
    decreases n,
{
    if n > 0 {
        lemma_sv_bytes_parts(a, b, bs, n - 1);
    }
}

proof fn lemma_sv_list_parts(
    a: StateView,
    b: StateView,
    cs: Seq<(AddressV, AccountChangeSet)>,
    n: int,
    spurious: bool,
)
    requires
        a.accounts == b.accounts,
        a.storage == b.storage,
        a.bytecodes == b.bytecodes,
    ensures
        sv_apply_changeset_list(a, cs, n, spurious).accounts == sv_apply_changeset_list(
            b,
            cs,
            n,
            spurious,
        ).accounts,
        sv_apply_changeset_list(a, cs, n, spurious).storage == sv_apply_changeset_list(
            b,
            cs,
            n,
            spurious,
        ).storage,
        sv_apply_changeset_list(a, cs, n, spurious).bytecodes == sv_apply_changeset_list(
            b,
            cs,
            n,
            spurious,
        ).bytecodes,
    decreases n,
{
    if n > 0 {
        lemma_sv_list_parts(a, b, cs, n - 1, spurious);
        let pa = sv_apply_changeset_list(a, cs, n - 1, spurious);
        let pb = sv_apply_changeset_list(b, cs, n - 1, spurious);
        lemma_sv_one_parts(pa, pb, cs[n - 1].0, cs[n - 1].1, spurious);
    }
}

proof fn lemma_sv_one_parts(
    a: StateView,
    b: StateView,
    address: AddressV,
    acs: AccountChangeSet,
    spurious: bool,
)
    requires
        a.accounts == b.accounts,
        a.storage == b.storage,
        a.bytecodes == b.bytecodes,
    ensures
        sv_apply_account_changeset(a, address, acs, spurious).accounts
            == sv_apply_account_changeset(b, address, acs, spurious).accounts,
        sv_apply_account_changeset(a, address, acs, spurious).storage
            == sv_apply_account_changeset(b, address, acs, spurious).storage,
        sv_apply_account_changeset(a, address, acs, spurious).bytecodes
            == sv_apply_account_changeset(b, address, acs, spurious).bytecodes,
{
    let a1 = sv_apply_account(a, address, acs.account, spurious);
    let b1 = sv_apply_account(b, address, acs.account, spurious);
    if acs.wipe_storage {
        lemma_sv_wiped_parts(
            StateView { storage: a1.storage.remove(address), ..a1 },
            StateView { storage: b1.storage.remove(address), ..b1 },
            address,
            acs.storage@,
            acs.storage@.len() as int,
        );
    } else {
        lemma_sv_storage_parts(a1, b1, address, acs.storage@, acs.storage@.len() as int);
    }
}

proof fn lemma_sv_storage_parts(
    a: StateView,
    b: StateView,
    address: AddressV,
    cs: Seq<StorageChange>,
    n: int,
)
    requires
        a.accounts == b.accounts,
        a.storage == b.storage,
        a.bytecodes == b.bytecodes,
    ensures
        sv_apply_storage(a, address, cs, n).accounts == sv_apply_storage(b, address, cs, n).accounts,
        sv_apply_storage(a, address, cs, n).storage == sv_apply_storage(b, address, cs, n).storage,
        sv_apply_storage(a, address, cs, n).bytecodes == sv_apply_storage(
            b,
            address,
            cs,
            n,
        ).bytecodes,
    decreases n,
{
    if n > 0 {
        lemma_sv_storage_parts(a, b, address, cs, n - 1);
    }
}

proof fn lemma_sv_wiped_parts(
    a: StateView,
    b: StateView,
    address: AddressV,
    cs: Seq<StorageChange>,
    n: int,
)
    requires
        a.accounts == b.accounts,
        a.storage == b.storage,
        a.bytecodes == b.bytecodes,
    ensures
        sv_apply_storage_wiped(a, address, cs, n).accounts == sv_apply_storage_wiped(
            b,
            address,
            cs,
            n,
        ).accounts,
        sv_apply_storage_wiped(a, address, cs, n).storage == sv_apply_storage_wiped(
            b,
            address,
            cs,
            n,
        ).storage,
        sv_apply_storage_wiped(a, address, cs, n).bytecodes == sv_apply_storage_wiped(
            b,
            address,
            cs,
            n,
        ).bytecodes,
    decreases n,
{
    if n > 0 {
        lemma_sv_wiped_parts(a, b, address, cs, n - 1);
    }
}

} // verus!
