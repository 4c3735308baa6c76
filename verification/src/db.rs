//! The three split databases — headers, bodies, state — their standing
//! invariants, the per-database descriptors with their genesis handling,
//! and the read-only provider that routes state lookups across them.

use crate::blocks::{header_hash, Header, StoredBlockBody, StoredBlockOmmers,
    StoredBlockWithdrawals, TransactionRecord};
use crate::chain::ChainSpec;
use crate::codec::keccak_of;
use crate::errors::SyncError;
use crate::kv::{lemma_tbl_sorted_insert, tbl_contains, tbl_get, tbl_sorted_insert, Table};
use crate::nums::{AddressV, B256, W256};
use crate::state_tables::{Account, AccountTable, BytesTable, StorageTable};
use vstd::prelude::*;

verus! {

/// The headers database: the canonical chain and its hashes.
pub struct HeadersDb {
    pub headers: Table<Header>,
    pub canonical: Table<B256>,
    /// The `HEADERS` stage marker: the last block the stage completed.
    pub progress: Option<u64>,
}

impl HeadersDb {
    /// Both tables sorted, over the same block numbers; every stored
    /// header sits at its own number and hashes to its canonical hash.
    pub open spec fn wf(self) -> bool {
        &&& self.headers.wf()
        &&& self.canonical.wf()
        &&& forall|n: u64| #![trigger tbl_get(self.canonical@, n)]
            tbl_get(self.canonical@, n) is Some ==> tbl_get(self.headers@, n) is Some
        &&& forall|n: u64| #![trigger tbl_get(self.headers@, n)]
            match tbl_get(self.headers@, n) {
                Some(h) => h.number == n && tbl_get(self.canonical@, n) == Some(header_hash(h)),
                None => true,
            }
    }

    pub fn new() -> (r: HeadersDb)
        ensures
            r.wf(),
            r.headers@.len() == 0,
            r.canonical@.len() == 0,
            r.progress is None,
    {
        HeadersDb { headers: Table::new(), canonical: Table::new(), progress: None }
    }
}

/// Law: on a well-formed headers database, every committed block's stored
/// header hashes to exactly its canonical hash.
pub proof fn lemma_canonical_hash_matches(db: HeadersDb, n: u64)
    requires
        db.wf(),
        tbl_contains(db.headers@, n),
    ensures
        tbl_get(db.canonical@, n) == Some(header_hash(tbl_get(db.headers@, n)->Some_0)),
{
}

/// The bodies database: body rows, the transaction table they point into,
/// and the sparse ommers and withdrawals rows.
pub struct BodiesDb {
    pub bodies: Table<StoredBlockBody>,
    pub transactions: Table<TransactionRecord>,
    pub ommers: Table<StoredBlockOmmers>,
    pub withdrawals: Table<StoredBlockWithdrawals>,
    /// The `BODIES` stage marker.
    pub progress: Option<u64>,
}

impl BodiesDb {
    /// The tables are sorted.
    pub open spec fn wf(self) -> bool {
        &&& self.bodies.wf()
        &&& self.transactions.wf()
        &&& self.ommers.wf()
        &&& self.withdrawals.wf()
    }

    /// The committed-chain shape: body rows cover blocks `0..len`
    /// contiguously, the first starts at transaction id zero, each next row
    /// starts where the previous one ended, and the transaction table holds
    /// exactly the ids the rows point at, contiguously from zero.
    pub open spec fn chain_ok(self) -> bool {
        &&& self.bodies@.len() > 0
        &&& forall|i: int| 0 <= i < self.bodies@.len() ==> (#[trigger] self.bodies@[i]).0 == i
        &&& self.bodies@[0].1.start_tx_id == 0
        &&& forall|i: int|
            0 < i < self.bodies@.len() ==> (#[trigger] self.bodies@[i]).1.start_tx_id == self
                .bodies@[i - 1].1.start_tx_id + self.bodies@[i - 1].1.tx_count
        &&& forall|j: int|
            0 <= j < self.transactions@.len() ==> (#[trigger] self.transactions@[j]).0 == j
        &&& self.transactions@.len() == self.bodies@.last().1.start_tx_id + self.bodies@.last()
            .1.tx_count
    }

    pub fn new() -> (r: BodiesDb)
        ensures
            r.wf(),
            r.bodies@.len() == 0,
            r.transactions@.len() == 0,
            r.ommers@.len() == 0,
            r.withdrawals@.len() == 0,
            r.progress is None,
    {
        BodiesDb {
            bodies: Table::new(),
            transactions: Table::new(),
            ommers: Table::new(),
            withdrawals: Table::new(),
            progress: None,
        }
    }
}

/// The sum of the first `n` body rows' transaction counts.
pub open spec fn sum_tx_counts(bodies: Seq<(u64, StoredBlockBody)>, n: int) -> int
    decreases n,
{
    if n <= 0 {
        0
    } else {
        sum_tx_counts(bodies, n - 1) + bodies[n - 1].1.tx_count
    }
}

/// Law: on a committed chain, each body row starts exactly at the sum of
/// the transaction counts of all rows below it.
pub proof fn lemma_start_tx_id_is_sum(db: BodiesDb, n: int)
    requires
        db.chain_ok(),
        0 <= n < db.bodies@.len(),
    ensures
        db.bodies@[n].1.start_tx_id == sum_tx_counts(db.bodies@, n),
    decreases n,
{
    if n > 0 {
        lemma_start_tx_id_is_sum(db, n - 1);
    }
}

/// The state database: plain accounts, plain storage, bytecodes.
pub struct StateDb {
    pub accounts: AccountTable,
    pub storage: StorageTable,
    pub bytecodes: BytesTable,
    /// The `EXECUTION` stage marker.
    pub progress: Option<u64>,
}

/// The mathematical content of a state database.
pub ghost struct StateView {
    pub accounts: Map<AddressV, Account>,
    pub storage: Map<AddressV, Map<B256, W256>>,
    pub bytecodes: Map<B256, Seq<u8>>,
    pub progress: Option<u64>,
}

impl StateDb {
    /// Tables well formed — which includes that no zero storage value is
    /// stored — and every bytecode keyed by its own hash.
    pub open spec fn wf(self) -> bool {
        &&& self.accounts.wf()
        &&& self.storage.wf()
        &&& self.bytecodes.wf()
        &&& forall|h: B256| #[trigger]
            self.bytecodes@.contains_key(h) ==> h == keccak_of(self.bytecodes@[h])
    }

    pub open spec fn view(self) -> StateView {
        StateView {
            accounts: self.accounts@,
            storage: self.storage@,
            bytecodes: self.bytecodes@,
            progress: self.progress,
        }
    }

    pub fn new() -> (r: StateDb)
        ensures
            r.wf(),
            r@.accounts == Map::<AddressV, Account>::empty(),
            r@.storage == Map::<AddressV, Map<B256, W256>>::empty(),
            r@.bytecodes == Map::<B256, Seq<u8>>::empty(),
            r.progress is None,
    {
        StateDb {
            accounts: AccountTable::new(),
            storage: StorageTable::new(),
            bytecodes: BytesTable::new(),
            progress: None,
        }
    }
}

/// The headers database's descriptor: progress semantics and genesis.
pub struct HeadersDescriptor;

impl HeadersDescriptor {
    /// The last block the `HEADERS` stage completed.
    pub fn progress(&self, db: &HeadersDb) -> (r: Option<u64>)
        ensures
            r == db.progress,
    {
        db.progress
    }

    /// Writes the genesis header and its canonical hash if the database has
    /// none; fails when a different genesis hash is already on disk.
    #[verifier::rlimit(30)]
    pub fn ensure_genesis(&self, db: &mut HeadersDb, chain: &ChainSpec) -> (r: Result<
        (),
        SyncError,
    >)
        requires
            old(db).wf(),
            chain.wf(),
        ensures
            final(db).wf(),
            match r {
                Ok(()) => {
                    &&& old(db).canonical@.len() == 0 ==> {
                        &&& final(db).canonical@ == seq![(0u64, chain.genesis.hash)]
                        &&& final(db).headers@ == seq![(0u64, chain.genesis.header)]
                        &&& final(db).progress == old(db).progress
                    }
                    &&& old(db).canonical@.len() > 0 ==> *final(db) == *old(db) && old(
                        db,
                    ).canonical@[0].1 == chain.genesis.hash
                },
                Err(e) => {
                    &&& old(db).canonical@.len() > 0
                    &&& old(db).canonical@[0].1 != chain.genesis.hash
                    &&& e == (SyncError::GenesisHashMismatch {
                        expected: chain.genesis.hash,
                        actual: old(db).canonical@[0].1,
                    })
                    &&& *final(db) == *old(db)
                },
            },
    {
        let genesis_hash = chain.genesis_hash();
        match db.canonical.first() {
            Some(e) => {
                let db_hash = e.1;
                if db_hash == genesis_hash {
                    Ok(())
                } else {
                    Err(SyncError::GenesisHashMismatch { expected: genesis_hash, actual: db_hash })
                }
            },
            None => {
                proof {
                    if db.headers@.len() > 0 {
                        crate::kv::lemma_tbl_index_get(db.headers@, 0);
                        assert(tbl_get(db.headers@, db.headers@[0].0) is Some);
                        assert(tbl_get(db.canonical@, db.headers@[0].0) is Some);
                    }
                    assert(db.headers@.len() == 0);
                    assert(!tbl_contains(db.canonical@, 0));
                    assert(!tbl_contains(db.headers@, 0));
                }
                let ok1 = db.canonical.insert(0, genesis_hash);
                let ok2 = db.headers.insert(0, chain.genesis.header);
                proof {
                    assert(db.canonical@ =~= seq![(0u64, chain.genesis.hash)]);
                    assert(db.headers@ =~= seq![(0u64, chain.genesis.header)]);
                    assert forall|n: u64| #![trigger tbl_get(db.canonical@, n)]
                        tbl_get(db.canonical@, n) is Some ==> tbl_get(
                            db.headers@,
                            n,
                        ) is Some by {
                        crate::kv::lemma_tbl_get_singleton(0u64, chain.genesis.hash, n);
                        crate::kv::lemma_tbl_get_singleton(0u64, chain.genesis.header, n);
                    }
                    assert forall|n: u64|
                        #![trigger tbl_get(db.headers@, n)]
                        match tbl_get(db.headers@, n) {
                            Some(h) => h.number == n && tbl_get(db.canonical@, n) == Some(
                                header_hash(h),
                            ),
                            None => true,
                        } by {
                        crate::kv::lemma_tbl_get_singleton(0u64, chain.genesis.hash, n);
                        crate::kv::lemma_tbl_get_singleton(0u64, chain.genesis.header, n);
                    }
                }
                Ok(())
            },
        }
    }
}

/// The bodies database's descriptor.
pub struct BodiesDescriptor;

impl BodiesDescriptor {
    /// The last block the `BODIES` stage completed.
    pub fn progress(&self, db: &BodiesDb) -> (r: Option<u64>)
        ensures
            r == db.progress,
    {
        db.progress
    }

    /// On a fresh database, stores the empty body of block zero.
    pub fn ensure_genesis(&self, db: &mut BodiesDb)
        requires
            old(db).wf(),
        ensures
            final(db).wf(),
            old(db).progress is None && old(db).bodies@.len() == 0 ==> final(db).bodies@ == seq![
                (0u64, StoredBlockBody { start_tx_id: 0, tx_count: 0 }),
            ] && final(db).transactions@ == old(db).transactions@,
            !(old(db).progress is None && old(db).bodies@.len() == 0) ==> *final(db) == *old(db),
            final(db).progress == old(db).progress,
            final(db).transactions@ == old(db).transactions@,
            final(db).ommers@ == old(db).ommers@,
            final(db).withdrawals@ == old(db).withdrawals@,
    {
        if db.progress.is_none() && db.bodies.len() == 0 {
            let ok = db.bodies.append(0, StoredBlockBody { start_tx_id: 0, tx_count: 0 });
            proof {
                assert(ok);
                assert(db.bodies@ =~= seq![
                    (0u64, StoredBlockBody { start_tx_id: 0, tx_count: 0 }),
                ]);
            }
        }
    }
}

/// The state database's descriptor.
pub struct StateDescriptor;

/// The account map after writing every allocation entry in order.
pub open spec fn apply_alloc(
    m: Map<AddressV, Account>,
    s: Seq<(AddressV, Account)>,
) -> Map<AddressV, Account>
    decreases s.len(),
{
    if s.len() == 0 {
        m
    } else {
        apply_alloc(m, s.drop_last()).insert(s.last().0, s.last().1)
    }
}

impl StateDescriptor {
    /// The last block the `EXECUTION` stage completed.
    pub fn progress(&self, db: &StateDb) -> (r: Option<u64>)
        ensures
            r == db.progress,
    {
        db.progress
    }

    /// On a fresh database, allocates the chain's pre-funded accounts.
    #[verifier::loop_isolation(false)]
    pub fn ensure_genesis(&self, db: &mut StateDb, chain: &ChainSpec)
        requires
            old(db).wf(),
            chain.wf(),
        ensures
            final(db).wf(),
            old(db).progress is None ==> final(db)@.accounts == apply_alloc(
                old(db)@.accounts,
                chain.genesis_alloc@,
            ),
            !(old(db).progress is None) ==> *final(db) == *old(db),
            final(db)@.storage == old(db)@.storage,
            final(db)@.bytecodes == old(db)@.bytecodes,
            final(db).progress == old(db).progress,
    {
        if db.progress.is_none() {
            let n = chain.genesis_alloc.len();
            let ghost m0 = db@.accounts;
            let mut i: usize = 0;
            while i < n
                invariant
                    0 <= i <= n,
                    db.accounts.wf(),
                    db.accounts@ == apply_alloc(m0, chain.genesis_alloc@.take(i as int)),
                    db.storage == old(db).storage,
                    db.bytecodes == old(db).bytecodes,
                    db.progress == old(db).progress,
                decreases n - i,
            {
                let (addr, acct) = chain.genesis_alloc[i];
                db.accounts.upsert(addr, acct);
                proof {
                    let t = chain.genesis_alloc@.take(i + 1);
                    assert(t.drop_last() =~= chain.genesis_alloc@.take(i as int));
                    assert(t.last() == chain.genesis_alloc@[i as int]);
                }
                i = i + 1;
            }
            proof {
                assert(chain.genesis_alloc@.take(n as int) =~= chain.genesis_alloc@);
            }
        }
    }
}

/// A read-only state view over the split databases: account and storage
/// lookups go to the state database, block hashes to the headers database.
pub struct LatestSplitStateProvider<'a> {
    pub headers_db: &'a HeadersDb,
    pub state_db: &'a StateDb,
}

impl<'a> LatestSplitStateProvider<'a> {
    pub open spec fn wf(self) -> bool {
        self.headers_db.wf() && self.state_db.wf()
    }

    pub open spec fn spec_headers(self) -> HeadersDb {
        *self.headers_db
    }

    pub open spec fn spec_state(self) -> StateDb {
        *self.state_db
    }

    pub fn new(headers_db: &'a HeadersDb, state_db: &'a StateDb) -> (r: LatestSplitStateProvider<
        'a,
    >)
        ensures
            r.spec_headers() == *headers_db,
            r.spec_state() == *state_db,
    {
        LatestSplitStateProvider { headers_db, state_db }
    }

    /// Basic account information.
    pub fn basic_account(&self, address: &AddressV) -> (r: Option<Account>)
        requires
            self.wf(),
        ensures
            match r {
                Some(a) => self.spec_state()@.accounts.contains_key(*address)
                    && self.spec_state()@.accounts[*address] == a,
                None => !self.spec_state()@.accounts.contains_key(*address),
            },
    {
        match self.state_db.accounts.get(address) {
            Some(a) => Some(*a),
            None => None,
        }
    }

    /// The canonical hash of a block.
    pub fn block_hash(&self, number: u64) -> (r: Option<B256>)
        requires
            self.wf(),
        ensures
            match r {
                Some(h) => tbl_get(self.spec_headers().canonical@, number) == Some(h),
                None => tbl_get(self.spec_headers().canonical@, number) is None,
            },
    {
        match self.headers_db.canonical.get(number) {
            Some(h) => Some(*h),
            None => None,
        }
    }

    /// One storage slot's value.
    pub fn storage(&self, account: &AddressV, storage_key: &B256) -> (r: Option<W256>)
        requires
            self.wf(),
        ensures
            match r {
                Some(v) => self.spec_state()@.storage.contains_key(*account) && self.spec_state()@
                    .storage[*account].contains_key(*storage_key) && self.spec_state()@.storage[
                    *account][*storage_key] == v,
                None => !self.spec_state()@.storage.contains_key(*account) || !self.spec_state()@
                    .storage[*account].contains_key(*storage_key),
            },
    {
        self.state_db.storage.get(account, storage_key)
    }

    /// The code stored under a hash.
    pub fn bytecode_by_hash(&self, code_hash: &B256) -> (r: Option<&'a Vec<u8>>)
        requires
            self.wf(),
        ensures
            match r {
                Some(b) => self.spec_state()@.bytecodes.contains_key(*code_hash)
                    && self.spec_state()@.bytecodes[*code_hash] == b@,
                None => !self.spec_state()@.bytecodes.contains_key(*code_hash),
            },
    {
        self.state_db.bytecodes.get(code_hash)
    }
}

} // verus!
