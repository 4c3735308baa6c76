use light_sync::blocks::{
    BlockResponse, Header, SealedBlock, SealedHeader, StoredBlockBody, Tip, TransactionRecord,
};
use light_sync::bodies_stage::BodiesSync;
use light_sync::chain::ChainSpec;
use light_sync::db::{BodiesDb, HeadersDb, HeadersDescriptor, BodiesDescriptor, StateDb,
    StateDescriptor, LatestSplitStateProvider};
use light_sync::errors::SyncError;
use light_sync::headers_stage::HeadersSync;
use light_sync::nums::{AddressV, B256, W256};
use light_sync::state_tables::{Account, StorageEntry};
use sha3::Digest;

fn keccak(bytes: &[u8]) -> B256 {
    let d = sha3::Keccak256::digest(bytes);
    let word = |i: usize| u64::from_be_bytes(d[i..i + 8].try_into().unwrap());
    B256 { c0: word(0), c1: word(8), c2: word(16), c3: word(24) }
}

fn h256(x: u64) -> B256 {
    B256 { c0: 0, c1: 0, c2: 0, c3: x }
}

fn w256(x: u64) -> W256 {
    W256 { l0: x, l1: 0, l2: 0, l3: 0 }
}

fn addr(x: u64) -> AddressV {
    AddressV { a0: x, a1: 0, a2: 0 }
}

fn header(number: u64, parent_hash: B256, difficulty: u64) -> Header {
    Header { number, parent_hash, state_root: h256(0), difficulty: w256(difficulty), timestamp: 0 }
}

/// A small sealed chain from genesis, parent hashes linked.
fn chain_of(len: u64) -> Vec<SealedHeader> {
    let mut out = Vec::new();
    let mut parent = h256(0);
    for n in 0..len {
        let sealed = SealedHeader::seal(header(n, parent, 1));
        parent = sealed.hash;
        out.push(sealed);
    }
    out
}

fn genesis_spec(chain: &[SealedHeader]) -> ChainSpec {
    ChainSpec::new(chain[0].header, Vec::new(), None)
}

#[test]
fn genesis_written_once() {
    let chain = chain_of(1);
    let spec = genesis_spec(&chain);
    let mut db = HeadersDb::new();
    let desc = HeadersDescriptor;
    desc.ensure_genesis(&mut db, &spec).unwrap();
    assert_eq!(*db.canonical.get(0).unwrap(), chain[0].hash);
    assert_eq!(*db.headers.get(0).unwrap(), chain[0].header);
    // a second call leaves everything in place
    desc.ensure_genesis(&mut db, &spec).unwrap();
    assert_eq!(db.canonical.len(), 1);
}

#[test]
fn genesis_hash_mismatch_is_fatal() {
    let chain = chain_of(1);
    let spec = genesis_spec(&chain);
    let mut db = HeadersDb::new();
    HeadersDescriptor.ensure_genesis(&mut db, &spec).unwrap();
    // a spec with a different genesis header disagrees with the disk
    let other = ChainSpec::new(header(0, h256(7), 3), Vec::new(), None);
    let err = HeadersDescriptor.ensure_genesis(&mut db, &other).unwrap_err();
    assert_eq!(
        err,
        SyncError::GenesisHashMismatch { expected: other.genesis.hash, actual: chain[0].hash }
    );
}

#[test]
fn headers_run_reaches_tip_and_hashes_match() {
    let chain = chain_of(6);
    let spec = genesis_spec(&chain);
    let mut db = HeadersDb::new();
    HeadersDescriptor.ensure_genesis(&mut db, &spec).unwrap();
    let mut sync = HeadersSync::new(db);
    // the downloader walks in reverse from the tip toward the head
    let batch: Vec<SealedHeader> = chain[1..6].iter().rev().cloned().collect();
    let tip = chain[5].hash;
    let p = sync.run(tip, &vec![batch]).unwrap();
    assert_eq!(p, 5);
    assert_eq!(sync.db.progress, Some(5));
    // every committed block's header hashes to its canonical hash
    for n in 0..6u64 {
        let stored = *sync.db.headers.get(n).unwrap();
        let canon = *sync.db.canonical.get(n).unwrap();
        assert_eq!(light_sync::blocks::hash_header(&stored), canon);
    }
}

#[test]
fn headers_run_idempotent_at_tip() {
    let chain = chain_of(4);
    let spec = genesis_spec(&chain);
    let mut db = HeadersDb::new();
    HeadersDescriptor.ensure_genesis(&mut db, &spec).unwrap();
    let mut sync = HeadersSync::new(db);
    let batch: Vec<SealedHeader> = chain[1..4].iter().rev().cloned().collect();
    let tip = chain[3].hash;
    sync.run(tip, &vec![batch]).unwrap();
    let len_before = sync.db.canonical.len();
    // a second run with the same tip inserts nothing
    sync.run(tip, &Vec::new()).unwrap();
    assert_eq!(sync.db.canonical.len(), len_before);
    assert_eq!(sync.db.progress, Some(3));
}

#[test]
fn headers_run_refuses_holey_batches() {
    let chain = chain_of(6);
    let spec = genesis_spec(&chain);
    let mut db = HeadersDb::new();
    HeadersDescriptor.ensure_genesis(&mut db, &spec).unwrap();
    let mut sync = HeadersSync::new(db);
    // a descending but gapped batch: blocks 5, 4, 2 — block 3 is missing,
    // so the gap never closes and the batches run out
    let batch = vec![chain[5], chain[4], chain[2]];
    let err = sync.run(chain[5].hash, &vec![batch]).unwrap_err();
    assert_eq!(err, SyncError::ChannelClosed);
    // the stage committed no progress marker past the hole
    assert_eq!(sync.db.progress, None);
    // and the genesis row is untouched
    assert_eq!(*sync.db.canonical.get(0).unwrap(), chain[0].hash);
}

#[test]
fn headers_run_refuses_wrong_tip() {
    let chain = chain_of(4);
    let spec = genesis_spec(&chain);
    let mut db = HeadersDb::new();
    HeadersDescriptor.ensure_genesis(&mut db, &spec).unwrap();
    let mut sync = HeadersSync::new(db);
    let batch: Vec<SealedHeader> = chain[1..4].iter().rev().cloned().collect();
    // the chain is contiguous but its head is not the requested tip
    let err = sync.run(h256(99), &vec![batch]).unwrap_err();
    assert_eq!(err, SyncError::Database);
    assert_eq!(sync.db.progress, None);
}

#[test]
fn headers_run_without_batches_is_channel_closed() {
    let chain = chain_of(3);
    let spec = genesis_spec(&chain);
    let mut db = HeadersDb::new();
    HeadersDescriptor.ensure_genesis(&mut db, &spec).unwrap();
    let mut sync = HeadersSync::new(db);
    let err = sync.run(chain[2].hash, &Vec::new()).unwrap_err();
    assert_eq!(err, SyncError::ChannelClosed);
}

fn full_response(sealed: SealedHeader, txs: Vec<TransactionRecord>) -> BlockResponse {
    BlockResponse::Full(SealedBlock { header: sealed, body: txs, ommers: Vec::new(),
        withdrawals: None })
}

/// Bodies for blocks 1..=4: counts 2, 0, 3, 0 — the zero-count rows keep
/// the id progression untouched.
fn bodies_fixture() -> (BodiesSync, Vec<SealedHeader>) {
    let chain = chain_of(5);
    let mut db = BodiesDb::new();
    BodiesDescriptor.ensure_genesis(&mut db);
    let mut sync = BodiesSync::new(db);
    let txs = |base: u64, n: u64| -> Vec<TransactionRecord> {
        (0..n).map(|i| TransactionRecord { hash: h256(base + i) }).collect()
    };
    let batch = vec![
        full_response(chain[1], txs(10, 2)),
        BlockResponse::Empty(chain[2]),
        full_response(chain[3], txs(20, 3)),
        BlockResponse::Empty(chain[4]),
    ];
    let latest = sync.insert_batch(&batch).unwrap();
    assert_eq!(latest, 4);
    (sync, chain)
}

#[test]
fn body_start_ids_are_prefix_sums() {
    let (sync, _) = bodies_fixture();
    // counts per block: genesis 0, then 2, 0, 3, 0
    let expect = [(0u64, 0u64), (0, 2), (2, 0), (2, 3), (5, 0)];
    let mut sum = 0u64;
    for n in 0..5u64 {
        let row = *sync.db.bodies.get(n).unwrap();
        assert_eq!(row.start_tx_id, expect[n as usize].0);
        assert_eq!(row.tx_count, expect[n as usize].1);
        assert_eq!(row.start_tx_id, sum);
        sum += row.tx_count;
    }
    // transaction ids are contiguous from zero
    for id in 0..5u64 {
        assert!(sync.db.transactions.get(id).is_some());
    }
    assert!(sync.db.transactions.get(5).is_none());
    assert_eq!(sync.db.progress, Some(4));
}

#[test]
fn empty_body_rows_store_zero_counts() {
    let (sync, _) = bodies_fixture();
    let row = *sync.db.bodies.get(2).unwrap();
    assert_eq!(row, StoredBlockBody { start_tx_id: 2, tx_count: 0 });
    // no ommers or withdrawals rows were created
    assert!(sync.db.ommers.get(2).is_none());
    assert!(sync.db.withdrawals.get(2).is_none());
}

#[test]
fn bodies_run_nothing_to_sync() {
    let (mut sync, chain) = bodies_fixture();
    let tip = Tip::new(chain[4].hash, 4);
    // progress is already at the tip: the run touches nothing
    sync.run(tip, &Vec::new()).unwrap();
    assert_eq!(sync.db.progress, Some(4));
    assert_eq!(sync.db.bodies.len(), 5);
}

#[test]
fn bodies_run_refuses_batch_past_tip() {
    let chain = chain_of(4);
    let mut db = BodiesDb::new();
    BodiesDescriptor.ensure_genesis(&mut db);
    let mut sync = BodiesSync::new(db);
    let tip = Tip::new(chain[2].hash, 2);
    // the batch runs to block 3, past the tip's range
    let batch: Vec<BlockResponse> = chain[1..4].iter().map(|h| BlockResponse::Empty(*h)).collect();
    let err = sync.run(tip, &vec![batch]).unwrap_err();
    assert_eq!(err, SyncError::Database);
    assert_eq!(sync.db.bodies.len(), 1);
}

#[test]
fn bodies_refuse_gapped_batch() {
    let chain = chain_of(4);
    let mut db = BodiesDb::new();
    BodiesDescriptor.ensure_genesis(&mut db);
    let mut sync = BodiesSync::new(db);
    // block 2 without block 1 does not continue the chain
    let batch = vec![BlockResponse::Empty(chain[2])];
    assert_eq!(sync.insert_batch(&batch).unwrap_err(), SyncError::Database);
    assert_eq!(sync.db.bodies.len(), 1);
}

#[test]
fn state_genesis_allocates_accounts() {
    let chain = chain_of(1);
    let alloc = vec![
        (addr(1), Account { nonce: 0, balance: w256(100), bytecode_hash: None }),
        (addr(2), Account { nonce: 1, balance: w256(7), bytecode_hash: None }),
    ];
    let spec = ChainSpec::new(chain[0].header, alloc, None);
    let mut db = StateDb::new();
    StateDescriptor.ensure_genesis(&mut db, &spec);
    assert_eq!(db.accounts.get(&addr(1)).unwrap().balance, w256(100));
    assert_eq!(db.accounts.get(&addr(2)).unwrap().nonce, 1);
    assert!(db.accounts.get(&addr(3)).is_none());
}

#[test]
fn provider_routes_lookups() {
    let chain = chain_of(2);
    let spec = genesis_spec(&chain);
    let mut hdb = HeadersDb::new();
    HeadersDescriptor.ensure_genesis(&mut hdb, &spec).unwrap();
    let mut sdb = StateDb::new();
    sdb.accounts.upsert(addr(9), Account { nonce: 3, balance: w256(5), bytecode_hash: None });
    sdb.storage.put_entry(&addr(9), &h256(1), &w256(44));
    sdb.bytecodes.put(keccak(&[1, 2, 3]), vec![1, 2, 3]);
    let provider = LatestSplitStateProvider::new(&hdb, &sdb);
    assert_eq!(provider.block_hash(0), Some(chain[0].hash));
    assert!(provider.block_hash(1).is_none());
    assert_eq!(provider.basic_account(&addr(9)).unwrap().nonce, 3);
    assert_eq!(provider.storage(&addr(9), &h256(1)), Some(w256(44)));
    assert!(provider.storage(&addr(9), &h256(2)).is_none());
    let hash = keccak(&[1, 2, 3]);
    assert_eq!(provider.bytecode_by_hash(&hash).unwrap(), &vec![1, 2, 3]);
}

#[test]
fn storage_entry_removed_when_zeroed() {
    let mut db = StateDb::new();
    db.storage.put_entry(&addr(4), &h256(1), &w256(9));
    db.storage.delete_entry(&addr(4), &h256(1), &w256(9));
    assert!(db.storage.get(&addr(4), &h256(1)).is_none());
    // deleting under the wrong old value leaves the row alone
    db.storage.put_entry(&addr(4), &h256(1), &w256(9));
    db.storage.delete_entry(&addr(4), &h256(1), &w256(8));
    assert_eq!(db.storage.get(&addr(4), &h256(1)), Some(w256(9)));
}

#[test]
fn storage_entries_compare() {
    let a = StorageEntry { key: h256(1), value: w256(2) };
    let b = StorageEntry { key: h256(1), value: w256(2) };
    assert_eq!(a, b);
}
