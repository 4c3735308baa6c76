use base64::Engine;
use light_sync::blocks::{BlockResponse, Header, SealedBlock, SealedHeader, TransactionRecord};
use light_sync::bodies_stage::BodiesSync;
use light_sync::chain::ChainSpec;
use light_sync::db::{BodiesDb, BodiesDescriptor, HeadersDb, HeadersDescriptor, StateDb};
use light_sync::errors::SyncError;
use light_sync::headers_stage::HeadersSync;
use light_sync::nums::{AddressV, B256, W256};
use light_sync::orchestrator::{next_sync_until, save_single_snapshot, should_snapshot_state,
    state_snapshot_points};
use light_sync::remote::{decode_blob, encode_blob, RemoteStore};
use light_sync::snapshot::{parse_dec, snapshot_key, u64_to_dec, DatabaseInitializer};
use light_sync::state_stage::{AccountChangeSet, AccountInfoChangeSet, ExecutionResult, StateSync,
    StorageChange, TxChangeSet};
use light_sync::state_tables::Account;
use sha3::Digest;

fn keccak(bytes: &[u8]) -> B256 {
    let d = sha3::Keccak256::digest(bytes);
    let word = |i: usize| u64::from_be_bytes(d[i..i + 8].try_into().unwrap());
    B256 { c0: word(0), c1: word(8), c2: word(16), c3: word(24) }
}

fn h256(x: u64) -> B256 {
    B256 { c0: 0, c1: 0, c2: 0, c3: x }
}

fn w256(x: u64) -> W256 {
    W256 { l0: x, l1: 0, l2: 0, l3: 0 }
}

fn addr(x: u64) -> AddressV {
    AddressV { a0: x, a1: 0, a2: 0 }
}

fn header(number: u64, parent_hash: B256, difficulty: u64) -> Header {
    Header { number, parent_hash, state_root: h256(0), difficulty: w256(difficulty), timestamp: 0 }
}

fn chain_of(len: u64) -> Vec<SealedHeader> {
    let mut out = Vec::new();
    let mut parent = h256(0);
    for n in 0..len {
        let sealed = SealedHeader::seal(header(n, parent, 1));
        parent = sealed.hash;
        out.push(sealed);
    }
    out
}

fn empty_account() -> Account {
    Account { nonce: 0, balance: w256(0), bytecode_hash: None }
}

fn created(new: Account) -> ExecutionResult {
    ExecutionResult {
        tx_changesets: vec![TxChangeSet {
            changeset: vec![(addr(7), AccountChangeSet {
                account: AccountInfoChangeSet::Created { new },
                wipe_storage: false,
                storage: Vec::new(),
            })],
            new_bytecodes: Vec::new(),
        }],
        block_changesets: Vec::new(),
    }
}

fn state_sync_with_fork(fork: Option<u64>) -> StateSync {
    let chain = chain_of(1);
    let spec = ChainSpec::new(chain[0].header, Vec::new(), fork);
    StateSync::new(StateDb::new(), 16, spec)
}

#[test]
fn empty_account_not_persisted_at_fork_block() {
    // the fork activates at block 5: creating an empty account there must
    // not persist
    let mut sync = state_sync_with_fork(Some(5));
    let results = vec![created(empty_account())];
    sync.execute_batch(5, &results, 0, 1).unwrap();
    assert!(sync.db.accounts.get(&addr(7)).is_none());
    assert_eq!(sync.db.progress, Some(5));
}

#[test]
fn empty_account_persists_before_fork_block() {
    // one block earlier the same operation must persist
    let mut sync = state_sync_with_fork(Some(5));
    let results = vec![created(empty_account())];
    sync.execute_batch(4, &results, 0, 1).unwrap();
    assert_eq!(sync.db.accounts.get(&addr(7)).unwrap(), &empty_account());
}

#[test]
fn storage_changes_never_store_zero() {
    let mut sync = state_sync_with_fork(None);
    let result = ExecutionResult {
        tx_changesets: vec![TxChangeSet {
            changeset: vec![(addr(1), AccountChangeSet {
                account: AccountInfoChangeSet::NoChange,
                wipe_storage: false,
                storage: vec![
                    StorageChange { key: w256(1), old_value: w256(0), new_value: w256(11) },
                    StorageChange { key: w256(2), old_value: w256(0), new_value: w256(0) },
                ],
            })],
            new_bytecodes: Vec::new(),
        }],
        block_changesets: Vec::new(),
    };
    sync.execute_batch(1, &vec![result], 0, 1).unwrap();
    assert_eq!(sync.db.storage.get(&addr(1), &h256(1)), Some(w256(11)));
    // the zero-valued slot was never written
    assert!(sync.db.storage.get(&addr(1), &h256(2)).is_none());
}

#[test]
fn wiped_storage_keeps_only_new_values() {
    let mut sync = state_sync_with_fork(None);
    sync.db.storage.put_entry(&addr(1), &h256(9), &w256(99));
    let result = ExecutionResult {
        tx_changesets: vec![TxChangeSet {
            changeset: vec![(addr(1), AccountChangeSet {
                account: AccountInfoChangeSet::NoChange,
                wipe_storage: true,
                storage: vec![StorageChange {
                    key: w256(3),
                    old_value: w256(0),
                    new_value: w256(33),
                }],
            })],
            new_bytecodes: Vec::new(),
        }],
        block_changesets: Vec::new(),
    };
    sync.execute_batch(1, &vec![result], 0, 1).unwrap();
    assert!(sync.db.storage.get(&addr(1), &h256(9)).is_none());
    assert_eq!(sync.db.storage.get(&addr(1), &h256(3)), Some(w256(33)));
}

#[test]
fn bytecode_must_match_its_hash() {
    let mut sync = state_sync_with_fork(None);
    let result = ExecutionResult {
        tx_changesets: vec![TxChangeSet {
            changeset: Vec::new(),
            new_bytecodes: vec![(h256(1), vec![1, 2, 3])],
        }],
        block_changesets: Vec::new(),
    };
    let err = sync.execute_batch(1, &vec![result], 0, 1).unwrap_err();
    assert_eq!(err, SyncError::BytecodeHashMismatch { code_hash: h256(1) });
    // correctly keyed bytecode is stored
    let code = vec![1u8, 2, 3];
    let hash = keccak(&code);
    let good = ExecutionResult {
        tx_changesets: vec![TxChangeSet {
            changeset: Vec::new(),
            new_bytecodes: vec![(hash, code.clone())],
        }],
        block_changesets: Vec::new(),
    };
    sync.execute_batch(1, &vec![good], 0, 1).unwrap();
    assert_eq!(sync.db.bytecodes.get(&hash).unwrap(), &code);
}

/// A populated headers and bodies pair for blocks 0..=3 with no
/// transactions, for driving the state stage.
fn stage_dbs() -> (HeadersDb, BodiesDb, ChainSpec) {
    let chain = chain_of(4);
    let spec = ChainSpec::new(chain[0].header, Vec::new(), None);
    let mut hdb = HeadersDb::new();
    HeadersDescriptor.ensure_genesis(&mut hdb, &spec).unwrap();
    let mut hsync = HeadersSync::new(hdb);
    let batch: Vec<SealedHeader> = chain[1..4].iter().rev().cloned().collect();
    hsync.run(chain[3].hash, &vec![batch]).unwrap();
    let mut bdb = BodiesDb::new();
    BodiesDescriptor.ensure_genesis(&mut bdb);
    let mut bsync = BodiesSync::new(bdb);
    let batch: Vec<BlockResponse> = chain[1..4].iter().map(|h| BlockResponse::Empty(*h)).collect();
    bsync.insert_batch(&batch).unwrap();
    (hsync.into_db(), bsync.into_db(), spec)
}

#[test]
fn state_run_executes_and_commits_progress() {
    let (hdb, bdb, spec) = stage_dbs();
    let mut sync = StateSync::new(StateDb::new(), 2, spec);
    let results: Vec<ExecutionResult> = (0..3)
        .map(|i| created(Account { nonce: i, balance: w256(1), bytecode_hash: None }))
        .collect();
    sync.run(&hdb, &bdb, 3, &results).unwrap();
    // the marker sits exactly at the highest applied block
    assert_eq!(sync.db.progress, Some(3));
    // the last write wins on the repeatedly created account
    assert_eq!(sync.db.accounts.get(&addr(7)).unwrap().nonce, 2);
    // a second run to the same tip changes nothing
    let before = sync.db.progress;
    sync.run(&hdb, &bdb, 3, &Vec::new()).unwrap();
    assert_eq!(sync.db.progress, before);
}

#[test]
fn transactions_gap_aborts_assembly() {
    let (hdb, _, spec) = stage_dbs();
    let chain = chain_of(4);
    // a bodies database whose block-1 row claims two transactions while
    // the transaction table holds only id 0: the window is gapped at id 1
    let mut bdb = BodiesDb::new();
    BodiesDescriptor.ensure_genesis(&mut bdb);
    let mut bsync = BodiesSync::new(bdb);
    let two_tx = vec![
        TransactionRecord { hash: h256(1) },
        TransactionRecord { hash: h256(2) },
    ];
    let batch = vec![BlockResponse::Full(SealedBlock {
        header: chain[1],
        body: two_tx,
        ommers: Vec::new(),
        withdrawals: None,
    })];
    bsync.insert_batch(&batch).unwrap();
    let mut corrupt = bsync.into_db();
    corrupt.transactions = {
        let mut t = light_sync::kv::Table::new();
        t.append(0, TransactionRecord { hash: h256(1) });
        t
    };
    let mut sync = StateSync::new(StateDb::new(), 4, spec);
    let mut td = w256(0);
    let err = match sync.assemble_batch(&hdb, &corrupt, 1, 1, &mut td) {
        Ok(_) => panic!("a gapped transaction table must not assemble"),
        Err(e) => e,
    };
    assert_eq!(err, SyncError::TransactionsGap { missing: 1 });
    // and nothing was committed to the state
    assert_eq!(sync.db.progress, None);
}

#[test]
fn snapshot_cadence_hits_interior_boundaries() {
    // tip 250 000: interior boundaries at 100k and 200k; the tip itself is
    // not on a boundary, so no upload there
    let points = state_snapshot_points(0, 250000, 100000);
    assert_eq!(points, vec![100000, 200000]);
}

#[test]
fn snapshot_cadence_tip_mid_interval() {
    // tip 150 000: only the 100k boundary uploads
    let points = state_snapshot_points(0, 150000, 100000);
    assert_eq!(points, vec![100000]);
}

#[test]
fn snapshot_cadence_tip_on_boundary() {
    // a tip exactly on a boundary uploads there too
    let points = state_snapshot_points(0, 200000, 100000);
    assert_eq!(points, vec![100000, 200000]);
    assert_eq!(next_sync_until(1, 200000, 100000), 100000);
    assert!(should_snapshot_state(200000, 200000, 100000));
    assert!(!should_snapshot_state(150000, 150000, 100000));
}

#[test]
fn snapshot_keys_round_trip() {
    assert_eq!(u64_to_dec(0), vec![0x30]);
    assert_eq!(u64_to_dec(105), b"105".to_vec());
    assert_eq!(parse_dec(&b"105".to_vec()), Some(105));
    assert_eq!(parse_dec(&b"".to_vec()), None);
    assert_eq!(parse_dec(&b"1x5".to_vec()), None);
    let key = snapshot_key(&b"headers-".to_vec(), 100000);
    assert_eq!(key, b"headers-100000.dat.gz".to_vec());
    let init = DatabaseInitializer::new().with_prefix(b"headers-".to_vec());
    assert_eq!(init.get_snapshot_progress(&key), Some(100000));
    assert_eq!(init.get_snapshot_progress(&b"headers-abc.dat.gz".to_vec()), None);
    assert_eq!(init.get_snapshot_progress(&b"bodies-5.dat.gz".to_vec()), None);
}

#[test]
fn best_snapshot_picks_maximum_above_local() {
    let init = DatabaseInitializer::new().with_prefix(b"headers-".to_vec());
    let keys = vec![
        b"headers-50000.dat.gz".to_vec(),
        b"headers-100000.dat.gz".to_vec(),
        b"headers-broken".to_vec(),
        b"headers-70000.dat.gz".to_vec(),
    ];
    // the local database sits at 50 000: the remote 100 000 wins
    let (i, p) = init.best_snapshot(&keys, 50000).unwrap();
    assert_eq!((i, p), (1, 100000));
    // local already ahead of every snapshot: nothing to restore
    assert!(init.best_snapshot(&keys, 100000).is_none());
}

#[test]
fn snapshot_save_then_retrieve_is_identity() {
    let mut remote = RemoteStore::new();
    let image: Vec<u8> = (0..200u32).map(|x| (x % 251) as u8).collect();
    let key = snapshot_key(&b"state-snapshots/state-".to_vec(), 100000);
    remote.save(&key, &image).unwrap();
    let back = remote.retrieve(&key).unwrap().unwrap();
    assert_eq!(back, image);
    assert_eq!(remote.retrieve(&b"state-snapshots/state-5.dat.gz".to_vec()).unwrap(), None);
}

#[test]
fn snapshot_retention_keeps_only_latest() {
    let mut remote = RemoteStore::new();
    let prefix = b"headers-".to_vec();
    save_single_snapshot(&mut remote, &prefix, &vec![1, 2, 3], 100000).unwrap();
    save_single_snapshot(&mut remote, &prefix, &vec![4, 5, 6], 200000).unwrap();
    // the older snapshot is gone, the newer one present and intact
    let old_key = snapshot_key(&prefix, 100000);
    let new_key = snapshot_key(&prefix, 200000);
    assert_eq!(remote.retrieve(&old_key).unwrap(), None);
    assert_eq!(remote.retrieve(&new_key).unwrap(), Some(vec![4, 5, 6]));
    assert_eq!(remote.list(&prefix).len(), 1);
}

#[test]
fn blob_codec_round_trips() {
    let content: Vec<u8> = b"# a readme-sized blob\nwith two lines".to_vec();
    let encoded = encode_blob(&content).unwrap();
    let decoded = decode_blob(&vec![encoded]).unwrap();
    assert_eq!(decoded, content);
    // text that is not base64 is rejected
    assert!(decode_blob(&vec!["not *base64*".to_string()]).is_err());
    // valid base64 of bytes that are not gzip is rejected too
    let bogus = base64::engine::general_purpose::STANDARD.encode([9u8, 9, 9]);
    assert!(decode_blob(&vec![bogus]).is_err());
}

#[test]
fn difficulty_overflow_is_detected() {
    let max = W256 { l0: u64::MAX, l1: u64::MAX, l2: u64::MAX, l3: u64::MAX };
    assert!(max.checked_add(w256(1)).is_none());
    assert_eq!(w256(2).checked_add(w256(3)), Some(w256(5)));
    // a headers table whose difficulties sum past 256 bits fails get_td
    let h0 = header(0, h256(0), 0);
    let spec = ChainSpec::new(h0, Vec::new(), None);
    let mut hdb = HeadersDb::new();
    let mut big1 = header(1, h256(1), 0);
    big1.difficulty = max;
    let mut big2 = header(2, h256(2), 0);
    big2.difficulty = max;
    HeadersDescriptor.ensure_genesis(&mut hdb, &spec).unwrap();
    let mut hsync = HeadersSync::new(hdb);
    hsync.insert_batch(&vec![SealedHeader::seal(big2), SealedHeader::seal(big1)]).unwrap();
    let sync = StateSync::new(StateDb::new(), 4, spec);
    assert_eq!(sync.get_td(&hsync.db, 2).unwrap_err(), SyncError::DifficultyOverflow);
    // block zero reads the genesis difficulty without touching the table
    assert_eq!(sync.get_td(&hsync.db, 0).unwrap(), w256(0));
}
