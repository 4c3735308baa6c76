use light_sync::blocks::{BlockResponse, Header, SealedHeader, Tip};
use light_sync::bodies_stage::BodiesSync;
use light_sync::chain::ChainSpec;
use light_sync::db::{BodiesDb, BodiesDescriptor, HeadersDb, HeadersDescriptor, StateDb};
use light_sync::headers_stage::HeadersSync;
use light_sync::nums::B256;
use light_sync::orchestrator::run_sync_with_snapshots;
use light_sync::remote::{list_headers_snapshots, ContentInfo};
use light_sync::state_stage::{ExecutionResult, StateSync, TxChangeSet};

fn h256(x: u64) -> B256 {
    B256 { c0: 0, c1: 0, c2: 0, c3: x }
}

fn header(number: u64, parent_hash: B256) -> Header {
    Header {
        number,
        parent_hash,
        state_root: h256(0),
        difficulty: light_sync::nums::W256 { l0: 1, l1: 0, l2: 0, l3: 0 },
        timestamp: 0,
    }
}

fn chain_of(len: u64) -> Vec<SealedHeader> {
    let mut out = Vec::new();
    let mut parent = h256(0);
    for n in 0..len {
        let sealed = SealedHeader::seal(header(n, parent));
        parent = sealed.hash;
        out.push(sealed);
    }
    out
}

fn fresh_stages(chain: &[SealedHeader]) -> (HeadersSync, BodiesSync, StateSync) {
    let spec = ChainSpec::new(chain[0].header, Vec::new(), None);
    let mut hdb = HeadersDb::new();
    HeadersDescriptor.ensure_genesis(&mut hdb, &spec).unwrap();
    let mut bdb = BodiesDb::new();
    BodiesDescriptor.ensure_genesis(&mut bdb);
    let mut sdb = StateDb::new();
    light_sync::db::StateDescriptor.ensure_genesis(&mut sdb, &spec);
    (HeadersSync::new(hdb), BodiesSync::new(bdb), StateSync::new(sdb, 4, spec))
}

fn empty_result() -> ExecutionResult {
    ExecutionResult {
        tx_changesets: vec![TxChangeSet { changeset: Vec::new(), new_bytecodes: Vec::new() }],
        block_changesets: Vec::new(),
    }
}

#[test]
fn sync_to_genesis_tip_leaves_stages_idle() {
    let chain = chain_of(1);
    let (mut hsync, mut bsync, mut ssync) = fresh_stages(&chain);
    let tip = Tip::new(chain[0].hash, 0);
    let outcome = run_sync_with_snapshots(
        &mut hsync,
        &mut bsync,
        &mut ssync,
        tip,
        &Vec::new(),
        &Vec::new(),
        &Vec::new(),
    )
    .unwrap();
    // only the genesis rows exist, and no snapshot is due
    assert_eq!(hsync.db.canonical.len(), 1);
    assert_eq!(bsync.db.bodies.len(), 1);
    assert_eq!(outcome.headers_snapshot, None);
    assert_eq!(outcome.bodies_snapshot, None);
    assert!(outcome.state_snapshots.is_empty());
}

#[test]
fn full_sync_plans_snapshots_for_advanced_stages() {
    let chain = chain_of(4);
    let (mut hsync, mut bsync, mut ssync) = fresh_stages(&chain);
    let tip = Tip::new(chain[3].hash, 3);
    let header_batch: Vec<SealedHeader> = chain[1..4].iter().rev().cloned().collect();
    let body_batch: Vec<BlockResponse> =
        chain[1..4].iter().map(|h| BlockResponse::Empty(*h)).collect();
    let results: Vec<ExecutionResult> = (0..3).map(|_| empty_result()).collect();
    let outcome = run_sync_with_snapshots(
        &mut hsync,
        &mut bsync,
        &mut ssync,
        tip,
        &vec![header_batch],
        &vec![body_batch],
        &results,
    )
    .unwrap();
    assert_eq!(hsync.db.progress, Some(3));
    assert_eq!(bsync.db.progress, Some(3));
    assert_eq!(ssync.db.progress, Some(3));
    assert_eq!(outcome.headers_snapshot, Some(3));
    assert_eq!(outcome.bodies_snapshot, Some(3));
    // a three-block sync never crosses an interval boundary
    assert!(outcome.state_snapshots.is_empty());
}

#[test]
fn sync_fails_when_headers_fall_short_of_tip() {
    let chain = chain_of(4);
    let (mut hsync, mut bsync, mut ssync) = fresh_stages(&chain);
    // the headers batches end at block 3, but the tip claims block 5
    let tip = Tip::new(chain[3].hash, 5);
    let header_batch: Vec<SealedHeader> = chain[1..4].iter().rev().cloned().collect();
    let r = run_sync_with_snapshots(
        &mut hsync,
        &mut bsync,
        &mut ssync,
        tip,
        &vec![header_batch],
        &Vec::new(),
        &Vec::new(),
    );
    assert!(r.is_err());
    // the later stages never ran
    assert_eq!(bsync.db.progress, None);
    assert_eq!(ssync.db.progress, None);
}

fn info(path: &str) -> ContentInfo {
    ContentInfo {
        name: String::new(),
        path: path.as_bytes().to_vec(),
        ty: "file".to_string(),
        content: None,
        sha: String::new(),
        download_url: String::new(),
    }
}

#[test]
fn headers_snapshots_filtered_from_listing() {
    let entries = vec![
        info("headers-100000.dat.gz"),
        info("bodies-100000.dat.gz"),
        info("headers-200000.dat.gz"),
        info("headers-notes.txt"),
    ];
    let picked = list_headers_snapshots(&entries);
    assert_eq!(picked, vec![0, 2]);
}
