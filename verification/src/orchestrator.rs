//! The sync orchestrator: sequences the headers, bodies and state stages to
//! a tip, decides the block-aligned snapshot cadence, and keeps exactly the
//! latest snapshot per prefix in the remote store.

use crate::blocks::{BlockResponse, SealedHeader, Tip};
use crate::bodies_stage::{side_tables_ok, BodiesSync};
use crate::codec::gunzip_of;
use crate::errors::SyncError;
use crate::headers_stage::HeadersSync;
use crate::remote::{bytes_prefix_of, bytes_suffix_of, keys_with_prefix, RemoteStore};
use crate::snapshot::{snapshot_key, snapshot_key_spec};
use crate::state_stage::{sv_apply_results, ExecutionResult, StateSync};
use vstd::prelude::*;

verus! {

/// The block alignment of state snapshots.
pub const SNAPSHOT_INTERVAL: u64 = 100000;

/// The paths of the three database directories.
pub struct SplitDatabase {
    pub headers_path: String,
    pub bodies_path: String,
    pub state_path: String,
}

impl SplitDatabase {
    pub fn new(headers_path: String, bodies_path: String, state_path: String) -> (r:
        SplitDatabase)
        ensures
            r.headers_path == headers_path,
            r.bodies_path == bodies_path,
            r.state_path == state_path,
    {
        SplitDatabase { headers_path, bodies_path, state_path }
    }
}

/// The end of the sub-range starting at `sync_from`: the next interval
/// boundary, or the tip if it comes first.
pub fn next_sync_until(sync_from: u64, tip_number: u64, interval: u64) -> (r: u64)
    requires
        interval > 0,
        sync_from + interval <= u64::MAX,
    ensures
        r == (if sync_from + interval - sync_from % interval <= tip_number {
            (sync_from + interval - sync_from % interval) as u64
        } else {
            tip_number
        }),
{
    let boundary = sync_from + interval - sync_from % interval;
    if boundary <= tip_number {
        boundary
    } else {
        tip_number
    }
}

/// Whether the sub-range ending at `sync_until` triggers a state snapshot:
/// every interior boundary does, and the tip only when it falls exactly on
/// an interval boundary.
pub fn should_snapshot_state(sync_until: u64, tip_number: u64, interval: u64) -> (r: bool)
    requires
        interval > 0,
    ensures
        r == (sync_until != tip_number || tip_number % interval == 0),
{
    sync_until != tip_number || tip_number % interval == 0
}

/// The blocks at which state snapshots are taken when syncing from `from`
/// to the tip.
pub open spec fn spec_state_points(from: u64, tip_number: u64, interval: u64) -> Seq<u64>
    decreases tip_number - from + 1,
    when 0 < interval && from <= tip_number && from + interval <= u64::MAX
{
    let boundary = from + interval - from % interval;
    let until: u64 = if boundary <= tip_number {
        boundary as u64
    } else {
        tip_number
    };
    let here: Seq<u64> = if until != tip_number || tip_number % interval == 0 {
        seq![until]
    } else {
        Seq::empty()
    };
    if until < tip_number {
        here + spec_state_points((until + 1) as u64, tip_number, interval)
    } else {
        here
    }
}

/// Computes the state-snapshot points of a sync from `progress` to the tip.
#[verifier::loop_isolation(false)]
pub fn state_snapshot_points(progress: u64, tip_number: u64, interval: u64) -> (r: Vec<u64>)
    requires
        interval > 0,
        tip_number < u64::MAX - interval,
    ensures
        progress < tip_number ==> r@ == spec_state_points(
            (progress + 1) as u64,
            tip_number,
            interval,
        ),
        progress >= tip_number ==> r@.len() == 0,
{
    let mut out: Vec<u64> = Vec::new();
    if progress >= tip_number {
        return out;
    }
    let ghost start = (progress + 1) as u64;
    let mut sync_from = progress + 1;
    loop
        invariant
            progress < tip_number,
            start <= sync_from <= tip_number,
            interval > 0,
            tip_number < u64::MAX - interval,
            out@ + spec_state_points(sync_from, tip_number, interval) == spec_state_points(
                start,
                tip_number,
                interval,
            ),
        decreases tip_number - sync_from,
    {
        let sync_until = next_sync_until(sync_from, tip_number, interval);
        let ghost out0 = out@;
        if should_snapshot_state(sync_until, tip_number, interval) {
            out.push(sync_until);
        }
        proof {
            if sync_until < tip_number {
                assert(out@ + spec_state_points((sync_until + 1) as u64, tip_number, interval)
                    =~= spec_state_points(start, tip_number, interval));
            } else {
                assert(out@ =~= spec_state_points(start, tip_number, interval));
            }
        }
        if sync_until >= tip_number {
            break ;
        }
        sync_from = sync_until + 1;
    }
    out
}

/// Every stored key under the prefix appears in the listing.
proof fn lemma_keys_with_prefix_complete(s: Seq<Seq<u8>>, prefix: Seq<u8>, i: int)
    requires
        0 <= i < s.len(),
        bytes_prefix_of(prefix, s[i]),
    ensures
        keys_with_prefix(s, prefix).contains(s[i]),
    decreases s.len(),
{
    if i == 0 {
        assert(keys_with_prefix(s, prefix)[0] == s[0]);
    } else {
        lemma_keys_with_prefix_complete(s.drop_first(), prefix, i - 1);
        assert(s.drop_first()[i - 1] == s[i]);
        let t = keys_with_prefix(s.drop_first(), prefix);
        let w = choose|w: int| 0 <= w < t.len() && t[w] == s[i];
        if bytes_prefix_of(prefix, s[0]) {
            assert(keys_with_prefix(s, prefix)[w + 1] == s[i]);
        }
    }
}

/// Saves one snapshot and retains only it: the new blob goes in under its
/// key, then every listed key under the prefix that does not end in the new
/// key is deleted. This always succeeds: the snapshot is stored —
/// decompressing back to the image — and no other key under the prefix
/// survives.
#[verifier::loop_isolation(false)]
#[verifier::rlimit(60)]
pub fn save_single_snapshot(
    remote: &mut RemoteStore,
    prefix: &Vec<u8>,
    image: &Vec<u8>,
    progress: u64,
) -> (r: Result<(), SyncError>)
    requires
        old(remote).wf(),
    ensures
        final(remote).wf(),
        r is Ok,
        final(remote)@.contains_key(snapshot_key_spec(prefix@, progress)),
        gunzip_of(final(remote)@[snapshot_key_spec(prefix@, progress)]) == Some(image@),
        forall|k2: Seq<u8>|
            #![trigger final(remote)@.contains_key(k2)]
            old(remote)@.contains_key(k2) && bytes_prefix_of(prefix@, k2) && !bytes_suffix_of(
                snapshot_key_spec(prefix@, progress),
                k2,
            ) ==> !final(remote)@.contains_key(k2),
{
    let key = snapshot_key(prefix, progress);
    let ghost keyv = key@;
    match remote.save(&key, image) {
        Ok(()) => {},
        Err(e) => {
            return Err(e);
        },
    }
    let ghost saved = *remote;
    let listed = remote.list(prefix);
    let ghost all_prefix_keys = listed@.map_values(|k: Vec<u8>| k@);
    proof {
        assert forall|k2: Seq<u8>|
            saved@.contains_key(k2) && bytes_prefix_of(
                prefix@,
                k2,
            ) implies all_prefix_keys.contains(k2) by {
            crate::state_tables::lemma_assoc_map_contains(saved.entries_view(), k2);
            let i = choose|i: int|
                0 <= i < saved.entries_view().len() && (#[trigger] saved.entries_view()[i]).0
                    == k2;
            assert(saved.entries_view().map_values(|e: (Seq<u8>, Seq<u8>)| e.0)[i] == k2);
            lemma_keys_with_prefix_complete(
                saved.entries_view().map_values(|e: (Seq<u8>, Seq<u8>)| e.0),
                prefix@,
                i,
            );
        }
    }
    let n = listed.len();
    let mut i: usize = 0;
    while i < n
        invariant
            0 <= i <= n,
            n == listed@.len(),
            remote.wf(),
            remote@.contains_key(keyv),
            remote@[keyv] == saved@[keyv],
            forall|t: int|
                0 <= t < i && !bytes_suffix_of(keyv, (#[trigger] listed@[t])@) ==> !remote@
                    .contains_key(listed@[t]@),
            forall|k2: Seq<u8>|
                #![trigger remote@.contains_key(k2)]
                !saved@.contains_key(k2) ==> !remote@.contains_key(k2),
        decreases n - i,
    {
        if !crate::remote::key_ends_with(&listed[i], &key) {
            let ghost before = *remote;
            remote.delete(&listed[i]);
            proof {
                assert(keyv.skip(0) =~= keyv);
                assert(bytes_suffix_of(keyv, keyv));
                assert forall|t: int|
                    0 <= t < i + 1 && !bytes_suffix_of(
                        keyv,
                        (#[trigger] listed@[t])@,
                    ) implies !remote@.contains_key(listed@[t]@) by {
                    if t < i {
                        assert(!before@.contains_key(listed@[t]@));
                    }
                }
            }
        }
        i = i + 1;
    }
    proof {
        assert forall|k2: Seq<u8>|
            #![trigger remote@.contains_key(k2)]
            old(remote)@.contains_key(k2) && bytes_prefix_of(prefix@, k2) && !bytes_suffix_of(
                keyv,
                k2,
            ) implies !remote@.contains_key(k2) by {
            if saved@.contains_key(k2) {
                assert(all_prefix_keys.contains(k2));
                let t = choose|t: int|
                    0 <= t < all_prefix_keys.len() && all_prefix_keys[t] == k2;
                assert(listed@[t]@ == k2);
            }
        }
    }
    Ok(())
}

/// What a full orchestrated sync decides to upload: the advanced headers
/// and bodies markers, if they moved, and the state snapshot points.
pub struct SyncOutcome {
    pub headers_snapshot: Option<u64>,
    pub bodies_snapshot: Option<u64>,
    pub state_snapshots: Vec<u64>,
}

/// Sequences the three stages to the tip and decides the snapshots: the
/// headers and bodies snapshots are due exactly when those stages advanced
/// their markers, and the state snapshots fall on the interval cadence.
/// The stages fail as they do alone; a failed stage ends the sync.
#[verifier::loop_isolation(false)]
pub fn run_sync_with_snapshots(
    headers_sync: &mut HeadersSync,
    bodies_sync: &mut BodiesSync,
    state_sync: &mut StateSync,
    tip: Tip,
    header_batches: &Vec<Vec<SealedHeader>>,
    body_batches: &Vec<Vec<BlockResponse>>,
    results: &Vec<ExecutionResult>,
) -> (r: Result<SyncOutcome, SyncError>)
    requires
        old(headers_sync).db.wf(),
        old(bodies_sync).db.wf(),
        old(bodies_sync).db.chain_ok(),
        side_tables_ok(old(bodies_sync).db),
        crate::bodies_stage::marker_consistent(old(bodies_sync).db),
        old(state_sync).db.wf(),
        old(state_sync).commit_threshold > 0,
        tip.number < u64::MAX - SNAPSHOT_INTERVAL,
        forall|b: int, i: int|
            0 <= b < header_batches@.len() && 0 <= i < (#[trigger] header_batches@[b])@.len()
                ==> (#[trigger] header_batches@[b]@[i]).wf(),
        results@.len() == (if tip.number > (match old(state_sync).db.progress {
            Some(p) => p,
            None => 0u64,
        }) {
            tip.number - (match old(state_sync).db.progress {
                Some(p) => p,
                None => 0u64,
            })
        } else {
            0
        }),
    ensures
        final(headers_sync).db.wf(),
        final(bodies_sync).db.wf(),
        final(state_sync).db.wf(),
        match r {
            Ok(outcome) => {
                let sp0 = (match old(state_sync).db.progress {
                    Some(p) => p,
                    None => 0u64,
                });
                // the state stage committed the whole range and its content
                // is the fold of the per-block results
                &&& tip.number > sp0 ==> {
                    &&& final(state_sync).db.progress == Some(tip.number)
                    &&& final(state_sync).db@.accounts == sv_apply_results(
                        old(state_sync).db@,
                        results@,
                        (sp0 + 1) as u64,
                        results@.len() as int,
                        old(state_sync).chain_spec,
                    ).accounts
                    &&& final(state_sync).db@.storage == sv_apply_results(
                        old(state_sync).db@,
                        results@,
                        (sp0 + 1) as u64,
                        results@.len() as int,
                        old(state_sync).chain_spec,
                    ).storage
                    &&& final(state_sync).db@.bytecodes == sv_apply_results(
                        old(state_sync).db@,
                        results@,
                        (sp0 + 1) as u64,
                        results@.len() as int,
                        old(state_sync).chain_spec,
                    ).bytecodes
                }
                &&& tip.number <= sp0 ==> *final(state_sync) == *old(state_sync)
                // the headers chain reaches at least the tip's number, so
                // the markers order headers, then bodies, then state
                &&& (match final(headers_sync).db.progress {
                    Some(ph) => ph >= tip.number,
                    None => false,
                })
                &&& ((match old(bodies_sync).db.progress {
                    Some(q) => q,
                    None => 0u64,
                }) <= tip.number && sp0 <= tip.number) ==> {
                    &&& (match final(headers_sync).db.progress {
                        Some(ph) => ph,
                        None => 0u64,
                    }) >= (match final(bodies_sync).db.progress {
                        Some(pb) => pb,
                        None => 0u64,
                    })
                    &&& (match final(bodies_sync).db.progress {
                        Some(pb) => pb,
                        None => 0u64,
                    }) >= (match final(state_sync).db.progress {
                        Some(ps) => ps,
                        None => 0u64,
                    })
                }
                // snapshots are due exactly where the cadence puts them
                &&& outcome.state_snapshots@ == (if sp0 < tip.number {
                    spec_state_points((sp0 + 1) as u64, tip.number, SNAPSHOT_INTERVAL)
                } else {
                    Seq::<u64>::empty()
                })
                // a headers or bodies snapshot is due exactly when the
                // stage advanced its marker
                &&& outcome.headers_snapshot == (match final(headers_sync).db.progress {
                    Some(p) => if p > (match old(headers_sync).db.progress {
                        Some(q) => q,
                        None => 0u64,
                    }) {
                        Some(p)
                    } else {
                        None
                    },
                    None => None,
                })
                &&& outcome.bodies_snapshot == (match final(bodies_sync).db.progress {
                    Some(p) => if p > (match old(bodies_sync).db.progress {
                        Some(q) => q,
                        None => 0u64,
                    }) {
                        Some(p)
                    } else {
                        None
                    },
                    None => None,
                })
            },
            Err(e) => match e {
                SyncError::CanonicalHeaderMissing { .. } => true,
                SyncError::ChannelClosed => true,
                SyncError::Database => true,
                SyncError::DifficultyOverflow => true,
                SyncError::HeaderMissing { .. } => true,
                SyncError::BlockBodyMissing { .. } => true,
                SyncError::TransactionsGap { .. } => true,
                SyncError::BytecodeHashMismatch { .. } => true,
                _ => false,
            },
        },
{
    // headers stage, then its snapshot decision
    let last_headers_progress = headers_sync.get_progress();
    let headers_head = match headers_sync.run(tip.hash, header_batches) {
        Ok(p) => p,
        Err(e) => {
            return Err(e);
        },
    };
    // the chain must reach the tip's block number for the later stages'
    // ranges to exist under it
    if headers_head < tip.number {
        return Err(SyncError::Database);
    }
    let headers_snapshot = match headers_sync.db.progress {
        Some(p) => if p > last_headers_progress {
            Some(p)
        } else {
            None
        },
        None => None,
    };
    // bodies stage, then its snapshot decision
    let last_bodies_progress = bodies_sync.get_progress();
    match bodies_sync.run(tip, body_batches) {
        Ok(()) => {},
        Err(e) => {
            return Err(e);
        },
    }
    let bodies_snapshot = match bodies_sync.db.progress {
        Some(p) => if p > last_bodies_progress {
            Some(p)
        } else {
            None
        },
        None => None,
    };
    // state stage over the whole remaining range, snapshots on the cadence
    let state_progress = state_sync.get_progress();
    match state_sync.run(&headers_sync.db, &bodies_sync.db, tip.number, results) {
        Ok(()) => {},
        Err(e) => {
            return Err(e);
        },
    }
    let state_snapshots = state_snapshot_points(state_progress, tip.number, SNAPSHOT_INTERVAL);
    Ok(SyncOutcome { headers_snapshot, bodies_snapshot, state_snapshots })
}

} // verus!
