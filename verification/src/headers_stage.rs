//! The headers stage: walks batches of sealed headers that a downloader
//! fetched in reverse from the tip, inserts them ascending into the headers
//! database, and closes the sync gap.

use crate::blocks::{header_hash, SealedHeader};
use crate::db::HeadersDb;
use crate::errors::SyncError;
use crate::kv::{lemma_tbl_sorted_insert, tbl_contains, tbl_get,
    tbl_next_above, tbl_sorted_insert};
use crate::nums::B256;
use vstd::prelude::*;

verus! {

/// What the stage asks the downloader to walk toward: the configured tip,
/// or the lowest header of a non-contiguous region already on disk.
#[derive(Clone, Copy, PartialEq, Eq, Structural, Debug)]
pub enum SyncTarget {
    Tip(B256),
    Gap(SealedHeader),
}

/// The interval left to download: the local head and the target above it.
#[derive(Clone, Copy, PartialEq, Eq, Structural, Debug)]
pub struct SyncGap {
    pub local_head: SealedHeader,
    pub target: SyncTarget,
}

impl SyncGap {
    /// The gap is closed when the local head is exactly what the target
    /// attaches to: the tip itself, or the gap header's parent.
    pub open spec fn spec_is_closed(self) -> bool {
        match self.target {
            SyncTarget::Tip(h) => self.local_head.hash == h,
            SyncTarget::Gap(g) => self.local_head.hash == g.header.parent_hash,
        }
    }

    pub fn is_closed(&self) -> (r: bool)
        ensures
            r == self.spec_is_closed(),
    {
        match self.target {
            SyncTarget::Tip(h) => self.local_head.hash == h,
            SyncTarget::Gap(g) => self.local_head.hash == g.header.parent_hash,
        }
    }
}

/// The first batch element of a number, scanning front to back.
pub open spec fn batch_lookup(batch: Seq<SealedHeader>, n: u64) -> Option<SealedHeader>
    decreases batch.len(),
{
    if batch.len() == 0 {
        None
    } else if batch[0].header.number == n {
        Some(batch[0])
    } else {
        batch_lookup(batch.drop_first(), n)
    }
}

/// The committed shape the stage leaves behind: canonical rows sit at
/// exactly the block numbers `0..len`, and the last one carries the tip's
/// hash — the chain is contiguous up to a header whose hash is the tip.
pub open spec fn chain_complete(db: HeadersDb, tip: B256) -> bool {
    &&& db.canonical@.len() > 0
    &&& forall|i: int| 0 <= i < db.canonical@.len() ==> (#[trigger] db.canonical@[i]).0 == i
    &&& db.canonical@.last().1 == tip
}

/// The headers stage over its database.
pub struct HeadersSync {
    pub db: HeadersDb,
}

impl HeadersSync {
    pub fn new(db: HeadersDb) -> (r: HeadersSync)
        ensures
            r.db == db,
    {
        HeadersSync { db }
    }

    /// Gives the database back when the stage is done.
    pub fn into_db(self) -> (r: HeadersDb)
        ensures
            r == self.db,
    {
        self.db
    }

    /// The stage's progress marker; a fresh database reads as zero.
    pub fn get_progress(&self) -> (r: u64)
        ensures
            r == match self.db.progress {
                Some(p) => p,
                None => 0u64,
            },
    {
        match self.db.progress {
            Some(p) => p,
            None => 0,
        }
    }

    /// The highest canonical block number; an empty table is an error.
    pub fn get_last_header_number(&self) -> (r: Result<u64, SyncError>)
        ensures
            match r {
                Ok(n) => self.db.canonical@.len() > 0 && n == self.db.canonical@[self.db.canonical@
                    .len() - 1].0,
                Err(e) => self.db.canonical@.len() == 0 && e == (
                SyncError::CanonicalHeaderMissing { block_number: 0 }),
            },
    {
        match self.db.canonical.last() {
            Some(e) => Ok(e.0),
            None => Err(SyncError::CanonicalHeaderMissing { block_number: 0 }),
        }
    }

    /// The gap between the local head at the stage's progress and the next
    /// canonical row: no row above means the tip is the target, a
    /// non-adjacent row means the region below it is missing, an adjacent
    /// row means there is no gap. A missing head row is an error.
    pub fn get_sync_gap(&self, stage_progress: u64, tip: B256) -> (r: Result<
        Option<SyncGap>,
        SyncError,
    >)
        requires
            self.db.wf(),
        ensures
            match r {
                Ok(og) => {
                    &&& tbl_get(self.db.canonical@, stage_progress) is Some
                    &&& og == spec_gap_of(self.db, stage_progress, tip)
                    &&& match og {
                        Some(gap) => gap.local_head.wf() && match gap.target {
                            SyncTarget::Gap(g) => g.wf(),
                            SyncTarget::Tip(_) => true,
                        },
                        None => true,
                    }
                },
                Err(e) => {
                    &&& tbl_get(self.db.canonical@, stage_progress) is None
                    &&& e == (SyncError::CanonicalHeaderMissing { block_number: stage_progress })
                },
            },
    {
        let (head_num, head_hash) = match self.db.canonical.get(stage_progress) {
            Some(h) => (stage_progress, *h),
            None => {
                return Err(SyncError::CanonicalHeaderMissing { block_number: stage_progress });
            },
        };
        let head = match self.db.headers.get(head_num) {
            Some(h) => *h,
            None => {
                // the canonical row exists, so by well-formedness this
                // branch cannot be taken
                proof {
                    assert(tbl_contains(self.db.canonical@, head_num));
                    assert(false);
                }
                return Err(SyncError::HeaderMissing { number: head_num });
            },
        };
        let local_head = SealedHeader { header: head, hash: head_hash };
        proof {
            assert(local_head.wf());
        }
        match self.db.canonical.next_above(stage_progress) {
            Some(e) => {
                let (next_num, next_hash) = (e.0, e.1);
                if stage_progress < u64::MAX && next_num == stage_progress + 1 {
                    Ok(None)
                } else {
                    proof {
                        lemma_next_above_present(self.db.canonical@, stage_progress);
                        assert(tbl_contains(self.db.canonical@, next_num));
                        if stage_progress == u64::MAX {
                            assert(next_num > stage_progress);
                            assert(false);
                        }
                    }
                    let next = match self.db.headers.get(next_num) {
                        Some(h) => *h,
                        None => {
                            proof {
                                assert(false);
                            }
                            return Err(SyncError::HeaderMissing { number: next_num });
                        },
                    };
                    Ok(Some(SyncGap {
                        local_head,
                        target: SyncTarget::Gap(SealedHeader { header: next, hash: next_hash }),
                    }))
                }
            },
            None => Ok(Some(SyncGap { local_head, target: SyncTarget::Tip(tip) })),
        }
    }

    /// Inserts one downloaded batch, ordered from tip down to head, walking
    /// it in reverse so block numbers ascend. A block already on disk or an
    /// out-of-order batch is refused with the database unchanged. What the
    /// tables become is `insert_all_headers` / `insert_all_canonical`, whose
    /// per-lookup meaning `lemma_insert_all_props` gives.
    #[verifier::loop_isolation(false)]
    pub fn insert_batch(&mut self, headers: &Vec<SealedHeader>) -> (r: Result<(), SyncError>)
        requires
            old(self).db.wf(),
            forall|i: int| 0 <= i < headers@.len() ==> (#[trigger] headers@[i]).wf(),
        ensures
            final(self).db.wf(),
            final(self).db.progress == old(self).db.progress,
            match r {
                Ok(()) => {
                    &&& batch_descending(headers@)
                    &&& forall|i: int|
                        0 <= i < headers@.len() ==> !tbl_contains(
                            old(self).db.headers@,
                            (#[trigger] headers@[i]).header.number,
                        )
                    &&& final(self).db.headers@ == insert_all_headers(
                        old(self).db.headers@,
                        headers@,
                        0,
                    )
                    &&& final(self).db.canonical@ == insert_all_canonical(
                        old(self).db.canonical@,
                        headers@,
                        0,
                    )
                },
                Err(e) => {
                    &&& *final(self) == *old(self)
                    &&& e == SyncError::Database
                    &&& !(batch_descending(headers@) && (forall|i: int|
                        0 <= i < headers@.len() ==> !tbl_contains(
                            old(self).db.headers@,
                            (#[trigger] headers@[i]).header.number,
                        )))
                },
            },
    {
        let n = headers.len();
        // refuse the batch unless it descends strictly and is fresh
        let mut i: usize = 0;
        while i < n
            invariant
                0 <= i <= n,
                forall|a: int, b: int|
                    0 <= a < b < i ==> (#[trigger] headers@[a]).header.number > (
                    #[trigger] headers@[b]).header.number,
                forall|a: int|
                    0 <= a < i ==> !tbl_contains(
                        self.db.headers@,
                        (#[trigger] headers@[a]).header.number,
                    ),
            decreases n - i,
        {
            if i > 0 && headers[i - 1].header.number <= headers[i].header.number {
                proof {
                    assert(headers@[i - 1].header.number <= headers@[i as int].header.number);
                }
                return Err(SyncError::Database);
            }
            proof {
                assert forall|a: int, b: int|
                    0 <= a < b < i + 1 implies (#[trigger] headers@[a]).header.number > (
                    #[trigger] headers@[b]).header.number by {
                    if b == i && a == i - 1 {
                    } else if b == i && a < i - 1 {
                        assert(headers@[a].header.number > headers@[i - 1].header.number);
                    }
                }
            }
            if self.db.headers.get(headers[i].header.number).is_some() {
                return Err(SyncError::Database);
            }
            i = i + 1;
        }
        // insert in reverse: ascending block numbers
        let ghost db0 = self.db;
        let ghost batch = headers@;
        proof {
            lemma_canonical_fresh(db0, batch);
        }
        let mut k = n;
        while k > 0
            invariant
                0 <= k <= n,
                self.db.headers@ == insert_all_headers(db0.headers@, batch, k as int),
                self.db.canonical@ == insert_all_canonical(db0.canonical@, batch, k as int),
                self.db.progress == db0.progress,
            decreases k,
        {
            k = k - 1;
            proof {
                lemma_insert_all_props(db0.headers@, batch, k + 1);
                lemma_insert_all_canonical_props(db0.canonical@, batch, k + 1);
                lemma_batch_lookup_above(batch, k as int, k + 1);
            }
            let sh = headers[k];
            let ok1 = self.db.headers.insert(sh.header.number, sh.header);
            let ok2 = self.db.canonical.insert(sh.header.number, sh.hash);
            proof {
                assert(ok1 && ok2);
            }
        }
        proof {
            lemma_insert_all_wf(db0, self.db, batch);
        }
        Ok(())
    }

    /// Whether the canonical chain is contiguous from block zero and ends
    /// in the requested tip.
    #[verifier::loop_isolation(false)]
    pub fn chain_is_complete(&self, tip: B256) -> (r: bool)
        ensures
            r == chain_complete(self.db, tip),
    {
        let n = self.db.canonical.len();
        if n == 0 {
            return false;
        }
        let mut i: usize = 0;
        while i < n
            invariant
                0 <= i <= n,
                n == self.db.canonical@.len(),
                forall|t: int| 0 <= t < i ==> (#[trigger] self.db.canonical@[t]).0 == t,
            decreases n - i,
        {
            if self.db.canonical.entry_at(i).0 != i as u64 {
                return false;
            }
            i = i + 1;
        }
        self.db.canonical.entry_at(n - 1).1 == tip
    }

    /// Saves the stage's progress as the highest canonical block.
    pub fn save_progress(&mut self) -> (r: Result<u64, SyncError>)
        ensures
            final(self).db.headers@ == old(self).db.headers@,
            final(self).db.canonical@ == old(self).db.canonical@,
            match r {
                Ok(p) => old(self).db.canonical@.len() > 0 && p == old(self).db.canonical@[old(
                    self,
                ).db.canonical@.len() - 1].0 && final(self).db.progress == Some(p),
                Err(e) => old(self).db.canonical@.len() == 0 && e == (
                SyncError::CanonicalHeaderMissing { block_number: 0 }) && *final(self) == *old(
                    self,
                ),
            },
    {
        let last = match self.get_last_header_number() {
            Ok(p) => p,
            Err(e) => {
                return Err(e);
            },
        };
        self.db.progress = Some(last);
        Ok(last)
    }

    /// Drives the stage to the tip over pre-fetched batches: while the gap
    /// is open, the next batch is inserted; when it closes, the committed
    /// shape is verified — the canonical chain must be contiguous from
    /// block zero to a header whose hash is the requested tip — and
    /// progress is saved. Running out of batches before the gap closes is
    /// the fatal channel-closed condition. Previously committed rows are
    /// never touched, and a database already committed at the tip only has
    /// its marker rewritten. Header content beyond this shape (parent
    /// links, difficulty) is the consensus collaborator's to validate.
    #[verifier::loop_isolation(false)]
    #[verifier::rlimit(60)]
    pub fn run(&mut self, tip: B256, batches: &Vec<Vec<SealedHeader>>) -> (r: Result<
        u64,
        SyncError,
    >)
        requires
            old(self).db.wf(),
            forall|b: int, i: int|
                0 <= b < batches@.len() && 0 <= i < (#[trigger] batches@[b])@.len() ==> (
                #[trigger] batches@[b]@[i]).wf(),
        ensures
            final(self).db.wf(),
            // previously committed rows always remain, with their values
            forall|m: u64|
                tbl_contains(old(self).db.headers@, m) ==> #[trigger] tbl_get(
                    final(self).db.headers@,
                    m,
                ) == tbl_get(old(self).db.headers@, m),
            forall|m: u64|
                tbl_contains(old(self).db.canonical@, m) ==> #[trigger] tbl_get(
                    final(self).db.canonical@,
                    m,
                ) == tbl_get(old(self).db.canonical@, m),
            match r {
                Ok(p) => {
                    &&& chain_complete(final(self).db, tip)
                    &&& p == final(self).db.canonical@.len() - 1
                    &&& final(self).db.progress == Some(p)
                },
                Err(e) => {
                    &&& final(self).db.progress == old(self).db.progress
                    &&& match e {
                        SyncError::CanonicalHeaderMissing { block_number } => tbl_get(
                            old(self).db.canonical@,
                            block_number,
                        ) is None,
                        SyncError::ChannelClosed => true,
                        SyncError::Database => true,
                        _ => false,
                    }
                },
            },
            // a database already committed at the tip is untouched but for
            // its rewritten marker
            (chain_complete(old(self).db, tip) && (match old(self).db.progress {
                Some(p) => p,
                None => 0u64,
            }) == old(self).db.canonical@.len() - 1) ==> r is Ok && final(self).db.headers@ == old(
                self,
            ).db.headers@ && final(self).db.canonical@ == old(self).db.canonical@,
            // a stage whose gap is already closed changes no table row
            (match old(self).spec_initial_gap(tip) {
                Some(gap) => gap.spec_is_closed(),
                None => true,
            }) ==> final(self).db.headers@ == old(self).db.headers@ && final(self).db.canonical@
                == old(self).db.canonical@,
            // an open gap with no batches to serve it is channel-closed
            (batches@.len() == 0 && tbl_get(old(self).db.canonical@, (match old(self).db.progress {
                Some(p) => p,
                None => 0u64,
            })) is Some && (match old(self).spec_initial_gap(tip) {
                Some(gap) => !gap.spec_is_closed(),
                None => false,
            })) ==> r == Err::<u64, SyncError>(SyncError::ChannelClosed) && *final(self) == *old(
                self,
            ),
    {
        let headers_progress = self.get_progress();
        proof {
            if chain_complete(old(self).db, tip) && headers_progress == old(
                self,
            ).db.canonical@.len() - 1 {
                crate::kv::lemma_tbl_index_get(
                    self.db.canonical@,
                    self.db.canonical@.len() - 1,
                );
                lemma_next_above_none(self.db.canonical@, headers_progress);
            }
        }
        let n = batches.len();
        let ghost h0 = self.db.headers@;
        let ghost c0 = self.db.canonical@;
        let open = match self.get_sync_gap(headers_progress, tip) {
            Ok(Some(g)) => !g.is_closed(),
            Ok(None) => true,
            Err(e) => {
                return Err(e);
            },
        };
        if open {
            let mut bi: usize = 0;
            loop
                invariant
                    self.db.wf(),
                    0 <= bi <= n,
                    self.db.progress == old(self).db.progress,
                    forall|m: u64|
                        tbl_contains(h0, m) ==> #[trigger] tbl_get(self.db.headers@, m)
                            == tbl_get(h0, m),
                    forall|m: u64|
                        tbl_contains(c0, m) ==> #[trigger] tbl_get(self.db.canonical@, m)
                            == tbl_get(c0, m),
                    // a closed or absent initial gap admits no insert
                    (match old(self).spec_initial_gap(tip) {
                        Some(gap) => gap.spec_is_closed(),
                        None => true,
                    }) ==> self.db.headers@ == h0 && self.db.canonical@ == c0,
                    (chain_complete(old(self).db, tip) && headers_progress == old(
                        self,
                    ).db.canonical@.len() - 1) ==> self.db.headers@ == h0 && self.db.canonical@
                        == c0,
                    bi == 0 ==> self.db == old(self).db,
                decreases n - bi,
            {
                match self.get_sync_gap(headers_progress, tip) {
                    Ok(Some(g)) => {
                        if g.is_closed() {
                            break ;
                        }
                    },
                    Ok(None) => {
                        break ;
                    },
                    Err(e) => {
                        return Err(e);
                    },
                }
                if bi >= n {
                    return Err(SyncError::ChannelClosed);
                }
                let ghost pre = self.db;
                match self.insert_batch(&batches[bi]) {
                    Ok(()) => {},
                    Err(e) => {
                        return Err(e);
                    },
                }
                proof {
                    lemma_run_rows_preserved(pre, self.db, batches@[bi as int]@, h0, c0);
                }
                bi = bi + 1;
            }
        }
        if !self.chain_is_complete(tip) {
            return Err(SyncError::Database);
        }
        match self.save_progress() {
            Ok(p) => {
                proof {
                    assert(self.db.canonical@[self.db.canonical@.len() - 1].0
                        == self.db.canonical@.len() - 1);
                }
                Ok(p)
            },
            Err(e) => Err(e),
        }
    }

    /// The gap the stage would compute before touching anything.
    pub open spec fn spec_initial_gap(self, tip: B256) -> Option<SyncGap> {
        spec_gap_of(
            self.db,
            match self.db.progress {
                Some(p) => p,
                None => 0u64,
            },
            tip,
        )
    }
}

/// The gap `get_sync_gap` computes on a database, as a value.
pub open spec fn spec_gap_of(db: HeadersDb, stage_progress: u64, tip: B256) -> Option<SyncGap> {
    match tbl_next_above(db.canonical@, stage_progress) {
        Some(e) => if e.0 == stage_progress + 1 {
            None
        } else {
            Some(
                SyncGap {
                    local_head: SealedHeader {
                        header: tbl_get(db.headers@, stage_progress)->Some_0,
                        hash: tbl_get(db.canonical@, stage_progress)->Some_0,
                    },
                    target: SyncTarget::Gap(
                        SealedHeader { header: tbl_get(db.headers@, e.0)->Some_0, hash: e.1 },
                    ),
                },
            )
        },
        None => Some(
            SyncGap {
                local_head: SealedHeader {
                    header: tbl_get(db.headers@, stage_progress)->Some_0,
                    hash: tbl_get(db.canonical@, stage_progress)->Some_0,
                },
                target: SyncTarget::Tip(tip),
            },
        ),
    }
}

/// The successor entry a cursor step finds is a stored row.
proof fn lemma_next_above_present<V>(s: Seq<(u64, V)>, k: u64)
    requires
        crate::kv::tbl_sorted(s),
    ensures
        match tbl_next_above(s, k) {
            Some(e) => tbl_get(s, e.0) == Some(e.1) && e.0 > k,
            None => true,
        },
    decreases s.len(),
{
    if s.len() > 0 {
        crate::kv::lemma_tbl_sorted_drop_first(s);
        lemma_next_above_present(s.drop_first(), k);
        match tbl_next_above(s, k) {
            Some(e) => {
                if s[0].0 > k {
                    assert(e == s[0]);
                } else {
                    assert(tbl_next_above(s.drop_first(), k) == Some(e));
                    assert(tbl_get(s.drop_first(), e.0) == Some(e.1));
                    assert(s[0].0 != e.0);
                }
            },
            None => {},
        }
    }
}

/// The batch descends strictly by block number, the downloader's order.
pub open spec fn batch_descending(batch: Seq<SealedHeader>) -> bool {
    forall|a: int, b: int|
        0 <= a < b < batch.len() ==> (#[trigger] batch[a]).header.number > (
        #[trigger] batch[b]).header.number
}

/// The headers table after inserting the batch elements from the end down
/// to position `k`.
pub open spec fn insert_all_headers(
    s: Seq<(u64, crate::blocks::Header)>,
    batch: Seq<SealedHeader>,
    k: int,
) -> Seq<(u64, crate::blocks::Header)>
    decreases batch.len() - k,
{
    if k < 0 || k >= batch.len() {
        s
    } else {
        tbl_sorted_insert(
            insert_all_headers(s, batch, k + 1),
            batch[k].header.number,
            batch[k].header,
        )
    }
}

/// The canonical table after the same walk.
pub open spec fn insert_all_canonical(
    s: Seq<(u64, B256)>,
    batch: Seq<SealedHeader>,
    k: int,
) -> Seq<(u64, B256)>
    decreases batch.len() - k,
{
    if k < 0 || k >= batch.len() {
        s
    } else {
        tbl_sorted_insert(
            insert_all_canonical(s, batch, k + 1),
            batch[k].header.number,
            batch[k].hash,
        )
    }
}

/// No batch element at or above `k` carries the number of the element just
/// below `k`.
proof fn lemma_batch_lookup_above(batch: Seq<SealedHeader>, k: int, from: int)
    requires
        batch_descending(batch),
        0 <= k < from <= batch.len(),
    ensures
        batch_lookup(batch.skip(from), batch[k].header.number) is None,
    decreases batch.len() - from,
{
    if from < batch.len() {
        assert(batch.skip(from)[0] == batch[from]);
        assert(batch[k].header.number > batch[from].header.number);
        assert(batch.skip(from).drop_first() =~= batch.skip(from + 1));
        lemma_batch_lookup_above(batch, k, from + 1);
    } else {
        assert(batch.skip(from) =~= Seq::<SealedHeader>::empty());
    }
}

/// What the headers-table walk denotes: it stays sorted, and a lookup hits
/// the batch element of that number — front to back — or what was there.
pub proof fn lemma_insert_all_props(
    s: Seq<(u64, crate::blocks::Header)>,
    batch: Seq<SealedHeader>,
    k: int,
)
    requires
        crate::kv::tbl_sorted(s),
        batch_descending(batch),
        forall|i: int|
            0 <= i < batch.len() ==> !tbl_contains(s, (#[trigger] batch[i]).header.number),
        0 <= k <= batch.len(),
    ensures
        crate::kv::tbl_sorted(insert_all_headers(s, batch, k)),
        forall|m: u64|
            #![trigger tbl_get(insert_all_headers(s, batch, k), m)]
            tbl_get(insert_all_headers(s, batch, k), m) == match batch_lookup(batch.skip(k), m) {
                Some(sh) => Some(sh.header),
                None => tbl_get(s, m),
            },
    decreases batch.len() - k,
{
    if k == batch.len() {
        assert(batch.skip(k) =~= Seq::<SealedHeader>::empty());
        assert forall|m: u64|
            #![trigger tbl_get(insert_all_headers(s, batch, k), m)]
            tbl_get(insert_all_headers(s, batch, k), m) == match batch_lookup(batch.skip(k), m) {
                Some(sh) => Some(sh.header),
                None => tbl_get(s, m),
            } by {
            assert(batch_lookup(batch.skip(k), m) is None);
        }
    } else {
        lemma_insert_all_props(s, batch, k + 1);
        let prev = insert_all_headers(s, batch, k + 1);
        let num = batch[k].header.number;
        assert(!tbl_contains(prev, num)) by {
            lemma_batch_lookup_above(batch, k, k + 1);
            assert(!tbl_contains(s, batch[k].header.number));
            assert(tbl_get(prev, num) == tbl_get(s, num));
        }
        lemma_tbl_sorted_insert(prev, num, batch[k].header);
        assert(insert_all_headers(s, batch, k) == tbl_sorted_insert(prev, num, batch[k].header));
        assert forall|m: u64|
            #![trigger tbl_get(insert_all_headers(s, batch, k), m)]
            tbl_get(insert_all_headers(s, batch, k), m) == match batch_lookup(batch.skip(k), m) {
                Some(sh) => Some(sh.header),
                None => tbl_get(s, m),
            } by {
            assert(batch.skip(k)[0] == batch[k]);
            assert(batch.skip(k).drop_first() =~= batch.skip(k + 1));
            assert(tbl_get(prev, m) == match batch_lookup(batch.skip(k + 1), m) {
                Some(sh) => Some(sh.header),
                None => tbl_get(s, m),
            });
            if m != num {
                assert(tbl_get(insert_all_headers(s, batch, k), m) == tbl_get(prev, m));
                assert(batch_lookup(batch.skip(k), m) == batch_lookup(batch.skip(k + 1), m));
            } else {
                assert(tbl_get(insert_all_headers(s, batch, k), m) == Some(batch[k].header));
                assert(batch_lookup(batch.skip(k), m) == Some(batch[k]));
            }
        }
    }
}

/// The same walk over the canonical table.
pub proof fn lemma_insert_all_canonical_props(s: Seq<(u64, B256)>, batch: Seq<SealedHeader>, k: int)
    requires
        crate::kv::tbl_sorted(s),
        batch_descending(batch),
        forall|i: int|
            0 <= i < batch.len() ==> !tbl_contains(s, (#[trigger] batch[i]).header.number),
        0 <= k <= batch.len(),
    ensures
        crate::kv::tbl_sorted(insert_all_canonical(s, batch, k)),
        forall|m: u64|
            #![trigger tbl_get(insert_all_canonical(s, batch, k), m)]
            tbl_get(insert_all_canonical(s, batch, k), m) == match batch_lookup(batch.skip(k), m) {
                Some(sh) => Some(sh.hash),
                None => tbl_get(s, m),
            },
    decreases batch.len() - k,
{
    if k == batch.len() {
        assert(batch.skip(k) =~= Seq::<SealedHeader>::empty());
        assert forall|m: u64|
            #![trigger tbl_get(insert_all_canonical(s, batch, k), m)]
            tbl_get(insert_all_canonical(s, batch, k), m) == match batch_lookup(batch.skip(k), m) {
                Some(sh) => Some(sh.hash),
                None => tbl_get(s, m),
            } by {
            assert(batch_lookup(batch.skip(k), m) is None);
        }
    } else {
        lemma_insert_all_canonical_props(s, batch, k + 1);
        let prev = insert_all_canonical(s, batch, k + 1);
        let num = batch[k].header.number;
        assert(!tbl_contains(prev, num)) by {
            lemma_batch_lookup_above(batch, k, k + 1);
            assert(!tbl_contains(s, batch[k].header.number));
            assert(tbl_get(prev, num) == tbl_get(s, num));
        }
        lemma_tbl_sorted_insert(prev, num, batch[k].hash);
        assert(insert_all_canonical(s, batch, k) == tbl_sorted_insert(prev, num, batch[k].hash));
        assert forall|m: u64|
            #![trigger tbl_get(insert_all_canonical(s, batch, k), m)]
            tbl_get(insert_all_canonical(s, batch, k), m) == match batch_lookup(batch.skip(k), m) {
                Some(sh) => Some(sh.hash),
                None => tbl_get(s, m),
            } by {
            assert(batch.skip(k)[0] == batch[k]);
            assert(batch.skip(k).drop_first() =~= batch.skip(k + 1));
            assert(tbl_get(prev, m) == match batch_lookup(batch.skip(k + 1), m) {
                Some(sh) => Some(sh.hash),
                None => tbl_get(s, m),
            });
            if m != num {
                assert(tbl_get(insert_all_canonical(s, batch, k), m) == tbl_get(prev, m));
                assert(batch_lookup(batch.skip(k), m) == batch_lookup(batch.skip(k + 1), m));
            } else {
                assert(tbl_get(insert_all_canonical(s, batch, k), m) == Some(batch[k].hash));
                assert(batch_lookup(batch.skip(k), m) == Some(batch[k]));
            }
        }
    }
}

/// A batch fresh for the headers table is fresh for the canonical one.
proof fn lemma_canonical_fresh(db: HeadersDb, batch: Seq<SealedHeader>)
    requires
        db.wf(),
        forall|i: int|
            0 <= i < batch.len() ==> !tbl_contains(db.headers@, (#[trigger] batch[i]).header.number),
    ensures
        forall|i: int|
            0 <= i < batch.len() ==> !tbl_contains(
                db.canonical@,
                (#[trigger] batch[i]).header.number,
            ),
{
    assert forall|i: int|
        0 <= i < batch.len() implies !tbl_contains(
        db.canonical@,
        (#[trigger] batch[i]).header.number,
    ) by {
        if tbl_get(db.canonical@, batch[i].header.number) is Some {
            assert(tbl_get(db.headers@, batch[i].header.number) is Some);
        }
    }
}

/// After the whole walk, the database is well formed again: the two tables
/// move in lockstep and every new row is a sealed header.
proof fn lemma_insert_all_wf(db0: HeadersDb, db1: HeadersDb, batch: Seq<SealedHeader>)
    requires
        db0.wf(),
        batch_descending(batch),
        forall|i: int| 0 <= i < batch.len() ==> (#[trigger] batch[i]).wf(),
        forall|i: int|
            0 <= i < batch.len() ==> !tbl_contains(
                db0.headers@,
                (#[trigger] batch[i]).header.number,
            ),
        db1.headers@ == insert_all_headers(db0.headers@, batch, 0),
        db1.canonical@ == insert_all_canonical(db0.canonical@, batch, 0),
    ensures
        db1.wf(),
{
    lemma_canonical_fresh(db0, batch);
    lemma_insert_all_props(db0.headers@, batch, 0);
    lemma_insert_all_canonical_props(db0.canonical@, batch, 0);
    assert(batch.skip(0) =~= batch);
    assert forall|m: u64| #![trigger tbl_get(db1.canonical@, m)]
        tbl_get(db1.canonical@, m) is Some implies tbl_get(db1.headers@, m) is Some by {
        match batch_lookup(batch, m) {
            Some(_) => {},
            None => {},
        }
    }
    assert forall|m: u64|
        #![trigger tbl_get(db1.headers@, m)]
        match tbl_get(db1.headers@, m) {
            Some(hh) => hh.number == m && tbl_get(db1.canonical@, m) == Some(header_hash(hh)),
            None => true,
        } by {
        match batch_lookup(batch, m) {
            Some(sh) => {
                lemma_batch_lookup_found(batch, m);
                let i = choose|i: int| 0 <= i < batch.len() && batch[i] == sh;
                assert(batch[i].wf());
            },
            None => {},
        }
    }
}

/// A batch hit carries the number it was found under, and is well formed
/// when the whole batch is.
proof fn lemma_batch_lookup_found(batch: Seq<SealedHeader>, m: u64)
    ensures
        match batch_lookup(batch, m) {
            Some(sh) => sh.header.number == m && exists|i: int|
                0 <= i < batch.len() && batch[i] == sh,
            None => true,
        },
    decreases batch.len(),
{
    if batch.len() > 0 {
        lemma_batch_lookup_found(batch.drop_first(), m);
        match batch_lookup(batch, m) {
            Some(sh) => {
                if batch[0].header.number == m {
                    assert(batch[0] == sh);
                } else {
                    let i = choose|i: int|
                        0 <= i < batch.drop_first().len() && batch.drop_first()[i] == sh;
                    assert(batch[i + 1] == sh);
                }
            },
            None => {},
        }
    }
}

/// Law: on the committed shape a successful run leaves, every block up to
/// the progress has both its rows, and the stored header hashes to exactly
/// its canonical hash.
pub proof fn lemma_committed_chain(db: HeadersDb, tip: B256, n: u64)
    requires
        db.wf(),
        chain_complete(db, tip),
        n < db.canonical@.len(),
    ensures
        tbl_get(db.headers@, n) is Some,
        tbl_get(db.canonical@, n) == Some(header_hash(tbl_get(db.headers@, n)->Some_0)),
{
    assert(db.canonical@[n as int].0 == n);
    crate::kv::lemma_tbl_index_get(db.canonical@, n as int);
}

/// A table whose keys all sit at or below `k` has no successor above it.
proof fn lemma_next_above_none<V>(s: Seq<(u64, V)>, k: u64)
    requires
        forall|i: int| 0 <= i < s.len() ==> (#[trigger] s[i]).0 <= k,
    ensures
        tbl_next_above(s, k) is None,
    decreases s.len(),
{
    if s.len() > 0 {
        assert forall|i: int|
            0 <= i < s.drop_first().len() implies (#[trigger] s.drop_first()[i]).0 <= k by {
            assert(s.drop_first()[i] == s[i + 1]);
        }
        lemma_next_above_none(s.drop_first(), k);
    }
}

/// One accepted batch never rewrites a row committed before the run: its
/// numbers were fresh for the tables the batch entered, which still held
/// everything committed at the start.
proof fn lemma_run_rows_preserved(
    pre: HeadersDb,
    post: HeadersDb,
    batch: Seq<SealedHeader>,
    h0: Seq<(u64, crate::blocks::Header)>,
    c0: Seq<(u64, B256)>,
)
    requires
        pre.wf(),
        batch_descending(batch),
        forall|i: int|
            0 <= i < batch.len() ==> !tbl_contains(
                pre.headers@,
                (#[trigger] batch[i]).header.number,
            ),
        post.headers@ == insert_all_headers(pre.headers@, batch, 0),
        post.canonical@ == insert_all_canonical(pre.canonical@, batch, 0),
        forall|m: u64|
            tbl_contains(h0, m) ==> #[trigger] tbl_get(pre.headers@, m) == tbl_get(h0, m),
        forall|m: u64|
            tbl_contains(c0, m) ==> #[trigger] tbl_get(pre.canonical@, m) == tbl_get(c0, m),
    ensures
        forall|m: u64|
            tbl_contains(h0, m) ==> #[trigger] tbl_get(post.headers@, m) == tbl_get(h0, m),
        forall|m: u64|
            tbl_contains(c0, m) ==> #[trigger] tbl_get(post.canonical@, m) == tbl_get(c0, m),
{
    lemma_canonical_fresh(pre, batch);
    lemma_insert_all_props(pre.headers@, batch, 0);
    lemma_insert_all_canonical_props(pre.canonical@, batch, 0);
    assert(batch.skip(0) =~= batch);
    assert forall|m: u64|
        tbl_contains(h0, m) implies #[trigger] tbl_get(post.headers@, m) == tbl_get(
        h0,
        m,
    ) by {
        lemma_batch_lookup_found(batch, m);
        match batch_lookup(batch, m) {
            Some(sh) => {
                let i = choose|i: int| 0 <= i < batch.len() && batch[i] == sh;
                assert(!tbl_contains(pre.headers@, batch[i].header.number));
                assert(tbl_get(pre.headers@, m) == tbl_get(h0, m));
            },
            None => {},
        }
    }
    assert forall|m: u64|
        tbl_contains(c0, m) implies #[trigger] tbl_get(post.canonical@, m) == tbl_get(
        c0,
        m,
    ) by {
        lemma_batch_lookup_found(batch, m);
        match batch_lookup(batch, m) {
            Some(sh) => {
                let i = choose|i: int| 0 <= i < batch.len() && batch[i] == sh;
                assert(!tbl_contains(pre.headers@, batch[i].header.number));
                assert(tbl_get(pre.canonical@, m) is Some ==> tbl_get(
                    pre.headers@,
                    m,
                ) is Some);
                assert(tbl_get(pre.canonical@, m) == tbl_get(c0, m));
            },
            None => {},
        }
    }
}

} // verus!
