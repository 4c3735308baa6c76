//! The bodies stage: appends downloaded block bodies, their transactions at
//! gap-free monotonic ids, and the sparse ommers and withdrawals rows.

use crate::blocks::{BlockResponse, SealedHeader, StoredBlockBody, StoredBlockOmmers,
    StoredBlockWithdrawals, Tip, TransactionRecord, Withdrawal};
use crate::db::BodiesDb;
use crate::errors::SyncError;
use crate::kv::{lemma_tbl_append, tbl_get};
use vstd::prelude::*;

verus! {

/// The transactions a response carries; an empty response carries none.
pub open spec fn resp_txs(r: BlockResponse) -> Seq<TransactionRecord> {
    match r {
        BlockResponse::Full(b) => b.body@,
        BlockResponse::Empty(_) => Seq::empty(),
    }
}

/// The ommers a response carries, unsealed.
pub open spec fn resp_ommers(r: BlockResponse) -> Seq<crate::blocks::Header> {
    match r {
        BlockResponse::Full(b) => b.ommers@.map_values(|sh: SealedHeader| sh.header),
        BlockResponse::Empty(_) => Seq::empty(),
    }
}

/// The withdrawals a response carries.
pub open spec fn resp_withdrawals(r: BlockResponse) -> Seq<Withdrawal> {
    match r {
        BlockResponse::Full(b) => match b.withdrawals {
            Some(w) => w@,
            None => Seq::empty(),
        },
        BlockResponse::Empty(_) => Seq::empty(),
    }
}

/// How many transactions the first `n` responses carry together.
pub open spec fn total_txs(rs: Seq<BlockResponse>, n: int) -> int
    decreases n,
{
    if n <= 0 {
        0
    } else {
        total_txs(rs, n - 1) + resp_txs(rs[n - 1]).len()
    }
}

/// Later prefixes carry at least as many transactions.
pub proof fn lemma_total_txs_mono(rs: Seq<BlockResponse>, a: int, b: int)
    requires
        a <= b,
    ensures
        total_txs(rs, a) <= total_txs(rs, b),
    decreases b - a,
{
    if a < b {
        lemma_total_txs_mono(rs, a, b - 1);
    }
}

/// The stage marker names the last stored body row; a fresh database
/// holds only the genesis row and no marker yet.
pub open spec fn marker_consistent(db: BodiesDb) -> bool {
    match db.progress {
        Some(p) => p == db.bodies@.len() - 1,
        None => db.bodies@.len() == 1,
    }
}

/// What the stage accepts: a nonempty batch whose blocks continue the
/// stored chain one by one, small enough that neither the block numbers
/// nor the transaction ids can overflow.
pub open spec fn batch_accepted(db: BodiesDb, rs: Seq<BlockResponse>) -> bool {
    let first = db.bodies@.len() as int;
    let first_tx = db.transactions@.len() as int;
    &&& rs.len() > 0
    &&& first + rs.len() < u64::MAX
    &&& forall|i: int| 0 <= i < rs.len() ==> (#[trigger] rs[i]).spec_block_number() == first + i
    &&& first_tx + total_txs(rs, rs.len() as int) <= u64::MAX
}

/// The responses of the first `n` batches, in delivery order.
pub open spec fn flat_responses(bbs: Seq<Vec<BlockResponse>>, n: int) -> Seq<BlockResponse>
    decreases n,
{
    if n <= 0 {
        Seq::empty()
    } else {
        flat_responses(bbs, n - 1) + bbs[n - 1]@
    }
}

/// Storing nothing stores the empty batch.
proof fn lemma_batch_rows_stored_empty(db: BodiesDb)
    ensures
        batch_rows_stored(db, db, Seq::empty()),
{
    reveal(batch_rows_stored);
}

/// Prefix sums ignore what lies beyond the prefix.
proof fn lemma_total_txs_prefix(rs1: Seq<BlockResponse>, rs2: Seq<BlockResponse>, n: int)
    requires
        0 <= n <= rs1.len(),
    ensures
        total_txs(rs1 + rs2, n) == total_txs(rs1, n),
    decreases n,
{
    if n > 0 {
        lemma_total_txs_prefix(rs1, rs2, n - 1);
        assert((rs1 + rs2)[n - 1] == rs1[n - 1]);
    }
}

/// The transaction count over a concatenation splits at the seam.
proof fn lemma_total_txs_concat(rs1: Seq<BlockResponse>, rs2: Seq<BlockResponse>, k: int)
    requires
        0 <= k <= rs2.len(),
    ensures
        total_txs(rs1 + rs2, rs1.len() + k) == total_txs(rs1, rs1.len() as int) + total_txs(
            rs2,
            k,
        ),
    decreases k,
{
    if k == 0 {
        lemma_total_txs_prefix(rs1, rs2, rs1.len() as int);
    } else {
        lemma_total_txs_concat(rs1, rs2, k - 1);
        assert((rs1 + rs2)[rs1.len() + k - 1] == rs2[k - 1]);
    }
}

/// Storing one batch after another stores their concatenation: the second
/// batch's rows continue exactly where the first ended, and nothing of the
/// first is touched.
proof fn lemma_batch_rows_stored_compose(
    a: BodiesDb,
    b: BodiesDb,
    c: BodiesDb,
    rs1: Seq<BlockResponse>,
    rs2: Seq<BlockResponse>,
)
    requires
        batch_rows_stored(a, b, rs1),
        batch_rows_stored(b, c, rs2),
        rows_preserved(b, c),
        b.bodies@.len() == a.bodies@.len() + rs1.len(),
        b.transactions@.len() == a.transactions@.len() + total_txs(rs1, rs1.len() as int),
        c.bodies@.len() == b.bodies@.len() + rs2.len(),
    ensures
        batch_rows_stored(a, c, rs1 + rs2),
{
    reveal(batch_rows_stored);
    reveal(rows_preserved);
    let rs = rs1 + rs2;
    let first = a.bodies@.len() as int;
    let first_tx = a.transactions@.len() as int;
    lemma_total_txs_concat(rs1, rs2, rs2.len() as int);
    assert forall|i: int|
        0 <= i < rs.len() implies (#[trigger] rs[i]).spec_block_number() == first + i by {
        if i < rs1.len() {
            assert(rs[i] == rs1[i]);
        } else {
            assert(rs[i] == rs2[i - rs1.len()]);
        }
    }
    assert forall|i: int|
        0 <= i < rs.len() implies #[trigger] c.bodies@[first + i] == (((first + i) as u64,
    StoredBlockBody {
        start_tx_id: (first_tx + total_txs(rs, i)) as u64,
        tx_count: resp_txs(rs[i]).len() as u64,
    },
    )) by {
        if i < rs1.len() {
            assert(rs[i] == rs1[i]);
            lemma_total_txs_prefix(rs1, rs2, i);
            assert(b.bodies@[first + i] == (((first + i) as u64,
            StoredBlockBody {
                start_tx_id: (first_tx + total_txs(rs1, i)) as u64,
                tx_count: resp_txs(rs1[i]).len() as u64,
            },
            )));
            assert(c.bodies@[first + i] == b.bodies@[first + i]);
        } else {
            let j = i - rs1.len();
            assert(rs[i] == rs2[j]);
            lemma_total_txs_concat(rs1, rs2, j);
            assert(c.bodies@[b.bodies@.len() + j] == (((b.bodies@.len() + j) as u64,
            StoredBlockBody {
                start_tx_id: (b.transactions@.len() + total_txs(rs2, j)) as u64,
                tx_count: resp_txs(rs2[j]).len() as u64,
            },
            )));
        }
    }
    assert(c.transactions@.len() == first_tx + total_txs(rs, rs.len() as int));
    assert forall|i: int, k: int|
        #![trigger resp_txs(rs[i])[k]]
        0 <= i < rs.len() && 0 <= k < resp_txs(rs[i]).len() implies c.transactions@[first_tx
        + total_txs(rs, i) + k] == (((first_tx + total_txs(rs, i) + k) as u64, resp_txs(rs[i])[k]))
        by {
        if i < rs1.len() {
            assert(rs[i] == rs1[i]);
            lemma_total_txs_prefix(rs1, rs2, i);
            lemma_total_txs_prefix(rs1, rs2, i + 1);
            assert(total_txs(rs1, i + 1) == total_txs(rs1, i) + resp_txs(rs1[i]).len());
            lemma_total_txs_mono(rs1, i + 1, rs1.len() as int);
            assert(resp_txs(rs1[i])[k] == resp_txs(rs[i])[k]);
            assert(b.transactions@[first_tx + total_txs(rs1, i) + k] == (((first_tx + total_txs(
                rs1,
                i,
            ) + k) as u64, resp_txs(rs1[i])[k])));
            assert(total_txs(rs1, i) >= 0) by {
                lemma_total_txs_mono(rs1, 0, i);
            }
            assert(c.transactions@[first_tx + total_txs(rs1, i) + k] == b.transactions@[first_tx
                + total_txs(rs1, i) + k]);
        } else {
            let j = i - rs1.len();
            assert(rs[i] == rs2[j]);
            lemma_total_txs_concat(rs1, rs2, j);
            assert(resp_txs(rs2[j])[k] == resp_txs(rs[i])[k]);
        }
    }
    // ommers rows: the early region is b's, the late region is rs2's
    assert forall|j: int|
        a.ommers@.len() <= j < c.ommers@.len() implies first <= (#[trigger] c.ommers@[j]).0 < first
        + rs.len() && c.ommers@[j].1.ommers@ == resp_ommers(rs[c.ommers@[j].0 - first])
        && resp_ommers(rs[c.ommers@[j].0 - first]).len() > 0 by {
        if j < b.ommers@.len() {
            assert(c.ommers@[j] == b.ommers@[j]);
            assert(rs[b.ommers@[j].0 - first] == rs1[b.ommers@[j].0 - first]);
        } else {
            let off = c.ommers@[j].0 - b.bodies@.len();
            assert(rs[c.ommers@[j].0 - first] == rs2[off]);
        }
    }
    assert forall|j: int|
        a.withdrawals@.len() <= j < c.withdrawals@.len() implies first <= (
    #[trigger] c.withdrawals@[j]).0 < first + rs.len() && c.withdrawals@[j].1.withdrawals@
        == resp_withdrawals(rs[c.withdrawals@[j].0 - first]) && resp_withdrawals(
        rs[c.withdrawals@[j].0 - first],
    ).len() > 0 by {
        if j < b.withdrawals@.len() {
            assert(c.withdrawals@[j] == b.withdrawals@[j]);
            assert(rs[b.withdrawals@[j].0 - first] == rs1[b.withdrawals@[j].0 - first]);
        } else {
            let off = c.withdrawals@[j].0 - b.bodies@.len();
            assert(rs[c.withdrawals@[j].0 - first] == rs2[off]);
        }
    }
}

/// Every row the first database holds, the second still holds unchanged:
/// committed bodies and transactions are never rewritten.
#[verifier::opaque]
pub open spec fn rows_preserved(pre: BodiesDb, post: BodiesDb) -> bool {
    &&& post.bodies@.len() >= pre.bodies@.len()
    &&& forall|i: int| 0 <= i < pre.bodies@.len() ==> #[trigger] post.bodies@[i] == pre.bodies@[i]
    &&& post.transactions@.len() >= pre.transactions@.len()
    &&& forall|j: int|
        0 <= j < pre.transactions@.len() ==> #[trigger] post.transactions@[j]
            == pre.transactions@[j]
}

pub proof fn lemma_rows_preserved_refl(db: BodiesDb)
    ensures
        rows_preserved(db, db),
{
    reveal(rows_preserved);
}

pub proof fn lemma_rows_preserved_trans(a: BodiesDb, b: BodiesDb, c: BodiesDb)
    requires
        rows_preserved(a, b),
        rows_preserved(b, c),
    ensures
        rows_preserved(a, c),
{
    reveal(rows_preserved);
}

/// The side tables hold rows only below the body table's end.
pub open spec fn side_tables_ok(db: BodiesDb) -> bool {
    &&& forall|j: int|
        0 <= j < db.ommers@.len() ==> (#[trigger] db.ommers@[j]).0 < db.bodies@.len()
    &&& forall|j: int|
        0 <= j < db.withdrawals@.len() ==> (#[trigger] db.withdrawals@[j]).0 < db.bodies@.len()
}

/// What one accepted batch stored, row by row: each response's block got
/// one body row continuing the id progression, its transactions sit at
/// consecutive ids, and an ommers or withdrawals row exists only where the
/// block carries any, holding exactly them.
#[verifier::opaque]
pub open spec fn batch_rows_stored(pre: BodiesDb, post: BodiesDb, rs: Seq<BlockResponse>) -> bool {
    let first = pre.bodies@.len() as int;
    let first_tx = pre.transactions@.len() as int;
    &&& forall|i: int| 0 <= i < rs.len() ==> (#[trigger] rs[i]).spec_block_number() == first + i
    &&& forall|i: int|
        0 <= i < rs.len() ==> #[trigger] post.bodies@[first + i] == (((first + i) as u64,
        StoredBlockBody {
            start_tx_id: (first_tx + total_txs(rs, i)) as u64,
            tx_count: resp_txs(rs[i]).len() as u64,
        },
        ))
    &&& post.transactions@.len() == first_tx + total_txs(rs, rs.len() as int)
    &&& forall|i: int, k: int|
        #![trigger resp_txs(rs[i])[k]]
        0 <= i < rs.len() && 0 <= k < resp_txs(rs[i]).len() ==> post.transactions@[first_tx
            + total_txs(rs, i) + k] == (((first_tx + total_txs(rs, i) + k) as u64, resp_txs(
            rs[i],
        )[k]))
    &&& post.ommers@.len() >= pre.ommers@.len()
    &&& forall|j: int| 0 <= j < pre.ommers@.len() ==> #[trigger] post.ommers@[j] == pre.ommers@[j]
    &&& forall|j: int|
        pre.ommers@.len() <= j < post.ommers@.len() ==> first <= (#[trigger] post.ommers@[j]).0
            < first + rs.len() && post.ommers@[j].1.ommers@ == resp_ommers(
            rs[post.ommers@[j].0 - first],
        ) && resp_ommers(rs[post.ommers@[j].0 - first]).len() > 0
    &&& post.withdrawals@.len() >= pre.withdrawals@.len()
    &&& forall|j: int|
        0 <= j < pre.withdrawals@.len() ==> #[trigger] post.withdrawals@[j] == pre.withdrawals@[j]
    &&& forall|j: int|
        pre.withdrawals@.len() <= j < post.withdrawals@.len() ==> first <= (
        #[trigger] post.withdrawals@[j]).0 < first + rs.len() && post.withdrawals@[j].1
            .withdrawals@ == resp_withdrawals(rs[post.withdrawals@[j].0 - first])
            && resp_withdrawals(rs[post.withdrawals@[j].0 - first]).len() > 0
}

/// The bodies stage over its database.
pub struct BodiesSync {
    pub db: BodiesDb,
}

impl BodiesSync {
    pub fn new(db: BodiesDb) -> (r: BodiesSync)
        ensures
            r.db == db,
    {
        BodiesSync { db }
    }

    /// Gives the database back when the stage is done.
    pub fn into_db(self) -> (r: BodiesDb)
        ensures
            r == self.db,
    {
        self.db
    }

    /// The stage's progress marker; a fresh database reads as zero.
    pub fn get_progress(&self) -> (r: u64)
        ensures
            r == match self.db.progress {
                Some(p) => p,
                None => 0u64,
            },
    {
        match self.db.progress {
            Some(p) => p,
            None => 0,
        }
    }

    /// The highest stored body row; an empty table is an error.
    pub fn get_last_body(&self) -> (r: Result<StoredBlockBody, SyncError>)
        ensures
            match r {
                Ok(b) => self.db.bodies@.len() > 0 && b == self.db.bodies@[self.db.bodies@.len()
                    - 1].1,
                Err(e) => self.db.bodies@.len() == 0 && e == (SyncError::BlockBodyMissing {
                    number: 0,
                }),
            },
    {
        match self.db.bodies.last() {
            Some(e) => Ok(e.1),
            None => Err(SyncError::BlockBodyMissing { number: 0 }),
        }
    }

    /// Appends the rows of one block: its body row, its transactions at
    /// consecutive ids from `start_tx`, and an ommers or withdrawals row
    /// only when the block carries any.
    #[verifier::loop_isolation(false)]
    #[verifier::rlimit(60)]
    fn append_one(&mut self, resp: &BlockResponse, block_number: u64, start_tx: u64)
        requires
            old(self).db.wf(),
            block_number < u64::MAX,
            start_tx + resp_txs(*resp).len() <= u64::MAX,
            old(self).db.bodies@.len() == block_number,
            forall|j: int|
                0 <= j < old(self).db.bodies@.len() ==> (#[trigger] old(self).db.bodies@[j]).0
                    == j,
            old(self).db.transactions@.len() == start_tx,
            forall|j: int|
                0 <= j < old(self).db.transactions@.len() ==> (#[trigger] old(self).db.transactions@[j]).0 == j,
            forall|j: int|
                0 <= j < old(self).db.ommers@.len() ==> (#[trigger] old(self).db.ommers@[j]).0
                    < block_number,
            forall|j: int|
                0 <= j < old(self).db.withdrawals@.len() ==> (#[trigger] old(self).db.withdrawals@[j]).0 < block_number,
        ensures
            final(self).db.wf(),
            final(self).db.progress == old(self).db.progress,
            final(self).db.bodies@ == old(self).db.bodies@.push(
                (
                    block_number,
                    StoredBlockBody {
                        start_tx_id: start_tx,
                        tx_count: resp_txs(*resp).len() as u64,
                    },
                ),
            ),
            final(self).db.transactions@.len() == start_tx + resp_txs(*resp).len(),
            forall|j: int|
                0 <= j < start_tx ==> #[trigger] final(self).db.transactions@[j] == old(self).db.transactions@[j],
            forall|k: int|
                0 <= k < resp_txs(*resp).len() ==> #[trigger] final(self).db.transactions@[start_tx
                    + k] == (((start_tx + k) as u64, resp_txs(*resp)[k])),
            forall|j: int|
                0 <= j < final(self).db.transactions@.len() ==> (#[trigger] final(self).db.transactions@[j]).0 == j,
            resp_ommers(*resp).len() > 0 ==> final(self).db.ommers@ == old(self).db.ommers@
                .push((block_number, final(self).db.ommers@.last().1)) && final(self).db.ommers@.last().1.ommers@ == resp_ommers(*resp),
            resp_ommers(*resp).len() == 0 ==> final(self).db.ommers@ == old(self).db.ommers@,
            resp_withdrawals(*resp).len() > 0 ==> final(self).db.withdrawals@ == old(self).db.withdrawals@.push((block_number, final(self).db.withdrawals@.last().1)) && final(self).db.withdrawals@.last().1.withdrawals@ == resp_withdrawals(*resp),
            resp_withdrawals(*resp).len() == 0 ==> final(self).db.withdrawals@ == old(self).db.withdrawals@,
    {
        match resp {
            BlockResponse::Full(block) => {
                let body = StoredBlockBody {
                    start_tx_id: start_tx,
                    tx_count: block.body.len() as u64,
                };
                let ok = self.db.bodies.append(block_number, body);
                proof {
                    assert(ok);
                }
                let mut current_tx_id = start_tx;
                let ghost dbi = self.db;
                let m = block.body.len();
                let mut k: usize = 0;
                while k < m
                    invariant
                        0 <= k <= m,
                        current_tx_id == start_tx + k,
                        self.db.bodies == dbi.bodies,
                        self.db.ommers == dbi.ommers,
                        self.db.withdrawals == dbi.withdrawals,
                        self.db.progress == dbi.progress,
                        self.db.transactions.wf(),
                        self.db.transactions@.len() == start_tx + k,
                        forall|j: int|
                            0 <= j < start_tx ==> #[trigger] self.db.transactions@[j] == old(self).db.transactions@[j],
                        forall|kk: int|
                            0 <= kk < k ==> #[trigger] self.db.transactions@[start_tx + kk] == ((
                            (start_tx + kk) as u64,
                            block.body@[kk],
                            )),
                        forall|j: int|
                            0 <= j < self.db.transactions@.len() ==> (
                            #[trigger] self.db.transactions@[j]).0 == j,
                    decreases m - k,
                {
                    let ok = self.db.transactions.append(current_tx_id, block.body[k]);
                    proof {
                        assert(ok);
                    }
                    current_tx_id = current_tx_id + 1;
                    k = k + 1;
                }
                if block.ommers.len() > 0 {
                    // unseal the ommers for storage
                    let mut ommers: Vec<crate::blocks::Header> = Vec::new();
                    let w = block.ommers.len();
                    let mut t: usize = 0;
                    while t < w
                        invariant
                            0 <= t <= w,
                            ommers@ == block.ommers@.map_values(|sh: SealedHeader| sh.header).take(
                                t as int,
                            ),
                        decreases w - t,
                    {
                        ommers.push(block.ommers[t].header);
                        proof {
                            assert(ommers@ =~= block.ommers@.map_values(
                                |sh: SealedHeader| sh.header,
                            ).take(t + 1));
                        }
                        t = t + 1;
                    }
                    proof {
                        assert(ommers@ =~= block.ommers@.map_values(|sh: SealedHeader| sh.header));
                    }
                    let row = StoredBlockOmmers { ommers };
                    let ok = self.db.ommers.append(block_number, row);
                    proof {
                        assert(ok);
                    }
                }
                match &block.withdrawals {
                    Some(withdrawals) => {
                        if withdrawals.len() > 0 {
                            let mut ws: Vec<Withdrawal> = Vec::new();
                            let w = withdrawals.len();
                            let mut t: usize = 0;
                            while t < w
                                invariant
                                    0 <= t <= w,
                                    ws@ == withdrawals@.take(t as int),
                                decreases w - t,
                            {
                                ws.push(withdrawals[t]);
                                proof {
                                    assert(ws@ =~= withdrawals@.take(t + 1));
                                }
                                t = t + 1;
                            }
                            proof {
                                assert(ws@ =~= withdrawals@);
                            }
                            let row = StoredBlockWithdrawals { withdrawals: ws };
                            let ok = self.db.withdrawals.append(block_number, row);
                            proof {
                                assert(ok);
                            }
                        }
                    },
                    None => {},
                }
            },
            BlockResponse::Empty(_) => {
                let ok = self.db.bodies.append(
                    block_number,
                    StoredBlockBody { start_tx_id: start_tx, tx_count: 0 },
                );
                proof {
                    assert(ok);
                }
            },
        }
    }

    /// Appends one downloaded batch inside one write transaction: per block
    /// one body row whose transaction ids continue the last stored body, the
    /// transactions themselves at those ids, an ommers row only when the
    /// block has ommers, a withdrawals row only when it has withdrawals —
    /// an empty response stores a zero-count body row and leaves the
    /// transaction id progression untouched. A batch that does not continue
    /// the stored chain block by block is refused with the database
    /// unchanged.
    #[verifier::loop_isolation(false)]
    #[verifier::rlimit(60)]
    pub fn insert_batch(&mut self, responses: &Vec<BlockResponse>) -> (r: Result<u64, SyncError>)
        requires
            old(self).db.wf(),
            old(self).db.chain_ok(),
            side_tables_ok(old(self).db),
        ensures
            final(self).db.wf(),
            r is Ok <==> batch_accepted(old(self).db, responses@),
            match r {
                Ok(latest) => {
                    let rs = responses@;
                    let first = old(self).db.bodies@.len() as int;
                    &&& final(self).db.chain_ok()
                    &&& side_tables_ok(final(self).db)
                    &&& rs.len() > 0
                    &&& latest == first + rs.len() - 1
                    &&& final(self).db.progress == Some(latest)
                    &&& final(self).db.bodies@.len() == first + rs.len()
                    &&& rows_preserved(old(self).db, final(self).db)
                    &&& batch_rows_stored(old(self).db, final(self).db, rs)
                },
                Err(e) => {
                    &&& *final(self) == *old(self)
                    &&& e == SyncError::Database
                },
            },
    {
        let n = responses.len();
        let first = self.db.bodies.len();
        let first_tx = self.db.transactions.len();
        if n == 0 {
            return Err(SyncError::Database);
        }
        if first as u64 >= u64::MAX - (n as u64) {
            return Err(SyncError::Database);
        }
        // refuse a batch that does not continue the chain block by block,
        // or whose transaction ids would overflow
        let mut i: usize = 0;
        let mut txs: u64 = 0;
        while i < n
            invariant
                0 <= i <= n,
                forall|t: int|
                    0 <= t < i ==> (#[trigger] responses@[t]).spec_block_number() == first + t,
                txs == total_txs(responses@, i as int),
                first_tx + txs <= u64::MAX,
            decreases n - i,
        {
            let num = responses[i].block_number();
            if num != first as u64 + i as u64 {
                return Err(SyncError::Database);
            }
            let count = match &responses[i] {
                BlockResponse::Full(b) => b.body.len() as u64,
                BlockResponse::Empty(_) => 0,
            };
            if txs > u64::MAX - count {
                proof {
                    lemma_total_txs_mono(responses@, i + 1, n as int);
                    assert(total_txs(responses@, i + 1) == total_txs(responses@, i as int)
                        + resp_txs(responses@[i as int]).len());
                }
                return Err(SyncError::Database);
            }
            if first_tx as u64 > u64::MAX - txs - count {
                proof {
                    lemma_total_txs_mono(responses@, i + 1, n as int);
                    assert(total_txs(responses@, i + 1) == total_txs(responses@, i as int)
                        + resp_txs(responses@[i as int]).len());
                }
                return Err(SyncError::Database);
            }
            txs = txs + count;
            proof {
                assert(total_txs(responses@, i + 1) == total_txs(responses@, i as int) + resp_txs(
                    responses@[i as int],
                ).len());
            }
            i = i + 1;
        }
        // append everything, block by block
        let ghost db0 = self.db;
        let ghost rs = responses@;
        let mut current_tx_id: u64 = first_tx as u64;
        let mut i: usize = 0;
        while i < n
            invariant
                0 <= i <= n,
                self.db.wf(),
                self.db.progress == db0.progress,
                current_tx_id == first_tx + total_txs(rs, i as int),
                first_tx + total_txs(rs, n as int) <= u64::MAX,
                first + n < u64::MAX,
                // bodies so far
                self.db.bodies@.len() == first + i,
                forall|t: int| 0 <= t < first ==> #[trigger] self.db.bodies@[t] == db0.bodies@[t],
                forall|t: int|
                    0 <= t < i ==> #[trigger] self.db.bodies@[first + t] == (((first + t) as u64,
                    StoredBlockBody {
                        start_tx_id: (first_tx + total_txs(rs, t)) as u64,
                        tx_count: resp_txs(rs[t]).len() as u64,
                    },
                    )),
                forall|t: int|
                    0 <= t < self.db.bodies@.len() ==> (#[trigger] self.db.bodies@[t]).0 == t,
                // transactions so far
                self.db.transactions@.len() == first_tx + total_txs(rs, i as int),
                forall|j: int|
                    0 <= j < first_tx ==> #[trigger] self.db.transactions@[j] == db0.transactions@[
                        j],
                forall|t: int, k: int|
                    #![trigger resp_txs(rs[t])[k]]
                    0 <= t < i && 0 <= k < resp_txs(rs[t]).len() ==> self.db.transactions@[
                        first_tx + total_txs(rs, t) + k] == (((first_tx + total_txs(rs, t)
                        + k) as u64, resp_txs(rs[t])[k])),
                forall|j: int|
                    0 <= j < self.db.transactions@.len() ==> (
                    #[trigger] self.db.transactions@[j]).0 == j,
                // ommers and withdrawals so far
                self.db.ommers@.len() >= db0.ommers@.len(),
                forall|j: int|
                    0 <= j < db0.ommers@.len() ==> #[trigger] self.db.ommers@[j] == db0.ommers@[j],
                forall|j: int|
                    db0.ommers@.len() <= j < self.db.ommers@.len() ==> first <= (
                    #[trigger] self.db.ommers@[j]).0 < first + i && self.db.ommers@[j].1.ommers@
                        == resp_ommers(rs[self.db.ommers@[j].0 - first]) && resp_ommers(
                        rs[self.db.ommers@[j].0 - first],
                    ).len() > 0,
                forall|j: int|
                    0 <= j < self.db.ommers@.len() ==> (#[trigger] self.db.ommers@[j]).0 < first
                        + i,
                self.db.withdrawals@.len() >= db0.withdrawals@.len(),
                forall|j: int|
                    0 <= j < db0.withdrawals@.len() ==> #[trigger] self.db.withdrawals@[j]
                        == db0.withdrawals@[j],
                forall|j: int|
                    db0.withdrawals@.len() <= j < self.db.withdrawals@.len() ==> first <= (
                    #[trigger] self.db.withdrawals@[j]).0 < first + i && self.db.withdrawals@[
                    j].1.withdrawals@ == resp_withdrawals(rs[self.db.withdrawals@[j].0 - first])
                        && resp_withdrawals(rs[self.db.withdrawals@[j].0 - first]).len() > 0,
                forall|j: int|
                    0 <= j < self.db.withdrawals@.len() ==> (#[trigger] self.db.withdrawals@[j]).0
                        < first + i,
            decreases n - i,
        {
            proof {
                assert(total_txs(rs, i + 1) == total_txs(rs, i as int) + resp_txs(
                    rs[i as int],
                ).len());
                lemma_total_txs_mono(rs, i + 1, n as int);
                lemma_total_txs_mono(rs, 0, i as int);
            }
            let block_number = first as u64 + i as u64;
            let ghost before = self.db;
            self.append_one(&responses[i], block_number, current_tx_id);
            proof {
                assert forall|t: int, k: int|
                    #![trigger resp_txs(rs[t])[k]]
                    0 <= t < i + 1 && 0 <= k < resp_txs(rs[t]).len()
                        implies self.db.transactions@[first_tx + total_txs(rs, t) + k] == ((
                    (first_tx + total_txs(rs, t) + k) as u64, resp_txs(rs[t])[k])) by {
                    assert(total_txs(rs, t + 1) == total_txs(rs, t) + resp_txs(rs[t]).len());
                    lemma_total_txs_mono(rs, 0, t);
                    if t < i {
                        lemma_total_txs_mono(rs, t + 1, i as int);
                        assert(before.transactions@[first_tx + total_txs(rs, t) + k] == ((
                        (first_tx + total_txs(rs, t) + k) as u64, resp_txs(rs[t])[k])));
                    }
                }
            }
            current_tx_id = current_tx_id + match &responses[i] {
                BlockResponse::Full(b) => b.body.len() as u64,
                BlockResponse::Empty(_) => 0,
            };
            i = i + 1;
        }
        let latest = first as u64 + n as u64 - 1;
        self.db.progress = Some(latest);
        proof {
            reveal(batch_rows_stored);
            assert(batch_rows_stored(db0, self.db, rs));
            reveal(rows_preserved);
            assert(rows_preserved(db0, self.db));
            assert(total_txs(rs, n as int) >= 0) by {
                lemma_total_txs_mono(rs, 0, n as int);
            }
            // the id progression chains across the old/new boundary and
            // inside the batch
            assert forall|t: int|
                0 < t < self.db.bodies@.len() implies (#[trigger] self.db.bodies@[t]).1.start_tx_id
                == self.db.bodies@[t - 1].1.start_tx_id + self.db.bodies@[t - 1].1.tx_count by {
                if t < first {
                    assert(self.db.bodies@[t] == db0.bodies@[t]);
                    assert(self.db.bodies@[t - 1] == db0.bodies@[t - 1]);
                } else if t == first {
                    assert(self.db.bodies@[first + 0] == self.db.bodies@[t]);
                    assert(self.db.bodies@[t - 1] == db0.bodies@[t - 1]);
                    assert(db0.bodies@[first - 1] == db0.bodies@.last());
                    assert(total_txs(rs, 0) == 0);
                } else {
                    assert(self.db.bodies@[first + (t - first)] == self.db.bodies@[t]);
                    assert(self.db.bodies@[first + (t - first - 1)] == self.db.bodies@[t - 1]);
                    assert(total_txs(rs, t - first) == total_txs(rs, t - first - 1) + resp_txs(
                        rs[t - first - 1],
                    ).len());
                    lemma_total_txs_mono(rs, 0, t - first - 1);
                    lemma_total_txs_mono(rs, t - first, n as int);
                }
            }
            assert(self.db.bodies@[0].1.start_tx_id == 0) by {
                assert(self.db.bodies@[0] == db0.bodies@[0]);
            }
            assert(self.db.transactions@.len() == self.db.bodies@.last().1.start_tx_id
                + self.db.bodies@.last().1.tx_count) by {
                assert(total_txs(rs, n as int) == total_txs(rs, n - 1) + resp_txs(
                    rs[n - 1],
                ).len());
                lemma_total_txs_mono(rs, 0, n - 1);
                assert(self.db.bodies@.last() == self.db.bodies@[first + (n - 1)]);
            }
        }
        Ok(latest)
    }

    /// Drives the stage to the tip over pre-fetched batches. A tip at or
    /// below the progress is nothing to sync: the database is untouched.
    /// On success the marker sits exactly at the tip and the body rows
    /// cover every block through it; the per-response row contents are what
    /// `insert_batch` states per batch. Running out of batches before the
    /// tip is the fatal channel-closed condition; on any failure every
    /// previously committed row remains.
    #[verifier::loop_isolation(false)]
    #[verifier::rlimit(100)]
    pub fn run(&mut self, tip: Tip, batches: &Vec<Vec<BlockResponse>>) -> (r: Result<
        (),
        SyncError,
    >)
        requires
            old(self).db.wf(),
            old(self).db.chain_ok(),
            side_tables_ok(old(self).db),
            marker_consistent(old(self).db),
        ensures
            final(self).db.wf(),
            final(self).db.chain_ok(),
            side_tables_ok(final(self).db),
            marker_consistent(final(self).db),
            tip.number <= (match old(self).db.progress {
                Some(p) => p,
                None => 0u64,
            }) ==> *final(self) == *old(self) && r is Ok,
            // previously committed rows always remain, with their values
            rows_preserved(old(self).db, final(self).db),
            // what the run stored is exactly the consumed prefix of the
            // batches, row by row
            exists|used: int|
                0 <= used <= batches@.len() && batch_rows_stored(
                    old(self).db,
                    final(self).db,
                    flat_responses(batches@, used),
                ),
            match r {
                Ok(()) => {
                    &&& (match final(self).db.progress {
                        Some(p) => p == tip.number || (tip.number <= (match old(self).db.progress {
                            Some(q) => q,
                            None => 0u64,
                        }) && final(self).db.progress == old(self).db.progress),
                        None => tip.number == 0 && old(self).db.progress is None,
                    })
                    &&& tip.number > (match old(self).db.progress {
                        Some(q) => q,
                        None => 0u64,
                    }) ==> final(self).db.progress == Some(tip.number) && final(self).db.bodies@.len() == tip.number + 1
                },
                Err(e) => {
                    &&& final(self).db.progress == old(self).db.progress || (match final(self).db.progress {
                        Some(p) => p <= tip.number,
                        None => false,
                    })
                    &&& (e == SyncError::Database || e == SyncError::ChannelClosed)
                },
            },
            // no batches at all below the tip is immediately channel-closed
            (batches@.len() == 0 && tip.number > (match old(self).db.progress {
                Some(p) => p,
                None => 0u64,
            })) ==> r == Err::<(), SyncError>(SyncError::ChannelClosed) && *final(self) == *old(self),
    {
        let progress = self.get_progress();
        proof {
            lemma_rows_preserved_refl(self.db);
            lemma_batch_rows_stored_empty(self.db);
            assert(flat_responses(batches@, 0) =~= Seq::<BlockResponse>::empty());
        }
        if tip.number <= progress {
            return Ok(());
        }
        let mut latest: u64 = progress;
        let mut bi: usize = 0;
        let n = batches.len();
        while latest < tip.number
            invariant
                0 <= bi <= n,
                self.db.wf(),
                self.db.chain_ok(),
                side_tables_ok(self.db),
                marker_consistent(self.db),
                latest <= tip.number,
                latest > progress ==> self.db.progress == Some(latest) && self.db.bodies@.len()
                    == latest + 1,
                bi == 0 ==> latest == progress && self.db == old(self).db,
                bi > 0 ==> latest > progress,
                rows_preserved(old(self).db, self.db),
                batch_rows_stored(old(self).db, self.db, flat_responses(batches@, bi as int)),
                self.db.bodies@.len() == old(self).db.bodies@.len() + flat_responses(
                    batches@,
                    bi as int,
                ).len(),
                self.db.transactions@.len() == old(self).db.transactions@.len() + total_txs(
                    flat_responses(batches@, bi as int),
                    flat_responses(batches@, bi as int).len() as int,
                ),
            decreases n - bi,
        {
            if bi >= n {
                return Err(SyncError::ChannelClosed);
            }
            // a batch reaching past the tip does not belong to the
            // download range: refuse it before anything is stored
            let blen = batches[bi].len();
            let first = self.db.bodies.len();
            if blen > 0 {
                if first as u64 > tip.number || blen as u64 - 1 > tip.number - first as u64 {
                    return Err(SyncError::Database);
                }
            }
            let ghost pre = self.db;
            let l = match self.insert_batch(&batches[bi]) {
                Ok(l) => l,
                Err(e) => {
                    return Err(e);
                },
            };
            proof {
                lemma_rows_preserved_trans(old(self).db, pre, self.db);
                reveal(rows_preserved);
                // the batch begins past the marker, so its last block lies
                // strictly above it
                if bi == 0 {
                    assert(pre == old(self).db);
                }
                assert(l > progress);
                // the stored rows now cover one more batch
                let fr = flat_responses(batches@, bi as int);
                let rsb = batches@[bi as int]@;
                lemma_batch_rows_stored_compose(old(self).db, pre, self.db, fr, rsb);
                assert(flat_responses(batches@, bi + 1) == fr + rsb);
                lemma_total_txs_concat(fr, rsb, rsb.len() as int);
                reveal(batch_rows_stored);
                assert(self.db.transactions@.len() == pre.transactions@.len() + total_txs(
                    rsb,
                    rsb.len() as int,
                ));
            }
            latest = l;
            bi = bi + 1;
        }
        Ok(())
    }
}

} // verus!
