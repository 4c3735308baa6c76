//! The error taxonomy of the sync pipeline.

use crate::nums::B256;
use vstd::prelude::*;

verus! {

/// Everything that can go wrong inside the pipeline's verified core.
///
/// Remote-store and downloader failures reach the library only as the
/// absence of an expected value; the variants here describe what the
/// library itself detects.
#[derive(Clone, Copy, PartialEq, Eq, Structural, Debug)]
pub enum SyncError {
    /// The on-disk genesis disagrees with the configured chain spec.
    GenesisHashMismatch { expected: B256, actual: B256 },
    /// A table refused an insert or append (key already present or
    /// out of append order).
    Database,
    /// A canonical-hash row that the invariants promise is missing.
    CanonicalHeaderMissing { block_number: u64 },
    /// A header row that the invariants promise is missing.
    HeaderMissing { number: u64 },
    /// A block-body row that the invariants promise is missing.
    BlockBodyMissing { number: u64 },
    /// The transaction table ended before `tx_count` rows were read.
    EndOfTransactionTable,
    /// A non-contiguous transaction id inside a block's body.
    TransactionsGap { missing: u64 },
    /// A transaction signature yielded no signer.
    SenderRecoveryFailed { tx_hash: B256 },
    /// The executor rejected a block.
    ExecutionFailed { block_number: u64 },
    /// An upstream source ended before the target was reached.
    ChannelClosed,
    /// A total-difficulty sum exceeded 256 bits.
    DifficultyOverflow,
    /// The gzip codec failed on a blob.
    CompressionFailed,
    /// A blob's base64 text decodes to nothing.
    EncodingInvalid,
    /// A new bytecode arrived under a key that is not its own hash.
    BytecodeHashMismatch { code_hash: B256 },
}

} // verus!
