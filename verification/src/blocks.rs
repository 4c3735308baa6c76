//! The block-level data the pipeline moves: headers and their seals, stored
//! bodies, transactions, ommers and withdrawals, and the downloader's block
//! responses.

use crate::codec::{keccak256, keccak_of};
use crate::nums::{b256_be, u64_be, w256_be, push_b256_be, push_u64_be, push_w256_be, AddressV,
    B256, W256};
use vstd::prelude::*;

verus! {

/// A block header, canonical by number once committed.
#[derive(Clone, Copy, PartialEq, Eq, Structural, Debug)]
pub struct Header {
    pub number: u64,
    pub parent_hash: B256,
    pub state_root: B256,
    pub difficulty: W256,
    pub timestamp: u64,
}

/// The byte image a header hashes over: its fields in order, each
/// big-endian and fixed-width, so distinct headers have distinct images.
pub open spec fn header_bytes(h: Header) -> Seq<u8> {
    u64_be(h.number) + b256_be(h.parent_hash) + b256_be(h.state_root) + w256_be(h.difficulty)
        + u64_be(h.timestamp)
}

/// The hash of a header: keccak-256 of its byte image.
#[verifier::opaque]
pub open spec fn header_hash(h: Header) -> B256 {
    keccak_of(header_bytes(h))
}

/// Builds the byte image that `header_bytes` describes.
pub fn encode_header(h: &Header) -> (r: Vec<u8>)
    ensures
        r@ == header_bytes(*h),
{
    let mut out: Vec<u8> = Vec::new();
    push_u64_be(&mut out, h.number);
    push_b256_be(&mut out, &h.parent_hash);
    push_b256_be(&mut out, &h.state_root);
    push_w256_be(&mut out, &h.difficulty);
    push_u64_be(&mut out, h.timestamp);
    out
}

/// Hashes a header.
pub fn hash_header(h: &Header) -> (r: B256)
    ensures
        r == header_hash(*h),
{
    proof {
        reveal(header_hash);
    }
    let bytes = encode_header(h);
    keccak256(&bytes)
}

/// A header together with its hash.
#[derive(Clone, Copy, PartialEq, Eq, Structural, Debug)]
pub struct SealedHeader {
    pub header: Header,
    pub hash: B256,
}

impl SealedHeader {
    /// The carried hash is the header's own.
    pub open spec fn wf(self) -> bool {
        self.hash == header_hash(self.header)
    }

    /// Seals a header under its hash.
    pub fn seal(header: Header) -> (r: SealedHeader)
        ensures
            r.header == header,
            r.wf(),
    {
        let hash = hash_header(&header);
        SealedHeader { header, hash }
    }
}

/// A stored transaction, identified by its hash.
#[derive(Clone, Copy, PartialEq, Eq, Structural, Debug)]
pub struct TransactionRecord {
    pub hash: B256,
}

/// A post-fork withdrawal.
#[derive(Clone, Copy, PartialEq, Eq, Structural, Debug)]
pub struct Withdrawal {
    pub index: u64,
    pub validator_index: u64,
    pub address: AddressV,
    pub amount: u64,
}

/// A block-body row: a window into the transaction table.
#[derive(Clone, Copy, PartialEq, Eq, Structural, Debug, Default)]
pub struct StoredBlockBody {
    pub start_tx_id: u64,
    pub tx_count: u64,
}

/// An ommers row; rows exist only for blocks with ommers.
#[derive(Clone, PartialEq, Eq, Debug)]
pub struct StoredBlockOmmers {
    pub ommers: Vec<Header>,
}

/// A withdrawals row; rows exist only for blocks with withdrawals.
#[derive(Clone, PartialEq, Eq, Debug)]
pub struct StoredBlockWithdrawals {
    pub withdrawals: Vec<Withdrawal>,
}

/// A downloaded block with everything its body carries.
#[derive(Clone, Debug)]
pub struct SealedBlock {
    pub header: SealedHeader,
    pub body: Vec<TransactionRecord>,
    pub ommers: Vec<SealedHeader>,
    pub withdrawals: Option<Vec<Withdrawal>>,
}

/// What a body downloader yields per block: the full block, or only the
/// header when the block carries no transactions.
#[derive(Clone, Debug)]
pub enum BlockResponse {
    Full(SealedBlock),
    Empty(SealedHeader),
}

impl BlockResponse {
    /// The number of the block the response is about.
    pub open spec fn spec_block_number(self) -> u64 {
        match self {
            BlockResponse::Full(b) => b.header.header.number,
            BlockResponse::Empty(h) => h.header.number,
        }
    }

    pub fn block_number(&self) -> (r: u64)
        ensures
            r == self.spec_block_number(),
    {
        match self {
            BlockResponse::Full(b) => b.header.header.number,
            BlockResponse::Empty(h) => h.header.number,
        }
    }
}

/// The sync target: the hash the chain must reach, and its block number.
#[derive(Clone, Copy, PartialEq, Eq, Structural, Debug)]
pub struct Tip {
    pub hash: B256,
    pub number: u64,
}

impl Tip {
    pub fn new(hash: B256, number: u64) -> (r: Tip)
        ensures
            r.hash == hash,
            r.number == number,
    {
        Tip { hash, number }
    }
}

} // verus!
