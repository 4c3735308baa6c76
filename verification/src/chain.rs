//! The configured chain: genesis block, pre-funded accounts, and hard-fork
//! activation levels.

use crate::blocks::{Header, SealedHeader};
use crate::state_tables::Account;
use crate::nums::AddressV;
use vstd::prelude::*;

verus! {

/// The chain specification the pipeline is configured with.
pub struct ChainSpec {
    /// The genesis header under its hash.
    pub genesis: SealedHeader,
    /// The pre-funded accounts of the genesis state.
    pub genesis_alloc: Vec<(AddressV, Account)>,
    /// The first block at which the Spurious Dragon fork (EIP-161,
    /// empty-account clearing) is active, if the chain ever activates it.
    pub spurious_dragon: Option<u64>,
}

impl ChainSpec {
    /// The genesis is block zero, correctly sealed, and the allocation
    /// names each address once.
    pub open spec fn wf(self) -> bool {
        &&& self.genesis.wf()
        &&& self.genesis.header.number == 0
        &&& forall|i: int, j: int|
            0 <= i < j < self.genesis_alloc@.len() ==> (#[trigger] self.genesis_alloc@[i]).0 != (
            #[trigger] self.genesis_alloc@[j]).0
    }

    /// Builds a specification, sealing the genesis header.
    pub fn new(
        genesis_header: Header,
        genesis_alloc: Vec<(AddressV, Account)>,
        spurious_dragon: Option<u64>,
    ) -> (r: ChainSpec)
        requires
            genesis_header.number == 0,
            forall|i: int, j: int|
                0 <= i < j < genesis_alloc@.len() ==> (#[trigger] genesis_alloc@[i]).0 != (
                #[trigger] genesis_alloc@[j]).0,
        ensures
            r.wf(),
            r.genesis.header == genesis_header,
            r.genesis_alloc == genesis_alloc,
            r.spurious_dragon == spurious_dragon,
    {
        ChainSpec { genesis: SealedHeader::seal(genesis_header), genesis_alloc, spurious_dragon }
    }

    /// Whether EIP-161 empty-account clearing is active at a block.
    pub open spec fn spec_spurious_dragon_active(self, block: u64) -> bool {
        match self.spurious_dragon {
            Some(f) => f <= block,
            None => false,
        }
    }

    pub fn spurious_dragon_active_at_block(&self, block: u64) -> (r: bool)
        ensures
            r == self.spec_spurious_dragon_active(block),
    {
        match self.spurious_dragon {
            Some(f) => f <= block,
            None => false,
        }
    }

    pub fn genesis_hash(&self) -> (r: crate::nums::B256)
        ensures
            r == self.genesis.hash,
    {
        self.genesis.hash
    }
}

} // verus!
