//! A proof-of-capacity blockchain node core: the Sloth encoding pipeline, the
//! plot's range audit, the epoch randomness schedule and the ledger engine.
use vstd::prelude::*;

pub mod block;
pub mod codec;
pub mod coordinator;
pub mod crypto;
pub mod epoch;
pub mod farmer;
pub mod framing;
pub mod ledger;
pub mod metablocks;
pub mod plot;
pub mod sloth;
pub mod store;
pub mod timer;
pub mod utils;

verus! {

/// Size of a piece and of an encoding, in bytes.
pub const PIECE_SIZE: usize = 4096;
/// Size of the Sloth prime, in bits.
pub const PRIME_SIZE_BITS: usize = 256;
/// Size of the Sloth prime, in bytes.
pub const PRIME_SIZE_BYTES: usize = 32;
/// Size of a node identity used as an encoding IV, in bytes.
pub const IV_SIZE: usize = 32;
/// Number of distinct pieces in a replica.
pub const PIECE_COUNT: usize = 256;
/// Number of times each piece is replicated in a plot.
pub const REPLICATION_FACTOR: usize = 256;
/// Number of encodings in a plot.
pub const PLOT_SIZE: usize = 65536;
/// Number of Sloth blocks in one piece.
pub const BLOCKS_PER_ENCODING: usize = 128;
/// Encoding layers used while testing.
pub const ENCODING_LAYERS_TEST: usize = 1;
/// Encoding layers used in production.
pub const ENCODING_LAYERS_PROD: usize = 128;
/// Number of blocks a block must have below it before it is confirmed.
pub const CONFIRMATION_DEPTH: u64 = 6;
/// Length of a timeslot, in milliseconds.
pub const TIMESLOT_DURATION: u64 = 250;
/// Number of epochs between an epoch and the one whose randomness it uses.
pub const CHALLENGE_LOOKBACK_EPOCHS: u64 = 3;
/// Number of timeslots in an epoch.
pub const TIMESLOTS_PER_EPOCH: u64 = 4;
/// How many timeslots ahead of the current one a block may arrive and be kept.
pub const MAX_EARLY_TIMESLOTS: u64 = 3;
/// How many timeslots after the current one a block is still accepted.
pub const MAX_LATE_TIMESLOTS: u64 = 10;
/// Credits paid by a coinbase transaction.
pub const BLOCK_REWARD: u64 = 1;
/// Width of the acceptance interval around a challenge: tags within half of it are accepted.
pub const SOLUTION_RANGE: u64 = 0x7fff_ffff_ffff;

/// A 32-byte identifier: a proof id, content id, block id, tx id or public key.
pub type Id = [u8; 32];
pub type BlockId = [u8; 32];
pub type ProofId = [u8; 32];
pub type ContentId = [u8; 32];
pub type TxId = [u8; 32];
pub type PublicKey = [u8; 32];
pub type AccountAddress = [u8; 32];
pub type SlotChallenge = [u8; 32];
pub type EpochChallenge = [u8; 32];
pub type Tag = u64;

/// Why the node refused or could not complete an operation.
#[derive(Clone, Copy, Debug, PartialEq, Eq, Structural)]
pub enum NodeError {
    /// A validation check on a block failed.
    InvalidBlock,
    /// The block's parent is not known yet.
    UnknownParent,
    /// The block's timeslot has not arrived yet.
    TooEarly,
    /// The block's timeslot is too far in the past.
    TooLate,
    /// The proof id was seen already.
    DuplicateProof,
    /// Two different contents bind to one proof id.
    ProofFault,
    /// No encoding is stored for the piece index.
    StorageNotFound,
    /// A request was not answered in time.
    Timeout,
    /// An internal invariant does not hold.
    ConsistencyViolation,
}

} // verus!
