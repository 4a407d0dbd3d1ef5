//! The records of a user ledger: users, their addresses, and the blocks of
//! the ledger.

use vstd::prelude::*;

verus! {

/// Where a user can be reached.
pub struct UserIPAddr {
    /// The user tree.
    pub user: String,
    /// The IP address (IPv6).
    pub ip_addr: String,
}

/// A user of the ledger.
pub struct User {
    /// The area's name (the hash of its creation time).
    pub area: String,
    /// The public key of the owner of the user tree.
    pub main_user_id: Option<String>,
    /// The user's public key.
    pub id: String,
    /// The hash of the next public key of the user.
    pub next_id_hash: String,
    /// The user's permissions.
    pub permissions: u32,
    /// The user's sub-users.
    pub subusers: Option<Vec<User>>,
    /// The permissions of the sub-users.
    pub subusers_permissions: u32,
}

/// The header of a block of the ledger.
pub struct Header {
    /// The hash of the parent block.
    pub parent_hash: [u8; 32],
    /// The root hash of the state after all transactions of the block.
    pub state_root: [u8; 32],
    /// The root hash of the block's transactions.
    pub transactions_root: [u8; 32],
    /// The root hash of the transactions' receipts.
    pub receipts_root: [u8; 32],
    /// The mining difficulty of the block.
    pub difficulty: u32,
    /// The number of the block in the chain.
    pub number: [u8; 32],
    /// The most gas that the block's transactions may use.
    pub gas_limit: u32,
    /// The gas that the block's transactions used.
    pub gas_used: u32,
    /// The time the block was created.
    pub timestamp: u32,
    /// Free data of the miner.
    pub extra_data: [u8; 32],
    /// With the nonce, the proof of mining.
    pub mix_hash: [u8; 32],
    /// A value used once, in mining the block.
    pub nonce: [u8; 32],
}

/// The size of the data of a block.
pub const MAX_DATA_SIZE: usize = 32;

/// A block of the ledger.
pub struct Ledger {
    pub header: Header,
    pub data: [u8; MAX_DATA_SIZE],
}

} // verus!
