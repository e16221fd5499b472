use vstd::prelude::*;

verus! {

/// Width in bytes of an encoded block header.
pub const HEADER_SIZE: usize = 80;

/// Minimum transaction fee, per encoded byte.
pub const TXN_FEES_PER_BYTE: u64 = 400_000;

/// Minimum rename fee, per encoded byte.
pub const NAME_CHANGE_FEES_PER_BYTE: u64 = 100_000_000;

/// Block reward while a block stays within its free size allowance.
pub const DEFAULT_COINBASE: u64 = 200_000_000_000;

/// Longest name, in UTF-8 bytes.
pub const MAX_NAME_LEN: usize = 255;

#[derive(Debug, Clone, Copy, PartialEq, Eq)]
pub struct Header {
    pub prev_block_hash: [u8; 32],
    pub merkle_root: [u8; 32],
    pub time: u64,
    pub nonce: u64,
}

/// An account endpoint: either an x-only public key or a registered name.
#[derive(Debug, Clone, PartialEq, Eq)]
pub enum Address {
    Key([u8; 32]),
    Name(String),
}

#[derive(Debug, Clone, PartialEq, Eq)]
pub struct Txn {
    pub sender: Address,
    pub recievers: Vec<(Address, u64)>,
    pub signature: [u8; 64],
    pub fee: u64,
}

/// Claims or transfers a name. The fee is always paid by the new owner `pk`.
/// When the name already has an owner, that owner signs; otherwise `pk` signs.
#[derive(Debug, Clone, PartialEq, Eq)]
pub struct RenameOp {
    pub pk: [u8; 32],
    pub sig: [u8; 64],
    pub new_name: String,
    pub fee: u64,
}

/// A block; `txns[0]` is the coinbase transaction.
#[derive(Debug, Clone, PartialEq, Eq)]
pub struct Block {
    pub header: Header,
    pub txns: Vec<Txn>,
    pub name_changes: Vec<RenameOp>,
}

#[derive(Debug, Clone, PartialEq, Eq)]
pub enum Error {
    BlockValidationError(String),
    TxnValidationError(String),
    MissingDataError,
}

/// Bytes of a string in UTF-8.
pub open spec fn str_bytes(s: String) -> Seq<u8> {
    vstd::utf8::encode_utf8(s@)
}

} // verus!
