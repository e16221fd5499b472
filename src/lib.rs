pub mod assoc;
pub mod types;
pub mod codec;
pub mod crypto;
pub mod ledger;
pub mod rules;
pub mod state;
pub mod validate;
pub mod sign;

pub use types::{
    Address, Block, Error, Header, RenameOp, Txn, DEFAULT_COINBASE, HEADER_SIZE, MAX_NAME_LEN,
    NAME_CHANGE_FEES_PER_BYTE, TXN_FEES_PER_BYTE,
};
pub use codec::{encode_address, encode_header, encode_name_change, encode_txn};
pub use crypto::hash;
pub use ledger::{Accounts, Names};
pub use rules::{
    block_size, calc_coinbase, hash_header, median_block_size, meets_difficulty, merkle_root,
    name_change_hash, txn_hash, txn_total_spend,
};
pub use state::{
    address_to_key, address_to_key_unchecked, pop_block, push_block, push_to_back, push_to_front,
    BlockchainState, RenameOpUndo, UndoBlock,
};
pub use validate::{check_name_change, check_name_changes, check_txn, check_txns, validate_block};
pub use sign::finalize_txn;
