use gold_2::{
    block_size, calc_coinbase, encode_address, encode_header, encode_name_change, encode_txn,
    finalize_txn, hash, hash_header, median_block_size, meets_difficulty, merkle_root, pop_block,
    push_block, push_to_back, push_to_front, txn_hash, txn_total_spend, validate_block,
    address_to_key, check_name_change, Accounts, Address, Block, BlockchainState, Error, Header,
    Names, RenameOp, Txn, DEFAULT_COINBASE,
};
use secp256k1::{Keypair, Secp256k1};

fn keypair(seed: u8) -> Keypair {
    let secp = Secp256k1::new();
    Keypair::from_seckey_slice(&secp, &[seed; 32]).unwrap()
}

fn create_dummy_account_set(default_account: [u8; 32], balance: u64) -> Accounts {
    let mut account_set = Accounts::new();
    account_set.insert(default_account, balance);
    account_set
}

fn create_dummy_name_set(default_name: String, key: [u8; 32]) -> Names {
    let mut name_set = Names::new();
    name_set.insert(default_name, key);
    name_set
}

fn create_dummy_blockchainstate() -> (BlockchainState, Keypair) {
    let keypair = keypair(7);
    let serialized_pk = keypair.x_only_public_key().0.serialize();

    let account_set = create_dummy_account_set(serialized_pk, 200_000_000_000);
    let name_set = create_dummy_name_set("GitMonke".into(), serialized_pk);

    let header = Header { prev_block_hash: [0; 32], merkle_root: [0; 32], time: 820, nonce: 0 };

    (
        BlockchainState {
            account_set,
            name_set,
            difficulty: [
                0, 0, 255, 255, 255, 255, 255, 255, 255, 255, 255, 255, 255, 255, 255, 255, 255,
                255, 255, 255, 255, 255, 255, 255, 255, 255, 255, 255, 255, 255, 255, 255,
            ],
            height: 0,
            last_720_times: [100; 720],
            last_100_block_sizes: [10_000; 100],
            previous_block_header: header,
        },
        keypair,
    )
}

fn create_dummy_valid_block() -> (BlockchainState, Block, Keypair) {
    let (state, keypair) = create_dummy_blockchainstate();
    let prev_block_hash = hash_header(&state.previous_block_header);

    // GitMonke sends 100_000 to all 0's
    let mut example_txn = Txn {
        sender: Address::Name("GitMonke".into()),
        recievers: vec![(Address::Key([0; 32]), 100_000)],
        signature: [0; 64],
        fee: 0,
    };
    assert!(finalize_txn(&mut example_txn, &keypair.secret_bytes()));

    let mut block = Block {
        header: Header { prev_block_hash, merkle_root: [0; 32], time: 821, nonce: 2224777 },
        txns: vec![example_txn],
        name_changes: vec![],
    };

    // All 0's sends a coinbase txn to GitMonke
    let txn = Txn {
        sender: Address::Key([0; 32]),
        recievers: vec![(Address::Name("GitMonke".into()), 0)],
        signature: [0; 64],
        fee: 0,
    };
    block.txns.insert(0, txn);

    let coinbase =
        calc_coinbase(block_size(&block), median_block_size(&state.last_100_block_sizes));
    block.txns[0].recievers[0].1 = coinbase;

    (state, block, keypair)
}

fn finalize_block(block: &mut Block, state: &BlockchainState) {
    block.header.merkle_root = merkle_root(&block.txns, &block.name_changes);
    while !meets_difficulty(&hash_header(&block.header), &state.difficulty) {
        block.header.nonce += 1;
    }
}

fn block_msg(r: Result<(), Error>) -> String {
    match r {
        Err(Error::BlockValidationError(m)) => m,
        other => panic!("expected a block validation error, got {:?}", other),
    }
}

fn txn_msg(r: Result<(), Error>) -> String {
    match r {
        Err(Error::TxnValidationError(m)) => m,
        other => panic!("expected a txn validation error, got {:?}", other),
    }
}

#[test]
fn calc_coinbase_test() {
    assert_eq!(calc_coinbase(10_000, 80), DEFAULT_COINBASE);
    assert_eq!(calc_coinbase(10_001, 80), DEFAULT_COINBASE);
    assert_eq!(calc_coinbase(10_081, 80), 195_031_250_000);
    assert_eq!(calc_coinbase(28_912, 10_000), 2_367_488_000);
    assert_eq!(calc_coinbase(183_928, 100_000), 13_594_983_000);
    assert_eq!(calc_coinbase(10_160, 80), 0);
}

#[test]
fn validate_block_test() {
    let (state, mut block, _) = create_dummy_valid_block();
    finalize_block(&mut block, &state);
    let result = validate_block(&block, &state);
    assert!(result.is_ok(), "Expected ok, got: {:?}", result.unwrap_err())
}

#[test]
fn invalid_address() {
    let (state, mut block, _) = create_dummy_valid_block();
    block.txns[1].sender = Address::Name("GitMone".into());
    finalize_block(&mut block, &state);
    let result = validate_block(&block, &state);
    assert!(matches!(result, Err(Error::MissingDataError)));
}

#[test]
fn invalid_coinbase() {
    let (state, mut block, _) = create_dummy_valid_block();
    block.txns[0].recievers[0].1 = 300_000_000_000;
    finalize_block(&mut block, &state);
    let result = validate_block(&block, &state);
    if let Err(Error::TxnValidationError(msg)) = result {
        assert_eq!(msg, "Coinbase amount is invalid")
    } else {
        panic!("Expected coinbase amount is invalid, got {:?}", result)
    }
}

#[test]
fn invalid_time() {
    let (state, mut block, _) = create_dummy_valid_block();
    block.header.time = 99;
    finalize_block(&mut block, &state);
    let result = validate_block(&block, &state);
    if let Err(Error::BlockValidationError(msg)) = result {
        assert_eq!(msg, "Block time is less than previous block time")
    } else {
        panic!("Expected blocktime error, got {:?}", result)
    }
}

#[test]
fn test_pushblock() {
    let (mut state, block, _) = create_dummy_valid_block();
    push_block(block.clone(), &mut state);
    assert_eq!(state.last_100_block_sizes[99], block_size(&block));
    assert_eq!(state.last_720_times[719], 821);
    assert_eq!(state.previous_block_header, block.header);
}

#[test]
fn test_popblock() {
    let (mut state, block, _) = create_dummy_valid_block();
    let state_before_push = state.clone();
    let undo_block = push_block(block.clone(), &mut state);
    pop_block(&undo_block, &mut state);
    assert_eq!(state, state_before_push);
}
