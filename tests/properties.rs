use gold_2::codec::encode_name_change_unsigned;
use gold_2::{
    address_to_key, block_size, calc_coinbase, check_name_change, check_name_changes, check_txns,
    encode_address, encode_header, encode_name_change, encode_txn, finalize_txn, hash,
    hash_header, median_block_size, meets_difficulty, merkle_root, name_change_hash, pop_block,
    push_block, push_to_back, push_to_front, txn_hash, txn_total_spend, validate_block, Accounts,
    Address, Block, BlockchainState, Error, Header, Names, RenameOp, Txn, DEFAULT_COINBASE,
    TXN_FEES_PER_BYTE,
};
use secp256k1::{Keypair, Secp256k1};

fn keypair(seed: u8) -> Keypair {
    Keypair::from_seckey_slice(&Secp256k1::new(), &[seed; 32]).unwrap()
}

fn pk_of(kp: &Keypair) -> [u8; 32] {
    kp.x_only_public_key().0.serialize()
}

fn state_with(owner: [u8; 32], balance: u64) -> BlockchainState {
    let mut account_set = Accounts::new();
    account_set.insert(owner, balance);
    let mut name_set = Names::new();
    name_set.insert("GitMonke".to_string(), owner);
    BlockchainState {
        account_set,
        name_set,
        difficulty: [255; 32],
        height: 3,
        last_720_times: [100; 720],
        last_100_block_sizes: [10_000; 100],
        previous_block_header: Header { prev_block_hash: [0; 32], merkle_root: [0; 32], time: 820, nonce: 0 },
    }
}

fn signed_txn(kp: &Keypair, sender: Address, to: [u8; 32], amount: u64) -> Txn {
    let mut t = Txn { sender, recievers: vec![(Address::Key(to), amount)], signature: [0; 64], fee: 0 };
    assert!(finalize_txn(&mut t, &kp.secret_bytes()));
    t
}

fn signed_rename(signer: &Keypair, pk: [u8; 32], name: &str, fee: u64) -> RenameOp {
    let mut op = RenameOp { pk, sig: [0; 64], new_name: name.to_string(), fee };
    let msg = hash(&encode_name_change_unsigned(&op));
    op.sig = *Secp256k1::new().sign_schnorr_no_aux_rand(&msg, signer).as_byte_array();
    op
}

fn build_block(state: &BlockchainState, txns: Vec<Txn>, name_changes: Vec<RenameOp>) -> Block {
    let mut block = Block {
        header: Header {
            prev_block_hash: hash_header(&state.previous_block_header),
            merkle_root: [0; 32],
            time: 821,
            nonce: 0,
        },
        txns,
        name_changes,
    };
    block.header.merkle_root = merkle_root(&block.txns, &block.name_changes);
    block
}

fn coinbase_to(addr: Address, amount: u64) -> Txn {
    Txn { sender: Address::Key([0; 32]), recievers: vec![(addr, amount)], signature: [0; 64], fee: 0 }
}

fn err_msg(r: Result<(), Error>) -> String {
    match r {
        Err(Error::BlockValidationError(m)) => m,
        Err(Error::TxnValidationError(m)) => m,
        other => panic!("expected a message, got {:?}", other),
    }
}

#[test]
fn header_encoding_layout() {
    let h = Header { prev_block_hash: [1; 32], merkle_root: [2; 32], time: 0x0102, nonce: 5 };
    let e = encode_header(&h);
    assert_eq!(e.len(), 80);
    assert_eq!(&e[0..32], &[1u8; 32]);
    assert_eq!(&e[32..64], &[2u8; 32]);
    assert_eq!(&e[64..72], &[2, 1, 0, 0, 0, 0, 0, 0]);
    assert_eq!(&e[72..80], &[5, 0, 0, 0, 0, 0, 0, 0]);
}

#[test]
fn address_encodings() {
    let mut d = vec![9u8];
    encode_address(&Address::Name("ab".to_string()), &mut d);
    assert_eq!(d, vec![9, 1, 2, b'a', b'b']);
    let mut k = vec![];
    encode_address(&Address::Key([3; 32]), &mut k);
    assert_eq!(k.len(), 33);
    assert_eq!(k[0], 0);
    assert_eq!(&k[1..], &[3u8; 32]);
}

#[test]
fn txn_encoding_layout() {
    let t = Txn {
        sender: Address::Name("x".to_string()),
        recievers: vec![(Address::Key([4; 32]), 258)],
        signature: [6; 64],
        fee: 1,
    };
    let e = encode_txn(&t);
    assert_eq!(e.len(), 3 + 1 + 33 + 8 + 64 + 8);
    assert_eq!(&e[0..3], &[1, 1, b'x']);
    assert_eq!(e[3], 1);
    assert_eq!(&e[37..45], &[2, 1, 0, 0, 0, 0, 0, 0]);
    assert_eq!(&e[45..109], &[6u8; 64][..]);
    assert_eq!(&e[109..117], &[1, 0, 0, 0, 0, 0, 0, 0]);
}

#[test]
fn rename_encoding_layout() {
    let op = RenameOp { pk: [1; 32], sig: [2; 64], new_name: "Bob".to_string(), fee: 7 };
    let e = encode_name_change(&op);
    assert_eq!(e.len(), 32 + 64 + 1 + 3 + 8);
    assert_eq!(e[96], 3);
    assert_eq!(&e[97..100], b"Bob");
    assert_eq!(e[100], 7);
    let z = encode_name_change_unsigned(&op);
    assert_eq!(&z[32..96], &[0u8; 64][..]);
}

#[test]
fn sha256_known_digest() {
    let h = hash(b"abc");
    assert_eq!(h[0..4], [0xba, 0x78, 0x16, 0xbf]);
    assert_eq!(h[28..32], [0xf2, 0x00, 0x15, 0xad]);
    assert_eq!(txn_hash(&coinbase_to(Address::Key([0; 32]), 1)), hash(&encode_txn(&coinbase_to(Address::Key([0; 32]), 1))));
}

#[test]
fn difficulty_comparison() {
    let mut a = [5u8; 32];
    let b = [5u8; 32];
    assert!(meets_difficulty(&a, &b));
    a[0] = 4;
    a[1] = 255;
    assert!(meets_difficulty(&a, &b));
    a[0] = 5;
    a[31] = 6;
    a[1] = 5;
    assert!(!meets_difficulty(&a, &b));
}

#[test]
fn merkle_root_shapes() {
    assert_eq!(merkle_root(&vec![], &vec![]), [0; 32]);
    let t1 = coinbase_to(Address::Key([1; 32]), 1);
    let t2 = coinbase_to(Address::Key([2; 32]), 2);
    let r = RenameOp { pk: [1; 32], sig: [0; 64], new_name: "n".to_string(), fee: 0 };
    assert_eq!(merkle_root(&vec![t1.clone()], &vec![]), txn_hash(&t1));
    let pair = |a: [u8; 32], b: [u8; 32]| {
        let mut d = a.to_vec();
        d.extend_from_slice(&b);
        hash(&d)
    };
    let (h1, h2, h3) = (txn_hash(&t1), txn_hash(&t2), name_change_hash(&r));
    assert_eq!(merkle_root(&vec![t1.clone(), t2.clone()], &vec![]), pair(h1, h2));
    assert_eq!(
        merkle_root(&vec![t1.clone(), t2.clone()], &vec![r.clone()]),
        pair(pair(h1, h2), pair(h3, h3))
    );
    assert_eq!(merkle_root(&vec![t1.clone(), t2.clone()], &vec![r.clone()]), merkle_root(&vec![t1, t2], &vec![r]));
}

#[test]
fn rolling_windows() {
    let mut w = [1u64, 2, 3, 4];
    let out = push_to_front(&mut w, 9);
    assert_eq!(out, 1);
    assert_eq!(w, [2, 3, 4, 9]);
    push_to_back(&mut w, out);
    assert_eq!(w, [1, 2, 3, 4]);
}

#[test]
fn median_is_upper_middle() {
    let mut v = [0usize; 100];
    for i in 0..100 {
        v[i] = (i * 37) % 100;
    }
    assert_eq!(median_block_size(&v), 50);
    assert_eq!(median_block_size(&[7; 100]), 7);
}

#[test]
fn coinbase_curve_edges() {
    assert_eq!(calc_coinbase(20_000, 0), 0);
    assert_eq!(calc_coinbase(10_000, 0), DEFAULT_COINBASE);
    assert_eq!(calc_coinbase(30_000, 20_000), DEFAULT_COINBASE);
}

#[test]
fn total_spend_adds_fee() {
    let t = Txn {
        sender: Address::Key([1; 32]),
        recievers: vec![(Address::Key([2; 32]), 5), (Address::Key([3; 32]), 6)],
        signature: [0; 64],
        fee: 4,
    };
    assert_eq!(txn_total_spend(&t), 15);
}

#[test]
fn name_resolution() {
    let names = state_with([8; 32], 1).name_set;
    assert_eq!(address_to_key(&Address::Name("GitMonke".to_string()), &names), Ok([8; 32]));
    assert_eq!(address_to_key(&Address::Key([2; 32]), &names), Ok([2; 32]));
    assert_eq!(address_to_key(&Address::Name("Nobody".to_string()), &names), Err(Error::MissingDataError));
}

#[test]
fn zero_balance_is_removed() {
    let mut a = Accounts::new();
    a.insert([1; 32], 5);
    a.debit([1; 32], 5);
    assert_eq!(a.get(&[1; 32]), None);
    a.credit([1; 32], 3);
    assert_eq!(a.get(&[1; 32]), Some(3));
    a.insert([1; 32], 0);
    assert_eq!(a, Accounts::new());
}

#[test]
fn finalize_sets_fee_floor() {
    let kp = keypair(3);
    let t = signed_txn(&kp, Address::Key(pk_of(&kp)), [0; 32], 1);
    assert_eq!(t.fee, encode_txn(&t).len() as u64 * TXN_FEES_PER_BYTE);
    assert_ne!(t.signature, [0; 64]);
}

#[test]
fn block_errors_in_order() {
    let kp = keypair(3);
    let state = state_with(pk_of(&kp), 200_000_000_000);
    let empty = build_block(&state, vec![], vec![]);
    assert_eq!(err_msg(validate_block(&empty, &state)), "The block contains no transactions (coinbase txn is mandatory)");

    let mut hard = state.clone();
    hard.difficulty = [0; 32];
    let b = build_block(&hard, vec![coinbase_to(Address::Key([1; 32]), 1)], vec![]);
    assert_eq!(err_msg(validate_block(&b, &hard)), "Header hash does not meet required difficulty");

    let mut b = build_block(&state, vec![coinbase_to(Address::Key([1; 32]), 1)], vec![]);
    b.header.merkle_root = [1; 32];
    assert_eq!(err_msg(validate_block(&b, &state)), "Header merkle root does not match calculated merkle root");

    let mut b = build_block(&state, vec![coinbase_to(Address::Key([1; 32]), 1)], vec![]);
    b.header.prev_block_hash = [0; 32];
    assert_eq!(
        err_msg(validate_block(&b, &state)),
        "Header previous block hash does not match calculated hash of previous block"
    );
}

#[test]
fn oversized_block_is_refused() {
    let kp = keypair(3);
    let mut state = state_with(pk_of(&kp), 200_000_000_000);
    state.last_100_block_sizes = [100; 100];
    let long = "n".repeat(255);
    let cb = Txn {
        sender: Address::Key([0; 32]),
        recievers: (0..255).map(|_| (Address::Name(long.clone()), 1)).collect(),
        signature: [0; 64],
        fee: 0,
    };
    let b = build_block(&state, vec![cb], vec![]);
    assert!(block_size(&b) > 20_000);
    assert_eq!(err_msg(validate_block(&b, &state)), "Block is bigger than twice the median block size");
}

#[test]
fn txn_errors() {
    let kp = keypair(3);
    let pk = pk_of(&kp);
    let state = state_with(pk, 200_000_000_000);
    let cb = coinbase_to(Address::Key(pk), 1);

    let mut low_fee = signed_txn(&kp, Address::Key(pk), [0; 32], 1);
    low_fee.fee -= 1;
    let mut t = low_fee.clone();
    t.signature = [0; 64];
    let msg = hash(&gold_2::codec::encode_txn_unsigned(&t));
    low_fee.signature = *Secp256k1::new().sign_schnorr_no_aux_rand(&msg, &kp).as_byte_array();
    assert_eq!(err_msg(check_txns(&vec![cb.clone(), low_fee], &state, DEFAULT_COINBASE)), "Txn doesn't pay enough in fees");

    let mut forged = signed_txn(&kp, Address::Key(pk), [0; 32], 1);
    forged.signature[0] ^= 1;
    assert_eq!(err_msg(check_txns(&vec![cb.clone(), forged], &state, DEFAULT_COINBASE)), "The transaction signature is invalid");

    let other = keypair(4);
    let stranger = signed_txn(&other, Address::Key(pk_of(&other)), [0; 32], 1);
    assert_eq!(err_msg(check_txns(&vec![cb.clone(), stranger], &state, DEFAULT_COINBASE)), "The sender's pk isn't in the account set");

    let bad_point = Txn { sender: Address::Key([0xff; 32]), recievers: vec![], signature: [0; 64], fee: 0 };
    assert_eq!(err_msg(check_txns(&vec![cb.clone(), bad_point], &state, DEFAULT_COINBASE)), "The sender's public key isn't a point on the curve");

    let a = signed_txn(&kp, Address::Key(pk), [0; 32], 150_000_000_000);
    let b = signed_txn(&kp, Address::Name("GitMonke".to_string()), [0; 32], 50_000_000_000);
    assert_eq!(err_msg(check_txns(&vec![cb.clone(), a, b], &state, DEFAULT_COINBASE)), "Sender tried to spend more than their balance");

    let mut two = cb.clone();
    two.recievers.push((Address::Key([1; 32]), 1));
    assert_eq!(err_msg(check_txns(&vec![two], &state, DEFAULT_COINBASE)), "Coinbase txn must have exactly one reciever");

    let paid = signed_txn(&kp, Address::Key(pk), [0; 32], 1);
    let fee = paid.fee;
    let ok_cb = coinbase_to(Address::Key(pk), 10 + fee);
    assert_eq!(check_txns(&vec![ok_cb, paid.clone()], &state, 10), Ok(()));
    let over_cb = coinbase_to(Address::Key(pk), 11 + fee);
    assert_eq!(err_msg(check_txns(&vec![over_cb, paid], &state, 10)), "Coinbase amount is invalid");
}

#[test]
fn rename_checks() {
    let kp = keypair(3);
    let pk = pk_of(&kp);
    let state = state_with(pk, 200_000_000_000);
    let fee = (32 + 64 + 1 + 3 + 8) * 100_000_000;

    let free = signed_rename(&kp, pk, "Bob", fee);
    assert_eq!(check_name_change(&free, &state.name_set), Ok(()));
    let cheap = signed_rename(&kp, pk, "Bob", fee - 1);
    assert_eq!(err_msg(check_name_change(&cheap, &state.name_set)), "Rename does not pay enough in fees");
    let bad_pk = RenameOp { pk: [0xff; 32], sig: [0; 64], new_name: "Bob".to_string(), fee };
    assert_eq!(err_msg(check_name_change(&bad_pk, &state.name_set)), "Rename operation used a pk that isn't a point on the curve");

    // A taken name must be signed by its current owner.
    let other = keypair(4);
    let fee2 = (32 + 64 + 1 + 8 + 8) * 100_000_000;
    let grab = signed_rename(&other, pk_of(&other), "GitMonke", fee2);
    assert_eq!(err_msg(check_name_change(&grab, &state.name_set)), "Name-change signature was invalid");
    let transfer = signed_rename(&kp, pk_of(&other), "GitMonke", fee2);
    assert_eq!(check_name_change(&transfer, &state.name_set), Ok(()));

    let long = "x".repeat(256);
    let too_long = signed_rename(&kp, pk, &long, u64::MAX);
    assert_eq!(err_msg(check_name_changes(&vec![free, too_long], &state.name_set)), "New name was greater than 255 bytes");
}

#[test]
fn apply_credits_and_revert_removes_new_name() {
    let kp = keypair(3);
    let pk = pk_of(&kp);
    let state0 = state_with(pk, 200_000_000_000);
    let mut state = state0.clone();
    let t = signed_txn(&kp, Address::Name("GitMonke".to_string()), [9; 32], 100_000);
    let spend = 100_000 + t.fee;
    let fee = (32 + 64 + 1 + 3 + 8) * 100_000_000;
    let rename = signed_rename(&kp, pk, "Bob", fee);
    let block = build_block(&state, vec![coinbase_to(Address::Key(pk), 1_000), t], vec![rename]);
    assert_eq!(validate_block(&block, &state), Ok(()));
    let undo = push_block(block.clone(), &mut state);
    assert_eq!(state.account_set.get(&pk), Some(200_000_000_000 - spend + 1_000 - fee));
    assert_eq!(state.account_set.get(&[9; 32]), Some(100_000));
    assert_eq!(state.name_set.get(&"Bob".to_string()), Some(pk));
    assert_eq!(state.height, 4);
    assert_eq!(undo.removed_time, 100);
    pop_block(&undo, &mut state);
    assert_eq!(state.name_set.get(&"Bob".to_string()), None);
    assert_eq!(state, state0);
}

#[test]
fn finalize_signature_verifies_and_bad_key_refused() {
    let kp = keypair(5);
    let t = signed_txn(&kp, Address::Key(pk_of(&kp)), [0; 32], 1);
    let msg = hash(&gold_2::codec::encode_txn_unsigned(&t));
    let sig = secp256k1::schnorr::Signature::from_byte_array(t.signature);
    assert!(Secp256k1::new().verify_schnorr(&sig, &msg, &kp.x_only_public_key().0).is_ok());
    let mut u = t.clone();
    u.signature = [3; 64];
    assert!(!finalize_txn(&mut u, &[0; 32]));
    assert_eq!(u.signature, [3; 64]);
    assert_eq!(u.fee, t.fee);
}

#[test]
fn unknown_receiver_names_are_missing_data() {
    let kp = keypair(3);
    let pk = pk_of(&kp);
    let state = state_with(pk, 200_000_000_000);
    let mut t = Txn {
        sender: Address::Key(pk),
        recievers: vec![(Address::Name("Nobody".to_string()), 5)],
        signature: [0; 64],
        fee: 0,
    };
    assert!(finalize_txn(&mut t, &kp.secret_bytes()));
    let cb = coinbase_to(Address::Key(pk), 1);
    assert_eq!(check_txns(&vec![cb, t], &state, DEFAULT_COINBASE), Err(Error::MissingDataError));
    let lost_cb = coinbase_to(Address::Name("Nobody".to_string()), 1);
    assert_eq!(check_txns(&vec![lost_cb], &state, DEFAULT_COINBASE), Err(Error::MissingDataError));
}

#[test]
fn state_equality_ignores_entry_order() {
    let mut a = Accounts::new();
    a.insert([1; 32], 5);
    a.insert([2; 32], 6);
    let mut b = Accounts::new();
    b.insert([2; 32], 6);
    b.insert([1; 32], 5);
    assert_eq!(a, b);
    b.insert([1; 32], 7);
    assert_ne!(a, b);
    let mut n = Names::new();
    n.insert("a".to_string(), [1; 32]);
    n.insert("b".to_string(), [2; 32]);
    let mut m = Names::new();
    m.insert("b".to_string(), [2; 32]);
    m.insert("a".to_string(), [1; 32]);
    assert_eq!(n, m);
}

#[test]
fn rename_fee_must_be_payable() {
    let kp = keypair(3);
    let pk = pk_of(&kp);
    let state = state_with(pk, 200_000_000_000);
    let newcomer = keypair(4);
    let fee = (32 + 64 + 1 + 3 + 8) * 100_000_000;
    let rename = signed_rename(&newcomer, pk_of(&newcomer), "Bob", fee);
    let block = build_block(&state, vec![coinbase_to(Address::Key(pk), 1)], vec![rename]);
    assert_eq!(
        err_msg(validate_block(&block, &state)),
        "The block's transfers and fees do not fit the balances"
    );
    // Paid for by a transfer earlier in the same block, the rename is accepted.
    let gift = signed_txn(&kp, Address::Key(pk), pk_of(&newcomer), fee);
    let rename = signed_rename(&newcomer, pk_of(&newcomer), "Bob", fee);
    let block = build_block(&state, vec![coinbase_to(Address::Key(pk), 1), gift], vec![rename]);
    assert_eq!(validate_block(&block, &state), Ok(()));
}
