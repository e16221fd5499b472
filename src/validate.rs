use vstd::prelude::*;
use crate::types::{
    str_bytes, Address, Block, Error, RenameOp, Txn, MAX_NAME_LEN, NAME_CHANGE_FEES_PER_BYTE,
    TXN_FEES_PER_BYTE,
};
use crate::codec::{
    encode_name_change_unsigned, encode_txn, encode_txn_unsigned, header_bytes, rename_bytes,
    rename_signed_bytes, txn_bytes, txn_signed_bytes,
};
use crate::crypto::{hash, is_valid_xonly_key, is_xonly_point, schnorr_accepts, schnorr_verify, sha256_of};
use crate::ledger::{balance, Accounts, Names};
use crate::rules::{
    block_size, block_size_spec, calc_coinbase, checked_total_spend, coinbase_for, hash_header,
    lex_le, median_block_size, median_spec, meets_difficulty, merkle_root, merkle_spec, spend_of,
};
use crate::state::{
    address_to_key, apply_ops, block_applies, block_ops, push_block_pre, resolve, BlockchainState,
};

verus! {

/// The outcome of a check, with the message of a validation error.
pub enum Verdict {
    Valid,
    BadBlock(Seq<char>),
    BadTxn(Seq<char>),
    Missing,
}

pub open spec fn verdict_of(r: Result<(), Error>) -> Verdict {
    match r {
        Ok(()) => Verdict::Valid,
        Err(Error::BlockValidationError(m)) => Verdict::BadBlock(m@),
        Err(Error::TxnValidationError(m)) => Verdict::BadTxn(m@),
        Err(Error::MissingDataError) => Verdict::Missing,
    }
}

fn block_error(msg: &str) -> (r: Result<(), Error>)
    ensures
        verdict_of(r) == Verdict::BadBlock(msg@),
{
    Err(Error::BlockValidationError(msg.to_owned()))
}

fn txn_error(msg: &str) -> (r: Result<(), Error>)
    ensures
        verdict_of(r) == Verdict::BadTxn(msg@),
{
    Err(Error::TxnValidationError(msg.to_owned()))
}

// ---- transactions ----

/// Every receiver's address resolves under `names`.
pub open spec fn receivers_resolve(rs: Seq<(Address, u64)>, names: Map<Seq<char>, [u8; 32]>) -> bool {
    forall|j: int| 0 <= j < rs.len() ==> resolve(#[trigger] rs[j].0, names) is Some
}

fn check_receivers(rs: &Vec<(Address, u64)>, name_set: &Names) -> (r: bool)
    requires
        name_set.wf(),
    ensures
        r == receivers_resolve(rs@, name_set@),
{
    let mut j: usize = 0;
    while j < rs.len()
        invariant
            name_set.wf(),
            j <= rs@.len(),
            forall|a: int| 0 <= a < j ==> resolve(#[trigger] rs@[a].0, name_set@) is Some,
        decreases rs@.len() - j,
    {
        if address_to_key(&rs[j].0, name_set).is_err() {
            return false;
        }
        j = j + 1;
    }
    true
}

/// Checks of one transfer that do not depend on the rest of the block.
pub open spec fn txn_verdict(t: Txn, accounts: Map<[u8; 32], u64>, names: Map<Seq<char>, [u8; 32]>) -> Verdict {
    match resolve(t.sender, names) {
        None => Verdict::Missing,
        Some(k) => if !is_xonly_point(k@) {
            Verdict::BadTxn("The sender's public key isn't a point on the curve"@)
        } else if !schnorr_accepts(t.signature@, sha256_of(txn_signed_bytes(t)), k@) {
            Verdict::BadTxn("The transaction signature is invalid"@)
        } else if !accounts.contains_key(k) {
            Verdict::BadTxn("The sender's pk isn't in the account set"@)
        } else if (t.fee as nat) < txn_bytes(t).len() * TXN_FEES_PER_BYTE as nat {
            Verdict::BadTxn("Txn doesn't pay enough in fees"@)
        } else if !receivers_resolve(t.recievers@, names) {
            Verdict::Missing
        } else {
            Verdict::Valid
        },
    }
}

/// Checks a transfer's sender, signature, account, fee and that every receiver
/// resolves; not what it spends.
pub fn check_txn(txn: &Txn, blockchain_state: &BlockchainState) -> (r: Result<(), Error>)
    requires
        blockchain_state.wf(),
    ensures
        verdict_of(r) == txn_verdict(
            *txn,
            blockchain_state.account_set@,
            blockchain_state.name_set@,
        ),
{
    let sender_key = match address_to_key(&txn.sender, &blockchain_state.name_set) {
        Ok(k) => k,
        Err(e) => return Err(e),
    };
    if !is_valid_xonly_key(&sender_key) {
        return txn_error("The sender's public key isn't a point on the curve");
    }
    let msg = hash(encode_txn_unsigned(txn).as_slice());
    if !schnorr_verify(&txn.signature, msg.as_slice(), &sender_key) {
        return txn_error("The transaction signature is invalid");
    }
    if blockchain_state.account_set.get(&sender_key).is_none() {
        return txn_error("The sender's pk isn't in the account set");
    }
    let size = encode_txn(txn).len() as u128;
    if (txn.fee as u128) < size * (TXN_FEES_PER_BYTE as u128) {
        return txn_error("Txn doesn't pay enough in fees");
    }
    if !check_receivers(&txn.recievers, &blockchain_state.name_set) {
        return Err(Error::MissingDataError);
    }
    Ok(())
}

/// What the scan of transfers `1..k` has found: a failure, or the amounts spent so
/// far by each sender and the fees collected.
pub open spec fn txns_scan(
    ts: Seq<Txn>,
    accounts: Map<[u8; 32], u64>,
    names: Map<Seq<char>, [u8; 32]>,
    k: int,
) -> (Verdict, Map<[u8; 32], u64>, nat)
    decreases k,
{
    if k <= 1 {
        (Verdict::Valid, Map::empty(), 0)
    } else {
        let prev = txns_scan(ts, accounts, names, k - 1);
        let t = ts[k - 1];
        if prev.0 != Verdict::Valid {
            prev
        } else if txn_verdict(t, accounts, names) != Verdict::Valid {
            (txn_verdict(t, accounts, names), prev.1, prev.2)
        } else {
            let key = resolve(t.sender, names)->Some_0;
            let total = balance(prev.1, key) + spend_of(t);
            if total > accounts[key] {
                (Verdict::BadTxn("Sender tried to spend more than their balance"@), prev.1, prev.2)
            } else {
                (
                    Verdict::Valid,
                    crate::ledger::with_balance(prev.1, key, total),
                    prev.2 + t.fee as nat,
                )
            }
        }
    }
}

proof fn lemma_scan_failure_persists(
    ts: Seq<Txn>,
    accounts: Map<[u8; 32], u64>,
    names: Map<Seq<char>, [u8; 32]>,
    k: int,
    k2: int,
)
    requires
        1 <= k <= k2,
        txns_scan(ts, accounts, names, k).0 != Verdict::Valid,
    ensures
        txns_scan(ts, accounts, names, k2) == txns_scan(ts, accounts, names, k),
    decreases k2,
{
    if k2 > k {
        lemma_scan_failure_persists(ts, accounts, names, k, k2 - 1);
    }
}

/// The verdict on all transfers and the coinbase of a block.
pub open spec fn txns_verdict(
    ts: Seq<Txn>,
    accounts: Map<[u8; 32], u64>,
    names: Map<Seq<char>, [u8; 32]>,
    coinbase: nat,
) -> Verdict {
    let scan = txns_scan(ts, accounts, names, ts.len() as int);
    if scan.0 != Verdict::Valid {
        scan.0
    } else if ts[0].recievers@.len() != 1 {
        Verdict::BadTxn("Coinbase txn must have exactly one reciever"@)
    } else if resolve(ts[0].recievers@[0].0, names) is None {
        Verdict::Missing
    } else if ts[0].recievers@[0].1 > coinbase + scan.2 {
        Verdict::BadTxn("Coinbase amount is invalid"@)
    } else {
        Verdict::Valid
    }
}

/// Checks every transfer after the coinbase in order, the running spend of each
/// sender against its balance, then the coinbase's shape and amount.
pub fn check_txns(txn_list: &Vec<Txn>, blockchain_state: &BlockchainState, coinbase: u64) -> (r:
    Result<(), Error>)
    requires
        blockchain_state.wf(),
        txn_list@.len() >= 1,
    ensures
        verdict_of(r) == txns_verdict(
            txn_list@,
            blockchain_state.account_set@,
            blockchain_state.name_set@,
            coinbase as nat,
        ),
{
    let ghost accounts = blockchain_state.account_set@;
    let ghost names = blockchain_state.name_set@;
    let mut fees: u128 = 0;
    let mut spent = Accounts::new();
    let mut i: usize = 1;
    while i < txn_list.len()
        invariant
            blockchain_state.wf(),
            accounts == blockchain_state.account_set@,
            names == blockchain_state.name_set@,
            1 <= i <= txn_list@.len(),
            spent.wf(),
            txns_scan(txn_list@, accounts, names, i as int) == (Verdict::Valid, spent@, fees as nat),
            fees <= i * 0xffff_ffff_ffff_ffffu128,
        decreases txn_list@.len() - i,
    {
        let txn = &txn_list[i];
        assert(txn_list@[i as int] == *txn);
        match check_txn(txn, blockchain_state) {
            Ok(()) => {},
            Err(e) => {
                proof {
                    lemma_scan_failure_persists(txn_list@, accounts, names, i + 1, txn_list@.len() as int);
                }
                return Err(e);
            },
        }
        let sender_key = match address_to_key(&txn.sender, &blockchain_state.name_set) {
            Ok(k) => k,
            Err(e) => {
                return Err(e);
            },
        };
        let bal = match blockchain_state.account_set.get(&sender_key) {
            Some(b) => b,
            None => 0,
        };
        let current = match spent.get(&sender_key) {
            Some(c) => c,
            None => 0,
        };
        let total: u128 = match checked_total_spend(txn) {
            Some(s) => s as u128 + current as u128,
            None => {
                proof {
                    lemma_scan_failure_persists(txn_list@, accounts, names, i + 1, txn_list@.len() as int);
                }
                return txn_error("Sender tried to spend more than their balance");
            },
        };
        if total > bal as u128 {
            proof {
                lemma_scan_failure_persists(txn_list@, accounts, names, i + 1, txn_list@.len() as int);
            }
            return txn_error("Sender tried to spend more than their balance");
        }
        spent.insert(sender_key, total as u64);
        fees = fees + txn.fee as u128;
        i = i + 1;
    }
    let cb = &txn_list[0];
    if cb.recievers.len() != 1 {
        return txn_error("Coinbase txn must have exactly one reciever");
    }
    if address_to_key(&cb.recievers[0].0, &blockchain_state.name_set).is_err() {
        return Err(Error::MissingDataError);
    }
    if cb.recievers[0].1 as u128 > coinbase as u128 + fees {
        return txn_error("Coinbase amount is invalid");
    }
    Ok(())
}

proof fn lemma_valid_scan(
    ts: Seq<Txn>,
    accounts: Map<[u8; 32], u64>,
    names: Map<Seq<char>, [u8; 32]>,
    k: int,
)
    requires
        k <= ts.len(),
        txns_scan(ts, accounts, names, k).0 == Verdict::Valid,
    ensures
        forall|i: int|
            0 < i < k ==> txn_verdict(#[trigger] ts[i], accounts, names) == Verdict::Valid
                && spend_of(ts[i]) <= u64::MAX,
    decreases k,
{
    if k > 1 {
        let prev = txns_scan(ts, accounts, names, k - 1);
        assert(prev.0 == Verdict::Valid);
        lemma_valid_scan(ts, accounts, names, k - 1);
        let t = ts[k - 1];
        assert(txn_verdict(t, accounts, names) == Verdict::Valid);
        let key = resolve(t.sender, names)->Some_0;
        assert(balance(prev.1, key) + spend_of(t) <= accounts[key]);
    }
}

/// Transfers that pass validation name only addresses that resolve, and each spend
/// fits in a `u64`.
pub proof fn lemma_valid_txns_resolve(
    ts: Seq<Txn>,
    accounts: Map<[u8; 32], u64>,
    names: Map<Seq<char>, [u8; 32]>,
    coinbase: nat,
)
    requires
        ts.len() >= 1,
        txns_verdict(ts, accounts, names, coinbase) == Verdict::Valid,
    ensures
        crate::state::txns_resolvable(ts, names),
{
    lemma_valid_scan(ts, accounts, names, ts.len() as int);
    assert forall|i: int, j: int|
        0 <= i < ts.len() && 0 <= j < ts[i].recievers@.len() implies resolve(
        (#[trigger] ts[i].recievers@[j]).0,
        names,
    ) is Some by {
        if i > 0 {
            assert(txn_verdict(ts[i], accounts, names) == Verdict::Valid);
            assert(receivers_resolve(ts[i].recievers@, names));
        }
    }
    assert forall|i: int| 0 < i < ts.len() implies resolve(#[trigger] ts[i].sender, names) is Some by {
        assert(txn_verdict(ts[i], accounts, names) == Verdict::Valid);
    }
    assert forall|i: int| 0 < i < ts.len() implies spend_of(#[trigger] ts[i]) <= u64::MAX by {
        assert(txn_verdict(ts[i], accounts, names) == Verdict::Valid);
    }
}

/// A block that passes validation can be applied: `push_block`'s precondition holds
/// whenever the height can still grow.
pub proof fn lemma_valid_block_applies(b: Block, s: BlockchainState)
    requires
        s.wf(),
        block_size_spec(b) <= usize::MAX,
        s.height < usize::MAX,
        block_verdict(b, s) == Verdict::Valid,
    ensures
        push_block_pre(s, b),
{
    let size = block_size_spec(b);
    let median = median_spec(s.last_100_block_sizes@);
    lemma_valid_txns_resolve(
        b.txns@,
        s.account_set@,
        s.name_set@,
        coinbase_for(size as int, median as int) as nat,
    );
}

proof fn lemma_scan_fees(ts: Seq<Txn>, accounts: Map<[u8; 32], u64>, names: Map<Seq<char>, [u8; 32]>, k: int)
    requires
        1 <= k <= ts.len(),
        txns_scan(ts, accounts, names, k).0 == Verdict::Valid,
    ensures
        txns_scan(ts, accounts, names, k).2 == crate::state::fees_sum(ts.subrange(1, k)),
    decreases k,
{
    if k > 1 {
        lemma_scan_fees(ts, accounts, names, k - 1);
        assert(ts.subrange(1, k).drop_last() == ts.subrange(1, k - 1));
        assert(ts.subrange(1, k).last() == ts[k - 1]);
    } else {
        assert(ts.subrange(1, k) =~= Seq::<Txn>::empty());
    }
}

proof fn lemma_coinbase_nonneg(b: int, m: int)
    requires
        b >= 0,
        m >= 0,
    ensures
        coinbase_for(b, m) >= 0,
{
    if !(b - m <= 10_000 || b - 10_000 <= m) {
        let q = 2 * m + 10_000 - b;
        if q > 0 {
            assert(m > 0);
            assert(200_000_000 * q * q >= 0) by (nonlinear_arith)
                requires
                    q > 0,
            ;
            assert(m * m > 0) by (nonlinear_arith)
                requires
                    m > 0,
            ;
            assert(200_000_000 * q * q / (m * m) >= 0) by (nonlinear_arith)
                requires
                    200_000_000 * q * q >= 0,
                    m * m > 0,
            ;
        }
    }
}

proof fn lemma_u64_sum_nonneg(xs: Seq<u64>)
    ensures
        crate::state::u64_sum(xs) >= 0,
    decreases xs.len(),
{
    if xs.len() > 0 {
        lemma_u64_sum_nonneg(xs.drop_last());
    }
}

/// Applying a block that passed validation creates no money beyond the block reward:
/// the sum of all balances grows by at most the coinbase allowed for the block's size.
pub proof fn lemma_valid_block_supply_bound(
    s: BlockchainState,
    b: Block,
    s1: BlockchainState,
    u: crate::state::UndoBlock,
)
    requires
        s.wf(),
        block_size_spec(b) <= usize::MAX,
        s.height < usize::MAX,
        block_verdict(b, s) == Verdict::Valid,
        crate::state::push_block_post(s, b, s1, u),
    ensures
        s1.account_set.total() <= s.account_set.total() + coinbase_for(
            block_size_spec(b) as int,
            median_spec(s.last_100_block_sizes@) as int,
        ),
{
    lemma_valid_block_applies(b, s);
    crate::state::lemma_push_supply_change(s, b, s1, u);
    let ts = b.txns@;
    let cb = coinbase_for(block_size_spec(b) as int, median_spec(s.last_100_block_sizes@) as int);
    assert(txns_verdict(ts, s.account_set@, s.name_set@, cb as nat) == Verdict::Valid);
    let scan = txns_scan(ts, s.account_set@, s.name_set@, ts.len() as int);
    assert(scan.0 == Verdict::Valid);
    assert(ts[0].recievers@.len() == 1);
    lemma_coinbase_nonneg(block_size_spec(b) as int, median_spec(s.last_100_block_sizes@) as int);
    assert(ts[0].recievers@[0].1 <= cb + scan.2);
    lemma_scan_fees(ts, s.account_set@, s.name_set@, ts.len() as int);
    assert(ts.subrange(1, ts.len() as int) == ts.drop_first());
    let rs = ts[0].recievers@;
    assert(rs.drop_last() =~= Seq::<(Address, u64)>::empty());
    assert(crate::rules::amounts_sum(rs.drop_last()) == 0);
    assert(crate::rules::amounts_sum(rs) == rs[0].1);
    lemma_u64_sum_nonneg(crate::state::rename_fees(b.name_changes@));
}

// ---- renames ----

pub open spec fn name_change_verdict(op: RenameOp, names: Map<Seq<char>, [u8; 32]>) -> Verdict {
    let signer = if names.contains_key(op.new_name@) {
        names[op.new_name@]
    } else {
        op.pk
    };
    if !is_xonly_point(op.pk@) {
        Verdict::BadTxn("Rename operation used a pk that isn't a point on the curve"@)
    } else if !(is_xonly_point(signer@) && schnorr_accepts(
        op.sig@,
        sha256_of(rename_signed_bytes(op)),
        signer@,
    )) {
        Verdict::BadTxn("Name-change signature was invalid"@)
    } else if str_bytes(op.new_name).len() > MAX_NAME_LEN {
        Verdict::BadTxn("New name was greater than 255 bytes"@)
    } else if (op.fee as nat) < rename_bytes(op).len() * NAME_CHANGE_FEES_PER_BYTE as nat {
        Verdict::BadTxn("Rename does not pay enough in fees"@)
    } else {
        Verdict::Valid
    }
}

/// Checks a rename: the new owner's key, the signature of the current owner (or of
/// the new owner for a free name), the name's length and the fee.
pub fn check_name_change(op: &RenameOp, name_set: &Names) -> (r: Result<(), Error>)
    requires
        name_set.wf(),
    ensures
        verdict_of(r) == name_change_verdict(*op, name_set@),
{
    if !is_valid_xonly_key(&op.pk) {
        return txn_error("Rename operation used a pk that isn't a point on the curve");
    }
    let signer = match name_set.get(&op.new_name) {
        Some(k) => k,
        None => op.pk,
    };
    let msg = hash(encode_name_change_unsigned(op).as_slice());
    if !schnorr_verify(&op.sig, msg.as_slice(), &signer) {
        return txn_error("Name-change signature was invalid");
    }
    if op.new_name.as_str().as_bytes().len() > MAX_NAME_LEN {
        return txn_error("New name was greater than 255 bytes");
    }
    let size = crate::codec::encode_name_change(op).len() as u128;
    if (op.fee as u128) < size * (NAME_CHANGE_FEES_PER_BYTE as u128) {
        return txn_error("Rename does not pay enough in fees");
    }
    Ok(())
}

/// The first failing rename's verdict, or `Valid`.
pub open spec fn name_changes_verdict(ops: Seq<RenameOp>, names: Map<Seq<char>, [u8; 32]>) -> Verdict
    decreases ops.len(),
{
    if ops.len() == 0 {
        Verdict::Valid
    } else if name_changes_verdict(ops.drop_last(), names) != Verdict::Valid {
        name_changes_verdict(ops.drop_last(), names)
    } else {
        name_change_verdict(ops.last(), names)
    }
}

pub fn check_name_changes(op_list: &Vec<RenameOp>, name_set: &Names) -> (r: Result<(), Error>)
    requires
        name_set.wf(),
    ensures
        verdict_of(r) == name_changes_verdict(op_list@, name_set@),
{
    let mut i: usize = 0;
    while i < op_list.len()
        invariant
            name_set.wf(),
            i <= op_list@.len(),
            name_changes_verdict(op_list@.subrange(0, i as int), name_set@) == Verdict::Valid,
        decreases op_list@.len() - i,
    {
        let r = check_name_change(&op_list[i], name_set);
        proof {
            let sub = op_list@.subrange(0, i + 1);
            assert(sub.drop_last() == op_list@.subrange(0, i as int));
            assert(sub.last() == op_list@[i as int]);
        }
        if r.is_err() {
            proof {
                lemma_name_changes_first_failure(op_list@, name_set@, i + 1);
            }
            return r;
        }
        i = i + 1;
    }
    assert(op_list@.subrange(0, i as int) == op_list@);
    Ok(())
}

proof fn lemma_name_changes_first_failure(ops: Seq<RenameOp>, names: Map<Seq<char>, [u8; 32]>, k: int)
    requires
        0 <= k <= ops.len(),
        name_changes_verdict(ops.subrange(0, k), names) != Verdict::Valid,
    ensures
        name_changes_verdict(ops, names) == name_changes_verdict(ops.subrange(0, k), names),
    decreases ops.len(),
{
    if k < ops.len() {
        assert(ops.drop_last().subrange(0, k) == ops.subrange(0, k));
        lemma_name_changes_first_failure(ops.drop_last(), names, k);
    } else {
        assert(ops.subrange(0, k) == ops);
    }
}

// ---- blocks ----

/// The checks of a block, in order; the first that fails decides.
pub open spec fn block_verdict(b: Block, s: BlockchainState) -> Verdict {
    let size = block_size_spec(b);
    let median = median_spec(s.last_100_block_sizes@);
    if b.txns@.len() < 1 {
        Verdict::BadBlock("The block contains no transactions (coinbase txn is mandatory)"@)
    } else if !lex_le(sha256_of(header_bytes(b.header)), s.difficulty@) {
        Verdict::BadBlock("Header hash does not meet required difficulty"@)
    } else if b.header.time < s.previous_block_header.time {
        Verdict::BadBlock("Block time is less than previous block time"@)
    } else if merkle_spec(b.txns@, b.name_changes@) != b.header.merkle_root@ {
        Verdict::BadBlock("Header merkle root does not match calculated merkle root"@)
    } else if sha256_of(header_bytes(s.previous_block_header)) != b.header.prev_block_hash@ {
        Verdict::BadBlock("Header previous block hash does not match calculated hash of previous block"@)
    } else if size > 20_000 && size > 2 * median {
        Verdict::BadBlock("Block is bigger than twice the median block size"@)
    } else if txns_verdict(
        b.txns@,
        s.account_set@,
        s.name_set@,
        coinbase_for(size as int, median as int) as nat,
    ) != Verdict::Valid {
        txns_verdict(
            b.txns@,
            s.account_set@,
            s.name_set@,
            coinbase_for(size as int, median as int) as nat,
        )
    } else if name_changes_verdict(b.name_changes@, s.name_set@) != Verdict::Valid {
        name_changes_verdict(b.name_changes@, s.name_set@)
    } else if !(apply_ops(s.account_set@, block_ops(b, s.name_set@)) is Some) {
        Verdict::BadTxn("The block's transfers and fees do not fit the balances"@)
    } else {
        Verdict::Valid
    }
}

/// Checks a candidate block against the state: header, size, transfers, coinbase,
/// renames, and last that the block's balance changes can all be made (each rename
/// fee is paid from its new owner's balance after the block's transfers).
pub fn validate_block(block: &Block, blockchain_state: &BlockchainState) -> (r: Result<(), Error>)
    requires
        blockchain_state.wf(),
        block_size_spec(*block) <= usize::MAX,
    ensures
        verdict_of(r) == block_verdict(*block, *blockchain_state),
{
    if block.txns.len() < 1 {
        return block_error("The block contains no transactions (coinbase txn is mandatory)");
    }
    if !meets_difficulty(&hash_header(&block.header), &blockchain_state.difficulty) {
        return block_error("Header hash does not meet required difficulty");
    }
    if block.header.time < blockchain_state.previous_block_header.time {
        return block_error("Block time is less than previous block time");
    }
    let root = merkle_root(&block.txns, &block.name_changes);
    if !crate::ledger::key_eq(&root, &block.header.merkle_root) {
        proof {
            if merkle_spec(block.txns@, block.name_changes@) == block.header.merkle_root@ {
                assert(root =~= block.header.merkle_root);
            }
        }
        return block_error("Header merkle root does not match calculated merkle root");
    }
    let prev_hash = hash_header(&blockchain_state.previous_block_header);
    if !crate::ledger::key_eq(&prev_hash, &block.header.prev_block_hash) {
        proof {
            if sha256_of(header_bytes(blockchain_state.previous_block_header))
                == block.header.prev_block_hash@ {
                assert(prev_hash =~= block.header.prev_block_hash);
            }
        }
        return block_error(
            "Header previous block hash does not match calculated hash of previous block",
        );
    }
    let median = median_block_size(&blockchain_state.last_100_block_sizes);
    let size = block_size(block);
    if size > 20_000 && size as u128 > 2 * (median as u128) {
        return block_error("Block is bigger than twice the median block size");
    }
    let coinbase = calc_coinbase(size, median);
    match check_txns(&block.txns, blockchain_state, coinbase) {
        Ok(()) => {},
        Err(e) => {
            return Err(e);
        },
    }
    match check_name_changes(&block.name_changes, &blockchain_state.name_set) {
        Ok(()) => {},
        Err(e) => {
            return Err(e);
        },
    }
    proof {
        lemma_valid_txns_resolve(
            block.txns@,
            blockchain_state.account_set@,
            blockchain_state.name_set@,
            coinbase as nat,
        );
    }
    if !block_applies(block, blockchain_state) {
        return txn_error("The block's transfers and fees do not fit the balances");
    }
    Ok(())
}

} // verus!
