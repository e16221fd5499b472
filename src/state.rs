use vstd::prelude::*;
use crate::types::{Address, Block, Error, Header, RenameOp, Txn};
use crate::ledger::{balance, with_balance, no_zero_balance, Accounts, Names};
use crate::rules::{block_size, block_size_spec, spend_of, txn_total_spend};

verus! {

// ---- rolling windows ----

/// Shifts every element one place toward index 0, writes `item` at the top and
/// returns the element that fell off index 0.
pub fn push_to_front<T: Copy, const N: usize>(arr: &mut [T; N], item: T) -> (r: T)
    requires
        N > 0,
    ensures
        r == old(arr)@[0],
        final(arr)@ == old(arr)@.drop_first().push(item),
{
    let out = arr[0];
    let ghost start = arr@;
    let mut i: usize = 0;
    while i < N - 1
        invariant
            N > 0,
            i <= N - 1,
            arr@.len() == N,
            forall|j: int| 0 <= j < i ==> arr@[j] == start[j + 1],
            forall|j: int| i <= j < N ==> arr@[j] == start[j],
        decreases N - 1 - i,
    {
        let v = arr[i + 1];
        arr[i] = v;
        i = i + 1;
    }
    arr[N - 1] = item;
    assert(arr@ =~= start.drop_first().push(item));
    out
}

/// Inverse of `push_to_front`: shifts every element one place toward the top,
/// dropping the top element, and writes `item` at index 0.
pub fn push_to_back<T: Copy, const N: usize>(arr: &mut [T; N], item: T)
    requires
        N > 0,
    ensures
        final(arr)@ == seq![item] + old(arr)@.drop_last(),
{
    let ghost start = arr@;
    let mut i: usize = N - 1;
    while i > 0
        invariant
            N > 0,
            i <= N - 1,
            arr@.len() == N,
            forall|j: int| 0 <= j <= i ==> arr@[j] == start[j],
            forall|j: int| i < j < N ==> arr@[j] == start[j - 1],
        decreases i,
    {
        let v = arr[i - 1];
        arr[i] = v;
        i = i - 1;
    }
    arr[0] = item;
    assert(arr@ =~= seq![item] + start.drop_last());
}

/// Pushing a value at the top and then the displaced value back at the bottom
/// restores the window.
pub proof fn lemma_window_round_trip<T>(w: Seq<T>, item: T)
    requires
        w.len() > 0,
    ensures
        seq![w[0]] + w.drop_first().push(item).drop_last() == w,
{
    assert(seq![w[0]] + w.drop_first().push(item).drop_last() =~= w);
}

// ---- addresses ----

/// The key an address stands for under `names`, if any.
pub open spec fn resolve(a: Address, names: Map<Seq<char>, [u8; 32]>) -> Option<[u8; 32]> {
    match a {
        Address::Key(k) => Some(k),
        Address::Name(n) => if names.contains_key(n@) {
            Some(names[n@])
        } else {
            None
        },
    }
}

pub fn address_to_key(address: &Address, names: &Names) -> (r: Result<[u8; 32], Error>)
    requires
        names.wf(),
    ensures
        r == (match resolve(*address, names@) {
            Some(k) => Ok::<[u8; 32], Error>(k),
            None => Err(Error::MissingDataError),
        }),
{
    match address {
        Address::Name(n) => match names.get(n) {
            Some(k) => Ok(k),
            None => Err(Error::MissingDataError),
        },
        Address::Key(k) => Ok(*k),
    }
}

/// Resolves an address already known to resolve.
pub fn address_to_key_unchecked(address: &Address, names: &Names) -> (r: [u8; 32])
    requires
        names.wf(),
        resolve(*address, names@) is Some,
    ensures
        r == resolve(*address, names@)->Some_0,
{
    match address {
        Address::Name(n) => match names.get(n) {
            Some(k) => k,
            None => [0u8; 32],
        },
        Address::Key(k) => *k,
    }
}

// ---- balance changes ----

/// One change to a balance: the key, the amount, and whether it is a credit.
pub type LedgerOp = ([u8; 32], u64, bool);

pub open spec fn apply_op(m: Map<[u8; 32], u64>, op: LedgerOp) -> Option<Map<[u8; 32], u64>> {
    let b = balance(m, op.0);
    if op.2 {
        if b + op.1 <= u64::MAX {
            Some(with_balance(m, op.0, b + op.1 as nat))
        } else {
            None
        }
    } else {
        if b >= op.1 {
            Some(with_balance(m, op.0, (b - op.1) as nat))
        } else {
            None
        }
    }
}

/// Applies the changes first to last; `None` if one would overflow or go below zero.
pub open spec fn apply_ops(m: Map<[u8; 32], u64>, ops: Seq<LedgerOp>) -> Option<Map<[u8; 32], u64>>
    decreases ops.len(),
{
    if ops.len() == 0 {
        Some(m)
    } else {
        match apply_ops(m, ops.drop_last()) {
            Some(m1) => apply_op(m1, ops.last()),
            None => None,
        }
    }
}

pub open spec fn inverse_op(op: LedgerOp) -> LedgerOp {
    (op.0, op.1, !op.2)
}

/// Undoes the changes last to first, each by its inverse.
pub open spec fn unapply_ops(m: Map<[u8; 32], u64>, ops: Seq<LedgerOp>) -> Option<Map<[u8; 32], u64>>
    decreases ops.len(),
{
    if ops.len() == 0 {
        Some(m)
    } else {
        match apply_op(m, inverse_op(ops.last())) {
            Some(m1) => unapply_ops(m1, ops.drop_last()),
            None => None,
        }
    }
}

pub open spec fn recv_ops(rs: Seq<(Address, u64)>, names: Map<Seq<char>, [u8; 32]>) -> Seq<LedgerOp>
    decreases rs.len(),
{
    if rs.len() == 0 {
        Seq::empty()
    } else {
        recv_ops(rs.drop_last(), names).push(
            (resolve(rs.last().0, names)->Some_0, rs.last().1, true),
        )
    }
}

/// A transfer: the sender pays amounts and fee, then each receiver is credited.
pub open spec fn txn_ops(t: Txn, names: Map<Seq<char>, [u8; 32]>) -> Seq<LedgerOp> {
    seq![(resolve(t.sender, names)->Some_0, spend_of(t) as u64, false)] + recv_ops(
        t.recievers@,
        names,
    )
}

pub open spec fn txns_ops(ts: Seq<Txn>, names: Map<Seq<char>, [u8; 32]>) -> Seq<LedgerOp>
    decreases ts.len(),
{
    if ts.len() == 0 {
        Seq::empty()
    } else {
        txns_ops(ts.drop_last(), names) + txn_ops(ts.last(), names)
    }
}

/// Transfers after the coinbase in order, then the coinbase credits.
pub open spec fn block_txn_ops(txns: Seq<Txn>, names: Map<Seq<char>, [u8; 32]>) -> Seq<LedgerOp> {
    txns_ops(txns.drop_first(), names) + recv_ops(txns[0].recievers@, names)
}

/// Fee debits for renames paid by the given keys.
pub open spec fn fee_ops(keys: Seq<[u8; 32]>, fees: Seq<u64>) -> Seq<LedgerOp> {
    Seq::new(keys.len(), |i: int| (keys[i], fees[i], false))
}

pub open spec fn rename_keys(rs: Seq<RenameOp>) -> Seq<[u8; 32]> {
    rs.map_values(|r: RenameOp| r.pk)
}

pub open spec fn rename_fees(rs: Seq<RenameOp>) -> Seq<u64> {
    rs.map_values(|r: RenameOp| r.fee)
}

/// Every address in the transactions resolves and every spend fits in a `u64`.
pub open spec fn txns_resolvable(txns: Seq<Txn>, names: Map<Seq<char>, [u8; 32]>) -> bool {
    &&& forall|i: int| 0 < i < txns.len() ==> resolve(#[trigger] txns[i].sender, names) is Some
    &&& forall|i: int| 0 < i < txns.len() ==> spend_of(#[trigger] txns[i]) <= u64::MAX
    &&& forall|i: int, j: int|
        0 <= i < txns.len() && 0 <= j < txns[i].recievers@.len() ==> resolve(
            (#[trigger] txns[i].recievers@[j]).0,
            names,
        ) is Some
}

proof fn lemma_apply_ops_prefix(m: Map<[u8; 32], u64>, ops: Seq<LedgerOp>, k: int)
    requires
        0 <= k <= ops.len(),
        apply_ops(m, ops) is Some,
    ensures
        apply_ops(m, ops.subrange(0, k)) is Some,
    decreases ops.len(),
{
    if k < ops.len() {
        assert(ops.drop_last().subrange(0, k) == ops.subrange(0, k));
        lemma_apply_ops_prefix(m, ops.drop_last(), k);
    } else {
        assert(ops.subrange(0, k) == ops);
    }
}

fn recv_ops_exec(rs: &Vec<(Address, u64)>, names: &Names, ops: &mut Vec<LedgerOp>)
    requires
        names.wf(),
        forall|j: int| 0 <= j < rs@.len() ==> resolve(#[trigger] rs@[j].0, names@) is Some,
    ensures
        final(ops)@ == old(ops)@ + recv_ops(rs@, names@),
{
    let ghost start = ops@;
    let mut j: usize = 0;
    while j < rs.len()
        invariant
            names.wf(),
            j <= rs@.len(),
            forall|j: int| 0 <= j < rs@.len() ==> resolve(#[trigger] rs@[j].0, names@) is Some,
            ops@ == start + recv_ops(rs@.subrange(0, j as int), names@),
        decreases rs@.len() - j,
    {
        let k = address_to_key_unchecked(&rs[j].0, names);
        ops.push((k, rs[j].1, true));
        assert(rs@.subrange(0, j + 1).drop_last() == rs@.subrange(0, j as int));
        j = j + 1;
    }
    assert(rs@.subrange(0, j as int) == rs@);
}

/// The balance changes that a block's transactions make, in order.
fn block_txn_ops_exec(txns: &Vec<Txn>, names: &Names) -> (r: Vec<LedgerOp>)
    requires
        names.wf(),
        txns@.len() >= 1,
        txns_resolvable(txns@, names@),
    ensures
        r@ == block_txn_ops(txns@, names@),
{
    let mut ops: Vec<LedgerOp> = Vec::new();
    let mut i: usize = 1;
    while i < txns.len()
        invariant
            names.wf(),
            1 <= i <= txns@.len(),
            txns_resolvable(txns@, names@),
            ops@ == txns_ops(txns@.subrange(1, i as int), names@),
        decreases txns@.len() - i,
    {
        let t = &txns[i];
        assert(txns@[i as int] == *t);
        let k = address_to_key_unchecked(&t.sender, names);
        let spend = txn_total_spend(t);
        let ghost before = ops@;
        ops.push((k, spend, false));
        assert forall|j: int| 0 <= j < t.recievers@.len() implies resolve(
            #[trigger] t.recievers@[j].0,
            names@,
        ) is Some by {
            assert(txns@[i as int].recievers@[j] == t.recievers@[j]);
        }
        recv_ops_exec(&t.recievers, names, &mut ops);
        proof {
            let sub = txns@.subrange(1, i + 1);
            assert(sub.drop_last() == txns@.subrange(1, i as int));
            assert(sub.last() == *t);
            assert(ops@ =~= txns_ops(sub, names@));
        }
        i = i + 1;
    }
    assert(txns@.subrange(1, txns@.len() as int) == txns@.drop_first());
    let c = &txns[0];
    assert forall|j: int| 0 <= j < c.recievers@.len() implies resolve(
        #[trigger] c.recievers@[j].0,
        names@,
    ) is Some by {
        assert(txns@[0].recievers@[j] == c.recievers@[j]);
    }
    recv_ops_exec(&c.recievers, names, &mut ops);
    ops
}

fn apply_ops_exec(accounts: &mut Accounts, ops: &Vec<LedgerOp>)
    requires
        old(accounts).wf(),
        apply_ops(old(accounts)@, ops@) is Some,
    ensures
        final(accounts).wf(),
        final(accounts)@ == apply_ops(old(accounts)@, ops@)->Some_0,
        final(accounts).total() == old(accounts).total() + net_change(ops@),
{
    let ghost m0 = accounts@;
    let mut i: usize = 0;
    assert(ops@.subrange(0, 0) =~= Seq::<LedgerOp>::empty());
    let ghost t0 = accounts.total();
    while i < ops.len()
        invariant
            accounts.wf(),
            i <= ops@.len(),
            apply_ops(m0, ops@) is Some,
            accounts.total() == t0 + net_change(ops@.subrange(0, i as int)),
            apply_ops(m0, ops@.subrange(0, i as int)) == Some(accounts@),
        decreases ops@.len() - i,
    {
        proof {
            lemma_apply_ops_prefix(m0, ops@, i + 1);
            assert(ops@.subrange(0, i + 1).drop_last() == ops@.subrange(0, i as int));
        }
        let (k, amount, credit) = ops[i];
        if credit {
            accounts.credit(k, amount);
        } else {
            accounts.debit(k, amount);
        }
        i = i + 1;
    }
    assert(ops@.subrange(0, i as int) == ops@);
}

fn unapply_ops_exec(accounts: &mut Accounts, ops: &Vec<LedgerOp>)
    requires
        old(accounts).wf(),
        unapply_ops(old(accounts)@, ops@) is Some,
    ensures
        final(accounts).wf(),
        final(accounts)@ == unapply_ops(old(accounts)@, ops@)->Some_0,
{
    let ghost target = unapply_ops(accounts@, ops@);
    let mut i: usize = ops.len();
    assert(ops@.subrange(0, i as int) == ops@);
    while i > 0
        invariant
            accounts.wf(),
            i <= ops@.len(),
            unapply_ops(accounts@, ops@.subrange(0, i as int)) == target,
            target is Some,
        decreases i,
    {
        let (k, amount, credit) = ops[i - 1];
        proof {
            assert(ops@.subrange(0, i as int).drop_last() == ops@.subrange(0, i - 1));
        }
        if credit {
            accounts.debit(k, amount);
        } else {
            accounts.credit(k, amount);
        }
        i = i - 1;
    }
}

// ---- chain state ----

#[derive(Debug, Clone)]
pub struct BlockchainState {
    pub account_set: Accounts,
    pub name_set: Names,
    pub difficulty: [u8; 32],
    pub height: usize,
    pub last_720_times: [u64; 720],
    pub last_100_block_sizes: [usize; 100],
    pub previous_block_header: Header,
}

impl BlockchainState {
    pub open spec fn wf(&self) -> bool {
        self.account_set.wf() && self.name_set.wf()
    }
}

/// Two states are equal when their balances and names are the same maps and every
/// other field is the same value.
pub open spec fn state_eq(a: BlockchainState, b: BlockchainState) -> bool {
    &&& a.account_set.wf() && b.account_set.wf() && a.account_set@ == b.account_set@
    &&& a.name_set.wf() && b.name_set.wf() && a.name_set@ == b.name_set@
    &&& a.difficulty == b.difficulty
    &&& a.height == b.height
    &&& a.last_720_times == b.last_720_times
    &&& a.last_100_block_sizes == b.last_100_block_sizes
    &&& a.previous_block_header == b.previous_block_header
}

fn u64s_eq<const N: usize>(a: &[u64; N], b: &[u64; N]) -> (r: bool)
    ensures
        r == (*a == *b),
{
    let mut i: usize = 0;
    while i < N
        invariant
            i <= N,
            forall|j: int| 0 <= j < i ==> a@[j] == b@[j],
        decreases N - i,
    {
        if a[i] != b[i] {
            return false;
        }
        i = i + 1;
    }
    assert(*a =~= *b);
    true
}

fn usizes_eq<const N: usize>(a: &[usize; N], b: &[usize; N]) -> (r: bool)
    ensures
        r == (*a == *b),
{
    let mut i: usize = 0;
    while i < N
        invariant
            i <= N,
            forall|j: int| 0 <= j < i ==> a@[j] == b@[j],
        decreases N - i,
    {
        if a[i] != b[i] {
            return false;
        }
        i = i + 1;
    }
    assert(*a =~= *b);
    true
}

fn header_eq(a: &Header, b: &Header) -> (r: bool)
    ensures
        r == (*a == *b),
{
    crate::ledger::key_eq(&a.prev_block_hash, &b.prev_block_hash) && crate::ledger::key_eq(
        &a.merkle_root,
        &b.merkle_root,
    ) && a.time == b.time && a.nonce == b.nonce
}

impl BlockchainState {
    /// Field-by-field comparison, with balances and names compared as maps.
    pub fn same_as(&self, o: &BlockchainState) -> (r: bool)
        ensures
            r == state_eq(*self, *o),
    {
        self.account_set.same_as(&o.account_set) && self.name_set.same_as(&o.name_set)
            && crate::ledger::key_eq(&self.difficulty, &o.difficulty) && self.height == o.height
            && u64s_eq(&self.last_720_times, &o.last_720_times) && usizes_eq(
            &self.last_100_block_sizes,
            &o.last_100_block_sizes,
        ) && header_eq(&self.previous_block_header, &o.previous_block_header)
    }
}

impl PartialEq for BlockchainState {
    fn eq(&self, o: &BlockchainState) -> (r: bool) {
        self.same_as(o)
    }
}

impl vstd::std_specs::cmp::PartialEqSpecImpl for BlockchainState {
    open spec fn obeys_eq_spec() -> bool {
        true
    }

    open spec fn eq_spec(&self, o: &BlockchainState) -> bool {
        state_eq(*self, *o)
    }
}

impl Eq for BlockchainState {
}

/// What a rename replaced: the previous owner (`None` when the name was new).
#[derive(Debug, Clone, PartialEq, Eq)]
pub struct RenameOpUndo {
    pub old_pk: Option<[u8; 32]>,
    pub name: String,
    pub fee: u64,
}

/// Everything `pop_block` needs to take a block back off the state.
#[derive(Debug, Clone, PartialEq, Eq)]
pub struct UndoBlock {
    pub removed_time: u64,
    pub removed_block_size: usize,
    pub previous_header: Header,
    pub txns: Vec<Txn>,
    pub name_changes: Vec<RenameOpUndo>,
}

pub type NameUndoView = (Option<[u8; 32]>, Seq<char>, u64);

pub open spec fn owner_of(n: Map<Seq<char>, [u8; 32]>, name: Seq<char>) -> Option<[u8; 32]> {
    if n.contains_key(name) {
        Some(n[name])
    } else {
        None
    }
}

/// Names after the renames, applied in order.
pub open spec fn names_after(n: Map<Seq<char>, [u8; 32]>, rs: Seq<RenameOp>) -> Map<Seq<char>, [u8; 32]>
    decreases rs.len(),
{
    if rs.len() == 0 {
        n
    } else {
        names_after(n, rs.drop_last()).insert(rs.last().new_name@, rs.last().pk)
    }
}

/// For each rename, the owner it replaced, the name and the fee.
pub open spec fn rename_undos(n: Map<Seq<char>, [u8; 32]>, rs: Seq<RenameOp>) -> Seq<NameUndoView>
    decreases rs.len(),
{
    if rs.len() == 0 {
        Seq::empty()
    } else {
        rename_undos(n, rs.drop_last()).push(
            (
                owner_of(names_after(n, rs.drop_last()), rs.last().new_name@),
                rs.last().new_name@,
                rs.last().fee,
            ),
        )
    }
}

pub open spec fn undo_views(us: Seq<RenameOpUndo>) -> Seq<NameUndoView> {
    us.map_values(|u: RenameOpUndo| (u.old_pk, u.name@, u.fee))
}

pub open spec fn restore_one(n: Map<Seq<char>, [u8; 32]>, u: NameUndoView) -> Map<Seq<char>, [u8; 32]> {
    match u.0 {
        Some(k) => n.insert(u.1, k),
        None => n.remove(u.1),
    }
}

/// Names with the renames undone, last first.
pub open spec fn restore_names(n: Map<Seq<char>, [u8; 32]>, us: Seq<NameUndoView>) -> Map<Seq<char>, [u8; 32]>
    decreases us.len(),
{
    if us.len() == 0 {
        n
    } else {
        restore_names(restore_one(n, us.last()), us.drop_last())
    }
}

/// Whether each name to restore is registered when its turn comes.
pub open spec fn undos_resolvable(n: Map<Seq<char>, [u8; 32]>, us: Seq<NameUndoView>) -> bool
    decreases us.len(),
{
    if us.len() == 0 {
        true
    } else {
        n.contains_key(us.last().1) && undos_resolvable(restore_one(n, us.last()), us.drop_last())
    }
}

/// The owners that paid the rename fees: each name's owner just before it is restored.
pub open spec fn undo_keys(n: Map<Seq<char>, [u8; 32]>, us: Seq<NameUndoView>) -> Seq<[u8; 32]>
    decreases us.len(),
{
    if us.len() == 0 {
        Seq::empty()
    } else {
        undo_keys(restore_one(n, us.last()), us.drop_last()).push(n[us.last().1])
    }
}

pub open spec fn undo_fees(us: Seq<NameUndoView>) -> Seq<u64> {
    us.map_values(|u: NameUndoView| u.2)
}

/// Every balance change a block makes: its transfers, coinbase, then rename fees.
pub open spec fn block_ops(b: Block, n: Map<Seq<char>, [u8; 32]>) -> Seq<LedgerOp> {
    block_txn_ops(b.txns@, n) + fee_ops(rename_keys(b.name_changes@), rename_fees(b.name_changes@))
}

/// The balance changes that an undo record takes back, given the names as they stand.
pub open spec fn revert_ops(u: UndoBlock, n: Map<Seq<char>, [u8; 32]>) -> Seq<LedgerOp> {
    let us = undo_views(u.name_changes@);
    block_txn_ops(u.txns@, restore_names(n, us)) + fee_ops(undo_keys(n, us), undo_fees(us))
}

/// A block can be applied: it has a coinbase, its addresses resolve, and no balance
/// overflows or goes below zero along the way.
pub open spec fn push_block_pre(s: BlockchainState, b: Block) -> bool {
    &&& s.wf()
    &&& b.txns@.len() >= 1
    &&& txns_resolvable(b.txns@, s.name_set@)
    &&& block_size_spec(b) <= usize::MAX
    &&& s.height < usize::MAX
    &&& apply_ops(s.account_set@, block_ops(b, s.name_set@)) is Some
}

pub open spec fn push_block_post(s: BlockchainState, b: Block, s1: BlockchainState, u: UndoBlock) -> bool {
    &&& s1.wf()
    &&& s1.account_set@ == apply_ops(s.account_set@, block_ops(b, s.name_set@))->Some_0
    &&& s1.account_set.total() == s.account_set.total() + net_change(block_ops(b, s.name_set@))
    &&& s1.name_set@ == names_after(s.name_set@, b.name_changes@)
    &&& s1.difficulty == s.difficulty
    &&& s1.height == s.height + 1
    &&& s1.last_720_times@ == s.last_720_times@.drop_first().push(b.header.time)
    &&& s1.last_100_block_sizes@ == s.last_100_block_sizes@.drop_first().push(
        block_size_spec(b) as usize,
    )
    &&& s1.previous_block_header == b.header
    &&& u.removed_time == s.last_720_times@[0]
    &&& u.removed_block_size == s.last_100_block_sizes@[0]
    &&& u.previous_header == s.previous_block_header
    &&& u.txns@ == b.txns@
    &&& undo_views(u.name_changes@) == rename_undos(s.name_set@, b.name_changes@)
}

/// An undo record matches the state well enough to be taken back.
pub open spec fn pop_block_pre(s: BlockchainState, u: UndoBlock) -> bool {
    let us = undo_views(u.name_changes@);
    &&& s.wf()
    &&& s.height > 0
    &&& u.txns@.len() >= 1
    &&& undos_resolvable(s.name_set@, us)
    &&& txns_resolvable(u.txns@, restore_names(s.name_set@, us))
    &&& unapply_ops(s.account_set@, revert_ops(u, s.name_set@)) is Some
}

pub open spec fn pop_block_post(u: UndoBlock, s: BlockchainState, s1: BlockchainState) -> bool {
    &&& s1.wf()
    &&& s1.account_set@ == unapply_ops(s.account_set@, revert_ops(u, s.name_set@))->Some_0
    &&& s1.name_set@ == restore_names(s.name_set@, undo_views(u.name_changes@))
    &&& s1.difficulty == s.difficulty
    &&& s1.height == s.height - 1
    &&& s1.last_720_times@ == seq![u.removed_time] + s.last_720_times@.drop_last()
    &&& s1.last_100_block_sizes@ == seq![u.removed_block_size] + s.last_100_block_sizes@.drop_last()
    &&& s1.previous_block_header == u.previous_header
}

fn push_fee_ops(rs: &Vec<RenameOp>, ops: &mut Vec<LedgerOp>)
    ensures
        final(ops)@ == old(ops)@ + fee_ops(rename_keys(rs@), rename_fees(rs@)),
{
    let ghost start = ops@;
    let mut i: usize = 0;
    while i < rs.len()
        invariant
            i <= rs@.len(),
            ops@ == start + fee_ops(
                rename_keys(rs@.subrange(0, i as int)),
                rename_fees(rs@.subrange(0, i as int)),
            ),
        decreases rs@.len() - i,
    {
        ops.push((rs[i].pk, rs[i].fee, false));
        let ghost sub = rs@.subrange(0, i + 1);
        assert(fee_ops(rename_keys(sub), rename_fees(sub)) =~= fee_ops(
            rename_keys(rs@.subrange(0, i as int)),
            rename_fees(rs@.subrange(0, i as int)),
        ).push((rs@[i as int].pk, rs@[i as int].fee, false)));
        i = i + 1;
    }
    assert(rs@.subrange(0, i as int) == rs@);
}

/// Applies a block that can be applied: balance changes, renames, rolling windows,
/// previous header and height; returns the record that `pop_block` takes back.
pub fn push_block(block: Block, blockchain_state: &mut BlockchainState) -> (undo: UndoBlock)
    requires
        push_block_pre(*old(blockchain_state), block),
    ensures
        push_block_post(*old(blockchain_state), block, *final(blockchain_state), undo),
{
    let ghost s0 = *blockchain_state;
    let size = block_size(&block);
    let mut ops = block_txn_ops_exec(&block.txns, &blockchain_state.name_set);
    push_fee_ops(&block.name_changes, &mut ops);
    apply_ops_exec(&mut blockchain_state.account_set, &ops);

    let ghost n0 = blockchain_state.name_set@;
    let ghost mid = *blockchain_state;
    let mut name_undos: Vec<RenameOpUndo> = Vec::new();
    let mut i: usize = 0;
    while i < block.name_changes.len()
        invariant
            blockchain_state.account_set == mid.account_set,
            blockchain_state.difficulty == mid.difficulty,
            blockchain_state.height == mid.height,
            blockchain_state.last_720_times == mid.last_720_times,
            blockchain_state.last_100_block_sizes == mid.last_100_block_sizes,
            blockchain_state.previous_block_header == mid.previous_block_header,
            i <= block.name_changes@.len(),
            blockchain_state.name_set.wf(),
            blockchain_state.name_set@ == names_after(n0, block.name_changes@.subrange(0, i as int)),
            undo_views(name_undos@) == rename_undos(n0, block.name_changes@.subrange(0, i as int)),
        decreases block.name_changes@.len() - i,
    {
        let op = &block.name_changes[i];
        let old_pk = blockchain_state.name_set.get(&op.new_name);
        let ghost before = name_undos@;
        name_undos.push(RenameOpUndo { old_pk, name: op.new_name.clone(), fee: op.fee });
        blockchain_state.name_set.insert(op.new_name.clone(), op.pk);
        proof {
            let sub = block.name_changes@.subrange(0, i + 1);
            assert(sub.drop_last() == block.name_changes@.subrange(0, i as int));
            assert(sub.last() == *op);
            assert(undo_views(name_undos@) =~= undo_views(before).push(
                (old_pk, op.new_name@, op.fee),
            ));
        }
        i = i + 1;
    }
    assert(block.name_changes@.subrange(0, i as int) == block.name_changes@);

    let removed_time = push_to_front(&mut blockchain_state.last_720_times, block.header.time);
    let removed_block_size = push_to_front(&mut blockchain_state.last_100_block_sizes, size);
    let previous_header = blockchain_state.previous_block_header;
    blockchain_state.previous_block_header = block.header;
    blockchain_state.height = blockchain_state.height + 1;
    UndoBlock {
        removed_time,
        removed_block_size,
        previous_header,
        txns: block.txns,
        name_changes: name_undos,
    }
}

proof fn lemma_undo_keys_len(n: Map<Seq<char>, [u8; 32]>, us: Seq<NameUndoView>)
    ensures
        undo_keys(n, us).len() == us.len(),
    decreases us.len(),
{
    if us.len() > 0 {
        lemma_undo_keys_len(restore_one(n, us.last()), us.drop_last());
    }
}

/// Takes back the most recent block with the record `push_block` returned for it.
pub fn pop_block(undo_block: &UndoBlock, blockchain_state: &mut BlockchainState)
    requires
        pop_block_pre(*old(blockchain_state), *undo_block),
    ensures
        pop_block_post(*undo_block, *old(blockchain_state), *final(blockchain_state)),
{
    let ghost us = undo_views(undo_block.name_changes@);
    let ghost n1 = blockchain_state.name_set@;
    let len = undo_block.name_changes.len();
    let mut keys: Vec<[u8; 32]> = Vec::new();
    let mut f: usize = 0;
    while f < len
        invariant
            f <= len,
            keys@.len() == f,
        decreases len - f,
    {
        keys.push([0u8; 32]);
        f = f + 1;
    }
    proof {
        lemma_undo_keys_len(n1, us);
        assert(us.subrange(0, len as int) == us);
        assert(keys@.subrange(len as int, len as int) =~= Seq::<[u8; 32]>::empty());
        assert(undo_keys(n1, us) =~= undo_keys(n1, us.subrange(0, len as int)) + keys@.subrange(len as int, len as int));
    }
    let ghost mid = *blockchain_state;
    let mut i: usize = len;
    while i > 0
        invariant
            blockchain_state.account_set == mid.account_set,
            blockchain_state.difficulty == mid.difficulty,
            blockchain_state.height == mid.height,
            blockchain_state.last_720_times == mid.last_720_times,
            blockchain_state.last_100_block_sizes == mid.last_100_block_sizes,
            blockchain_state.previous_block_header == mid.previous_block_header,
            i <= len,
            len == undo_block.name_changes@.len(),
            us == undo_views(undo_block.name_changes@),
            keys@.len() == len,
            blockchain_state.name_set.wf(),
            undos_resolvable(blockchain_state.name_set@, us.subrange(0, i as int)),
            restore_names(n1, us) == restore_names(blockchain_state.name_set@, us.subrange(0, i as int)),
            undo_keys(n1, us) == undo_keys(blockchain_state.name_set@, us.subrange(0, i as int))
                + keys@.subrange(i as int, len as int),
        decreases i,
    {
        let u = &undo_block.name_changes[i - 1];
        let ghost cur = blockchain_state.name_set@;
        let ghost sub = us.subrange(0, i as int);
        proof {
            assert(sub.last() == (u.old_pk, u.name@, u.fee));
            assert(sub.drop_last() == us.subrange(0, i - 1));
            lemma_undo_keys_len(restore_one(cur, sub.last()), sub.drop_last());
        }
        let pk = match blockchain_state.name_set.get(&u.name) {
            Some(k) => k,
            None => [0u8; 32],
        };
        keys.set(i - 1, pk);
        match u.old_pk {
            Some(k) => blockchain_state.name_set.insert(u.name.clone(), k),
            None => blockchain_state.name_set.remove(&u.name),
        }
        proof {
            assert(blockchain_state.name_set@ == restore_one(cur, sub.last()));
            assert(undo_keys(cur, sub) == undo_keys(blockchain_state.name_set@, us.subrange(0, i - 1)).push(pk));
            assert(undo_keys(n1, us) =~= undo_keys(blockchain_state.name_set@, us.subrange(0, i - 1))
                + keys@.subrange(i - 1, len as int));
        }
        i = i - 1;
    }
    proof {
        assert(us.subrange(0, 0) =~= Seq::<NameUndoView>::empty());
        assert(keys@.subrange(0, len as int) == keys@);
    }

    let mut ops = block_txn_ops_exec(&undo_block.txns, &blockchain_state.name_set);
    let ghost head = ops@;
    let mut j: usize = 0;
    while j < len
        invariant
            j <= len,
            len == undo_block.name_changes@.len(),
            us == undo_views(undo_block.name_changes@),
            keys@ == undo_keys(n1, us),
            keys@.len() == len,
            ops@ == head + fee_ops(keys@.subrange(0, j as int), undo_fees(us).subrange(0, j as int)),
        decreases len - j,
    {
        ops.push((keys[j], undo_block.name_changes[j].fee, false));
        assert(fee_ops(keys@.subrange(0, j + 1), undo_fees(us).subrange(0, j + 1)) =~= fee_ops(
            keys@.subrange(0, j as int),
            undo_fees(us).subrange(0, j as int),
        ).push((keys@[j as int], undo_fees(us)[j as int], false)));
        j = j + 1;
    }
    assert(keys@.subrange(0, len as int) == keys@);
    assert(undo_fees(us).subrange(0, len as int) =~= undo_fees(us));
    assert(ops@ == revert_ops(*undo_block, n1));
    unapply_ops_exec(&mut blockchain_state.account_set, &ops);

    push_to_back(&mut blockchain_state.last_100_block_sizes, undo_block.removed_block_size);
    push_to_back(&mut blockchain_state.last_720_times, undo_block.removed_time);
    blockchain_state.previous_block_header = undo_block.previous_header;
    blockchain_state.height = blockchain_state.height - 1;
}

fn try_apply_ops_exec(accounts: &mut Accounts, ops: &Vec<LedgerOp>) -> (r: bool)
    requires
        old(accounts).wf(),
    ensures
        r == (apply_ops(old(accounts)@, ops@) is Some),
        final(accounts).wf(),
{
    let ghost m0 = accounts@;
    let mut i: usize = 0;
    assert(ops@.subrange(0, 0) =~= Seq::<LedgerOp>::empty());
    while i < ops.len()
        invariant
            m0 == old(accounts)@,
            accounts.wf(),
            i <= ops@.len(),
            apply_ops(m0, ops@.subrange(0, i as int)) == Some(accounts@),
        decreases ops@.len() - i,
    {
        assert(ops@.subrange(0, i + 1).drop_last() == ops@.subrange(0, i as int));
        let (k, amount, credit) = ops[i];
        let cur = match accounts.get(&k) {
            Some(b) => b,
            None => 0,
        };
        if credit {
            if cur > u64::MAX - amount {
                proof {
                    assert(ops@.subrange(0, i + 1).last() == ops@[i as int]);
                    assert(balance(accounts@, k) == cur);
                    assert(apply_ops(m0, ops@.subrange(0, i + 1)) is None);
                    if apply_ops(m0, ops@) is Some {
                        lemma_apply_ops_prefix(m0, ops@, i + 1);
                        assert(false);
                    }
                    assert(apply_ops(m0, ops@) is None);
                }
                return false;
            }
            accounts.credit(k, amount);
        } else {
            if cur < amount {
                proof {
                    assert(ops@.subrange(0, i + 1).last() == ops@[i as int]);
                    assert(balance(accounts@, k) == cur);
                    assert(apply_ops(m0, ops@.subrange(0, i + 1)) is None);
                    if apply_ops(m0, ops@) is Some {
                        lemma_apply_ops_prefix(m0, ops@, i + 1);
                        assert(false);
                    }
                    assert(apply_ops(m0, ops@) is None);
                }
                return false;
            }
            accounts.debit(k, amount);
        }
        i = i + 1;
    }
    assert(ops@.subrange(0, i as int) == ops@);
    true
}

/// Whether all of a block's balance changes can be made, in order, without a balance
/// going below zero or past `u64::MAX`. The state is not changed.
pub fn block_applies(block: &Block, blockchain_state: &BlockchainState) -> (r: bool)
    requires
        blockchain_state.wf(),
        block.txns@.len() >= 1,
        txns_resolvable(block.txns@, blockchain_state.name_set@),
    ensures
        r == (apply_ops(blockchain_state.account_set@, block_ops(*block, blockchain_state.name_set@))
            is Some),
{
    let mut ops = block_txn_ops_exec(&block.txns, &blockchain_state.name_set);
    push_fee_ops(&block.name_changes, &mut ops);
    let mut scratch = blockchain_state.account_set.snapshot();
    try_apply_ops_exec(&mut scratch, &ops)
}

// ---- money supply ----

/// Net change to the sum of all balances: credits minus debits.
pub open spec fn net_change(ops: Seq<LedgerOp>) -> int
    decreases ops.len(),
{
    if ops.len() == 0 {
        0
    } else {
        net_change(ops.drop_last()) + if ops.last().2 {
            ops.last().1 as int
        } else {
            -(ops.last().1 as int)
        }
    }
}

pub open spec fn fees_sum(ts: Seq<Txn>) -> int
    decreases ts.len(),
{
    if ts.len() == 0 {
        0
    } else {
        fees_sum(ts.drop_last()) + ts.last().fee as int
    }
}

pub open spec fn u64_sum(xs: Seq<u64>) -> int
    decreases xs.len(),
{
    if xs.len() == 0 {
        0
    } else {
        u64_sum(xs.drop_last()) + xs.last() as int
    }
}

proof fn lemma_net_change_append(a: Seq<LedgerOp>, b: Seq<LedgerOp>)
    ensures
        net_change(a + b) == net_change(a) + net_change(b),
    decreases b.len(),
{
    if b.len() > 0 {
        lemma_net_change_append(a, b.drop_last());
        assert((a + b).drop_last() == a + b.drop_last());
    } else {
        assert(a + b == a);
    }
}

proof fn lemma_net_recv_ops(rs: Seq<(Address, u64)>, names: Map<Seq<char>, [u8; 32]>)
    ensures
        net_change(recv_ops(rs, names)) == crate::rules::amounts_sum(rs),
    decreases rs.len(),
{
    if rs.len() > 0 {
        lemma_net_recv_ops(rs.drop_last(), names);
        assert(recv_ops(rs, names).drop_last() == recv_ops(rs.drop_last(), names));
    }
}

proof fn lemma_net_txns_ops(ts: Seq<Txn>, names: Map<Seq<char>, [u8; 32]>)
    requires
        forall|i: int| 0 <= i < ts.len() ==> spend_of(#[trigger] ts[i]) <= u64::MAX,
    ensures
        net_change(txns_ops(ts, names)) == -fees_sum(ts),
    decreases ts.len(),
{
    if ts.len() > 0 {
        let t = ts.last();
        assert(spend_of(ts[ts.len() - 1]) <= u64::MAX);
        lemma_net_txns_ops(ts.drop_last(), names);
        lemma_net_change_append(txns_ops(ts.drop_last(), names), txn_ops(t, names));
        let head = seq![(resolve(t.sender, names)->Some_0, spend_of(t) as u64, false)];
        lemma_net_change_append(head, recv_ops(t.recievers@, names));
        lemma_net_recv_ops(t.recievers@, names);
        assert(head.drop_last() =~= Seq::<LedgerOp>::empty());
        assert(net_change(head.drop_last()) == 0);
        assert(head.last().1 == spend_of(t) as u64);
        assert(net_change(head) == -(spend_of(t) as int));
        assert(txns_ops(ts, names) == txns_ops(ts.drop_last(), names) + txn_ops(t, names));
    }
}

proof fn lemma_net_fee_ops(keys: Seq<[u8; 32]>, fees: Seq<u64>)
    requires
        keys.len() == fees.len(),
    ensures
        net_change(fee_ops(keys, fees)) == -u64_sum(fees),
    decreases fees.len(),
{
    if fees.len() > 0 {
        lemma_net_fee_ops(keys.drop_last(), fees.drop_last());
        assert(fee_ops(keys, fees).drop_last() =~= fee_ops(keys.drop_last(), fees.drop_last()));
    } else {
        assert(fee_ops(keys, fees) =~= Seq::<LedgerOp>::empty());
    }
}

/// Applying a block creates no money beyond what the coinbase pays out: the balance
/// changes add up to the coinbase's credits minus every transfer fee and every rename
/// fee, which are destroyed.
pub proof fn lemma_block_supply_change(b: Block, names: Map<Seq<char>, [u8; 32]>)
    requires
        b.txns@.len() >= 1,
        txns_resolvable(b.txns@, names),
    ensures
        net_change(block_ops(b, names)) == crate::rules::amounts_sum(b.txns@[0].recievers@)
            - fees_sum(b.txns@.drop_first()) - u64_sum(rename_fees(b.name_changes@)),
{
    let ts = b.txns@.drop_first();
    assert forall|i: int| 0 <= i < ts.len() implies spend_of(#[trigger] ts[i]) <= u64::MAX by {
        assert(ts[i] == b.txns@[i + 1]);
    }
    lemma_net_txns_ops(ts, names);
    lemma_net_recv_ops(b.txns@[0].recievers@, names);
    lemma_net_change_append(txns_ops(ts, names), recv_ops(b.txns@[0].recievers@, names));
    lemma_net_change_append(
        block_txn_ops(b.txns@, names),
        fee_ops(rename_keys(b.name_changes@), rename_fees(b.name_changes@)),
    );
    lemma_net_fee_ops(rename_keys(b.name_changes@), rename_fees(b.name_changes@));
}

/// Applying a block changes the sum of all balances by exactly the coinbase's credits
/// minus every transfer fee and every rename fee: transfers net to zero and fees are
/// destroyed.
pub proof fn lemma_push_supply_change(s: BlockchainState, b: Block, s1: BlockchainState, u: UndoBlock)
    requires
        push_block_pre(s, b),
        push_block_post(s, b, s1, u),
    ensures
        s1.account_set.total() == s.account_set.total() + crate::rules::amounts_sum(
            b.txns@[0].recievers@,
        ) - fees_sum(b.txns@.drop_first()) - u64_sum(rename_fees(b.name_changes@)),
{
    lemma_block_supply_change(b, s.name_set@);
}

/// A balance change moves exactly one account by exactly its amount.
pub proof fn lemma_op_moves_one_balance(m: Map<[u8; 32], u64>, op: LedgerOp, k: [u8; 32])
    requires
        apply_op(m, op) is Some,
    ensures
        balance(apply_op(m, op)->Some_0, k) == if k == op.0 {
            if op.2 {
                balance(m, k) + op.1
            } else {
                balance(m, k) - op.1
            }
        } else {
            balance(m, k) as int
        },
{
}

// ---- undoing a block ----

proof fn lemma_op_round_trip(m: Map<[u8; 32], u64>, op: LedgerOp)
    requires
        no_zero_balance(m),
        apply_op(m, op) is Some,
    ensures
        no_zero_balance(apply_op(m, op)->Some_0),
        apply_op(apply_op(m, op)->Some_0, inverse_op(op)) == Some(m),
{
    let m1 = apply_op(m, op)->Some_0;
    let k = op.0;
    assert(no_zero_balance(m1));
    let back = apply_op(m1, inverse_op(op))->Some_0;
    if m.contains_key(k) {
        assert(back =~= m);
    } else {
        assert(back =~= m);
    }
}

proof fn lemma_ops_round_trip(m: Map<[u8; 32], u64>, ops: Seq<LedgerOp>)
    requires
        no_zero_balance(m),
        apply_ops(m, ops) is Some,
    ensures
        no_zero_balance(apply_ops(m, ops)->Some_0),
        unapply_ops(apply_ops(m, ops)->Some_0, ops) == Some(m),
    decreases ops.len(),
{
    if ops.len() > 0 {
        lemma_ops_round_trip(m, ops.drop_last());
        let mid = apply_ops(m, ops.drop_last())->Some_0;
        lemma_op_round_trip(mid, ops.last());
    }
}

proof fn lemma_names_round_trip(n: Map<Seq<char>, [u8; 32]>, rs: Seq<RenameOp>)
    ensures
        undos_resolvable(names_after(n, rs), rename_undos(n, rs)),
        restore_names(names_after(n, rs), rename_undos(n, rs)) == n,
        undo_keys(names_after(n, rs), rename_undos(n, rs)) == rename_keys(rs),
        undo_fees(rename_undos(n, rs)) == rename_fees(rs),
    decreases rs.len(),
{
    if rs.len() > 0 {
        let dl = rs.drop_last();
        let r = rs.last();
        lemma_names_round_trip(n, dl);
        let nd = names_after(n, dl);
        let n1 = names_after(n, rs);
        let us = rename_undos(n, rs);
        assert(us.drop_last() == rename_undos(n, dl));
        assert(restore_one(n1, us.last()) =~= nd);
        assert(rename_keys(rs) =~= rename_keys(dl).push(r.pk));
        assert(undo_fees(us) =~= undo_fees(rename_undos(n, dl)).push(r.fee));
        assert(rename_fees(rs) =~= rename_fees(dl).push(r.fee));
    } else {
        assert(rename_keys(rs) =~= Seq::<[u8; 32]>::empty());
        assert(undo_fees(rename_undos(n, rs)) =~= Seq::<u64>::empty());
        assert(rename_fees(rs) =~= Seq::<u64>::empty());
    }
}

/// The record that applying a block returns can always be taken back off the state
/// that applying produced.
pub proof fn lemma_push_enables_pop(s: BlockchainState, b: Block, s1: BlockchainState, u: UndoBlock)
    requires
        push_block_pre(s, b),
        push_block_post(s, b, s1, u),
    ensures
        pop_block_pre(s1, u),
        unapply_ops(s1.account_set@, revert_ops(u, s1.name_set@)) == Some(s.account_set@),
        restore_names(s1.name_set@, undo_views(u.name_changes@)) == s.name_set@,
{
    let n0 = s.name_set@;
    lemma_names_round_trip(n0, b.name_changes@);
    assert(revert_ops(u, s1.name_set@) == block_ops(b, n0));
    s.account_set.lemma_no_zero_balance();
    lemma_ops_round_trip(s.account_set@, block_ops(b, n0));
}

/// Taking a block back with the record that applying it returned restores the state:
/// balances, names, difficulty, height, both rolling windows and the previous header,
/// so that the state compares equal to the one before the block.
pub proof fn lemma_push_pop_round_trip(
    s: BlockchainState,
    b: Block,
    s1: BlockchainState,
    u: UndoBlock,
    s2: BlockchainState,
)
    requires
        push_block_pre(s, b),
        push_block_post(s, b, s1, u),
        pop_block_post(u, s1, s2),
    ensures
        s2.account_set@ == s.account_set@,
        s2.name_set@ == s.name_set@,
        s2.difficulty == s.difficulty,
        s2.height == s.height,
        s2.last_720_times == s.last_720_times,
        s2.last_100_block_sizes == s.last_100_block_sizes,
        s2.previous_block_header == s.previous_block_header,
        state_eq(s2, s),
{
    lemma_push_enables_pop(s, b, s1, u);
    lemma_window_round_trip(s.last_720_times@, b.header.time);
    lemma_window_round_trip(s.last_100_block_sizes@, block_size_spec(b) as usize);
    assert(s2.last_720_times =~= s.last_720_times);
    assert(s2.last_100_block_sizes =~= s.last_100_block_sizes);
}

/// Taking a block back keeps every balance positive: no account is left holding zero.
pub proof fn lemma_pop_keeps_balances_positive(u: UndoBlock, s: BlockchainState, s1: BlockchainState)
    requires
        pop_block_post(u, s, s1),
    ensures
        no_zero_balance(s1.account_set@),
{
    s1.account_set.lemma_no_zero_balance();
}

/// Applying a block keeps every balance positive: no account is left holding zero.
pub proof fn lemma_push_keeps_balances_positive(s: BlockchainState, b: Block, s1: BlockchainState, u: UndoBlock)
    requires
        push_block_pre(s, b),
        push_block_post(s, b, s1, u),
    ensures
        no_zero_balance(s1.account_set@),
{
    s1.account_set.lemma_no_zero_balance();
}

} // verus!
