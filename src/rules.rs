use vstd::prelude::*;
use vstd::arithmetic::div_mod::{
    lemma_div_denominator, lemma_div_is_ordered, lemma_fundamental_div_mod,
    lemma_hoist_over_denominator, lemma_multiply_divide_lt,
};
use vstd::relations::{sorted_by, total_ordering};
use crate::types::{Address, Block, Header, RenameOp, Txn, DEFAULT_COINBASE, HEADER_SIZE};
use crate::codec::{encode_header, encode_name_change, encode_txn, header_bytes, rename_bytes, txn_bytes};
use crate::crypto::{hash, sha256_of};

verus! {

// ---- difficulty ----

/// Byte-wise comparison from index 0: `a` is at most `b`.
pub open spec fn lex_le(a: Seq<u8>, b: Seq<u8>) -> bool
    decreases a.len(),
{
    if a.len() == 0 || b.len() == 0 {
        true
    } else if a[0] < b[0] {
        true
    } else if a[0] > b[0] {
        false
    } else {
        lex_le(a.drop_first(), b.drop_first())
    }
}

pub open spec fn pow256(n: nat) -> nat
    decreases n,
{
    if n == 0 {
        1
    } else {
        256 * pow256((n - 1) as nat)
    }
}

/// The unsigned number that bytes denote, most significant byte first.
pub open spec fn be_value(s: Seq<u8>) -> nat
    decreases s.len(),
{
    if s.len() == 0 {
        0
    } else {
        s[0] as nat * pow256((s.len() - 1) as nat) + be_value(s.drop_first())
    }
}

proof fn lemma_be_value_bound(s: Seq<u8>)
    ensures
        be_value(s) < pow256(s.len()),
    decreases s.len(),
{
    if s.len() > 0 {
        lemma_be_value_bound(s.drop_first());
        let p = pow256((s.len() - 1) as nat);
        assert(s[0] as nat * p <= 255 * p) by (nonlinear_arith)
            requires
                s[0] as nat <= 255,
        ;
    }
}

/// A hash meets a difficulty target exactly when, read as big-endian unsigned
/// numbers of the same width, the hash is at most the target.
pub proof fn lemma_difficulty_is_numeric(h: Seq<u8>, d: Seq<u8>)
    requires
        h.len() == d.len(),
    ensures
        lex_le(h, d) <==> be_value(h) <= be_value(d),
    decreases h.len(),
{
    if h.len() > 0 {
        let p = pow256((h.len() - 1) as nat);
        lemma_be_value_bound(h.drop_first());
        lemma_be_value_bound(d.drop_first());
        lemma_difficulty_is_numeric(h.drop_first(), d.drop_first());
        if h[0] < d[0] {
            assert(h[0] as nat * p + p <= d[0] as nat * p) by (nonlinear_arith)
                requires
                    (h[0] as nat) < d[0] as nat,
            ;
        } else if h[0] > d[0] {
            assert(d[0] as nat * p + p <= h[0] as nat * p) by (nonlinear_arith)
                requires
                    (d[0] as nat) < h[0] as nat,
            ;
        }
    }
}

/// Whether `value`, compared byte by byte from index 0, is at most `difficulty`.
pub fn meets_difficulty(value: &[u8; 32], difficulty: &[u8; 32]) -> (r: bool)
    ensures
        r == lex_le(value@, difficulty@),
        r == (be_value(value@) <= be_value(difficulty@)),
{
    proof {
        lemma_difficulty_is_numeric(value@, difficulty@);
        assert(value@.subrange(0, 32) == value@);
        assert(difficulty@.subrange(0, 32) == difficulty@);
    }
    let mut i: usize = 0;
    while i < 32
        invariant
            i <= 32,
            lex_le(value@, difficulty@) == (be_value(value@) <= be_value(difficulty@)),
            lex_le(value@, difficulty@) == lex_le(
                value@.subrange(i as int, 32),
                difficulty@.subrange(i as int, 32),
            ),
        decreases 32 - i,
    {
        assert(value@.subrange(i as int, 32).drop_first() == value@.subrange(i + 1, 32));
        assert(difficulty@.subrange(i as int, 32).drop_first() == difficulty@.subrange(i + 1, 32));
        if value[i] < difficulty[i] {
            return true;
        }
        if value[i] > difficulty[i] {
            return false;
        }
        i = i + 1;
    }
    true
}

/// SHA-256 of the header encoding.
pub fn hash_header(header: &Header) -> (r: [u8; 32])
    ensures
        r@ == sha256_of(header_bytes(*header)),
{
    let data = encode_header(header);
    hash(data.as_slice())
}

pub fn txn_hash(txn: &Txn) -> (r: [u8; 32])
    ensures
        r@ == sha256_of(txn_bytes(*txn)),
{
    let data = encode_txn(txn);
    hash(data.as_slice())
}

pub fn name_change_hash(change: &RenameOp) -> (r: [u8; 32])
    ensures
        r@ == sha256_of(rename_bytes(*change)),
{
    let data = encode_name_change(change);
    hash(data.as_slice())
}

// ---- Merkle commitment ----

/// One level up the tree: adjacent pairs hashed together, the last leaf paired
/// with itself when the count is odd.
pub open spec fn merkle_level(h: Seq<Seq<u8>>) -> Seq<Seq<u8>> {
    Seq::new(
        ((h.len() + 1) / 2) as nat,
        |i: int|
            sha256_of(h[2 * i] + (if 2 * i + 1 < h.len() {
                h[2 * i + 1]
            } else {
                h[2 * i]
            })),
    )
}

pub open spec fn merkle_reduce(h: Seq<Seq<u8>>) -> Seq<u8>
    decreases h.len(),
{
    if h.len() <= 1 {
        if h.len() == 0 {
            Seq::new(32, |i: int| 0u8)
        } else {
            h[0]
        }
    } else {
        merkle_reduce(merkle_level(h))
    }
}

/// Leaf hashes: transactions first, then renames, each in block order.
pub open spec fn merkle_leaves(txns: Seq<Txn>, renames: Seq<RenameOp>) -> Seq<Seq<u8>> {
    txns.map_values(|t: Txn| sha256_of(txn_bytes(t))) + renames.map_values(
        |r: RenameOp| sha256_of(rename_bytes(r)),
    )
}

pub open spec fn merkle_spec(txns: Seq<Txn>, renames: Seq<RenameOp>) -> Seq<u8> {
    merkle_reduce(merkle_leaves(txns, renames))
}

fn hash_pair(left: &[u8; 32], right: &[u8; 32]) -> (r: [u8; 32])
    ensures
        r@ == sha256_of(left@ + right@),
{
    let mut data: Vec<u8> = Vec::new();
    crate::codec::push_bytes(&mut data, left.as_slice());
    crate::codec::push_bytes(&mut data, right.as_slice());
    hash(data.as_slice())
}

pub open spec fn views32(v: Seq<[u8; 32]>) -> Seq<Seq<u8>> {
    v.map_values(|a: [u8; 32]| a@)
}

proof fn lemma_views32_push(v: Seq<[u8; 32]>, h: [u8; 32])
    ensures
        views32(v.push(h)) == views32(v).push(h@),
{
    assert(views32(v.push(h)) =~= views32(v).push(h@));
}

/// Merkle root over the transaction hashes followed by the rename hashes; all zero
/// when both lists are empty.
pub fn merkle_root(txn_list: &Vec<Txn>, name_changes: &Vec<RenameOp>) -> (r: [u8; 32])
    ensures
        r@ == merkle_spec(txn_list@, name_changes@),
{
    let ghost leaves = merkle_leaves(txn_list@, name_changes@);
    let mut hashes: Vec<[u8; 32]> = Vec::new();
    let mut i: usize = 0;
    while i < txn_list.len()
        invariant
            i <= txn_list@.len(),
            leaves == merkle_leaves(txn_list@, name_changes@),
            views32(hashes@) == leaves.subrange(0, i as int),
        decreases txn_list@.len() - i,
    {
        let h = txn_hash(&txn_list[i]);
        let ghost prev = hashes@;
        hashes.push(h);
        proof {
            lemma_views32_push(prev, h);
            assert(leaves.subrange(0, i + 1) =~= leaves.subrange(0, i as int).push(leaves[i as int]));
        }
        assert(leaves[i as int] == sha256_of(txn_bytes(txn_list@[i as int])));
        assert(views32(hashes@) =~= leaves.subrange(0, i + 1));
        i = i + 1;
    }
    let n = txn_list.len();
    let mut j: usize = 0;
    while j < name_changes.len()
        invariant
            n == txn_list@.len(),
            j <= name_changes@.len(),
            leaves == merkle_leaves(txn_list@, name_changes@),
            views32(hashes@) == leaves.subrange(0, n + j),
        decreases name_changes@.len() - j,
    {
        let h = name_change_hash(&name_changes[j]);
        let ghost prev = hashes@;
        hashes.push(h);
        proof {
            lemma_views32_push(prev, h);
            assert(leaves.subrange(0, n + j + 1) =~= leaves.subrange(0, n + j).push(leaves[n + j]));
        }
        assert(leaves[n + j] == sha256_of(rename_bytes(name_changes@[j as int])));
        assert(views32(hashes@) =~= leaves.subrange(0, n + j + 1));
        j = j + 1;
    }
    assert(leaves.subrange(0, n + j) == leaves);
    if hashes.len() == 0 {
        let z = [0u8; 32];
        assert(z@ =~= Seq::new(32, |i: int| 0u8));
        return z;
    }
    while hashes.len() > 1
        invariant
            hashes@.len() >= 1,
            merkle_reduce(views32(hashes@)) == merkle_reduce(leaves),
        decreases hashes@.len(),
    {
        let ghost level = views32(hashes@);
        let len = hashes.len();
        let half = (len - 1) / 2 + 1;
        let mut next: Vec<[u8; 32]> = Vec::new();
        let mut p: usize = 0;
        while p < half
            invariant
                level == views32(hashes@),
                len == hashes@.len(),
                len > 1,
                half == (len + 1) / 2,
                p <= half,
                views32(next@) == merkle_level(level).subrange(0, p as int),
            decreases half - p,
        {
            let l = 2 * p;
            let r = if l + 1 < len {
                l + 1
            } else {
                l
            };
            let h = hash_pair(&hashes[l], &hashes[r]);
            let ghost prev = next@;
            next.push(h);
            proof {
                lemma_views32_push(prev, h);
                let lv = merkle_level(level);
                assert(lv.subrange(0, p + 1) =~= lv.subrange(0, p as int).push(lv[p as int]));
            }
            assert(level[l as int] == hashes@[l as int]@);
            assert(level[r as int] == hashes@[r as int]@);
            assert(views32(next@) =~= merkle_level(level).subrange(0, p + 1));
            p = p + 1;
        }
        assert(views32(next@) =~= merkle_level(level));
        hashes = next;
    }
    assert(views32(hashes@)[0] == hashes@[0]@);
    hashes[0]
}

/// The Merkle root is a function of the ordered encodings alone: lists whose
/// transactions and renames encode to the same bytes, position by position, have the
/// same root.
pub proof fn lemma_merkle_root_deterministic(
    t1: Seq<Txn>,
    r1: Seq<RenameOp>,
    t2: Seq<Txn>,
    r2: Seq<RenameOp>,
)
    requires
        t1.len() == t2.len(),
        r1.len() == r2.len(),
        forall|i: int| 0 <= i < t1.len() ==> txn_bytes(t1[i]) == txn_bytes(t2[i]),
        forall|i: int| 0 <= i < r1.len() ==> rename_bytes(r1[i]) == rename_bytes(r2[i]),
    ensures
        merkle_spec(t1, r1) == merkle_spec(t2, r2),
{
    assert(merkle_leaves(t1, r1) =~= merkle_leaves(t2, r2));
}

// ---- sizes and spending ----

pub open spec fn amounts_sum(rs: Seq<(Address, u64)>) -> nat
    decreases rs.len(),
{
    if rs.len() == 0 {
        0
    } else {
        amounts_sum(rs.drop_last()) + rs.last().1 as nat
    }
}

/// What a transaction takes from its sender: every receiver's amount plus the fee.
pub open spec fn spend_of(t: Txn) -> nat {
    amounts_sum(t.recievers@) + t.fee as nat
}

/// Sum of the receivers' amounts and the fee; `None` when it exceeds `u64`.
pub(crate) fn checked_total_spend(txn: &Txn) -> (r: Option<u64>)
    ensures
        r == (if spend_of(*txn) <= u64::MAX {
            Some(spend_of(*txn) as u64)
        } else {
            None::<u64>
        }),
{
    let mut sum: u64 = 0;
    let mut i: usize = 0;
    while i < txn.recievers.len()
        invariant
            i <= txn.recievers@.len(),
            sum == amounts_sum(txn.recievers@.subrange(0, i as int)),
        decreases txn.recievers@.len() - i,
    {
        proof {
            assert(txn.recievers@.subrange(0, i + 1).drop_last() == txn.recievers@.subrange(
                0,
                i as int,
            ));
            lemma_amounts_prefix_le(txn.recievers@, i + 1);
        }
        let a = txn.recievers[i].1;
        if sum > u64::MAX - a {
            return None;
        }
        sum = sum + a;
        i = i + 1;
    }
    assert(txn.recievers@.subrange(0, i as int) == txn.recievers@);
    if sum > u64::MAX - txn.fee {
        return None;
    }
    Some(sum + txn.fee)
}

proof fn lemma_amounts_prefix_le(rs: Seq<(Address, u64)>, k: int)
    requires
        0 <= k <= rs.len(),
    ensures
        amounts_sum(rs.subrange(0, k)) <= amounts_sum(rs),
    decreases rs.len(),
{
    if k < rs.len() {
        assert(rs.drop_last().subrange(0, k) == rs.subrange(0, k));
        lemma_amounts_prefix_le(rs.drop_last(), k);
    } else {
        assert(rs.subrange(0, k) == rs);
    }
}

/// Sum of the receivers' amounts and the fee.
pub fn txn_total_spend(txn: &Txn) -> (r: u64)
    requires
        spend_of(*txn) <= u64::MAX,
    ensures
        r == spend_of(*txn),
{
    match checked_total_spend(txn) {
        Some(s) => s,
        None => 0,
    }
}

pub open spec fn txns_size(ts: Seq<Txn>) -> nat
    decreases ts.len(),
{
    if ts.len() == 0 {
        0
    } else {
        txns_size(ts.drop_last()) + txn_bytes(ts.last()).len()
    }
}

pub open spec fn renames_size(rs: Seq<RenameOp>) -> nat
    decreases rs.len(),
{
    if rs.len() == 0 {
        0
    } else {
        renames_size(rs.drop_last()) + rename_bytes(rs.last()).len()
    }
}

/// Header, a four-byte transaction count, the transactions, a four-byte rename
/// count, the renames.
pub open spec fn block_size_spec(b: Block) -> nat {
    80 + 4 + txns_size(b.txns@) + 4 + renames_size(b.name_changes@)
}

proof fn lemma_txns_size_prefix(ts: Seq<Txn>, k: int)
    requires
        0 <= k <= ts.len(),
    ensures
        txns_size(ts.subrange(0, k)) <= txns_size(ts),
    decreases ts.len(),
{
    if k < ts.len() {
        assert(ts.drop_last().subrange(0, k) == ts.subrange(0, k));
        lemma_txns_size_prefix(ts.drop_last(), k);
    } else {
        assert(ts.subrange(0, k) == ts);
    }
}

proof fn lemma_renames_size_prefix(rs: Seq<RenameOp>, k: int)
    requires
        0 <= k <= rs.len(),
    ensures
        renames_size(rs.subrange(0, k)) <= renames_size(rs),
    decreases rs.len(),
{
    if k < rs.len() {
        assert(rs.drop_last().subrange(0, k) == rs.subrange(0, k));
        lemma_renames_size_prefix(rs.drop_last(), k);
    } else {
        assert(rs.subrange(0, k) == rs);
    }
}

/// Size of a block as framed on the wire.
pub fn block_size(block: &Block) -> (r: usize)
    requires
        block_size_spec(*block) <= usize::MAX,
    ensures
        r == block_size_spec(*block),
{
    let mut size: usize = HEADER_SIZE;
    size = size + 4;
    let mut i: usize = 0;
    while i < block.txns.len()
        invariant
            i <= block.txns@.len(),
            block_size_spec(*block) <= usize::MAX,
            size == 84 + txns_size(block.txns@.subrange(0, i as int)),
        decreases block.txns@.len() - i,
    {
        proof {
            assert(block.txns@.subrange(0, i + 1).drop_last() == block.txns@.subrange(0, i as int));
            lemma_txns_size_prefix(block.txns@, i + 1);
        }
        size = size + encode_txn(&block.txns[i]).len();
        i = i + 1;
    }
    assert(block.txns@.subrange(0, i as int) == block.txns@);
    size = size + 4;
    let mut j: usize = 0;
    while j < block.name_changes.len()
        invariant
            j <= block.name_changes@.len(),
            block_size_spec(*block) <= usize::MAX,
            size == 88 + txns_size(block.txns@) + renames_size(
                block.name_changes@.subrange(0, j as int),
            ),
        decreases block.name_changes@.len() - j,
    {
        proof {
            assert(block.name_changes@.subrange(0, j + 1).drop_last()
                == block.name_changes@.subrange(0, j as int));
            lemma_renames_size_prefix(block.name_changes@, j + 1);
        }
        size = size + encode_name_change(&block.name_changes[j]).len();
        j = j + 1;
    }
    assert(block.name_changes@.subrange(0, j as int) == block.name_changes@);
    size
}

// ---- coinbase ----

/// The block reward for a block of `b` bytes when the median size is `m`: the full
/// reward within 10,000 bytes over the median, then `floor(200,000,000 * p^2) * 1000`
/// with `p = 1 - (b - 10,000 - m) / m`, and nothing once `p <= 0`.
pub open spec fn coinbase_for(b: int, m: int) -> int {
    if b - m <= 10_000 || b - 10_000 <= m {
        DEFAULT_COINBASE as int
    } else {
        let q = 2 * m + 10_000 - b;
        if q <= 0 {
            0
        } else {
            (200_000_000 * q * q / (m * m)) * 1000
        }
    }
}

/// The block reward, computed exactly in integers: the result is the exact floor of
/// `200,000,000 * p^2`, times 1000. A recipe that evaluates `p` in 64-bit floating point
/// and truncates can differ from it by one step of 1000 where rounding crosses a whole
/// number.
pub fn calc_coinbase(block_size: usize, median_block_size: usize) -> (r: u64)
    ensures
        r == coinbase_for(block_size as int, median_block_size as int),
{
    let b = block_size as u128;
    let m = median_block_size as u128;
    if b <= m + 10_000 {
        return DEFAULT_COINBASE;
    }
    if b >= 2 * m + 10_000 {
        return 0;
    }
    let q: u128 = 2 * m + 10_000 - b;
    assert(0 < q < m);
    let u: u128 = 200_000_000 * q;
    let ghost ui = u as int;
    let ghost qi = q as int;
    let ghost mi = m as int;
    proof {
        lemma_fundamental_div_mod(ui, mi);
        assert(ui % mi < mi);
        assert((ui % mi) * qi < mi * qi) by (nonlinear_arith)
            requires
                0 <= ui % mi < mi,
                qi > 0,
        ;
        assert(mi * qi <= 0xffff_ffff_ffff_ffff * 0xffff_ffff_ffff_ffff) by (nonlinear_arith)
            requires
                0 < qi < mi <= 0xffff_ffff_ffff_ffff,
        ;
        lemma_div_is_ordered(ui, 200_000_000 * mi, mi);
        assert((200_000_000 * mi) / mi == 200_000_000) by {
            vstd::arithmetic::div_mod::lemma_div_multiples_vanish(200_000_000, mi);
        }
        assert((ui / mi) * qi <= 200_000_000 * qi) by (nonlinear_arith)
            requires
                ui / mi <= 200_000_000,
                qi > 0,
        ;
    }
    let t1: u128 = (u / m) * q;
    let t2: u128 = ((u % m) * q) / m;
    proof {
        // u * q == (u / m) * q * m + (u % m) * q, so dividing by m splits as below.
        assert(ui * qi == ((ui / mi) * qi) * mi + (ui % mi) * qi) by (nonlinear_arith)
            requires
                ui == mi * (ui / mi) + ui % mi,
        ;
        lemma_hoist_over_denominator((ui % mi) * qi, (ui / mi) * qi, mi as nat);
        assert(t1 + t2 == (ui * qi) / mi);
        assert((ui % mi) * qi / mi < qi) by {
            lemma_multiply_divide_lt((ui % mi) * qi, mi, qi);
        }
        assert(t1 + t2 <= 200_000_000 * qi + qi);
        lemma_div_denominator(ui * qi, mi, mi);
        assert(ui * qi < 200_000_000 * (mi * mi)) by (nonlinear_arith)
            requires
                ui == 200_000_000 * qi,
                0 < qi < mi,
        ;
        lemma_multiply_divide_lt(ui * qi, mi * mi, 200_000_000);
        assert(200_000_000 * qi * qi == ui * qi);
    }
    let res: u128 = (t1 + t2) / m;
    assert(res < 200_000_000);
    (res as u64) * 1000
}

// ---- rolling median ----

pub open spec fn usize_leq() -> spec_fn(usize, usize) -> bool {
    |x: usize, y: usize| x <= y
}

/// The size at sorted index 50 of the hundred recorded sizes.
pub open spec fn median_spec(values: Seq<usize>) -> usize {
    values.sort_by(usize_leq())[50]
}

proof fn lemma_usize_leq_total()
    ensures
        total_ordering(usize_leq()),
{
}

/// The element at sorted index 50 (the upper of the two middle values).
pub fn median_block_size(values: &[usize; 100]) -> (r: usize)
    ensures
        r == median_spec(values@),
{
    broadcast use vstd::seq_lib::group_to_multiset_ensures;

    let mut sorted: Vec<usize> = Vec::new();
    let mut i: usize = 0;
    while i < 100
        invariant
            i <= 100,
            values@.len() == 100,
            sorted@.len() == i,
            sorted_by(sorted@, usize_leq()),
            sorted@.to_multiset() == values@.subrange(0, i as int).to_multiset(),
        decreases 100 - i,
    {
        let v = values[i];
        let mut pos: usize = 0;
        while pos < sorted.len() && sorted[pos] <= v
            invariant
                pos <= sorted@.len(),
                forall|k: int| 0 <= k < pos ==> sorted@[k] <= v,
            decreases sorted@.len() - pos,
        {
            pos = pos + 1;
        }
        let ghost before = sorted@;
        sorted.insert(pos, v);
        proof {
            assert(sorted@ == before.insert(pos as int, v));
            vstd::seq_lib::to_multiset_insert(before, pos as int, v);
            vstd::seq_lib::to_multiset_build(values@.subrange(0, i as int), v);
            assert(values@.subrange(0, i + 1) =~= values@.subrange(0, i as int).push(v));

            assert forall|a: int, b: int| 0 <= a < b < sorted@.len() implies #[trigger] usize_leq()(
                sorted@[a],
                sorted@[b],
            ) by {
                if pos < before.len() {
                    assert(v < before[pos as int]);
                }
                if a < pos && b > pos {
                    assert(before[a] <= v);
                }
                if a == pos && b > pos {
                    assert(usize_leq()(before[pos as int], before[b - 1]));
                }
                if b == pos && a < pos {
                    assert(before[a] <= v);
                }
                if a > pos {
                    assert(usize_leq()(before[a - 1], before[b - 1]));
                }
                if b < pos {
                    assert(usize_leq()(before[a], before[b]));
                }
                if a < pos && b > pos {
                    assert(usize_leq()(before[a], before[b - 1]));
                }
            }
        }
        i = i + 1;
    }
    proof {
        assert(values@.subrange(0, 100) == values@);
        lemma_usize_leq_total();
        values@.lemma_sort_by_ensures(usize_leq());
        vstd::seq_lib::lemma_sorted_unique(sorted@, values@.sort_by(usize_leq()), usize_leq());
    }
    sorted[50]
}

} // verus!
