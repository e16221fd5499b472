use vstd::prelude::*;
use crate::types::{str_bytes, Address, Header, RenameOp, Txn, HEADER_SIZE};

verus! {

/// The `n` low bytes of `x`, least significant first.
pub open spec fn le_bytes(x: nat, n: nat) -> Seq<u8>
    decreases n,
{
    if n == 0 {
        Seq::empty()
    } else {
        seq![(x % 256) as u8] + le_bytes(x / 256, (n - 1) as nat)
    }
}

pub proof fn lemma_le_bytes_len(x: nat, n: nat)
    ensures
        le_bytes(x, n).len() == n,
    decreases n,
{
    if n > 0 {
        lemma_le_bytes_len(x / 256, (n - 1) as nat);
    }
}

/// Little-endian encoding of a `u64`.
pub open spec fn u64_bytes(x: u64) -> Seq<u8> {
    le_bytes(x as nat, 8)
}

/// A length written into a single byte (the byte keeps the low eight bits).
pub open spec fn len_byte(n: nat) -> u8 {
    (n % 256) as u8
}

pub open spec fn header_bytes(h: Header) -> Seq<u8> {
    h.prev_block_hash@ + h.merkle_root@ + u64_bytes(h.time) + u64_bytes(h.nonce)
}

pub open spec fn address_bytes(a: Address) -> Seq<u8> {
    match a {
        Address::Key(k) => seq![0u8] + k@,
        Address::Name(n) => seq![1u8, len_byte(str_bytes(n).len())] + str_bytes(n),
    }
}

pub open spec fn receiver_bytes(r: (Address, u64)) -> Seq<u8> {
    address_bytes(r.0) + u64_bytes(r.1)
}

pub open spec fn receivers_bytes(rs: Seq<(Address, u64)>) -> Seq<u8>
    decreases rs.len(),
{
    if rs.len() == 0 {
        Seq::empty()
    } else {
        receivers_bytes(rs.drop_last()) + receiver_bytes(rs.last())
    }
}

/// The encoding of `t` with `sig` in place of its signature.
pub open spec fn txn_bytes_with_sig(t: Txn, sig: Seq<u8>) -> Seq<u8> {
    address_bytes(t.sender) + seq![len_byte(t.recievers@.len())] + receivers_bytes(t.recievers@)
        + sig + u64_bytes(t.fee)
}

pub open spec fn txn_bytes(t: Txn) -> Seq<u8> {
    txn_bytes_with_sig(t, t.signature@)
}

/// The bytes a transaction signature covers: the encoding with a zeroed signature.
pub open spec fn txn_signed_bytes(t: Txn) -> Seq<u8> {
    txn_bytes_with_sig(t, Seq::new(64, |i: int| 0u8))
}

/// The encoding of `op` with `sig` in place of its signature.
pub open spec fn rename_bytes_with_sig(op: RenameOp, sig: Seq<u8>) -> Seq<u8> {
    op.pk@ + sig + seq![len_byte(str_bytes(op.new_name).len())] + str_bytes(op.new_name)
        + u64_bytes(op.fee)
}

pub open spec fn rename_bytes(op: RenameOp) -> Seq<u8> {
    rename_bytes_with_sig(op, op.sig@)
}

/// The bytes a rename signature covers: the encoding with a zeroed signature.
pub open spec fn rename_signed_bytes(op: RenameOp) -> Seq<u8> {
    rename_bytes_with_sig(op, Seq::new(64, |i: int| 0u8))
}

fn push_u64_le(data: &mut Vec<u8>, x: u64)
    ensures
        final(data)@ == old(data)@ + u64_bytes(x),
{
    let ghost start = data@;
    let mut v: u64 = x;
    let mut i: usize = 0;
    while i < 8
        invariant
            i <= 8,
            data@.len() == start.len() + i,
            data@ + le_bytes(v as nat, (8 - i) as nat) == start + u64_bytes(x),
        decreases 8 - i,
    {
        let ghost before = data@;
        data.push((v % 256) as u8);
        proof {
            let rest = le_bytes((v / 256) as nat, (8 - i - 1) as nat);
            assert(le_bytes(v as nat, (8 - i) as nat) == seq![(v % 256) as u8] + rest);
            assert(data@ + rest == before + (seq![(v % 256) as u8] + rest));
        }
        v = v / 256;
        i = i + 1;
    }
    assert(le_bytes(v as nat, 0) == Seq::<u8>::empty());
    assert(data@ == data@ + Seq::<u8>::empty());
}

pub(crate) fn push_bytes(data: &mut Vec<u8>, src: &[u8])
    ensures
        final(data)@ == old(data)@ + src@,
{
    let ghost start = data@;
    let mut i: usize = 0;
    while i < src.len()
        invariant
            i <= src@.len(),
            data@ == start + src@.subrange(0, i as int),
        decreases src@.len() - i,
    {
        data.push(src[i]);
        proof {
            assert(src@.subrange(0, i + 1) == src@.subrange(0, i as int).push(src@[i as int]));
        }
        i = i + 1;
    }
    assert(src@.subrange(0, src@.len() as int) == src@);
}

/// Copies `src` into `dst` starting at `at`.
fn write_at<const N: usize>(dst: &mut [u8; 80], at: usize, src: &[u8; N])
    requires
        at + N <= 80,
    ensures
        final(dst)@ == old(dst)@.subrange(0, at as int) + src@ + old(dst)@.subrange(
            at + N,
            80,
        ),
{
    let ghost start = dst@;
    let mut i: usize = 0;
    while i < N
        invariant
            i <= N,
            at + N <= 80,
            dst@.len() == 80,
            forall|j: int| 0 <= j < at ==> dst@[j] == start[j],
            forall|j: int| 0 <= j < i ==> dst@[at + j] == src@[j],
            forall|j: int| at + i <= j < 80 ==> dst@[j] == start[j],
        decreases N - i,
    {
        dst[at + i] = src[i];
        i = i + 1;
    }
    assert(dst@ =~= start.subrange(0, at as int) + src@ + start.subrange(at + N, 80));
}

fn u64_le_array(x: u64) -> (r: [u8; 8])
    ensures
        r@ == u64_bytes(x),
{
    let mut v: Vec<u8> = Vec::new();
    push_u64_le(&mut v, x);
    proof {
        lemma_le_bytes_len(x as nat, 8);
    }
    assert(v@ =~= seq![v@[0], v@[1], v@[2], v@[3], v@[4], v@[5], v@[6], v@[7]]);
    [v[0], v[1], v[2], v[3], v[4], v[5], v[6], v[7]]
}

/// The 80-byte header encoding: previous hash, Merkle root, time, nonce.
pub fn encode_header(header: &Header) -> (r: [u8; HEADER_SIZE])
    ensures
        r@ == header_bytes(*header),
{
    let mut data = [0u8; 80];
    write_at(&mut data, 0, &header.prev_block_hash);
    write_at(&mut data, 32, &header.merkle_root);
    let t = u64_le_array(header.time);
    write_at(&mut data, 64, &t);
    let n = u64_le_array(header.nonce);
    write_at(&mut data, 72, &n);
    assert(data@ =~= header_bytes(*header));
    data
}

/// Appends the encoding of `address` to `data`.
pub fn encode_address(address: &Address, data: &mut Vec<u8>)
    ensures
        final(data)@ == old(data)@ + address_bytes(*address),
{
    let ghost start = data@;
    match address {
        Address::Name(n) => {
            let b = n.as_str().as_bytes();
            data.push(1);
            data.push((b.len() % 256) as u8);
            push_bytes(data, b);
            assert(data@ =~= start + address_bytes(*address));
        },
        Address::Key(k) => {
            data.push(0);
            push_bytes(data, k.as_slice());
            assert(data@ =~= start + address_bytes(*address));
        },
    }
}

/// Canonical transaction encoding: sender, receiver count, receivers, signature, fee.
pub fn encode_txn(txn: &Txn) -> (r: Vec<u8>)
    ensures
        r@ == txn_bytes(*txn),
{
    encode_txn_with_sig(txn, &txn.signature)
}

/// The encoding that a transaction's signature covers.
pub fn encode_txn_unsigned(txn: &Txn) -> (r: Vec<u8>)
    ensures
        r@ == txn_signed_bytes(*txn),
{
    let zero = [0u8; 64];
    assert(zero@ =~= Seq::new(64, |i: int| 0u8));
    encode_txn_with_sig(txn, &zero)
}

fn encode_txn_with_sig(txn: &Txn, sig: &[u8; 64]) -> (r: Vec<u8>)
    ensures
        r@ == txn_bytes_with_sig(*txn, sig@),
{
    let mut data: Vec<u8> = Vec::new();
    encode_address(&txn.sender, &mut data);
    data.push((txn.recievers.len() % 256) as u8);
    let ghost head = data@;
    let mut i: usize = 0;
    while i < txn.recievers.len()
        invariant
            i <= txn.recievers@.len(),
            data@ == head + receivers_bytes(txn.recievers@.subrange(0, i as int)),
        decreases txn.recievers@.len() - i,
    {
        let ghost before = data@;
        encode_address(&txn.recievers[i].0, &mut data);
        push_u64_le(&mut data, txn.recievers[i].1);
        proof {
            let s = txn.recievers@.subrange(0, i + 1);
            assert(s.drop_last() == txn.recievers@.subrange(0, i as int));
            assert(data@ =~= head + receivers_bytes(s));
        }
        i = i + 1;
    }
    assert(txn.recievers@.subrange(0, txn.recievers@.len() as int) == txn.recievers@);
    push_bytes(&mut data, sig.as_slice());
    push_u64_le(&mut data, txn.fee);
    assert(data@ =~= txn_bytes_with_sig(*txn, sig@));
    data
}

/// Canonical rename encoding: key, signature, name length, name, fee.
pub fn encode_name_change(change: &RenameOp) -> (r: Vec<u8>)
    ensures
        r@ == rename_bytes(*change),
{
    encode_rename_with_sig(change, &change.sig)
}

/// The encoding that a rename's signature covers.
pub fn encode_name_change_unsigned(change: &RenameOp) -> (r: Vec<u8>)
    ensures
        r@ == rename_signed_bytes(*change),
{
    let zero = [0u8; 64];
    assert(zero@ =~= Seq::new(64, |i: int| 0u8));
    encode_rename_with_sig(change, &zero)
}

fn encode_rename_with_sig(change: &RenameOp, sig: &[u8; 64]) -> (r: Vec<u8>)
    ensures
        r@ == rename_bytes_with_sig(*change, sig@),
{
    let mut data: Vec<u8> = Vec::new();
    push_bytes(&mut data, change.pk.as_slice());
    push_bytes(&mut data, sig.as_slice());
    let b = change.new_name.as_str().as_bytes();
    data.push((b.len() % 256) as u8);
    push_bytes(&mut data, b);
    push_u64_le(&mut data, change.fee);
    assert(data@ =~= rename_bytes_with_sig(*change, sig@));
    data
}

// ---- the transaction encoding is injective ----

/// What identifies an address: its key, or the characters of its name.
pub open spec fn address_model(a: Address) -> (Option<[u8; 32]>, Seq<char>) {
    match a {
        Address::Key(k) => (Some(k), Seq::empty()),
        Address::Name(n) => (None, n@),
    }
}

/// What identifies a transaction: sender, receivers with amounts, signature and fee.
pub open spec fn txn_model(t: Txn) -> ((Option<[u8; 32]>, Seq<char>), Seq<((Option<[u8; 32]>, Seq<char>), u64)>, [u8; 64], u64) {
    (
        address_model(t.sender),
        t.recievers@.map_values(|r: (Address, u64)| (address_model(r.0), r.1)),
        t.signature,
        t.fee,
    )
}

/// A name fits its one-byte length.
pub open spec fn address_wf(a: Address) -> bool {
    match a {
        Address::Key(_) => true,
        Address::Name(n) => str_bytes(n).len() <= 255,
    }
}

/// Names fit their length bytes and the receiver count fits its byte.
pub open spec fn txn_wf(t: Txn) -> bool {
    &&& address_wf(t.sender)
    &&& t.recievers@.len() <= 255
    &&& forall|i: int| 0 <= i < t.recievers@.len() ==> address_wf(#[trigger] t.recievers@[i].0)
}

proof fn lemma_split<T>(a: Seq<T>, x: Seq<T>, b: Seq<T>, y: Seq<T>)
    requires
        a + x == b + y,
        a.len() == b.len(),
    ensures
        a == b,
        x == y,
{
    assert(a =~= (a + x).subrange(0, a.len() as int));
    assert(b =~= (b + y).subrange(0, b.len() as int));
    assert(x =~= (a + x).subrange(a.len() as int, (a + x).len() as int));
    assert(y =~= (b + y).subrange(b.len() as int, (b + y).len() as int));
}

proof fn lemma_pow256_8()
    ensures
        crate::rules::pow256(8) == 0x1_0000_0000_0000_0000,
{
    assert(crate::rules::pow256(0) == 1);
    assert(crate::rules::pow256(1) == 0x100);
    assert(crate::rules::pow256(2) == 0x1_0000);
    assert(crate::rules::pow256(3) == 0x100_0000);
    assert(crate::rules::pow256(4) == 0x1_0000_0000);
    assert(crate::rules::pow256(5) == 0x100_0000_0000);
    assert(crate::rules::pow256(6) == 0x1_0000_0000_0000);
    assert(crate::rules::pow256(7) == 0x100_0000_0000_0000);
}

proof fn lemma_le_bytes_injective(x: nat, y: nat, n: nat)
    requires
        x < crate::rules::pow256(n),
        y < crate::rules::pow256(n),
        le_bytes(x, n) == le_bytes(y, n),
    ensures
        x == y,
    decreases n,
{
    if n > 0 {
        let p = crate::rules::pow256((n - 1) as nat);
        lemma_le_bytes_len(x / 256, (n - 1) as nat);
        lemma_le_bytes_len(y / 256, (n - 1) as nat);
        lemma_split(
            seq![(x % 256) as u8],
            le_bytes(x / 256, (n - 1) as nat),
            seq![(y % 256) as u8],
            le_bytes(y / 256, (n - 1) as nat),
        );
        assert(seq![(x % 256) as u8][0] == seq![(y % 256) as u8][0]);
        assert(x % 256 == y % 256);
        assert(x / 256 < p) by {
            vstd::arithmetic::div_mod::lemma_multiply_divide_lt(x as int, 256, p as int);
        }
        assert(y / 256 < p) by {
            vstd::arithmetic::div_mod::lemma_multiply_divide_lt(y as int, 256, p as int);
        }
        lemma_le_bytes_injective(x / 256, y / 256, (n - 1) as nat);
        vstd::arithmetic::div_mod::lemma_fundamental_div_mod(x as int, 256);
        vstd::arithmetic::div_mod::lemma_fundamental_div_mod(y as int, 256);
    }
}

proof fn lemma_u64_prefix(a: u64, x: Seq<u8>, b: u64, y: Seq<u8>)
    requires
        u64_bytes(a) + x == u64_bytes(b) + y,
    ensures
        a == b,
        x == y,
{
    lemma_le_bytes_len(a as nat, 8);
    lemma_le_bytes_len(b as nat, 8);
    lemma_split(u64_bytes(a), x, u64_bytes(b), y);
    lemma_pow256_8();
    lemma_le_bytes_injective(a as nat, b as nat, 8);
}

proof fn lemma_address_prefix(a1: Address, x1: Seq<u8>, a2: Address, x2: Seq<u8>)
    requires
        address_wf(a1),
        address_wf(a2),
        address_bytes(a1) + x1 == address_bytes(a2) + x2,
    ensures
        address_model(a1) == address_model(a2),
        x1 == x2,
{
    let s = address_bytes(a1) + x1;
    assert(s[0] == address_bytes(a1)[0]);
    assert(s[0] == address_bytes(a2)[0]);
    match a1 {
        Address::Key(k1) => {
            match a2 {
                Address::Key(k2) => {
                    lemma_split(address_bytes(a1), x1, address_bytes(a2), x2);
                    assert(k1@ =~= address_bytes(a1).subrange(1, 33));
                    assert(k2@ =~= address_bytes(a2).subrange(1, 33));
                    assert(k1 =~= k2);
                },
                Address::Name(_) => {},
            }
        },
        Address::Name(n1) => {
            match a2 {
                Address::Key(_) => {},
                Address::Name(n2) => {
                    assert(s[1] == address_bytes(a1)[1]);
                    assert(s[1] == address_bytes(a2)[1]);
                    assert(str_bytes(n1).len() == str_bytes(n2).len());
                    lemma_split(address_bytes(a1), x1, address_bytes(a2), x2);
                    assert(str_bytes(n1) =~= address_bytes(a1).subrange(2, address_bytes(a1).len() as int));
                    assert(str_bytes(n2) =~= address_bytes(a2).subrange(2, address_bytes(a2).len() as int));
                    vstd::utf8::encode_utf8_decode_utf8(n1@);
                    vstd::utf8::encode_utf8_decode_utf8(n2@);
                },
            }
        },
    }
}

proof fn lemma_receivers_front(rs: Seq<(Address, u64)>)
    requires
        rs.len() > 0,
    ensures
        receivers_bytes(rs) == receiver_bytes(rs[0]) + receivers_bytes(rs.drop_first()),
    decreases rs.len(),
{
    if rs.len() == 1 {
        assert(rs.drop_last() =~= Seq::<(Address, u64)>::empty());
        assert(rs.drop_first() =~= Seq::<(Address, u64)>::empty());
        assert(receivers_bytes(rs.drop_last()) == Seq::<u8>::empty());
        assert(receivers_bytes(rs.drop_first()) == Seq::<u8>::empty());
        assert(rs.last() == rs[0]);
        assert(receivers_bytes(rs) =~= receiver_bytes(rs[0]));
        assert(receivers_bytes(rs) =~= receiver_bytes(rs[0]) + receivers_bytes(rs.drop_first()));
    } else {
        let dl = rs.drop_last();
        lemma_receivers_front(dl);
        assert(rs.drop_first().drop_last() == dl.drop_first());
        assert(rs.drop_first().last() == rs.last());
        assert(dl[0] == rs[0]);
        assert(receivers_bytes(rs) =~= receiver_bytes(rs[0]) + receivers_bytes(rs.drop_first()));
    }
}

proof fn lemma_receivers_prefix(
    r1: Seq<(Address, u64)>,
    x1: Seq<u8>,
    r2: Seq<(Address, u64)>,
    x2: Seq<u8>,
)
    requires
        r1.len() == r2.len(),
        forall|i: int| 0 <= i < r1.len() ==> address_wf(#[trigger] r1[i].0),
        forall|i: int| 0 <= i < r2.len() ==> address_wf(#[trigger] r2[i].0),
        receivers_bytes(r1) + x1 == receivers_bytes(r2) + x2,
    ensures
        r1.map_values(|r: (Address, u64)| (address_model(r.0), r.1)) == r2.map_values(
            |r: (Address, u64)| (address_model(r.0), r.1),
        ),
        x1 == x2,
    decreases r1.len(),
{
    if r1.len() == 0 {
        assert(r1.map_values(|r: (Address, u64)| (address_model(r.0), r.1)) =~= r2.map_values(
            |r: (Address, u64)| (address_model(r.0), r.1),
        ));
    } else {
        lemma_receivers_front(r1);
        lemma_receivers_front(r2);
        let t1 = r1.drop_first();
        let t2 = r2.drop_first();
        let rest1 = u64_bytes(r1[0].1) + (receivers_bytes(t1) + x1);
        let rest2 = u64_bytes(r2[0].1) + (receivers_bytes(t2) + x2);
        assert(receivers_bytes(r1) + x1 =~= address_bytes(r1[0].0) + rest1);
        assert(receivers_bytes(r2) + x2 =~= address_bytes(r2[0].0) + rest2);
        lemma_address_prefix(r1[0].0, rest1, r2[0].0, rest2);
        lemma_u64_prefix(r1[0].1, receivers_bytes(t1) + x1, r2[0].1, receivers_bytes(t2) + x2);
        assert forall|i: int| 0 <= i < t1.len() implies address_wf(#[trigger] t1[i].0) by {
            assert(t1[i] == r1[i + 1]);
        }
        assert forall|i: int| 0 <= i < t2.len() implies address_wf(#[trigger] t2[i].0) by {
            assert(t2[i] == r2[i + 1]);
        }
        lemma_receivers_prefix(t1, x1, t2, x2);
        let f = |r: (Address, u64)| (address_model(r.0), r.1);
        assert forall|i: int| 0 <= i < r1.len() implies r1.map_values(f)[i] == r2.map_values(f)[i] by {
            if i > 0 {
                assert(t1.map_values(f)[i - 1] == t2.map_values(f)[i - 1]);
                assert(t1[i - 1] == r1[i]);
                assert(t2[i - 1] == r2[i]);
            }
        }
        assert(r1.map_values(f) =~= r2.map_values(f));
    }
}

/// The transaction encoding is injective: two well-formed transactions with the same
/// bytes have the same sender, receivers, amounts, signature and fee.
pub proof fn lemma_encode_txn_injective(t1: Txn, t2: Txn)
    requires
        txn_wf(t1),
        txn_wf(t2),
        txn_bytes(t1) == txn_bytes(t2),
    ensures
        txn_model(t1) == txn_model(t2),
{
    let tail1 = seq![len_byte(t1.recievers@.len())] + (receivers_bytes(t1.recievers@) + (
    t1.signature@ + u64_bytes(t1.fee)));
    let tail2 = seq![len_byte(t2.recievers@.len())] + (receivers_bytes(t2.recievers@) + (
    t2.signature@ + u64_bytes(t2.fee)));
    assert(txn_bytes(t1) =~= address_bytes(t1.sender) + tail1);
    assert(txn_bytes(t2) =~= address_bytes(t2.sender) + tail2);
    lemma_address_prefix(t1.sender, tail1, t2.sender, tail2);
    lemma_split(
        seq![len_byte(t1.recievers@.len())],
        receivers_bytes(t1.recievers@) + (t1.signature@ + u64_bytes(t1.fee)),
        seq![len_byte(t2.recievers@.len())],
        receivers_bytes(t2.recievers@) + (t2.signature@ + u64_bytes(t2.fee)),
    );
    assert(seq![len_byte(t1.recievers@.len())][0] == seq![len_byte(t2.recievers@.len())][0]);
    assert(t1.recievers@.len() == t2.recievers@.len());
    lemma_receivers_prefix(
        t1.recievers@,
        t1.signature@ + u64_bytes(t1.fee),
        t2.recievers@,
        t2.signature@ + u64_bytes(t2.fee),
    );
    lemma_split(t1.signature@, u64_bytes(t1.fee), t2.signature@, u64_bytes(t2.fee));
    assert(t1.signature =~= t2.signature);
    lemma_u64_prefix(t1.fee, Seq::empty(), t2.fee, Seq::empty());
    assert(u64_bytes(t1.fee) + Seq::<u8>::empty() == u64_bytes(t1.fee));
}

} // verus!
