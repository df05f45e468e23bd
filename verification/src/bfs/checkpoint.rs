use vstd::prelude::*;

use byteorder::BigEndian;
use byteorder::ByteOrder;

verus! {

/// The number that the bytes `s` write in base 256, most significant first.
pub open spec fn be_value(s: Seq<u8>) -> nat
    decreases s.len(),
{
    if s.len() == 0 {
        0
    } else {
        be_value(s.drop_last()) * 256 + s.last() as nat
    }
}

/// The `n` bytes that write `v` in base 256, most significant first (`v` taken modulo
/// `256` to the `n`).
pub open spec fn be_bytes(v: nat, n: nat) -> Seq<u8>
    decreases n,
{
    if n == 0 {
        Seq::empty()
    } else {
        be_bytes(v / 256, (n - 1) as nat).push((v % 256) as u8)
    }
}

/// Reading back the bytes written for `v` gives `v`, when `v` fits in them.
pub proof fn lemma_be_roundtrip(v: nat, n: nat)
    requires
        v < vstd::arithmetic::power::pow(256, n),
    ensures
        be_bytes(v, n).len() == n,
        be_value(be_bytes(v, n)) == v,
    decreases n,
{
    if n == 0 {
        vstd::arithmetic::power::lemma_pow0(256);
    } else {
        vstd::arithmetic::power::lemma_pow_adds(256, 1, (n - 1) as nat);
        vstd::arithmetic::power::lemma_pow1(256);
        let p = vstd::arithmetic::power::pow(256, (n - 1) as nat);
        assert(v / 256 < p) by (nonlinear_arith)
            requires
                v < 256 * p,
        ;
        lemma_be_roundtrip(v / 256, (n - 1) as nat);
        let s = be_bytes(v, n);
        assert(s.drop_last() =~= be_bytes(v / 256, (n - 1) as nat));
        assert(v == (v / 256) * 256 + v % 256) by (nonlinear_arith);
    }
}

/// Eight bytes write a number below `2` to the `64`.
pub proof fn lemma_be_value_bound(s: Seq<u8>)
    ensures
        be_value(s) < vstd::arithmetic::power::pow(256, s.len()),
    decreases s.len(),
{
    if s.len() == 0 {
        vstd::arithmetic::power::lemma_pow0(256);
    } else {
        lemma_be_value_bound(s.drop_last());
        vstd::arithmetic::power::lemma_pow_adds(256, 1, (s.len() - 1) as nat);
        vstd::arithmetic::power::lemma_pow1(256);
        let p = vstd::arithmetic::power::pow(256, (s.len() - 1) as nat);
        let a = be_value(s.drop_last());
        let b = s.last() as nat;
        assert(a * 256 + b < 256 * p) by (nonlinear_arith)
            requires
                a < p,
                b < 256,
        ;
    }
}

/// `byteorder`'s `BigEndian::read_u64`: the number that the first eight bytes of `bytes`
/// write, most significant first.  It panics on fewer than eight bytes, which `requires`
/// rules out.
#[verifier::external_body]
fn be_u64(bytes: &[u8]) -> (r: u64)
    requires
        bytes@.len() >= 8,
    ensures
        r == be_value(bytes@.subrange(0, 8)),
{
    BigEndian::read_u64(bytes)
}

/// `byteorder`'s `BigEndian::write_u64`, on eight new bytes at the end of `buf`: they write
/// `v`, most significant first.
#[verifier::external_body]
fn put_be_u64(buf: &mut Vec<u8>, v: u64)
    ensures
        final(buf)@ == old(buf)@ + be_bytes(v as nat, 8),
{
    let mut b = [0u8; 8];
    BigEndian::write_u64(&mut b, v);
    buf.extend_from_slice(&b);
}


/// Where the parts of a saved search lie in its bytes.  The saved form is: the number of
/// entries of the key-node pile (its root included) as eight bytes, most significant first;
/// one record for each entry after the root; the number of queue entries and a record for
/// each; the number of hash nodes in the dedupe set and a record for each; the foresight and
/// the depth.  `kn_count`, `q_count` and `d_count` count the records of each part, which start
/// at `kn_at`, `q_at` and `d_at`.
#[derive(Clone, Copy, Debug, PartialEq, Eq, Structural)]
pub struct CheckpointLayout {
    pub kn_count: u64,
    pub kn_at: usize,
    pub q_count: u64,
    pub q_at: usize,
    pub d_count: u64,
    pub d_at: usize,
    pub foresight: u64,
    pub depth: u64,
}

/// The number that the eight bytes of `s` from `at` on write.
pub open spec fn be_at(s: Seq<u8>, at: int) -> nat {
    be_value(s.subrange(at, at + 8))
}

/// The layout of the saved search `s` whose records of key-node entries, queue entries and
/// hash nodes take `kn_size`, `q_size` and `d_size` bytes each; `None` when `s` ends before
/// the depth does.  A pile count of 0 reads as a pile of the root alone; bytes after the depth
/// are not read.
pub open spec fn spec_layout(s: Seq<u8>, kn_size: nat, q_size: nat, d_size: nat) -> Option<CheckpointLayout> {
    if s.len() < 8 {
        None
    } else {
        let n0 = be_at(s, 0);
        let kn_count: nat = if n0 == 0 { 0 } else { (n0 - 1) as nat };
        let qh: int = (8 + kn_count * kn_size) as int;
        if qh + 8 > s.len() {
            None
        } else {
            let q_count = be_at(s, qh);
            let dh: int = qh + 8 + q_count * q_size;
            if dh + 8 > s.len() {
                None
            } else {
                let d_count = be_at(s, dh);
                let th: int = dh + 8 + d_count * d_size;
                if th + 16 > s.len() {
                    None
                } else {
                    Some(
                        CheckpointLayout {
                            kn_count: kn_count as u64,
                            kn_at: 8,
                            q_count: q_count as u64,
                            q_at: (qh + 8) as usize,
                            d_count: d_count as u64,
                            d_at: (dh + 8) as usize,
                            foresight: be_at(s, th) as u64,
                            depth: be_at(s, th + 8) as u64,
                        },
                    )
                }
            }
        }
    }
}

fn read_be_at(bytes: &[u8], at: usize) -> (r: u64)
    requires
        at + 8 <= bytes@.len(),
    ensures
        r == be_at(bytes@, at as int),
{
    let _n = bytes.len();
    let part = vstd::slice::slice_subrange(bytes, at, at + 8);
    assert(part@.subrange(0, 8) =~= bytes@.subrange(at as int, at + 8));
    be_u64(part)
}

/// Finds the parts of the saved search `bytes` (see `CheckpointLayout`), whose records take
/// `kn_size`, `q_size` and `d_size` bytes each.
pub fn checkpoint_layout(bytes: &[u8], kn_size: usize, q_size: usize, d_size: usize) -> (r: Option<CheckpointLayout>)
    ensures
        r == spec_layout(bytes@, kn_size as nat, q_size as nat, d_size as nat),
{
    let len = bytes.len();
    if len < 8 {
        return None;
    }
    let n0 = read_be_at(bytes, 0);
    let kn_count: u64 = if n0 == 0 { 0 } else { n0 - 1 };
    proof {
        assert(kn_count * kn_size <= u64::MAX * usize::MAX) by (nonlinear_arith)
            requires kn_count <= u64::MAX, kn_size <= usize::MAX;
    }
    let qh: u128 = 8 + (kn_count as u128) * (kn_size as u128);
    if qh + 8 > len as u128 {
        return None;
    }
    let qh = qh as usize;
    let q_count = read_be_at(bytes, qh);
    proof {
        assert(q_count * q_size <= u64::MAX * usize::MAX) by (nonlinear_arith)
            requires q_count <= u64::MAX, q_size <= usize::MAX;
    }
    let dh: u128 = (qh as u128) + 8 + (q_count as u128) * (q_size as u128);
    if dh + 8 > len as u128 {
        return None;
    }
    let dh = dh as usize;
    let d_count = read_be_at(bytes, dh);
    proof {
        assert(d_count * d_size <= u64::MAX * usize::MAX) by (nonlinear_arith)
            requires d_count <= u64::MAX, d_size <= usize::MAX;
    }
    let th: u128 = (dh as u128) + 8 + (d_count as u128) * (d_size as u128);
    if th + 16 > len as u128 {
        return None;
    }
    let th = th as usize;
    let foresight = read_be_at(bytes, th);
    let depth = read_be_at(bytes, th + 8);
    Some(
        CheckpointLayout {
            kn_count: kn_count,
            kn_at: 8,
            q_count: q_count,
            q_at: qh + 8,
            d_count: d_count,
            d_at: dh + 8,
            foresight: foresight,
            depth: depth,
        },
    )
}


/// The bytes of the records `recs`, one after another.
pub open spec fn flat_bytes(recs: Seq<Vec<u8>>) -> Seq<u8>
    decreases recs.len(),
{
    if recs.len() == 0 {
        Seq::empty()
    } else {
        flat_bytes(recs.drop_last()) + recs.last()@
    }
}

/// The saved form of a search whose key-node entries after the root, queue entries and hash
/// nodes have the records `kn`, `q` and `d` (see `CheckpointLayout`).
pub open spec fn spec_checkpoint(
    kn: Seq<Vec<u8>>,
    q: Seq<Vec<u8>>,
    d: Seq<Vec<u8>>,
    foresight: u64,
    depth: u64,
) -> Seq<u8> {
    be_bytes(kn.len() + 1, 8) + flat_bytes(kn) + be_bytes(q.len(), 8) + flat_bytes(q) + be_bytes(d.len(), 8)
        + flat_bytes(d) + be_bytes(foresight as nat, 8) + be_bytes(depth as nat, 8)
}

fn push_records(buf: &mut Vec<u8>, recs: &Vec<Vec<u8>>)
    ensures
        final(buf)@ == old(buf)@ + flat_bytes(recs@),
{
    let mut i: usize = 0;
    while i < recs.len()
        invariant
            i <= recs@.len(),
            buf@ == old(buf)@ + flat_bytes(recs@.subrange(0, i as int)),
        decreases recs@.len() - i,
    {
        let rec = &recs[i];
        let ghost before = buf@;
        let mut j: usize = 0;
        while j < rec.len()
            invariant
                j <= rec@.len(),
                rec == &recs@[i as int],
                buf@ == before + rec@.subrange(0, j as int),
            decreases rec@.len() - j,
        {
            buf.push(rec[j]);
            assert(rec@.subrange(0, j + 1) =~= rec@.subrange(0, j as int).push(rec@[j as int]));
            j = j + 1;
        }
        assert(rec@.subrange(0, j as int) =~= rec@);
        assert(recs@.subrange(0, i + 1).drop_last() =~= recs@.subrange(0, i as int));
        assert(buf@ =~= old(buf)@ + flat_bytes(recs@.subrange(0, i + 1)));
        i = i + 1;
    }
    assert(recs@.subrange(0, i as int) =~= recs@);
}

/// The saved form of a search (see `CheckpointLayout`) whose key-node entries after the root,
/// queue entries and hash nodes have the records `kn_recs`, `q_recs` and `d_recs`.
pub fn checkpoint_bytes(
    kn_recs: &Vec<Vec<u8>>,
    q_recs: &Vec<Vec<u8>>,
    d_recs: &Vec<Vec<u8>>,
    foresight: u64,
    depth: u64,
) -> (r: Vec<u8>)
    requires
        kn_recs@.len() < u64::MAX,
    ensures
        r@ == spec_checkpoint(kn_recs@, q_recs@, d_recs@, foresight, depth),
{
    let mut buf: Vec<u8> = Vec::new();
    put_be_u64(&mut buf, kn_recs.len() as u64 + 1);
    push_records(&mut buf, kn_recs);
    put_be_u64(&mut buf, q_recs.len() as u64);
    push_records(&mut buf, q_recs);
    put_be_u64(&mut buf, d_recs.len() as u64);
    push_records(&mut buf, d_recs);
    put_be_u64(&mut buf, foresight);
    put_be_u64(&mut buf, depth);
    assert(buf@ =~= spec_checkpoint(kn_recs@, q_recs@, d_recs@, foresight, depth));
    buf
}


proof fn lemma_flat_fixed(recs: Seq<Vec<u8>>, sz: nat)
    requires
        forall|i: int| 0 <= i < recs.len() ==> (#[trigger] recs[i])@.len() == sz,
    ensures
        flat_bytes(recs).len() == recs.len() * sz,
        forall|i: int|
            0 <= i < recs.len() ==> flat_bytes(recs).subrange(i * sz, (i + 1) * sz) == (#[trigger] recs[i])@,
    decreases recs.len(),
{
    if recs.len() > 0 {
        let init = recs.drop_last();
        let n = recs.len();
        lemma_flat_fixed(init, sz);
        let a = flat_bytes(init);
        let b = recs.last()@;
        assert((n - 1) * sz + sz == n * sz) by (nonlinear_arith);
        assert forall|i: int| 0 <= i < n implies flat_bytes(recs).subrange(i * sz, (i + 1) * sz) == (
        #[trigger] recs[i])@ by {
            if i < n - 1 {
                assert((i + 1) * sz <= (n - 1) * sz) by (nonlinear_arith)
                    requires i + 1 <= n - 1;
                assert(i * sz >= 0) by (nonlinear_arith)
                    requires i >= 0;
                assert((i + 1) * sz == i * sz + sz) by (nonlinear_arith);
                assert(init[i] == recs[i]);
                assert((a + b).subrange(i * sz, (i + 1) * sz) =~= a.subrange(i * sz, (i + 1) * sz));
            } else {
                assert(i * sz == (n - 1) * sz);
                assert((a + b).subrange(i * sz, (i + 1) * sz) =~= b);
            }
        }
    }
}

/// `256` to the eighth is `2` to the `64`.
proof fn lemma_pow_256_8()
    ensures
        vstd::arithmetic::power::pow(256, 8) == 0x1_0000_0000_0000_0000,
{
    reveal_with_fuel(vstd::arithmetic::power::pow, 9);
}

/// What a read finds of a write: the layout of the saved form of a search whose records of
/// each part all have the size given for that part holds the counts of the records, the
/// foresight and the depth, and each record lies where the layout says.
pub proof fn lemma_checkpoint_roundtrip(
    kn: Seq<Vec<u8>>,
    q: Seq<Vec<u8>>,
    d: Seq<Vec<u8>>,
    foresight: u64,
    depth: u64,
    kn_size: nat,
    q_size: nat,
    d_size: nat,
)
    requires
        kn.len() + 1 <= u64::MAX,
        q.len() <= u64::MAX,
        d.len() <= u64::MAX,
        forall|i: int| 0 <= i < kn.len() ==> (#[trigger] kn[i])@.len() == kn_size,
        forall|i: int| 0 <= i < q.len() ==> (#[trigger] q[i])@.len() == q_size,
        forall|i: int| 0 <= i < d.len() ==> (#[trigger] d[i])@.len() == d_size,
        spec_checkpoint(kn, q, d, foresight, depth).len() <= usize::MAX,
    ensures
        ({
            let s = spec_checkpoint(kn, q, d, foresight, depth);
            let qa = 8 + kn.len() * kn_size + 8;
            let da = qa + q.len() * q_size + 8;
            &&& spec_layout(s, kn_size, q_size, d_size) == Some(
                CheckpointLayout {
                    kn_count: kn.len() as u64,
                    kn_at: 8,
                    q_count: q.len() as u64,
                    q_at: qa as usize,
                    d_count: d.len() as u64,
                    d_at: da as usize,
                    foresight,
                    depth,
                },
            )
            &&& forall|i: int| 0 <= i < kn.len() ==> s.subrange(8 + i * kn_size, 8 + (i + 1) * kn_size) == (#[trigger] kn[i])@
            &&& forall|i: int| 0 <= i < q.len() ==> s.subrange(qa + i * q_size, qa + (i + 1) * q_size) == (#[trigger] q[i])@
            &&& forall|i: int| 0 <= i < d.len() ==> s.subrange(da + i * d_size, da + (i + 1) * d_size) == (#[trigger] d[i])@
        }),
{
    lemma_pow_256_8();
    lemma_flat_fixed(kn, kn_size);
    lemma_flat_fixed(q, q_size);
    lemma_flat_fixed(d, d_size);
    lemma_be_roundtrip((kn.len() + 1) as nat, 8);
    lemma_be_roundtrip(q.len(), 8);
    lemma_be_roundtrip(d.len(), 8);
    lemma_be_roundtrip(foresight as nat, 8);
    lemma_be_roundtrip(depth as nat, 8);
    let s = spec_checkpoint(kn, q, d, foresight, depth);
    let c0 = be_bytes(kn.len() + 1, 8);
    let fk = flat_bytes(kn);
    let c1 = be_bytes(q.len(), 8);
    let fq = flat_bytes(q);
    let c2 = be_bytes(d.len(), 8);
    let fd = flat_bytes(d);
    let c3 = be_bytes(foresight as nat, 8);
    let c4 = be_bytes(depth as nat, 8);
    let qh: int = (8 + kn.len() * kn_size) as int;
    let qa: int = qh + 8;
    let dh: int = qa + q.len() * q_size;
    let da: int = dh + 8;
    let th: int = da + d.len() * d_size;
    assert(s == c0 + fk + c1 + fq + c2 + fd + c3 + c4);
    assert(s.len() == th + 16);
    assert(s.subrange(0, 8) =~= c0);
    assert(s.subrange(qh, qh + 8) =~= c1);
    assert(s.subrange(dh, dh + 8) =~= c2);
    assert(s.subrange(th, th + 8) =~= c3);
    assert(s.subrange(th + 8, th + 16) =~= c4);
    assert forall|i: int| 0 <= i < kn.len() implies s.subrange(8 + i * kn_size, 8 + (i + 1) * kn_size) == (
    #[trigger] kn[i])@ by {
        assert((i + 1) * kn_size <= kn.len() * kn_size) by (nonlinear_arith)
            requires i + 1 <= kn.len();
        assert(i * kn_size >= 0) by (nonlinear_arith)
            requires i >= 0;
        assert((i + 1) * kn_size == i * kn_size + kn_size) by (nonlinear_arith);
        assert(s.subrange(8 + i * kn_size, 8 + (i + 1) * kn_size) =~= fk.subrange(i * kn_size, (i + 1) * kn_size));
    }
    assert forall|i: int| 0 <= i < q.len() implies s.subrange(qa + i * q_size, qa + (i + 1) * q_size) == (
    #[trigger] q[i])@ by {
        assert((i + 1) * q_size <= q.len() * q_size) by (nonlinear_arith)
            requires i + 1 <= q.len();
        assert(i * q_size >= 0) by (nonlinear_arith)
            requires i >= 0;
        assert((i + 1) * q_size == i * q_size + q_size) by (nonlinear_arith);
        assert(s.subrange(qa + i * q_size, qa + (i + 1) * q_size) =~= fq.subrange(i * q_size, (i + 1) * q_size));
    }
    assert forall|i: int| 0 <= i < d.len() implies s.subrange(da + i * d_size, da + (i + 1) * d_size) == (
    #[trigger] d[i])@ by {
        assert((i + 1) * d_size <= d.len() * d_size) by (nonlinear_arith)
            requires i + 1 <= d.len();
        assert(i * d_size >= 0) by (nonlinear_arith)
            requires i >= 0;
        assert((i + 1) * d_size == i * d_size + d_size) by (nonlinear_arith);
        assert(s.subrange(da + i * d_size, da + (i + 1) * d_size) =~= fd.subrange(i * d_size, (i + 1) * d_size));
    }
}

} // verus!
