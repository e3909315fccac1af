use vstd::bytes::{
    lemma_auto_spec_u16_to_from_le_bytes, lemma_auto_spec_u32_to_from_le_bytes,
    lemma_auto_spec_u64_to_from_le_bytes, spec_u16_from_le_bytes, spec_u16_to_le_bytes,
    spec_u32_from_le_bytes, spec_u32_to_le_bytes, spec_u64_from_le_bytes, spec_u64_to_le_bytes,
    u16_from_le_bytes, u16_to_le_bytes, u32_from_le_bytes, u32_to_le_bytes, u64_from_le_bytes,
    u64_to_le_bytes,
};
use vstd::prelude::*;
use vstd::slice::slice_subrange;

verus! {

/// `s` with the bytes of `piece` written over it from position `at` on.
pub open spec fn splice(s: Seq<u8>, at: int, piece: Seq<u8>) -> Seq<u8> {
    Seq::new(
        s.len(),
        |i: int|
            if at <= i < at + piece.len() {
                piece[i - at]
            } else {
                s[i]
            },
    )
}

/// `after` is as long as `before` and agrees with it on every position below `at`.
pub open spec fn prefix_kept(before: Seq<u8>, after: Seq<u8>, at: int) -> bool {
    &&& after.len() == before.len()
    &&& forall|i: int| 0 <= i < at ==> #[trigger] after[i] == before[i]
    &&& forall|p: int, q: int|
        0 <= p <= q <= at ==> #[trigger] after.subrange(p, q) == before.subrange(p, q)
}

/// `after` agrees with `before` on every position from `from` on.
pub open spec fn suffix_kept(before: Seq<u8>, after: Seq<u8>, from: int) -> bool {
    forall|i: int| from <= i < before.len() ==> #[trigger] after[i] == before[i]
}

/// The little-endian `u16` that `bytes` holds at position `at`.
pub open spec fn u16_at(bytes: Seq<u8>, at: int) -> u16 {
    spec_u16_from_le_bytes(bytes.subrange(at, at + 2))
}

/// The little-endian `u32` that `bytes` holds at position `at`.
pub open spec fn u32_at(bytes: Seq<u8>, at: int) -> u32 {
    spec_u32_from_le_bytes(bytes.subrange(at, at + 4))
}

/// The little-endian two's-complement `i64` that `bytes` holds at position `at`.
pub open spec fn i64_at(bytes: Seq<u8>, at: int) -> i64 {
    spec_u64_from_le_bytes(bytes.subrange(at, at + 8)) as i64
}

/// The little-endian two's-complement encoding of `v`.
pub open spec fn i64_to_le_bytes(v: i64) -> Seq<u8> {
    spec_u64_to_le_bytes(v as u64)
}

/// What a splice wrote can be read back where it was written.
pub proof fn lemma_splice_same(s: Seq<u8>, at: int, piece: Seq<u8>)
    requires
        0 <= at,
        at + piece.len() <= s.len(),
    ensures
        splice(s, at, piece).len() == s.len(),
        splice(s, at, piece).subrange(at, at + piece.len()) == piece,
{
    assert(splice(s, at, piece).subrange(at, at + piece.len()) =~= piece);
}

/// A splice leaves every range that it does not touch as it was.
pub proof fn lemma_splice_other(s: Seq<u8>, at: int, piece: Seq<u8>, from: int, to: int)
    requires
        0 <= from <= to <= s.len(),
        to <= at || at + piece.len() <= from,
    ensures
        splice(s, at, piece).subrange(from, to) == s.subrange(from, to),
{
    assert(splice(s, at, piece).subrange(from, to) =~= s.subrange(from, to));
}

/// A splice leaves every range before the position it writes at as it was.
pub proof fn lemma_splice_prefix(s: Seq<u8>, at: int, piece: Seq<u8>)
    requires
        0 <= at,
        at + piece.len() <= s.len(),
    ensures
        prefix_kept(s, splice(s, at, piece), at),
{
    assert forall|p: int, q: int| 0 <= p <= q <= at implies #[trigger] splice(
        s,
        at,
        piece,
    ).subrange(p, q) == s.subrange(p, q) by {
        lemma_splice_other(s, at, piece, p, q);
    }
}

/// A `u16` written by a splice is read back by `u16_at`.
pub proof fn lemma_u16_written(s: Seq<u8>, at: int, v: u16)
    requires
        0 <= at,
        at + 2 <= s.len(),
    ensures
        u16_at(splice(s, at, spec_u16_to_le_bytes(v)), at) == v,
{
    lemma_auto_spec_u16_to_from_le_bytes();
    lemma_splice_same(s, at, spec_u16_to_le_bytes(v));
}

/// A `u32` written by a splice is read back by `u32_at`.
pub proof fn lemma_u32_written(s: Seq<u8>, at: int, v: u32)
    requires
        0 <= at,
        at + 4 <= s.len(),
    ensures
        u32_at(splice(s, at, spec_u32_to_le_bytes(v)), at) == v,
{
    lemma_auto_spec_u32_to_from_le_bytes();
    lemma_splice_same(s, at, spec_u32_to_le_bytes(v));
}

/// An `i64` written by a splice is read back by `i64_at`.
pub proof fn lemma_i64_written(s: Seq<u8>, at: int, v: i64)
    requires
        0 <= at,
        at + 8 <= s.len(),
    ensures
        i64_at(splice(s, at, i64_to_le_bytes(v)), at) == v,
{
    lemma_auto_spec_u64_to_from_le_bytes();
    lemma_splice_same(s, at, spec_u64_to_le_bytes(v as u64));
    assert((v as u64) as i64 == v) by (bit_vector);
}

/// An array of `N` zero bytes.
pub fn zero_bytes<const N: usize>() -> (bytes: [u8; N])
    ensures
        bytes@ == Seq::new(N as nat, |i: int| 0u8),
        forall|i: int| 0 <= i < N ==> bytes@[i] == 0u8,
{
    let mut bytes = [0u8;N];
    let mut i: usize = 0;
    while i < N
        invariant
            i <= N,
            forall|j: int| 0 <= j < i ==> bytes@[j] == 0u8,
        decreases N - i,
    {
        bytes[i] = 0;
        i += 1;
    }
    assert(bytes@ =~= Seq::new(N as nat, |i: int| 0u8));
    bytes
}

/// Copies `src` into `dst` from position `at` on.
pub fn copy_into<const N: usize>(dst: &mut [u8; N], at: usize, src: &[u8])
    requires
        at + src@.len() <= N,
    ensures
        final(dst)@ == splice(old(dst)@, at as int, src@),
        final(dst)@.subrange(at as int, at + src@.len()) == src@,
        prefix_kept(old(dst)@, final(dst)@, at as int),
        suffix_kept(old(dst)@, final(dst)@, at + src@.len()),
{
    let n: usize = src.len();
    let mut k: usize = 0;
    while k < n
        invariant
            n == src@.len(),
            at + n <= N,
            k <= n,
            dst@ == splice(old(dst)@, at as int, src@.take(k as int)),
        decreases n - k,
    {
        dst[at + k] = src[k];
        k += 1;
        assert(dst@ =~= splice(old(dst)@, at as int, src@.take(k as int)));
    }
    assert(src@.take(n as int) =~= src@);
    assert(dst@ =~= splice(old(dst)@, at as int, src@)) by {
        assert(splice(old(dst)@, at as int, src@.take(0)) =~= old(dst)@);
    }
    proof {
        lemma_splice_prefix(old(dst)@, at as int, src@);
        lemma_splice_same(old(dst)@, at as int, src@);
    }
}

/// Reads the little-endian `u16` at position `at`.
pub fn read_u16<const N: usize>(buf: &[u8; N], at: usize) -> (v: u16)
    requires
        at + 2 <= N,
    ensures
        v == u16_at(buf@, at as int),
{
    u16_from_le_bytes(slice_subrange(buf.as_slice(), at, at + 2))
}

/// Reads the little-endian `u32` at position `at`.
pub fn read_u32<const N: usize>(buf: &[u8; N], at: usize) -> (v: u32)
    requires
        at + 4 <= N,
    ensures
        v == u32_at(buf@, at as int),
{
    u32_from_le_bytes(slice_subrange(buf.as_slice(), at, at + 4))
}

/// Reads the little-endian `i64` at position `at`.
pub fn read_i64<const N: usize>(buf: &[u8; N], at: usize) -> (v: i64)
    requires
        at + 8 <= N,
    ensures
        v == i64_at(buf@, at as int),
{
    u64_from_le_bytes(slice_subrange(buf.as_slice(), at, at + 8)) as i64
}

/// Writes the byte `v` at position `at`.
pub fn write_u8<const N: usize>(buf: &mut [u8; N], at: usize, v: u8)
    requires
        at < N,
    ensures
        final(buf)@ == splice(old(buf)@, at as int, seq![v]),
        final(buf)@[at as int] == v,
        prefix_kept(old(buf)@, final(buf)@, at as int),
        suffix_kept(old(buf)@, final(buf)@, at + 1),
{
    buf[at] = v;
    assert(buf@ =~= splice(old(buf)@, at as int, seq![v]));
    proof {
        lemma_splice_prefix(old(buf)@, at as int, seq![v]);
    }
}

/// Writes `v` in little-endian order at position `at`.
pub fn write_u16<const N: usize>(buf: &mut [u8; N], at: usize, v: u16)
    requires
        at + 2 <= N,
    ensures
        final(buf)@ == splice(old(buf)@, at as int, spec_u16_to_le_bytes(v)),
        u16_at(final(buf)@, at as int) == v,
        prefix_kept(old(buf)@, final(buf)@, at as int),
        suffix_kept(old(buf)@, final(buf)@, at + 2),
{
    let bytes = u16_to_le_bytes(v);
    copy_into(buf, at, bytes.as_slice());
    proof {
        lemma_u16_written(old(buf)@, at as int, v);
    }
}

/// Writes `v` in little-endian order at position `at`.
pub fn write_u32<const N: usize>(buf: &mut [u8; N], at: usize, v: u32)
    requires
        at + 4 <= N,
    ensures
        final(buf)@ == splice(old(buf)@, at as int, spec_u32_to_le_bytes(v)),
        u32_at(final(buf)@, at as int) == v,
        prefix_kept(old(buf)@, final(buf)@, at as int),
        suffix_kept(old(buf)@, final(buf)@, at + 4),
{
    let bytes = u32_to_le_bytes(v);
    copy_into(buf, at, bytes.as_slice());
    proof {
        lemma_u32_written(old(buf)@, at as int, v);
    }
}

/// Writes `v` in little-endian two's-complement order at position `at`.
pub fn write_i64<const N: usize>(buf: &mut [u8; N], at: usize, v: i64)
    requires
        at + 8 <= N,
    ensures
        final(buf)@ == splice(old(buf)@, at as int, i64_to_le_bytes(v)),
        i64_at(final(buf)@, at as int) == v,
        prefix_kept(old(buf)@, final(buf)@, at as int),
        suffix_kept(old(buf)@, final(buf)@, at + 8),
{
    let bytes = u64_to_le_bytes(v as u64);
    copy_into(buf, at, bytes.as_slice());
    proof {
        lemma_i64_written(old(buf)@, at as int, v);
    }
}

} // verus!
