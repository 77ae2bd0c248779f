//! Little-endian integers on the wire: what the bytes of an integer are, how a
//! buffer is extended by them, and what integer stands at an offset of a buffer.
use vstd::prelude::*;

verus! {

/// The two bytes of `v`, least significant first.
#[verifier::opaque]
pub open spec fn u16_le(v: u16) -> Seq<u8> {
    seq![(v % 256) as u8, (v / 256) as u8]
}

/// The four bytes of `v`, least significant first.
#[verifier::opaque]
pub open spec fn u32_le(v: u32) -> Seq<u8> {
    u16_le((v % 0x1_0000) as u16) + u16_le((v / 0x1_0000) as u16)
}

/// The eight bytes of `v`, least significant first.
#[verifier::opaque]
pub open spec fn u64_le(v: u64) -> Seq<u8> {
    u32_le((v % 0x1_0000_0000) as u32) + u32_le((v / 0x1_0000_0000) as u32)
}

/// The integer whose two little-endian bytes stand at `p` in `b`.
#[verifier::opaque]
pub open spec fn u16_at(b: Seq<u8>, p: int) -> u16 {
    (b[p] + 256 * b[p + 1]) as u16
}

/// The integer whose four little-endian bytes stand at `p` in `b`.
#[verifier::opaque]
pub open spec fn u32_at(b: Seq<u8>, p: int) -> u32 {
    (u16_at(b, p) + 0x1_0000 * u16_at(b, p + 2)) as u32
}

/// The integer whose eight little-endian bytes stand at `p` in `b`.
#[verifier::opaque]
pub open spec fn u64_at(b: Seq<u8>, p: int) -> u64 {
    (u32_at(b, p) + 0x1_0000_0000 * u32_at(b, p + 4)) as u64
}

/// Whether the bytes `w` stand at `p` in `b`.
pub open spec fn stands_at(b: Seq<u8>, p: int, w: Seq<u8>) -> bool {
    &&& 0 <= p
    &&& p + w.len() <= b.len()
    &&& b.subrange(p, p + w.len()) == w
}

/// Bytes that stand at `p` can be read there one by one.
pub proof fn lemma_stands_at_index(b: Seq<u8>, p: int, w: Seq<u8>, i: int)
    requires
        stands_at(b, p, w),
        0 <= i < w.len(),
    ensures
        b[p + i] == w[i],
{
    assert(b.subrange(p, p + w.len())[i] == w[i]);
}

/// Two runs of bytes stand at `p` one after the other when their concatenation does.
pub proof fn lemma_stands_at_concat(b: Seq<u8>, p: int, v: Seq<u8>, w: Seq<u8>)
    ensures
        stands_at(b, p, v + w) <==> stands_at(b, p, v) && stands_at(b, p + v.len(), w),
{
    if stands_at(b, p, v + w) {
        assert forall|i: int| 0 <= i < v.len() implies b.subrange(p, p + v.len())[i] == v[i] by {
            lemma_stands_at_index(b, p, v + w, i);
        }
        assert(b.subrange(p, p + v.len()) =~= v);
        assert forall|i: int| 0 <= i < w.len() implies #[trigger] b.subrange(
            p + v.len(),
            p + v.len() + w.len(),
        )[i] == w[i] by {
            lemma_stands_at_index(b, p, v + w, v.len() + i);
        }
        assert(b.subrange(p + v.len(), p + v.len() + w.len()) =~= w);
    }
    if stands_at(b, p, v) && stands_at(b, p + v.len(), w) {
        assert forall|i: int| 0 <= i < (v + w).len() implies #[trigger] b.subrange(
            p,
            p + (v + w).len(),
        )[i] == (v + w)[i] by {
            if i < v.len() {
                lemma_stands_at_index(b, p, v, i);
            } else {
                lemma_stands_at_index(b, p + v.len(), w, i - v.len());
            }
        }
        assert(b.subrange(p, p + (v + w).len()) =~= v + w);
    }
}

/// A single byte stands at `p` exactly when it is found there.
pub proof fn lemma_u8_at(b: Seq<u8>, p: int, v: u8)
    ensures
        stands_at(b, p, seq![v]) <==> 0 <= p < b.len() && b[p] == v,
{
    if stands_at(b, p, seq![v]) {
        lemma_stands_at_index(b, p, seq![v], 0);
    }
    if 0 <= p < b.len() && b[p] == v {
        assert(b.subrange(p, p + 1) =~= seq![v]);
    }
}

/// A `u16` stands at `p` exactly when reading there yields it.
pub proof fn lemma_u16_at(b: Seq<u8>, p: int, v: u16)
    ensures
        stands_at(b, p, u16_le(v)) <==> 0 <= p && p + 2 <= b.len() && u16_at(b, p) == v,
        u16_le(v).len() == 2,
{
    reveal(u16_le);
    reveal(u16_at);
    if stands_at(b, p, u16_le(v)) {
        lemma_stands_at_index(b, p, u16_le(v), 0);
        lemma_stands_at_index(b, p, u16_le(v), 1);
    }
    if 0 <= p && p + 2 <= b.len() && u16_at(b, p) == v {
        assert(b[p] == v % 256);
        assert(b[p + 1] == v / 256);
        assert(b.subrange(p, p + 2) =~= u16_le(v));
    }
}

/// A `u32` stands at `p` exactly when reading there yields it.
pub proof fn lemma_u32_at(b: Seq<u8>, p: int, v: u32)
    ensures
        stands_at(b, p, u32_le(v)) <==> 0 <= p && p + 4 <= b.len() && u32_at(b, p) == v,
        u32_le(v).len() == 4,
{
    reveal(u32_le);
    reveal(u32_at);
    let lo = (v % 0x1_0000) as u16;
    let hi = (v / 0x1_0000) as u16;
    lemma_stands_at_concat(b, p, u16_le(lo), u16_le(hi));
    lemma_u16_at(b, p, lo);
    lemma_u16_at(b, p + 2, hi);
}

/// A `u64` stands at `p` exactly when reading there yields it.
pub proof fn lemma_u64_at(b: Seq<u8>, p: int, v: u64)
    ensures
        stands_at(b, p, u64_le(v)) <==> 0 <= p && p + 8 <= b.len() && u64_at(b, p) == v,
        u64_le(v).len() == 8,
{
    reveal(u64_le);
    reveal(u64_at);
    let lo = (v % 0x1_0000_0000) as u32;
    let hi = (v / 0x1_0000_0000) as u32;
    lemma_stands_at_concat(b, p, u32_le(lo), u32_le(hi));
    lemma_u32_at(b, p, lo);
    lemma_u32_at(b, p + 4, hi);
}

/// A tag and one field stand at `p` exactly when each stands at its place.
pub proof fn lemma_tag_fields1(b: Seq<u8>, p: int, tag: u8, f: Seq<u8>)
    ensures
        stands_at(b, p, seq![tag] + f) <==> 0 <= p < b.len() && b[p] == tag && stands_at(b, p + 1, f),
{
    lemma_stands_at_concat(b, p, seq![tag], f);
    lemma_u8_at(b, p, tag);
}

/// A tag and two fields stand at `p` exactly when each stands at its place.
pub proof fn lemma_tag_fields2(b: Seq<u8>, p: int, tag: u8, f: Seq<u8>, g: Seq<u8>)
    ensures
        stands_at(b, p, seq![tag] + f + g) <==> 0 <= p < b.len() && b[p] == tag && stands_at(
            b,
            p + 1,
            f,
        ) && stands_at(b, p + 1 + f.len(), g),
{
    lemma_tag_fields1(b, p, tag, f);
    lemma_stands_at_concat(b, p, seq![tag] + f, g);
}

/// A tag and three fields stand at `p` exactly when each stands at its place.
pub proof fn lemma_tag_fields3(b: Seq<u8>, p: int, tag: u8, f: Seq<u8>, g: Seq<u8>, h: Seq<u8>)
    ensures
        stands_at(b, p, seq![tag] + f + g + h) <==> 0 <= p < b.len() && b[p] == tag && stands_at(
            b,
            p + 1,
            f,
        ) && stands_at(b, p + 1 + f.len(), g) && stands_at(b, p + 1 + f.len() + g.len(), h),
{
    lemma_tag_fields2(b, p, tag, f, g);
    lemma_stands_at_concat(b, p, seq![tag] + f + g, h);
}

/// A tag and four fields stand at `p` exactly when each stands at its place.
pub proof fn lemma_tag_fields4(
    b: Seq<u8>,
    p: int,
    tag: u8,
    f: Seq<u8>,
    g: Seq<u8>,
    h: Seq<u8>,
    k: Seq<u8>,
)
    ensures
        stands_at(b, p, seq![tag] + f + g + h + k) <==> 0 <= p < b.len() && b[p] == tag && stands_at(
            b,
            p + 1,
            f,
        ) && stands_at(b, p + 1 + f.len(), g) && stands_at(b, p + 1 + f.len() + g.len(), h)
            && stands_at(b, p + 1 + f.len() + g.len() + h.len(), k),
{
    lemma_tag_fields3(b, p, tag, f, g, h);
    lemma_stands_at_concat(b, p, seq![tag] + f + g + h, k);
}

/// Reading within the first `k` bytes does not depend on what follows them.
pub proof fn lemma_u32_at_take(b: Seq<u8>, k: int, p: int)
    requires
        0 <= p,
        p + 4 <= k <= b.len(),
    ensures
        u32_at(b.take(k), p) == u32_at(b, p),
{
    reveal(u32_at);
    reveal(u16_at);
}

/// A `u16` takes two bytes.
pub broadcast proof fn lemma_u16_len(v: u16)
    ensures
        #[trigger] u16_le(v).len() == 2,
{
    reveal(u16_le);
}

/// A `u32` takes four bytes.
pub broadcast proof fn lemma_u32_len(v: u32)
    ensures
        #[trigger] u32_le(v).len() == 4,
{
    reveal(u16_le);
    reveal(u32_le);
}

/// A `u64` takes eight bytes.
pub broadcast proof fn lemma_u64_len(v: u64)
    ensures
        #[trigger] u64_le(v).len() == 8,
{
    reveal(u64_le);
    lemma_u32_len((v % 0x1_0000_0000) as u32);
    lemma_u32_len((v / 0x1_0000_0000) as u32);
}

/// How many bytes an integer takes.
pub broadcast group group_le_len {
    lemma_u16_len,
    lemma_u32_len,
    lemma_u64_len,
}

/// Append the bytes of a `u16`.
pub fn push_u16(out: &mut Vec<u8>, v: u16)
    ensures
        final(out)@ == old(out)@ + u16_le(v),
{
    reveal(u16_le);
    out.push((v % 256) as u8);
    out.push((v / 256) as u8);
    assert(out@ =~= old(out)@ + u16_le(v));
}

/// Append the bytes of a `u32`.
pub fn push_u32(out: &mut Vec<u8>, v: u32)
    ensures
        final(out)@ == old(out)@ + u32_le(v),
{
    reveal(u32_le);
    push_u16(out, (v % 0x1_0000) as u16);
    push_u16(out, (v / 0x1_0000) as u16);
    assert(out@ =~= old(out)@ + u32_le(v));
}

/// Append the bytes of a `u64`.
pub fn push_u64(out: &mut Vec<u8>, v: u64)
    ensures
        final(out)@ == old(out)@ + u64_le(v),
{
    reveal(u64_le);
    push_u32(out, (v % 0x1_0000_0000) as u32);
    push_u32(out, (v / 0x1_0000_0000) as u32);
    assert(out@ =~= old(out)@ + u64_le(v));
}

/// Append a run of bytes.
pub fn push_bytes(out: &mut Vec<u8>, bytes: &[u8])
    ensures
        final(out)@ == old(out)@ + bytes@,
{
    let mut i: usize = 0;
    while i < bytes.len()
        invariant
            i <= bytes@.len(),
            out@ == old(out)@ + bytes@.take(i as int),
        decreases bytes@.len() - i,
    {
        out.push(bytes[i]);
        i += 1;
        assert(bytes@.take(i as int) =~= bytes@.take(i - 1).push(bytes@[i - 1]));
    }
    assert(bytes@.take(i as int) =~= bytes@);
}

/// Copy out the bytes from `from` up to `to`.
pub fn copy_range(bytes: &[u8], from: usize, to: usize) -> (out: Vec<u8>)
    requires
        from <= to <= bytes@.len(),
    ensures
        out@ == bytes@.subrange(from as int, to as int),
{
    let mut out: Vec<u8> = Vec::new();
    let mut i: usize = from;
    while i < to
        invariant
            from <= i <= to <= bytes@.len(),
            out@ == bytes@.subrange(from as int, i as int),
        decreases to - i,
    {
        out.push(bytes[i]);
        i += 1;
        assert(bytes@.subrange(from as int, i as int) =~= bytes@.subrange(
            from as int,
            i - 1,
        ).push(bytes@[i - 1]));
    }
    out
}

/// The `u16` at `p`.
pub fn get_u16(bytes: &[u8], p: usize) -> (v: u16)
    requires
        p + 2 <= bytes@.len(),
    ensures
        v == u16_at(bytes@, p as int),
{
    reveal(u16_at);
    bytes[p] as u16 + 256 * bytes[p + 1] as u16
}

/// The `u32` at `p`.
pub fn get_u32(bytes: &[u8], p: usize) -> (v: u32)
    requires
        p + 4 <= bytes@.len(),
    ensures
        v == u32_at(bytes@, p as int),
{
    reveal(u32_at);
    assert(bytes@.len() == bytes.len());
    get_u16(bytes, p) as u32 + 0x1_0000 * get_u16(bytes, p + 2) as u32
}

/// The `u64` at `p`.
pub fn get_u64(bytes: &[u8], p: usize) -> (v: u64)
    requires
        p + 8 <= bytes@.len(),
    ensures
        v == u64_at(bytes@, p as int),
{
    reveal(u64_at);
    assert(bytes@.len() == bytes.len());
    get_u32(bytes, p) as u64 + 0x1_0000_0000 * get_u32(bytes, p + 4) as u64
}

/// What `n` bytes from `p` on are worth, each 256 times as much as the one before it.
pub open spec fn worth(b: Seq<u8>, p: int, n: nat) -> int
    decreases n,
{
    if n == 0 {
        0
    } else {
        b[p] + 256 * worth(b, p + 1, (n - 1) as nat)
    }
}

/// What is read at a place is what its bytes are worth, the first the least.
pub proof fn law_integers_are_little_endian(b: Seq<u8>, p: int)
    ensures
        u16_at(b, p) == worth(b, p, 2),
        u32_at(b, p) == worth(b, p, 4),
        u64_at(b, p) == worth(b, p, 8),
{
    reveal_with_fuel(worth, 9);
    reveal(u16_at);
    reveal(u32_at);
    reveal(u64_at);
}

/// The bytes of an integer are worth the integer.
pub proof fn law_bytes_are_worth_their_integer(a: u16, b: u32, c: u64)
    ensures
        u16_le(a).len() == 2 && worth(u16_le(a), 0, 2) == a,
        u32_le(b).len() == 4 && worth(u32_le(b), 0, 4) == b,
        u64_le(c).len() == 8 && worth(u64_le(c), 0, 8) == c,
{
    lemma_u16_at(u16_le(a), 0, a);
    lemma_u32_at(u32_le(b), 0, b);
    lemma_u64_at(u64_le(c), 0, c);
    assert(u16_le(a).subrange(0, 2) =~= u16_le(a));
    assert(u32_le(b).subrange(0, 4) =~= u32_le(b));
    assert(u64_le(c).subrange(0, 8) =~= u64_le(c));
    law_integers_are_little_endian(u16_le(a), 0);
    law_integers_are_little_endian(u32_le(b), 0);
    law_integers_are_little_endian(u64_le(c), 0);
}

} // verus!
