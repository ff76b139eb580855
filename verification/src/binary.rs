//! Binary sample decoding: a byte stream carries 32-bit samples, least
//! significant byte first. Only complete four-byte groups are consumed;
//! up to three trailing bytes wait in a leftover buffer for the next
//! chunk, so a sample split across two reads is decoded exactly once.
//!
//! A sample is kept as the 32-bit pattern read from the wire; consumers
//! that chart or persist the stream reinterpret the bits as they need.

use vstd::prelude::*;

verus! {

/// The 32-bit value of four bytes, least significant first.
pub open spec fn spec_le32(b0: u8, b1: u8, b2: u8, b3: u8) -> u32 {
    (b0 + b1 * 0x100 + b2 * 0x10000 + b3 * 0x1000000) as u32
}

/// All complete four-byte groups of `b`, decoded in order.
pub open spec fn spec_samples(b: Seq<u8>) -> Seq<u32>
    decreases b.len(),
{
    if b.len() < 4 {
        seq![]
    } else {
        seq![spec_le32(b[0], b[1], b[2], b[3])] + spec_samples(b.skip(4))
    }
}

/// The trailing bytes of `b` after the last complete four-byte group.
pub open spec fn spec_sample_rest(b: Seq<u8>) -> Seq<u8>
    decreases b.len(),
{
    if b.len() < 4 {
        b
    } else {
        spec_sample_rest(b.skip(4))
    }
}

/// The leftover after decoding is always shorter than one group.
pub proof fn lemma_rest_len(b: Seq<u8>)
    ensures
        spec_sample_rest(b).len() < 4,
    decreases b.len(),
{
    if b.len() >= 4 {
        lemma_rest_len(b.skip(4));
    }
}

/// Chunk-boundary independence of the group decoder: decoding `a ++ b`
/// yields the samples of `a` followed by the samples of `a`'s leftover
/// joined with `b`, and the same leftover either way. Feeding a stream
/// in any chunks therefore decodes exactly the samples of the whole.
pub proof fn lemma_samples_append(a: Seq<u8>, b: Seq<u8>)
    ensures
        spec_samples(a + b) == spec_samples(a) + spec_samples(spec_sample_rest(a) + b),
        spec_sample_rest(a + b) == spec_sample_rest(spec_sample_rest(a) + b),
    decreases a.len(),
{
    if a.len() < 4 {
        assert(spec_sample_rest(a) + b =~= a + b);
        assert(spec_samples(a + b) =~= spec_samples(a) + spec_samples(a + b));
    } else {
        assert((a + b).skip(4) =~= a.skip(4) + b);
        lemma_samples_append(a.skip(4), b);
        if (a + b).len() < 4 {
        } else {
            assert(spec_samples(a + b) =~= seq![
                spec_le32(a[0], a[1], a[2], a[3]),
            ] + spec_samples(a.skip(4) + b));
            assert(spec_samples(a) + spec_samples(spec_sample_rest(a) + b) =~= seq![
                spec_le32(a[0], a[1], a[2], a[3]),
            ] + (spec_samples(a.skip(4)) + spec_samples(spec_sample_rest(a.skip(4)) + b)));
        }
    }
}

/// The decoder state after feeding a whole sequence of chunks in
/// order: samples decoded so far and the current leftover.
pub open spec fn spec_decode_all(data: Seq<u32>, left: Seq<u8>, chunks: Seq<Seq<u8>>) -> (
    Seq<u32>,
    Seq<u8>,
)
    decreases chunks.len(),
{
    if chunks.len() == 0 {
        (data, left)
    } else {
        spec_decode_all(
            data + spec_samples(left + chunks[0]),
            spec_sample_rest(left + chunks[0]),
            chunks.skip(1),
        )
    }
}

/// Law: for any sequence of chunks, the final sample sequence equals
/// decoding the fully concatenated bytes, and the final leftover is
/// what trails the last complete group of the whole stream — chunk
/// boundaries never matter.
pub proof fn lemma_decode_all(data: Seq<u32>, left: Seq<u8>, chunks: Seq<Seq<u8>>)
    requires
        left.len() < 4,
    ensures
        spec_decode_all(data, left, chunks).0 == data + spec_samples(left + chunks.flatten()),
        spec_decode_all(data, left, chunks).1 == spec_sample_rest(left + chunks.flatten()),
    decreases chunks.len(),
{
    if chunks.len() == 0 {
        assert(chunks.flatten() == Seq::<u8>::empty());
        assert(left + Seq::<u8>::empty() =~= left);
        assert(spec_samples(left) =~= Seq::<u32>::empty());
        assert(data + Seq::<u32>::empty() =~= data);
        assert(spec_sample_rest(left) == left);
    } else {
        let c0 = chunks[0];
        let rest_flat = chunks.drop_first().flatten();
        assert(chunks.drop_first() =~= chunks.skip(1));
        assert(chunks.flatten() == c0 + rest_flat);
        lemma_samples_append(left + c0, rest_flat);
        lemma_rest_len(left + c0);
        assert((left + c0) + rest_flat =~= left + (c0 + rest_flat));
        lemma_decode_all(
            data + spec_samples(left + c0),
            spec_sample_rest(left + c0),
            chunks.skip(1),
        );
        assert((data + spec_samples(left + c0)) + spec_samples(
            spec_sample_rest(left + c0) + rest_flat,
        ) =~= data + (spec_samples(left + c0) + spec_samples(
            spec_sample_rest(left + c0) + rest_flat,
        )));
    }
}

proof fn lemma_samples_take_step(b: Seq<u8>, i: int)
    requires
        i % 4 == 0,
        0 <= i,
        i + 4 <= b.len(),
    ensures
        spec_samples(b.take(i + 4)) == spec_samples(b.take(i)).push(
            spec_le32(b[i], b[i + 1], b[i + 2], b[i + 3]),
        ),
    decreases i,
{
    if i == 0 {
        let t = b.take(4);
        assert(t[0] == b[0] && t[1] == b[1] && t[2] == b[2] && t[3] == b[3]);
        assert(t.skip(4) =~= Seq::<u8>::empty());
        assert(spec_samples(t.skip(4)) =~= Seq::<u32>::empty());
        assert(spec_samples(t) =~= seq![spec_le32(b[0], b[1], b[2], b[3])]);
        assert(spec_samples(b.take(0)) =~= Seq::<u32>::empty());
    } else {
        let t = b.skip(4);
        assert(b.take(i + 4).skip(4) =~= t.take(i));
        assert(b.take(i).skip(4) =~= t.take(i - 4));
        lemma_samples_take_step(t, i - 4);
        assert(spec_samples(b.take(i + 4)) =~= seq![
            spec_le32(b[0], b[1], b[2], b[3]),
        ] + spec_samples(t.take(i)));
        assert(spec_samples(b.take(i)) =~= seq![
            spec_le32(b[0], b[1], b[2], b[3]),
        ] + spec_samples(t.take(i - 4)));
        assert(spec_samples(b.take(i + 4)) =~= spec_samples(b.take(i)).push(
            spec_le32(b[i], b[i + 1], b[i + 2], b[i + 3]),
        ));
    }
}

#[verifier::rlimit(30)]
proof fn lemma_rest_skip(b: Seq<u8>, i: int)
    requires
        i % 4 == 0,
        0 <= i <= b.len(),
        b.len() - i < 4,
    ensures
        spec_sample_rest(b) == b.skip(i),
        spec_samples(b) == spec_samples(b.take(i)),
    decreases i,
{
    if i == 0 {
        assert(b.skip(0) =~= b);
        assert(b.take(0) =~= Seq::<u8>::empty());
        assert(spec_samples(b.take(0)) =~= Seq::<u32>::empty());
        assert(spec_samples(b) =~= Seq::<u32>::empty());
    } else {
        let t = b.skip(4);
        lemma_rest_skip(t, i - 4);
        assert(t.skip(i - 4) =~= b.skip(i));
        let u = b.take(i);
        assert(u[0] == b[0] && u[1] == b[1] && u[2] == b[2] && u[3] == b[3]);
        assert(u.skip(4) =~= t.take(i - 4));
        assert(spec_samples(u) =~= seq![
            spec_le32(b[0], b[1], b[2], b[3]),
        ] + spec_samples(t.take(i - 4)));
        assert(spec_samples(b) =~= seq![
            spec_le32(b[0], b[1], b[2], b[3]),
        ] + spec_samples(t));
    }
}

/// Remove the first `k` elements of `v`, keeping the rest in order.
pub fn drop_prefix(v: &mut Vec<u8>, k: usize)
    requires
        k <= old(v).len(),
    ensures
        final(v)@ == old(v)@.skip(k as int),
{
    let tail = v.split_off(k);
    *v = tail;
}

/// Decode every complete four-byte group of `buf` into `out`, least
/// significant byte first, leaving the (at most three) trailing bytes
/// in `buf` for the next chunk.
pub fn decode_samples(buf: &mut Vec<u8>, out: &mut Vec<u32>)
    ensures
        final(out)@ == old(out)@ + spec_samples(old(buf)@),
        final(buf)@ == spec_sample_rest(old(buf)@),
        final(buf)@.len() < 4,
{
    let len = buf.len();
    let mut i: usize = 0;
    while len - i >= 4
        invariant
            len == buf.len(),
            buf@ == old(buf)@,
            i % 4 == 0,
            i <= len,
            out@ == old(out)@ + spec_samples(buf@.take(i as int)),
        decreases len - i,
    {
        let b0 = buf[i];
        let b1 = buf[i + 1];
        let b2 = buf[i + 2];
        let b3 = buf[i + 3];
        let val: u32 = (b0 as u32) + (b1 as u32) * 0x100 + (b2 as u32) * 0x10000 + (b3 as u32)
            * 0x1000000;
        assert(val == spec_le32(b0, b1, b2, b3));
        proof {
            lemma_samples_take_step(buf@, i as int);
        }
        out.push(val);
        i = i + 4;
    }
    proof {
        lemma_rest_skip(buf@, i as int);
    }
    drop_prefix(buf, i);
}

} // verus!
