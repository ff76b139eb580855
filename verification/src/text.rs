//! Line reassembly for newline-delimited text channels.
//!
//! Bytes arrive in arbitrary chunks; a line may straddle two reads. The
//! model below splits a character stream on newline characters
//! (discarding them, with no empty segment after a trailing newline),
//! carries the open trailing segment from one chunk into the next, and
//! optionally stamps each segment that starts a fresh line.

use vstd::prelude::*;

verus! {

/// Completed segments and the open trailing segment of `cur ++ s`,
/// splitting on newline characters, which are discarded.
pub open spec fn spec_split_open(cur: Seq<char>, s: Seq<char>) -> (Seq<Seq<char>>, Seq<char>)
    decreases s.len(),
{
    if s.len() == 0 {
        (seq![], cur)
    } else if s[0] == '\n' {
        let r = spec_split_open(seq![], s.skip(1));
        (seq![cur] + r.0, r.1)
    } else {
        spec_split_open(cur.push(s[0]), s.skip(1))
    }
}

/// The segments of `s`, separator-terminator style: newlines are
/// discarded and a trailing newline yields no empty final segment.
pub open spec fn spec_segments(s: Seq<char>) -> Seq<Seq<char>> {
    let r = spec_split_open(seq![], s);
    if r.1.len() == 0 {
        r.0
    } else {
        r.0.push(r.1)
    }
}

/// Each segment followed by one newline, concatenated back together.
pub open spec fn spec_join(segs: Seq<Seq<char>>) -> Seq<char>
    decreases segs.len(),
{
    if segs.len() == 0 {
        seq![]
    } else {
        segs[0] + seq!['\n'] + spec_join(segs.skip(1))
    }
}

pub proof fn lemma_join_append(a: Seq<Seq<char>>, b: Seq<Seq<char>>)
    ensures
        spec_join(a + b) == spec_join(a) + spec_join(b),
    decreases a.len(),
{
    if a.len() == 0 {
        assert(a + b =~= b);
        assert(spec_join(a) + spec_join(b) =~= spec_join(b));
    } else {
        assert((a + b).skip(1) =~= a.skip(1) + b);
        lemma_join_append(a.skip(1), b);
        assert(spec_join(a + b) =~= a[0] + seq!['\n'] + (spec_join(a.skip(1)) + spec_join(b)));
        assert(spec_join(a) + spec_join(b) =~= a[0] + seq!['\n'] + (spec_join(a.skip(1))
            + spec_join(b)));
    }
}

/// Splitting then rejoining loses nothing: the completed segments,
/// each with its newline restored, followed by the open tail, give back
/// the whole stream.
pub proof fn lemma_split_open_join(cur: Seq<char>, s: Seq<char>)
    ensures
        spec_join(spec_split_open(cur, s).0) + spec_split_open(cur, s).1 == cur + s,
    decreases s.len(),
{
    if s.len() == 0 {
        assert(spec_join(spec_split_open(cur, s).0) + cur =~= cur + s);
    } else if s[0] == '\n' {
        let r = spec_split_open(seq![], s.skip(1));
        lemma_split_open_join(seq![], s.skip(1));
        assert((seq![cur] + r.0).skip(1) =~= r.0);
        assert(spec_join(seq![cur] + r.0) =~= cur + seq!['\n'] + spec_join(r.0));
        assert(spec_join(r.0) + r.1 =~= s.skip(1));
        assert(cur + seq!['\n'] + (spec_join(r.0) + r.1) =~= cur + s);
        assert(cur + seq!['\n'] + spec_join(r.0) + r.1 =~= cur + seq!['\n'] + (spec_join(r.0)
            + r.1));
    } else {
        lemma_split_open_join(cur.push(s[0]), s.skip(1));
        assert(cur.push(s[0]) + s.skip(1) =~= cur + s);
    }
}

/// Shape of the open tail: it holds no newline; it is empty exactly
/// when the stream is empty or ends in a newline (given a newline-free
/// carry), and otherwise ends with the stream's last character.
pub proof fn lemma_split_open_tail(cur: Seq<char>, s: Seq<char>)
    requires
        forall|j: int| 0 <= j < cur.len() ==> cur[j] != '\n',
    ensures
        forall|j: int|
            0 <= j < spec_split_open(cur, s).1.len() ==> spec_split_open(cur, s).1[j] != '\n',
        s.len() == 0 ==> spec_split_open(cur, s).1 == cur,
        s.len() > 0 && s.last() == '\n' ==> spec_split_open(cur, s).1.len() == 0,
        s.len() > 0 && s.last() != '\n' ==> spec_split_open(cur, s).1.len() > 0
            && spec_split_open(cur, s).1.last() == s.last(),
    decreases s.len(),
{
    if s.len() == 0 {
    } else if s[0] == '\n' {
        lemma_split_open_tail(seq![], s.skip(1));
        if s.len() > 1 {
            assert(s.skip(1).last() == s.last());
        }
    } else {
        lemma_split_open_tail(cur.push(s[0]), s.skip(1));
        if s.len() > 1 {
            assert(s.skip(1).last() == s.last());
        }
    }
}

/// A newline-free stream only extends the open segment.
pub proof fn lemma_split_open_flat(cur: Seq<char>, s: Seq<char>)
    requires
        forall|j: int| 0 <= j < s.len() ==> s[j] != '\n',
    ensures
        spec_split_open(cur, s).0 == Seq::<Seq<char>>::empty(),
        spec_split_open(cur, s).1 == cur + s,
    decreases s.len(),
{
    if s.len() == 0 {
        assert(cur + s =~= cur);
    } else {
        assert(s[0] != '\n');
        lemma_split_open_flat(cur.push(s[0]), s.skip(1));
        assert(cur.push(s[0]) + s.skip(1) =~= cur + s);
    }
}

/// One display line: the segment, prefixed by the timestamp and a space.
pub open spec fn spec_stamp(ts: Seq<char>, line: Seq<char>) -> Seq<char> {
    ts + seq![' '] + line
}

/// The display lines made from the segments of one reassembled chunk.
/// Segment `i` is stamped unless it merely continues a line that the
/// previous chunk left open (`i == 0` while `prev_done` is false):
/// a line is stamped when its newline terminator is received, not when
/// its first character arrives.
pub open spec fn spec_stamped_segments(
    segs: Seq<Seq<char>>,
    prev_done: bool,
    show_ts: bool,
    ts: Seq<char>,
) -> Seq<Seq<char>> {
    Seq::new(
        segs.len(),
        |i: int|
            if show_ts && (prev_done || i > 0) {
                spec_stamp(ts, segs[i])
            } else {
                segs[i]
            },
    )
}

/// The done flag after a non-empty chunk: whether it ends in a newline.
pub open spec fn spec_feed_done(chunk: Seq<char>) -> bool {
    chunk.len() > 0 && chunk.last() == '\n'
}

/// The message list after feeding one non-empty chunk: if the previous
/// chunk left its last line open, that line is taken back and prepended,
/// and the reassembled stream is split into display lines.
pub open spec fn spec_feed_msgs(
    msgs: Seq<Seq<char>>,
    done: bool,
    chunk: Seq<char>,
    show_ts: bool,
    ts: Seq<char>,
) -> Seq<Seq<char>>
    recommends
        chunk.len() > 0,
        !done ==> msgs.len() > 0,
{
    let carry = if done {
        seq![]
    } else {
        msgs.last()
    };
    let base = if done {
        msgs
    } else {
        msgs.drop_last()
    };
    base + spec_stamped_segments(spec_segments(carry + chunk), done, show_ts, ts)
}

/// How many display lines one chunk produces (pushes into the list).
pub open spec fn spec_feed_count(msgs: Seq<Seq<char>>, done: bool, chunk: Seq<char>) -> nat {
    let carry = if done {
        seq![]
    } else {
        msgs.last()
    };
    spec_segments(carry + chunk).len()
}

/// The full character stream a message list stands for: every line
/// followed by its newline, except that an open last line has none.
pub open spec fn spec_content(msgs: Seq<Seq<char>>, done: bool) -> Seq<char> {
    if done {
        spec_join(msgs)
    } else {
        spec_join(msgs.drop_last()) + msgs.last()
    }
}

/// Splitting a concatenation equals splitting the first part and
/// continuing from its open tail into the second.
pub proof fn lemma_split_open_append(cur: Seq<char>, x: Seq<char>, y: Seq<char>)
    ensures
        spec_split_open(cur, x + y).0 == spec_split_open(cur, x).0 + spec_split_open(
            spec_split_open(cur, x).1,
            y,
        ).0,
        spec_split_open(cur, x + y).1 == spec_split_open(spec_split_open(cur, x).1, y).1,
    decreases x.len(),
{
    if x.len() == 0 {
        assert(x + y =~= y);
        assert(spec_split_open(cur, x).0 + spec_split_open(cur, y).0 =~= spec_split_open(
            cur,
            y,
        ).0);
    } else if x[0] == '\n' {
        assert((x + y)[0] == '\n');
        assert((x + y).skip(1) =~= x.skip(1) + y);
        lemma_split_open_append(seq![], x.skip(1), y);
        let a = spec_split_open(seq![], x.skip(1));
        let b = spec_split_open(a.1, y);
        assert(spec_split_open(cur, x + y).0 =~= seq![cur] + (a.0 + b.0));
        assert(spec_split_open(cur, x).0 + b.0 =~= seq![cur] + (a.0 + b.0));
    } else {
        assert((x + y)[0] == x[0]);
        assert((x + y).skip(1) =~= x.skip(1) + y);
        lemma_split_open_append(cur.push(x[0]), x.skip(1), y);
    }
}

/// Splitting one more character: a newline closes the open segment,
/// any other character extends it.
pub proof fn lemma_split_open_single(cur: Seq<char>, c: char)
    ensures
        c == '\n' ==> spec_split_open(cur, seq![c]).0 == seq![cur] && spec_split_open(
            cur,
            seq![c],
        ).1 == Seq::<char>::empty(),
        c != '\n' ==> spec_split_open(cur, seq![c]).0 == Seq::<Seq<char>>::empty()
            && spec_split_open(cur, seq![c]).1 == cur.push(c),
{
    let e = Seq::<char>::empty();
    assert(seq![c].skip(1) =~= e);
    assert(spec_split_open(e, e).0 =~= Seq::<Seq<char>>::empty());
    if c == '\n' {
        assert(spec_split_open(cur, seq![c]).0 =~= seq![cur] + spec_split_open(e, e).0);
        assert(seq![cur] + Seq::<Seq<char>>::empty() =~= seq![cur]);
    } else {
        assert(spec_split_open(cur, seq![c]) == spec_split_open(cur.push(c), e));
    }
}

/// With timestamps disabled, the stamped segments are the segments.
pub proof fn lemma_stamped_plain(segs: Seq<Seq<char>>, prev_done: bool, ts: Seq<char>)
    ensures
        spec_stamped_segments(segs, prev_done, false, ts) == segs,
{
    assert(spec_stamped_segments(segs, prev_done, false, ts) =~= segs);
}

/// Law: with timestamps disabled, feeding a chunk appends exactly that
/// chunk to the stream the message list stands for. Rejoining the
/// produced lines with newlines therefore recovers the concatenation of
/// everything fed, however it was chunked.
pub proof fn lemma_feed_content(msgs: Seq<Seq<char>>, done: bool, chunk: Seq<char>, ts: Seq<char>)
    requires
        chunk.len() > 0,
        !done ==> msgs.len() > 0,
    ensures
        spec_content(
            spec_feed_msgs(msgs, done, chunk, false, ts),
            spec_feed_done(chunk),
        ) == spec_content(msgs, done) + chunk,
        !spec_feed_done(chunk) ==> spec_feed_msgs(msgs, done, chunk, false, ts).len() > 0,
{
    let carry = if done {
        seq![]
    } else {
        msgs.last()
    };
    let base = if done {
        msgs
    } else {
        msgs.drop_last()
    };
    let inc = carry + chunk;
    let r = spec_split_open(seq![], inc);
    lemma_split_open_join(seq![], inc);
    lemma_split_open_tail(seq![], inc);
    lemma_stamped_plain(spec_segments(inc), done, ts);
    let msgs2 = base + spec_segments(inc);
    assert(spec_join(r.0) + r.1 =~= inc);
    assert(inc.len() > 0 && inc.last() == chunk.last());
    if spec_feed_done(chunk) {
        assert(r.1.len() == 0);
        assert(spec_segments(inc) == r.0);
        lemma_join_append(base, r.0);
        assert(spec_join(r.0) =~= inc);
        if done {
            assert(inc =~= chunk);
            assert(spec_join(base) + inc =~= spec_content(msgs, done) + chunk);
        } else {
            assert(spec_join(base) + inc =~= (spec_join(base) + carry) + chunk);
        }
    } else {
        assert(r.1.len() > 0);
        assert(spec_segments(inc) == r.0.push(r.1));
        assert(msgs2.len() > 0);
        assert(msgs2.last() == r.1);
        assert(msgs2.drop_last() =~= base + r.0);
        lemma_join_append(base, r.0);
        assert(spec_content(msgs2, false) =~= spec_join(base) + (spec_join(r.0) + r.1));
        if done {
            assert(inc =~= chunk);
            assert(spec_join(base) + inc =~= spec_content(msgs, done) + chunk);
        } else {
            assert(spec_join(base) + inc =~= (spec_join(base) + carry) + chunk);
        }
    }
}

/// Law: with timestamps disabled, feeding two chunks in turn leaves the
/// same message list and done flag as feeding their concatenation in
/// one piece (split-point independence of the line reassembly).
pub proof fn lemma_feed_chunking(
    msgs: Seq<Seq<char>>,
    done: bool,
    a: Seq<char>,
    b: Seq<char>,
    ts: Seq<char>,
)
    requires
        a.len() > 0,
        b.len() > 0,
        !done ==> msgs.len() > 0,
    ensures
        !spec_feed_done(a) ==> spec_feed_msgs(msgs, done, a, false, ts).len() > 0,
        spec_feed_msgs(
            spec_feed_msgs(msgs, done, a, false, ts),
            spec_feed_done(a),
            b,
            false,
            ts,
        ) == spec_feed_msgs(msgs, done, a + b, false, ts),
        spec_feed_done(b) == spec_feed_done(a + b),
{
    let carry = if done {
        seq![]
    } else {
        msgs.last()
    };
    let base = if done {
        msgs
    } else {
        msgs.drop_last()
    };
    let inc_a = carry + a;
    let ra = spec_split_open(seq![], inc_a);
    lemma_split_open_tail(seq![], inc_a);
    lemma_stamped_plain(spec_segments(inc_a), done, ts);
    let m1 = base + spec_segments(inc_a);
    let done1 = spec_feed_done(a);
    assert(inc_a.len() > 0 && inc_a.last() == a.last());
    assert(carry + (a + b) =~= inc_a + b);
    lemma_split_open_append(seq![], inc_a, b);
    let sb = spec_split_open(ra.1, b);
    let rab = spec_split_open(seq![], inc_a + b);
    assert(rab.0 == ra.0 + sb.0 && rab.1 == sb.1);
    assert((a + b).len() > 0 && (a + b).last() == b.last());
    lemma_stamped_plain(spec_segments(inc_a + b), done, ts);
    if done1 {
        assert(ra.1.len() == 0);
        assert(spec_segments(inc_a) == ra.0);
        // continuing from an empty open tail is a fresh split of b
        assert(ra.1 =~= Seq::<char>::empty());
        lemma_stamped_plain(spec_segments(seq![] + b), true, ts);
        assert(seq![] + b =~= b);
        let rb = spec_split_open(seq![], b);
        assert(sb == rb);
        lemma_stamped_plain(spec_segments(b), true, ts);
        if rb.1.len() == 0 {
            assert(m1 + spec_segments(b) =~= base + (ra.0 + rb.0));
            assert(spec_segments(inc_a + b) == rab.0);
        } else {
            assert(spec_segments(inc_a + b) == rab.0.push(rb.1));
            assert(m1 + spec_segments(b) =~= base + (ra.0 + rb.0).push(rb.1));
            assert((ra.0 + rb.0).push(rb.1) =~= ra.0 + rb.0.push(rb.1));
        }
        assert(spec_feed_msgs(m1, done1, b, false, ts) =~= spec_feed_msgs(
            msgs,
            done,
            a + b,
            false,
            ts,
        ));
    } else {
        assert(ra.1.len() > 0);
        assert(spec_segments(inc_a) == ra.0.push(ra.1));
        assert(m1.len() > 0);
        assert(m1.last() == ra.1);
        assert(m1.drop_last() =~= base + ra.0);
        // the open tail holds no newline, so splitting `tail ++ b` afresh
        // continues exactly where the first split stopped
        lemma_split_open_append(seq![], ra.1, b);
        lemma_split_open_flat(seq![], ra.1);
        assert(seq![] + ra.1 =~= ra.1);
        let rtb = spec_split_open(seq![], ra.1 + b);
        assert(spec_split_open(ra.1, b) == sb);
        assert(rtb.0 =~= sb.0);
        assert(rtb.1 == sb.1);
        lemma_stamped_plain(spec_segments(ra.1 + b), false, ts);
        if sb.1.len() == 0 {
            assert(spec_segments(ra.1 + b) =~= sb.0);
            assert(spec_segments(inc_a + b) == rab.0);
            assert((base + ra.0) + sb.0 =~= base + (ra.0 + sb.0));
        } else {
            assert(spec_segments(ra.1 + b) =~= sb.0.push(sb.1));
            assert(spec_segments(inc_a + b) == rab.0.push(sb.1));
            assert((base + ra.0) + sb.0.push(sb.1) =~= base + (ra.0 + sb.0).push(sb.1));
        }
        assert(spec_feed_msgs(m1, done1, b, false, ts) =~= spec_feed_msgs(
            msgs,
            done,
            a + b,
            false,
            ts,
        ));
    }
}

/// The decoder state after feeding a whole sequence of non-empty
/// chunks in order, timestamps disabled.
pub open spec fn spec_feed_all(msgs: Seq<Seq<char>>, done: bool, chunks: Seq<Seq<char>>) -> (
    Seq<Seq<char>>,
    bool,
)
    decreases chunks.len(),
{
    if chunks.len() == 0 {
        (msgs, done)
    } else {
        spec_feed_all(
            spec_feed_msgs(msgs, done, chunks[0], false, seq![]),
            spec_feed_done(chunks[0]),
            chunks.skip(1),
        )
    }
}

/// Law: for any sequence of non-empty chunks, the stream the final
/// message list stands for is the initial stream plus the
/// concatenation of everything fed. Rejoining the produced lines with
/// newlines therefore recovers the whole input, however it was
/// chunked.
pub proof fn lemma_feed_all_content(msgs: Seq<Seq<char>>, done: bool, chunks: Seq<Seq<char>>)
    requires
        forall|i: int| 0 <= i < chunks.len() ==> chunks[i].len() > 0,
        !done ==> msgs.len() > 0,
    ensures
        spec_content(
            spec_feed_all(msgs, done, chunks).0,
            spec_feed_all(msgs, done, chunks).1,
        ) == spec_content(msgs, done) + chunks.flatten(),
        !spec_feed_all(msgs, done, chunks).1 ==> spec_feed_all(msgs, done, chunks).0.len() > 0,
    decreases chunks.len(),
{
    if chunks.len() == 0 {
        assert(chunks.flatten() == Seq::<char>::empty());
        assert(spec_content(msgs, done) + Seq::<char>::empty() =~= spec_content(msgs, done));
    } else {
        let m1 = spec_feed_msgs(msgs, done, chunks[0], false, seq![]);
        let d1 = spec_feed_done(chunks[0]);
        lemma_feed_content(msgs, done, chunks[0], seq![]);
        lemma_feed_all_content(m1, d1, chunks.skip(1));
        assert(spec_feed_all(msgs, done, chunks) == spec_feed_all(m1, d1, chunks.skip(1)));
        assert(chunks.flatten() == chunks[0] + chunks.drop_first().flatten());
        assert(chunks.drop_first() =~= chunks.skip(1));
        assert((spec_content(msgs, done) + chunks[0]) + chunks.skip(1).flatten()
            =~= spec_content(msgs, done) + (chunks[0] + chunks.skip(1).flatten()));
    }
}

/// Law: split-point independence for whole streams — feeding any
/// sequence of non-empty chunks one at a time leaves exactly the
/// message list and done flag of feeding their concatenation in one
/// piece (timestamps disabled).
pub proof fn lemma_feed_all_chunking(msgs: Seq<Seq<char>>, done: bool, chunks: Seq<Seq<char>>)
    requires
        chunks.len() > 0,
        forall|i: int| 0 <= i < chunks.len() ==> chunks[i].len() > 0,
        !done ==> msgs.len() > 0,
    ensures
        spec_feed_all(msgs, done, chunks).0 == spec_feed_msgs(
            msgs,
            done,
            chunks.flatten(),
            false,
            seq![],
        ),
        spec_feed_all(msgs, done, chunks).1 == spec_feed_done(chunks.flatten()),
    decreases chunks.len(),
{
    let m1 = spec_feed_msgs(msgs, done, chunks[0], false, seq![]);
    let d1 = spec_feed_done(chunks[0]);
    lemma_feed_content(msgs, done, chunks[0], seq![]);
    assert(spec_feed_all(msgs, done, chunks) == spec_feed_all(m1, d1, chunks.skip(1)));
    assert(chunks.flatten() == chunks[0] + chunks.drop_first().flatten());
    assert(chunks.drop_first() =~= chunks.skip(1));
    if chunks.len() == 1 {
        assert(chunks.skip(1) =~= Seq::<Seq<char>>::empty());
        assert(chunks.skip(1).flatten() == Seq::<char>::empty());
        assert(spec_feed_all(m1, d1, chunks.skip(1)).0 == m1);
        assert(spec_feed_all(m1, d1, chunks.skip(1)).1 == d1);
        assert(chunks[0] + Seq::<char>::empty() =~= chunks[0]);
    } else {
        let rest = chunks.skip(1);
        assert(rest.flatten() == rest[0] + rest.drop_first().flatten());
        assert(rest.flatten().len() > 0);
        lemma_feed_all_chunking(m1, d1, rest);
        lemma_feed_chunking(msgs, done, chunks[0], rest.flatten(), seq![]);
    }
}

} // verus!
