//! One dashboard tab: a channel with an optional readable and an
//! optional writable endpoint, a fixed data format, and all decoding
//! state for that channel — decoded display lines, decoded samples,
//! the leftover bytes of an incomplete trailing unit, the operator's
//! pending input line, and the scroll offset.

use crate::binary::{decode_samples, spec_sample_rest, spec_samples};
use crate::external::{pop_char, push_char};
use crate::strutil::{append_copy, str_chars, string_from_chars};
use crate::window::{spec_clamp_offset, spec_visible};
use crate::text::{
    lemma_split_open_append, lemma_split_open_single, lemma_split_open_tail, spec_feed_count,
    spec_feed_done,
    spec_feed_msgs, spec_segments, spec_split_open, spec_stamp, spec_stamped_segments,
};
use vstd::prelude::*;

verus! {

/// How a channel's bytes are decoded. Fixed for the channel's lifetime.
#[derive(Clone, Copy, Debug, PartialEq, Eq, Structural)]
pub enum DataFormat {
    /// Newline-delimited text, decoded lossily as UTF-8.
    Text,
    /// 32-bit samples, least significant byte first.
    BinarySamples,
    /// Structured log frames decoded by an external frame decoder.
    StructuredLog,
}

/// One explicitly configured channel: endpoint numbers to claim for
/// each direction, an optional display name, and the data format.
#[derive(Clone, Debug)]
pub struct ChannelConfig {
    pub up: Option<usize>,
    pub down: Option<usize>,
    pub name: Option<String>,
    pub format: DataFormat,
}

/// A discovered endpoint, reduced to what the dashboard reads of it:
/// its stable numeric id and its advertised name.
#[derive(Clone, Debug)]
pub struct ChannelDesc {
    pub number: usize,
    pub name: Option<String>,
}

/// The advertised name of an optional endpoint, as a character sequence.
pub open spec fn spec_opt_name(d: Option<ChannelDesc>) -> Option<Seq<char>> {
    match d {
        Some(c) => match c.name {
            Some(n) => Some(n@),
            None => None,
        },
        None => None,
    }
}

/// Display-name resolution: the explicit name, else the readable
/// endpoint's advertised name, else the writable endpoint's, else a
/// fixed placeholder.
pub open spec fn spec_resolved_name(
    explicit: Option<Seq<char>>,
    up: Option<Seq<char>>,
    down: Option<Seq<char>>,
) -> Seq<char> {
    if explicit is Some {
        explicit->0
    } else if up is Some {
        up->0
    } else if down is Some {
        down->0
    } else {
        "Unnamed channel"@
    }
}

/// The scroll offset after `k` more lines were pushed: an offset of 0
/// stays pinned to the newest line; a non-zero offset grows by one per
/// pushed line (saturating), keeping the previously visible content
/// anchored as history grows beneath it.
pub open spec fn spec_scroll_after(s: nat, k: nat) -> nat {
    if s == 0 {
        0
    } else if s + k <= usize::MAX {
        (s + k) as nat
    } else {
        usize::MAX as nat
    }
}

/// The scroll offset after one step up, saturating at the top.
pub open spec fn spec_scroll_up(s: nat) -> nat {
    if s < usize::MAX {
        (s + 1) as nat
    } else {
        s
    }
}

pub struct ChannelState {
    up: Option<ChannelDesc>,
    down: Option<ChannelDesc>,
    name: String,
    format: DataFormat,
    messages: Vec<String>,
    data: Vec<u32>,
    leftovers: Vec<u8>,
    frames: Vec<u8>,
    last_line_done: bool,
    input: String,
    scroll_offset: usize,
    show_timestamps: bool,
}

impl ChannelState {
    /// The decoded display lines, as character sequences.
    pub closed spec fn messages_model(self) -> Seq<Seq<char>> {
        self.messages@.map_values(|s: String| s@)
    }

    pub closed spec fn spec_up(self) -> Option<ChannelDesc> {
        self.up
    }

    pub closed spec fn spec_down(self) -> Option<ChannelDesc> {
        self.down
    }

    pub closed spec fn spec_name(self) -> Seq<char> {
        self.name@
    }

    pub closed spec fn spec_format(self) -> DataFormat {
        self.format
    }

    pub closed spec fn spec_data(self) -> Seq<u32> {
        self.data@
    }

    pub closed spec fn spec_leftovers(self) -> Seq<u8> {
        self.leftovers@
    }

    /// The frame arena: bytes of a structured-log channel not yet
    /// consumed by the frame decoder.
    pub closed spec fn spec_frames(self) -> Seq<u8> {
        self.frames@
    }

    pub closed spec fn spec_last_line_done(self) -> bool {
        self.last_line_done
    }

    pub closed spec fn spec_input(self) -> Seq<char> {
        self.input@
    }

    pub closed spec fn spec_scroll_offset(self) -> nat {
        self.scroll_offset as nat
    }

    pub closed spec fn spec_show_timestamps(self) -> bool {
        self.show_timestamps
    }

    /// The channel's identity and configuration: endpoints, name,
    /// format and the timestamp setting.
    pub open spec fn same_config(self, other: ChannelState) -> bool {
        &&& self.spec_up() == other.spec_up()
        &&& self.spec_down() == other.spec_down()
        &&& self.spec_name() == other.spec_name()
        &&& self.spec_format() == other.spec_format()
        &&& self.spec_show_timestamps() == other.spec_show_timestamps()
    }

    /// The decoded content: display lines, samples, leftovers and the
    /// open-line flag.
    pub open spec fn same_content(self, other: ChannelState) -> bool {
        &&& self.messages_model() == other.messages_model()
        &&& self.spec_data() == other.spec_data()
        &&& self.spec_leftovers() == other.spec_leftovers()
        &&& self.spec_frames() == other.spec_frames()
        &&& self.spec_last_line_done() == other.spec_last_line_done()
    }

    /// Invariant: the leftover buffer never holds a complete unit, an
    /// open last line implies there is a last line, and a channel has
    /// at least one endpoint.
    pub open spec fn wf(self) -> bool {
        &&& self.spec_leftovers().len() < 4
        &&& (!self.spec_last_line_done() ==> self.messages_model().len() > 0)
        &&& (self.spec_up() is Some || self.spec_down() is Some)
    }

    /// Create a decoder for one channel. At least one endpoint must be
    /// present; the display name is resolved from the explicit name,
    /// then either endpoint's advertised name.
    pub fn new(
        up: Option<ChannelDesc>,
        down: Option<ChannelDesc>,
        name: Option<String>,
        show_timestamps: bool,
        format: DataFormat,
    ) -> (r: ChannelState)
        requires
            up is Some || down is Some,
        ensures
            r.wf(),
            r.spec_up() == up,
            r.spec_down() == down,
            r.spec_format() == format,
            r.spec_show_timestamps() == show_timestamps,
            r.spec_name() == spec_resolved_name(
                match name {
                    Some(n) => Some(n@),
                    None => None,
                },
                spec_opt_name(up),
                spec_opt_name(down),
            ),
            r.messages_model() == Seq::<Seq<char>>::empty(),
            r.spec_data() == Seq::<u32>::empty(),
            r.spec_leftovers() == Seq::<u8>::empty(),
            r.spec_frames() == Seq::<u8>::empty(),
            r.spec_last_line_done(),
            r.spec_input() == Seq::<char>::empty(),
            r.spec_scroll_offset() == 0,
    {
        let mut resolved: Option<String> = name;
        if resolved.is_none() {
            if let Some(u) = &up {
                if let Some(n) = &u.name {
                    resolved = Some(n.clone());
                }
            }
        }
        if resolved.is_none() {
            if let Some(d) = &down {
                if let Some(n) = &d.name {
                    resolved = Some(n.clone());
                }
            }
        }
        let name_s: String = match resolved {
            Some(s) => s,
            None => "Unnamed channel".to_owned(),
        };
        let r = ChannelState {
            up,
            down,
            name: name_s,
            format,
            messages: Vec::new(),
            data: Vec::new(),
            leftovers: Vec::new(),
            frames: Vec::new(),
            last_line_done: true,
            input: String::new(),
            scroll_offset: 0,
            show_timestamps,
        };
        proof {
            assert(r.messages_model() =~= Seq::<Seq<char>>::empty());
        }
        r
    }

    pub fn has_down_channel(&self) -> (r: bool)
        ensures
            r == (self.spec_down() is Some),
    {
        self.down.is_some()
    }

    pub fn messages(&self) -> (r: &Vec<String>)
        ensures
            r@.map_values(|s: String| s@) == self.messages_model(),
    {
        &self.messages
    }

    pub fn data(&self) -> (r: &Vec<u32>)
        ensures
            r@ == self.spec_data(),
    {
        &self.data
    }

    pub fn input(&self) -> (r: &str)
        ensures
            r@ == self.spec_input(),
    {
        self.input.as_str()
    }

    pub fn name(&self) -> (r: &str)
        ensures
            r@ == self.spec_name(),
    {
        self.name.as_str()
    }

    pub fn format(&self) -> (r: DataFormat)
        ensures
            r == self.spec_format(),
    {
        self.format
    }

    pub fn last_line_done(&self) -> (r: bool)
        ensures
            r == self.spec_last_line_done(),
    {
        self.last_line_done
    }

    pub fn leftovers(&self) -> (r: &Vec<u8>)
        ensures
            r@ == self.spec_leftovers(),
    {
        &self.leftovers
    }

    /// The numeric id of the readable endpoint, if the channel has one.
    pub fn up_number(&self) -> (r: Option<usize>)
        ensures
            r == match self.spec_up() {
                Some(d) => Some(d.number),
                None => None,
            },
    {
        match &self.up {
            Some(u) => Some(u.number),
            None => None,
        }
    }

    /// The numeric id of the writable endpoint, if the channel has one.
    pub fn down_number(&self) -> (r: Option<usize>)
        ensures
            r == match self.spec_down() {
                Some(d) => Some(d.number),
                None => None,
            },
    {
        match &self.down {
            Some(d) => Some(d.number),
            None => None,
        }
    }

    pub fn scroll_offset(&self) -> (r: usize)
        ensures
            r as nat == self.spec_scroll_offset(),
    {
        self.scroll_offset
    }

    pub fn set_scroll_offset(&mut self, value: usize)
        ensures
            final(self).spec_scroll_offset() == value as nat,
            final(self).same_config(*old(self)),
            final(self).same_content(*old(self)),
            final(self).spec_input() == old(self).spec_input(),
            old(self).wf() ==> final(self).wf(),
    {
        self.scroll_offset = value;
    }

    /// Scroll one line away from the newest content, saturating.
    pub fn scroll_up(&mut self)
        ensures
            final(self).spec_scroll_offset() == spec_scroll_up(old(self).spec_scroll_offset()),
            final(self).same_config(*old(self)),
            final(self).same_content(*old(self)),
            final(self).spec_input() == old(self).spec_input(),
            old(self).wf() ==> final(self).wf(),
    {
        if self.scroll_offset < usize::MAX {
            self.scroll_offset = self.scroll_offset + 1;
        }
    }

    /// Scroll one line towards the newest content, stopping at it.
    pub fn scroll_down(&mut self)
        ensures
            final(self).spec_scroll_offset() == if old(self).spec_scroll_offset() > 0 {
                (old(self).spec_scroll_offset() - 1) as nat
            } else {
                0
            },
            final(self).same_config(*old(self)),
            final(self).same_content(*old(self)),
            final(self).spec_input() == old(self).spec_input(),
            old(self).wf() ==> final(self).wf(),
    {
        if self.scroll_offset > 0 {
            self.scroll_offset = self.scroll_offset - 1;
        }
    }

    /// Append one character to the pending input line.
    pub fn input_push(&mut self, c: char)
        ensures
            final(self).spec_input() == old(self).spec_input().push(c),
            final(self).same_config(*old(self)),
            final(self).same_content(*old(self)),
            final(self).spec_scroll_offset() == old(self).spec_scroll_offset(),
            old(self).wf() ==> final(self).wf(),
    {
        push_char(&mut self.input, c);
    }

    /// Drop the last character of the pending input line, if any.
    pub fn input_backspace(&mut self)
        ensures
            final(self).spec_input() == if old(self).spec_input().len() > 0 {
                old(self).spec_input().drop_last()
            } else {
                old(self).spec_input()
            },
            final(self).same_config(*old(self)),
            final(self).same_content(*old(self)),
            final(self).spec_scroll_offset() == old(self).spec_scroll_offset(),
            old(self).wf() ==> final(self).wf(),
    {
        let _ = pop_char(&mut self.input);
    }

    /// Decode one chunk of a binary-sample channel: the leftover bytes
    /// joined with the chunk are decoded as complete four-byte groups,
    /// and the new remainder (at most three bytes) is kept back.
    pub fn process_binary(&mut self, chunk: &[u8])
        requires
            old(self).wf(),
        ensures
            final(self).wf(),
            final(self).same_config(*old(self)),
            final(self).spec_input() == old(self).spec_input(),
            final(self).spec_data() == old(self).spec_data() + spec_samples(
                old(self).spec_leftovers() + chunk@,
            ),
            final(self).spec_leftovers() == spec_sample_rest(old(self).spec_leftovers() + chunk@),
            final(self).spec_frames() == old(self).spec_frames(),
            final(self).messages_model() == old(self).messages_model(),
            final(self).spec_last_line_done() == old(self).spec_last_line_done(),
            final(self).spec_scroll_offset() == old(self).spec_scroll_offset(),
    {
        append_copy(&mut self.leftovers, chunk);
        decode_samples(&mut self.leftovers, &mut self.data);
    }

    /// Decode one chunk of a text channel, already lossily converted to
    /// characters, using `ts` as the timestamp text for every line the
    /// chunk completes: the line left open by the previous chunk is
    /// taken back and reassembled, the stream is split on newlines, and
    /// scrolled-back content stays anchored as new lines are pushed.
    pub fn process_text(&mut self, chunk: &Vec<char>, ts: &Vec<char>)
        requires
            old(self).wf(),
        ensures
            final(self).wf(),
            final(self).same_config(*old(self)),
            final(self).spec_input() == old(self).spec_input(),
            final(self).spec_data() == old(self).spec_data(),
            final(self).spec_leftovers() == old(self).spec_leftovers(),
            final(self).spec_frames() == old(self).spec_frames(),
            chunk@.len() == 0 ==> final(self).same_content(*old(self))
                && final(self).spec_scroll_offset() == old(self).spec_scroll_offset(),
            chunk@.len() > 0 ==> final(self).messages_model() == spec_feed_msgs(
                old(self).messages_model(),
                old(self).spec_last_line_done(),
                chunk@,
                old(self).spec_show_timestamps(),
                ts@,
            ) && final(self).spec_last_line_done() == spec_feed_done(chunk@)
                && final(self).spec_scroll_offset() == spec_scroll_after(
                old(self).spec_scroll_offset(),
                spec_feed_count(
                    old(self).messages_model(),
                    old(self).spec_last_line_done(),
                    chunk@,
                ),
            ),
    {
        if chunk.len() == 0 {
            return ;
        }
        let ghost m0 = self.messages_model();
        let ghost s0 = self.scroll_offset as nat;
        let prev_done = self.last_line_done;
        let show_ts = self.show_timestamps;
        let ghost carry: Seq<char> = if prev_done {
            seq![]
        } else {
            m0.last()
        };
        let ghost base: Seq<Seq<char>> = if prev_done {
            m0
        } else {
            m0.drop_last()
        };
        let mut incoming: Vec<char>;
        if !prev_done {
            let last = self.messages.pop().unwrap();
            incoming = str_chars(last.as_str());
            proof {
                assert(self.messages@.map_values(|s: String| s@) =~= base);
            }
        } else {
            incoming = Vec::new();
            proof {
                assert(incoming@ =~= carry);
            }
        }
        append_copy(&mut incoming, chunk.as_slice());
        let ghost inc = incoming@;
        proof {
            assert(inc == carry + chunk@);
        }
        let n = incoming.len();
        let mut cur: Vec<char> = Vec::new();
        let mut seg_idx: usize = 0;
        let mut j: usize = 0;
        proof {
            assert(inc.take(0) =~= Seq::<char>::empty());
            assert(spec_split_open(Seq::<char>::empty(), inc.take(0)).0
                =~= Seq::<Seq<char>>::empty());
            assert(self.messages@.map_values(|s: String| s@) =~= base + spec_stamped_segments(
                spec_split_open(Seq::<char>::empty(), inc.take(0)).0,
                prev_done,
                show_ts,
                ts@,
            ));
        }
        while j < n
            invariant
                n == incoming.len(),
                inc == incoming@,
                j <= n,
                seg_idx <= j,
                ({
                    let sp = spec_split_open(Seq::<char>::empty(), inc.take(j as int));
                    &&& seg_idx as nat == sp.0.len()
                    &&& cur@ == sp.1
                    &&& self.messages@.map_values(|s: String| s@) == base + spec_stamped_segments(
                        sp.0,
                        prev_done,
                        show_ts,
                        ts@,
                    )
                }),
                self.scroll_offset as nat == spec_scroll_after(s0, seg_idx as nat),
                self.up == old(self).up,
                self.down == old(self).down,
                self.name == old(self).name,
                self.format == old(self).format,
                self.input == old(self).input,
                self.show_timestamps == old(self).show_timestamps,
                self.data == old(self).data,
                self.leftovers == old(self).leftovers,
                self.frames == old(self).frames,
                self.last_line_done == old(self).last_line_done,
                prev_done == old(self).last_line_done,
                show_ts == old(self).show_timestamps,
            decreases n - j,
        {
            let c = incoming[j];
            let ghost sp = spec_split_open(Seq::<char>::empty(), inc.take(j as int));
            proof {
                assert(inc.take(j as int + 1) =~= inc.take(j as int) + seq![c]);
                lemma_split_open_append(Seq::<char>::empty(), inc.take(j as int), seq![c]);
                lemma_split_open_single(sp.1, c);
            }
            if c == '\n' {
                proof {
                    assert(spec_split_open(sp.1, seq![c]).0 =~= seq![sp.1]);
                    assert(spec_split_open(sp.1, seq![c]).1 =~= Seq::<char>::empty());
                }
                let mut line: Vec<char> = Vec::new();
                if show_ts && (prev_done || seg_idx > 0) {
                    append_copy(&mut line, ts.as_slice());
                    line.push(' ');
                    append_copy(&mut line, cur.as_slice());
                    proof {
                        assert(line@ =~= spec_stamp(ts@, cur@));
                    }
                } else {
                    append_copy(&mut line, cur.as_slice());
                    proof {
                        assert(line@ =~= cur@);
                    }
                }
                let s = string_from_chars(&line);
                let ghost msgs_before = self.messages@;
                self.messages.push(s);
                proof {
                    assert(self.messages@.map_values(|t: String| t@) =~= msgs_before.map_values(
                        |t: String| t@,
                    ).push(line@));
                    assert(spec_stamped_segments(sp.0.push(sp.1), prev_done, show_ts, ts@)
                        =~= spec_stamped_segments(sp.0, prev_done, show_ts, ts@).push(
                        if show_ts && (prev_done || sp.0.len() > 0) {
                            spec_stamp(ts@, sp.1)
                        } else {
                            sp.1
                        },
                    ));
                    assert((base + spec_stamped_segments(sp.0, prev_done, show_ts, ts@)).push(line@)
                        =~= base + spec_stamped_segments(sp.0, prev_done, show_ts, ts@).push(
                        line@,
                    ));
                }
                if self.scroll_offset != 0 {
                    if self.scroll_offset < usize::MAX {
                        self.scroll_offset = self.scroll_offset + 1;
                    }
                }
                seg_idx = seg_idx + 1;
                cur.clear();
            } else {
                proof {
                    assert(spec_split_open(sp.1, seq![c]).0 =~= Seq::<Seq<char>>::empty());
                    assert(spec_split_open(sp.1, seq![c]).1 =~= sp.1.push(c));
                    assert(sp.0 + Seq::<Seq<char>>::empty() =~= sp.0);
                }
                cur.push(c);
            }
            j = j + 1;
        }
        let ghost r = spec_split_open(Seq::<char>::empty(), inc);
        proof {
            assert(inc.take(n as int) =~= inc);
        }
        if cur.len() > 0 {
            proof {
                assert(spec_segments(inc) == r.0.push(r.1));
            }
            let mut line: Vec<char> = Vec::new();
            if show_ts && (prev_done || seg_idx > 0) {
                append_copy(&mut line, ts.as_slice());
                line.push(' ');
                append_copy(&mut line, cur.as_slice());
                proof {
                    assert(line@ =~= spec_stamp(ts@, cur@));
                }
            } else {
                append_copy(&mut line, cur.as_slice());
                proof {
                    assert(line@ =~= cur@);
                }
            }
            let s = string_from_chars(&line);
            let ghost msgs_before = self.messages@;
            self.messages.push(s);
            proof {
                assert(self.messages@.map_values(|t: String| t@) =~= msgs_before.map_values(
                    |t: String| t@,
                ).push(line@));
                assert(spec_stamped_segments(r.0.push(r.1), prev_done, show_ts, ts@)
                    =~= spec_stamped_segments(r.0, prev_done, show_ts, ts@).push(
                    if show_ts && (prev_done || r.0.len() > 0) {
                        spec_stamp(ts@, r.1)
                    } else {
                        r.1
                    },
                ));
                assert((base + spec_stamped_segments(r.0, prev_done, show_ts, ts@)).push(line@)
                    =~= base + spec_stamped_segments(r.0, prev_done, show_ts, ts@).push(line@));
            }
            if self.scroll_offset != 0 {
                if self.scroll_offset < usize::MAX {
                    self.scroll_offset = self.scroll_offset + 1;
                }
            }
        } else {
            proof {
                assert(spec_segments(inc) == r.0);
            }
        }
        let last_c = chunk[chunk.len() - 1];
        self.last_line_done = last_c == '\n';
        proof {
            assert(chunk@.last() == last_c);
            assert(inc.len() > 0 && inc.last() == chunk@.last());
            lemma_split_open_tail(Seq::<char>::empty(), inc);
            assert(final(self).messages_model() == base + spec_stamped_segments(
                spec_segments(inc),
                prev_done,
                show_ts,
                ts@,
            ));
        }
    }

    /// Close the pending input line and hand back the bytes to send to
    /// the writable endpoint: the line plus a newline, UTF-8 encoded.
    /// The pending line is cleared whether or not the transport write
    /// later succeeds. No-op (None) without a writable endpoint.
    pub fn push_rtt(&mut self) -> (r: Option<Vec<u8>>)
        ensures
            final(self).same_config(*old(self)),
            final(self).same_content(*old(self)),
            final(self).spec_scroll_offset() == old(self).spec_scroll_offset(),
            old(self).spec_down() is None ==> r is None && final(self).spec_input() == old(self).spec_input(),
            old(self).spec_down() is Some ==> r is Some && r->0@ == vstd::utf8::encode_utf8(
                old(self).spec_input().push('\n'),
            ) && final(self).spec_input() == Seq::<char>::empty(),
            old(self).wf() ==> final(self).wf(),
    {
        if self.down.is_some() {
            self.input.append("\n");
            proof {
                reveal_strlit("\n");
                assert(self.input@ =~= old(self).spec_input().push('\n'));
            }
            let bytes = vstd::slice::slice_to_vec(self.input.as_str().as_bytes());
            self.input = String::new();
            Some(bytes)
        } else {
            None
        }
    }

    /// Consume one transport read according to this channel's format:
    /// text chunks are lossily decoded to characters and split into
    /// lines, stamped with the wall clock when enabled; binary chunks
    /// are decoded as samples. A structured-log channel needs the
    /// decoder tables and takes `process_structured` instead. An empty
    /// chunk — a poll that found no data — changes nothing.
    pub fn poll_rtt(&mut self, chunk: &[u8])
        requires
            old(self).wf(),
            old(self).spec_format() != DataFormat::StructuredLog,
        ensures
            final(self).wf(),
            final(self).same_config(*old(self)),
            final(self).spec_input() == old(self).spec_input(),
            final(self).spec_frames() == old(self).spec_frames(),
            old(self).spec_format() == DataFormat::BinarySamples ==> final(self).spec_data()
                == old(self).spec_data() + spec_samples(old(self).spec_leftovers() + chunk@)
                && final(self).spec_leftovers() == spec_sample_rest(
                old(self).spec_leftovers() + chunk@,
            ) && final(self).messages_model() == old(self).messages_model()
                && final(self).spec_last_line_done() == old(self).spec_last_line_done()
                && final(self).spec_scroll_offset() == old(self).spec_scroll_offset(),
            old(self).spec_format() == DataFormat::Text ==> final(self).spec_data() == old(self).spec_data() && final(self).spec_leftovers() == old(self).spec_leftovers(),
            old(self).spec_format() == DataFormat::Text && chunk@.len() == 0 ==> final(self).same_content(*old(self)) && final(self).spec_scroll_offset() == old(self).spec_scroll_offset(),
            old(self).spec_format() == DataFormat::Text && chunk@.len() > 0 ==> exists|ts: Seq<char>|
                {
                    &&& final(self).messages_model() == #[trigger] spec_feed_msgs(
                        old(self).messages_model(),
                        old(self).spec_last_line_done(),
                        crate::external::utf8_lossy_of(chunk@),
                        old(self).spec_show_timestamps(),
                        ts,
                    )
                    &&& final(self).spec_last_line_done() == spec_feed_done(
                        crate::external::utf8_lossy_of(chunk@),
                    )
                    &&& final(self).spec_scroll_offset() == spec_scroll_after(
                        old(self).spec_scroll_offset(),
                        spec_feed_count(
                            old(self).messages_model(),
                            old(self).spec_last_line_done(),
                            crate::external::utf8_lossy_of(chunk@),
                        ),
                    )
                },
    {
        match self.format {
            DataFormat::Text => {
                let ghost pre = *self;
                let ts = crate::external::now_timestamp();
                let tsv = str_chars(ts.as_str());
                let chars = crate::external::utf8_lossy_chars(chunk);
                self.process_text(&chars, &tsv);
                proof {
                    if chunk@.len() > 0 {
                        assert(self.messages_model() == spec_feed_msgs(
                            pre.messages_model(),
                            pre.spec_last_line_done(),
                            crate::external::utf8_lossy_of(chunk@),
                            pre.spec_show_timestamps(),
                            tsv@,
                        ));
                        assert(self.spec_last_line_done() == spec_feed_done(
                            crate::external::utf8_lossy_of(chunk@),
                        ));
                        assert(self.spec_scroll_offset() == spec_scroll_after(
                            pre.spec_scroll_offset(),
                            spec_feed_count(
                                pre.messages_model(),
                                pre.spec_last_line_done(),
                                crate::external::utf8_lossy_of(chunk@),
                            ),
                        ));
                    }
                }
            },
            DataFormat::BinarySamples => {
                self.process_binary(chunk);
            },
            DataFormat::StructuredLog => {
            },
        }
    }

    /// Consume one transport read for a structured-log channel: the
    /// bytes join the frame arena, and the external frame decoder runs
    /// until it needs more bytes. Each decoded frame appends its
    /// rendered text as one display line, followed, when the location
    /// table knows the frame, by a source-location line; consumed bytes
    /// leave the arena, unconsumed ones wait for the next poll.
    pub fn process_structured(
        &mut self,
        chunk: &[u8],
        table: &defmt_decoder::Table,
        locs: Option<&defmt_elf2table::Locations>,
        cwd: &str,
    )
        requires
            old(self).wf(),
        ensures
            final(self).wf(),
            final(self).same_config(*old(self)),
            final(self).spec_input() == old(self).spec_input(),
            final(self).spec_data() == old(self).spec_data(),
            final(self).spec_leftovers() == old(self).spec_leftovers(),
            final(self).spec_last_line_done() == old(self).spec_last_line_done(),
            final(self).spec_scroll_offset() == old(self).spec_scroll_offset(),
            exists|added: Seq<Seq<char>>|
                final(self).messages_model() == old(self).messages_model() + added,
            exists|k: int|
                0 <= k <= old(self).spec_frames().len() + chunk@.len() && final(self).spec_frames()
                    == (old(self).spec_frames() + chunk@).skip(k),
    {
        append_copy(&mut self.frames, chunk);
        proof {
            assert(old(self).messages_model() + Seq::<Seq<char>>::empty() =~= old(self).messages_model());
            assert((old(self).spec_frames() + chunk@).skip(0) =~= self.frames@);
        }
        loop
            invariant
                self.wf(),
                self.same_config(*old(self)),
                self.input == old(self).input,
                self.data == old(self).data,
                self.leftovers == old(self).leftovers,
                self.last_line_done == old(self).last_line_done,
                self.scroll_offset == old(self).scroll_offset,
                exists|added: Seq<Seq<char>>|
                    self.messages_model() == old(self).messages_model() + added,
                exists|k: int|
                    0 <= k <= old(self).spec_frames().len() + chunk@.len() && self.frames@ == (old(self).spec_frames() + chunk@).skip(k),
            decreases self.frames.len(),
        {
            let step = crate::external::decode_frame(table, &self.frames);
            match step {
                None => {
                    break ;
                },
                Some((line, index, consumed)) => {
                    let ghost mb = self.messages@;
                    let ghost lv = line@;
                    self.messages.push(line);
                    proof {
                        let a0 = choose|a: Seq<Seq<char>>|
                            mb.map_values(|t: String| t@) == old(self).messages_model() + a;
                        assert(self.messages@.map_values(|t: String| t@) =~= mb.map_values(
                            |t: String| t@,
                        ).push(lv));
                        assert(self.messages_model() =~= old(self).messages_model() + a0.push(lv));
                    }
                    if let Some(lt) = locs {
                        if let Some((file, lineno)) = crate::external::frame_location(
                            lt,
                            index,
                            cwd,
                        ) {
                            let loc_line = location_line(file.as_str(), lineno);
                            let ghost mb2 = self.messages@;
                            let ghost llv = loc_line@;
                            self.messages.push(loc_line);
                            proof {
                                let a1 = choose|a: Seq<Seq<char>>|
                                    mb2.map_values(|t: String| t@) == old(self).messages_model()
                                        + a;
                                assert(self.messages@.map_values(|t: String| t@)
                                    =~= mb2.map_values(|t: String| t@).push(llv));
                                assert(self.messages_model() =~= old(self).messages_model()
                                    + a1.push(llv));
                            }
                        }
                    }
                    let ghost fb = self.frames@;
                    crate::binary::drop_prefix(&mut self.frames, consumed);
                    proof {
                        let k0 = choose|k: int|
                            0 <= k <= old(self).spec_frames().len() + chunk@.len() && fb == (old(self).spec_frames() + chunk@).skip(k);
                        assert(self.frames@ =~= (old(self).spec_frames() + chunk@).skip(
                            k0 + consumed,
                        ));
                    }
                },
            }
        }
    }

    /// The visual rows to paint: every display line word-wrapped at
    /// `width`, then windowed to the last `height` rows ending
    /// `scroll_offset` rows before the newest. The offset is first
    /// clamped so the window never reaches past the first row, and the
    /// clamped value is written back.
    pub fn visible_lines(&mut self, height: usize, width: usize) -> (r: Vec<String>)
        requires
            old(self).wf(),
        ensures
            final(self).wf(),
            final(self).same_config(*old(self)),
            final(self).same_content(*old(self)),
            final(self).spec_input() == old(self).spec_input(),
            final(self).spec_scroll_offset() == spec_clamp_offset(
                spec_wrapped_all(old(self).messages_model(), width as nat).len(),
                height as nat,
                old(self).spec_scroll_offset(),
            ),
            r@.map_values(|s: String| s@) == spec_visible(
                spec_wrapped_all(old(self).messages_model(), width as nat),
                height as nat,
                old(self).spec_scroll_offset(),
            ),
            r@.len() <= height,
    {
        let ghost w = width as nat;
        let mut wrapped: Vec<String> = Vec::new();
        let n = self.messages.len();
        let mut i: usize = 0;
        proof {
            assert(self.messages_model().take(0) =~= Seq::<Seq<char>>::empty());
            assert(wrapped@.map_values(|s: String| s@) =~= spec_wrapped_all(
                self.messages_model().take(0),
                w,
            ));
        }
        while i < n
            invariant
                *self == *old(self),
                n == self.messages@.len(),
                i <= n,
                w == width as nat,
                wrapped@.map_values(|s: String| s@) == spec_wrapped_all(
                    self.messages_model().take(i as int),
                    w,
                ),
            decreases n - i,
        {
            let ghost before = wrapped@;
            let mut part = crate::external::wrap_line(self.messages[i].as_str(), width);
            let ghost part_view = part@;
            wrapped.append(&mut part);
            proof {
                assert(part_view.map_values(|s: String| s@) == crate::external::spec_wrapped(
                    self.messages_model()[i as int],
                    w,
                ));
                lemma_wrapped_all_snoc(self.messages_model().take(i as int + 1), w);
                assert(self.messages_model().take(i as int + 1).drop_last()
                    =~= self.messages_model().take(i as int));
                assert(self.messages_model().take(i as int + 1).last() == self.messages_model()[i
                    as int]);
                assert(wrapped@.map_values(|s: String| s@) =~= before.map_values(|s: String| s@)
                    + part_view.map_values(|s: String| s@));
            }
            i = i + 1;
        }
        proof {
            assert(self.messages_model().take(n as int) =~= self.messages_model());
        }
        let ghost wm = wrapped@.map_values(|s: String| s@);
        let total = wrapped.len();
        let (start, end, c) = crate::window::window_bounds(total, height, self.scroll_offset);
        self.scroll_offset = c;
        let mut r: Vec<String> = Vec::new();
        let mut k = start;
        proof {
            assert(r@.map_values(|s: String| s@) =~= wm.subrange(start as int, start as int));
        }
        while k < end
            invariant
                start <= k <= end,
                end <= total,
                total == wrapped@.len(),
                wm == wrapped@.map_values(|s: String| s@),
                r@.map_values(|s: String| s@) == wm.subrange(start as int, k as int),
                r@.len() == k - start,
            decreases end - k,
        {
            let ghost rb = r@;
            let s = wrapped[k].clone();
            r.push(s);
            proof {
                assert(r@.map_values(|t: String| t@) =~= rb.map_values(|t: String| t@).push(
                    wm[k as int],
                ));
                assert(wm.subrange(start as int, k as int).push(wm[k as int]) =~= wm.subrange(
                    start as int,
                    k as int + 1,
                ));
            }
            k = k + 1;
        }
        r
    }
}

/// The display line annotating a decoded frame with its source
/// location: an elbow marker, the file path, a colon and the line
/// number.
pub fn location_line(file: &str, line: u64) -> (r: String)
    ensures
        r@ == "\u{2514}\u{2500} "@ + file@ + ":"@ + crate::strutil::spec_dec_digits(line as nat),
{
    let mut lc: Vec<char> = str_chars("\u{2514}\u{2500} ");
    let fc = str_chars(file);
    append_copy(&mut lc, fc.as_slice());
    let colon = str_chars(":");
    append_copy(&mut lc, colon.as_slice());
    crate::strutil::push_decimal(&mut lc, line);
    string_from_chars(&lc)
}

/// Every display line word-wrapped at `w`, flattened in order: the
/// window counts visual rows, not logical lines.
pub open spec fn spec_wrapped_all(msgs: Seq<Seq<char>>, w: nat) -> Seq<Seq<char>>
    decreases msgs.len(),
{
    if msgs.len() == 0 {
        seq![]
    } else {
        crate::external::spec_wrapped(msgs[0], w) + spec_wrapped_all(msgs.skip(1), w)
    }
}

proof fn lemma_wrapped_all_snoc(m: Seq<Seq<char>>, w: nat)
    requires
        m.len() > 0,
    ensures
        spec_wrapped_all(m, w) == spec_wrapped_all(m.drop_last(), w) + crate::external::spec_wrapped(
            m.last(),
            w,
        ),
    decreases m.len(),
{
    let e = Seq::<Seq<char>>::empty();
    if m.len() == 1 {
        assert(m.skip(1) =~= e);
        assert(spec_wrapped_all(e, w) =~= e);
        assert(m.drop_last() =~= e);
        assert(spec_wrapped_all(m, w) =~= crate::external::spec_wrapped(m[0], w) + e);
        assert(crate::external::spec_wrapped(m[0], w) + e =~= crate::external::spec_wrapped(
            m[0],
            w,
        ));
        assert(e + crate::external::spec_wrapped(m.last(), w) =~= crate::external::spec_wrapped(
            m.last(),
            w,
        ));
    } else {
        lemma_wrapped_all_snoc(m.skip(1), w);
        assert(m.drop_last().skip(1) =~= m.skip(1).drop_last());
        assert(m.skip(1).last() == m.last());
        assert(m.drop_last()[0] == m[0]);
        assert(m.drop_last().len() > 0);
        assert(spec_wrapped_all(m.drop_last(), w) =~= crate::external::spec_wrapped(m[0], w)
            + spec_wrapped_all(m.skip(1).drop_last(), w));
        assert(spec_wrapped_all(m, w) =~= crate::external::spec_wrapped(m[0], w) + (
        spec_wrapped_all(m.skip(1).drop_last(), w) + crate::external::spec_wrapped(m.last(), w)));
        assert(crate::external::spec_wrapped(m[0], w) + (spec_wrapped_all(m.skip(1).drop_last(), w)
            + crate::external::spec_wrapped(m.last(), w)) =~= (crate::external::spec_wrapped(
            m[0],
            w,
        ) + spec_wrapped_all(m.skip(1).drop_last(), w)) + crate::external::spec_wrapped(
            m.last(),
            w,
        ));
    }
}

} // verus!
