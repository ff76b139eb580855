//! The dashboard orchestrator: the ordered tabs (one channel decoder
//! each), the selected tab, the construction-time pairing of discovered
//! endpoints into tabs, the per-event state machine, and the shutdown
//! plan that serializes each channel's content to a log file.

use crate::channel::{
    spec_opt_name, spec_resolved_name, spec_scroll_up, ChannelConfig,
    ChannelDesc, ChannelState, DataFormat,
};
use vstd::prelude::*;

verus! {

/// The index of the first endpoint with number `n`, if any.
pub open spec fn spec_find_number(s: Seq<ChannelDesc>, n: usize) -> Option<int>
    decreases s.len(),
{
    if s.len() == 0 {
        None
    } else if s[0].number == n {
        Some(0)
    } else {
        match spec_find_number(s.skip(1), n) {
            Some(i) => Some(i + 1),
            None => None,
        }
    }
}

pub proof fn lemma_find_number(s: Seq<ChannelDesc>, n: usize)
    ensures
        match spec_find_number(s, n) {
            Some(i) => 0 <= i < s.len() && s[i].number == n && forall|j: int|
                0 <= j < i ==> s[j].number != n,
            None => forall|j: int| 0 <= j < s.len() ==> s[j].number != n,
        },
    decreases s.len(),
{
    if s.len() > 0 && s[0].number != n {
        lemma_find_number(s.skip(1), n);
        match spec_find_number(s.skip(1), n) {
            Some(i) => {
                assert(forall|j: int| 0 <= j < i + 1 ==> s[j].number != n) by {
                    assert(forall|j: int|
                        1 <= j < i + 1 ==> s[j].number == s.skip(1)[j - 1].number && s.skip(
                            1,
                        )[j - 1].number != n);
                }
            },
            None => {
                assert(forall|j: int|
                    1 <= j < s.len() ==> s[j].number == s.skip(1)[j - 1].number && s.skip(1)[j
                        - 1].number != n);
            },
        }
    }
}

/// Claiming an endpoint by number: the first match leaves the list, the
/// rest keep their order; no match leaves the list unchanged.
pub open spec fn spec_pull(s: Seq<ChannelDesc>, n: usize) -> (Option<ChannelDesc>, Seq<
    ChannelDesc,
>) {
    match spec_find_number(s, n) {
        Some(i) => (Some(s[i]), s.remove(i)),
        None => (None, s),
    }
}

/// Remove and return the first endpoint with number `n`, if any.
pub fn pull_channel(channels: &mut Vec<ChannelDesc>, n: usize) -> (r: Option<ChannelDesc>)
    ensures
        r == spec_pull(old(channels)@, n).0,
        final(channels)@ == spec_pull(old(channels)@, n).1,
{
    let len = channels.len();
    let mut i: usize = 0;
    while i < len
        invariant
            len == channels@.len(),
            i <= len,
            channels@ == old(channels)@,
            forall|j: int| 0 <= j < i ==> old(channels)@[j].number != n,
        decreases len - i,
    {
        if channels[i].number == n {
            let c = channels.remove(i);
            proof {
                lemma_find_number(old(channels)@, n);
                match spec_find_number(old(channels)@, n) {
                    Some(k) => {
                        if k < i as int {
                            assert(old(channels)@[k].number != n);
                        }
                        if k > i as int {
                            assert(old(channels)@[i as int].number != n);
                        }
                        assert(k == i as int);
                    },
                    None => {
                        assert(old(channels)@[i as int].number != n);
                        assert(false);
                    },
                }
            }
            return Some(c);
        }
        i = i + 1;
    }
    proof {
        lemma_find_number(old(channels)@, n);
        match spec_find_number(old(channels)@, n) {
            Some(k) => {
                assert(old(channels)@[k].number != n);
                assert(false);
            },
            None => {},
        }
    }
    None
}

/// What one tab is built from: its claimed readable and writable
/// endpoints, the explicit display name, and the data format.
pub open spec fn spec_tab_matches(
    t: ChannelState,
    up: Option<ChannelDesc>,
    down: Option<ChannelDesc>,
    name: Option<Seq<char>>,
    format: DataFormat,
    show_ts: bool,
) -> bool {
    &&& t.spec_up() == up
    &&& t.spec_down() == down
    &&& t.spec_format() == format
    &&& t.spec_name() == spec_resolved_name(name, spec_opt_name(up), spec_opt_name(down))
    &&& t.spec_show_timestamps() == show_ts
    &&& t.wf()
    &&& t.messages_model() == Seq::<Seq<char>>::empty()
    &&& t.spec_data() == Seq::<u32>::empty()
    &&& t.spec_input() == Seq::<char>::empty()
    &&& t.spec_scroll_offset() == 0
}

/// The endpoints each explicitly configured entry claims, in configured
/// order: each entry pulls the matching endpoint by numeric id from
/// what earlier entries left.
pub open spec fn spec_config_pairing(
    cfg: Seq<ChannelConfig>,
    ups: Seq<ChannelDesc>,
    downs: Seq<ChannelDesc>,
) -> Seq<(Option<ChannelDesc>, Option<ChannelDesc>, Option<Seq<char>>, DataFormat)>
    decreases cfg.len(),
{
    if cfg.len() == 0 {
        seq![]
    } else {
        let pu = match cfg[0].up {
            Some(nu) => spec_pull(ups, nu),
            None => (None, ups),
        };
        let pd = match cfg[0].down {
            Some(nd) => spec_pull(downs, nd),
            None => (None, downs),
        };
        seq![
            (
                pu.0,
                pd.0,
                match cfg[0].name {
                    Some(s) => Some(s@),
                    None => None,
                },
                cfg[0].format,
            ),
        ] + spec_config_pairing(cfg.skip(1), pu.1, pd.1)
    }
}

/// Whether every configured entry claims at least one endpoint: a
/// channel with neither side cannot exist.
pub open spec fn spec_config_ok(
    cfg: Seq<ChannelConfig>,
    ups: Seq<ChannelDesc>,
    downs: Seq<ChannelDesc>,
) -> bool
    decreases cfg.len(),
{
    if cfg.len() == 0 {
        true
    } else {
        let pu = match cfg[0].up {
            Some(nu) => spec_pull(ups, nu),
            None => (None, ups),
        };
        let pd = match cfg[0].down {
            Some(nd) => spec_pull(downs, nd),
            None => (None, downs),
        };
        (pu.0 is Some || pd.0 is Some) && spec_config_ok(cfg.skip(1), pu.1, pd.1)
    }
}

/// Auto-pairing when no explicit configuration is given: every readable
/// endpoint becomes a text tab, claiming the writable endpoint with the
/// same numeric id if one remains; every writable endpoint left over
/// becomes a write-only text tab.
pub open spec fn spec_auto_pairing(ups: Seq<ChannelDesc>, downs: Seq<ChannelDesc>) -> Seq<
    (Option<ChannelDesc>, Option<ChannelDesc>, Option<Seq<char>>, DataFormat),
>
    decreases ups.len(),
{
    if ups.len() == 0 {
        downs.map_values(
            |d: ChannelDesc|
                (
                    Option::<ChannelDesc>::None,
                    Some(d),
                    Option::<Seq<char>>::None,
                    DataFormat::Text,
                ),
        )
    } else {
        let p = spec_pull(downs, ups[0].number);
        seq![
            (Some(ups[0]), p.0, Option::<Seq<char>>::None, DataFormat::Text),
        ] + spec_auto_pairing(ups.skip(1), p.1)
    }
}

/// One input event, as the dashboard state machine sees it.
#[derive(Clone, Copy, Debug)]
pub enum AppEvent {
    /// Select the tab at this index; out-of-range indices do nothing.
    TabSelect(usize),
    /// One typed character for the active channel's pending input line.
    Character(char),
    /// Remove the last character of the active pending input line.
    Backspace,
    /// Submit the active pending input line to its writable endpoint.
    Submit,
    /// Scroll the active tab one line away from the newest content.
    ScrollUp,
    /// Scroll the active tab one line towards the newest content.
    ScrollDown,
    /// Shut the dashboard down.
    Quit,
}

/// What the caller must do after one event step.
pub enum AppAction {
    /// Nothing beyond the state change already made.
    Idle,
    /// Send these bytes to the active channel's writable endpoint.
    Write(Vec<u8>),
    /// Enter shutdown: write the log files and leave the loop.
    Shutdown,
}

pub struct App {
    tabs: Vec<ChannelState>,
    current_tab: usize,
    logname: String,
    log_enabled: bool,
}

impl App {
    pub closed spec fn spec_tabs(self) -> Seq<ChannelState> {
        self.tabs@
    }

    pub closed spec fn spec_current(self) -> nat {
        self.current_tab as nat
    }

    pub closed spec fn spec_logname(self) -> Seq<char> {
        self.logname@
    }

    pub closed spec fn spec_log_enabled(self) -> bool {
        self.log_enabled
    }

    /// Invariant: at least one tab, the selected index in range, every
    /// tab well-formed.
    pub open spec fn wf(self) -> bool {
        &&& self.spec_tabs().len() > 0
        &&& self.spec_current() < self.spec_tabs().len()
        &&& forall|i: int| 0 <= i < self.spec_tabs().len() ==> self.spec_tabs()[i].wf()
    }

    /// Build the dashboard from the discovered endpoints. With explicit
    /// configuration, one tab per entry in configured order; otherwise
    /// auto-pairing. Fails when no tab results, or when a configured
    /// entry claims no endpoint at all.
    #[verifier::loop_isolation(false)]
    pub fn new(
        ups: Vec<ChannelDesc>,
        downs: Vec<ChannelDesc>,
        config: Vec<ChannelConfig>,
        show_timestamps: bool,
        log_enabled: bool,
        logname: String,
    ) -> (r: Result<App, String>)
        ensures
            ({
                let pairs = if config@.len() > 0 {
                    spec_config_pairing(config@, ups@, downs@)
                } else {
                    spec_auto_pairing(ups@, downs@)
                };
                let ok = if config@.len() > 0 {
                    spec_config_ok(config@, ups@, downs@)
                } else {
                    ups@.len() + downs@.len() > 0
                };
                match r {
                    Ok(app) => {
                        &&& ok
                        &&& app.wf()
                        &&& app.spec_tabs().len() == pairs.len()
                        &&& forall|i: int|
                            0 <= i < pairs.len() ==> spec_tab_matches(
                                app.spec_tabs()[i],
                                pairs[i].0,
                                pairs[i].1,
                                pairs[i].2,
                                pairs[i].3,
                                show_timestamps,
                            )
                        &&& app.spec_current() == 0
                        &&& app.spec_logname() == logname@
                        &&& app.spec_log_enabled() == log_enabled
                    },
                    Err(_) => !ok,
                }
            }),
    {
        let ghost cfg0 = config@;
        let ghost ups0 = ups@;
        let ghost downs0 = downs@;
        let mut ups = ups;
        let mut downs = downs;
        let mut tabs: Vec<ChannelState> = Vec::new();
        if config.len() > 0 {
            let cfg_len = config.len();
            let mut i: usize = 0;
            let ghost mut done: Seq<
                (Option<ChannelDesc>, Option<ChannelDesc>, Option<Seq<char>>, DataFormat),
            > = Seq::empty();
            proof {
                assert(cfg0.skip(0) =~= cfg0);
                assert(done + spec_config_pairing(cfg0, ups@, downs@) =~= spec_config_pairing(
                    cfg0,
                    ups@,
                    downs@,
                ));
            }
            while i < cfg_len
                invariant
                    cfg_len == config@.len(),
                    cfg0 == config@,
                    i <= cfg_len,
                    tabs@.len() == i,
                    done.len() == i,
                    spec_config_pairing(cfg0, ups0, downs0) == done + spec_config_pairing(
                        cfg0.skip(i as int),
                        ups@,
                        downs@,
                    ),
                    spec_config_ok(cfg0, ups0, downs0) == spec_config_ok(
                        cfg0.skip(i as int),
                        ups@,
                        downs@,
                    ),
                    forall|j: int|
                        0 <= j < i ==> spec_tab_matches(
                            #[trigger] tabs@[j],
                            done[j].0,
                            done[j].1,
                            done[j].2,
                            done[j].3,
                            show_timestamps,
                        ),
                decreases cfg_len - i,
            {
                let ghost ups_b = ups@;
                let ghost downs_b = downs@;
                let ghost rest = cfg0.skip(i as int);
                proof {
                    assert(rest[0] == cfg0[i as int]);
                    assert(rest.skip(1) =~= cfg0.skip(i as int + 1));
                }
                let entry = &config[i];
                let up = match entry.up {
                    Some(nu) => pull_channel(&mut ups, nu),
                    None => None,
                };
                let down = match entry.down {
                    Some(nd) => pull_channel(&mut downs, nd),
                    None => None,
                };
                if up.is_none() && down.is_none() {
                    proof {
                        assert(!spec_config_ok(rest, ups_b, downs_b));
                    }
                    return Err(
                        "Failed to initialize RTT UI: A configured channel has no RTT endpoints".to_owned(),
                    );
                }
                let name = match &entry.name {
                    Some(s) => Some(s.clone()),
                    None => None,
                };
                let ghost head = (
                    up,
                    down,
                    match cfg0[i as int].name {
                        Some(s) => Some(s@),
                        None => None,
                    },
                    cfg0[i as int].format,
                );
                let tab = ChannelState::new(up, down, name, show_timestamps, entry.format);
                tabs.push(tab);
                proof {
                    assert(spec_config_pairing(rest, ups_b, downs_b) == seq![head]
                        + spec_config_pairing(cfg0.skip(i as int + 1), ups@, downs@));
                    assert(done + (seq![head] + spec_config_pairing(
                        cfg0.skip(i as int + 1),
                        ups@,
                        downs@,
                    )) =~= done.push(head) + spec_config_pairing(
                        cfg0.skip(i as int + 1),
                        ups@,
                        downs@,
                    ));
                    done = done.push(head);
                }
                i = i + 1;
            }
            proof {
                assert(cfg0.skip(cfg_len as int) =~= Seq::<ChannelConfig>::empty());
                assert(done + Seq::<
                    (Option<ChannelDesc>, Option<ChannelDesc>, Option<Seq<char>>, DataFormat),
                >::empty() =~= done);
            }
        } else {
            let ups_len = ups.len();
            let mut i: usize = 0;
            let ghost mut done: Seq<
                (Option<ChannelDesc>, Option<ChannelDesc>, Option<Seq<char>>, DataFormat),
            > = Seq::empty();
            proof {
                assert(done + spec_auto_pairing(ups@, downs@) =~= spec_auto_pairing(ups@, downs@));
            }
            while i < ups_len
                invariant
                    i <= ups_len,
                    ups@.len() == ups_len - i,
                    tabs@.len() == i,
                    done.len() == i,
                    spec_auto_pairing(ups0, downs0) == done + spec_auto_pairing(ups@, downs@),
                    forall|j: int|
                        0 <= j < i ==> spec_tab_matches(
                            #[trigger] tabs@[j],
                            done[j].0,
                            done[j].1,
                            done[j].2,
                            done[j].3,
                            show_timestamps,
                        ),
                decreases ups_len - i,
            {
                let ghost ups_b = ups@;
                let ghost downs_b = downs@;
                let u = ups.remove(0);
                let number = u.number;
                let down = pull_channel(&mut downs, number);
                let ghost head = (
                    Some(ups_b[0]),
                    down,
                    Option::<Seq<char>>::None,
                    DataFormat::Text,
                );
                let tab = ChannelState::new(Some(u), down, None, show_timestamps, DataFormat::Text);
                tabs.push(tab);
                proof {
                    assert(ups_b.skip(1) =~= ups@);
                    assert(spec_auto_pairing(ups_b, downs_b) == seq![head] + spec_auto_pairing(
                        ups@,
                        downs@,
                    ));
                    assert(done + (seq![head] + spec_auto_pairing(ups@, downs@)) =~= done.push(head)
                        + spec_auto_pairing(ups@, downs@));
                    done = done.push(head);
                }
                i = i + 1;
            }
            let ghost downs_left = downs@;
            proof {
                assert(spec_auto_pairing(ups@, downs@) =~= downs_left.map_values(
                    |d: ChannelDesc|
                        (
                            Option::<ChannelDesc>::None,
                            Some(d),
                            Option::<Seq<char>>::None,
                            DataFormat::Text,
                        ),
                ));
            }
            let downs_len = downs.len();
            let mut k: usize = 0;
            while k < downs_len
                invariant
                    downs_len == downs@.len(),
                    downs@ == downs_left,
                    k <= downs_len,
                    tabs@.len() == ups_len + k,
                    done.len() == ups_len,
                    spec_auto_pairing(ups0, downs0) == done + downs_left.map_values(
                        |d: ChannelDesc|
                            (
                                Option::<ChannelDesc>::None,
                                Some(d),
                                Option::<Seq<char>>::None,
                                DataFormat::Text,
                            ),
                    ),
                    forall|j: int|
                        0 <= j < ups_len + k ==> spec_tab_matches(
                            #[trigger] tabs@[j],
                            spec_auto_pairing(ups0, downs0)[j].0,
                            spec_auto_pairing(ups0, downs0)[j].1,
                            spec_auto_pairing(ups0, downs0)[j].2,
                            spec_auto_pairing(ups0, downs0)[j].3,
                            show_timestamps,
                        ),
                decreases downs_len - k,
            {
                let d = ChannelDesc {
                    number: downs[k].number,
                    name: match &downs[k].name {
                        Some(s) => Some(s.clone()),
                        None => None,
                    },
                };
                proof {
                    assert(d == downs_left[k as int]);
                    assert(spec_auto_pairing(ups0, downs0)[ups_len + k as int] == (
                        Option::<ChannelDesc>::None,
                        Some(downs_left[k as int]),
                        Option::<Seq<char>>::None,
                        DataFormat::Text,
                    ));
                }
                let tab = ChannelState::new(None, Some(d), None, show_timestamps, DataFormat::Text);
                tabs.push(tab);
                k = k + 1;
            }
            proof {
                assert(spec_auto_pairing(ups0, downs0).len() == ups_len + downs_len);
            }
        }
        if tabs.len() == 0 {
            return Err("Failed to initialize RTT UI: No RTT channels configured".to_owned());
        }
        Ok(App { tabs, current_tab: 0, logname, log_enabled })
    }
}

/// One per-channel log file of the shutdown plan.
pub struct LogFile {
    pub name: String,
    pub contents: Vec<u8>,
}

/// The bytes of one 32-bit sample, least significant first: exactly
/// the bytes the sample was decoded from.
pub open spec fn spec_le_bytes(x: u32) -> Seq<u8> {
    seq![
        (x % 0x100) as u8,
        ((x / 0x100) % 0x100) as u8,
        ((x / 0x10000) % 0x100) as u8,
        ((x / 0x1000000) % 0x100) as u8,
    ]
}

/// The raw byte stream a sample sequence is persisted as.
pub open spec fn spec_sample_bytes(d: Seq<u32>) -> Seq<u8>
    decreases d.len(),
{
    if d.len() == 0 {
        seq![]
    } else {
        spec_le_bytes(d[0]) + spec_sample_bytes(d.skip(1))
    }
}

/// The text-format log: every display line's UTF-8 bytes, a newline
/// byte after each.
pub open spec fn spec_text_log(msgs: Seq<Seq<char>>) -> Seq<u8>
    decreases msgs.len(),
{
    if msgs.len() == 0 {
        seq![]
    } else {
        vstd::utf8::encode_utf8(msgs[0]) + seq![10u8] + spec_text_log(msgs.skip(1))
    }
}

/// The log file name for the tab at index `i`: session name, tab index
/// and a format-selected extension.
pub open spec fn spec_log_name(logname: Seq<char>, i: nat, fmt: DataFormat) -> Seq<char> {
    logname + "_channel"@ + crate::strutil::spec_dec_digits(i) + "."@ + (if fmt
        == DataFormat::Text {
        "txt"@
    } else {
        "dat"@
    })
}

/// The shutdown plan for the tabs from index `start` on: text and
/// binary channels each yield one file; a structured-log channel yields
/// no file and one diagnostic, since decoded frames cannot faithfully
/// be re-serialized.
pub open spec fn spec_shutdown_plan(tabs: Seq<ChannelState>, logname: Seq<char>, start: nat) -> (
    Seq<(Seq<char>, Seq<u8>)>,
    Seq<Seq<char>>,
)
    decreases tabs.len(),
{
    if tabs.len() == 0 {
        (seq![], seq![])
    } else {
        let rest = spec_shutdown_plan(tabs.skip(1), logname, (start + 1) as nat);
        if tabs[0].spec_format() == DataFormat::Text {
            (
                seq![
                    (
                        spec_log_name(logname, start, DataFormat::Text),
                        spec_text_log(tabs[0].messages_model()),
                    ),
                ] + rest.0,
                rest.1,
            )
        } else if tabs[0].spec_format() == DataFormat::BinarySamples {
            (
                seq![
                    (
                        spec_log_name(logname, start, DataFormat::BinarySamples),
                        spec_sample_bytes(tabs[0].spec_data()),
                    ),
                ] + rest.0,
                rest.1,
            )
        } else {
            (rest.0, seq!["Cannot write defmt output to disk."@] + rest.1)
        }
    }
}

proof fn lemma_le_roundtrip(b0: u8, b1: u8, b2: u8, b3: u8)
    ensures
        spec_le_bytes(crate::binary::spec_le32(b0, b1, b2, b3)) == seq![b0, b1, b2, b3],
{
    let x = crate::binary::spec_le32(b0, b1, b2, b3) as int;
    assert(x == b0 + b1 * 0x100 + b2 * 0x10000 + b3 * 0x1000000);
    assert(x % 0x100 == b0 as int && (x / 0x100) % 0x100 == b1 as int && (x / 0x10000) % 0x100
        == b2 as int && (x / 0x1000000) % 0x100 == b3 as int) by (nonlinear_arith)
        requires
            x == b0 + b1 * 0x100 + b2 * 0x10000 + b3 * 0x1000000,
            b0 < 0x100,
            b1 < 0x100,
            b2 < 0x100,
            b3 < 0x100,
    ;
    assert(spec_le_bytes(crate::binary::spec_le32(b0, b1, b2, b3)) =~= seq![b0, b1, b2, b3]);
}

/// Law: the persisted binary log is byte-identical to the stream its
/// samples were decoded from — re-serializing the decoded samples and
/// appending the undecoded leftover recovers the input bytes exactly.
pub proof fn lemma_sample_roundtrip(b: Seq<u8>)
    ensures
        spec_sample_bytes(crate::binary::spec_samples(b)) + crate::binary::spec_sample_rest(b)
            == b,
    decreases b.len(),
{
    if b.len() < 4 {
        assert(crate::binary::spec_samples(b) =~= Seq::<u32>::empty());
        assert(spec_sample_bytes(crate::binary::spec_samples(b)) =~= Seq::<u8>::empty());
        assert(Seq::<u8>::empty() + b =~= b);
    } else {
        let t = b.skip(4);
        let v = crate::binary::spec_le32(b[0], b[1], b[2], b[3]);
        lemma_sample_roundtrip(t);
        lemma_le_roundtrip(b[0], b[1], b[2], b[3]);
        let s = crate::binary::spec_samples(t);
        assert(crate::binary::spec_samples(b) == seq![v] + s);
        assert((seq![v] + s)[0] == v);
        assert((seq![v] + s).skip(1) =~= s);
        assert(spec_sample_bytes(seq![v] + s) =~= spec_le_bytes(v) + spec_sample_bytes(s));
        assert(crate::binary::spec_sample_rest(b) == crate::binary::spec_sample_rest(t));
        assert((spec_le_bytes(v) + spec_sample_bytes(s)) + crate::binary::spec_sample_rest(t)
            =~= spec_le_bytes(v) + (spec_sample_bytes(s) + crate::binary::spec_sample_rest(t)));
        assert(seq![b[0], b[1], b[2], b[3]] + t =~= b);
    }
}

/// The persisted form of a text channel: each line's bytes, a newline
/// byte after each.
pub fn text_log_bytes(msgs: &Vec<String>) -> (r: Vec<u8>)
    ensures
        r@ == spec_text_log(msgs@.map_values(|s: String| s@)),
{
    let ghost model = msgs@.map_values(|s: String| s@);
    let mut r: Vec<u8> = Vec::new();
    let n = msgs.len();
    let mut i: usize = 0;
    proof {
        assert(model.take(0) =~= Seq::<Seq<char>>::empty());
        assert(r@ =~= spec_text_log(model.take(0)));
    }
    while i < n
        invariant
            n == msgs@.len(),
            i <= n,
            model == msgs@.map_values(|s: String| s@),
            r@ == spec_text_log(model.take(i as int)),
        decreases n - i,
    {
        crate::strutil::append_copy(&mut r, msgs[i].as_str().as_bytes());
        r.push(10u8);
        proof {
            lemma_text_log_snoc(model.take(i as int + 1));
            assert(model.take(i as int + 1).drop_last() =~= model.take(i as int));
            assert(model.take(i as int + 1).last() == model[i as int]);
            assert(spec_text_log(model.take(i as int)) + vstd::utf8::encode_utf8(model[i as int])
                + seq![10u8] =~= (spec_text_log(model.take(i as int)) + vstd::utf8::encode_utf8(
                model[i as int],
            )).push(10u8));
        }
        i = i + 1;
    }
    proof {
        assert(model.take(n as int) =~= model);
    }
    r
}

proof fn lemma_text_log_snoc(m: Seq<Seq<char>>)
    requires
        m.len() > 0,
    ensures
        spec_text_log(m) == spec_text_log(m.drop_last()) + vstd::utf8::encode_utf8(m.last())
            + seq![10u8],
    decreases m.len(),
{
    if m.len() == 1 {
        assert(m.skip(1) =~= Seq::<Seq<char>>::empty());
        assert(m.drop_last() =~= Seq::<Seq<char>>::empty());
        assert(spec_text_log(m) =~= vstd::utf8::encode_utf8(m[0]) + seq![10u8]
            + spec_text_log(m.skip(1)));
        assert(vstd::utf8::encode_utf8(m[0]) + seq![10u8] + Seq::<u8>::empty()
            =~= Seq::<u8>::empty() + vstd::utf8::encode_utf8(m.last()) + seq![10u8]);
    } else {
        lemma_text_log_snoc(m.skip(1));
        assert(m.drop_last().skip(1) =~= m.skip(1).drop_last());
        assert(m.skip(1).last() == m.last());
        assert(m.drop_last()[0] == m[0]);
        assert(m.drop_last().len() > 0);
        assert(spec_text_log(m.drop_last()) =~= vstd::utf8::encode_utf8(m[0]) + seq![10u8]
            + spec_text_log(m.skip(1).drop_last()));
        assert(spec_text_log(m) =~= vstd::utf8::encode_utf8(m[0]) + seq![10u8] + (spec_text_log(
            m.skip(1).drop_last(),
        ) + vstd::utf8::encode_utf8(m.last()) + seq![10u8]));
        assert(vstd::utf8::encode_utf8(m[0]) + seq![10u8] + (spec_text_log(m.skip(1).drop_last())
            + vstd::utf8::encode_utf8(m.last()) + seq![10u8]) =~= (vstd::utf8::encode_utf8(m[0])
            + seq![10u8] + spec_text_log(m.skip(1).drop_last())) + vstd::utf8::encode_utf8(
            m.last(),
        ) + seq![10u8]);
    }
}

/// The persisted form of a binary-sample channel: the samples' bytes,
/// least significant first — the raw stream as it came from the wire.
pub fn sample_log_bytes(data: &Vec<u32>) -> (r: Vec<u8>)
    ensures
        r@ == spec_sample_bytes(data@),
{
    let mut r: Vec<u8> = Vec::new();
    let n = data.len();
    let mut i: usize = 0;
    proof {
        assert(data@.take(0) =~= Seq::<u32>::empty());
        assert(r@ =~= spec_sample_bytes(data@.take(0)));
    }
    while i < n
        invariant
            n == data@.len(),
            i <= n,
            r@ == spec_sample_bytes(data@.take(i as int)),
        decreases n - i,
    {
        let x = data[i];
        r.push((x % 0x100) as u8);
        r.push(((x / 0x100) % 0x100) as u8);
        r.push(((x / 0x10000) % 0x100) as u8);
        r.push(((x / 0x1000000) % 0x100) as u8);
        proof {
            lemma_sample_bytes_snoc(data@.take(i as int + 1));
            assert(data@.take(i as int + 1).drop_last() =~= data@.take(i as int));
            assert(data@.take(i as int + 1).last() == data@[i as int]);
            assert(spec_sample_bytes(data@.take(i as int)) + spec_le_bytes(data@[i as int])
                =~= spec_sample_bytes(data@.take(i as int)).push((x % 0x100) as u8).push(
                ((x / 0x100) % 0x100) as u8,
            ).push(((x / 0x10000) % 0x100) as u8).push(((x / 0x1000000) % 0x100) as u8));
        }
        i = i + 1;
    }
    proof {
        assert(data@.take(n as int) =~= data@);
    }
    r
}

proof fn lemma_sample_bytes_snoc(d: Seq<u32>)
    requires
        d.len() > 0,
    ensures
        spec_sample_bytes(d) == spec_sample_bytes(d.drop_last()) + spec_le_bytes(d.last()),
    decreases d.len(),
{
    if d.len() == 1 {
        assert(d.skip(1) =~= Seq::<u32>::empty());
        assert(d.drop_last() =~= Seq::<u32>::empty());
        assert(spec_sample_bytes(d) =~= spec_le_bytes(d[0]) + spec_sample_bytes(d.skip(1)));
        assert(spec_le_bytes(d[0]) + Seq::<u8>::empty() =~= Seq::<u8>::empty() + spec_le_bytes(
            d.last(),
        ));
    } else {
        lemma_sample_bytes_snoc(d.skip(1));
        assert(d.drop_last().skip(1) =~= d.skip(1).drop_last());
        assert(d.skip(1).last() == d.last());
        assert(d.drop_last()[0] == d[0]);
        assert(d.drop_last().len() > 0);
        assert(spec_sample_bytes(d.drop_last()) =~= spec_le_bytes(d[0]) + spec_sample_bytes(
            d.skip(1).drop_last(),
        ));
        assert(spec_sample_bytes(d) =~= spec_le_bytes(d[0]) + (spec_sample_bytes(
            d.skip(1).drop_last(),
        ) + spec_le_bytes(d.last())));
        assert(spec_le_bytes(d[0]) + (spec_sample_bytes(d.skip(1).drop_last()) + spec_le_bytes(
            d.last(),
        )) =~= (spec_le_bytes(d[0]) + spec_sample_bytes(d.skip(1).drop_last())) + spec_le_bytes(
            d.last(),
        ));
    }
}

/// The log file name for tab `i`.
fn log_file_name(logname: &String, i: usize, text: bool) -> (r: String)
    ensures
        r@ == spec_log_name(
            logname@,
            i as nat,
            if text {
                DataFormat::Text
            } else {
                DataFormat::BinarySamples
            },
        ),
{
    let mut v = crate::strutil::str_chars(logname.as_str());
    let infix = crate::strutil::str_chars("_channel");
    crate::strutil::append_copy(&mut v, infix.as_slice());
    crate::strutil::push_decimal(&mut v, i as u64);
    let dot = crate::strutil::str_chars(".");
    crate::strutil::append_copy(&mut v, dot.as_slice());
    if text {
        let ext = crate::strutil::str_chars("txt");
        crate::strutil::append_copy(&mut v, ext.as_slice());
    } else {
        let ext = crate::strutil::str_chars("dat");
        crate::strutil::append_copy(&mut v, ext.as_slice());
    }
    proof {
        assert((i as u64) as nat == i as nat);
    }
    crate::strutil::string_from_chars(&v)
}

impl App {
    pub fn tab_count(&self) -> (r: usize)
        ensures
            r as nat == self.spec_tabs().len(),
    {
        self.tabs.len()
    }

    pub fn selected_tab(&self) -> (r: usize)
        ensures
            r as nat == self.spec_current(),
    {
        self.current_tab
    }

    pub fn log_enabled(&self) -> (r: bool)
        ensures
            r == self.spec_log_enabled(),
    {
        self.log_enabled
    }

    pub fn logname(&self) -> (r: &str)
        ensures
            r@ == self.spec_logname(),
    {
        self.logname.as_str()
    }

    pub fn tab(&self, i: usize) -> (r: &ChannelState)
        requires
            i < self.spec_tabs().len(),
        ensures
            *r == self.spec_tabs()[i as int],
    {
        &self.tabs[i]
    }

    pub fn current_tab(&self) -> (r: &ChannelState)
        requires
            self.wf(),
        ensures
            *r == self.spec_tabs()[self.spec_current() as int],
    {
        &self.tabs[self.current_tab]
    }

    pub fn tab_format(&self, i: usize) -> (r: DataFormat)
        requires
            i < self.spec_tabs().len(),
        ensures
            r == self.spec_tabs()[i as int].spec_format(),
    {
        self.tabs[i].format()
    }

    /// One step of the event state machine: mutate the dashboard and
    /// say what the caller must do next.
    pub fn handle_event(&mut self, ev: AppEvent) -> (r: AppAction)
        requires
            old(self).wf(),
        ensures
            final(self).wf(),
            final(self).spec_tabs().len() == old(self).spec_tabs().len(),
            final(self).spec_logname() == old(self).spec_logname(),
            final(self).spec_log_enabled() == old(self).spec_log_enabled(),
            forall|i: int|
                0 <= i < old(self).spec_tabs().len() && i != old(self).spec_current() ==> final(self).spec_tabs()[i] == old(self).spec_tabs()[i],
            match ev {
                AppEvent::TabSelect(n) => final(self).spec_tabs() == old(self).spec_tabs() && r
                    is Idle && final(self).spec_current() == if (n as int) < old(self).spec_tabs().len() {
                    n as nat
                } else {
                    old(self).spec_current()
                },
                AppEvent::Character(c) => ({
                    let t0 = old(self).spec_tabs()[old(self).spec_current() as int];
                    let t1 = final(self).spec_tabs()[old(self).spec_current() as int];
                    &&& r is Idle
                    &&& final(self).spec_current() == old(self).spec_current()
                    &&& t1.spec_input() == t0.spec_input().push(c)
                    &&& t1.same_config(t0)
                    &&& t1.same_content(t0)
                    &&& t1.spec_scroll_offset() == t0.spec_scroll_offset()
                }),
                AppEvent::Backspace => ({
                    let t0 = old(self).spec_tabs()[old(self).spec_current() as int];
                    let t1 = final(self).spec_tabs()[old(self).spec_current() as int];
                    &&& r is Idle
                    &&& final(self).spec_current() == old(self).spec_current()
                    &&& t1.spec_input() == if t0.spec_input().len() > 0 {
                        t0.spec_input().drop_last()
                    } else {
                        t0.spec_input()
                    }
                    &&& t1.same_config(t0)
                    &&& t1.same_content(t0)
                    &&& t1.spec_scroll_offset() == t0.spec_scroll_offset()
                }),
                AppEvent::Submit => ({
                    let t0 = old(self).spec_tabs()[old(self).spec_current() as int];
                    let t1 = final(self).spec_tabs()[old(self).spec_current() as int];
                    &&& final(self).spec_current() == old(self).spec_current()
                    &&& t1.same_config(t0)
                    &&& t1.same_content(t0)
                    &&& t1.spec_scroll_offset() == t0.spec_scroll_offset()
                    &&& t0.spec_down() is Some ==> (r matches AppAction::Write(b) && b@
                        == vstd::utf8::encode_utf8(t0.spec_input().push('\n'))
                        && t1.spec_input() == Seq::<char>::empty())
                    &&& t0.spec_down() is None ==> r is Idle && t1.spec_input()
                        == t0.spec_input()
                }),
                AppEvent::ScrollUp => ({
                    let t0 = old(self).spec_tabs()[old(self).spec_current() as int];
                    let t1 = final(self).spec_tabs()[old(self).spec_current() as int];
                    &&& r is Idle
                    &&& final(self).spec_current() == old(self).spec_current()
                    &&& t1.spec_scroll_offset() == spec_scroll_up(t0.spec_scroll_offset())
                    &&& t1.same_config(t0)
                    &&& t1.same_content(t0)
                    &&& t1.spec_input() == t0.spec_input()
                }),
                AppEvent::ScrollDown => ({
                    let t0 = old(self).spec_tabs()[old(self).spec_current() as int];
                    let t1 = final(self).spec_tabs()[old(self).spec_current() as int];
                    &&& r is Idle
                    &&& final(self).spec_current() == old(self).spec_current()
                    &&& t1.spec_scroll_offset() == if t0.spec_scroll_offset() > 0 {
                        (t0.spec_scroll_offset() - 1) as nat
                    } else {
                        0
                    }
                    &&& t1.same_config(t0)
                    &&& t1.same_content(t0)
                    &&& t1.spec_input() == t0.spec_input()
                }),
                AppEvent::Quit => final(self).spec_tabs() == old(self).spec_tabs() && final(self).spec_current() == old(self).spec_current() && r is Shutdown,
            },
    {
        match ev {
            AppEvent::TabSelect(n) => {
                if n < self.tabs.len() {
                    self.current_tab = n;
                }
                AppAction::Idle
            },
            AppEvent::Character(c) => {
                let t = &mut self.tabs[self.current_tab];
                t.input_push(c);
                AppAction::Idle
            },
            AppEvent::Backspace => {
                let t = &mut self.tabs[self.current_tab];
                t.input_backspace();
                AppAction::Idle
            },
            AppEvent::Submit => {
                let t = &mut self.tabs[self.current_tab];
                match t.push_rtt() {
                    Some(b) => AppAction::Write(b),
                    None => AppAction::Idle,
                }
            },
            AppEvent::ScrollUp => {
                let t = &mut self.tabs[self.current_tab];
                t.scroll_up();
                AppAction::Idle
            },
            AppEvent::ScrollDown => {
                let t = &mut self.tabs[self.current_tab];
                t.scroll_down();
                AppAction::Idle
            },
            AppEvent::Quit => AppAction::Shutdown,
        }
    }

    /// Close the active tab's pending input line and hand back the
    /// bytes to send to its writable endpoint, if it has one.
    pub fn push_rtt(&mut self) -> (r: Option<Vec<u8>>)
        requires
            old(self).wf(),
        ensures
            final(self).wf(),
            final(self).spec_tabs().len() == old(self).spec_tabs().len(),
            final(self).spec_current() == old(self).spec_current(),
            final(self).spec_logname() == old(self).spec_logname(),
            final(self).spec_log_enabled() == old(self).spec_log_enabled(),
            forall|j: int|
                0 <= j < old(self).spec_tabs().len() && j != old(self).spec_current() ==> final(self).spec_tabs()[j] == old(self).spec_tabs()[j],
            ({
                let t0 = old(self).spec_tabs()[old(self).spec_current() as int];
                let t1 = final(self).spec_tabs()[old(self).spec_current() as int];
                &&& t1.same_config(t0)
                &&& t1.same_content(t0)
                &&& t1.spec_scroll_offset() == t0.spec_scroll_offset()
                &&& (t0.spec_down() is Some ==> r is Some && r->0@ == vstd::utf8::encode_utf8(
                    t0.spec_input().push('\n'),
                ) && t1.spec_input() == Seq::<char>::empty())
                &&& (t0.spec_down() is None ==> r is None && t1.spec_input() == t0.spec_input())
            }),
    {
        let t = &mut self.tabs[self.current_tab];
        t.push_rtt()
    }

    /// Feed one transport read to the tab at `i` (text or binary
    /// formats). All tabs are polled every cycle, visible or not, so
    /// switching tabs never loses data.
    pub fn poll_rtt(&mut self, i: usize, chunk: &[u8])
        requires
            old(self).wf(),
            i < old(self).spec_tabs().len(),
            old(self).spec_tabs()[i as int].spec_format() != DataFormat::StructuredLog,
        ensures
            final(self).wf(),
            final(self).spec_tabs().len() == old(self).spec_tabs().len(),
            final(self).spec_current() == old(self).spec_current(),
            final(self).spec_logname() == old(self).spec_logname(),
            final(self).spec_log_enabled() == old(self).spec_log_enabled(),
            forall|j: int|
                0 <= j < old(self).spec_tabs().len() && j != i ==> final(self).spec_tabs()[j]
                    == old(self).spec_tabs()[j],
            ({
                let t0 = old(self).spec_tabs()[i as int];
                let t1 = final(self).spec_tabs()[i as int];
                &&& t1.same_config(t0)
                &&& t1.spec_input() == t0.spec_input()
                &&& (t0.spec_format() == DataFormat::BinarySamples ==> t1.spec_data()
                    == t0.spec_data() + crate::binary::spec_samples(t0.spec_leftovers() + chunk@)
                    && t1.spec_leftovers() == crate::binary::spec_sample_rest(
                    t0.spec_leftovers() + chunk@,
                ) && t1.messages_model() == t0.messages_model())
                &&& (t0.spec_format() == DataFormat::Text && chunk@.len() == 0 ==> t1.same_content(
                    t0,
                ))
                &&& (t0.spec_format() == DataFormat::Text && chunk@.len() > 0 ==> exists|ts: Seq<char>|
                    t1.messages_model() == #[trigger] crate::text::spec_feed_msgs(
                        t0.messages_model(),
                        t0.spec_last_line_done(),
                        crate::external::utf8_lossy_of(chunk@),
                        t0.spec_show_timestamps(),
                        ts,
                    ) && t1.spec_last_line_done() == crate::text::spec_feed_done(
                        crate::external::utf8_lossy_of(chunk@),
                    ))
            }),
    {
        let t = &mut self.tabs[i];
        t.poll_rtt(chunk);
    }

    /// Feed one transport read to the structured-log tab at `i`, with
    /// the frame decoder's tables and the working directory that source
    /// paths are shown relative to.
    pub fn poll_structured(
        &mut self,
        i: usize,
        chunk: &[u8],
        table: &defmt_decoder::Table,
        locs: Option<&defmt_elf2table::Locations>,
        cwd: &str,
    )
        requires
            old(self).wf(),
            i < old(self).spec_tabs().len(),
        ensures
            final(self).wf(),
            final(self).spec_tabs().len() == old(self).spec_tabs().len(),
            final(self).spec_current() == old(self).spec_current(),
            final(self).spec_logname() == old(self).spec_logname(),
            final(self).spec_log_enabled() == old(self).spec_log_enabled(),
            forall|j: int|
                0 <= j < old(self).spec_tabs().len() && j != i ==> final(self).spec_tabs()[j]
                    == old(self).spec_tabs()[j],
            final(self).spec_tabs()[i as int].same_config(old(self).spec_tabs()[i as int]),
            exists|added: Seq<Seq<char>>|
                final(self).spec_tabs()[i as int].messages_model() == old(self).spec_tabs()[i
                    as int].messages_model() + added,
    {
        let t = &mut self.tabs[i];
        t.process_structured(chunk, table, locs, cwd);
    }

    /// The visual rows of the active tab for the given viewport, with
    /// the tab's scroll offset clamped and written back.
    pub fn visible_lines(&mut self, height: usize, width: usize) -> (r: Vec<String>)
        requires
            old(self).wf(),
        ensures
            final(self).wf(),
            final(self).spec_tabs().len() == old(self).spec_tabs().len(),
            final(self).spec_current() == old(self).spec_current(),
            final(self).spec_logname() == old(self).spec_logname(),
            final(self).spec_log_enabled() == old(self).spec_log_enabled(),
            forall|j: int|
                0 <= j < old(self).spec_tabs().len() && j != old(self).spec_current() ==> final(self).spec_tabs()[j] == old(self).spec_tabs()[j],
            ({
                let t0 = old(self).spec_tabs()[old(self).spec_current() as int];
                let t1 = final(self).spec_tabs()[old(self).spec_current() as int];
                &&& t1.same_config(t0)
                &&& t1.same_content(t0)
                &&& t1.spec_input() == t0.spec_input()
                &&& t1.spec_scroll_offset() == crate::window::spec_clamp_offset(
                    crate::channel::spec_wrapped_all(t0.messages_model(), width as nat).len(),
                    height as nat,
                    t0.spec_scroll_offset(),
                )
                &&& r@.map_values(|s: String| s@) == crate::window::spec_visible(
                    crate::channel::spec_wrapped_all(t0.messages_model(), width as nat),
                    height as nat,
                    t0.spec_scroll_offset(),
                )
            }),
            r@.len() <= height,
    {
        let t = &mut self.tabs[self.current_tab];
        t.visible_lines(height, width)
    }

    /// The shutdown plan: when session logging is enabled, one log file
    /// per text or binary tab, named by session name, tab index and a
    /// format-selected extension, holding exactly that channel's
    /// content; structured-log tabs yield no file and one diagnostic
    /// each. With logging disabled, nothing.
    #[verifier::loop_isolation(false)]
    pub fn shutdown_files(&self) -> (r: (Vec<LogFile>, Vec<String>))
        requires
            self.wf(),
        ensures
            !self.spec_log_enabled() ==> r.0@.len() == 0 && r.1@.len() == 0,
            self.spec_log_enabled() ==> r.0@.map_values(|f: LogFile| (f.name@, f.contents@))
                == spec_shutdown_plan(self.spec_tabs(), self.spec_logname(), 0).0 && r.1@.map_values(
                |s: String| s@,
            ) == spec_shutdown_plan(self.spec_tabs(), self.spec_logname(), 0).1,
    {
        let mut files: Vec<LogFile> = Vec::new();
        let mut diags: Vec<String> = Vec::new();
        if !self.log_enabled {
            return (files, diags);
        }
        let ghost tabs0 = self.spec_tabs();
        let ghost ln = self.spec_logname();
        let n = self.tabs.len();
        let mut i: usize = 0;
        let ghost mut done_files: Seq<(Seq<char>, Seq<u8>)> = Seq::empty();
        let ghost mut done_diags: Seq<Seq<char>> = Seq::empty();
        proof {
            assert(tabs0.skip(0) =~= tabs0);
            assert(done_files + spec_shutdown_plan(tabs0, ln, 0).0 =~= spec_shutdown_plan(
                tabs0,
                ln,
                0,
            ).0);
            assert(done_diags + spec_shutdown_plan(tabs0, ln, 0).1 =~= spec_shutdown_plan(
                tabs0,
                ln,
                0,
            ).1);
        }
        while i < n
            invariant
                i <= n,
                spec_shutdown_plan(tabs0, ln, 0).0 == done_files + spec_shutdown_plan(
                    tabs0.skip(i as int),
                    ln,
                    i as nat,
                ).0,
                spec_shutdown_plan(tabs0, ln, 0).1 == done_diags + spec_shutdown_plan(
                    tabs0.skip(i as int),
                    ln,
                    i as nat,
                ).1,
                files@.map_values(|f: LogFile| (f.name@, f.contents@)) == done_files,
                diags@.map_values(|s: String| s@) == done_diags,
            decreases n - i,
        {
            let ghost rest = tabs0.skip(i as int);
            proof {
                assert(rest[0] == tabs0[i as int]);
                assert(rest.skip(1) =~= tabs0.skip(i as int + 1));
            }
            let tab = &self.tabs[i];
            let ghost fb = files@;
            let ghost db = diags@;
            match tab.format() {
                DataFormat::Text => {
                    let name = log_file_name(&self.logname, i, true);
                    let contents = text_log_bytes(tab.messages());
                    let ghost head = (name@, contents@);
                    files.push(LogFile { name, contents });
                    proof {
                        assert(files@.map_values(|f: LogFile| (f.name@, f.contents@))
                            =~= fb.map_values(|f: LogFile| (f.name@, f.contents@)).push(head));
                        assert(done_files + (seq![head] + spec_shutdown_plan(
                            tabs0.skip(i as int + 1),
                            ln,
                            (i + 1) as nat,
                        ).0) =~= done_files.push(head) + spec_shutdown_plan(
                            tabs0.skip(i as int + 1),
                            ln,
                            (i + 1) as nat,
                        ).0);
                        done_files = done_files.push(head);
                    }
                },
                DataFormat::BinarySamples => {
                    let name = log_file_name(&self.logname, i, false);
                    let contents = sample_log_bytes(tab.data());
                    let ghost head = (name@, contents@);
                    files.push(LogFile { name, contents });
                    proof {
                        assert(files@.map_values(|f: LogFile| (f.name@, f.contents@))
                            =~= fb.map_values(|f: LogFile| (f.name@, f.contents@)).push(head));
                        assert(done_files + (seq![head] + spec_shutdown_plan(
                            tabs0.skip(i as int + 1),
                            ln,
                            (i + 1) as nat,
                        ).0) =~= done_files.push(head) + spec_shutdown_plan(
                            tabs0.skip(i as int + 1),
                            ln,
                            (i + 1) as nat,
                        ).0);
                        done_files = done_files.push(head);
                    }
                },
                DataFormat::StructuredLog => {
                    let d = "Cannot write defmt output to disk.".to_owned();
                    let ghost dh = d@;
                    diags.push(d);
                    proof {
                        assert(diags@.map_values(|s: String| s@) =~= db.map_values(
                            |s: String| s@,
                        ).push(dh));
                        assert(done_diags + (seq![dh] + spec_shutdown_plan(
                            tabs0.skip(i as int + 1),
                            ln,
                            (i + 1) as nat,
                        ).1) =~= done_diags.push(dh) + spec_shutdown_plan(
                            tabs0.skip(i as int + 1),
                            ln,
                            (i + 1) as nat,
                        ).1);
                        done_diags = done_diags.push(dh);
                    }
                },
            }
            i = i + 1;
        }
        proof {
            assert(tabs0.skip(n as int) =~= Seq::<ChannelState>::empty());
            assert(done_files + Seq::<(Seq<char>, Seq<u8>)>::empty() =~= done_files);
            assert(done_diags + Seq::<Seq<char>>::empty() =~= done_diags);
        }
        (files, diags)
    }
}

} // verus!
