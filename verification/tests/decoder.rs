use rttui::channel::{ChannelDesc, ChannelState, DataFormat};

fn up_desc(number: usize) -> Option<ChannelDesc> {
    Some(ChannelDesc { number, name: None })
}

fn text_decoder() -> ChannelState {
    ChannelState::new(up_desc(0), None, None, false, DataFormat::Text)
}

fn binary_decoder() -> ChannelState {
    ChannelState::new(up_desc(0), None, None, false, DataFormat::BinarySamples)
}

#[test]
fn text_line_split_across_reads() {
    let mut c = text_decoder();
    c.poll_rtt(b"hello ");
    assert_eq!(c.messages().len(), 1);
    assert_eq!(c.messages()[0], "hello ");
    assert!(!c.last_line_done());
    c.poll_rtt(b"world\nfoo\n");
    assert_eq!(c.messages().len(), 2);
    assert_eq!(c.messages()[0], "hello world");
    assert_eq!(c.messages()[1], "foo");
    assert!(c.last_line_done());
}

#[test]
fn text_split_point_independence() {
    let chunkings: &[&[&[u8]]] = &[
        &[b"ab", b"c\ndef\ng"],
        &[b"abc\ndef\ng"],
        &[b"a", b"bc\nde", b"f\ng"],
        &[b"abc", b"\n", b"def\n", b"g"],
    ];
    let mut results: Vec<Vec<String>> = Vec::new();
    for chunks in chunkings {
        let mut c = text_decoder();
        for chunk in chunks.iter() {
            c.poll_rtt(chunk);
        }
        results.push(c.messages().clone());
    }
    for r in &results {
        assert_eq!(r, &vec!["abc".to_owned(), "def".to_owned(), "g".to_owned()]);
    }
}

#[test]
fn text_rejoined_lines_equal_full_input() {
    let mut c = text_decoder();
    c.poll_rtt(b"one\ntw");
    c.poll_rtt(b"o\nthree");
    let joined = c.messages().join("\n");
    assert_eq!(joined, "one\ntwo\nthree");
    assert!(!c.last_line_done());
}

#[test]
fn text_newline_only_chunk_gives_empty_line() {
    let mut c = text_decoder();
    c.poll_rtt(b"\n");
    assert_eq!(c.messages().len(), 1);
    assert_eq!(c.messages()[0], "");
    assert!(c.last_line_done());
}

#[test]
fn text_empty_chunk_is_no_op() {
    let mut c = text_decoder();
    c.poll_rtt(b"abc");
    let before = c.messages().clone();
    c.poll_rtt(b"");
    assert_eq!(c.messages(), &before);
    assert!(!c.last_line_done());
}

#[test]
fn text_invalid_utf8_replaced_not_dropped() {
    let mut c = text_decoder();
    c.poll_rtt(&[0xff, 0xfe, b'a', b'\n']);
    assert_eq!(c.messages().len(), 1);
    assert_eq!(c.messages()[0], "\u{FFFD}\u{FFFD}a");
}

#[test]
fn text_timestamps_prefix_completed_lines() {
    let mut c = ChannelState::new(up_desc(0), None, None, true, DataFormat::Text);
    c.poll_rtt(b"x\n");
    assert_eq!(c.messages().len(), 1);
    let line = &c.messages()[0];
    assert!(line.ends_with(" x"), "line {:?} should end with the payload", line);
    assert!(line.len() > 2, "line {:?} should carry a timestamp prefix", line);
}

#[test]
fn text_continuation_of_open_line_is_not_restamped() {
    let mut c = ChannelState::new(up_desc(0), None, None, true, DataFormat::Text);
    c.poll_rtt(b"par");
    let first = c.messages()[0].clone();
    c.poll_rtt(b"tial\n");
    assert_eq!(c.messages().len(), 1);
    let full = &c.messages()[0];
    assert_eq!(full, &format!("{}tial", first));
}

#[test]
fn binary_samples_across_reads() {
    let mut c = binary_decoder();
    c.poll_rtt(&[1, 0, 0, 0, 2, 0]);
    assert_eq!(c.data().len(), 1);
    assert_eq!(c.leftovers().len(), 2);
    c.poll_rtt(&[0, 0]);
    assert_eq!(c.data().len(), 2);
    assert_eq!(c.leftovers().len(), 0);
    assert_eq!(c.data()[0], 1);
    assert_eq!(c.data()[1], 2);
}

#[test]
fn binary_split_point_independence() {
    let bytes: Vec<u8> = (0u8..=10u8).collect();
    let mut whole = binary_decoder();
    whole.poll_rtt(&bytes);
    let mut pieces = binary_decoder();
    pieces.poll_rtt(&bytes[..3]);
    pieces.poll_rtt(&bytes[3..7]);
    pieces.poll_rtt(&bytes[7..]);
    assert_eq!(whole.data(), pieces.data());
    assert_eq!(whole.leftovers(), pieces.leftovers());
    assert_eq!(whole.data().len(), 2);
    assert_eq!(whole.leftovers().len(), 3);
}

#[test]
fn binary_samples_decode_as_little_endian_floats() {
    let mut c = binary_decoder();
    let one: [u8; 4] = 1.0f32.to_le_bytes();
    let half: [u8; 4] = 0.5f32.to_le_bytes();
    c.poll_rtt(&one);
    c.poll_rtt(&half);
    assert_eq!(c.data().len(), 2);
    assert_eq!(f32::from_bits(c.data()[0]), 1.0f32);
    assert_eq!(f32::from_bits(c.data()[1]), 0.5f32);
}

#[test]
fn binary_leftover_never_reaches_group_size() {
    let mut c = binary_decoder();
    for _ in 0..13 {
        c.poll_rtt(&[7]);
        assert!(c.leftovers().len() < 4);
    }
    assert_eq!(c.data().len(), 3);
    assert_eq!(c.leftovers().len(), 1);
}

#[test]
fn submitted_input_is_line_bytes_and_clears() {
    let mut c = ChannelState::new(
        up_desc(0),
        Some(ChannelDesc { number: 0, name: None }),
        None,
        false,
        DataFormat::Text,
    );
    c.input_push('h');
    c.input_push('i');
    assert_eq!(c.input(), "hi");
    let bytes = c.push_rtt().expect("write-capable channel must hand back bytes");
    assert_eq!(bytes, b"hi\n".to_vec());
    assert_eq!(c.input(), "");
}

#[test]
fn submit_without_down_channel_is_no_op() {
    let mut c = text_decoder();
    c.input_push('x');
    assert!(c.push_rtt().is_none());
    assert_eq!(c.input(), "x");
}

#[test]
fn input_backspace_pops_last_character() {
    let mut c = text_decoder();
    c.input_push('a');
    c.input_push('b');
    c.input_backspace();
    assert_eq!(c.input(), "a");
    c.input_backspace();
    c.input_backspace();
    assert_eq!(c.input(), "");
}

#[test]
fn location_line_formats_path_and_number() {
    let line = rttui::channel::location_line("src/main.rs", 42);
    assert_eq!(line, "\u{2514}\u{2500} src/main.rs:42");
    let zero = rttui::channel::location_line("a", 0);
    assert_eq!(zero, "\u{2514}\u{2500} a:0");
    let big = rttui::channel::location_line("b", 120034);
    assert_eq!(big, "\u{2514}\u{2500} b:120034");
}

#[test]
fn name_resolution_order() {
    let up = Some(ChannelDesc { number: 0, name: Some("adv-up".to_owned()) });
    let down = Some(ChannelDesc { number: 0, name: Some("adv-down".to_owned()) });
    let explicit = ChannelState::new(
        up.clone(),
        down.clone(),
        Some("given".to_owned()),
        false,
        DataFormat::Text,
    );
    assert_eq!(explicit.name(), "given");
    let from_up = ChannelState::new(up, down.clone(), None, false, DataFormat::Text);
    assert_eq!(from_up.name(), "adv-up");
    let from_down = ChannelState::new(None, down, None, false, DataFormat::Text);
    assert_eq!(from_down.name(), "adv-down");
    let unnamed = ChannelState::new(up_desc(3), None, None, false, DataFormat::Text);
    assert_eq!(unnamed.name(), "Unnamed channel");
}
