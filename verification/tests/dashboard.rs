use rttui::app::{App, AppAction, AppEvent};
use rttui::channel::{ChannelConfig, ChannelDesc, ChannelState, DataFormat};

fn desc(number: usize) -> ChannelDesc {
    ChannelDesc { number, name: None }
}

fn text_tab() -> ChannelState {
    ChannelState::new(Some(desc(0)), None, None, false, DataFormat::Text)
}

fn feed_lines(c: &mut ChannelState, n: usize) {
    for i in 0..n {
        let line = format!("line{}\n", i);
        c.poll_rtt(line.as_bytes());
    }
}

#[test]
fn visible_lines_stay_within_viewport() {
    let mut c = text_tab();
    feed_lines(&mut c, 10);
    for h in [0usize, 1, 3, 10, 25] {
        for s in [0usize, 1, 5, 9, 100] {
            c.set_scroll_offset(s);
            let v = c.visible_lines(h, 200);
            assert!(v.len() <= h);
            assert!(v.len() <= 10);
        }
    }
}

#[test]
fn visible_lines_are_a_contiguous_slice() {
    let mut c = text_tab();
    feed_lines(&mut c, 10);
    c.set_scroll_offset(2);
    let v = c.visible_lines(3, 200);
    assert_eq!(v, vec!["line5", "line6", "line7"]);
    assert_eq!(c.scroll_offset(), 2);
}

#[test]
fn scroll_offset_clamps_when_window_overruns() {
    let mut c = text_tab();
    feed_lines(&mut c, 4);
    c.set_scroll_offset(100);
    let v = c.visible_lines(3, 200);
    assert_eq!(v, vec!["line0", "line1", "line2"]);
    assert_eq!(c.scroll_offset(), 1);
    let w = c.visible_lines(10, 200);
    assert_eq!(w.len(), 4);
    assert_eq!(c.scroll_offset(), 0);
}

#[test]
fn scrolled_back_content_stays_anchored_as_lines_append() {
    let mut c = text_tab();
    feed_lines(&mut c, 8);
    c.set_scroll_offset(3);
    let before = c.visible_lines(4, 200);
    assert_eq!(before[0], "line1");
    c.poll_rtt(b"line8\n");
    assert_eq!(c.scroll_offset(), 4);
    let after = c.visible_lines(4, 200);
    assert_eq!(before, after);
}

#[test]
fn long_lines_wrap_into_visual_rows() {
    let mut c = text_tab();
    c.poll_rtt(b"aaaa bbbb cccc\n");
    let v = c.visible_lines(10, 4);
    assert_eq!(v, vec!["aaaa", "bbbb", "cccc"]);
}

#[test]
fn scroll_down_saturates_at_newest_line() {
    let mut c = text_tab();
    c.scroll_down();
    assert_eq!(c.scroll_offset(), 0);
    c.scroll_up();
    c.scroll_up();
    assert_eq!(c.scroll_offset(), 2);
    c.scroll_down();
    c.scroll_down();
    c.scroll_down();
    assert_eq!(c.scroll_offset(), 0);
}

#[test]
fn auto_pairing_matches_ids_and_keeps_leftover_down() {
    let ups = vec![desc(0), desc(2)];
    let downs = vec![desc(0), desc(1)];
    let app = App::new(ups, downs, Vec::new(), false, false, "s".to_owned())
        .expect("two readable endpoints must yield a dashboard");
    assert_eq!(app.tab_count(), 3);
    assert_eq!(app.tab(0).up_number(), Some(0));
    assert_eq!(app.tab(0).down_number(), Some(0));
    assert_eq!(app.tab(1).up_number(), Some(2));
    assert_eq!(app.tab(1).down_number(), None);
    assert_eq!(app.tab(2).up_number(), None);
    assert_eq!(app.tab(2).down_number(), Some(1));
    assert_eq!(app.tab_format(0), DataFormat::Text);
    assert_eq!(app.tab_format(2), DataFormat::Text);
}

#[test]
fn construction_fails_without_endpoints() {
    let app = App::new(Vec::new(), Vec::new(), Vec::new(), false, false, "s".to_owned());
    assert!(app.is_err());
}

#[test]
fn configured_pairing_follows_config_order() {
    let ups = vec![desc(0), desc(1)];
    let downs = vec![desc(1)];
    let config = vec![
        ChannelConfig {
            up: Some(1),
            down: Some(1),
            name: Some("ctrl".to_owned()),
            format: DataFormat::BinarySamples,
        },
        ChannelConfig { up: Some(0), down: None, name: None, format: DataFormat::Text },
    ];
    let app = App::new(ups, downs, config, false, false, "s".to_owned()).expect("configured");
    assert_eq!(app.tab_count(), 2);
    assert_eq!(app.tab(0).up_number(), Some(1));
    assert_eq!(app.tab(0).down_number(), Some(1));
    assert_eq!(app.tab(0).name(), "ctrl");
    assert_eq!(app.tab_format(0), DataFormat::BinarySamples);
    assert_eq!(app.tab(1).up_number(), Some(0));
    assert_eq!(app.tab(1).down_number(), None);
}

#[test]
fn events_drive_tabs_input_and_scroll() {
    let ups = vec![desc(0), desc(1)];
    let downs = vec![desc(0)];
    let mut app = App::new(ups, downs, Vec::new(), false, false, "s".to_owned()).expect("app");
    assert_eq!(app.selected_tab(), 0);
    assert!(matches!(app.handle_event(AppEvent::TabSelect(1)), AppAction::Idle));
    assert_eq!(app.selected_tab(), 1);
    app.handle_event(AppEvent::TabSelect(9));
    assert_eq!(app.selected_tab(), 1);
    app.handle_event(AppEvent::TabSelect(0));
    app.handle_event(AppEvent::Character('o'));
    app.handle_event(AppEvent::Character('k'));
    app.handle_event(AppEvent::Character('!'));
    app.handle_event(AppEvent::Backspace);
    assert_eq!(app.current_tab().input(), "ok");
    let action = app.handle_event(AppEvent::Submit);
    match action {
        AppAction::Write(bytes) => assert_eq!(bytes, b"ok\n".to_vec()),
        _ => panic!("submit on a write-capable tab must request a write"),
    }
    assert_eq!(app.current_tab().input(), "");
    app.handle_event(AppEvent::ScrollUp);
    app.handle_event(AppEvent::ScrollUp);
    assert_eq!(app.current_tab().scroll_offset(), 2);
    app.handle_event(AppEvent::ScrollDown);
    assert_eq!(app.current_tab().scroll_offset(), 1);
    assert!(matches!(app.handle_event(AppEvent::Quit), AppAction::Shutdown));
}

#[test]
fn submit_on_read_only_tab_is_idle() {
    let ups = vec![desc(0)];
    let mut app = App::new(ups, Vec::new(), Vec::new(), false, false, "s".to_owned()).expect("app");
    app.handle_event(AppEvent::Character('x'));
    assert!(matches!(app.handle_event(AppEvent::Submit), AppAction::Idle));
    assert_eq!(app.current_tab().input(), "x");
}

#[test]
fn shutdown_writes_one_file_per_persistable_tab() {
    let ups = vec![desc(0), desc(1), desc(2)];
    let config = vec![
        ChannelConfig { up: Some(0), down: None, name: None, format: DataFormat::Text },
        ChannelConfig { up: Some(1), down: None, name: None, format: DataFormat::BinarySamples },
        ChannelConfig { up: Some(2), down: None, name: None, format: DataFormat::StructuredLog },
    ];
    let mut app =
        App::new(ups, Vec::new(), config, false, true, "session".to_owned()).expect("app");
    app.poll_rtt(0, b"hello\nworld\n");
    app.poll_rtt(1, &[1, 0, 0, 0, 2, 0, 0, 0]);
    let (files, diags) = app.shutdown_files();
    assert_eq!(files.len(), 2);
    assert_eq!(files[0].name, "session_channel0.txt");
    assert_eq!(files[0].contents, b"hello\nworld\n".to_vec());
    assert_eq!(files[1].name, "session_channel1.dat");
    assert_eq!(files[1].contents, vec![1, 0, 0, 0, 2, 0, 0, 0]);
    assert_eq!(diags.len(), 1);
    assert_eq!(diags[0], "Cannot write defmt output to disk.");
}

#[test]
fn shutdown_with_logging_disabled_writes_nothing() {
    let ups = vec![desc(0)];
    let mut app = App::new(ups, Vec::new(), Vec::new(), false, false, "s".to_owned()).expect("app");
    app.poll_rtt(0, b"data\n");
    let (files, diags) = app.shutdown_files();
    assert!(files.is_empty());
    assert!(diags.is_empty());
}

#[test]
fn shutdown_file_names_carry_multi_digit_tab_indices() {
    let ups: Vec<ChannelDesc> = (0..11).map(desc).collect();
    let app = App::new(ups, Vec::new(), Vec::new(), false, true, "s".to_owned()).expect("app");
    let (files, diags) = app.shutdown_files();
    assert_eq!(files.len(), 11);
    assert_eq!(files[10].name, "s_channel10.txt");
    assert!(diags.is_empty());
}

#[test]
fn push_rtt_hands_back_the_pending_line() {
    let ups = vec![desc(0)];
    let downs = vec![desc(0)];
    let mut app = App::new(ups, downs, Vec::new(), false, false, "s".to_owned()).expect("app");
    app.handle_event(AppEvent::Character('g'));
    app.handle_event(AppEvent::Character('o'));
    let bytes = app.push_rtt().expect("down channel present");
    assert_eq!(bytes, b"go\n".to_vec());
    assert_eq!(app.current_tab().input(), "");
}

#[test]
fn pull_channel_removes_first_match_only() {
    let mut channels = vec![desc(5), desc(3), desc(5)];
    let got = rttui::app::pull_channel(&mut channels, 5).expect("id 5 present");
    assert_eq!(got.number, 5);
    assert_eq!(channels.len(), 2);
    assert_eq!(channels[0].number, 3);
    assert_eq!(channels[1].number, 5);
    assert!(rttui::app::pull_channel(&mut channels, 9).is_none());
    assert_eq!(channels.len(), 2);
}

#[test]
fn polling_a_background_tab_keeps_its_data() {
    let ups = vec![desc(0), desc(1)];
    let mut app = App::new(ups, Vec::new(), Vec::new(), false, false, "s".to_owned()).expect("app");
    app.handle_event(AppEvent::TabSelect(0));
    app.poll_rtt(1, b"background\n");
    assert_eq!(app.tab(1).messages().len(), 1);
    assert_eq!(app.tab(1).messages()[0], "background");
}
