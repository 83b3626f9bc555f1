use logtail::file_watcher::FileWatcher;

fn tails(w: &FileWatcher, n: usize) -> Vec<String> {
    w.iter_tail(n)
}

#[test]
fn first_poll_surfaces_existing_lines() {
    let mut w = FileWatcher::new("demo.log");
    let bytes = b"a\nb\nc\nd\ne\n".to_vec();
    let out = w.apply_poll(bytes.len() as u64, &bytes);
    assert!(!out.truncated);
    assert_eq!(out.new_lines, 5);
    assert_eq!(tails(&w, 100), vec!["a", "b", "c", "d", "e"]);
    assert_eq!(tails(&w, 3), vec!["c", "d", "e"]);
}

#[test]
fn appended_line_advances_cursor_by_its_bytes() {
    let mut w = FileWatcher::new("demo.log");
    let bytes = b"a\nb\nc\nd\ne\n".to_vec();
    w.apply_poll(bytes.len() as u64, &bytes);
    assert_eq!(w.cursor_position(), 10);

    // "f\n" is appended: exactly one new line, the cursor moves by two bytes.
    let delta = b"f\n".to_vec();
    let out = w.apply_poll(12, &delta);
    assert!(!out.truncated);
    assert_eq!(out.new_lines, 1);
    assert!(out.should_notify());
    assert_eq!(w.cursor_position(), 12);
    assert_eq!(tails(&w, 2), vec!["e", "f"]);

    // Nothing further was written: the next poll is empty and silent.
    let out = w.apply_poll(12, &Vec::new());
    assert!(!out.truncated);
    assert_eq!(out.new_lines, 0);
    assert!(!out.should_notify());
    assert_eq!(w.cursor_position(), 12);
}

#[test]
fn partial_line_waits_for_its_newline() {
    let mut w = FileWatcher::new("demo.log");

    // A write without a newline surfaces nothing and consumes nothing.
    let bytes = b"par".to_vec();
    let out = w.apply_poll(3, &bytes);
    assert_eq!(out.new_lines, 0);
    assert!(!out.should_notify());
    assert_eq!(w.cursor_position(), 0);
    assert_eq!(w.history_len(), 0);

    // The remainder arrives: the whole line is surfaced exactly once.
    let bytes = b"partial\n".to_vec();
    let out = w.apply_poll(8, &bytes);
    assert_eq!(out.new_lines, 1);
    assert_eq!(w.cursor_position(), 8);
    assert_eq!(tails(&w, 100), vec!["partial"]);
}

#[test]
fn truncation_resets_history_and_rereads_from_start() {
    let mut w = FileWatcher::new("demo.log");
    let bytes = b"one\ntwo\n".to_vec();
    w.apply_poll(8, &bytes);
    assert_eq!(tails(&w, 10), vec!["one", "two"]);

    // The file shrank below the cursor: stale history is dropped and the
    // fresh content read from offset zero.
    let bytes = b"z\n".to_vec();
    let out = w.apply_poll(2, &bytes);
    assert!(out.truncated);
    assert_eq!(out.new_lines, 1);
    assert_eq!(w.cursor_position(), 2);
    assert_eq!(tails(&w, 10), vec!["z"]);
}

#[test]
fn read_offset_restarts_after_truncation() {
    let mut w = FileWatcher::new("demo.log");
    let bytes = b"abcd\n".to_vec();
    w.apply_poll(5, &bytes);
    assert_eq!(w.read_offset(9), 5);
    assert_eq!(w.read_offset(5), 5);
    assert_eq!(w.read_offset(3), 0);
}

#[test]
fn crlf_line_ending_is_stripped() {
    let mut w = FileWatcher::new("demo.log");
    let bytes = b"ab\r\ncd\n".to_vec();
    let out = w.apply_poll(7, &bytes);
    assert_eq!(out.new_lines, 2);
    assert_eq!(tails(&w, 10), vec!["ab", "cd"]);
}

#[test]
fn invalid_bytes_are_decoded_lossily() {
    let mut w = FileWatcher::new("demo.log");
    let bytes = vec![0xff, b'\n'];
    let out = w.apply_poll(2, &bytes);
    assert_eq!(out.new_lines, 1);
    assert_eq!(tails(&w, 10), vec!["\u{FFFD}"]);
}

#[test]
fn history_is_bounded_by_its_capacity() {
    let mut w = FileWatcher::with_capacity("demo.log", 2);
    let bytes = b"a\nb\nc\n".to_vec();
    w.apply_poll(6, &bytes);
    assert_eq!(w.history_len(), 2);
    assert_eq!(tails(&w, 10), vec!["b", "c"]);
}

#[test]
fn fresh_tailer_state() {
    let w = FileWatcher::new("demo.log");
    assert_eq!(w.path(), "demo.log");
    assert_eq!(w.cursor_position(), 0);
    assert_eq!(w.last_length(), 0);
    assert_eq!(w.history_len(), 0);
    assert_eq!(tails(&w, 5), Vec::<String>::new());
}

#[test]
fn many_rapid_polls_surface_each_line_exactly_once() {
    let mut w = FileWatcher::new("demo.log");
    let mut content: Vec<u8> = Vec::new();
    for i in 0..50u32 {
        let line = format!("line{}\n", i);
        content.extend_from_slice(line.as_bytes());
        let offset = w.read_offset(content.len() as u64) as usize;
        let delta = content[offset..].to_vec();
        let out = w.apply_poll(content.len() as u64, &delta);
        assert_eq!(out.new_lines, 1);

        // A metadata-only notification between writes yields nothing.
        let out = w.apply_poll(content.len() as u64, &Vec::new());
        assert_eq!(out.new_lines, 0);
        assert!(!out.should_notify());
    }
    let all = tails(&w, 100);
    assert_eq!(all.len(), 50);
    for i in 0..50usize {
        assert_eq!(all[i], format!("line{}", i));
    }
}
