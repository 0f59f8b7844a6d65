use mtaillib::mtail::{
    decode_paths_lossy, drop_reread_artifact, event_action, find_last_nl, find_last_nl_slice,
    needs_reread, receive_msg, reread_start, rewind_offset, split_into_messages, take_all_lines,
    wait_step, TailAction, TailBytes, TX_BUF_SIZE,
};
use mtaillib::{ThreadBuffers, WatchEvent};

#[test]
fn mtail_last_nl_is_just_after_line_feed() {
    assert_eq!(find_last_nl(&b"abc\ndef".to_vec()), 4);
    assert_eq!(find_last_nl(&b"abc\r\ndef".to_vec()), 5);
    assert_eq!(find_last_nl(&b"abc".to_vec()), 3);
    assert_eq!(find_last_nl(&Vec::new()), 0);
    assert_eq!(find_last_nl(&b"x\n".to_vec()), 2);
}

#[test]
fn mtail_last_nl_slice_is_line_feed_index() {
    assert_eq!(find_last_nl_slice(b"abc\ndef"), 3);
    assert_eq!(find_last_nl_slice(b"abc\r\ndef"), 4);
    assert_eq!(find_last_nl_slice(b"abc"), -1);
    assert_eq!(find_last_nl_slice(b""), -1);
}

fn sample(len: usize) -> Vec<u8> {
    (0..len).map(|i| if i % 37 == 36 { b'\n' } else { b'0' + (i % 10) as u8 }).collect()
}

#[test]
fn mtail_split_reassembles() {
    let buffer = sample(2049);
    let msgs = split_into_messages(4, &buffer);
    assert_eq!(msgs.len(), 3);
    assert_eq!(msgs[2].bytes.len(), 1);
    let mut joined = Vec::new();
    for m in &msgs {
        assert_eq!(m.thread, 4);
        assert!(m.bytes.len() <= TX_BUF_SIZE);
        assert_eq!(m.last_nl, find_last_nl_slice(&m.bytes));
        joined.extend_from_slice(&m.bytes);
    }
    assert_eq!(joined, buffer);
}

#[test]
fn mtail_rewind_offset_values() {
    assert_eq!(rewind_offset(&b"ab\ncd".to_vec()), -2);
    assert_eq!(rewind_offset(&b"ab\n".to_vec()), 0);
    assert_eq!(rewind_offset(&b"abc".to_vec()), 0);
}

#[test]
fn mtail_receive_keeps_line_feed_with_line() {
    let mut bufs = ThreadBuffers::new(1);
    let mut global: Vec<(usize, Vec<u8>)> = Vec::new();
    receive_msg(&mut bufs, TailBytes { thread: 0, bytes: b"ab".to_vec(), last_nl: -1 }, &mut global);
    receive_msg(&mut bufs, TailBytes { thread: 0, bytes: b"c\nd".to_vec(), last_nl: 1 }, &mut global);
    assert_eq!(global, vec![(0usize, b"abc\n".to_vec())]);
    assert_eq!(bufs.pending(0), &b"d".to_vec());
    receive_msg(&mut bufs, TailBytes { thread: 0, bytes: b"e\n".to_vec(), last_nl: 1 }, &mut global);
    assert_eq!(global[1], (0usize, b"de\n".to_vec()));
    assert_eq!(bufs.pending(0), &Vec::<u8>::new());
}

#[test]
fn mtail_lines_end_with_line_feed_after_split() {
    let buffer = sample(5000);
    let mut bufs = ThreadBuffers::new(2);
    let mut global: Vec<(usize, Vec<u8>)> = Vec::new();
    for m in split_into_messages(1, &buffer) {
        receive_msg(&mut bufs, m, &mut global);
    }
    let mut all = Vec::new();
    for (t, line) in &global {
        assert_eq!(*t, 1);
        assert_eq!(*line.last().unwrap(), b'\n');
        all.extend_from_slice(line);
    }
    assert!(!bufs.pending(1).contains(&b'\n'));
    all.extend_from_slice(bufs.pending(1));
    assert_eq!(all, buffer);
}

#[test]
fn take_all_lines_keeps_order_and_empties() {
    let mut buffer = vec![(1usize, b"a\n".to_vec()), (0usize, b"b\n".to_vec()), (1usize, b"c\n".to_vec())];
    let expected = buffer.clone();
    let got = take_all_lines(&mut buffer);
    assert_eq!(got, expected);
    assert!(buffer.is_empty());
    assert!(take_all_lines(&mut buffer).is_empty());
}

#[test]
fn event_actions() {
    assert!(matches!(event_action(&WatchEvent::Write), TailAction::ReadNext));
    assert!(matches!(event_action(&WatchEvent::PathNotFound), TailAction::ReRead));
    assert!(matches!(event_action(&WatchEvent::OtherChange), TailAction::Ignore));
    assert!(matches!(event_action(&WatchEvent::OtherError), TailAction::Ignore));
}

#[test]
fn reread_decisions() {
    assert!(needs_reread(0));
    assert!(!needs_reread(12));
    assert_eq!(reread_start(1), 0);
    assert_eq!(reread_start(500), 499);
    let mut buffer = b"abc\n".to_vec();
    drop_reread_artifact(&mut buffer, 4);
    assert_eq!(buffer, b"abc".to_vec());
    drop_reread_artifact(&mut buffer, 0);
    assert_eq!(buffer, b"abc".to_vec());
}

#[test]
fn wait_step_stops_at_first_line() {
    let mut bufs = ThreadBuffers::new(2);
    let mut global: Vec<(usize, Vec<u8>)> = Vec::new();
    assert!(!wait_step(&mut bufs, TailBytes { thread: 1, bytes: b"ab".to_vec(), last_nl: -1 }, &mut global));
    assert!(wait_step(&mut bufs, TailBytes { thread: 1, bytes: b"c\n".to_vec(), last_nl: 1 }, &mut global));
    assert_eq!(global, vec![(1usize, b"abc\n".to_vec())]);
}

#[test]
fn lossy_paths() {
    let raw = vec![b"/var/log/x".to_vec(), vec![b'/', 0xff, b'a']];
    let paths = decode_paths_lossy(&raw);
    assert_eq!(paths, vec!["/var/log/x".to_string(), "/\u{FFFD}a".to_string()]);
}
