use mtaillib::newline::{find_second_last_newline, last_lf_in};
use mtaillib::{
    decode_paths, find_last_nl, find_last_nl_slice, get_received, is_write_event, receive_msg,
    rewind_offset, split_into_messages, tail_start_position, tail_window, TailBytes,
    ThreadBuffers, WatchEvent, TX_BUF_SIZE,
};

#[test]
fn last_nl_points_at_line_feed() {
    assert_eq!(find_last_nl(&b"abc\ndef".to_vec()), 3);
    assert_eq!(find_last_nl_slice(b"abc\ndef"), 3);
}

#[test]
fn last_nl_points_at_carriage_return_of_crlf() {
    assert_eq!(find_last_nl(&b"abc\r\ndef".to_vec()), 3);
    assert_eq!(find_last_nl_slice(b"abc\r\ndef"), 3);
    assert_eq!(find_last_nl(&b"\r\n".to_vec()), 0);
    assert_eq!(find_last_nl_slice(b"\r\n"), 0);
}

#[test]
fn last_nl_takes_the_last_of_several() {
    assert_eq!(find_last_nl(&b"a\nb\nc".to_vec()), 3);
    assert_eq!(find_last_nl_slice(b"a\nb\r\nc"), 3);
}

#[test]
fn last_nl_without_line_feed() {
    assert_eq!(find_last_nl(&b"abc".to_vec()), 3);
    assert_eq!(find_last_nl_slice(b"abc"), -1);
    assert_eq!(find_last_nl(&Vec::new()), 0);
    assert_eq!(find_last_nl_slice(b""), -1);
    // a lone carriage return is no line break
    assert_eq!(find_last_nl_slice(b"ab\r"), -1);
}

#[test]
fn last_nl_at_start() {
    assert_eq!(find_last_nl(&b"\nabc".to_vec()), 0);
    assert_eq!(find_last_nl_slice(b"\nabc"), 0);
}

fn sample(len: usize) -> Vec<u8> {
    (0..len).map(|i| if i % 100 == 99 { b'\n' } else { b'a' + (i % 26) as u8 }).collect()
}

#[test]
fn split_cuts_into_chunks_that_reassemble() {
    let buffer = sample(2500);
    let msgs = split_into_messages(7, &buffer);
    assert_eq!(msgs.len(), 3);
    assert_eq!(msgs[0].bytes.len(), TX_BUF_SIZE);
    assert_eq!(msgs[1].bytes.len(), TX_BUF_SIZE);
    assert_eq!(msgs[2].bytes.len(), 2500 - 2 * TX_BUF_SIZE);
    let mut joined = Vec::new();
    for m in &msgs {
        assert_eq!(m.thread, 7);
        assert_eq!(m.last_nl, find_last_nl_slice(&m.bytes));
        joined.extend_from_slice(&m.bytes);
    }
    assert_eq!(joined, buffer);
    // line feeds at 99, 199, ..., 999 in the first chunk
    assert_eq!(msgs[0].last_nl, 999);
}

#[test]
fn split_of_empty_read_sends_nothing() {
    assert_eq!(split_into_messages(0, &Vec::new()).len(), 0);
}

#[test]
fn split_of_exact_chunk() {
    let buffer = sample(TX_BUF_SIZE);
    let msgs = split_into_messages(1, &buffer);
    assert_eq!(msgs.len(), 1);
    assert_eq!(msgs[0].bytes, buffer);
}

#[test]
fn rewind_offset_values() {
    // back to just after the last line feed
    assert_eq!(rewind_offset(&b"ab\ncd".to_vec()), -2);
    assert_eq!(rewind_offset(&b"ab\r\ncd".to_vec()), -2);
    assert_eq!(rewind_offset(&b"abc\n".to_vec()), 0);
    // no line feed: one byte back
    assert_eq!(rewind_offset(&b"abcde".to_vec()), -1);
    assert_eq!(rewind_offset(&Vec::new()), -1);
}

#[test]
fn receive_appends_then_hands_on_line() {
    let mut bufs = ThreadBuffers::new(2);
    assert_eq!(bufs.count(), 2);
    let mut global: Vec<(usize, Vec<u8>)> = Vec::new();
    receive_msg(&mut bufs, TailBytes { thread: 0, bytes: b"ab".to_vec(), last_nl: -1 }, &mut global);
    assert!(global.is_empty());
    assert_eq!(bufs.pending(0), &b"ab".to_vec());
    receive_msg(&mut bufs, TailBytes { thread: 0, bytes: b"c\nd".to_vec(), last_nl: 1 }, &mut global);
    assert_eq!(global, vec![(0usize, b"abc".to_vec())]);
    assert_eq!(bufs.pending(0), &b"\nd".to_vec());
    assert_eq!(bufs.pending(1), &Vec::<u8>::new());
}

#[test]
fn receive_keeps_threads_apart() {
    let mut bufs = ThreadBuffers::new(2);
    let mut global: Vec<(usize, Vec<u8>)> = Vec::new();
    receive_msg(&mut bufs, TailBytes { thread: 1, bytes: b"x".to_vec(), last_nl: -1 }, &mut global);
    receive_msg(&mut bufs, TailBytes { thread: 0, bytes: b"y\r\nz".to_vec(), last_nl: 1 }, &mut global);
    assert_eq!(global, vec![(0usize, b"y".to_vec())]);
    assert_eq!(bufs.pending(0), &b"\r\nz".to_vec());
    assert_eq!(bufs.pending(1), &b"x".to_vec());
}

#[test]
fn read_is_delivered_through_split_and_receive() {
    let buffer = sample(3000);
    let mut bufs = ThreadBuffers::new(3);
    let mut global: Vec<(usize, Vec<u8>)> = Vec::new();
    receive_msg(&mut bufs, TailBytes { thread: 2, bytes: b"head".to_vec(), last_nl: -1 }, &mut global);
    for m in split_into_messages(2, &buffer) {
        receive_msg(&mut bufs, m, &mut global);
    }
    let mut all = Vec::new();
    for (t, line) in &global {
        assert_eq!(*t, 2);
        all.extend_from_slice(line);
    }
    all.extend_from_slice(bufs.pending(2));
    let mut expected = b"head".to_vec();
    expected.extend_from_slice(&buffer);
    assert_eq!(all, expected);
    // the kept part begins with the last line break
    assert_eq!(bufs.pending(2)[0], b'\n');
}

#[test]
fn get_received_decodes_and_empties() {
    let mut global = vec![(3usize, "hé".as_bytes().to_vec())];
    let got = get_received(&mut global).unwrap();
    assert_eq!(got, vec![(3usize, "hé".to_string())]);
    assert!(global.is_empty());
}

#[test]
fn get_received_of_nothing() {
    let mut global: Vec<(usize, Vec<u8>)> = Vec::new();
    assert_eq!(get_received(&mut global), Some(Vec::new()));
}

#[test]
fn get_received_rejects_invalid_utf8() {
    let mut global = vec![(0usize, vec![0xffu8, 0xfe])];
    assert_eq!(get_received(&mut global), None);
    assert!(global.is_empty());
}

#[test]
fn decode_paths_all_valid() {
    let raw = vec![b"/var/log/a.log".to_vec(), "/tmp/ü".as_bytes().to_vec()];
    assert_eq!(
        decode_paths(&raw),
        Some(vec!["/var/log/a.log".to_string(), "/tmp/ü".to_string()])
    );
    assert_eq!(decode_paths(&Vec::new()), Some(Vec::new()));
}

#[test]
fn decode_paths_rejects_invalid() {
    let raw = vec![b"/ok".to_vec(), vec![0xc3u8]];
    assert_eq!(decode_paths(&raw), None);
}

#[test]
fn tail_window_clamps() {
    assert_eq!(tail_window(5000), (1024, -1024));
    assert_eq!(tail_window(1024), (1024, -1024));
    assert_eq!(tail_window(10), (10, -10));
    assert_eq!(tail_window(0), (0, 0));
}

#[test]
fn second_last_newline_scan() {
    assert_eq!(find_second_last_newline(&b"a\nb\nc".to_vec()), Some(1));
    assert_eq!(find_second_last_newline(&b"ab\ncd".to_vec()), None);
    // the byte at index 0 is never looked at
    assert_eq!(find_second_last_newline(&b"\nab\n".to_vec()), None);
    assert_eq!(find_second_last_newline(&b"x\ny\nz\n".to_vec()), Some(3));
    assert_eq!(find_second_last_newline(&Vec::new()), None);
}

#[test]
fn last_lf_in_range() {
    let bytes = b"a\nb\nc".to_vec();
    assert_eq!(last_lf_in(&bytes, 0, 5), Some(3));
    assert_eq!(last_lf_in(&bytes, 0, 3), Some(1));
    assert_eq!(last_lf_in(&bytes, 2, 3), None);
}

#[test]
fn tail_start_after_second_last_line_feed() {
    assert_eq!(tail_start_position(100, &b"a\nb\nc".to_vec()), 102);
    assert_eq!(tail_start_position(100, &b"x\ny\nz\n".to_vec()), 104);
    // fewer than two line feeds: the whole window
    assert_eq!(tail_start_position(100, &b"ab\ncd".to_vec()), 100);
    assert_eq!(tail_start_position(0, &Vec::new()), 0);
}

#[test]
fn write_events_only() {
    assert!(is_write_event(&WatchEvent::Write));
    assert!(!is_write_event(&WatchEvent::OtherChange));
}
