//! Verified core of a multi-file tailer: it locates line breaks in freshly
//! read bytes, cuts reads into transmission chunks, reassembles the chunks
//! of every watched file into complete lines, and decides where tailing
//! starts and resumes. This module is the first-generation tailer; `mtail`
//! is the second.
use vstd::prelude::*;

pub mod mtail;
pub mod newline;
pub mod reassembly;

pub use crate::reassembly::ThreadBuffers;

use crate::newline::{
    CR, LF, find_second_last_newline, last_lf, lemma_last_lf, lemma_last_lf_at, lf_end_or_len,
    no_lf, second_last_lf,
};
use crate::reassembly::{
    CHUNK, Piece, buffers_view, chunk_bytes, chunks_of, extend_from_range, lemma_chunks_reassemble,
    line_bytes_of, lines_view, took_in,
};
use vstd::utf8::{decode_utf8, valid_utf8};

verus! {

/// Size of the chunks in which freshly read bytes are handed to the receiver.
pub const TX_BUF_SIZE: usize = 1024usize;

/// Where the last line break of `s` starts: the carriage return of a final
/// `"\r\n"`, else the last line feed; -1 when `s` holds no line feed.
pub open spec fn break_start(s: Seq<u8>) -> int {
    let j = last_lf(s);
    if j >= 1 && s[j - 1] == CR {
        j - 1
    } else {
        j
    }
}

/// `break_start`, with the length of `s` standing for "no line feed".
pub open spec fn break_start_or_len(s: Seq<u8>) -> int {
    if last_lf(s) >= 0 {
        break_start(s)
    } else {
        s.len() as int
    }
}

/// Index at which the last line break of `buf` starts (see `break_start`),
/// or `buf.len()` when `buf` holds no line feed.
pub fn find_last_nl(buf: &Vec<u8>) -> (r: usize)
    ensures
        r == break_start_or_len(buf@),
{
    let len = buf.len();
    for i in 0..len
        invariant
            len == buf@.len(),
            forall|k: int| len - i <= k < len ==> buf@[k] != LF,
    {
        if buf[len - 1 - i] == 0x0A {
            proof {
                lemma_last_lf_at(buf@, len - 1 - i);
            }
            if i + 1 < len && buf[len - 2 - i] == 0x0D {
                return len - 2 - i;
            } else {
                return len - 1 - i;
            }
        }
    }
    proof {
        lemma_last_lf(buf@);
    }
    return buf.len();
}

/// Index at which the last line break of `buf` starts (see `break_start`),
/// or -1 when `buf` holds no line feed.
pub fn find_last_nl_slice(buf: &[u8]) -> (r: isize)
    requires
        buf@.len() <= isize::MAX,
    ensures
        r == break_start(buf@),
{
    let len = buf.len();
    for i in 0..len
        invariant
            len == buf@.len(),
            len <= isize::MAX,
            forall|k: int| len - i <= k < len ==> buf@[k] != LF,
    {
        if buf[len - 1 - i] == 0x0A {
            proof {
                lemma_last_lf_at(buf@, len - 1 - i);
            }
            if i + 1 < len && buf[len - 2 - i] == 0x0D {
                return (len - 2 - i) as isize;
            } else {
                return (len - 1 - i) as isize;
            }
        }
    }
    proof {
        lemma_last_lf(buf@);
    }
    return -1;
}


/// Where a line break starts, given the last line feed `j` of `s`: at the
/// carriage return just before it when there is one, else at `j` itself.
pub proof fn lemma_break_start_at(s: Seq<u8>, j: int)
    requires
        0 <= j < s.len(),
        s[j] == LF,
        forall|k: int| j < k < s.len() ==> s[k] != LF,
    ensures
        (j >= 1 && s[j - 1] == CR) ==> break_start(s) == j - 1 && break_start_or_len(s) == j - 1,
        !(j >= 1 && s[j - 1] == CR) ==> break_start(s) == j && break_start_or_len(s) == j,
{
    lemma_last_lf_at(s, j);
}

/// Without a line feed there is no line break: `break_start` is -1 and
/// `break_start_or_len` the length.
pub proof fn lemma_break_start_none(s: Seq<u8>)
    requires
        no_lf(s),
    ensures
        break_start(s) == -1,
        break_start_or_len(s) == s.len(),
{
    lemma_last_lf(s);
}

/// `find_last_nl` and `find_last_nl_slice` agree: both give the start of
/// the last line break when there is one, and then only differ in how they
/// say "none" (the length, or -1).
pub proof fn lemma_last_nl_agree(s: Seq<u8>)
    ensures
        -1 <= break_start(s) < s.len(),
        break_start(s) >= 0 <==> last_lf(s) >= 0,
        break_start_or_len(s) == if break_start(s) >= 0 {
            break_start(s)
        } else {
            s.len() as int
        },
{
    lemma_last_lf(s);
}

/// Cutting a chunk at the start of its last line break, as the receiver does
/// with the `last_nl` that `split_into_messages` computed: the part kept
/// back begins with that line break (`"\n"` or `"\r\n"`) and holds no other
/// line feed; a chunk without a line break holds no line feed at all.
pub proof fn lemma_cut_at_break(bytes: Seq<u8>)
    ensures
        break_start(bytes) < 0 ==> no_lf(bytes),
        break_start(bytes) >= 0 ==> {
            let rest = bytes.skip(break_start(bytes));
            ||| rest.len() >= 1 && rest[0] == LF && no_lf(rest.skip(1))
            ||| rest.len() >= 2 && rest[0] == CR && rest[1] == LF && no_lf(rest.skip(2))
        },
{
    lemma_last_lf(bytes);
    let j = last_lf(bytes);
    if j >= 0 {
        let c = break_start(bytes);
        let rest = bytes.skip(c);
        if c == j {
            assert(rest[0] == bytes[j]);
            assert forall|k: int| 0 <= k < rest.skip(1).len() implies rest.skip(1)[k] != LF by {
                assert(rest.skip(1)[k] == bytes[j + 1 + k]);
            }
        } else {
            assert(rest[0] == bytes[j - 1]);
            assert(rest[1] == bytes[j]);
            assert forall|k: int| 0 <= k < rest.skip(2).len() implies rest.skip(2)[k] != LF by {
                assert(rest.skip(2)[k] == bytes[j + 1 + k]);
            }
        }
    }
}

/// A piece of a file's new contents, as one tailing thread hands it to the
/// receiver: the thread (file) number, the bytes, and where the last line
/// break in them starts (-1 when they hold none).
pub struct TailBytes {
    pub thread: usize,
    pub bytes: Vec<u8>,
    pub last_nl: isize,
}

/// The byte contents of a sequence of messages.
pub open spec fn message_bytes(msgs: Seq<TailBytes>) -> Seq<Seq<u8>> {
    msgs.map_values(|m: TailBytes| m.bytes@)
}

/// The point at which `receive_msg` cuts a message: its `last_nl`, or -1
/// when it carries no line break.
pub open spec fn cut_point(last_nl: int) -> int {
    if last_nl >= 0 {
        last_nl
    } else {
        -1
    }
}

/// The receiver's view of a list of messages: thread, bytes and the point
/// at which `receive_msg` cuts them.
pub open spec fn message_pieces(msgs: Seq<TailBytes>) -> Seq<Piece> {
    msgs.map_values(|m: TailBytes| (m.thread as int, m.bytes@, cut_point(m.last_nl as int)))
}

/// Taking in a message that carries a line break (`last_nl >= 0`, a break
/// at the very first byte included) always hands on a line: the pending
/// bytes followed by the message's bytes before `last_nl`; the bytes from
/// `last_nl` on stay pending. A message without one only adds to what is
/// pending.
pub proof fn lemma_receive_cuts_at_break(
    before: ThreadBuffers,
    after: ThreadBuffers,
    g_before: Seq<(usize, Vec<u8>)>,
    g_after: Seq<(usize, Vec<u8>)>,
    msg: TailBytes,
)
    requires
        msg.thread < before@.len(),
        msg.last_nl <= msg.bytes@.len(),
        took_in(before, after, g_before, g_after, msg.thread, msg.bytes@, cut_point(msg.last_nl as int)),
    ensures
        msg.last_nl >= 0 ==> lines_view(g_after) == lines_view(g_before).push(
            (msg.thread, before@[msg.thread as int] + msg.bytes@.take(msg.last_nl as int)),
        ) && after@[msg.thread as int] == msg.bytes@.skip(msg.last_nl as int),
        msg.last_nl < 0 ==> lines_view(g_after) == lines_view(g_before) && after@[msg.thread as int]
            == before@[msg.thread as int] + msg.bytes@,
        forall|u: int| 0 <= u < before@.len() && u != msg.thread ==> after@[u] == before@[u],
{
}

/// What a tailing thread reads is what the receiver delivers: when the
/// messages that `split_into_messages` made of `buffer` for thread `t` are
/// taken in by `receive_msg` after the state `before`, giving `after`, the
/// lines handed on in between for `t` followed by what is pending for `t`
/// are exactly what was pending for `t` before followed by `buffer`.
pub proof fn lemma_read_is_delivered(
    before: ThreadBuffers,
    after: ThreadBuffers,
    t: usize,
    buffer: Seq<u8>,
    msgs: Seq<TailBytes>,
    lines: Seq<(int, Seq<u8>)>,
)
    requires
        before.wf(),
        after.wf(),
        t < before@.len(),
        after@.len() == before@.len(),
        after.received() == before.received() + message_pieces(msgs),
        after.delivered() == before.delivered() + lines,
        message_bytes(msgs) == chunks_of(buffer),
        forall|j: int| 0 <= j < msgs.len() ==> (#[trigger] msgs[j]).thread == t,
    ensures
        line_bytes_of(t as int, lines) + after@[t as int] == before@[t as int] + buffer,
{
    let pieces = message_pieces(msgs);
    assert(pieces.map_values(|p: Piece| p.1) =~= message_bytes(msgs));
    assert forall|i: int| 0 <= i < pieces.len() implies (#[trigger] pieces[i]).0 == t by {
        assert(pieces[i].0 == msgs[i].thread);
    }
    crate::reassembly::lemma_read_is_delivered(before, after, t as int, buffer, pieces, lines);
}

/// Cuts what a tailing thread has just read into the messages it sends:
/// one per chunk of `TX_BUF_SIZE` bytes, in order, each stamped with the
/// thread number and the start of its own last line break.
pub fn split_into_messages(thread: usize, buffer: &Vec<u8>) -> (msgs: Vec<TailBytes>)
    ensures
        message_bytes(msgs@) == chunks_of(buffer@),
        forall|j: int|
            0 <= j < msgs@.len() ==> (#[trigger] msgs@[j]).thread == thread && msgs@[j].last_nl
                == break_start(msgs@[j].bytes@),
{
    let mut chunks = chunk_bytes(buffer);
    let ghost all = buffers_view(chunks@);
    let mut msgs: Vec<TailBytes> = Vec::new();
    proof {
        lemma_chunks_reassemble(buffer@);
        assert(message_bytes(msgs@) + all =~= all);
        assert forall|k: int| 0 <= k < chunks@.len() implies (#[trigger] chunks@[k])@.len() <= CHUNK by {
            assert(all[k] == chunks@[k]@);
        }
    }
    while chunks.len() > 0
        invariant
            all == chunks_of(buffer@),
            message_bytes(msgs@) + buffers_view(chunks@) == all,
            forall|k: int| 0 <= k < chunks@.len() ==> (#[trigger] chunks@[k])@.len() <= CHUNK,
            forall|j: int|
                0 <= j < msgs@.len() ==> (#[trigger] msgs@[j]).thread == thread && msgs@[j].last_nl
                    == break_start(msgs@[j].bytes@),
        decreases chunks@.len(),
    {
        let ghost before = chunks@;
        let ghost old_msgs = msgs@;
        let bytes = chunks.remove(0);
        let last_nl = find_last_nl_slice(bytes.as_slice());
        msgs.push(TailBytes { thread, bytes, last_nl });
        proof {
            assert(buffers_view(before) =~= seq![bytes@] + buffers_view(chunks@));
            assert(message_bytes(msgs@) =~= message_bytes(old_msgs).push(bytes@));
            assert(message_bytes(msgs@) + buffers_view(chunks@) =~= message_bytes(old_msgs) + buffers_view(
                before,
            ));
            assert forall|k: int| 0 <= k < chunks@.len() implies (#[trigger] chunks@[k])@.len() <= CHUNK by {
                assert(chunks@[k] == before[k + 1]);
            }
        }
    }
    proof {
        assert(message_bytes(msgs@) + buffers_view(chunks@) =~= message_bytes(msgs@));
    }
    msgs
}

/// Takes in one message: when it carries a line break (`last_nl >= 0`), the
/// file's pending bytes together with the message's bytes before `last_nl`
/// go to the end of `global_buffer` as one line, and the bytes from
/// `last_nl` on become the file's pending part; otherwise all its bytes are
/// appended to the pending part.
pub fn receive_msg(buffers: &mut ThreadBuffers, msg: TailBytes, global_buffer: &mut Vec<(usize, Vec<u8>)>)
    requires
        old(buffers).wf(),
        msg.thread < old(buffers)@.len(),
        msg.last_nl <= msg.bytes@.len(),
    ensures
        final(buffers).wf(),
        took_in(
            *old(buffers),
            *final(buffers),
            old(global_buffer)@,
            final(global_buffer)@,
            msg.thread,
            msg.bytes@,
            cut_point(msg.last_nl as int),
        ),
        msg.last_nl >= 0 ==> final(buffers)@ == old(buffers)@.update(
            msg.thread as int,
            msg.bytes@.skip(msg.last_nl as int),
        ) && lines_view(final(global_buffer)@) == lines_view(old(global_buffer)@).push(
            (msg.thread, old(buffers)@[msg.thread as int] + msg.bytes@.take(msg.last_nl as int)),
        ),
        msg.last_nl < 0 ==> final(buffers)@ == old(buffers)@.update(
            msg.thread as int,
            old(buffers)@[msg.thread as int] + msg.bytes@,
        ) && lines_view(final(global_buffer)@) == lines_view(old(global_buffer)@),
{
    let cut = if msg.last_nl >= 0 {
        Some(msg.last_nl as usize)
    } else {
        None
    };
    buffers.take_in(msg.thread, msg.bytes, cut, global_buffer);
}

/// How far the tailing thread moves its read position, relative to the end
/// of what it just read: back to just after the last line feed of
/// `buffer`, or one byte back when `buffer` holds no line feed.
pub fn rewind_offset(buffer: &Vec<u8>) -> (r: i64)
    requires
        buffer@.len() <= i64::MAX,
    ensures
        r == if last_lf(buffer@) >= 0 {
            lf_end_or_len(buffer@) - buffer@.len()
        } else {
            -1
        },
        r <= 0,
{
    let len = buffer.len();
    let last_nl = find_last_nl(buffer);
    proof {
        lemma_last_nl_agree(buffer@);
        lemma_last_lf(buffer@);
    }
    let end = if last_nl < len {
        if buffer[last_nl] == 0x0A {
            last_nl + 1
        } else {
            last_nl + 2
        }
    } else {
        return -1;
    };
    end as i64 - len as i64
}

/// What a file watcher reports about a tailed file: a plain write, some
/// other change, the path having gone, or another watcher error.
pub enum WatchEvent {
    Write,
    OtherChange,
    PathNotFound,
    OtherError,
}

/// Whether the tailing thread reads new bytes on this event: exactly on a
/// plain write. It cannot take an error event.
pub fn is_write_event(ev: &WatchEvent) -> (r: bool)
    requires
        !(ev is PathNotFound),
        !(ev is OtherError),
    ensures
        r <==> ev is Write,
{
    match ev {
        WatchEvent::Write => true,
        _ => false,
    }
}

/// How much of the end of a file of `file_len` bytes is read when tailing
/// starts (at most `TX_BUF_SIZE` bytes), and the matching seek offset from
/// the end of the file.
pub fn tail_window(file_len: u64) -> (r: (u64, i64))
    ensures
        r.0 == if file_len > TX_BUF_SIZE { TX_BUF_SIZE as u64 } else { file_len },
        r.1 == -(r.0 as int),
{
    let mut size: u64 = file_len;
    if size > 1024 {
        size = 1024;
    }
    (size, -(size as i64))
}

/// Where tailing starts in a file whose last window `bytes` was read from
/// position `seek_pos` on: just after the second-to-last line feed of the
/// window, so that its last two lines are shown, or at the start of the
/// window when it holds fewer than two line feeds.
pub fn tail_start_position(seek_pos: u64, bytes: &Vec<u8>) -> (r: u64)
    requires
        seek_pos + bytes@.len() <= u64::MAX,
    ensures
        r == seek_pos + if second_last_lf(bytes@) >= 0 {
            second_last_lf(bytes@) + 1
        } else {
            0
        },
{
    match find_second_last_newline(bytes) {
        Some(j) => seek_pos + j as u64 + 1,
        None => seek_pos,
    }
}

/// Calls `String::from_utf8`, which std documents as returning the string
/// exactly when the bytes are valid UTF-8; the error becomes `None`. What
/// the contract claims of the decoded characters rests on vstd's model of
/// UTF-8 decoding.
#[verifier::external_body]
fn string_from_utf8(bytes: Vec<u8>) -> (r: Option<String>)
    ensures
        r is Some <==> valid_utf8(bytes@),
        r matches Some(s) ==> s@ == decode_utf8(bytes@),
{
    String::from_utf8(bytes).ok()
}

/// Decodes file paths given as UTF-8 bytes; `None` as soon as one of them
/// is not valid UTF-8.
pub fn decode_paths(raw: &Vec<Vec<u8>>) -> (r: Option<Vec<String>>)
    ensures
        r is Some <==> forall|i: int| 0 <= i < raw@.len() ==> valid_utf8(#[trigger] raw@[i]@),
        r matches Some(v) ==> v@.len() == raw@.len() && forall|i: int|
            0 <= i < raw@.len() ==> (#[trigger] v@[i])@ == decode_utf8(raw@[i]@),
{
    let mut files: Vec<String> = Vec::new();
    for i in 0..raw.len()
        invariant
            files@.len() == i,
            forall|k: int| 0 <= k < i ==> valid_utf8(#[trigger] raw@[k]@),
            forall|k: int| 0 <= k < i ==> (#[trigger] files@[k])@ == decode_utf8(raw@[k]@),
    {
        let mut copy: Vec<u8> = Vec::new();
        extend_from_range(&mut copy, raw[i].as_slice(), 0, raw[i].len());
        assert(copy@ =~= raw@[i as int]@);
        match string_from_utf8(copy) {
            Some(s) => files.push(s),
            None => return None,
        }
    }
    Some(files)
}

/// Hands on the completed lines waiting in `global_buffer`, decoded as
/// UTF-8, and empties it; `None` when a line is not valid UTF-8. It walks
/// the buffer removing the entry at each position in turn, which is defined
/// only for a buffer of at most one entry.
pub fn get_received(global_buffer: &mut Vec<(usize, Vec<u8>)>) -> (r: Option<Vec<(usize, String)>>)
    requires
        old(global_buffer)@.len() <= 1,
    ensures
        final(global_buffer)@.len() == 0,
        r is Some <==> forall|i: int|
            0 <= i < old(global_buffer)@.len() ==> valid_utf8(#[trigger] old(global_buffer)@[i].1@),
        r matches Some(v) ==> v@.len() == old(global_buffer)@.len() && forall|i: int|
            0 <= i < v@.len() ==> (#[trigger] v@[i]).0 == old(global_buffer)@[i].0 && v@[i].1@
                == decode_utf8(old(global_buffer)@[i].1@),
{
    let ghost start = global_buffer@;
    let mut ret: Vec<(usize, String)> = Vec::new();
    let n = global_buffer.len();
    for i in 0..n
        invariant
            n == start.len(),
            start == old(global_buffer)@,
            n <= 1,
            global_buffer@ == start.skip(i as int),
            ret@.len() == i,
            forall|k: int| 0 <= k < i ==> valid_utf8(#[trigger] start[k].1@),
            forall|k: int|
                0 <= k < i ==> (#[trigger] ret@[k]).0 == start[k].0 && ret@[k].1@ == decode_utf8(
                    start[k].1@,
                ),
    {
        let (thread, v) = global_buffer.remove(i);
        assert(global_buffer@ =~= start.skip(i + 1));
        assert(v@ == start[i as int].1@);
        match string_from_utf8(v) {
            Some(s) => ret.push((thread, s)),
            None => {
                assert(!valid_utf8(start[i as int].1@));
                return None;
            },
        }
    }
    Some(ret)
}

} // verus!
