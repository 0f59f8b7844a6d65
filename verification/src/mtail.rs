//! The second-generation tailer: line feeds stay with the line they end,
//! completed lines are collected on request, and a tailing thread re-opens
//! its file when the file is replaced.
use vstd::prelude::*;

use crate::ThreadBuffers;
use crate::WatchEvent;
use crate::newline::{LF, last_lf, lemma_last_lf, lemma_last_lf_at, lf_end_or_len, no_lf};
use crate::reassembly::{
    CHUNK, Piece, absorb, buffers_view, chunk_bytes, chunks_of, lemma_chunks_reassemble,
    line_bytes_of, lines_view, took_in,
};
use vstd::utf8::{decode_utf8, valid_utf8};

verus! {

/// Size of the chunks in which freshly read bytes are handed to the receiver.
pub const TX_BUF_SIZE: usize = 1024usize;

/// The position just after the last line feed of `buf`, or `buf.len()`
/// when `buf` holds none.
pub fn find_last_nl(buf: &Vec<u8>) -> (r: usize)
    ensures
        r == lf_end_or_len(buf@),
{
    let len = buf.len();
    if len > 0 {
        for i in 0..len
            invariant
                len == buf@.len(),
                forall|k: int| len - i <= k < len ==> buf@[k] != LF,
        {
            if buf[len - 1 - i] == 0x0A {
                proof {
                    lemma_last_lf_at(buf@, len - 1 - i);
                }
                if i + 1 < len && buf[len - 2 - i] == 0x0D {
                    return len - i;
                } else {
                    return len - i;
                }
            }
        }
    }
    proof {
        lemma_last_lf(buf@);
    }
    return buf.len();
}

/// Index of the last line feed of `buf`, or -1 when `buf` holds none.
pub fn find_last_nl_slice(buf: &[u8]) -> (r: isize)
    requires
        buf@.len() <= isize::MAX,
    ensures
        r == last_lf(buf@),
{
    let len = buf.len();
    if len > 0 {
        for i in 0..len
            invariant
                len == buf@.len(),
                len <= isize::MAX,
                forall|k: int| len - i <= k < len ==> buf@[k] != LF,
        {
            if buf[len - 1 - i] == 0x0A {
                proof {
                    lemma_last_lf_at(buf@, len - 1 - i);
                }
                if i + 1 < len && buf[len - 2 - i] == 0x0D {
                    return (len - 1 - i) as isize;
                } else {
                    return (len - 1 - i) as isize;
                }
            }
        }
    }
    proof {
        lemma_last_lf(buf@);
    }
    return -1;
}


/// `find_last_nl` and `find_last_nl_slice` agree: when there is a line
/// feed, the first gives the position just after the index the second
/// gives; otherwise the first gives the length and the second -1.
pub proof fn lemma_last_nl_agree(s: Seq<u8>)
    ensures
        -1 <= last_lf(s) < s.len(),
        last_lf(s) >= 0 ==> lf_end_or_len(s) == last_lf(s) + 1,
        last_lf(s) < 0 ==> lf_end_or_len(s) == s.len() && last_lf(s) == -1,
{
    lemma_last_lf(s);
}

/// A piece of a file's new contents, as one tailing thread hands it to the
/// receiver: the thread (file) number, the bytes, and the index of the last
/// line feed in them (-1 when they hold none).
pub struct TailBytes {
    pub thread: usize,
    pub bytes: Vec<u8>,
    pub last_nl: isize,
}

/// The byte contents of a sequence of messages.
pub open spec fn message_bytes(msgs: Seq<TailBytes>) -> Seq<Seq<u8>> {
    msgs.map_values(|m: TailBytes| m.bytes@)
}

/// Where the receiver cuts a message: just after its line feed, or -1 when
/// it carries none.
pub open spec fn cut_point(last_nl: int) -> int {
    if last_nl >= 0 {
        last_nl + 1
    } else {
        -1
    }
}

/// Taking in a message whose `last_nl` is the index of its last line feed,
/// as `split_into_messages` makes them, keeps every pending part free of
/// line feeds: a line that leaves ends with a line feed, and the part kept
/// back holds none. A message without a line feed lets nothing
/// leave.
pub proof fn lemma_lines_end_at_lf(bufs: Seq<Seq<u8>>, t: int, bytes: Seq<u8>)
    requires
        0 <= t < bufs.len(),
        no_lf(bufs[t]),
    ensures
        ({
            let (after, line) = absorb(bufs, t, bytes, cut_point(last_lf(bytes)));
            &&& no_lf(after[t])
            &&& after.len() == bufs.len()
            &&& forall|u: int| 0 <= u < bufs.len() && u != t ==> after[u] == bufs[u]
            &&& line matches Some(l) ==> l.len() > 0 && l.last() == LF
            &&& line is None ==> no_lf(bytes)
        }),
{
    lemma_last_lf(bytes);
    let j = last_lf(bytes);
    let (after, line) = absorb(bufs, t, bytes, cut_point(j));
    if j >= 0 {
        let l = bufs[t] + bytes.take(j + 1);
        assert(line == Some(l));
        assert forall|k: int| 0 <= k < after[t].len() implies after[t][k] != LF by {
            assert(after[t][k] == bytes[j + 1 + k]);
        }
        assert(l.last() == bytes[j]);
    } else {
        assert forall|k: int| 0 <= k < after[t].len() implies after[t][k] != LF by {
            if k < bufs[t].len() {
                assert(after[t][k] == bufs[t][k]);
            } else {
                assert(after[t][k] == bytes[k - bufs[t].len()]);
            }
        }
    }
}

/// The receiver's view of a list of messages: thread, bytes and the point
/// at which `receive_msg` cuts them.
pub open spec fn message_pieces(msgs: Seq<TailBytes>) -> Seq<Piece> {
    msgs.map_values(|m: TailBytes| (m.thread as int, m.bytes@, cut_point(m.last_nl as int)))
}

/// Taking in a message that carries a line feed (`last_nl >= 0`, a line
/// feed at the very first byte included) always hands on a line: the
/// pending bytes followed by the message's bytes up to and including that
/// line feed; the bytes after it stay pending. A message without one only
/// adds to what is pending.
pub proof fn lemma_receive_cuts_after_lf(
    before: ThreadBuffers,
    after: ThreadBuffers,
    g_before: Seq<(usize, Vec<u8>)>,
    g_after: Seq<(usize, Vec<u8>)>,
    msg: TailBytes,
)
    requires
        msg.thread < before@.len(),
        msg.last_nl < msg.bytes@.len(),
        took_in(before, after, g_before, g_after, msg.thread, msg.bytes@, cut_point(msg.last_nl as int)),
    ensures
        msg.last_nl >= 0 ==> lines_view(g_after) == lines_view(g_before).push(
            (msg.thread, before@[msg.thread as int] + msg.bytes@.take(msg.last_nl + 1)),
        ) && after@[msg.thread as int] == msg.bytes@.skip(msg.last_nl + 1),
        msg.last_nl < 0 ==> lines_view(g_after) == lines_view(g_before) && after@[msg.thread as int]
            == before@[msg.thread as int] + msg.bytes@,
        forall|u: int| 0 <= u < before@.len() && u != msg.thread ==> after@[u] == before@[u],
{
}

/// What a tailing thread reads is what the receiver delivers: when the
/// messages that `split_into_messages` made of `buffer` for thread `t` are
/// taken in by `receive_msg` after the state `before`, giving `after`, the
/// lines handed on in between for `t` followed by what is pending for `t`
/// are exactly what was pending for `t` before followed by `buffer`.
pub proof fn lemma_read_is_delivered(
    before: ThreadBuffers,
    after: ThreadBuffers,
    t: usize,
    buffer: Seq<u8>,
    msgs: Seq<TailBytes>,
    lines: Seq<(int, Seq<u8>)>,
)
    requires
        before.wf(),
        after.wf(),
        t < before@.len(),
        after@.len() == before@.len(),
        after.received() == before.received() + message_pieces(msgs),
        after.delivered() == before.delivered() + lines,
        message_bytes(msgs) == chunks_of(buffer),
        forall|j: int| 0 <= j < msgs.len() ==> (#[trigger] msgs[j]).thread == t,
    ensures
        line_bytes_of(t as int, lines) + after@[t as int] == before@[t as int] + buffer,
{
    let pieces = message_pieces(msgs);
    assert(pieces.map_values(|p: Piece| p.1) =~= message_bytes(msgs));
    assert forall|i: int| 0 <= i < pieces.len() implies (#[trigger] pieces[i]).0 == t by {
        assert(pieces[i].0 == msgs[i].thread);
    }
    crate::reassembly::lemma_read_is_delivered(before, after, t as int, buffer, pieces, lines);
}

/// Cuts what a tailing thread has just read into the messages it sends:
/// one per chunk of `TX_BUF_SIZE` bytes, in order, each stamped with the
/// thread number and the index of its own last line feed.
pub fn split_into_messages(thread: usize, buffer: &Vec<u8>) -> (msgs: Vec<TailBytes>)
    ensures
        message_bytes(msgs@) == chunks_of(buffer@),
        forall|j: int|
            0 <= j < msgs@.len() ==> (#[trigger] msgs@[j]).thread == thread && msgs@[j].last_nl
                == last_lf(msgs@[j].bytes@),
{
    let mut chunks = chunk_bytes(buffer);
    let ghost all = buffers_view(chunks@);
    let mut msgs: Vec<TailBytes> = Vec::new();
    proof {
        lemma_chunks_reassemble(buffer@);
        assert(message_bytes(msgs@) + all =~= all);
        assert forall|k: int| 0 <= k < chunks@.len() implies (#[trigger] chunks@[k])@.len() <= CHUNK by {
            assert(all[k] == chunks@[k]@);
        }
    }
    while chunks.len() > 0
        invariant
            all == chunks_of(buffer@),
            message_bytes(msgs@) + buffers_view(chunks@) == all,
            forall|k: int| 0 <= k < chunks@.len() ==> (#[trigger] chunks@[k])@.len() <= CHUNK,
            forall|j: int|
                0 <= j < msgs@.len() ==> (#[trigger] msgs@[j]).thread == thread && msgs@[j].last_nl
                    == last_lf(msgs@[j].bytes@),
        decreases chunks@.len(),
    {
        let ghost before = chunks@;
        let ghost old_msgs = msgs@;
        let bytes = chunks.remove(0);
        let last_nl = find_last_nl_slice(bytes.as_slice());
        msgs.push(TailBytes { thread, bytes, last_nl });
        proof {
            assert(buffers_view(before) =~= seq![bytes@] + buffers_view(chunks@));
            assert(message_bytes(msgs@) =~= message_bytes(old_msgs).push(bytes@));
            assert(message_bytes(msgs@) + buffers_view(chunks@) =~= message_bytes(old_msgs) + buffers_view(
                before,
            ));
            assert forall|k: int| 0 <= k < chunks@.len() implies (#[trigger] chunks@[k])@.len() <= CHUNK by {
                assert(chunks@[k] == before[k + 1]);
            }
        }
    }
    proof {
        assert(message_bytes(msgs@) + buffers_view(chunks@) =~= message_bytes(msgs@));
    }
    msgs
}

/// Takes in one message: when it carries a line feed (`last_nl >= 0`), the
/// file's pending bytes together with the message's bytes up to and
/// including that line feed go to the end of `global_buffer` as one line,
/// and the bytes after it become the file's pending part; otherwise all its
/// bytes are appended to the pending part.
pub fn receive_msg(buffers: &mut ThreadBuffers, msg: TailBytes, global_buffer: &mut Vec<(usize, Vec<u8>)>)
    requires
        old(buffers).wf(),
        msg.thread < old(buffers)@.len(),
        msg.last_nl < msg.bytes@.len(),
    ensures
        final(buffers).wf(),
        took_in(
            *old(buffers),
            *final(buffers),
            old(global_buffer)@,
            final(global_buffer)@,
            msg.thread,
            msg.bytes@,
            cut_point(msg.last_nl as int),
        ),
        msg.last_nl >= 0 ==> final(buffers)@ == old(buffers)@.update(
            msg.thread as int,
            msg.bytes@.skip(msg.last_nl + 1),
        ) && lines_view(final(global_buffer)@) == lines_view(old(global_buffer)@).push(
            (msg.thread, old(buffers)@[msg.thread as int] + msg.bytes@.take(msg.last_nl + 1)),
        ),
        msg.last_nl < 0 ==> final(buffers)@ == old(buffers)@.update(
            msg.thread as int,
            old(buffers)@[msg.thread as int] + msg.bytes@,
        ) && lines_view(final(global_buffer)@) == lines_view(old(global_buffer)@),
{
    let cut = if msg.last_nl >= 0 {
        Some(msg.last_nl as usize + 1)
    } else {
        None
    };
    buffers.take_in(msg.thread, msg.bytes, cut, global_buffer);
}

/// One step of collecting lines: takes in `msg` as `receive_msg` does and
/// says whether collecting is done, which it is as soon as a completed line
/// is waiting in `global_buffer`.
pub fn wait_step(buffers: &mut ThreadBuffers, msg: TailBytes, global_buffer: &mut Vec<(usize, Vec<u8>)>) -> (done: bool)
    requires
        old(buffers).wf(),
        msg.thread < old(buffers)@.len(),
        msg.last_nl < msg.bytes@.len(),
    ensures
        final(buffers).wf(),
        took_in(
            *old(buffers),
            *final(buffers),
            old(global_buffer)@,
            final(global_buffer)@,
            msg.thread,
            msg.bytes@,
            cut_point(msg.last_nl as int),
        ),
        msg.last_nl >= 0 ==> final(buffers)@ == old(buffers)@.update(
            msg.thread as int,
            msg.bytes@.skip(msg.last_nl + 1),
        ) && lines_view(final(global_buffer)@) == lines_view(old(global_buffer)@).push(
            (msg.thread, old(buffers)@[msg.thread as int] + msg.bytes@.take(msg.last_nl + 1)),
        ),
        msg.last_nl < 0 ==> final(buffers)@ == old(buffers)@.update(
            msg.thread as int,
            old(buffers)@[msg.thread as int] + msg.bytes@,
        ) && lines_view(final(global_buffer)@) == lines_view(old(global_buffer)@),
        done <==> final(global_buffer)@.len() > 0,
{
    receive_msg(buffers, msg, global_buffer);
    global_buffer.len() > 0
}

/// How far the tailing thread moves its read position, relative to the end
/// of what it just read, so that its next read starts just after the last
/// line feed of `buffer`: `find_last_nl(buffer) - buffer.len()`.
pub fn rewind_offset(buffer: &Vec<u8>) -> (r: i64)
    requires
        buffer@.len() <= i64::MAX,
    ensures
        r == lf_end_or_len(buffer@) - buffer@.len(),
        r <= 0,
{
    let last_nl = find_last_nl(buffer);
    proof {
        lemma_last_lf(buffer@);
    }
    last_nl as i64 - buffer.len() as i64
}

/// Takes every entry out of `buffer`, front first, and returns them in the
/// same order; `buffer` is left empty.
pub fn take_all_lines(buffer: &mut Vec<(usize, Vec<u8>)>) -> (ret: Vec<(usize, Vec<u8>)>)
    ensures
        ret@ == old(buffer)@,
        final(buffer)@.len() == 0,
{
    let ghost start = buffer@;
    let mut ret: Vec<(usize, Vec<u8>)> = Vec::new();
    while buffer.len() > 0
        invariant
            ret@ + buffer@ == start,
        decreases buffer@.len(),
    {
        let ghost before = buffer@;
        let entry = buffer.remove(0);
        ret.push(entry);
        assert(ret@ + buffer@ =~= start) by {
            assert(before =~= seq![entry] + buffer@);
        }
    }
    assert(ret@ + buffer@ =~= ret@);
    ret
}

/// What a tailing thread does about one watcher event.
pub enum TailAction {
    /// Read what was appended and send it.
    ReadNext,
    /// Re-open the file from the last position and send what it holds.
    ReRead,
    /// Nothing.
    Ignore,
}

/// A write makes the thread read on; a vanished path makes it re-open the
/// file; anything else is ignored.
pub fn event_action(ev: &WatchEvent) -> (r: TailAction)
    ensures
        ev is Write ==> r is ReadNext,
        ev is PathNotFound ==> r is ReRead,
        (ev is OtherChange || ev is OtherError) ==> r is Ignore,
{
    match ev {
        WatchEvent::Write => TailAction::ReadNext,
        WatchEvent::PathNotFound => TailAction::ReRead,
        _ => TailAction::Ignore,
    }
}

/// An empty read means the file was replaced and has to be re-opened.
pub fn needs_reread(bytes_read: usize) -> (r: bool)
    ensures
        r <==> bytes_read == 0,
{
    bytes_read == 0
}

/// Where reading resumes in a re-opened file: one byte before the last
/// known position.
pub fn reread_start(last_pos: u64) -> (r: u64)
    requires
        last_pos >= 1,
    ensures
        r == last_pos - 1,
{
    last_pos - 1
}

/// A read from a re-opened file that returned bytes ends with one byte too
/// many; it is dropped.
pub fn drop_reread_artifact(buffer: &mut Vec<u8>, bytes_read: usize)
    ensures
        bytes_read > 0 && old(buffer)@.len() > 0 ==> final(buffer)@ == old(buffer)@.drop_last(),
        !(bytes_read > 0 && old(buffer)@.len() > 0) ==> final(buffer)@ == old(buffer)@,
{
    if bytes_read > 0 {
        buffer.pop();
    }
}

/// What `String::from_utf8_lossy` makes of `bytes`: their UTF-8 decoding
/// with every invalid sequence replaced by U+FFFD.
pub uninterp spec fn utf8_lossy(bytes: Seq<u8>) -> Seq<char>;

/// Calls `String::from_utf8_lossy` and takes the result as an owned
/// `String`. The contract names the result; the one fact it adds is the
/// documented one that valid UTF-8 is decoded unchanged.
#[verifier::external_body]
fn string_from_utf8_lossy(bytes: &[u8]) -> (r: String)
    ensures
        r@ == utf8_lossy(bytes@),
        valid_utf8(bytes@) ==> r@ == decode_utf8(bytes@),
{
    String::from_utf8_lossy(bytes).into_owned()
}

/// Decodes file paths given as bytes, replacing invalid UTF-8 by U+FFFD.
pub fn decode_paths_lossy(raw: &Vec<Vec<u8>>) -> (r: Vec<String>)
    ensures
        r@.len() == raw@.len(),
        forall|i: int| 0 <= i < raw@.len() ==> (#[trigger] r@[i])@ == utf8_lossy(raw@[i]@),
        forall|i: int|
            0 <= i < raw@.len() && valid_utf8(raw@[i]@) ==> (#[trigger] r@[i])@ == decode_utf8(
                raw@[i]@,
            ),
{
    let mut paths: Vec<String> = Vec::new();
    for i in 0..raw.len()
        invariant
            paths@.len() == i,
            forall|k: int| 0 <= k < i ==> (#[trigger] paths@[k])@ == utf8_lossy(raw@[k]@),
            forall|k: int|
                0 <= k < i && valid_utf8(raw@[k]@) ==> (#[trigger] paths@[k])@ == decode_utf8(raw@[k]@),
    {
        paths.push(string_from_utf8_lossy(raw[i].as_slice()));
    }
    paths
}

} // verus!
