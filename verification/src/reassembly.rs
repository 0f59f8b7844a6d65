//! How the bytes a tailing thread reads travel to the receiver: cut into
//! chunks of at most `CHUNK` bytes, then taken in by per-thread buffers that
//! hand on completed lines. The buffers keep a record of what they took in
//! and handed on, and their invariant is that nothing is lost, repeated or
//! reordered.
use vstd::prelude::*;

verus! {

/// Number of bytes in one transmission chunk.
pub const CHUNK: usize = 1024usize;

/// The cutting of `s` into consecutive chunks of `CHUNK` bytes, the last
/// one possibly shorter; an empty sequence gives no chunk.
pub open spec fn chunks_of(s: Seq<u8>) -> Seq<Seq<u8>>
    decreases s.len(),
{
    if s.len() == 0 {
        Seq::empty()
    } else if s.len() <= CHUNK {
        seq![s]
    } else {
        seq![s.take(CHUNK as int)] + chunks_of(s.skip(CHUNK as int))
    }
}

/// Cutting into chunks loses and repeats nothing: the chunks put back
/// together give back the bytes that were cut, every chunk holds between
/// one and `CHUNK` bytes, and all but the last hold exactly `CHUNK`.
pub proof fn lemma_chunks_reassemble(s: Seq<u8>)
    ensures
        chunks_of(s).flatten() == s,
        forall|j: int| 0 <= j < chunks_of(s).len() ==> 0 < #[trigger] chunks_of(s)[j].len() <= CHUNK,
        forall|j: int| 0 <= j < chunks_of(s).len() - 1 ==> #[trigger] chunks_of(s)[j].len() == CHUNK,
    decreases s.len(),
{
    if s.len() == 0 {
    } else if s.len() <= CHUNK {
        let c = chunks_of(s);
        assert(c.drop_first() =~= Seq::<Seq<u8>>::empty());
        assert(c.flatten() == c.first() + c.drop_first().flatten());
        assert(c.flatten() =~= s);
    } else {
        let rest = s.skip(CHUNK as int);
        lemma_chunks_reassemble(rest);
        let c = chunks_of(s);
        assert(c.drop_first() =~= chunks_of(rest));
        assert(c.flatten() == c.first() + c.drop_first().flatten());
        assert(c.flatten() =~= s);
        assert forall|j: int| 0 <= j < c.len() implies 0 < #[trigger] c[j].len() <= CHUNK by {
            if j > 0 {
                assert(c[j] == chunks_of(rest)[j - 1]);
            }
        }
        assert forall|j: int| 0 <= j < c.len() - 1 implies #[trigger] c[j].len() == CHUNK by {
            if j > 0 {
                assert(c[j] == chunks_of(rest)[j - 1]);
            }
        }
    }
}

/// The byte view of the per-thread buffers.
pub open spec fn buffers_view(v: Seq<Vec<u8>>) -> Seq<Seq<u8>> {
    v.map_values(|b: Vec<u8>| b@)
}

/// The view of a list of completed lines, each tagged with its thread.
pub open spec fn lines_view(g: Seq<(usize, Vec<u8>)>) -> Seq<(usize, Seq<u8>)> {
    g.map_values(|e: (usize, Vec<u8>)| (e.0, e.1@))
}

/// What taking in `bytes` from thread `thread` does to the per-thread
/// buffers: with `cut >= 0`, the thread's pending bytes together with
/// `bytes[..cut]` leave as a finished line and `bytes[cut..]` becomes the
/// new pending part; with `cut < 0`, all of `bytes` is appended to the
/// pending part and nothing leaves.
pub open spec fn absorb(bufs: Seq<Seq<u8>>, thread: int, bytes: Seq<u8>, cut: int) -> (Seq<Seq<u8>>, Option<Seq<u8>>) {
    if cut >= 0 {
        (bufs.update(thread, bytes.skip(cut)), Some(bufs[thread] + bytes.take(cut)))
    } else {
        (bufs.update(thread, bufs[thread] + bytes), None)
    }
}

/// A message as the receiver sees it: thread number, bytes, and cut point.
pub type Piece = (int, Seq<u8>, int);

/// All bytes of the lines of thread `t`, in order.
pub open spec fn line_bytes_of(t: int, lines: Seq<(int, Seq<u8>)>) -> Seq<u8>
    decreases lines.len(),
{
    if lines.len() == 0 {
        Seq::empty()
    } else {
        (if lines[0].0 == t {
            lines[0].1
        } else {
            Seq::empty()
        }) + line_bytes_of(t, lines.drop_first())
    }
}

/// All bytes that the pieces of thread `t` carry, in order.
pub open spec fn piece_bytes_of(t: int, pieces: Seq<Piece>) -> Seq<u8>
    decreases pieces.len(),
{
    if pieces.len() == 0 {
        Seq::empty()
    } else {
        (if pieces[0].0 == t {
            pieces[0].1
        } else {
            Seq::empty()
        }) + piece_bytes_of(t, pieces.drop_first())
    }
}

/// The bytes of thread `t` in joined line lists are those of each list in turn.
pub proof fn lemma_line_bytes_concat(t: int, a: Seq<(int, Seq<u8>)>, b: Seq<(int, Seq<u8>)>)
    ensures
        line_bytes_of(t, a + b) == line_bytes_of(t, a) + line_bytes_of(t, b),
    decreases a.len(),
{
    if a.len() == 0 {
        assert(a + b =~= b);
        assert(Seq::<u8>::empty() + line_bytes_of(t, b) =~= line_bytes_of(t, b));
    } else {
        lemma_line_bytes_concat(t, a.drop_first(), b);
        assert((a + b).drop_first() =~= a.drop_first() + b);
        assert((a + b)[0] == a[0]);
        let own: Seq<u8> = if a[0].0 == t { a[0].1 } else { Seq::empty() };
        assert(line_bytes_of(t, a + b) =~= own + (line_bytes_of(t, a.drop_first()) + line_bytes_of(t, b)));
    }
}

/// The bytes of thread `t` in joined piece lists are those of each list in turn.
pub proof fn lemma_piece_bytes_concat(t: int, a: Seq<Piece>, b: Seq<Piece>)
    ensures
        piece_bytes_of(t, a + b) == piece_bytes_of(t, a) + piece_bytes_of(t, b),
    decreases a.len(),
{
    if a.len() == 0 {
        assert(a + b =~= b);
        assert(Seq::<u8>::empty() + piece_bytes_of(t, b) =~= piece_bytes_of(t, b));
    } else {
        lemma_piece_bytes_concat(t, a.drop_first(), b);
        assert((a + b).drop_first() =~= a.drop_first() + b);
        assert((a + b)[0] == a[0]);
        let own: Seq<u8> = if a[0].0 == t { a[0].1 } else { Seq::empty() };
        assert(piece_bytes_of(t, a + b) =~= own + (piece_bytes_of(t, a.drop_first()) + piece_bytes_of(t, b)));
    }
}

/// The bytes of thread `t` in a one-element line list.
proof fn lemma_line_bytes_single(t: int, x: (int, Seq<u8>))
    ensures
        line_bytes_of(t, seq![x]) == if x.0 == t {
            x.1
        } else {
            Seq::<u8>::empty()
        },
{
    assert(seq![x].drop_first() =~= Seq::<(int, Seq<u8>)>::empty());
    assert(line_bytes_of(t, Seq::<(int, Seq<u8>)>::empty()) == Seq::<u8>::empty());
    assert(seq![x][0] == x);
    let own: Seq<u8> = if x.0 == t { x.1 } else { Seq::empty() };
    assert(own + Seq::<u8>::empty() =~= own);
}

/// The bytes of thread `t` in a one-element piece list.
proof fn lemma_piece_bytes_single(t: int, x: Piece)
    ensures
        piece_bytes_of(t, seq![x]) == if x.0 == t {
            x.1
        } else {
            Seq::<u8>::empty()
        },
{
    assert(seq![x].drop_first() =~= Seq::<Piece>::empty());
    assert(piece_bytes_of(t, Seq::<Piece>::empty()) == Seq::<u8>::empty());
    assert(seq![x][0] == x);
    let own: Seq<u8> = if x.0 == t { x.1 } else { Seq::empty() };
    assert(own + Seq::<u8>::empty() =~= own);
}

/// When every piece comes from thread `t` and the pieces' bytes are the
/// chunks of `buffer`, thread `t` sent exactly `buffer`.
pub proof fn lemma_chunk_pieces_carry_buffer(t: int, buffer: Seq<u8>, pieces: Seq<Piece>)
    requires
        pieces.map_values(|p: Piece| p.1) == chunks_of(buffer),
        forall|i: int| 0 <= i < pieces.len() ==> (#[trigger] pieces[i]).0 == t,
    ensures
        piece_bytes_of(t, pieces) == buffer,
{
    lemma_pieces_of_one_thread(t, pieces);
    lemma_chunks_reassemble(buffer);
}

/// When every piece comes from thread `t`, the bytes of `t` are simply all
/// the pieces' bytes put together.
proof fn lemma_pieces_of_one_thread(t: int, pieces: Seq<Piece>)
    requires
        forall|i: int| 0 <= i < pieces.len() ==> (#[trigger] pieces[i]).0 == t,
    ensures
        piece_bytes_of(t, pieces) == pieces.map_values(|p: Piece| p.1).flatten(),
    decreases pieces.len(),
{
    if pieces.len() > 0 {
        let rest = pieces.drop_first();
        assert forall|i: int| 0 <= i < rest.len() implies (#[trigger] rest[i]).0 == t by {
            assert(rest[i] == pieces[i + 1]);
        }
        lemma_pieces_of_one_thread(t, rest);
        let m = pieces.map_values(|p: Piece| p.1);
        assert(m.drop_first() =~= rest.map_values(|p: Piece| p.1));
        assert(pieces[0].0 == t);
    }
}

/// The receiver's per-thread buffers: for every tailed file, the bytes
/// received since the last line that was handed on; together with a record
/// of every piece taken in and every line handed on.
pub struct ThreadBuffers {
    thread_buffers: Vec<Vec<u8>>,
    received: Ghost<Seq<Piece>>,
    delivered: Ghost<Seq<(int, Seq<u8>)>>,
}

impl View for ThreadBuffers {
    type V = Seq<Seq<u8>>;

    closed spec fn view(&self) -> Seq<Seq<u8>> {
        buffers_view(self.thread_buffers@)
    }
}

/// One taking in by `take_in`: the buffers go from `before` to `after` and
/// the list of completed lines from `g_before` to `g_after`.
pub open spec fn took_in(
    before: ThreadBuffers,
    after: ThreadBuffers,
    g_before: Seq<(usize, Vec<u8>)>,
    g_after: Seq<(usize, Vec<u8>)>,
    thread: usize,
    bytes: Seq<u8>,
    cut: int,
) -> bool {
    let (bufs, line) = absorb(before@, thread as int, bytes, cut);
    &&& after@ == bufs
    &&& after.received() == before.received().push((thread as int, bytes, cut))
    &&& lines_view(g_after) == match line {
        Some(l) => lines_view(g_before).push((thread, l)),
        None => lines_view(g_before),
    }
    &&& after.delivered() == match line {
        Some(l) => before.delivered().push((thread as int, l)),
        None => before.delivered(),
    }
}

impl ThreadBuffers {
    /// Every piece taken in so far, in order.
    pub closed spec fn received(&self) -> Seq<Piece> {
        self.received@
    }

    /// Every line handed on so far, in order, with its thread.
    pub closed spec fn delivered(&self) -> Seq<(int, Seq<u8>)> {
        self.delivered@
    }

    /// For every thread, the lines handed on followed by what is pending
    /// are exactly the bytes that thread sent.
    pub closed spec fn wf(&self) -> bool {
        forall|t: int|
            0 <= t < self@.len() ==> line_bytes_of(t, self.delivered@) + #[trigger] self@[t]
                == piece_bytes_of(t, self.received@)
    }

    /// Nothing is lost, repeated, reordered or moved to another thread: for
    /// every thread, the lines handed on so far followed by what is still
    /// pending are exactly the bytes that thread sent, in the order it sent
    /// them.
    pub proof fn lemma_nothing_lost(&self, t: int)
        requires
            self.wf(),
            0 <= t < self@.len(),
        ensures
            line_bytes_of(t, self.delivered()) + self@[t] == piece_bytes_of(t, self.received()),
    {
    }

    /// One empty buffer for each of `count` tailed files, with nothing
    /// received or handed on yet.
    pub fn new(count: usize) -> (r: ThreadBuffers)
        ensures
            r@ == Seq::new(count as nat, |i: int| Seq::<u8>::empty()),
            r.received() == Seq::<Piece>::empty(),
            r.delivered() == Seq::<(int, Seq<u8>)>::empty(),
            r.wf(),
    {
        let mut thread_buffers: Vec<Vec<u8>> = Vec::new();
        let mut i: usize = 0;
        while i < count
            invariant
                i <= count,
                thread_buffers@.len() == i,
                forall|k: int| 0 <= k < i ==> (#[trigger] thread_buffers@[k])@ == Seq::<u8>::empty(),
            decreases count - i,
        {
            let empty: Vec<u8> = Vec::new();
            thread_buffers.push(empty);
            i = i + 1;
        }
        assert(buffers_view(thread_buffers@) =~= Seq::new(count as nat, |k: int| Seq::<u8>::empty()));
        let r = ThreadBuffers { thread_buffers, received: Ghost(Seq::empty()), delivered: Ghost(Seq::empty()) };
        assert forall|t: int| 0 <= t < r@.len() implies line_bytes_of(t, r.delivered@) + #[trigger] r@[t]
            == piece_bytes_of(t, r.received@) by {
            assert(Seq::<u8>::empty() + Seq::<u8>::empty() =~= Seq::<u8>::empty());
        }
        r
    }

    /// Number of tailed files.
    pub fn count(&self) -> (r: usize)
        ensures
            r == self@.len(),
    {
        self.thread_buffers.len()
    }

    /// The bytes pending for file `thread`.
    pub fn pending(&self, thread: usize) -> (r: &Vec<u8>)
        requires
            thread < self@.len(),
        ensures
            r@ == self@[thread as int],
    {
        &self.thread_buffers[thread]
    }

    /// Takes in `bytes` from thread `thread` (see `absorb`): with a cut
    /// point, the pending bytes together with `bytes[..cut]` go to the end
    /// of `global_buffer` as one line and `bytes[cut..]` becomes the pending
    /// part; without one, `bytes` is appended to the pending part.
    pub fn take_in(
        &mut self,
        thread: usize,
        bytes: Vec<u8>,
        cut: Option<usize>,
        global_buffer: &mut Vec<(usize, Vec<u8>)>,
    )
        requires
            old(self).wf(),
            thread < old(self)@.len(),
            cut matches Some(k) ==> k <= bytes@.len(),
        ensures
            final(self).wf(),
            took_in(
                *old(self),
                *final(self),
                old(global_buffer)@,
                final(global_buffer)@,
                thread,
                bytes@,
                match cut {
                    Some(k) => k as int,
                    None => -1,
                },
            ),
            cut matches Some(k) ==> final(self)@ == old(self)@.update(thread as int, bytes@.skip(k as int))
                && lines_view(final(global_buffer)@) == lines_view(old(global_buffer)@).push(
                (thread, old(self)@[thread as int] + bytes@.take(k as int)),
            ),
            cut is None ==> final(self)@ == old(self)@.update(
                thread as int,
                old(self)@[thread as int] + bytes@,
            ) && lines_view(final(global_buffer)@) == lines_view(old(global_buffer)@),
    {
        let ghost old_self = *self;
        let ghost old_bufs = self@;
        let ghost old_lines = lines_view(global_buffer@);
        let ghost c: int = match cut {
            Some(k) => k as int,
            None => -1,
        };
        let ghost piece: Piece = (thread as int, bytes@, c);
        let mut bytes = bytes;
        let ghost msg_bytes = bytes@;
        let t = thread;
        let mut buf = self.thread_buffers.remove(t);
        assert(buf@ == old_bufs[t as int]);
        match cut {
            Some(k) => {
                extend_from_range(&mut buf, bytes.as_slice(), 0, k);
                let mut rest: Vec<u8> = Vec::new();
                extend_from_range(&mut rest, bytes.as_slice(), k, bytes.len());
                self.thread_buffers.insert(t, rest);
                let ghost line = buf@;
                global_buffer.push((t, buf));
                self.received = Ghost(self.received@.push(piece));
                self.delivered = Ghost(self.delivered@.push((t as int, line)));
                proof {
                    assert(rest@ =~= msg_bytes.skip(k as int));
                    assert(line =~= old_bufs[t as int] + msg_bytes.take(k as int));
                    assert(self@ =~= old_bufs.update(t as int, msg_bytes.skip(k as int)));
                    assert(lines_view(global_buffer@) =~= old_lines.push((t, line)));
                    assert(msg_bytes.take(k as int) + msg_bytes.skip(k as int) =~= msg_bytes);
                    assert forall|u: int| 0 <= u < self@.len() implies line_bytes_of(u, self.delivered@)
                        + #[trigger] self@[u] == piece_bytes_of(u, self.received@) by {
                        lemma_line_bytes_concat(u, old_self.delivered@, seq![(t as int, line)]);
                        lemma_line_bytes_single(u, (t as int, line));
                        lemma_piece_bytes_concat(u, old_self.received@, seq![piece]);
                        lemma_piece_bytes_single(u, piece);
                        assert(old_self.delivered@.push((t as int, line)) =~= old_self.delivered@ + seq![(t as int, line)]);
                        assert(old_self.received@.push(piece) =~= old_self.received@ + seq![piece]);
                        let ld = line_bytes_of(u, old_self.delivered@);
                        let pr = piece_bytes_of(u, old_self.received@);
                        assert(ld + old_bufs[u] == pr);
                        if u == t {
                            assert((ld + line) + self@[u] =~= (ld + old_bufs[u]) + (msg_bytes.take(k as int)
                                + msg_bytes.skip(k as int)));
                        } else {
                            assert((ld + Seq::<u8>::empty()) + self@[u] =~= ld + old_bufs[u]);
                            assert(pr + Seq::<u8>::empty() =~= pr);
                        }
                    }
                }
            },
            None => {
                buf.append(&mut bytes);
                self.thread_buffers.insert(t, buf);
                self.received = Ghost(self.received@.push(piece));
                proof {
                    assert(self@ =~= old_bufs.update(t as int, old_bufs[t as int] + msg_bytes));
                    assert forall|u: int| 0 <= u < self@.len() implies line_bytes_of(u, self.delivered@)
                        + #[trigger] self@[u] == piece_bytes_of(u, self.received@) by {
                        lemma_piece_bytes_concat(u, old_self.received@, seq![piece]);
                        lemma_piece_bytes_single(u, piece);
                        assert(old_self.received@.push(piece) =~= old_self.received@ + seq![piece]);
                        let ld = line_bytes_of(u, old_self.delivered@);
                        let pr = piece_bytes_of(u, old_self.received@);
                        assert(ld + old_bufs[u] == pr);
                        if u == t {
                            assert(ld + self@[u] =~= (ld + old_bufs[u]) + msg_bytes);
                        } else {
                            assert(pr + Seq::<u8>::empty() =~= pr);
                        }
                    }
                }
            },
        }
    }
}

/// Between two states of the buffers, every thread's bytes are accounted
/// for: what was pending for `t` before, followed by all that the pieces
/// taken in between carried for `t`, is exactly the lines handed on in
/// between for `t` followed by what is pending for `t` after.
pub proof fn lemma_steps_preserve_bytes(
    before: ThreadBuffers,
    after: ThreadBuffers,
    t: int,
    pieces: Seq<Piece>,
    lines: Seq<(int, Seq<u8>)>,
)
    requires
        before.wf(),
        after.wf(),
        0 <= t < before@.len(),
        after@.len() == before@.len(),
        after.received() == before.received() + pieces,
        after.delivered() == before.delivered() + lines,
    ensures
        line_bytes_of(t, lines) + after@[t] == before@[t] + piece_bytes_of(t, pieces),
{
    lemma_line_bytes_concat(t, before.delivered(), lines);
    lemma_piece_bytes_concat(t, before.received(), pieces);
    let ld = line_bytes_of(t, before.delivered());
    let ln = line_bytes_of(t, lines);
    let pp = piece_bytes_of(t, pieces);
    assert(ld + before@[t] == piece_bytes_of(t, before.received()));
    assert(ld + ln + after@[t] == piece_bytes_of(t, before.received()) + pp);
    assert((ld + ln) + after@[t] =~= ld + (ln + after@[t]));
    assert((ld + before@[t]) + pp =~= ld + (before@[t] + pp));
    assert((ld + (ln + after@[t])).skip(ld.len() as int) =~= ln + after@[t]);
    assert((ld + (before@[t] + pp)).skip(ld.len() as int) =~= before@[t] + pp);
}

/// What a tailing thread reads is what the receiver delivers: when the
/// chunks of `buffer`, all from thread `t`, are taken in after the state
/// `before`, giving the state `after`, the lines handed on for `t` in
/// between followed by what is pending for `t` are exactly what was pending
/// for `t` before followed by `buffer`.
pub proof fn lemma_read_is_delivered(
    before: ThreadBuffers,
    after: ThreadBuffers,
    t: int,
    buffer: Seq<u8>,
    pieces: Seq<Piece>,
    lines: Seq<(int, Seq<u8>)>,
)
    requires
        before.wf(),
        after.wf(),
        0 <= t < before@.len(),
        after@.len() == before@.len(),
        after.received() == before.received() + pieces,
        after.delivered() == before.delivered() + lines,
        pieces.map_values(|p: Piece| p.1) == chunks_of(buffer),
        forall|i: int| 0 <= i < pieces.len() ==> (#[trigger] pieces[i]).0 == t,
    ensures
        line_bytes_of(t, lines) + after@[t] == before@[t] + buffer,
{
    lemma_chunk_pieces_carry_buffer(t, buffer, pieces);
    lemma_steps_preserve_bytes(before, after, t, pieces, lines);
}

/// Copies `buffer` into its chunks of at most `CHUNK` bytes, in order.
pub fn chunk_bytes(buffer: &Vec<u8>) -> (chunks: Vec<Vec<u8>>)
    ensures
        buffers_view(chunks@) == chunks_of(buffer@),
{
    let len = buffer.len();
    let mut chunks: Vec<Vec<u8>> = Vec::new();
    let mut start: usize = 0;
    proof {
        assert(buffer@.skip(0) =~= buffer@);
        assert(buffers_view(chunks@) + chunks_of(buffer@) =~= chunks_of(buffer@));
    }
    while start < len
        invariant
            len == buffer@.len(),
            start <= len,
            buffers_view(chunks@) + chunks_of(buffer@.skip(start as int)) == chunks_of(buffer@),
        decreases len - start,
    {
        let ghost rest = buffer@.skip(start as int);
        let end: usize = if len - start > CHUNK {
            start + CHUNK
        } else {
            len
        };
        let mut bytes: Vec<u8> = Vec::new();
        extend_from_range(&mut bytes, buffer.as_slice(), start, end);
        let ghost old_chunks = chunks@;
        chunks.push(bytes);
        proof {
            assert(buffers_view(chunks@) =~= buffers_view(old_chunks).push(bytes@));
            if rest.len() > CHUNK {
                assert(bytes@ =~= rest.take(CHUNK as int));
                assert(rest.skip(CHUNK as int) =~= buffer@.skip(end as int));
                assert(chunks_of(rest) == seq![rest.take(CHUNK as int)] + chunks_of(rest.skip(CHUNK as int)));
                assert(buffers_view(chunks@) + chunks_of(buffer@.skip(end as int)) =~= buffers_view(old_chunks)
                    + chunks_of(rest));
            } else {
                assert(bytes@ =~= rest);
                assert(buffer@.skip(end as int) =~= Seq::<u8>::empty());
                assert(chunks_of(buffer@.skip(end as int)) =~= Seq::<Seq<u8>>::empty());
                assert(buffers_view(chunks@) + chunks_of(buffer@.skip(end as int)) =~= buffers_view(old_chunks)
                    + chunks_of(rest));
            }
        }
        start = end;
    }
    proof {
        assert(buffer@.skip(len as int) =~= Seq::<u8>::empty());
        assert(buffers_view(chunks@) + chunks_of(buffer@.skip(start as int)) =~= buffers_view(chunks@));
    }
    chunks
}

/// Appends `src[from..to]` to `dst`.
pub fn extend_from_range(dst: &mut Vec<u8>, src: &[u8], from: usize, to: usize)
    requires
        from <= to <= src@.len(),
    ensures
        final(dst)@ == old(dst)@ + src@.subrange(from as int, to as int),
{
    let mut i = from;
    while i < to
        invariant
            from <= i <= to <= src@.len(),
            dst@ == old(dst)@ + src@.subrange(from as int, i as int),
        decreases to - i,
    {
        dst.push(src[i]);
        assert(src@.subrange(from as int, i + 1) =~= src@.subrange(from as int, i as int).push(
            src@[i as int],
        ));
        i = i + 1;
    }
}

} // verus!
