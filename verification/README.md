# mtaillib

Tails several files at once and hands on their new contents line by line.

- `src/` is the verified core (Verus): locating line breaks, cutting reads
  into transmission chunks, reassembling the chunks of every file into
  complete lines, and the decisions of the tailing threads.
  - `src/lib.rs`: the first-generation tailer (lines handed on without their
    final line break), where tailing starts, and UTF-8 decoding of results.
  - `src/mtail.rs`: the second-generation tailer (line feeds stay with their
    line; files that are replaced are re-opened).
  - `src/newline.rs`: where line feeds stand in a byte sequence.
  - `src/reassembly.rs`: chunking and the per-thread buffers, whose
    invariant is that no byte is lost, repeated or reordered.
- `app/` holds threads, channels, file access, the `notify` watcher and the
  C interface, which call into the core.
- `tests/` exercises the core on concrete inputs.
