# message-history

Persistence layer for a global, append-only message history, with its rules
verified by [Verus](https://github.com/verus-lang/verus).

The history is one active `history.jsonl` file with a JSON object per line,
plus zero or more immutable rotated segments named `history.<start>.jsonl`,
where `<start>` is the global zero-based index of the segment's first entry.

- `src/` is the verified library. It decides and computes, and opens no file:
  `append`, `rotation` and `lookup` are machines that ask for one action at a
  time and are told what came of it; `lines` and `segments` hold what is read
  out of bytes and file names.
- `src/log.rs` is the mathematical model of the history. `src/directory.rs`
  says which files stand for it, and `src/recording.rs`,
  `src/maintenance.rs` and `src/retrieval.rs` prove what whole runs of the
  machines do to it: that an appended entry is found again under the last
  index, that rotation changes no index, that pruning takes only the oldest
  entries, and that an identifier from before a rotation still names its file.
- `app/` performs the actions on a real file system.
- `tests/` plays the machines against a directory kept in memory.
