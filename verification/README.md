# byst

Bytes, buffers, readers and writers, with their behaviour stated in contracts
and proved by Verus.

## Layout

- `src/` — the verified library.
  - `buf/` — buffers (`Buf`, `BufMut`), arrays, vectors, ropes, shared
    buffers (`arc_buf`), slabs, chunk iteration and copying between chunk
    sequences, and the writers into vectors and fixed blocks.
  - `bytes.rs` — `Bytes` and `BytesMut`.
  - `copy.rs` — copying between buffers, and from readers into writers.
  - `io/` — readers (`Reader`, `BufReader`, `Cursor`, `Count`, `Limit`) and
    writers (`BufWriter`).
  - `range.rs` — ranges over buffers.
  - `bits.rs`, `derive.rs` — bit fields and the layout rules of the derived
    readers and writers.
  - `util.rs` — comparing buffers, peeking into and mapping chunk iterators.
  - `confix/` — configuration files: a TOML grammar on bytes, file hashes and
    signals.
  - `reactor.rs`, `watch.rs` — the decisions of a connection loop and of a
    file watcher, as step functions from state and event to state and action.
- `app/` — the parts that do I/O and run the loops: file watching, the
  configuration file handle, and the connection loop of the client.
- `tests/` — tests of the library.
