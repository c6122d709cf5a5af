# servo_session

A verified library for two pieces of a browser engine's bookkeeping:

- `src/frame.rs`: the session history of a frame (browsing context). The
  history is a sequence of groups of entries, one group per pipeline;
  loading pushes the current group into the past, traversal walks group by
  group to the entry of a given time stamp. Frame-tree iterators walk maps
  of frames and pipelines depth first.
- `src/origin.rs`: origins of URLs (opaque or scheme/host/port), their
  ASCII and Unicode serializations, and shared origins.
- `src/servo_url.rs`: parsed URLs and hosts, taken as plain values from the
  `url` crate.
- `src/ids.rs`, `src/pipeline.rs`: identifiers and the part of a pipeline
  the frame tree reads.

The contracts are proved with Verus. Time stamps are plain `u64` readings
of a monotonic clock, and opaque origins are built from 128 bits drawn at
random; `app/` reads that clock and draws those bits.
