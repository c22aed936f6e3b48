# nvme_trace

Reads, splices, prints, analyses and captures traces of NVMe PCI commands. The
library in `src/` is written in Verus and verified; the program around it in
`app/` handles the command line, files, threads and signals.

A trace is a stream of little-endian records. Each starts with a header of 24
bytes that tells its length, its time, a sequence number that increases within
its controller, and the controller, the queue and the command it belongs to. A
submission carries the 64 bytes of its queue entry and the descriptors that
follow it; a completion carries what the controller answered.

## Layout

- `src/record.rs`, `encoding.rs`, `stream.rs`, `trace.rs`: the format of records
  and the reading of streams.
- `src/order.rs`, `splice.rs`, `splice_laws.rs`: several streams put into one.
- `src/print.rs`: records as text.
- `src/commands.rs`, `throughput.rs`, `depth.rs`, `sampling.rs`,
  `distribution.rs`, with `depth_laws.rs` and `sampling_laws.rs`: what was
  outstanding, and when. `src/scale.rs` reads time scales.
- `src/ftrace.rs`, `ftrace_event.rs`, `ftrace_format.rs`, `ftrace_page.rs`: the
  kernel's tracer.
- `src/relay.rs`, `session.rs`, `names.rs`: captures from relay files.
- `src/repro.rs`: the search for stale records in a relay buffer.
- `src/bytes.rs`, `text.rs`, `sorting.rs`, `tables.rs`: what the others rest on.

The contracts speak of the models beside them: sequences of bytes, characters
and records. Public proof functions state what holds of several functions
together, such as that a spliced stream reads back and keeps the order of each
stream, or that the depths of the queues add up.
