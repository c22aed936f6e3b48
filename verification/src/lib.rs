//! Reading, splicing, printing, analysing and capturing NVMe PCI traces.
//!
//! A trace is a stream of records: commands submitted to controllers and
//! commands completed by them. The kernel writes one stream for each processor.
//!
//! - `record`, `encoding`, `stream` and `trace` hold the format of records and
//!   the reading of streams of them; `order`, `splice` and `splice_laws` put
//!   several streams into one.
//! - `print` writes records as text. `commands`, `throughput`, `depth`,
//!   `sampling` and `distribution` work out what was outstanding and when;
//!   `scale` reads the time scales they work on.
//! - `ftrace` and the modules beside it turn events of the kernel's tracer into
//!   records. `relay`, `session` and `names` drive a capture from relay files,
//!   and `repro` looks for stale data in a relay buffer.
//! - `bytes`, `text`, `sorting` and `tables` serve the others.
//!
//! The modules whose names end in `_laws` hold what is proved of the others: where
//! the bytes of a record stand, what printed text reads back as, what the rows of
//! an analysis count, which record splicing takes next, and how the files of the
//! kernel's tracer are read. Nothing in them runs.

pub mod bytes;
pub mod commands;
pub mod commands_laws;
pub mod depth;
pub mod depth_laws;
pub mod distribution;
pub mod distribution_laws;
pub mod encoding;
pub mod error;
pub mod error_laws;
pub mod ftrace;
pub mod ftrace_event;
pub mod ftrace_format;
pub mod ftrace_format_laws;
pub mod ftrace_laws;
pub mod ftrace_page;
pub mod ftrace_page_laws;
pub mod ftrace_setup_laws;
pub mod names;
pub mod names_laws;
pub mod order;
pub mod order_laws;
pub mod picking_laws;
pub mod print;
pub mod print_laws;
pub mod record;
pub mod record_laws;
pub mod relay;
pub mod relay_laws;
pub mod repro;
pub mod repro_laws;
pub mod sample_laws;
pub mod sampling;
pub mod sampling_laws;
pub mod scale;
pub mod scale_laws;
pub mod session;
pub mod session_laws;
pub mod sorting;
pub mod splice;
pub mod splice_laws;
pub mod stream;
pub mod tables;
pub mod text;
pub mod text_laws;
pub mod throughput;
pub mod throughput_laws;
pub mod trace;
pub mod trace_laws;

pub use crate::error::{Result, TraceError};
pub use crate::order::record_order;
pub use crate::record::{
    parse_record_bytes, CompleteRecord, Header, RawRecord, SglDesc, SubmitRecord, SubmitTail,
    TraceRecord, ASSUMED_NVME_CTRL_PAGE_SIZE, COMPLETE_LEN, HEADER_LEN, NVME_TRACE_COMPLETE,
    NVME_TRACE_MAGIC, NVME_TRACE_SUBMIT, NVME_TRACE_VERSION, PRP_ENTRY_LEN, SGL_DESC_LEN,
    SQE_LEN, SUBMIT_FIXED_LEN,
};
pub use crate::splice::{splice_named_streams, splice_streams};
pub use crate::stream::{ByteCursor, ByteSink, ByteSource, RecordReader, TextSink, WarnSink};
