//! Renders DogStatsD metrics and packs them into payloads of bounded length.
//!
//! A [`PayloadWriter`] takes counters, gauges, histograms and distributions, sanitizes their names
//! and labels by Datadog's rules, and gathers the resulting lines into payloads that do not exceed
//! a maximum length. [`Payloads`] hands those payloads out.
//!
//! What a writer does is stated over [`writer::WriterView`]: the settings of the writer and the
//! payloads that it holds. The modules whose names end in `laws` state what holds of every writer,
//! whatever is written to it.

mod buffer;
pub mod format_laws;
pub mod line;
pub mod lowering;
pub mod metric;
pub mod outcome;
pub mod packing;
pub mod payload_laws;
pub mod payloads;
pub mod queue;
pub mod reader_laws;
pub mod sanitize;
pub mod tags;
pub mod text_laws;
pub mod unicode;
pub mod utf8;
pub mod word_laws;
pub mod writer;

pub use line::MAX_METRIC_NAME_LENGTH;
pub use metric::{FloatText, Key, Label, MetricType};
pub use outcome::WriteResult;
pub use payloads::Payloads;
pub use tags::{write_tag, MAX_TAG_LENGTH};
pub use writer::{PayloadWriter, SMALLEST_VALID_PAYLOAD_LEN};
