//! Layered structure inference for unknown datagram protocols.
//!
//! A capture's payloads form a [`Corpus`]. Generators propose framing
//! hypotheses, parsers cut every payload into segments under a hypothesis,
//! the scorer gathers what a description-length score is computed from, and
//! the engine ranks the candidates and hands the exposed payloads on to the
//! next depth.

pub mod corpus;
pub mod error;
pub mod flows;
pub mod hypothesis;
pub mod inference;
pub mod measures;
pub mod parser;
pub mod plugin;
pub mod plugins;
pub mod ranking;
pub mod score;
pub mod segment;
pub mod text;

pub use corpus::{Corpus, CorpusMeta, Direction, Flow, PduRef, UdpDatagram};
pub use error::Error;
pub use flows::FlowTable;
pub use hypothesis::{Endianness, Hypothesis, LengthWidth, TlvLenRule};
pub use inference::{Adoption, InferenceEngine};
pub use measures::{
    byte_counts, byte_histogram, compressed_size, samples_at_anchors, samples_by_offset,
};
pub use parser::{ParsedCorpus, ParsedPdu, Parser};
pub use plugin::{HypothesisGenerator, PluginRegistry, Scorer};
pub use score::{Assessment, Measurements, ModelBits};
pub use segment::{Segment, SegmentKind};
