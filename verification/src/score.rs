//! What a score is computed from. A score in bits is a sum over entropies
//! and compressed sizes; the library takes the measurements that go into
//! it and says when a hypothesis is rejected outright, which stands for an
//! infinite score.

use crate::hypothesis::HypothesisView;
use crate::measures::deflated;
use crate::parser::{success_count, ParsedPduView};
use crate::segment::{KindView, SegmentView};
use vstd::prelude::*;

verus! {

/// The three classes of segments whose bytes are measured.
#[derive(Debug, Clone, Copy, PartialEq, Eq, Structural)]
pub enum SegmentClass {
    Pci,
    Field,
    Sdu,
}

/// The class of a segment kind; boundaries and failures have none.
pub open spec fn class_of(kind: KindView) -> Option<SegmentClass> {
    match kind {
        KindView::Pci => Some(SegmentClass::Pci),
        KindView::Field(_) => Some(SegmentClass::Field),
        KindView::Sdu => Some(SegmentClass::Sdu),
        _ => None,
    }
}

/// The bytes of `data` under the segments of `class`, in the segments'
/// order.
pub open spec fn picked_bytes(data: Seq<u8>, segments: Seq<SegmentView>, class: SegmentClass) -> Seq<
    u8,
>
    decreases segments.len(),
{
    if segments.len() == 0 {
        Seq::empty()
    } else {
        picked_bytes(data, segments.drop_last(), class) + if class_of(segments.last().kind) == Some(
            class,
        ) {
            data.subrange(segments.last().start, segments.last().end)
        } else {
            Seq::empty()
        }
    }
}

/// The bytes of all payloads under the segments of `class`, payload after
/// payload.
pub open spec fn corpus_bytes(pdus: Seq<Seq<u8>>, parsed: Seq<ParsedPduView>, class: SegmentClass) -> Seq<
    u8,
>
    recommends
        pdus.len() == parsed.len(),
    decreases pdus.len(),
{
    if pdus.len() == 0 || parsed.len() == 0 {
        Seq::empty()
    } else {
        corpus_bytes(pdus.drop_last(), parsed.drop_last(), class) + picked_bytes(
            pdus.last(),
            parsed.last().segments,
            class,
        )
    }
}

/// The bytes of all payloads, one after the other.
pub open spec fn all_bytes(pdus: Seq<Seq<u8>>) -> Seq<u8>
    decreases pdus.len(),
{
    if pdus.len() == 0 {
        Seq::empty()
    } else {
        all_bytes(pdus.drop_last()) + pdus.last()
    }
}

/// The number of segments of all parsed payloads.
pub open spec fn total_segments(pdus: Seq<ParsedPduView>) -> nat
    decreases pdus.len(),
{
    if pdus.len() == 0 {
        0
    } else {
        total_segments(pdus.drop_last()) + pdus.last().segments.len()
    }
}

/// The number of diagnostics of all parsed payloads.
pub open spec fn total_exceptions(pdus: Seq<ParsedPduView>) -> nat
    decreases pdus.len(),
{
    if pdus.len() == 0 {
        0
    } else {
        total_exceptions(pdus.drop_last()) + pdus.last().exceptions.len()
    }
}

/// The number of segments that cover less than two bytes.
pub open spec fn small_segments(segments: Seq<SegmentView>) -> nat
    decreases segments.len(),
{
    if segments.len() == 0 {
        0
    } else {
        small_segments(segments.drop_last()) + if segments.last().len() < 2 {
            1nat
        } else {
            0nat
        }
    }
}

/// The number of segments of all parsed payloads that cover less than two
/// bytes.
pub open spec fn total_small_segments(pdus: Seq<ParsedPduView>) -> nat
    decreases pdus.len(),
{
    if pdus.len() == 0 {
        0
    } else {
        total_small_segments(pdus.drop_last()) + small_segments(pdus.last().segments)
    }
}

/// The bits that naming a hypothesis costs: `constant`, and where
/// `log2_twice_of` holds a number, twice its binary logarithm on top.
#[derive(Debug, Clone, Copy, PartialEq, Eq)]
pub struct ModelBits {
    pub constant: u128,
    pub log2_twice_of: Option<usize>,
}

/// The cost of naming `h`: 32 bits for a length prefix, 16 and eight per
/// pattern byte for a delimiter, 16 and twice the logarithm of the length
/// for a fixed header, 40 for a bitmap, 24 for TLV and for varint.
pub open spec fn model_bits(h: HypothesisView) -> (int, Option<nat>) {
    match h {
        HypothesisView::LengthPrefixBundle { .. } => (32, None),
        HypothesisView::DelimiterBundle { pattern } => ((16 + 8 * pattern.len()) as int, None),
        HypothesisView::FixedHeader { len } => (16, Some(len)),
        HypothesisView::ExtensibleBitmap { .. } => (40, None),
        HypothesisView::Tlv { .. } => (24, None),
        HypothesisView::VarintKeyWireType { .. } => (24, None),
    }
}

/// What the score of a hypothesis that passed the screens is computed
/// from.
#[derive(Debug)]
pub struct Measurements {
    /// The number of payloads parsed without a failure.
    pub success_count: usize,
    /// The number of parsed payloads.
    pub pdu_count: usize,
    /// The bytes under control-information segments.
    pub pci: Vec<u8>,
    /// The bytes under field segments.
    pub fields: Vec<u8>,
    /// The bytes under data-unit segments.
    pub sdu: Vec<u8>,
    /// The bytes of all payloads.
    pub raw: Vec<u8>,
    /// The size of each buffer's DEFLATE stream.
    pub pci_deflated: Option<usize>,
    pub fields_deflated: Option<usize>,
    pub sdu_deflated: Option<usize>,
    pub raw_deflated: Option<usize>,
    /// The number of payload bytes that the corpus records.
    pub total_bytes: usize,
    /// The number of segments, of diagnostics, and of segments that cover
    /// less than two bytes.
    pub segment_count: u128,
    pub exception_count: u128,
    pub small_segment_count: u128,
    /// The cost of naming the hypothesis.
    pub model: ModelBits,
}

/// The DEFLATE size was measured and is the size of the stream of `data`.
pub open spec fn deflated_size_of(size: Option<usize>, data: Seq<u8>) -> bool {
    size matches Some(n) && n == deflated(data).len()
}

impl Measurements {
    /// The measurements are those of `parsed` over `pdus` under `h`.
    pub open spec fn measures(self, pdus: Seq<Seq<u8>>, parsed: Seq<ParsedPduView>, h: HypothesisView) -> bool {
        &&& self.success_count == success_count(parsed)
        &&& self.pdu_count == parsed.len()
        &&& self.pci@ == corpus_bytes(pdus, parsed, SegmentClass::Pci)
        &&& self.fields@ == corpus_bytes(pdus, parsed, SegmentClass::Field)
        &&& self.sdu@ == corpus_bytes(pdus, parsed, SegmentClass::Sdu)
        &&& self.raw@ == all_bytes(pdus)
        &&& deflated_size_of(self.pci_deflated, self.pci@)
        &&& deflated_size_of(self.fields_deflated, self.fields@)
        &&& deflated_size_of(self.sdu_deflated, self.sdu@)
        &&& deflated_size_of(self.raw_deflated, self.raw@)
        &&& self.segment_count == total_segments(parsed)
        &&& self.exception_count == total_exceptions(parsed)
        &&& self.small_segment_count == total_small_segments(parsed)
        &&& self.model.constant == model_bits(h).0
        &&& match self.model.log2_twice_of {
            Some(n) => model_bits(h).1 == Some(n as nat),
            None => model_bits(h).1 is None,
        }
    }
}

/// What the scorer finds of a parsed corpus.
#[derive(Debug)]
pub enum Assessment {
    /// A diagnostic tells of a read beyond a payload's end: the hypothesis
    /// is rejected.
    Overflow,
    /// Too few payloads were parsed without a failure: the hypothesis is
    /// rejected.
    LowSuccess { success_count: usize, pdu_count: usize },
    /// The hypothesis passed both screens.
    Measured(Measurements),
}

impl Assessment {
    /// The hypothesis is rejected, which stands for an infinite score.
    pub open spec fn is_rejected(self) -> bool {
        !(self is Measured)
    }
}

} // verus!
