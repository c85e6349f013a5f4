//! The description-length scorer's integer half: the screens that reject a
//! hypothesis outright, and the measurements that its score is computed
//! from.

use crate::corpus::Corpus;
use crate::hypothesis::Hypothesis;
use crate::measures::compressed_size;
use crate::parser::{ParsedCorpus, ParsedPdu, ParsedPduView};
use crate::plugin::Scorer;
use crate::score::{
    all_bytes, class_of, corpus_bytes, deflated_size_of, model_bits, picked_bytes, small_segments,
    total_exceptions, total_segments, total_small_segments, Assessment, Measurements, ModelBits,
    SegmentClass,
};
use crate::segment::SegmentKind;
use crate::text::{occurs_in, str_contains};
use vstd::prelude::*;

verus! {

/// The diagnostic tells of a read beyond the payload's end.
pub open spec fn is_overflow_text(text: Seq<char>) -> bool {
    ||| occurs_in("extends beyond PDU"@, text)
    ||| occurs_in("Length too large for remaining data"@, text)
    ||| occurs_in("Message extends beyond PDU"@, text)
    ||| occurs_in("Bitmap extends beyond PDU"@, text)
    ||| occurs_in("Length-delimited value extends beyond PDU"@, text)
}

/// One of the diagnostics tells of a read beyond the payload's end.
pub open spec fn any_overflow_text(texts: Seq<Seq<char>>) -> bool {
    exists|j: int| 0 <= j < texts.len() && is_overflow_text(#[trigger] texts[j])
}

/// One of the parsed payloads has a diagnostic that tells of a read beyond
/// the payload's end.
pub open spec fn has_overflow(pdus: Seq<ParsedPduView>) -> bool {
    exists|i: int| 0 <= i < pdus.len() && any_overflow_text((#[trigger] pdus[i]).exceptions)
}

/// The share of successes among `total` parses, taken as zero where
/// nothing was parsed, lies below `percent` hundredths.
pub open spec fn below_success_ratio(successes: nat, total: nat, percent: nat) -> bool {
    if total == 0 {
        percent > 0
    } else {
        100 * successes < percent * total
    }
}

/// The cost of naming `h`.
pub fn estimate_model_bits(h: &Hypothesis) -> (bits: ModelBits)
    ensures
        bits.constant == model_bits(h@).0,
        match bits.log2_twice_of {
            Some(n) => model_bits(h@).1 == Some(n as nat),
            None => model_bits(h@).1 is None,
        },
{
    match h {
        Hypothesis::LengthPrefixBundle { .. } => ModelBits { constant: 32, log2_twice_of: None },
        Hypothesis::DelimiterBundle { pattern } => ModelBits {
            constant: 16 + 8 * (pattern.len() as u128),
            log2_twice_of: None,
        },
        Hypothesis::FixedHeader { len } => ModelBits { constant: 16, log2_twice_of: Some(*len) },
        Hypothesis::ExtensibleBitmap { .. } => ModelBits { constant: 40, log2_twice_of: None },
        Hypothesis::Tlv { .. } => ModelBits { constant: 24, log2_twice_of: None },
        Hypothesis::VarintKeyWireType { .. } => ModelBits { constant: 24, log2_twice_of: None },
    }
}

/// Whether the diagnostic tells of a read beyond the payload's end.
pub fn is_overflow_diagnostic(text: &str) -> (yes: bool)
    ensures
        yes == is_overflow_text(text@),
{
    str_contains(text, "extends beyond PDU") || str_contains(
        text,
        "Length too large for remaining data",
    ) || str_contains(text, "Message extends beyond PDU") || str_contains(
        text,
        "Bitmap extends beyond PDU",
    ) || str_contains(text, "Length-delimited value extends beyond PDU")
}

/// Whether one of the parsed payloads has a diagnostic that tells of a read
/// beyond the payload's end.
pub fn has_overflow_diagnostic(parsed: &ParsedCorpus) -> (yes: bool)
    ensures
        yes == has_overflow(parsed@.pdus),
{
    let mut i: usize = 0;
    while i < parsed.parsed_pdus.len()
        invariant
            i <= parsed.parsed_pdus.len(),
            forall|k: int| 0 <= k < i ==> !any_overflow_text((#[trigger] parsed@.pdus[k]).exceptions),
        decreases parsed.parsed_pdus.len() - i,
    {
        let pdu = &parsed.parsed_pdus[i];
        let mut j: usize = 0;
        while j < pdu.exceptions.len()
            invariant
                j <= pdu.exceptions.len(),
                i < parsed.parsed_pdus.len(),
                pdu == &parsed.parsed_pdus[i as int],
                forall|k: int| 0 <= k < j ==> !is_overflow_text(#[trigger] pdu@.exceptions[k]),
            decreases pdu.exceptions.len() - j,
        {
            if is_overflow_diagnostic(pdu.exceptions[j].as_str()) {
                assert(is_overflow_text(pdu@.exceptions[j as int]));
                assert(any_overflow_text(parsed@.pdus[i as int].exceptions));
                return true;
            }
            j += 1;
        }
        assert(pdu@ == parsed@.pdus[i as int]);
        i += 1;
    }
    false
}

/// Whether a segment kind belongs to `class`.
fn in_class(kind: &SegmentKind, class: SegmentClass) -> (yes: bool)
    ensures
        yes == (class_of(kind@) == Some(class)),
{
    match kind {
        SegmentKind::Pci => match class {
            SegmentClass::Pci => true,
            _ => false,
        },
        SegmentKind::Field(_) => match class {
            SegmentClass::Field => true,
            _ => false,
        },
        SegmentKind::Sdu => match class {
            SegmentClass::Sdu => true,
            _ => false,
        },
        _ => false,
    }
}

/// Appends the bytes `[start, end)` of `data` to `out`.
fn append_range(out: &mut Vec<u8>, data: &[u8], start: usize, end: usize)
    requires
        start <= end <= data@.len(),
    ensures
        final(out)@ == old(out)@ + data@.subrange(start as int, end as int),
{
    let ghost before = out@;
    let mut i = start;
    while i < end
        invariant
            start <= i <= end,
            end <= data@.len(),
            out@ == before + data@.subrange(start as int, i as int),
        decreases end - i,
    {
        out.push(data[i]);
        assert(data@.subrange(start as int, i as int).push(data@[i as int]) =~= data@.subrange(
            start as int,
            i + 1,
        ));
        assert(out@ =~= before + data@.subrange(start as int, i + 1));
        i += 1;
    }
}

/// Appends the bytes of `data` under the segments of `class` to `out`.
fn append_picked(out: &mut Vec<u8>, data: &[u8], pdu: &ParsedPdu, class: SegmentClass)
    requires
        pdu@.within(data@.len() as int),
    ensures
        final(out)@ == old(out)@ + picked_bytes(data@, pdu@.segments, class),
{
    let ghost before = out@;
    let mut j: usize = 0;
    assert(pdu@.segments.take(0) =~= Seq::empty());
    while j < pdu.segments.len()
        invariant
            j <= pdu.segments.len(),
            pdu@.within(data@.len() as int),
            out@ == before + picked_bytes(data@, pdu@.segments.take(j as int), class),
        decreases pdu.segments.len() - j,
    {
        let segment = &pdu.segments[j];
        proof {
            assert(pdu@.segments.take(j + 1).drop_last() =~= pdu@.segments.take(j as int));
            assert(pdu@.segments[j as int] == segment@);
            assert(pdu@.segments[j as int].within(data@.len() as int));
        }
        if in_class(&segment.kind, class) {
            append_range(out, data, segment.range.start, segment.range.end);
        }
        assert(out@ =~= before + picked_bytes(data@, pdu@.segments.take(j + 1), class));
        j += 1;
    }
    assert(pdu@.segments.take(j as int) =~= pdu@.segments);
}

/// The bytes of all payloads under the segments of `class`.
pub fn gather_bytes(corpus: &Corpus, parsed: &ParsedCorpus, class: SegmentClass) -> (bytes: Vec<u8>)
    requires
        corpus.wf(),
        parsed@.fits(corpus.pdus()),
    ensures
        bytes@ == corpus_bytes(corpus.pdus(), parsed@.pdus, class),
{
    let mut bytes: Vec<u8> = Vec::new();
    let mut i: usize = 0;
    let ghost pdus = corpus.pdus();
    assert(pdus.take(0) =~= Seq::empty());
    while i < corpus.items.len()
        invariant
            i <= corpus.items@.len(),
            corpus.wf(),
            parsed@.fits(corpus.pdus()),
            pdus == corpus.pdus(),
            bytes@ == corpus_bytes(pdus.take(i as int), parsed@.pdus.take(i as int), class),
        decreases corpus.items@.len() - i,
    {
        proof {
            assert(pdus.take(i + 1).drop_last() =~= pdus.take(i as int));
            assert(parsed@.pdus.take(i + 1).drop_last() =~= parsed@.pdus.take(i as int));
            assert(parsed@.pdus[i as int].within(pdus[i as int].len() as int));
        }
        append_picked(&mut bytes, corpus.items[i].as_slice(), &parsed.parsed_pdus[i], class);
        i += 1;
    }
    assert(pdus.take(i as int) =~= pdus);
    assert(parsed@.pdus.take(i as int) =~= parsed@.pdus);
    bytes
}

/// The bytes of all payloads, one after the other.
pub fn gather_raw(corpus: &Corpus) -> (bytes: Vec<u8>)
    requires
        corpus.wf(),
    ensures
        bytes@ == all_bytes(corpus.pdus()),
{
    let mut bytes: Vec<u8> = Vec::new();
    let mut i: usize = 0;
    let ghost pdus = corpus.pdus();
    assert(pdus.take(0) =~= Seq::empty());
    while i < corpus.items.len()
        invariant
            i <= corpus.items@.len(),
            corpus.wf(),
            pdus == corpus.pdus(),
            bytes@ == all_bytes(pdus.take(i as int)),
        decreases corpus.items@.len() - i,
    {
        proof {
            assert(pdus.take(i + 1).drop_last() =~= pdus.take(i as int));
        }
        let data = corpus.items[i].as_slice();
        append_range(&mut bytes, data, 0, data.len());
        assert(data@.subrange(0, data@.len() as int) =~= data@);
        i += 1;
    }
    assert(pdus.take(i as int) =~= pdus);
    bytes
}

/// Counts the segments, the diagnostics and the segments that cover less
/// than two bytes.
pub fn count_segments(parsed: &ParsedCorpus) -> (counts: (u128, u128, u128))
    requires
        forall|i: int| 0 <= i < parsed@.pdus.len() ==> (#[trigger] parsed@.pdus[i]).ordered(),
    ensures
        counts.0 == total_segments(parsed@.pdus),
        counts.1 == total_exceptions(parsed@.pdus),
        counts.2 == total_small_segments(parsed@.pdus),
{
    let mut segments: u128 = 0;
    let mut exceptions: u128 = 0;
    let mut small: u128 = 0;
    let mut i: usize = 0;
    assert(parsed@.pdus.take(0) =~= Seq::empty());
    while i < parsed.parsed_pdus.len()
        invariant
            i <= parsed.parsed_pdus.len(),
            forall|i: int| 0 <= i < parsed@.pdus.len() ==> (#[trigger] parsed@.pdus[i]).ordered(),
            segments == total_segments(parsed@.pdus.take(i as int)),
            exceptions == total_exceptions(parsed@.pdus.take(i as int)),
            small == total_small_segments(parsed@.pdus.take(i as int)),
            segments <= i * 0xffff_ffff_ffff_ffff,
            exceptions <= i * 0xffff_ffff_ffff_ffff,
            small <= i * 0xffff_ffff_ffff_ffff,
        decreases parsed.parsed_pdus.len() - i,
    {
        let pdu = &parsed.parsed_pdus[i];
        proof {
            assert(parsed@.pdus.take(i + 1).drop_last() =~= parsed@.pdus.take(i as int));
            assert(pdu@ == parsed@.pdus[i as int]);
        }
        let mut here: usize = 0;
        let mut j: usize = 0;
        assert(pdu@.segments.take(0) =~= Seq::empty());
        while j < pdu.segments.len()
            invariant
                j <= pdu.segments.len(),
                here <= j,
                here == small_segments(pdu@.segments.take(j as int)),
                pdu@.ordered(),
            decreases pdu.segments.len() - j,
        {
            proof {
                assert(pdu@.segments.take(j + 1).drop_last() =~= pdu@.segments.take(j as int));
                assert(pdu@.segments[j as int] == pdu.segments[j as int]@);
            }
            if pdu.segments[j].len() < 2 {
                here += 1;
            }
            j += 1;
        }
        assert(pdu@.segments.take(j as int) =~= pdu@.segments);
        segments = segments + pdu.segments.len() as u128;
        exceptions = exceptions + pdu.exceptions.len() as u128;
        small = small + here as u128;
        i += 1;
    }
    assert(parsed@.pdus.take(i as int) =~= parsed@.pdus);
    (segments, exceptions, small)
}

/// The size of the DEFLATE stream of `data`.
pub fn deflated_size(data: &[u8]) -> (size: Option<usize>)
    ensures
        deflated_size_of(size, data@),
{
    measured_size(compressed_size(data))
}

/// The size that a measurement gave, and nothing where it failed.
pub fn measured_size(outcome: Result<usize, crate::error::Error>) -> (size: Option<usize>)
    ensures
        match outcome {
            Ok(n) => size == Some(n),
            Err(_) => size is None,
        },
{
    match outcome {
        Ok(n) => Some(n),
        Err(_) => None,
    }
}

/// The scorer by description length.
#[derive(Debug, Clone, Copy)]
pub struct MdlScorer {
    /// The share of payloads, in hundredths, that must parse without a
    /// failure.
    pub min_parse_success_percent: u64,
}

impl MdlScorer {
    /// A scorer that asks for 95 successes in a hundred.
    pub fn new() -> (scorer: Self)
        ensures
            scorer.min_parse_success_percent == 95,
    {
        MdlScorer { min_parse_success_percent: 95 }
    }

    /// Whether too few payloads were parsed without a failure.
    pub fn below_threshold(&self, successes: usize, total: usize) -> (below: bool)
        ensures
            below == below_success_ratio(
                successes as nat,
                total as nat,
                self.min_parse_success_percent as nat,
            ),
    {
        if total == 0 {
            self.min_parse_success_percent > 0
        } else {
            let left: u128 = 100 * (successes as u128);
            assert(self.min_parse_success_percent * total <= 0xffff_ffff_ffff_ffff
                * 0xffff_ffff_ffff_ffff) by (nonlinear_arith)
                requires
                    self.min_parse_success_percent <= 0xffff_ffff_ffff_ffff,
                    total <= 0xffff_ffff_ffff_ffff,
            ;
            let right: u128 = (self.min_parse_success_percent as u128) * (total as u128);
            left < right
        }
    }

}

/// The scorer by description length screens and measures.
impl Scorer for MdlScorer {
    fn name(&self) -> (name: &'static str)
        ensures
            name@ == "MdlScorer"@,
    {
        "MdlScorer"
    }

    /// Screens and measures a parsed corpus. A diagnostic of a read beyond
    /// a payload's end rejects the hypothesis; so does, after that, a share
    /// of successful parses below the threshold. What passes is measured.
    fn score(&self, corpus: &Corpus, parsed: &ParsedCorpus, h: &Hypothesis) -> (found: Assessment)
        ensures
            found.is_rejected() <==> has_overflow(parsed@.pdus) || below_success_ratio(
                crate::parser::success_count(parsed@.pdus),
                parsed@.pdus.len(),
                self.min_parse_success_percent as nat,
            ),
            has_overflow(parsed@.pdus) ==> found is Overflow,
            !has_overflow(parsed@.pdus) && below_success_ratio(
                crate::parser::success_count(parsed@.pdus),
                parsed@.pdus.len(),
                self.min_parse_success_percent as nat,
            ) ==> found == (Assessment::LowSuccess {
                success_count: crate::parser::success_count(parsed@.pdus) as usize,
                pdu_count: parsed@.pdus.len() as usize,
            }),
            !has_overflow(parsed@.pdus) && !below_success_ratio(
                crate::parser::success_count(parsed@.pdus),
                parsed@.pdus.len(),
                self.min_parse_success_percent as nat,
            ) ==> (found matches Assessment::Measured(m) && m.measures(
                corpus.pdus(),
                parsed@.pdus,
                h@,
            ) && m.total_bytes == corpus.meta.total_bytes),
    {
        if has_overflow_diagnostic(parsed) {
            return Assessment::Overflow;
        }
        let success_count = parsed.success_count();
        let pdu_count = parsed.parsed_pdus.len();
        if self.below_threshold(success_count, pdu_count) {
            return Assessment::LowSuccess { success_count, pdu_count };
        }
        let pci = gather_bytes(corpus, parsed, SegmentClass::Pci);
        let fields = gather_bytes(corpus, parsed, SegmentClass::Field);
        let sdu = gather_bytes(corpus, parsed, SegmentClass::Sdu);
        let raw = gather_raw(corpus);
        let pci_deflated = deflated_size(pci.as_slice());
        let fields_deflated = deflated_size(fields.as_slice());
        let sdu_deflated = deflated_size(sdu.as_slice());
        let raw_deflated = deflated_size(raw.as_slice());
        assert forall|i: int| 0 <= i < parsed@.pdus.len() implies (#[trigger] parsed@.pdus[i]).ordered() by {
            assert(parsed@.pdus[i].within(corpus.pdus()[i].len() as int));
        }
        let counts = count_segments(parsed);
        Assessment::Measured(
            Measurements {
                success_count,
                pdu_count,
                pci,
                fields,
                sdu,
                raw,
                pci_deflated,
                fields_deflated,
                sdu_deflated,
                raw_deflated,
                total_bytes: corpus.total_bytes(),
                segment_count: counts.0,
                exception_count: counts.1,
                small_segment_count: counts.2,
                model: estimate_model_bits(h),
            },
        )
    }
}

impl Default for MdlScorer {
    fn default() -> (scorer: Self)
        ensures
            scorer.min_parse_success_percent == 95,
    {
        MdlScorer::new()
    }
}

} // verus!
