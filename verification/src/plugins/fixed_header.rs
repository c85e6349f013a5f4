//! Fixed header: the first bytes of every payload are control information,
//! the rest is the service data unit.

use crate::corpus::Corpus;
use crate::hypothesis::{Hypothesis, HypothesisView};
use crate::parser::{
    lemma_deep_view_push, sdu_ranges, ParsedCorpus, ParsedPdu, ParsedPduView, Parser,
};
use crate::segment::{seg, KindView, SegmentKind};
use vstd::prelude::*;
use vstd::string::StringExecFns;

verus! {

/// The segments of `data` under a header of `len` bytes: the header and,
/// where bytes are left, the data unit; a failure over the whole payload
/// where it is shorter than the header.
pub open spec fn fixed_header_parsed(data: Seq<u8>, len: nat) -> ParsedPduView {
    let n = data.len() as int;
    if n < len {
        ParsedPduView {
            segments: seq![seg(KindView::Error("PDU too short"@), 0, n)],
            exceptions: Seq::empty(),
        }
    } else if len < n {
        ParsedPduView {
            segments: seq![seg(KindView::Pci, 0, len as int), seg(KindView::Sdu, len as int, n)],
            exceptions: Seq::empty(),
        }
    } else {
        ParsedPduView { segments: seq![seg(KindView::Pci, 0, len as int)], exceptions: Seq::empty() }
    }
}

/// No segment of a fixed-header parse leaves the payload.
pub proof fn lemma_fixed_header_within(data: Seq<u8>, len: nat)
    ensures
        fixed_header_parsed(data, len).within(data.len() as int),
{
}

/// Fixed-header framing gives back what was framed: parsing a header
/// followed by a payload, under the header's length, yields no failure and
/// no diagnostic, and its data unit is the payload at its place, unless the
/// payload is empty.
pub proof fn lemma_fixed_header_roundtrip(header: Seq<u8>, payload: Seq<u8>)
    ensures
        fixed_header_parsed(header + payload, header.len()).is_clean(),
        sdu_ranges(fixed_header_parsed(header + payload, header.len()).segments) == if payload.len()
            > 0 {
            seq![(header.len() as int, (header.len() + payload.len()) as int)]
        } else {
            Seq::<(int, int)>::empty()
        },
        (header + payload).subrange(header.len() as int, (header.len() + payload.len()) as int)
            == payload,
{
    reveal_with_fuel(sdu_ranges, 3);
    let parsed = fixed_header_parsed(header + payload, header.len());
    let n = (header.len() + payload.len()) as int;
    let pci = seg(KindView::Pci, 0, header.len() as int);
    if payload.len() > 0 {
        let sdu = seg(KindView::Sdu, header.len() as int, n);
        assert(parsed.segments =~= seq![pci, sdu]);
        assert(parsed.segments.drop_last() =~= seq![pci]);
        assert(sdu_ranges(parsed.segments) =~= seq![(header.len() as int, n)]);
    } else {
        assert(parsed.segments =~= seq![pci]);
        assert(sdu_ranges(parsed.segments) =~= Seq::<(int, int)>::empty());
    }
    assert((header + payload).subrange(header.len() as int, n) =~= payload);
}

/// Parses one payload under a header of `len` bytes.
pub fn parse_fixed_header(data: &[u8], len: usize) -> (parsed: ParsedPdu)
    ensures
        parsed@ == fixed_header_parsed(data@, len as nat),
        parsed@.within(data@.len() as int),
{
    let mut parsed = ParsedPdu::new(Vec::new());
    if data.len() < len {
        parsed.push_segment(SegmentKind::Error(String::from_str("PDU too short")), 0, data.len());
    } else {
        parsed.push_segment(SegmentKind::Pci, 0, len);
        if len < data.len() {
            parsed.push_segment(SegmentKind::Sdu, len, data.len());
        }
    }
    assert(parsed@ =~= fixed_header_parsed(data@, len as nat));
    parsed
}

/// The parser of the fixed-header family.
pub struct FixedHeaderParser;

impl Parser for FixedHeaderParser {
    open spec fn applies(&self, h: HypothesisView) -> bool {
        h is FixedHeader
    }

    open spec fn parsed(&self, data: Seq<u8>, h: HypothesisView) -> ParsedPduView {
        match h {
            HypothesisView::FixedHeader { len } => fixed_header_parsed(data, len),
            _ => ParsedPduView::empty(),
        }
    }

    fn name(&self) -> (name: &'static str)
        ensures
            name@ == "FixedHeaderParser"@,
    {
        "FixedHeaderParser"
    }

    fn applicable(&self, h: &Hypothesis) -> (yes: bool) {
        match h {
            Hypothesis::FixedHeader { .. } => true,
            _ => false,
        }
    }

    fn parse_corpus(&self, corpus: &Corpus, h: &Hypothesis) -> (parsed: ParsedCorpus) {
        let mut parsed_pdus: Vec<ParsedPdu> = Vec::new();
        if let Hypothesis::FixedHeader { len } = h {
            let mut i: usize = 0;
            while i < corpus.items.len()
                invariant
                    i <= corpus.items@.len(),
                    corpus.wf(),
                    parsed_pdus.deep_view().len() == i,
                    forall|j: int|
                        0 <= j < i ==> {
                            &&& #[trigger] parsed_pdus.deep_view()[j] == fixed_header_parsed(
                                corpus.pdus()[j],
                                *len as nat,
                            )
                            &&& parsed_pdus.deep_view()[j].within(corpus.pdus()[j].len() as int)
                        },
                decreases corpus.items@.len() - i,
            {
                let pdu = parse_fixed_header(corpus.items[i].as_slice(), *len);
                let ghost before = parsed_pdus;
                parsed_pdus.push(pdu);
                proof {
                    lemma_deep_view_push(before, parsed_pdus, pdu);
                }
                i += 1;
            }
        } else {
            assert(parsed_pdus.deep_view() =~= Seq::empty());
        }
        ParsedCorpus::new(parsed_pdus)
    }
}

} // verus!
