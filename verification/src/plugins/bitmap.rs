//! Extensible bitmap: a run of bytes of which each says by one bit whether
//! another follows, then the service data unit.

use crate::corpus::Corpus;
use crate::hypothesis::{Hypothesis, HypothesisView};
use crate::parser::{
    lemma_deep_view_push, sdu_ranges, ParsedCorpus, ParsedPdu, ParsedPduView, Parser,
};
use crate::segment::{seg, KindView, SegmentKind};
use vstd::prelude::*;
use vstd::string::StringExecFns;

verus! {

/// Bit `k` of `byte`.
pub open spec fn bit_of(byte: u8, k: u8) -> u8 {
    (byte >> k) & 1
}

/// The number of bitmap bytes from `at` on when at most `budget` bytes are
/// read: up to and including the first byte whose bit `cont_bit` equals
/// `stop_value`, or `budget` bytes, or up to the payload's end.
pub open spec fn bitmap_len(data: Seq<u8>, at: int, cont_bit: u8, stop_value: u8, budget: nat) -> nat
    decreases budget,
{
    if budget == 0 || at < 0 || at >= data.len() {
        0
    } else if bit_of(data[at], cont_bit) == stop_value {
        1
    } else {
        1 + bitmap_len(data, at + 1, cont_bit, stop_value, (budget - 1) as nat)
    }
}

/// What parsing a payload yields: the bytes before `start` as control
/// information unless `start` is zero, the bitmap, and the rest as the data
/// unit unless it is empty; a failure over the whole payload where it ends
/// before `start`.
pub open spec fn bitmap_parsed(
    data: Seq<u8>,
    start: nat,
    cont_bit: u8,
    stop_value: u8,
    max_bytes: nat,
) -> ParsedPduView {
    let n = data.len() as int;
    let end = (start + bitmap_len(data, start as int, cont_bit, stop_value, max_bytes)) as int;
    if n < start {
        ParsedPduView {
            segments: seq![seg(KindView::Error("PDU too short for bitmap start"@), 0, n)],
            exceptions: Seq::empty(),
        }
    } else {
        ParsedPduView {
            segments: (if start > 0 {
                seq![seg(KindView::Pci, 0, start as int)]
            } else {
                Seq::empty()
            }) + seq![seg(KindView::Field("bitmap"@), start as int, end)] + (if end < n {
                seq![seg(KindView::Sdu, end, n)]
            } else {
                Seq::empty()
            }),
            exceptions: Seq::empty(),
        }
    }
}

/// A bitmap ends within the payload and has no more bytes than allowed.
pub proof fn lemma_bitmap_len(data: Seq<u8>, at: int, cont_bit: u8, stop_value: u8, budget: nat)
    requires
        0 <= at <= data.len(),
    ensures
        at + bitmap_len(data, at, cont_bit, stop_value, budget) <= data.len(),
        bitmap_len(data, at, cont_bit, stop_value, budget) <= budget,
    decreases budget,
{
    if budget > 0 && at < data.len() && bit_of(data[at], cont_bit) != stop_value {
        lemma_bitmap_len(data, at + 1, cont_bit, stop_value, (budget - 1) as nat);
    }
}

/// No segment of a bitmap parse leaves the payload.
pub proof fn lemma_bitmap_within(
    data: Seq<u8>,
    start: nat,
    cont_bit: u8,
    stop_value: u8,
    max_bytes: nat,
)
    ensures
        bitmap_parsed(data, start, cont_bit, stop_value, max_bytes).within(data.len() as int),
{
    if start <= data.len() {
        lemma_bitmap_len(data, start as int, cont_bit, stop_value, max_bytes);
    }
}

/// The bytes form a bitmap as the hypothesis frames it: at least one byte
/// and no more than `max_bytes`, every byte but the last announcing a
/// successor, and the last one announcing none unless the bitmap is full.
pub open spec fn is_bitmap(bitmap: Seq<u8>, cont_bit: u8, stop_value: u8, max_bytes: nat) -> bool {
    &&& 1 <= bitmap.len() <= max_bytes
    &&& forall|i: int| 0 <= i < bitmap.len() - 1 ==> bit_of(#[trigger] bitmap[i], cont_bit) != stop_value
    &&& bitmap.len() == max_bytes || bit_of(bitmap.last(), cont_bit) == stop_value
}

/// A bitmap that stands at `at` is read in full.
pub proof fn lemma_bitmap_len_of(
    data: Seq<u8>,
    at: int,
    bitmap: Seq<u8>,
    cont_bit: u8,
    stop_value: u8,
    budget: nat,
)
    requires
        0 <= at,
        at + bitmap.len() <= data.len(),
        data.subrange(at, at + bitmap.len()) == bitmap,
        is_bitmap(bitmap, cont_bit, stop_value, budget),
    ensures
        bitmap_len(data, at, cont_bit, stop_value, budget) == bitmap.len(),
    decreases bitmap.len(),
{
    reveal_with_fuel(bitmap_len, 2);
    assert(data[at] == bitmap[0]);
    if bitmap.len() > 1 {
        let rest = bitmap.drop_first();
        assert(data.subrange(at + 1, at + 1 + rest.len()) =~= rest);
        assert forall|i: int| 0 <= i < rest.len() - 1 implies bit_of(
            #[trigger] rest[i],
            cont_bit,
        ) != stop_value by {
            assert(rest[i] == bitmap[i + 1]);
        }
        assert(rest.last() == bitmap.last());
        lemma_bitmap_len_of(data, at + 1, rest, cont_bit, stop_value, (budget - 1) as nat);
    } else {
        assert(bitmap.last() == bitmap[0]);
    }
}

/// Bitmap framing gives back what was framed: parsing `start` bytes of
/// control information, a bitmap and a payload yields no failure and no
/// diagnostic, and its data unit is the payload at its place, unless the
/// payload is empty.
pub proof fn lemma_bitmap_roundtrip(
    prefix: Seq<u8>,
    bitmap: Seq<u8>,
    payload: Seq<u8>,
    cont_bit: u8,
    stop_value: u8,
    max_bytes: nat,
)
    requires
        is_bitmap(bitmap, cont_bit, stop_value, max_bytes),
    ensures
        bitmap_parsed(prefix + bitmap + payload, prefix.len(), cont_bit, stop_value, max_bytes).is_clean(),
        sdu_ranges(
            bitmap_parsed(prefix + bitmap + payload, prefix.len(), cont_bit, stop_value, max_bytes).segments,
        ) == if payload.len() > 0 {
            seq![
                (
                    (prefix.len() + bitmap.len()) as int,
                    (prefix.len() + bitmap.len() + payload.len()) as int,
                ),
            ]
        } else {
            Seq::<(int, int)>::empty()
        },
        (prefix + bitmap + payload).subrange(
            (prefix.len() + bitmap.len()) as int,
            (prefix.len() + bitmap.len() + payload.len()) as int,
        ) == payload,
{
    reveal_with_fuel(sdu_ranges, 4);
    let data = prefix + bitmap + payload;
    let start = prefix.len() as int;
    let end = start + bitmap.len();
    let n = data.len() as int;
    assert(data.subrange(start, end) =~= bitmap);
    lemma_bitmap_len_of(data, start, bitmap, cont_bit, stop_value, max_bytes);
    let parsed = bitmap_parsed(data, prefix.len(), cont_bit, stop_value, max_bytes);
    let pci = seg(KindView::Pci, 0, start);
    let field = seg(KindView::Field("bitmap"@), start, end);
    let sdu = seg(KindView::Sdu, end, n);
    if start > 0 {
        if payload.len() > 0 {
            assert(parsed.segments =~= seq![pci, field, sdu]);
            assert(parsed.segments.drop_last() =~= seq![pci, field]);
            assert(parsed.segments.drop_last().drop_last() =~= seq![pci]);
            assert(sdu_ranges(parsed.segments) =~= seq![(end, n)]);
        } else {
            assert(parsed.segments =~= seq![pci, field]);
            assert(parsed.segments.drop_last() =~= seq![pci]);
            assert(sdu_ranges(parsed.segments) =~= Seq::<(int, int)>::empty());
        }
    } else {
        if payload.len() > 0 {
            assert(parsed.segments =~= seq![field, sdu]);
            assert(parsed.segments.drop_last() =~= seq![field]);
            assert(sdu_ranges(parsed.segments) =~= seq![(end, n)]);
        } else {
            assert(parsed.segments =~= seq![field]);
            assert(sdu_ranges(parsed.segments) =~= Seq::<(int, int)>::empty());
        }
    }
    assert(data.subrange(end, n) =~= payload);
}

/// Counts the bitmap bytes from `start` on.
fn scan_bitmap(data: &[u8], start: usize, cont_bit: u8, stop_value: u8, max_bytes: usize) -> (len:
    usize)
    requires
        start <= data@.len(),
        cont_bit < 8,
    ensures
        len == bitmap_len(data@, start as int, cont_bit, stop_value, max_bytes as nat),
        start + len <= data@.len(),
{
    let n = data.len();
    let mut len: usize = 0;
    while len < max_bytes && len < n - start
        invariant
            n == data@.len(),
            start <= n,
            cont_bit < 8,
            len <= max_bytes,
            start + len <= n,
            bitmap_len(data@, start as int, cont_bit, stop_value, max_bytes as nat) == len
                + bitmap_len(
                data@,
                start + len,
                cont_bit,
                stop_value,
                (max_bytes - len) as nat,
            ),
        decreases max_bytes - len,
    {
        let byte = data[start + len];
        len += 1;
        if (byte >> cont_bit) & 1 == stop_value {
            return len;
        }
    }
    len
}

/// Parses one payload as a bitmap before its data unit.
pub fn parse_bitmap(data: &[u8], start: usize, cont_bit: u8, stop_value: u8, max_bytes: usize) -> (parsed:
    ParsedPdu)
    requires
        cont_bit < 8,
    ensures
        parsed@ == bitmap_parsed(data@, start as nat, cont_bit, stop_value, max_bytes as nat),
        parsed@.within(data@.len() as int),
{
    let n = data.len();
    let mut parsed = ParsedPdu::new(Vec::new());
    if n < start {
        parsed.push_segment(
            SegmentKind::Error(String::from_str("PDU too short for bitmap start")),
            0,
            n,
        );
    } else {
        let end = start + scan_bitmap(data, start, cont_bit, stop_value, max_bytes);
        if start > 0 {
            parsed.push_segment(SegmentKind::Pci, 0, start);
        }
        parsed.push_segment(SegmentKind::Field(String::from_str("bitmap")), start, end);
        if end < n {
            parsed.push_segment(SegmentKind::Sdu, end, n);
        }
    }
    assert(parsed@ =~= bitmap_parsed(data@, start as nat, cont_bit, stop_value, max_bytes as nat));
    proof {
        lemma_bitmap_within(data@, start as nat, cont_bit, stop_value, max_bytes as nat);
    }
    parsed
}

/// The parser of the extensible-bitmap family.
pub struct ExtensibleBitmapParser;

impl Parser for ExtensibleBitmapParser {
    open spec fn applies(&self, h: HypothesisView) -> bool {
        h is ExtensibleBitmap
    }

    open spec fn parsed(&self, data: Seq<u8>, h: HypothesisView) -> ParsedPduView {
        match h {
            HypothesisView::ExtensibleBitmap { start, cont_bit, stop_value, max_bytes } => {
                bitmap_parsed(data, start, cont_bit, stop_value, max_bytes)
            },
            _ => ParsedPduView::empty(),
        }
    }

    fn name(&self) -> (name: &'static str)
        ensures
            name@ == "ExtensibleBitmapParser"@,
    {
        "ExtensibleBitmapParser"
    }

    fn applicable(&self, h: &Hypothesis) -> (yes: bool) {
        match h {
            Hypothesis::ExtensibleBitmap { .. } => true,
            _ => false,
        }
    }

    fn parse_corpus(&self, corpus: &Corpus, h: &Hypothesis) -> (parsed: ParsedCorpus) {
        let mut parsed_pdus: Vec<ParsedPdu> = Vec::new();
        if let Hypothesis::ExtensibleBitmap { start, cont_bit, stop_value, max_bytes } = h {
            let mut i: usize = 0;
            while i < corpus.items.len()
                invariant
                    i <= corpus.items@.len(),
                    corpus.wf(),
                    *cont_bit < 8,
                    parsed_pdus.deep_view().len() == i,
                    forall|j: int|
                        0 <= j < i ==> {
                            &&& #[trigger] parsed_pdus.deep_view()[j] == bitmap_parsed(
                                corpus.pdus()[j],
                                *start as nat,
                                *cont_bit,
                                *stop_value,
                                *max_bytes as nat,
                            )
                            &&& parsed_pdus.deep_view()[j].within(corpus.pdus()[j].len() as int)
                        },
                decreases corpus.items@.len() - i,
            {
                let pdu = parse_bitmap(
                    corpus.items[i].as_slice(),
                    *start,
                    *cont_bit,
                    *stop_value,
                    *max_bytes,
                );
                let ghost before = parsed_pdus;
                parsed_pdus.push(pdu);
                proof {
                    lemma_deep_view_push(before, parsed_pdus, pdu);
                }
                i += 1;
            }
        } else {
            assert(parsed_pdus.deep_view() =~= Seq::empty());
        }
        ParsedCorpus::new(parsed_pdus)
    }
}

} // verus!
