//! The built-in generators. Each proposes a fixed product of parameter
//! choices for one family; an empty corpus gets no proposal.

use crate::corpus::Corpus;
use crate::hypothesis::{Endianness, Hypothesis, HypothesisView, LengthWidth, TlvLenRule};
use crate::parser::lemma_deep_view_push;
use crate::plugin::HypothesisGenerator;
use vstd::prelude::*;

verus! {

/// The `k`-th of the widths one, two, four.
pub open spec fn width_choice(k: int) -> LengthWidth {
    if k == 0 {
        LengthWidth::One
    } else if k == 1 {
        LengthWidth::Two
    } else {
        LengthWidth::Four
    }
}

/// The `k`-th of the byte orders little, big.
pub open spec fn endian_choice(k: int) -> Endianness {
    if k == 0 {
        Endianness::Little
    } else {
        Endianness::Big
    }
}

/// The `k`-th of the definite length rules short, medium, long.
pub open spec fn rule_choice(k: int) -> TlvLenRule {
    if k == 0 {
        TlvLenRule::DefiniteShort
    } else if k == 1 {
        TlvLenRule::DefiniteMedium
    } else {
        TlvLenRule::DefiniteLong
    }
}

/// The `i`-th length-prefix proposal: the offsets zero to four, each with
/// the three widths, each with the two byte orders, the header never
/// counted in the length.
pub open spec fn length_prefix_choice(i: int) -> HypothesisView {
    HypothesisView::LengthPrefixBundle {
        offset: (i / 6) as nat,
        width: width_choice((i % 6) / 2),
        endian: endian_choice(i % 2),
        includes_header: false,
    }
}

/// The length-prefix proposals.
pub open spec fn length_prefix_proposals(pdus: Seq<Seq<u8>>) -> Seq<HypothesisView> {
    if pdus.len() == 0 {
        Seq::empty()
    } else {
        Seq::new(30, |i: int| length_prefix_choice(i))
    }
}

/// The delimiter proposals: two zero bytes, a line feed, carriage return
/// and line feed, two bytes of 255.
pub open spec fn delimiter_proposals(pdus: Seq<Seq<u8>>) -> Seq<HypothesisView> {
    if pdus.len() == 0 {
        Seq::empty()
    } else {
        seq![
            HypothesisView::DelimiterBundle { pattern: seq![0x00u8, 0x00u8] },
            HypothesisView::DelimiterBundle { pattern: seq![0x0Au8] },
            HypothesisView::DelimiterBundle { pattern: seq![0x0Du8, 0x0Au8] },
            HypothesisView::DelimiterBundle { pattern: seq![0xFFu8, 0xFFu8] },
        ]
    }
}

/// The fixed-header proposals: every length from two up to the length of
/// the first payload, and no more than 32.
pub open spec fn fixed_header_proposals(pdus: Seq<Seq<u8>>) -> Seq<HypothesisView> {
    if pdus.len() == 0 {
        Seq::empty()
    } else {
        let top = if pdus[0].len() < 32 {
            pdus[0].len()
        } else {
            32
        };
        if top < 2 {
            Seq::empty()
        } else {
            Seq::new((top - 1) as nat, |i: int| HypothesisView::FixedHeader { len: (i + 2) as nat })
        }
    }
}

/// The `i`-th bitmap proposal: the starts zero to four, each with the
/// eight continuation bits, each with the two stop values, at most eight
/// bytes of bitmap.
pub open spec fn bitmap_choice(i: int) -> HypothesisView {
    HypothesisView::ExtensibleBitmap {
        start: (i / 16) as nat,
        cont_bit: ((i % 16) / 2) as u8,
        stop_value: (i % 2) as u8,
        max_bytes: 8,
    }
}

/// The bitmap proposals.
pub open spec fn bitmap_proposals(pdus: Seq<Seq<u8>>) -> Seq<HypothesisView> {
    if pdus.len() == 0 {
        Seq::empty()
    } else {
        Seq::new(80, |i: int| bitmap_choice(i))
    }
}

/// The `i`-th TLV proposal: the tag offsets zero to two, each with tags of
/// one to three bytes, each with the length at once behind the tag or one
/// byte later, each with the three definite rules, each with the header
/// left out of the length and counted in it.
pub open spec fn tlv_choice(i: int) -> HypothesisView {
    HypothesisView::Tlv {
        tag_offset: (i / 36) as nat,
        tag_bytes: (1 + (i % 36) / 12) as nat,
        len_offset: (i / 36 + 1 + (i % 36) / 12 + (i % 12) / 6) as nat,
        len_rule: rule_choice((i % 6) / 2),
        length_includes_header: i % 2 == 1,
    }
}

/// The TLV proposals.
pub open spec fn tlv_proposals(pdus: Seq<Seq<u8>>) -> Seq<HypothesisView> {
    if pdus.len() == 0 {
        Seq::empty()
    } else {
        Seq::new(108, |i: int| tlv_choice(i))
    }
}

/// The varint proposals: keys of up to five bytes without and with embedded
/// messages, and keys of up to ten bytes without.
pub open spec fn varint_proposals(pdus: Seq<Seq<u8>>) -> Seq<HypothesisView> {
    if pdus.len() == 0 {
        Seq::empty()
    } else {
        seq![
            HypothesisView::VarintKeyWireType { key_max_bytes: 5, allow_embedded: false },
            HypothesisView::VarintKeyWireType { key_max_bytes: 5, allow_embedded: true },
            HypothesisView::VarintKeyWireType { key_max_bytes: 10, allow_embedded: false },
        ]
    }
}

/// Appends `h` to `list`.
fn propose_one(list: &mut Vec<Hypothesis>, h: Hypothesis)
    ensures
        final(list).deep_view() == old(list).deep_view().push(h@),
{
    let ghost before = *list;
    list.push(h);
    proof {
        lemma_deep_view_push(before, *list, h);
    }
}

/// The generator of the length-prefix family.
pub struct LengthPrefixGenerator;

impl HypothesisGenerator for LengthPrefixGenerator {
    open spec fn proposed(&self, pdus: Seq<Seq<u8>>) -> Seq<HypothesisView> {
        length_prefix_proposals(pdus)
    }

    fn name(&self) -> (name: &'static str)
        ensures
            name@ == "LengthPrefixGenerator"@,
    {
        "LengthPrefixGenerator"
    }

    fn propose(&self, corpus: &Corpus) -> (hypotheses: Vec<Hypothesis>) {
        let mut hypotheses: Vec<Hypothesis> = Vec::new();
        assert(hypotheses.deep_view() =~= Seq::empty());
        if corpus.is_empty() {
            return hypotheses;
        }
        let mut i: usize = 0;
        while i < 30
            invariant
                i <= 30,
                hypotheses.deep_view() == Seq::new(i as nat, |k: int| length_prefix_choice(k)),
            decreases 30 - i,
        {
            let width = if (i % 6) / 2 == 0 {
                LengthWidth::One
            } else if (i % 6) / 2 == 1 {
                LengthWidth::Two
            } else {
                LengthWidth::Four
            };
            let endian = if i % 2 == 0 {
                Endianness::Little
            } else {
                Endianness::Big
            };
            propose_one(
                &mut hypotheses,
                Hypothesis::LengthPrefixBundle { offset: i / 6, width, endian, includes_header: false },
            );
            assert(hypotheses.deep_view() =~= Seq::new(
                (i + 1) as nat,
                |k: int| length_prefix_choice(k),
            ));
            i += 1;
        }
        hypotheses
    }
}

/// The generator of the delimiter family.
pub struct DelimiterGenerator;

impl HypothesisGenerator for DelimiterGenerator {
    open spec fn proposed(&self, pdus: Seq<Seq<u8>>) -> Seq<HypothesisView> {
        delimiter_proposals(pdus)
    }

    fn name(&self) -> (name: &'static str)
        ensures
            name@ == "DelimiterGenerator"@,
    {
        "DelimiterGenerator"
    }

    fn propose(&self, corpus: &Corpus) -> (hypotheses: Vec<Hypothesis>) {
        let mut hypotheses: Vec<Hypothesis> = Vec::new();
        assert(hypotheses.deep_view() =~= Seq::empty());
        if corpus.is_empty() {
            return hypotheses;
        }
        let double_null: Vec<u8> = vec![0x00u8, 0x00u8];
        let line_feed: Vec<u8> = vec![0x0Au8];
        let crlf: Vec<u8> = vec![0x0Du8, 0x0Au8];
        let double_ff: Vec<u8> = vec![0xFFu8, 0xFFu8];
        assert(double_null@ =~= seq![0x00u8, 0x00u8]);
        assert(line_feed@ =~= seq![0x0Au8]);
        assert(crlf@ =~= seq![0x0Du8, 0x0Au8]);
        assert(double_ff@ =~= seq![0xFFu8, 0xFFu8]);
        propose_one(&mut hypotheses, Hypothesis::DelimiterBundle { pattern: double_null });
        propose_one(&mut hypotheses, Hypothesis::DelimiterBundle { pattern: line_feed });
        propose_one(&mut hypotheses, Hypothesis::DelimiterBundle { pattern: crlf });
        propose_one(&mut hypotheses, Hypothesis::DelimiterBundle { pattern: double_ff });
        assert(hypotheses.deep_view() =~= delimiter_proposals(corpus.pdus()));
        hypotheses
    }
}

/// The generator of the fixed-header family.
pub struct FixedHeaderGenerator;

impl HypothesisGenerator for FixedHeaderGenerator {
    open spec fn proposed(&self, pdus: Seq<Seq<u8>>) -> Seq<HypothesisView> {
        fixed_header_proposals(pdus)
    }

    fn name(&self) -> (name: &'static str)
        ensures
            name@ == "FixedHeaderGenerator"@,
    {
        "FixedHeaderGenerator"
    }

    fn propose(&self, corpus: &Corpus) -> (hypotheses: Vec<Hypothesis>) {
        let mut hypotheses: Vec<Hypothesis> = Vec::new();
        assert(hypotheses.deep_view() =~= Seq::empty());
        if corpus.is_empty() {
            return hypotheses;
        }
        let first = corpus.items[0].len();
        assert(first == corpus.pdus()[0].len());
        let top: usize = if first < 32 {
            first
        } else {
            32
        };
        let mut len: usize = 2;
        while len <= top
            invariant
                2 <= len,
                top <= 32,
                top >= 2 ==> len <= top + 1,
                top < 2 ==> len == 2,
                top == if corpus.pdus()[0].len() < 32 {
                    corpus.pdus()[0].len()
                } else {
                    32
                },
                hypotheses.deep_view() == Seq::new(
                    (len - 2) as nat,
                    |i: int| HypothesisView::FixedHeader { len: (i + 2) as nat },
                ),
            decreases top + 1 - len,
        {
            propose_one(&mut hypotheses, Hypothesis::FixedHeader { len });
            assert(hypotheses.deep_view() =~= Seq::new(
                (len - 1) as nat,
                |i: int| HypothesisView::FixedHeader { len: (i + 2) as nat },
            ));
            len += 1;
        }
        assert(hypotheses.deep_view() =~= fixed_header_proposals(corpus.pdus()));
        hypotheses
    }
}

/// The generator of the extensible-bitmap family.
pub struct ExtensibleBitmapGenerator;

impl HypothesisGenerator for ExtensibleBitmapGenerator {
    open spec fn proposed(&self, pdus: Seq<Seq<u8>>) -> Seq<HypothesisView> {
        bitmap_proposals(pdus)
    }

    fn name(&self) -> (name: &'static str)
        ensures
            name@ == "ExtensibleBitmapGenerator"@,
    {
        "ExtensibleBitmapGenerator"
    }

    fn propose(&self, corpus: &Corpus) -> (hypotheses: Vec<Hypothesis>) {
        let mut hypotheses: Vec<Hypothesis> = Vec::new();
        assert(hypotheses.deep_view() =~= Seq::empty());
        if corpus.is_empty() {
            return hypotheses;
        }
        let mut i: usize = 0;
        while i < 80
            invariant
                i <= 80,
                hypotheses.deep_view() == Seq::new(i as nat, |k: int| bitmap_choice(k)),
            decreases 80 - i,
        {
            propose_one(
                &mut hypotheses,
                Hypothesis::ExtensibleBitmap {
                    start: i / 16,
                    cont_bit: ((i % 16) / 2) as u8,
                    stop_value: (i % 2) as u8,
                    max_bytes: 8,
                },
            );
            assert(hypotheses.deep_view() =~= Seq::new((i + 1) as nat, |k: int| bitmap_choice(k)));
            i += 1;
        }
        hypotheses
    }
}

/// The generator of the TLV family.
pub struct TlvGenerator;

impl HypothesisGenerator for TlvGenerator {
    open spec fn proposed(&self, pdus: Seq<Seq<u8>>) -> Seq<HypothesisView> {
        tlv_proposals(pdus)
    }

    fn name(&self) -> (name: &'static str)
        ensures
            name@ == "TlvGenerator"@,
    {
        "TlvGenerator"
    }

    fn propose(&self, corpus: &Corpus) -> (hypotheses: Vec<Hypothesis>) {
        let mut hypotheses: Vec<Hypothesis> = Vec::new();
        assert(hypotheses.deep_view() =~= Seq::empty());
        if corpus.is_empty() {
            return hypotheses;
        }
        let mut i: usize = 0;
        while i < 108
            invariant
                i <= 108,
                hypotheses.deep_view() == Seq::new(i as nat, |k: int| tlv_choice(k)),
            decreases 108 - i,
        {
            let tag_offset = i / 36;
            let tag_bytes = 1 + (i % 36) / 12;
            let len_rule = if (i % 6) / 2 == 0 {
                TlvLenRule::DefiniteShort
            } else if (i % 6) / 2 == 1 {
                TlvLenRule::DefiniteMedium
            } else {
                TlvLenRule::DefiniteLong
            };
            propose_one(
                &mut hypotheses,
                Hypothesis::Tlv {
                    tag_offset,
                    tag_bytes,
                    len_offset: tag_offset + tag_bytes + (i % 12) / 6,
                    len_rule,
                    length_includes_header: i % 2 == 1,
                },
            );
            assert(hypotheses.deep_view() =~= Seq::new((i + 1) as nat, |k: int| tlv_choice(k)));
            i += 1;
        }
        hypotheses
    }
}

/// The generator of the varint family.
pub struct VarintGenerator;

impl HypothesisGenerator for VarintGenerator {
    open spec fn proposed(&self, pdus: Seq<Seq<u8>>) -> Seq<HypothesisView> {
        varint_proposals(pdus)
    }

    fn name(&self) -> (name: &'static str)
        ensures
            name@ == "VarintGenerator"@,
    {
        "VarintGenerator"
    }

    fn propose(&self, corpus: &Corpus) -> (hypotheses: Vec<Hypothesis>) {
        let mut hypotheses: Vec<Hypothesis> = Vec::new();
        assert(hypotheses.deep_view() =~= Seq::empty());
        if corpus.is_empty() {
            return hypotheses;
        }
        propose_one(
            &mut hypotheses,
            Hypothesis::VarintKeyWireType { key_max_bytes: 5, allow_embedded: false },
        );
        propose_one(
            &mut hypotheses,
            Hypothesis::VarintKeyWireType { key_max_bytes: 5, allow_embedded: true },
        );
        propose_one(
            &mut hypotheses,
            Hypothesis::VarintKeyWireType { key_max_bytes: 10, allow_embedded: false },
        );
        assert(hypotheses.deep_view() =~= varint_proposals(corpus.pdus()));
        hypotheses
    }
}

} // verus!
