//! Tag, length, value: records follow one another, each made of a tag, a
//! length under one of four rules, and a value.

use crate::corpus::Corpus;
use crate::hypothesis::{Endianness, Hypothesis, HypothesisView, LengthWidth, TlvLenRule};
use crate::parser::{
    lemma_deep_view_push, lemma_followed_by_clean, lemma_followed_by_within,
    lemma_sdu_ranges_concat, lemma_sdu_ranges_none, lemma_tail_split, sdu_ranges, ParsedCorpus,
    ParsedPdu, ParsedPduView, Parser, Step,
};
use crate::plugins::length_prefix::{
    lemma_length_bytes_value, length_bytes, length_limit, prefix_value, read_prefix,
};
use crate::segment::{seg, KindView, SegmentKind, SegmentView};
use crate::text::{decimal, decimal_string};
use vstd::prelude::*;
use vstd::string::StringExecFns;

verus! {

/// Where the fields of a record stand, counted from the record's start.
pub struct TlvLayout {
    pub tag_offset: nat,
    pub tag_bytes: nat,
    pub len_offset: nat,
    pub len_rule: TlvLenRule,
    pub length_includes_header: bool,
}

impl TlvLayout {
    /// A tag has one to three bytes and the length stands behind it.
    pub open spec fn wf(self) -> bool {
        1 <= self.tag_bytes <= 3 && self.len_offset >= self.tag_offset + self.tag_bytes
    }
}

/// The first place at or after `from` where two zero bytes stand, or the
/// payload's length where there is none.
pub open spec fn first_eoc(data: Seq<u8>, from: int) -> int
    decreases data.len() - from,
{
    if from < 0 || from + 1 >= data.len() {
        data.len() as int
    } else if data[from] == 0 && data[from + 1] == 0 {
        from
    } else {
        first_eoc(data, from + 1)
    }
}

/// The length that the rule reads at `at`, or nothing where the payload
/// ends before the length field does, or holds no end mark.
pub open spec fn tlv_length(data: Seq<u8>, rule: TlvLenRule, at: int) -> Option<nat> {
    let n = data.len() as int;
    match rule {
        TlvLenRule::DefiniteShort => if at + 1 > n {
            None
        } else {
            Some(data[at] as nat)
        },
        TlvLenRule::DefiniteMedium => if at + 2 > n {
            None
        } else {
            Some(prefix_value(data, at, LengthWidth::Two, Endianness::Big))
        },
        TlvLenRule::DefiniteLong => if at + 4 > n {
            None
        } else {
            Some(prefix_value(data, at, LengthWidth::Four, Endianness::Big))
        },
        TlvLenRule::IndefiniteWithEoc => if first_eoc(data, at) + 1 < n {
            Some((first_eoc(data, at) - at) as nat)
        } else {
            None
        },
    }
}

/// The diagnostic for a length that overshoots what is left by more than a
/// thousand bytes.
pub open spec fn invalid_length_text(len: nat, remaining: nat) -> Seq<char> {
    "Length field appears invalid: len="@ + decimal(len) + ", remaining="@ + decimal(remaining)
        + ", stopping TLV parsing"@
}

/// The diagnostic for a length that should include the header and is
/// smaller than it.
pub open spec fn short_length_text(len: nat, header_size: nat) -> Seq<char> {
    "Length too small to include header: len="@ + decimal(len) + ", header_size="@ + decimal(
        header_size,
    )
}

/// The diagnostic for a value that overruns the payload.
pub open spec fn value_overrun_text(value_start: nat, actual_len: nat, data_len: nat) -> Seq<char> {
    "Value extends beyond PDU: value_start="@ + decimal(value_start) + ", actual_len="@ + decimal(
        actual_len,
    ) + ", data_len="@ + decimal(data_len) + ", remaining="@ + decimal(
        (data_len - value_start) as nat,
    )
}

/// The segments up to and including the tag of a record at `pos`.
pub open spec fn tlv_head(layout: TlvLayout, pos: int) -> Seq<SegmentView> {
    let tag_start = pos + layout.tag_offset;
    (if layout.tag_offset > 0 {
        seq![seg(KindView::Pci, pos, tag_start)]
    } else {
        Seq::empty()
    }) + seq![seg(KindView::Field("tag"@), tag_start, tag_start + layout.tag_bytes)]
}

/// The segments between the tag and the value of a record at `pos`: filler
/// where the length does not follow the tag at once, and the length field
/// where the rule has one.
pub open spec fn tlv_mid(layout: TlvLayout, pos: int) -> Seq<SegmentView> {
    let tag_end = pos + layout.tag_offset + layout.tag_bytes;
    let len_start = pos + layout.len_offset;
    (if tag_end < len_start {
        seq![seg(KindView::Pci, tag_end, len_start)]
    } else {
        Seq::empty()
    }) + (if layout.len_rule.field_bytes() > 0 {
        seq![seg(KindView::Field("length"@), len_start, len_start + layout.len_rule.field_bytes())]
    } else {
        Seq::empty()
    })
}

/// What follows the tag of a record at `pos` whose length reads `len`: the
/// fields between tag and value, then the value as a data unit unless it is
/// empty. The record ends the parse, with a diagnostic, where the length
/// overshoots what is left by more than a thousand bytes, where it should
/// include the header and is smaller than it, and where the value overruns
/// the payload.
pub open spec fn tlv_value(data: Seq<u8>, layout: TlvLayout, pos: int, len: nat) -> Step {
    let n = data.len() as int;
    let tag_start = pos + layout.tag_offset;
    let len_start = pos + layout.len_offset;
    let value_start = len_start + layout.len_rule.field_bytes();
    let header_size = value_start - tag_start;
    let actual = if layout.length_includes_header {
        len - header_size
    } else {
        len as int
    };
    if len > n - value_start + 1000 {
        Step::stop(tlv_mid(layout, pos), seq![invalid_length_text(len, (n - value_start) as nat)])
    } else if actual < 0 {
        Step::stop(tlv_mid(layout, pos), seq![short_length_text(len, header_size as nat)])
    } else if value_start + actual > n {
        Step::stop(
            tlv_mid(layout, pos),
            seq![value_overrun_text(value_start as nat, actual as nat, n as nat)],
        )
    } else {
        Step::advance(
            tlv_mid(layout, pos) + (if actual > 0 {
                seq![seg(KindView::Sdu, value_start, value_start + actual)]
            } else {
                Seq::empty()
            }),
            if layout.len_rule is IndefiniteWithEoc {
                len_start + len + 2
            } else {
                value_start + actual
            },
        )
    }
}

/// The record at `pos`. It ends the parse with a failure over the rest
/// where the tag does not fit, and with a diagnostic where no length can
/// be read.
pub open spec fn tlv_step(data: Seq<u8>, layout: TlvLayout, pos: int) -> Step {
    let n = data.len() as int;
    if pos + layout.tag_offset + layout.tag_bytes > n {
        Step::stop(seq![seg(KindView::Error("Incomplete tag"@), pos, n)], seq!["Incomplete tag"@])
    } else {
        match tlv_length(data, layout.len_rule, pos + layout.len_offset) {
            None => Step::stop(
                tlv_head(layout, pos),
                seq![
                    if layout.len_rule is IndefiniteWithEoc {
                        "EOC not found"@
                    } else {
                        "Incomplete length"@
                    },
                ],
            ),
            Some(len) => {
                let value = tlv_value(data, layout, pos, len);
                Step {
                    out: ParsedPduView {
                        segments: tlv_head(layout, pos),
                        exceptions: Seq::empty(),
                    }.followed_by(value.out),
                    next: value.next,
                }
            },
        }
    }
}

/// What parsing yields from `pos` on: record after record, up to the
/// payload's end or the first record that cannot be read.
pub open spec fn tlv_from(data: Seq<u8>, layout: TlvLayout, pos: int) -> ParsedPduView
    decreases data.len() - pos,
{
    if pos < 0 || pos >= data.len() {
        ParsedPduView::empty()
    } else {
        let step = tlv_step(data, layout, pos);
        match step.next {
            Some(next) => if pos < next <= data.len() {
                step.out.followed_by(tlv_from(data, layout, next))
            } else {
                step.out
            },
            None => step.out,
        }
    }
}

/// What parsing a payload yields.
pub open spec fn tlv_parsed(data: Seq<u8>, layout: TlvLayout) -> ParsedPduView {
    tlv_from(data, layout, 0)
}

/// The end mark that is found lies at or after the place where the search
/// began, and two zero bytes stand there.
pub proof fn lemma_first_eoc(data: Seq<u8>, from: int)
    requires
        0 <= from,
    ensures
        from <= first_eoc(data, from) || first_eoc(data, from) == data.len(),
        first_eoc(data, from) + 1 < data.len() ==> data[first_eoc(data, from)] == 0 && data[first_eoc(
            data,
            from,
        ) + 1] == 0,
        forall|i: int|
            from <= i < first_eoc(data, from) && i + 1 < data.len() ==> !(#[trigger] data[i] == 0
                && data[i + 1] == 0),
    decreases data.len() - from,
{
    if from + 1 < data.len() && !(data[from] == 0 && data[from + 1] == 0) {
        lemma_first_eoc(data, from + 1);
    }
}

/// A record that is read moves the parse forward and stays inside the
/// payload, and so do its segments.
pub proof fn lemma_tlv_step(data: Seq<u8>, layout: TlvLayout, pos: int)
    requires
        0 <= pos < data.len(),
        layout.wf(),
    ensures
        tlv_step(data, layout, pos).out.within(data.len() as int),
        tlv_step(data, layout, pos).next matches Some(next) ==> pos < next <= data.len(),
{
    lemma_first_eoc(data, pos + layout.len_offset);
    if pos + layout.tag_offset + layout.tag_bytes <= data.len() {
        match tlv_length(data, layout.len_rule, pos + layout.len_offset) {
            Some(len) => {
                let value = tlv_value(data, layout, pos, len);
                let head = ParsedPduView {
                    segments: tlv_head(layout, pos),
                    exceptions: Seq::empty(),
                };
                assert(value.out.within(data.len() as int));
                assert(head.within(data.len() as int));
                lemma_followed_by_within(head, value.out, data.len() as int);
            },
            None => {},
        }
    }
}

/// No segment of a TLV parse leaves the payload.
pub proof fn lemma_tlv_within(data: Seq<u8>, layout: TlvLayout, pos: int)
    requires
        0 <= pos,
        layout.wf(),
    ensures
        tlv_from(data, layout, pos).within(data.len() as int),
    decreases data.len() - pos,
{
    if pos < data.len() {
        lemma_tlv_step(data, layout, pos);
        match tlv_step(data, layout, pos).next {
            Some(next) => {
                lemma_tlv_within(data, layout, next);
            },
            None => {},
        }
    }
}

/// A record as the TLV framing carries it: the bytes before the tag, the
/// tag, the bytes between tag and length, and the value.
pub struct Record {
    pub prefix: Seq<u8>,
    pub tag: Seq<u8>,
    pub gap: Seq<u8>,
    pub value: Seq<u8>,
}

/// The width of the length field of a definite rule.
pub open spec fn rule_width(rule: TlvLenRule) -> LengthWidth {
    match rule {
        TlvLenRule::DefiniteShort => LengthWidth::One,
        TlvLenRule::DefiniteMedium => LengthWidth::Two,
        _ => LengthWidth::Four,
    }
}

impl TlvLayout {
    /// The number of bytes from the tag's start to the value's start.
    pub open spec fn header_bytes(self) -> int {
        self.len_offset + self.len_rule.field_bytes() - self.tag_offset
    }

    /// The length that is written for a value of `value_len` bytes.
    pub open spec fn spelled_length(self, value_len: nat) -> nat {
        if self.length_includes_header {
            (value_len + self.header_bytes()) as nat
        } else {
            value_len
        }
    }

    /// The record has the layout's shape, and the length of its value can
    /// be written in the length field.
    pub open spec fn shapes(self, record: Record) -> bool {
        &&& record.prefix.len() == self.tag_offset
        &&& record.tag.len() == self.tag_bytes
        &&& record.gap.len() == self.len_offset - self.tag_offset - self.tag_bytes
        &&& self.spelled_length(record.value.len()) < length_limit(rule_width(self.len_rule))
    }

    /// The bytes of one record.
    pub open spec fn record_bytes(self, record: Record) -> Seq<u8> {
        record.prefix + record.tag + record.gap + length_bytes(
            self.spelled_length(record.value.len()),
            rule_width(self.len_rule),
            Endianness::Big,
        ) + record.value
    }

    /// The bytes of a run of records.
    pub open spec fn records_bytes(self, records: Seq<Record>) -> Seq<u8>
        decreases records.len(),
    {
        if records.len() == 0 {
            Seq::empty()
        } else {
            self.record_bytes(records.first()) + self.records_bytes(records.drop_first())
        }
    }

    /// Where the values that are not empty stand in a run of records that
    /// starts at `base`.
    pub open spec fn value_ranges(self, records: Seq<Record>, base: int) -> Seq<(int, int)>
        decreases records.len(),
    {
        if records.len() == 0 {
            Seq::empty()
        } else {
            let start = base + self.len_offset + self.len_rule.field_bytes();
            let end = start + records.first().value.len();
            (if start < end {
                seq![(start, end)]
            } else {
                Seq::empty()
            }) + self.value_ranges(records.drop_first(), end)
        }
    }
}

/// The length field of a record that stands at `pos` reads the length that
/// was written.
proof fn lemma_tlv_length_read(data: Seq<u8>, layout: TlvLayout, pos: int, record: Record)
    requires
        0 <= pos,
        layout.wf(),
        !(layout.len_rule is IndefiniteWithEoc),
        layout.shapes(record),
        pos + layout.record_bytes(record).len() <= data.len(),
        data.subrange(pos, pos + layout.record_bytes(record).len()) == layout.record_bytes(record),
    ensures
        tlv_length(data, layout.len_rule, pos + layout.len_offset) == Some(
            layout.spelled_length(record.value.len()),
        ),
{
    let own = layout.record_bytes(record);
    let width = rule_width(layout.len_rule);
    let written = layout.spelled_length(record.value.len());
    let spelled = length_bytes(written, width, Endianness::Big);
    let len_start = pos + layout.len_offset;
    assert(spelled.len() == width.bytes());
    assert(data.subrange(len_start, len_start + width.bytes()) =~= spelled) by {
        assert forall|j: int| 0 <= j < width.bytes() implies data[len_start + j] == spelled[j] by {
            assert(data.subrange(pos, pos + own.len())[layout.len_offset + j] == data[len_start + j]);
            assert(own[layout.len_offset + j] == spelled[j]);
        }
    }
    lemma_length_bytes_value(data, len_start, written, width, Endianness::Big);
}

/// The data units of one record that is read in full: its value unless it
/// is empty.
proof fn lemma_tlv_record_sdu(data: Seq<u8>, layout: TlvLayout, pos: int, len: nat)
    requires
        0 <= pos < data.len(),
        layout.wf(),
        pos + layout.tag_offset + layout.tag_bytes <= data.len(),
        tlv_length(data, layout.len_rule, pos + layout.len_offset) == Some(len),
        tlv_value(data, layout, pos, len).next is Some,
    ensures
        tlv_step(data, layout, pos).out.is_clean(),
        sdu_ranges(tlv_step(data, layout, pos).out.segments) == sdu_ranges(
            tlv_value(data, layout, pos, len).out.segments,
        ),
        sdu_ranges(tlv_value(data, layout, pos, len).out.segments) == if layout.length_includes_header
            && len - layout.header_bytes() > 0 || !layout.length_includes_header && len > 0 {
            seq![
                (
                    pos + layout.len_offset + layout.len_rule.field_bytes(),
                    pos + layout.len_offset + layout.len_rule.field_bytes() + if layout.length_includes_header {
                        len - layout.header_bytes()
                    } else {
                        len as int
                    },
                ),
            ]
        } else {
            Seq::<(int, int)>::empty()
        },
{
    let head = tlv_head(layout, pos);
    let mid = tlv_mid(layout, pos);
    let value = tlv_value(data, layout, pos, len);
    let value_start = pos + layout.len_offset + layout.len_rule.field_bytes();
    let actual = if layout.length_includes_header {
        len - layout.header_bytes()
    } else {
        len as int
    };
    let body = if actual > 0 {
        seq![seg(KindView::Sdu, value_start, value_start + actual)]
    } else {
        Seq::<SegmentView>::empty()
    };
    assert(value.out.segments == mid + body);
    lemma_sdu_ranges_none(head);
    lemma_sdu_ranges_none(mid);
    lemma_sdu_ranges_concat(mid, body);
    lemma_sdu_ranges_concat(head, value.out.segments);
    assert(sdu_ranges(body) =~= if actual > 0 {
        seq![(value_start, value_start + actual)]
    } else {
        Seq::<(int, int)>::empty()
    }) by {
        reveal_with_fuel(sdu_ranges, 2);
        if actual > 0 {
            assert(body.drop_last() =~= Seq::<SegmentView>::empty());
        }
    }
    assert(sdu_ranges(mid + body) =~= sdu_ranges(body));
    assert(sdu_ranges(head + value.out.segments) =~= sdu_ranges(value.out.segments));
    let out = tlv_step(data, layout, pos).out;
    assert forall|i: int| 0 <= i < out.segments.len() implies !((#[trigger] out.segments[i]).kind
        is Error) by {
        if i < head.len() {
            assert(out.segments[i] == head[i]);
        } else if i < head.len() + mid.len() {
            assert(out.segments[i] == mid[i - head.len()]);
        } else {
            assert(out.segments[i] == body[i - head.len() - mid.len()]);
        }
    }
}

/// A record that stands at `pos` is read in full: the step goes on behind
/// the value, without failure or diagnostic, and its data unit is the
/// value unless it is empty.
proof fn lemma_tlv_step_of(data: Seq<u8>, layout: TlvLayout, pos: int, record: Record)
    requires
        0 <= pos,
        layout.wf(),
        !(layout.len_rule is IndefiniteWithEoc),
        layout.length_includes_header ==> layout.header_bytes() <= 1000,
        layout.shapes(record),
        pos + layout.record_bytes(record).len() <= data.len(),
        data.subrange(pos, pos + layout.record_bytes(record).len()) == layout.record_bytes(record),
    ensures
        layout.record_bytes(record).len() == layout.len_offset + layout.len_rule.field_bytes()
            + record.value.len(),
        tlv_step(data, layout, pos).next == Some(pos + layout.record_bytes(record).len()),
        tlv_step(data, layout, pos).out.is_clean(),
        sdu_ranges(tlv_step(data, layout, pos).out.segments) == if record.value.len() > 0 {
            seq![
                (
                    pos + layout.len_offset + layout.len_rule.field_bytes(),
                    pos + layout.record_bytes(record).len(),
                ),
            ]
        } else {
            Seq::<(int, int)>::empty()
        },
{
    let written = layout.spelled_length(record.value.len());
    assert(length_bytes(written, rule_width(layout.len_rule), Endianness::Big).len()
        == layout.len_rule.field_bytes());
    lemma_tlv_length_read(data, layout, pos, record);
    let value = tlv_value(data, layout, pos, written);
    assert(value.next == Some(pos + layout.record_bytes(record).len()));
    lemma_tlv_record_sdu(data, layout, pos, written);
}

/// TLV framing under a definite length rule gives back what was framed.
/// Take any records of the layout's shape, with a header of no more than a
/// thousand bytes where the length counts it, and let `data` hold them from
/// `pos` on: parsing from `pos` yields no failure and no diagnostic, and
/// its data units are the values that are not empty, each at its place.
pub proof fn lemma_tlv_roundtrip_from(data: Seq<u8>, pos: int, records: Seq<Record>, layout: TlvLayout)
    requires
        0 <= pos <= data.len(),
        layout.wf(),
        !(layout.len_rule is IndefiniteWithEoc),
        layout.length_includes_header ==> layout.header_bytes() <= 1000,
        data.subrange(pos, data.len() as int) == layout.records_bytes(records),
        forall|i: int| 0 <= i < records.len() ==> layout.shapes(#[trigger] records[i]),
    ensures
        tlv_from(data, layout, pos).is_clean(),
        sdu_ranges(tlv_from(data, layout, pos).segments) == layout.value_ranges(records, pos),
    decreases records.len(),
{
    let n = data.len() as int;
    if records.len() == 0 {
        assert(data.subrange(pos, n).len() == 0);
        assert(sdu_ranges(Seq::<SegmentView>::empty()) =~= Seq::empty());
    } else {
        let first = records.first();
        assert(first == records[0]);
        let rest = records.drop_first();
        let own = layout.record_bytes(first);
        lemma_tail_split(data, pos, own, layout.records_bytes(rest));
        lemma_tlv_step_of(data, layout, pos, first);
        let value_end = pos + own.len();
        assert forall|i: int| 0 <= i < rest.len() implies layout.shapes(#[trigger] rest[i]) by {
            assert(rest[i] == records[i + 1]);
        }
        lemma_tlv_roundtrip_from(data, value_end, rest, layout);
        let step = tlv_step(data, layout, pos);
        let after = tlv_from(data, layout, value_end);
        assert(tlv_from(data, layout, pos) == step.out.followed_by(after));
        lemma_followed_by_clean(step.out, after);
        lemma_sdu_ranges_concat(step.out.segments, after.segments);
    }
}

/// TLV framing under a definite length rule gives back what was framed:
/// parsing any run of records of the layout's shape, with a header of no
/// more than a thousand bytes where the length counts it, yields no failure
/// and no diagnostic, and its data units are the values that are not
/// empty, each at its place.
pub proof fn lemma_tlv_roundtrip(records: Seq<Record>, layout: TlvLayout)
    requires
        layout.wf(),
        !(layout.len_rule is IndefiniteWithEoc),
        layout.length_includes_header ==> layout.header_bytes() <= 1000,
        forall|i: int| 0 <= i < records.len() ==> layout.shapes(#[trigger] records[i]),
    ensures
        tlv_parsed(layout.records_bytes(records), layout).is_clean(),
        sdu_ranges(tlv_parsed(layout.records_bytes(records), layout).segments) == layout.value_ranges(
            records,
            0,
        ),
{
    let data = layout.records_bytes(records);
    assert(data.subrange(0, data.len() as int) =~= data);
    lemma_tlv_roundtrip_from(data, 0, records, layout);
}

/// Two zero bytes at `at`, with none between the start of the search and
/// it, are the end mark that is found.
pub proof fn lemma_first_eoc_is(data: Seq<u8>, from: int, at: int)
    requires
        0 <= from <= at,
        at + 1 < data.len(),
        data[at] == 0 && data[at + 1] == 0,
        forall|i: int| from <= i < at ==> !(#[trigger] data[i] == 0 && data[i + 1] == 0),
    ensures
        first_eoc(data, from) == at,
    decreases at - from,
{
    if from < at {
        lemma_first_eoc_is(data, from + 1, at);
    }
}

/// A value followed by the end mark of two zero bytes.
pub open spec fn end_marked(value: Seq<u8>) -> Seq<u8> {
    value + seq![0u8, 0u8]
}

impl TlvLayout {
    /// The record has the layout's shape, and its value neither holds two
    /// zero bytes in a row nor ends in one.
    pub open spec fn shapes_unbounded(self, record: Record) -> bool {
        &&& record.prefix.len() == self.tag_offset
        &&& record.tag.len() == self.tag_bytes
        &&& record.gap.len() == self.len_offset - self.tag_offset - self.tag_bytes
        &&& forall|q: int|
            0 <= q < record.value.len() ==> !(#[trigger] end_marked(record.value)[q] == 0
                && end_marked(record.value)[q + 1] == 0)
    }

    /// The bytes of one record under the indefinite rule: the value runs
    /// up to two zero bytes.
    pub open spec fn unbounded_bytes(self, record: Record) -> Seq<u8> {
        record.prefix + record.tag + record.gap + end_marked(record.value)
    }

    /// The bytes of a run of records under the indefinite rule.
    pub open spec fn unbounded_run(self, records: Seq<Record>) -> Seq<u8>
        decreases records.len(),
    {
        if records.len() == 0 {
            Seq::empty()
        } else {
            self.unbounded_bytes(records.first()) + self.unbounded_run(records.drop_first())
        }
    }

    /// Where the values that are not empty stand in a run of records under
    /// the indefinite rule that starts at `base`.
    pub open spec fn unbounded_ranges(self, records: Seq<Record>, base: int) -> Seq<(int, int)>
        decreases records.len(),
    {
        if records.len() == 0 {
            Seq::empty()
        } else {
            let start = base + self.len_offset;
            let end = start + records.first().value.len();
            (if start < end {
                seq![(start, end)]
            } else {
                Seq::empty()
            }) + self.unbounded_ranges(records.drop_first(), end + 2)
        }
    }
}

/// A record under the indefinite rule that stands at `pos` is read in
/// full: the step goes on behind the end mark, without failure or
/// diagnostic, and its data unit is the value unless it is empty.
proof fn lemma_tlv_unbounded_step_of(data: Seq<u8>, layout: TlvLayout, pos: int, record: Record)
    requires
        0 <= pos,
        layout.wf(),
        layout.len_rule is IndefiniteWithEoc,
        !layout.length_includes_header,
        layout.shapes_unbounded(record),
        pos + layout.unbounded_bytes(record).len() <= data.len(),
        data.subrange(pos, pos + layout.unbounded_bytes(record).len()) == layout.unbounded_bytes(
            record,
        ),
    ensures
        layout.unbounded_bytes(record).len() == layout.len_offset + record.value.len() + 2,
        tlv_step(data, layout, pos).next == Some(pos + layout.unbounded_bytes(record).len()),
        tlv_step(data, layout, pos).out.is_clean(),
        sdu_ranges(tlv_step(data, layout, pos).out.segments) == if record.value.len() > 0 {
            seq![(pos + layout.len_offset, pos + layout.len_offset + record.value.len())]
        } else {
            Seq::<(int, int)>::empty()
        },
{
    let own = layout.unbounded_bytes(record);
    let here = data.subrange(pos, pos + own.len());
    let marked = end_marked(record.value);
    let len_start = pos + layout.len_offset;
    let mark = len_start + record.value.len();
    assert forall|j: int| 0 <= j < marked.len() implies data[len_start + j] == marked[j] by {
        assert(here[layout.len_offset + j] == data[len_start + j]);
        assert(own[layout.len_offset + j] == marked[j]);
    }
    assert(data[mark] == 0 && data[mark + 1] == 0) by {
        assert(data[len_start + record.value.len()] == marked[record.value.len() as int]);
        assert(data[len_start + (record.value.len() + 1)] == marked[(record.value.len() + 1) as int]);
    }
    assert forall|i: int| len_start <= i < mark implies !(#[trigger] data[i] == 0 && data[i + 1]
        == 0) by {
        let q = i - len_start;
        assert(data[len_start + q] == marked[q]);
        assert(data[len_start + (q + 1)] == marked[q + 1]);
    }
    lemma_first_eoc_is(data, len_start, mark);
    assert(tlv_length(data, layout.len_rule, len_start) == Some(record.value.len()));
    let value = tlv_value(data, layout, pos, record.value.len());
    assert(value.next == Some(mark + 2));
    lemma_tlv_record_sdu(data, layout, pos, record.value.len());
}

/// TLV framing under the indefinite rule gives back what was framed. Take
/// any records of the layout's shape whose values neither hold two zero
/// bytes in a row nor end in one, with the header left out of the length,
/// and let `data` hold them from `pos` on: parsing from `pos` yields no
/// failure and no diagnostic, and its data units are the values that are
/// not empty, each at its place.
pub proof fn lemma_tlv_unbounded_roundtrip_from(
    data: Seq<u8>,
    pos: int,
    records: Seq<Record>,
    layout: TlvLayout,
)
    requires
        0 <= pos <= data.len(),
        layout.wf(),
        layout.len_rule is IndefiniteWithEoc,
        !layout.length_includes_header,
        data.subrange(pos, data.len() as int) == layout.unbounded_run(records),
        forall|i: int| 0 <= i < records.len() ==> layout.shapes_unbounded(#[trigger] records[i]),
    ensures
        tlv_from(data, layout, pos).is_clean(),
        sdu_ranges(tlv_from(data, layout, pos).segments) == layout.unbounded_ranges(records, pos),
    decreases records.len(),
{
    let n = data.len() as int;
    if records.len() == 0 {
        assert(data.subrange(pos, n).len() == 0);
        assert(sdu_ranges(Seq::<SegmentView>::empty()) =~= Seq::empty());
    } else {
        let first = records.first();
        assert(first == records[0]);
        let rest = records.drop_first();
        let own = layout.unbounded_bytes(first);
        lemma_tail_split(data, pos, own, layout.unbounded_run(rest));
        lemma_tlv_unbounded_step_of(data, layout, pos, first);
        let next = pos + own.len();
        assert forall|i: int| 0 <= i < rest.len() implies layout.shapes_unbounded(
            #[trigger] rest[i],
        ) by {
            assert(rest[i] == records[i + 1]);
        }
        lemma_tlv_unbounded_roundtrip_from(data, next, rest, layout);
        let step = tlv_step(data, layout, pos);
        let after = tlv_from(data, layout, next);
        assert(tlv_from(data, layout, pos) == step.out.followed_by(after));
        lemma_followed_by_clean(step.out, after);
        lemma_sdu_ranges_concat(step.out.segments, after.segments);
    }
}

/// TLV framing under the indefinite rule gives back what was framed:
/// parsing any run of records of the layout's shape whose values neither
/// hold two zero bytes in a row nor end in one, with the header left out of
/// the length, yields no failure and no diagnostic, and its data units are
/// the values that are not empty, each at its place.
pub proof fn lemma_tlv_unbounded_roundtrip(records: Seq<Record>, layout: TlvLayout)
    requires
        layout.wf(),
        layout.len_rule is IndefiniteWithEoc,
        !layout.length_includes_header,
        forall|i: int| 0 <= i < records.len() ==> layout.shapes_unbounded(#[trigger] records[i]),
    ensures
        tlv_parsed(layout.unbounded_run(records), layout).is_clean(),
        sdu_ranges(tlv_parsed(layout.unbounded_run(records), layout).segments)
            == layout.unbounded_ranges(records, 0),
{
    let data = layout.unbounded_run(records);
    assert(data.subrange(0, data.len() as int) =~= data);
    lemma_tlv_unbounded_roundtrip_from(data, 0, records, layout);
}

/// Finds the first two zero bytes at or after `from`.
fn find_eoc(data: &[u8], from: usize) -> (at: usize)
    ensures
        at == first_eoc(data@, from as int),
{
    let n = data.len();
    let mut at = from;
    while at < n && n - at > 1
        invariant
            n == data@.len(),
            from <= at,
            first_eoc(data@, from as int) == first_eoc(data@, at as int),
        decreases n - at,
    {
        if data[at] == 0 && data[at + 1] == 0 {
            return at;
        }
        at += 1;
    }
    n
}

/// Reads the length of a record under `rule` at `at`.
fn read_tlv_length(data: &[u8], rule: TlvLenRule, at: usize) -> (len: Option<usize>)
    requires
        at <= data@.len(),
    ensures
        len matches Some(l) ==> tlv_length(data@, rule, at as int) == Some(l as nat),
        len is None ==> tlv_length(data@, rule, at as int) is None,
{
    let n = data.len();
    match rule {
        TlvLenRule::DefiniteShort => if n - at < 1 {
            None
        } else {
            Some(data[at] as usize)
        },
        TlvLenRule::DefiniteMedium => if n - at < 2 {
            None
        } else {
            Some(read_prefix(data, at, LengthWidth::Two, Endianness::Big) as usize)
        },
        TlvLenRule::DefiniteLong => if n - at < 4 {
            None
        } else {
            Some(read_prefix(data, at, LengthWidth::Four, Endianness::Big) as usize)
        },
        TlvLenRule::IndefiniteWithEoc => {
            let eoc = find_eoc(data, at);
            proof {
                lemma_first_eoc(data@, at as int);
            }
            if eoc < n && n - eoc > 1 {
                Some(eoc - at)
            } else {
                None
            }
        },
    }
}

/// `text` followed by the decimal numeral of `n`.
fn with_number(text: String, n: usize) -> (out: String)
    ensures
        out@ == text@ + decimal(n as nat),
{
    let mut out = text;
    let digits = decimal_string(n);
    out.append(digits.as_str());
    out
}

/// `text` followed by `more`.
fn with_text(text: String, more: &str) -> (out: String)
    ensures
        out@ == text@ + more@,
{
    let mut out = text;
    out.append(more);
    out
}

/// Reads what follows the tag of the record at `pos`, whose length reads
/// `len`, into `parsed`; returns where the next record starts, or nothing
/// where the parse ends.
fn read_tlv_value(
    data: &[u8],
    tag_offset: usize,
    tag_bytes: usize,
    len_offset: usize,
    len_rule: TlvLenRule,
    length_includes_header: bool,
    pos: usize,
    len: usize,
    parsed: &mut ParsedPdu,
) -> (next: Option<usize>)
    requires
        pos + tag_offset + tag_bytes <= data@.len(),
        1 <= tag_bytes <= 3,
        len_offset >= tag_offset + tag_bytes,
        tlv_length(data@, len_rule, pos + len_offset) == Some(len as nat),
    ensures
        final(parsed)@ == old(parsed)@.followed_by(
            tlv_value(
                data@,
                TlvLayout {
                    tag_offset: tag_offset as nat,
                    tag_bytes: tag_bytes as nat,
                    len_offset: len_offset as nat,
                    len_rule,
                    length_includes_header,
                },
                pos as int,
                len as nat,
            ).out,
        ),
        next matches Some(p) ==> tlv_value(
            data@,
            TlvLayout {
                tag_offset: tag_offset as nat,
                tag_bytes: tag_bytes as nat,
                len_offset: len_offset as nat,
                len_rule,
                length_includes_header,
            },
            pos as int,
            len as nat,
        ).next == Some(p as int),
        next is None ==> tlv_value(
            data@,
            TlvLayout {
                tag_offset: tag_offset as nat,
                tag_bytes: tag_bytes as nat,
                len_offset: len_offset as nat,
                len_rule,
                length_includes_header,
            },
            pos as int,
            len as nat,
        ).next is None,
{
    let n = data.len();
    let ghost layout = TlvLayout {
        tag_offset: tag_offset as nat,
        tag_bytes: tag_bytes as nat,
        len_offset: len_offset as nat,
        len_rule,
        length_includes_header,
    };
    let ghost before = parsed@;
    let ghost step = tlv_value(data@, layout, pos as int, len as nat);
    proof {
        lemma_first_eoc(data@, pos + len_offset);
    }
    let tag_start = pos + tag_offset;
    let tag_end = tag_start + tag_bytes;
    let len_start = pos + len_offset;
    let size = len_rule.field_size();
    let value_start = len_start + size;
    if tag_end < len_start {
        parsed.push_segment(SegmentKind::Pci, tag_end, len_start);
    }
    if size > 0 {
        parsed.push_segment(SegmentKind::Field(String::from_str("length")), len_start, value_start);
    }
    let ghost mid = ParsedPduView { segments: tlv_mid(layout, pos as int), exceptions: Seq::empty() };
    assert(parsed@ =~= before.followed_by(mid));
    let remaining = n - value_start;
    if len > remaining && len - remaining > 1000 {
        let msg = String::from_str("Length field appears invalid: len=");
        let msg = with_number(msg, len);
        let msg = with_text(msg, ", remaining=");
        let msg = with_number(msg, remaining);
        let msg = with_text(msg, ", stopping TLV parsing");
        parsed.push_exception(msg);
        assert(parsed@ =~= before.followed_by(step.out));
        return None;
    }
    let header_size = value_start - tag_start;
    if length_includes_header && len < header_size {
        let msg = String::from_str("Length too small to include header: len=");
        let msg = with_number(msg, len);
        let msg = with_text(msg, ", header_size=");
        let msg = with_number(msg, header_size);
        parsed.push_exception(msg);
        assert(parsed@ =~= before.followed_by(step.out));
        return None;
    }
    let actual = if length_includes_header {
        len - header_size
    } else {
        len
    };
    if actual > remaining {
        let msg = String::from_str("Value extends beyond PDU: value_start=");
        let msg = with_number(msg, value_start);
        let msg = with_text(msg, ", actual_len=");
        let msg = with_number(msg, actual);
        let msg = with_text(msg, ", data_len=");
        let msg = with_number(msg, n);
        let msg = with_text(msg, ", remaining=");
        let msg = with_number(msg, remaining);
        parsed.push_exception(msg);
        assert(parsed@ =~= before.followed_by(step.out));
        return None;
    }
    let value_end = value_start + actual;
    if actual > 0 {
        parsed.push_segment(SegmentKind::Sdu, value_start, value_end);
    }
    assert(parsed@ =~= before.followed_by(step.out));
    match len_rule {
        TlvLenRule::IndefiniteWithEoc => Some(len_start + len + 2),
        _ => Some(value_end),
    }
}

/// Reads the record at `pos` into `parsed`; returns where the next record
/// starts, or nothing where the parse ends.
fn read_tlv_record(
    data: &[u8],
    tag_offset: usize,
    tag_bytes: usize,
    len_offset: usize,
    len_rule: TlvLenRule,
    length_includes_header: bool,
    pos: usize,
    parsed: &mut ParsedPdu,
) -> (next: Option<usize>)
    requires
        pos < data@.len(),
        1 <= tag_bytes <= 3,
        len_offset >= tag_offset + tag_bytes,
    ensures
        final(parsed)@ == old(parsed)@.followed_by(
            tlv_step(
                data@,
                TlvLayout {
                    tag_offset: tag_offset as nat,
                    tag_bytes: tag_bytes as nat,
                    len_offset: len_offset as nat,
                    len_rule,
                    length_includes_header,
                },
                pos as int,
            ).out,
        ),
        next matches Some(p) ==> tlv_step(
            data@,
            TlvLayout {
                tag_offset: tag_offset as nat,
                tag_bytes: tag_bytes as nat,
                len_offset: len_offset as nat,
                len_rule,
                length_includes_header,
            },
            pos as int,
        ).next == Some(p as int),
        next is None ==> tlv_step(
            data@,
            TlvLayout {
                tag_offset: tag_offset as nat,
                tag_bytes: tag_bytes as nat,
                len_offset: len_offset as nat,
                len_rule,
                length_includes_header,
            },
            pos as int,
        ).next is None,
{
    let n = data.len();
    let ghost layout = TlvLayout {
        tag_offset: tag_offset as nat,
        tag_bytes: tag_bytes as nat,
        len_offset: len_offset as nat,
        len_rule,
        length_includes_header,
    };
    let ghost before = parsed@;
    let ghost step = tlv_step(data@, layout, pos as int);
    if tag_offset > n - pos || tag_bytes > n - pos - tag_offset {
        parsed.push_exception(String::from_str("Incomplete tag"));
        parsed.push_segment(SegmentKind::Error(String::from_str("Incomplete tag")), pos, n);
        assert(parsed@ =~= before.followed_by(step.out));
        return None;
    }
    let tag_start = pos + tag_offset;
    if tag_offset > 0 {
        parsed.push_segment(SegmentKind::Pci, pos, tag_start);
    }
    parsed.push_segment(SegmentKind::Field(String::from_str("tag")), tag_start, tag_start + tag_bytes);
    let ghost head = ParsedPduView { segments: tlv_head(layout, pos as int), exceptions: Seq::empty() };
    assert(parsed@ =~= before.followed_by(head));
    let length = if len_offset > n - pos {
        None
    } else {
        read_tlv_length(data, len_rule, pos + len_offset)
    };
    proof {
        if len_offset > n - pos {
            assert(first_eoc(data@, pos + len_offset) == n);
        }
    }
    match length {
        None => {
            match len_rule {
                TlvLenRule::IndefiniteWithEoc => {
                    parsed.push_exception(String::from_str("EOC not found"));
                },
                _ => {
                    parsed.push_exception(String::from_str("Incomplete length"));
                },
            }
            assert(parsed@ =~= before.followed_by(step.out));
            None
        },
        Some(len) => {
            let ghost value = tlv_value(data@, layout, pos as int, len as nat);
            let next = read_tlv_value(
                data,
                tag_offset,
                tag_bytes,
                len_offset,
                len_rule,
                length_includes_header,
                pos,
                len,
                parsed,
            );
            assert(parsed@ =~= before.followed_by(head.followed_by(value.out)));
            next
        },
    }
}

/// Parses one payload as a run of TLV records.
pub fn parse_tlv(
    data: &[u8],
    tag_offset: usize,
    tag_bytes: usize,
    len_offset: usize,
    len_rule: TlvLenRule,
    length_includes_header: bool,
) -> (parsed: ParsedPdu)
    requires
        1 <= tag_bytes <= 3,
        len_offset >= tag_offset + tag_bytes,
    ensures
        parsed@ == tlv_parsed(
            data@,
            TlvLayout {
                tag_offset: tag_offset as nat,
                tag_bytes: tag_bytes as nat,
                len_offset: len_offset as nat,
                len_rule,
                length_includes_header,
            },
        ),
        parsed@.within(data@.len() as int),
{
    let n = data.len();
    let ghost layout = TlvLayout {
        tag_offset: tag_offset as nat,
        tag_bytes: tag_bytes as nat,
        len_offset: len_offset as nat,
        len_rule,
        length_includes_header,
    };
    let ghost whole = tlv_parsed(data@, layout);
    let mut parsed = ParsedPdu::new(Vec::new());
    let mut pos: usize = 0;
    let mut done = false;
    assert(whole =~= parsed@.followed_by(whole));
    while pos < n && !done
        invariant
            pos <= n,
            n == data@.len(),
            1 <= tag_bytes <= 3,
            len_offset >= tag_offset + tag_bytes,
            layout == (TlvLayout {
                tag_offset: tag_offset as nat,
                tag_bytes: tag_bytes as nat,
                len_offset: len_offset as nat,
                len_rule,
                length_includes_header,
            }),
            whole == parsed@.followed_by(
                if done {
                    ParsedPduView::empty()
                } else {
                    tlv_from(data@, layout, pos as int)
                },
            ),
        decreases
            n - pos + if done {
                0int
            } else {
                1int
            },
    {
        proof {
            lemma_tlv_step(data@, layout, pos as int);
        }
        let next = read_tlv_record(
            data,
            tag_offset,
            tag_bytes,
            len_offset,
            len_rule,
            length_includes_header,
            pos,
            &mut parsed,
        );
        match next {
            Some(p) => {
                assert(whole =~= parsed@.followed_by(tlv_from(data@, layout, p as int)));
                pos = p;
            },
            None => {
                done = true;
                assert(whole =~= parsed@.followed_by(ParsedPduView::empty()));
            },
        }
    }
    assert(whole =~= parsed@);
    proof {
        lemma_tlv_within(data@, layout, 0);
    }
    parsed
}

/// The layout that a TLV hypothesis describes.
pub open spec fn tlv_layout(h: HypothesisView) -> TlvLayout
    recommends
        h is Tlv,
{
    TlvLayout {
        tag_offset: h->tag_offset,
        tag_bytes: h->tag_bytes,
        len_offset: h->len_offset,
        len_rule: h->len_rule,
        length_includes_header: h->length_includes_header,
    }
}

/// The parser of the TLV family.
pub struct TlvParser;

impl Parser for TlvParser {
    open spec fn applies(&self, h: HypothesisView) -> bool {
        h is Tlv
    }

    open spec fn parsed(&self, data: Seq<u8>, h: HypothesisView) -> ParsedPduView {
        if h is Tlv {
            tlv_parsed(data, tlv_layout(h))
        } else {
            ParsedPduView::empty()
        }
    }

    fn name(&self) -> (name: &'static str)
        ensures
            name@ == "TlvParser"@,
    {
        "TlvParser"
    }

    fn applicable(&self, h: &Hypothesis) -> (yes: bool) {
        match h {
            Hypothesis::Tlv { .. } => true,
            _ => false,
        }
    }

    fn parse_corpus(&self, corpus: &Corpus, h: &Hypothesis) -> (parsed: ParsedCorpus) {
        let mut parsed_pdus: Vec<ParsedPdu> = Vec::new();
        if let Hypothesis::Tlv { tag_offset, tag_bytes, len_offset, len_rule, length_includes_header } =
            h {
            let mut i: usize = 0;
            while i < corpus.items.len()
                invariant
                    i <= corpus.items@.len(),
                    corpus.wf(),
                    h@.wf(),
                    h@ is Tlv,
                    tlv_layout(h@) == (TlvLayout {
                        tag_offset: *tag_offset as nat,
                        tag_bytes: *tag_bytes as nat,
                        len_offset: *len_offset as nat,
                        len_rule: *len_rule,
                        length_includes_header: *length_includes_header,
                    }),
                    parsed_pdus.deep_view().len() == i,
                    forall|j: int|
                        0 <= j < i ==> {
                            &&& #[trigger] parsed_pdus.deep_view()[j] == tlv_parsed(
                                corpus.pdus()[j],
                                tlv_layout(h@),
                            )
                            &&& parsed_pdus.deep_view()[j].within(corpus.pdus()[j].len() as int)
                        },
                decreases corpus.items@.len() - i,
            {
                let pdu = parse_tlv(
                    corpus.items[i].as_slice(),
                    *tag_offset,
                    *tag_bytes,
                    *len_offset,
                    *len_rule,
                    *length_includes_header,
                );
                let ghost before = parsed_pdus;
                parsed_pdus.push(pdu);
                proof {
                    lemma_deep_view_push(before, parsed_pdus, pdu);
                }
                i += 1;
            }
        } else {
            assert(parsed_pdus.deep_view() =~= Seq::empty());
        }
        ParsedCorpus::new(parsed_pdus)
    }
}

} // verus!
