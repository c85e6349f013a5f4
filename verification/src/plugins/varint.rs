//! Varint keys with a wire type: fields follow one another, each behind a
//! base-128 key whose three low bits say how the value is encoded.

use crate::corpus::Corpus;
use crate::hypothesis::{Hypothesis, HypothesisView};
use crate::parser::{
    lemma_deep_view_push, lemma_followed_by_clean, lemma_followed_by_within,
    lemma_sdu_ranges_concat, lemma_tail_split, sdu_ranges, ParsedCorpus, ParsedPdu, ParsedPduView,
    Parser, Step,
};
use crate::segment::{seg, KindView, SegmentKind, SegmentView};
use crate::text::{decimal, decimal_string};
use vstd::prelude::*;
use vstd::string::StringExecFns;

verus! {

/// Where a base-128 number that starts at `from` ends when at most `max`
/// bytes are read: behind the first byte below 128, or after `max` bytes,
/// or at the payload's end.
pub open spec fn varint_end(data: Seq<u8>, from: int, max: nat) -> int
    decreases max,
{
    if max == 0 || from < 0 || from >= data.len() {
        from
    } else if data[from] < 128 {
        from + 1
    } else {
        varint_end(data, from + 1, (max - 1) as nat)
    }
}

/// The value behind a key that ends at `key_end` and carries `wire`: a
/// base-128 number of up to ten bytes, eight bytes, a length byte and as
/// many bytes of data unit, or four bytes. A value that does not fit, or
/// another wire type, ends the parse with a diagnostic.
pub open spec fn varint_value(data: Seq<u8>, key_end: int, wire: nat) -> Step {
    let n = data.len() as int;
    if wire == 0 {
        let value_end = varint_end(data, key_end, 10);
        Step::advance(seq![seg(KindView::Field("value_varint"@), key_end, value_end)], value_end)
    } else if wire == 1 {
        if key_end + 8 > n {
            Step::stop(Seq::empty(), seq!["Incomplete fixed64"@])
        } else {
            Step::advance(
                seq![seg(KindView::Field("value_fixed64"@), key_end, key_end + 8)],
                key_end + 8,
            )
        }
    } else if wire == 2 {
        if key_end >= n {
            Step::stop(Seq::empty(), seq!["Incomplete length"@])
        } else if key_end + 1 + data[key_end] > n {
            Step::stop(Seq::empty(), seq!["Length-delimited value extends beyond PDU"@])
        } else {
            Step::advance(
                seq![
                    seg(KindView::Field("value_length"@), key_end, key_end + 1),
                    seg(KindView::Sdu, key_end + 1, key_end + 1 + data[key_end]),
                ],
                key_end + 1 + data[key_end],
            )
        }
    } else if wire == 5 {
        if key_end + 4 > n {
            Step::stop(Seq::empty(), seq!["Incomplete fixed32"@])
        } else {
            Step::advance(
                seq![seg(KindView::Field("value_fixed32"@), key_end, key_end + 4)],
                key_end + 4,
            )
        }
    } else {
        Step::stop(Seq::empty(), seq!["Unknown wire type: "@ + decimal(wire)])
    }
}

/// The field at `pos`: its key, of at most `key_max` bytes, and its value.
/// A key that still goes on after `key_max` bytes ends the parse with a
/// diagnostic. The wire type is the key's number modulo eight, which the
/// key's first byte decides.
pub open spec fn varint_step(data: Seq<u8>, key_max: nat, pos: int) -> Step {
    let key_end = varint_end(data, pos, key_max);
    if key_end - pos >= key_max && key_end < data.len() && data[key_end - 1] >= 128 {
        Step::stop(Seq::empty(), seq!["Varint key too long"@])
    } else {
        let value = varint_value(data, key_end, (data[pos] % 8) as nat);
        Step {
            out: ParsedPduView {
                segments: seq![seg(KindView::Field("key"@), pos, key_end)],
                exceptions: Seq::empty(),
            }.followed_by(value.out),
            next: value.next,
        }
    }
}

/// What parsing yields from `pos` on: field after field, up to the
/// payload's end or the first field that cannot be read.
pub open spec fn varint_from(data: Seq<u8>, key_max: nat, pos: int) -> ParsedPduView
    decreases data.len() - pos,
{
    if pos < 0 || pos >= data.len() {
        ParsedPduView::empty()
    } else {
        let step = varint_step(data, key_max, pos);
        match step.next {
            Some(next) => if pos < next <= data.len() {
                step.out.followed_by(varint_from(data, key_max, next))
            } else {
                step.out
            },
            None => step.out,
        }
    }
}

/// What parsing a payload yields.
pub open spec fn varint_parsed(data: Seq<u8>, key_max: nat) -> ParsedPduView {
    varint_from(data, key_max, 0)
}

/// A base-128 number ends within the payload, no more than `max` bytes
/// behind its start, and behind its start where a byte can be read.
pub proof fn lemma_varint_end(data: Seq<u8>, from: int, max: nat)
    requires
        0 <= from <= data.len(),
    ensures
        from <= varint_end(data, from, max) <= data.len(),
        varint_end(data, from, max) - from <= max,
        max >= 1 && from < data.len() ==> from < varint_end(data, from, max),
    decreases max,
{
    if max > 0 && from < data.len() && data[from] >= 128 {
        lemma_varint_end(data, from + 1, (max - 1) as nat);
    }
}

/// A field that is read moves the parse forward and stays inside the
/// payload, and so do its segments.
pub proof fn lemma_varint_step(data: Seq<u8>, key_max: nat, pos: int)
    requires
        0 <= pos < data.len(),
        key_max >= 1,
    ensures
        varint_step(data, key_max, pos).out.within(data.len() as int),
        varint_step(data, key_max, pos).next matches Some(next) ==> pos < next <= data.len(),
{
    let key_end = varint_end(data, pos, key_max);
    lemma_varint_end(data, pos, key_max);
    lemma_varint_end(data, key_end, 10);
    let value = varint_value(data, key_end, (data[pos] % 8) as nat);
    let key = ParsedPduView {
        segments: seq![seg(KindView::Field("key"@), pos, key_end)],
        exceptions: Seq::empty(),
    };
    assert(value.out.within(data.len() as int));
    lemma_followed_by_within(key, value.out, data.len() as int);
}

/// No segment of a varint parse leaves the payload.
pub proof fn lemma_varint_within(data: Seq<u8>, key_max: nat, pos: int)
    requires
        0 <= pos,
        key_max >= 1,
    ensures
        varint_from(data, key_max, pos).within(data.len() as int),
    decreases data.len() - pos,
{
    if pos < data.len() {
        lemma_varint_step(data, key_max, pos);
        match varint_step(data, key_max, pos).next {
            Some(next) => {
                lemma_varint_within(data, key_max, next);
                lemma_followed_by_within(
                    varint_step(data, key_max, pos).out,
                    varint_from(data, key_max, next),
                    data.len() as int,
                );
            },
            None => {},
        }
    }
}

/// A length-delimited field as the varint framing carries it: its key and
/// its payload.
pub struct Delimited {
    pub key: Seq<u8>,
    pub payload: Seq<u8>,
}

/// The bytes form the key of a length-delimited field: one to `key_max`
/// bytes, every byte but the last at least 128, the last one below, and
/// the first one with wire type two.
pub open spec fn is_delimited_key(key: Seq<u8>, key_max: nat) -> bool {
    &&& 1 <= key.len() <= key_max
    &&& forall|i: int| 0 <= i < key.len() - 1 ==> #[trigger] key[i] >= 128
    &&& key.last() < 128
    &&& key[0] % 8 == 2
}

/// The bytes of one field: its key, its payload's length in one byte, its
/// payload.
pub open spec fn delimited_bytes(field: Delimited) -> Seq<u8> {
    field.key + seq![field.payload.len() as u8] + field.payload
}

/// The bytes of a run of fields.
pub open spec fn fields_bytes(fields: Seq<Delimited>) -> Seq<u8>
    decreases fields.len(),
{
    if fields.len() == 0 {
        Seq::empty()
    } else {
        delimited_bytes(fields.first()) + fields_bytes(fields.drop_first())
    }
}

/// Where the payloads stand in a run of fields that starts at `base`.
pub open spec fn field_ranges(fields: Seq<Delimited>, base: int) -> Seq<(int, int)>
    decreases fields.len(),
{
    if fields.len() == 0 {
        Seq::empty()
    } else {
        let start = base + fields.first().key.len() + 1;
        let end = start + fields.first().payload.len();
        seq![(start, end)] + field_ranges(fields.drop_first(), end)
    }
}

/// A key that stands at `at` and is followed by a byte ends where it ends.
pub proof fn lemma_varint_end_of(data: Seq<u8>, at: int, key: Seq<u8>, max: nat)
    requires
        0 <= at,
        at + key.len() <= data.len(),
        data.subrange(at, at + key.len()) == key,
        1 <= key.len() <= max,
        forall|i: int| 0 <= i < key.len() - 1 ==> #[trigger] key[i] >= 128,
        key.last() < 128,
    ensures
        varint_end(data, at, max) == at + key.len(),
    decreases key.len(),
{
    assert(data[at] == key[0]);
    if key.len() > 1 {
        let rest = key.drop_first();
        assert(data.subrange(at + 1, at + 1 + rest.len()) =~= rest);
        assert forall|i: int| 0 <= i < rest.len() - 1 implies #[trigger] rest[i] >= 128 by {
            assert(rest[i] == key[i + 1]);
        }
        assert(rest.last() == key.last());
        lemma_varint_end_of(data, at + 1, rest, (max - 1) as nat);
    } else {
        assert(key.last() == key[0]);
    }
}

/// A field that stands at `pos` is read in full: the step goes on behind
/// the payload, without failure or diagnostic, and its data unit is the
/// payload.
proof fn lemma_varint_step_of(data: Seq<u8>, pos: int, field: Delimited, key_max: nat)
    requires
        0 <= pos,
        is_delimited_key(field.key, key_max),
        field.payload.len() < 256,
        pos + delimited_bytes(field).len() <= data.len(),
        data.subrange(pos, pos + delimited_bytes(field).len()) == delimited_bytes(field),
    ensures
        delimited_bytes(field).len() == field.key.len() + 1 + field.payload.len(),
        varint_step(data, key_max, pos).next == Some(pos + delimited_bytes(field).len()),
        varint_step(data, key_max, pos).out.is_clean(),
        sdu_ranges(varint_step(data, key_max, pos).out.segments) == seq![
            (pos + field.key.len() + 1, pos + delimited_bytes(field).len()),
        ],
{
    let own = delimited_bytes(field);
    let here = data.subrange(pos, pos + own.len());
    let key_end = pos + field.key.len();
    let value_start = key_end + 1;
    let value_end = value_start + field.payload.len();
    assert(data.subrange(pos, key_end) =~= field.key) by {
        assert forall|j: int| 0 <= j < field.key.len() implies data[pos + j] == field.key[j] by {
            assert(here[j] == data[pos + j]);
            assert(own[j] == field.key[j]);
        }
    }
    lemma_varint_end_of(data, pos, field.key, key_max);
    assert(data[pos] == field.key[0]) by {
        assert(here[0] == data[pos]);
        assert(own[0] == field.key[0]);
    }
    assert(data[key_end - 1] == field.key.last()) by {
        assert(here[field.key.len() - 1] == data[key_end - 1]);
        assert(own[field.key.len() - 1] == field.key.last());
    }
    assert(data[key_end] == field.payload.len() as u8) by {
        assert(here[field.key.len() as int] == data[key_end]);
        assert(own[field.key.len() as int] == field.payload.len() as u8);
    }
    let step = varint_step(data, key_max, pos);
    let key = seg(KindView::Field("key"@), pos, key_end);
    let length = seg(KindView::Field("value_length"@), key_end, value_start);
    let sdu = seg(KindView::Sdu, value_start, value_end);
    assert(step.next == Some(value_end));
    assert(step.out.segments =~= seq![key, length, sdu]);
    assert(step.out.exceptions =~= Seq::empty());
    assert(sdu_ranges(step.out.segments) =~= seq![(value_start, value_end)]) by {
        reveal_with_fuel(sdu_ranges, 4);
        assert(step.out.segments.drop_last() =~= seq![key, length]);
        assert(step.out.segments.drop_last().drop_last() =~= seq![key]);
    }
}

/// Varint framing gives back what was framed. Take any length-delimited
/// fields whose keys have at most `key_max` bytes and whose payloads have
/// fewer than 256, and let `data` hold them from `pos` on: parsing from
/// `pos` yields no failure and no diagnostic, and its data units are the
/// payloads, each at its place.
pub proof fn lemma_varint_roundtrip_from(data: Seq<u8>, pos: int, fields: Seq<Delimited>, key_max: nat)
    requires
        0 <= pos <= data.len(),
        data.subrange(pos, data.len() as int) == fields_bytes(fields),
        forall|i: int|
            0 <= i < fields.len() ==> is_delimited_key((#[trigger] fields[i]).key, key_max)
                && fields[i].payload.len() < 256,
    ensures
        varint_from(data, key_max, pos).is_clean(),
        sdu_ranges(varint_from(data, key_max, pos).segments) == field_ranges(fields, pos),
    decreases fields.len(),
{
    let n = data.len() as int;
    if fields.len() == 0 {
        assert(data.subrange(pos, n).len() == 0);
        assert(sdu_ranges(Seq::<SegmentView>::empty()) =~= Seq::empty());
    } else {
        let first = fields.first();
        assert(first == fields[0]);
        let rest = fields.drop_first();
        let own = delimited_bytes(first);
        lemma_tail_split(data, pos, own, fields_bytes(rest));
        lemma_varint_step_of(data, pos, first, key_max);
        let value_end = pos + own.len();
        assert forall|i: int| 0 <= i < rest.len() implies is_delimited_key(
            (#[trigger] rest[i]).key,
            key_max,
        ) && rest[i].payload.len() < 256 by {
            assert(rest[i] == fields[i + 1]);
        }
        lemma_varint_roundtrip_from(data, value_end, rest, key_max);
        let step = varint_step(data, key_max, pos);
        let after = varint_from(data, key_max, value_end);
        assert(varint_from(data, key_max, pos) == step.out.followed_by(after));
        lemma_followed_by_clean(step.out, after);
        lemma_sdu_ranges_concat(step.out.segments, after.segments);
    }
}

/// Varint framing gives back what was framed: parsing any run of
/// length-delimited fields whose keys have at most `key_max` bytes and
/// whose payloads have fewer than 256 yields no failure and no diagnostic,
/// and its data units are the payloads, each at its place.
pub proof fn lemma_varint_roundtrip(fields: Seq<Delimited>, key_max: nat)
    requires
        forall|i: int|
            0 <= i < fields.len() ==> is_delimited_key((#[trigger] fields[i]).key, key_max)
                && fields[i].payload.len() < 256,
    ensures
        varint_parsed(fields_bytes(fields), key_max).is_clean(),
        sdu_ranges(varint_parsed(fields_bytes(fields), key_max).segments) == field_ranges(fields, 0),
{
    let data = fields_bytes(fields);
    assert(data.subrange(0, data.len() as int) =~= data);
    lemma_varint_roundtrip_from(data, 0, fields, key_max);
}

/// Finds the end of the base-128 number that starts at `from`.
fn scan_varint(data: &[u8], from: usize, max: usize) -> (end: usize)
    requires
        from <= data@.len(),
    ensures
        end == varint_end(data@, from as int, max as nat),
        from <= end <= data@.len(),
{
    let n = data.len();
    let mut end = from;
    let mut left = max;
    while left > 0 && end < n
        invariant
            n == data@.len(),
            from <= end <= n,
            varint_end(data@, from as int, max as nat) == varint_end(data@, end as int, left as nat),
        decreases left,
    {
        if data[end] < 128 {
            return end + 1;
        }
        end += 1;
        left -= 1;
    }
    end
}

/// Reads the value behind a key that ends at `key_end` into `parsed`;
/// returns where the next field starts, or nothing where the parse ends.
fn read_varint_value(data: &[u8], key_end: usize, wire: u8, parsed: &mut ParsedPdu) -> (next: Option<
    usize,
>)
    requires
        key_end <= data@.len(),
    ensures
        final(parsed)@ == old(parsed)@.followed_by(
            varint_value(data@, key_end as int, wire as nat).out,
        ),
        next matches Some(p) ==> varint_value(data@, key_end as int, wire as nat).next == Some(
            p as int,
        ),
        next is None ==> varint_value(data@, key_end as int, wire as nat).next is None,
{
    let n = data.len();
    let ghost before = parsed@;
    let ghost step = varint_value(data@, key_end as int, wire as nat);
    if wire == 0 {
        let value_end = scan_varint(data, key_end, 10);
        parsed.push_segment(SegmentKind::Field(String::from_str("value_varint")), key_end, value_end);
        assert(parsed@ =~= before.followed_by(step.out));
        Some(value_end)
    } else if wire == 1 {
        if n - key_end < 8 {
            parsed.push_exception(String::from_str("Incomplete fixed64"));
            assert(parsed@ =~= before.followed_by(step.out));
            None
        } else {
            parsed.push_segment(
                SegmentKind::Field(String::from_str("value_fixed64")),
                key_end,
                key_end + 8,
            );
            assert(parsed@ =~= before.followed_by(step.out));
            Some(key_end + 8)
        }
    } else if wire == 2 {
        if key_end >= n {
            parsed.push_exception(String::from_str("Incomplete length"));
            assert(parsed@ =~= before.followed_by(step.out));
            None
        } else {
            let len = data[key_end] as usize;
            if len > n - key_end - 1 {
                parsed.push_exception(
                    String::from_str("Length-delimited value extends beyond PDU"),
                );
                assert(parsed@ =~= before.followed_by(step.out));
                None
            } else {
                parsed.push_segment(
                    SegmentKind::Field(String::from_str("value_length")),
                    key_end,
                    key_end + 1,
                );
                parsed.push_segment(SegmentKind::Sdu, key_end + 1, key_end + 1 + len);
                assert(parsed@ =~= before.followed_by(step.out));
                Some(key_end + 1 + len)
            }
        }
    } else if wire == 5 {
        if n - key_end < 4 {
            parsed.push_exception(String::from_str("Incomplete fixed32"));
            assert(parsed@ =~= before.followed_by(step.out));
            None
        } else {
            parsed.push_segment(
                SegmentKind::Field(String::from_str("value_fixed32")),
                key_end,
                key_end + 4,
            );
            assert(parsed@ =~= before.followed_by(step.out));
            Some(key_end + 4)
        }
    } else {
        let mut msg = String::from_str("Unknown wire type: ");
        let digits = decimal_string(wire as usize);
        msg.append(digits.as_str());
        parsed.push_exception(msg);
        assert(parsed@ =~= before.followed_by(step.out));
        None
    }
}

/// Reads the field at `pos` into `parsed`; returns where the next field
/// starts, or nothing where the parse ends.
fn read_varint_field(data: &[u8], key_max: usize, pos: usize, parsed: &mut ParsedPdu) -> (next:
    Option<usize>)
    requires
        pos < data@.len(),
        key_max >= 1,
    ensures
        final(parsed)@ == old(parsed)@.followed_by(
            varint_step(data@, key_max as nat, pos as int).out,
        ),
        next matches Some(p) ==> varint_step(data@, key_max as nat, pos as int).next == Some(
            p as int,
        ),
        next is None ==> varint_step(data@, key_max as nat, pos as int).next is None,
{
    let n = data.len();
    let ghost before = parsed@;
    let ghost step = varint_step(data@, key_max as nat, pos as int);
    let key_end = scan_varint(data, pos, key_max);
    proof {
        lemma_varint_end(data@, pos as int, key_max as nat);
    }
    if key_end - pos >= key_max && key_end < n && data[key_end - 1] >= 128 {
        parsed.push_exception(String::from_str("Varint key too long"));
        assert(parsed@ =~= before.followed_by(step.out));
        return None;
    }
    parsed.push_segment(SegmentKind::Field(String::from_str("key")), pos, key_end);
    let ghost key = ParsedPduView {
        segments: seq![seg(KindView::Field("key"@), pos as int, key_end as int)],
        exceptions: Seq::empty(),
    };
    assert(parsed@ =~= before.followed_by(key));
    let wire = data[pos] % 8;
    let ghost value = varint_value(data@, key_end as int, wire as nat);
    let next = read_varint_value(data, key_end, wire, parsed);
    assert(parsed@ =~= before.followed_by(key.followed_by(value.out)));
    next
}

/// Parses one payload as a run of fields behind varint keys.
pub fn parse_varint(data: &[u8], key_max_bytes: usize) -> (parsed: ParsedPdu)
    requires
        key_max_bytes >= 1,
    ensures
        parsed@ == varint_parsed(data@, key_max_bytes as nat),
        parsed@.within(data@.len() as int),
{
    let n = data.len();
    let ghost whole = varint_parsed(data@, key_max_bytes as nat);
    let mut parsed = ParsedPdu::new(Vec::new());
    let mut pos: usize = 0;
    let mut done = false;
    assert(whole =~= parsed@.followed_by(whole));
    while pos < n && !done
        invariant
            pos <= n,
            n == data@.len(),
            key_max_bytes >= 1,
            whole == parsed@.followed_by(
                if done {
                    ParsedPduView::empty()
                } else {
                    varint_from(data@, key_max_bytes as nat, pos as int)
                },
            ),
        decreases
            n - pos + if done {
                0int
            } else {
                1int
            },
    {
        proof {
            lemma_varint_step(data@, key_max_bytes as nat, pos as int);
        }
        let next = read_varint_field(data, key_max_bytes, pos, &mut parsed);
        match next {
            Some(p) => {
                assert(whole =~= parsed@.followed_by(
                    varint_from(data@, key_max_bytes as nat, p as int),
                ));
                pos = p;
            },
            None => {
                done = true;
                assert(whole =~= parsed@.followed_by(ParsedPduView::empty()));
            },
        }
    }
    assert(whole =~= parsed@);
    proof {
        lemma_varint_within(data@, key_max_bytes as nat, 0);
    }
    parsed
}

/// The parser of the varint family.
pub struct VarintParser;

impl Parser for VarintParser {
    open spec fn applies(&self, h: HypothesisView) -> bool {
        h is VarintKeyWireType
    }

    open spec fn parsed(&self, data: Seq<u8>, h: HypothesisView) -> ParsedPduView {
        match h {
            HypothesisView::VarintKeyWireType { key_max_bytes, .. } => varint_parsed(
                data,
                key_max_bytes,
            ),
            _ => ParsedPduView::empty(),
        }
    }

    fn name(&self) -> (name: &'static str)
        ensures
            name@ == "VarintParser"@,
    {
        "VarintParser"
    }

    fn applicable(&self, h: &Hypothesis) -> (yes: bool) {
        match h {
            Hypothesis::VarintKeyWireType { .. } => true,
            _ => false,
        }
    }

    fn parse_corpus(&self, corpus: &Corpus, h: &Hypothesis) -> (parsed: ParsedCorpus) {
        let mut parsed_pdus: Vec<ParsedPdu> = Vec::new();
        if let Hypothesis::VarintKeyWireType { key_max_bytes, .. } = h {
            let mut i: usize = 0;
            while i < corpus.items.len()
                invariant
                    i <= corpus.items@.len(),
                    corpus.wf(),
                    *key_max_bytes >= 1,
                    parsed_pdus.deep_view().len() == i,
                    forall|j: int|
                        0 <= j < i ==> {
                            &&& #[trigger] parsed_pdus.deep_view()[j] == varint_parsed(
                                corpus.pdus()[j],
                                *key_max_bytes as nat,
                            )
                            &&& parsed_pdus.deep_view()[j].within(corpus.pdus()[j].len() as int)
                        },
                decreases corpus.items@.len() - i,
            {
                let pdu = parse_varint(corpus.items[i].as_slice(), *key_max_bytes);
                let ghost before = parsed_pdus;
                parsed_pdus.push(pdu);
                proof {
                    lemma_deep_view_push(before, parsed_pdus, pdu);
                }
                i += 1;
            }
        } else {
            assert(parsed_pdus.deep_view() =~= Seq::empty());
        }
        ParsedCorpus::new(parsed_pdus)
    }
}

} // verus!
