//! Length-prefix bundling: messages follow one another, each behind a
//! header that ends in the length of the message.

use crate::corpus::Corpus;
use crate::hypothesis::{Endianness, Hypothesis, HypothesisView, LengthWidth};
use crate::parser::{
    lemma_deep_view_push, lemma_followed_by_clean, lemma_sdu_ranges_concat, lemma_tail_split,
    sdu_ranges, ParsedCorpus, ParsedPdu, ParsedPduView, Parser, Step,
};
use crate::segment::{seg, KindView, SegmentKind, SegmentView};
use crate::text::{decimal, decimal_string};
use vstd::prelude::*;
use vstd::string::StringExecFns;

verus! {

/// The number that the `width` bytes at `at` spell in the given byte order.
pub open spec fn prefix_value(data: Seq<u8>, at: int, width: LengthWidth, endian: Endianness) -> nat
    recommends
        0 <= at,
        at + width.bytes() <= data.len(),
{
    match width {
        LengthWidth::One => data[at] as nat,
        LengthWidth::Two => match endian {
            Endianness::Little => (data[at] + 256 * data[at + 1]) as nat,
            Endianness::Big => (256 * data[at] + data[at + 1]) as nat,
        },
        LengthWidth::Four => match endian {
            Endianness::Little => (data[at] + 256 * data[at + 1] + 65536 * data[at + 2] + 16777216
                * data[at + 3]) as nat,
            Endianness::Big => (16777216 * data[at] + 65536 * data[at + 1] + 256 * data[at + 2]
                + data[at + 3]) as nat,
        },
    }
}

/// The segments of one message that starts at `pos`, whose header ends at
/// `header_end` and whose payload ends at `message_end`, in a payload of `n`
/// bytes: the length field, the data unit unless it is empty, and a
/// zero-width boundary unless the payload ends there.
pub open spec fn length_prefix_message(pos: int, header_end: int, message_end: int, n: int) -> ParsedPduView {
    ParsedPduView {
        segments: seq![seg(KindView::Field("length"@), pos, header_end)] + (if header_end
            < message_end {
            seq![seg(KindView::Sdu, header_end, message_end)]
        } else {
            Seq::empty()
        }) + (if message_end < n {
            seq![seg(KindView::MessageBoundary, message_end, message_end)]
        } else {
            Seq::empty()
        }),
        exceptions: Seq::empty(),
    }
}

/// The message at `pos`. One whose length field does not fit ends the parse
/// with a failure over the rest; so does one whose payload overruns the
/// end, with a diagnostic.
pub open spec fn length_prefix_step(
    data: Seq<u8>,
    offset: nat,
    width: LengthWidth,
    endian: Endianness,
    pos: int,
) -> Step {
    let n = data.len() as int;
    let len_pos = pos + offset;
    let header_end = len_pos + width.bytes();
    let message_end = header_end + prefix_value(data, len_pos, width, endian);
    if header_end > n {
        Step::stop(seq![seg(KindView::Error("Incomplete length field"@), pos, n)], Seq::empty())
    } else if message_end > n {
        Step::stop(
            seq![seg(KindView::Error("Message overflow"@), pos, n)],
            seq!["Message extends beyond PDU at pos "@ + decimal(pos as nat)],
        )
    } else {
        Step { out: length_prefix_message(pos, header_end, message_end, n), next: Some(message_end) }
    }
}

/// What parsing yields from `pos` on: message after message, up to the
/// payload's end or the first message that cannot be read.
pub open spec fn length_prefix_from(
    data: Seq<u8>,
    offset: nat,
    width: LengthWidth,
    endian: Endianness,
    pos: int,
) -> ParsedPduView
    decreases data.len() - pos,
{
    if pos < 0 || pos >= data.len() {
        ParsedPduView::empty()
    } else {
        let step = length_prefix_step(data, offset, width, endian, pos);
        match step.next {
            Some(next) => if pos < next <= data.len() {
                step.out.followed_by(length_prefix_from(data, offset, width, endian, next))
            } else {
                step.out
            },
            None => step.out,
        }
    }
}

/// What parsing a payload yields.
pub open spec fn length_prefix_parsed(
    data: Seq<u8>,
    offset: nat,
    width: LengthWidth,
    endian: Endianness,
) -> ParsedPduView {
    length_prefix_from(data, offset, width, endian, 0)
}

/// A message that is read moves the parse forward and stays inside the
/// payload, and so do its segments.
pub proof fn lemma_length_prefix_step(
    data: Seq<u8>,
    offset: nat,
    width: LengthWidth,
    endian: Endianness,
    pos: int,
)
    requires
        0 <= pos < data.len(),
    ensures
        length_prefix_step(data, offset, width, endian, pos).out.within(data.len() as int),
        length_prefix_step(data, offset, width, endian, pos).next matches Some(next) ==> pos < next
            <= data.len(),
{
}

/// No segment of a length-prefix parse leaves the payload.
pub proof fn lemma_length_prefix_within(
    data: Seq<u8>,
    offset: nat,
    width: LengthWidth,
    endian: Endianness,
    pos: int,
)
    requires
        0 <= pos,
    ensures
        length_prefix_from(data, offset, width, endian, pos).within(data.len() as int),
    decreases data.len() - pos,
{
    if pos < data.len() {
        lemma_length_prefix_step(data, offset, width, endian, pos);
        match length_prefix_step(data, offset, width, endian, pos).next {
            Some(next) => {
                lemma_length_prefix_within(data, offset, width, endian, next);
            },
            None => {},
        }
    }
}

/// The `width` bytes that spell `n` in the given byte order: its digits to
/// the base 256.
pub open spec fn length_bytes(n: nat, width: LengthWidth, endian: Endianness) -> Seq<u8> {
    let d0 = (n % 256) as u8;
    let d1 = ((n / 256) % 256) as u8;
    let d2 = (((n / 256) / 256) % 256) as u8;
    let d3 = ((((n / 256) / 256) / 256) % 256) as u8;
    match width {
        LengthWidth::One => seq![d0],
        LengthWidth::Two => match endian {
            Endianness::Little => seq![d0, d1],
            Endianness::Big => seq![d1, d0],
        },
        LengthWidth::Four => match endian {
            Endianness::Little => seq![d0, d1, d2, d3],
            Endianness::Big => seq![d3, d2, d1, d0],
        },
    }
}

/// The largest number that `width` bytes spell, plus one.
pub open spec fn length_limit(width: LengthWidth) -> nat {
    match width {
        LengthWidth::One => 0x100,
        LengthWidth::Two => 0x1_0000,
        LengthWidth::Four => 0x1_0000_0000,
    }
}

/// A message as a length-prefixed bundle carries it: the header bytes
/// before the length, and the payload.
pub struct Framed {
    pub filler: Seq<u8>,
    pub payload: Seq<u8>,
}

/// The bytes of one message: its filler, its payload's length, its
/// payload.
pub open spec fn framed_bytes(message: Framed, width: LengthWidth, endian: Endianness) -> Seq<u8> {
    message.filler + length_bytes(message.payload.len(), width, endian) + message.payload
}

/// The bytes of a bundle: message after message.
pub open spec fn bundle_bytes(messages: Seq<Framed>, width: LengthWidth, endian: Endianness) -> Seq<u8>
    decreases messages.len(),
{
    if messages.len() == 0 {
        Seq::empty()
    } else {
        framed_bytes(messages.first(), width, endian) + bundle_bytes(
            messages.drop_first(),
            width,
            endian,
        )
    }
}

/// Where the payloads that are not empty stand in a bundle that starts at
/// `base`.
pub open spec fn payload_ranges(messages: Seq<Framed>, width: LengthWidth, base: int) -> Seq<(int, int)>
    decreases messages.len(),
{
    if messages.len() == 0 {
        Seq::empty()
    } else {
        let start = base + messages.first().filler.len() + width.bytes();
        let end = start + messages.first().payload.len();
        (if start < end {
            seq![(start, end)]
        } else {
            Seq::empty()
        }) + payload_ranges(messages.drop_first(), width, end)
    }
}

/// A number below 256 to the fourth is the sum of its four digits to the
/// base 256, each times its power.
proof fn lemma_base_256(n: nat)
    requires
        n < 0x1_0000_0000,
    ensures
        n == n % 256 + 256 * ((n / 256) % 256) + 65536 * (((n / 256) / 256) % 256) + 16777216 * ((((n
            / 256) / 256) / 256) % 256),
        n < 0x100 ==> n % 256 == n,
        n < 0x1_0000 ==> (n / 256) % 256 == n / 256,
{
    let q1 = n / 256;
    let q2 = q1 / 256;
    let q3 = q2 / 256;
    assert(n == 256 * q1 + n % 256);
    assert(q1 == 256 * q2 + q1 % 256);
    assert(q2 == 256 * q3 + q2 % 256);
    assert(q1 < 0x100_0000);
    assert(q2 < 0x1_0000);
    assert(q3 < 0x100);
    assert(q3 % 256 == q3);
}

/// The bytes that spell a number spell it back.
pub proof fn lemma_length_bytes_value(
    data: Seq<u8>,
    at: int,
    n: nat,
    width: LengthWidth,
    endian: Endianness,
)
    requires
        0 <= at,
        at + width.bytes() <= data.len(),
        data.subrange(at, at + width.bytes()) == length_bytes(n, width, endian),
        n < length_limit(width),
    ensures
        prefix_value(data, at, width, endian) == n,
{
    lemma_base_256(n);
    let bytes = data.subrange(at, at + width.bytes());
    assert(bytes[0] == data[at]);
    match width {
        LengthWidth::One => {},
        LengthWidth::Two => {
            assert(bytes[1] == data[at + 1]);
        },
        LengthWidth::Four => {
            assert(bytes[1] == data[at + 1]);
            assert(bytes[2] == data[at + 2]);
            assert(bytes[3] == data[at + 3]);
        },
    }
}

/// A message that stands at `pos` is read in full.
proof fn lemma_length_prefix_step_of(
    data: Seq<u8>,
    pos: int,
    message: Framed,
    width: LengthWidth,
    endian: Endianness,
)
    requires
        0 <= pos,
        pos + framed_bytes(message, width, endian).len() <= data.len(),
        data.subrange(pos, pos + framed_bytes(message, width, endian).len()) == framed_bytes(
            message,
            width,
            endian,
        ),
        message.payload.len() < length_limit(width),
    ensures
        framed_bytes(message, width, endian).len() == message.filler.len() + width.bytes()
            + message.payload.len(),
        length_prefix_step(data, message.filler.len(), width, endian, pos) == (Step {
            out: length_prefix_message(
                pos,
                pos + message.filler.len() + width.bytes(),
                pos + framed_bytes(message, width, endian).len(),
                data.len() as int,
            ),
            next: Some(pos + framed_bytes(message, width, endian).len()),
        }),
{
    let own = framed_bytes(message, width, endian);
    let spelled = length_bytes(message.payload.len(), width, endian);
    let len_pos = pos + message.filler.len();
    assert(spelled.len() == width.bytes());
    assert(data.subrange(len_pos, len_pos + width.bytes()) =~= spelled) by {
        assert forall|j: int| 0 <= j < width.bytes() implies data[len_pos + j] == spelled[j] by {
            assert(data.subrange(pos, pos + own.len())[message.filler.len() + j] == data[len_pos + j]);
            assert(own[message.filler.len() + j] == spelled[j]);
        }
    }
    lemma_length_bytes_value(data, len_pos, message.payload.len(), width, endian);
}

/// Length-prefix framing gives back what was framed. Take any messages
/// whose fillers have `offset` bytes and whose payloads are short enough
/// for their length to be spelled in `width` bytes, and let `data` hold
/// their bundle from `pos` on: parsing from `pos` yields no failure and no
/// diagnostic, and its data units are the payloads that are not empty, each
/// at its place.
pub proof fn lemma_length_prefix_roundtrip_from(
    data: Seq<u8>,
    pos: int,
    messages: Seq<Framed>,
    offset: nat,
    width: LengthWidth,
    endian: Endianness,
)
    requires
        0 <= pos <= data.len(),
        data.subrange(pos, data.len() as int) == bundle_bytes(messages, width, endian),
        forall|i: int|
            0 <= i < messages.len() ==> (#[trigger] messages[i]).filler.len() == offset
                && messages[i].payload.len() < length_limit(width),
    ensures
        length_prefix_from(data, offset, width, endian, pos).is_clean(),
        sdu_ranges(length_prefix_from(data, offset, width, endian, pos).segments) == payload_ranges(
            messages,
            width,
            pos,
        ),
    decreases messages.len(),
{
    let n = data.len() as int;
    if messages.len() == 0 {
        assert(data.subrange(pos, n).len() == 0);
        assert(sdu_ranges(Seq::<SegmentView>::empty()) =~= Seq::empty());
    } else {
        let first = messages.first();
        assert(first == messages[0]);
        let rest = messages.drop_first();
        let own = framed_bytes(first, width, endian);
        lemma_tail_split(data, pos, own, bundle_bytes(rest, width, endian));
        lemma_length_prefix_step_of(data, pos, first, width, endian);
        let header_end = pos + offset + width.bytes();
        let message_end = pos + own.len();
        assert forall|i: int| 0 <= i < rest.len() implies (#[trigger] rest[i]).filler.len() == offset
            && rest[i].payload.len() < length_limit(width) by {
            assert(rest[i] == messages[i + 1]);
        }
        lemma_length_prefix_roundtrip_from(data, message_end, rest, offset, width, endian);
        let message = length_prefix_message(pos, header_end, message_end, n);
        let after = length_prefix_from(data, offset, width, endian, message_end);
        assert(length_prefix_from(data, offset, width, endian, pos) == message.followed_by(after));
        lemma_message_sdu(pos, header_end, message_end, n);
        lemma_followed_by_clean(message, after);
        lemma_sdu_ranges_concat(message.segments, after.segments);
    }
}

/// The data units of one message: its payload unless it is empty.
proof fn lemma_message_sdu(pos: int, header_end: int, message_end: int, n: int)
    ensures
        length_prefix_message(pos, header_end, message_end, n).is_clean(),
        sdu_ranges(length_prefix_message(pos, header_end, message_end, n).segments) == if header_end
            < message_end {
            seq![(header_end, message_end)]
        } else {
            Seq::<(int, int)>::empty()
        },
{
    reveal_with_fuel(sdu_ranges, 4);
    let segments = length_prefix_message(pos, header_end, message_end, n).segments;
    let field = seg(KindView::Field("length"@), pos, header_end);
    let sdu = seg(KindView::Sdu, header_end, message_end);
    let boundary = seg(KindView::MessageBoundary, message_end, message_end);
    if header_end < message_end {
        if message_end < n {
            assert(segments =~= seq![field, sdu, boundary]);
            assert(segments.drop_last() =~= seq![field, sdu]);
            assert(segments.drop_last().drop_last() =~= seq![field]);
            assert(sdu_ranges(segments) =~= seq![(header_end, message_end)]);
        } else {
            assert(segments =~= seq![field, sdu]);
            assert(segments.drop_last() =~= seq![field]);
            assert(sdu_ranges(segments) =~= seq![(header_end, message_end)]);
        }
    } else {
        if message_end < n {
            assert(segments =~= seq![field, boundary]);
            assert(segments.drop_last() =~= seq![field]);
            assert(sdu_ranges(segments) =~= Seq::<(int, int)>::empty());
        } else {
            assert(segments =~= seq![field]);
            assert(sdu_ranges(segments) =~= Seq::<(int, int)>::empty());
        }
    }
}

/// Length-prefix framing gives back what was framed: parsing the bundle of
/// any messages whose fillers have `offset` bytes and whose payloads are
/// short enough for their length to be spelled in `width` bytes yields no
/// failure and no diagnostic, and its data units are the payloads that are
/// not empty, each at its place.
pub proof fn lemma_length_prefix_roundtrip(
    messages: Seq<Framed>,
    offset: nat,
    width: LengthWidth,
    endian: Endianness,
)
    requires
        forall|i: int|
            0 <= i < messages.len() ==> (#[trigger] messages[i]).filler.len() == offset
                && messages[i].payload.len() < length_limit(width),
    ensures
        length_prefix_parsed(bundle_bytes(messages, width, endian), offset, width, endian).is_clean(),
        sdu_ranges(
            length_prefix_parsed(bundle_bytes(messages, width, endian), offset, width, endian).segments,
        ) == payload_ranges(messages, width, 0),
{
    let data = bundle_bytes(messages, width, endian);
    assert(data.subrange(0, data.len() as int) =~= data);
    lemma_length_prefix_roundtrip_from(data, 0, messages, offset, width, endian);
}

/// Reads the number that the `width` bytes at `at` spell.
pub(crate) fn read_prefix(data: &[u8], at: usize, width: LengthWidth, endian: Endianness) -> (value:
    u64)
    requires
        at + width.bytes() <= data@.len(),
    ensures
        value == prefix_value(data@, at as int, width, endian),
        value <= 0xffff_ffff,
{
    match width {
        LengthWidth::One => data[at] as u64,
        LengthWidth::Two => {
            let b0 = data[at] as u64;
            let b1 = data[at + 1] as u64;
            match endian {
                Endianness::Little => b0 + 256 * b1,
                Endianness::Big => 256 * b0 + b1,
            }
        },
        LengthWidth::Four => {
            let b0 = data[at] as u64;
            let b1 = data[at + 1] as u64;
            let b2 = data[at + 2] as u64;
            let b3 = data[at + 3] as u64;
            match endian {
                Endianness::Little => b0 + 256 * b1 + 65536 * b2 + 16777216 * b3,
                Endianness::Big => 16777216 * b0 + 65536 * b1 + 256 * b2 + b3,
            }
        },
    }
}

/// Reads the message at `pos` into `parsed`; returns where the next message
/// starts, or nothing where the parse ends.
fn read_message(
    data: &[u8],
    offset: usize,
    width: LengthWidth,
    endian: Endianness,
    pos: usize,
    parsed: &mut ParsedPdu,
) -> (next: Option<usize>)
    requires
        pos < data@.len(),
    ensures
        final(parsed)@ == old(parsed)@.followed_by(
            length_prefix_step(data@, offset as nat, width, endian, pos as int).out,
        ),
        next matches Some(p) ==> length_prefix_step(
            data@,
            offset as nat,
            width,
            endian,
            pos as int,
        ).next == Some(p as int),
        next is None ==> length_prefix_step(data@, offset as nat, width, endian, pos as int).next
            is None,
{
    let n = data.len();
    let w = width.byte_count();
    let ghost before = parsed@;
    let ghost step = length_prefix_step(data@, offset as nat, width, endian, pos as int);
    if offset > n - pos || w > n - pos - offset {
        parsed.push_segment(SegmentKind::Error(String::from_str("Incomplete length field")), pos, n);
        assert(parsed@ =~= before.followed_by(step.out));
        return None;
    }
    let header_end = pos + offset + w;
    let len = read_prefix(data, pos + offset, width, endian);
    if len > (n - header_end) as u64 {
        let mut msg = String::from_str("Message extends beyond PDU at pos ");
        let digits = decimal_string(pos);
        msg.append(digits.as_str());
        parsed.push_exception(msg);
        parsed.push_segment(SegmentKind::Error(String::from_str("Message overflow")), pos, n);
        assert(parsed@ =~= before.followed_by(step.out));
        return None;
    }
    let message_end = header_end + len as usize;
    parsed.push_segment(SegmentKind::Field(String::from_str("length")), pos, header_end);
    if header_end < message_end {
        parsed.push_segment(SegmentKind::Sdu, header_end, message_end);
    }
    if message_end < n {
        parsed.push_segment(SegmentKind::MessageBoundary, message_end, message_end);
    }
    assert(parsed@ =~= before.followed_by(step.out));
    Some(message_end)
}

/// Parses one payload as a bundle of length-prefixed messages.
pub fn parse_length_prefix(data: &[u8], offset: usize, width: LengthWidth, endian: Endianness) -> (parsed:
    ParsedPdu)
    ensures
        parsed@ == length_prefix_parsed(data@, offset as nat, width, endian),
        parsed@.within(data@.len() as int),
{
    let n = data.len();
    let ghost whole = length_prefix_parsed(data@, offset as nat, width, endian);
    let mut parsed = ParsedPdu::new(Vec::new());
    let mut pos: usize = 0;
    let mut done = false;
    assert(whole =~= parsed@.followed_by(whole));
    while pos < n && !done
        invariant
            pos <= n,
            n == data@.len(),
            whole == parsed@.followed_by(
                if done {
                    ParsedPduView::empty()
                } else {
                    length_prefix_from(data@, offset as nat, width, endian, pos as int)
                },
            ),
        decreases
            n - pos + if done {
                0int
            } else {
                1int
            },
    {
        proof {
            lemma_length_prefix_step(data@, offset as nat, width, endian, pos as int);
        }
        let next = read_message(data, offset, width, endian, pos, &mut parsed);
        match next {
            Some(p) => {
                assert(whole =~= parsed@.followed_by(
                    length_prefix_from(data@, offset as nat, width, endian, p as int),
                ));
                pos = p;
            },
            None => {
                done = true;
                assert(whole =~= parsed@.followed_by(ParsedPduView::empty()));
            },
        }
    }
    assert(whole =~= parsed@);
    proof {
        lemma_length_prefix_within(data@, offset as nat, width, endian, 0);
    }
    parsed
}

/// The parser of the length-prefix family.
pub struct LengthPrefixParser;

impl Parser for LengthPrefixParser {
    open spec fn applies(&self, h: HypothesisView) -> bool {
        h is LengthPrefixBundle
    }

    open spec fn parsed(&self, data: Seq<u8>, h: HypothesisView) -> ParsedPduView {
        match h {
            HypothesisView::LengthPrefixBundle { offset, width, endian, .. } => length_prefix_parsed(
                data,
                offset,
                width,
                endian,
            ),
            _ => ParsedPduView::empty(),
        }
    }

    fn name(&self) -> (name: &'static str)
        ensures
            name@ == "LengthPrefixParser"@,
    {
        "LengthPrefixParser"
    }

    fn applicable(&self, h: &Hypothesis) -> (yes: bool) {
        match h {
            Hypothesis::LengthPrefixBundle { .. } => true,
            _ => false,
        }
    }

    fn parse_corpus(&self, corpus: &Corpus, h: &Hypothesis) -> (parsed: ParsedCorpus) {
        let mut parsed_pdus: Vec<ParsedPdu> = Vec::new();
        if let Hypothesis::LengthPrefixBundle { offset, width, endian, .. } = h {
            let mut i: usize = 0;
            while i < corpus.items.len()
                invariant
                    i <= corpus.items@.len(),
                    corpus.wf(),
                    parsed_pdus.deep_view().len() == i,
                    forall|j: int|
                        0 <= j < i ==> {
                            &&& #[trigger] parsed_pdus.deep_view()[j] == length_prefix_parsed(
                                corpus.pdus()[j],
                                *offset as nat,
                                *width,
                                *endian,
                            )
                            &&& parsed_pdus.deep_view()[j].within(corpus.pdus()[j].len() as int)
                        },
                decreases corpus.items@.len() - i,
            {
                let pdu = parse_length_prefix(corpus.items[i].as_slice(), *offset, *width, *endian);
                let ghost before = parsed_pdus;
                parsed_pdus.push(pdu);
                proof {
                    lemma_deep_view_push(before, parsed_pdus, pdu);
                }
                i += 1;
            }
        } else {
            assert(parsed_pdus.deep_view() =~= Seq::empty());
        }
        ParsedCorpus::new(parsed_pdus)
    }
}

} // verus!
