//! Delimiter bundling: messages are separated by a byte pattern.

use crate::corpus::Corpus;
use crate::hypothesis::{Hypothesis, HypothesisView};
use crate::parser::{
    lemma_deep_view_push, lemma_followed_by_clean, lemma_sdu_ranges_concat, lemma_tail_split,
    sdu_ranges, ParsedCorpus, ParsedPdu, ParsedPduView, Parser, Step,
};
use crate::segment::{seg, KindView, SegmentKind, SegmentView};
use vstd::prelude::*;

verus! {

/// The pattern stands at `at`.
pub open spec fn matches_at(data: Seq<u8>, pattern: Seq<u8>, at: int) -> bool {
    0 <= at && at + pattern.len() <= data.len() && data.subrange(at, at + pattern.len()) == pattern
}

/// The first place at or after `from` where the pattern stands, or the
/// payload's length where it stands nowhere.
pub open spec fn first_match(data: Seq<u8>, pattern: Seq<u8>, from: int) -> int
    decreases data.len() - from,
{
    if from < 0 || from >= data.len() || from + pattern.len() > data.len() {
        data.len() as int
    } else if matches_at(data, pattern, from) {
        from
    } else {
        first_match(data, pattern, from + 1)
    }
}

/// The message at `pos`: the bytes up to the next delimiter as a data unit
/// unless there are none, and the delimiter as a boundary; without a
/// further delimiter the rest is the last data unit.
pub open spec fn delimiter_step(data: Seq<u8>, pattern: Seq<u8>, pos: int) -> Step {
    let n = data.len() as int;
    let found = first_match(data, pattern, pos);
    if found < n {
        Step::advance(
            (if pos < found {
                seq![seg(KindView::Sdu, pos, found)]
            } else {
                Seq::empty()
            }) + seq![seg(KindView::MessageBoundary, found, found + pattern.len())],
            found + pattern.len(),
        )
    } else {
        Step::stop(seq![seg(KindView::Sdu, pos, n)], Seq::empty())
    }
}

/// What parsing yields from `pos` on.
pub open spec fn delimiter_from(data: Seq<u8>, pattern: Seq<u8>, pos: int) -> ParsedPduView
    decreases data.len() - pos,
{
    if pos < 0 || pos >= data.len() {
        ParsedPduView::empty()
    } else {
        let step = delimiter_step(data, pattern, pos);
        match step.next {
            Some(next) => if pos < next <= data.len() {
                step.out.followed_by(delimiter_from(data, pattern, next))
            } else {
                step.out
            },
            None => step.out,
        }
    }
}

/// What parsing a payload yields.
pub open spec fn delimiter_parsed(data: Seq<u8>, pattern: Seq<u8>) -> ParsedPduView {
    delimiter_from(data, pattern, 0)
}

/// The match that is found is the first: the pattern stands there and
/// nowhere between the start of the search and it.
pub proof fn lemma_first_match(data: Seq<u8>, pattern: Seq<u8>, from: int)
    requires
        0 <= from,
        pattern.len() >= 1,
    ensures
        from <= first_match(data, pattern, from) || first_match(data, pattern, from) == data.len(),
        first_match(data, pattern, from) < data.len() ==> matches_at(
            data,
            pattern,
            first_match(data, pattern, from),
        ),
        forall|i: int|
            from <= i < first_match(data, pattern, from) ==> !#[trigger] matches_at(data, pattern, i),
    decreases data.len() - from,
{
    if from + pattern.len() <= data.len() && !matches_at(data, pattern, from) {
        lemma_first_match(data, pattern, from + 1);
    }
}

/// A message that is read moves the parse forward and stays inside the
/// payload, and so do its segments.
pub proof fn lemma_delimiter_step(data: Seq<u8>, pattern: Seq<u8>, pos: int)
    requires
        0 <= pos < data.len(),
        pattern.len() >= 1,
    ensures
        delimiter_step(data, pattern, pos).out.within(data.len() as int),
        delimiter_step(data, pattern, pos).next matches Some(next) ==> pos < next <= data.len(),
{
    lemma_first_match(data, pattern, pos);
}

/// No segment of a delimiter parse leaves the payload.
pub proof fn lemma_delimiter_within(data: Seq<u8>, pattern: Seq<u8>, pos: int)
    requires
        0 <= pos,
        pattern.len() >= 1,
    ensures
        delimiter_from(data, pattern, pos).within(data.len() as int),
    decreases data.len() - pos,
{
    if pos < data.len() {
        lemma_delimiter_step(data, pattern, pos);
        match delimiter_step(data, pattern, pos).next {
            Some(next) => {
                lemma_delimiter_within(data, pattern, next);
            },
            None => {},
        }
    }
}

/// The bytes of a bundle: every message followed by the delimiter.
pub open spec fn delimited_bundle(messages: Seq<Seq<u8>>, pattern: Seq<u8>) -> Seq<u8>
    decreases messages.len(),
{
    if messages.len() == 0 {
        Seq::empty()
    } else {
        messages.first() + pattern + delimited_bundle(messages.drop_first(), pattern)
    }
}

/// Where the messages that are not empty stand in a bundle that starts at
/// `base`.
pub open spec fn message_ranges(messages: Seq<Seq<u8>>, pattern_len: int, base: int) -> Seq<(int, int)>
    decreases messages.len(),
{
    if messages.len() == 0 {
        Seq::empty()
    } else {
        let end = base + messages.first().len();
        (if base < end {
            seq![(base, end)]
        } else {
            Seq::empty()
        }) + message_ranges(messages.drop_first(), pattern_len, end + pattern_len)
    }
}

/// The delimiter stands in the message followed by it only at its end.
pub open spec fn free_of(message: Seq<u8>, pattern: Seq<u8>) -> bool {
    forall|q: int| 0 <= q < message.len() ==> !#[trigger] matches_at(message + pattern, pattern, q)
}

/// A place where the pattern stands, with no such place between the start
/// of the search and it, is the first match.
pub proof fn lemma_first_match_is(data: Seq<u8>, pattern: Seq<u8>, from: int, at: int)
    requires
        0 <= from <= at,
        pattern.len() >= 1,
        matches_at(data, pattern, at),
        forall|i: int| from <= i < at ==> !#[trigger] matches_at(data, pattern, i),
    ensures
        first_match(data, pattern, from) == at,
    decreases at - from,
{
    if from < at {
        lemma_first_match_is(data, pattern, from + 1, at);
    }
}

/// A message that stands at `pos` before its delimiter is read in full:
/// the step goes on behind the delimiter, without failure or diagnostic,
/// and its data unit is the message unless it is empty.
proof fn lemma_delimiter_step_of(data: Seq<u8>, pos: int, message: Seq<u8>, pattern: Seq<u8>)
    requires
        0 <= pos,
        pattern.len() >= 1,
        free_of(message, pattern),
        pos + message.len() + pattern.len() <= data.len(),
        data.subrange(pos, pos + message.len() + pattern.len()) == message + pattern,
    ensures
        delimiter_step(data, pattern, pos).next == Some(pos + message.len() + pattern.len()),
        delimiter_step(data, pattern, pos).out.is_clean(),
        sdu_ranges(delimiter_step(data, pattern, pos).out.segments) == if message.len() > 0 {
            seq![(pos, pos + message.len())]
        } else {
            Seq::<(int, int)>::empty()
        },
{
    let own = message + pattern;
    let here = data.subrange(pos, pos + own.len());
    let found = pos + message.len();
    let next = found + pattern.len();
    assert forall|j: int| 0 <= j < own.len() implies data[pos + j] == own[j] by {
        assert(here[j] == data[pos + j]);
    }
    assert(matches_at(data, pattern, found)) by {
        assert(data.subrange(found, next) =~= pattern) by {
            assert forall|j: int| 0 <= j < pattern.len() implies data[found + j] == pattern[j] by {
                assert(data[pos + (message.len() + j)] == own[message.len() + j]);
            }
        }
    }
    assert forall|i: int| pos <= i < found implies !#[trigger] matches_at(data, pattern, i) by {
        if matches_at(data, pattern, i) {
            let q = i - pos;
            assert(own.subrange(q, q + pattern.len()) =~= pattern) by {
                assert forall|j: int| 0 <= j < pattern.len() implies own[q + j] == pattern[j] by {
                    assert(data[pos + (q + j)] == own[q + j]);
                    assert(data.subrange(i, i + pattern.len())[j] == data[i + j]);
                }
            }
            assert(matches_at(own, pattern, q));
        }
    }
    lemma_first_match_is(data, pattern, pos, found);
    let step = delimiter_step(data, pattern, pos);
    let sdu = seg(KindView::Sdu, pos, found);
    let boundary = seg(KindView::MessageBoundary, found, next);
    reveal_with_fuel(sdu_ranges, 3);
    if pos < found {
        assert(step.out.segments =~= seq![sdu, boundary]);
        assert(step.out.segments.drop_last() =~= seq![sdu]);
        assert(sdu_ranges(step.out.segments) =~= seq![(pos, found)]);
    } else {
        assert(step.out.segments =~= seq![boundary]);
        assert(sdu_ranges(step.out.segments) =~= Seq::<(int, int)>::empty());
    }
}

/// Delimiter framing gives back what was framed. Take any messages in
/// which, followed by the delimiter, the delimiter stands only at the end,
/// and let `data` hold their bundle from `pos` on: parsing from `pos`
/// yields no failure and no diagnostic, and its data units are the
/// messages that are not empty, each at its place.
pub proof fn lemma_delimiter_roundtrip_from(
    data: Seq<u8>,
    pos: int,
    messages: Seq<Seq<u8>>,
    pattern: Seq<u8>,
)
    requires
        0 <= pos <= data.len(),
        pattern.len() >= 1,
        data.subrange(pos, data.len() as int) == delimited_bundle(messages, pattern),
        forall|i: int| 0 <= i < messages.len() ==> free_of(#[trigger] messages[i], pattern),
    ensures
        delimiter_from(data, pattern, pos).is_clean(),
        sdu_ranges(delimiter_from(data, pattern, pos).segments) == message_ranges(
            messages,
            pattern.len() as int,
            pos,
        ),
    decreases messages.len(),
{
    let n = data.len() as int;
    if messages.len() == 0 {
        assert(data.subrange(pos, n).len() == 0);
        assert(sdu_ranges(Seq::<SegmentView>::empty()) =~= Seq::empty());
    } else {
        let first = messages.first();
        assert(first == messages[0]);
        let rest = messages.drop_first();
        let own = first + pattern;
        assert(delimited_bundle(messages, pattern) =~= own + delimited_bundle(rest, pattern));
        lemma_tail_split(data, pos, own, delimited_bundle(rest, pattern));
        lemma_delimiter_step_of(data, pos, first, pattern);
        let next = pos + own.len();
        assert forall|i: int| 0 <= i < rest.len() implies free_of(#[trigger] rest[i], pattern) by {
            assert(rest[i] == messages[i + 1]);
        }
        lemma_delimiter_roundtrip_from(data, next, rest, pattern);
        let step = delimiter_step(data, pattern, pos);
        let after = delimiter_from(data, pattern, next);
        assert(delimiter_from(data, pattern, pos) == step.out.followed_by(after));
        lemma_followed_by_clean(step.out, after);
        lemma_sdu_ranges_concat(step.out.segments, after.segments);
    }
}

/// Delimiter framing gives back what was framed: parsing the bundle of any
/// messages in which, followed by the delimiter, the delimiter stands only
/// at the end yields no failure and no diagnostic, and its data units are
/// the messages that are not empty, each at its place.
pub proof fn lemma_delimiter_roundtrip(messages: Seq<Seq<u8>>, pattern: Seq<u8>)
    requires
        pattern.len() >= 1,
        forall|i: int| 0 <= i < messages.len() ==> free_of(#[trigger] messages[i], pattern),
    ensures
        delimiter_parsed(delimited_bundle(messages, pattern), pattern).is_clean(),
        sdu_ranges(delimiter_parsed(delimited_bundle(messages, pattern), pattern).segments)
            == message_ranges(messages, pattern.len() as int, 0),
{
    let data = delimited_bundle(messages, pattern);
    assert(data.subrange(0, data.len() as int) =~= data);
    lemma_delimiter_roundtrip_from(data, 0, messages, pattern);
}

/// Where the pattern stands nowhere from `from` on, no match is found.
pub proof fn lemma_first_match_none(data: Seq<u8>, pattern: Seq<u8>, from: int)
    requires
        0 <= from,
        forall|i: int| from <= i ==> !#[trigger] matches_at(data, pattern, i),
    ensures
        first_match(data, pattern, from) == data.len(),
    decreases data.len() - from,
{
    if from < data.len() && from + pattern.len() <= data.len() {
        lemma_first_match_none(data, pattern, from + 1);
    }
}

/// The delimiter stands nowhere in `tail`.
pub open spec fn without(tail: Seq<u8>, pattern: Seq<u8>) -> bool {
    forall|q: int| !#[trigger] matches_at(tail, pattern, q)
}

/// Where the messages and the tail that are not empty stand in a bundle
/// that starts at `base`: every message before its delimiter, and the tail
/// behind the last delimiter.
pub open spec fn message_ranges_with_tail(
    messages: Seq<Seq<u8>>,
    pattern_len: int,
    tail_len: int,
    base: int,
) -> Seq<(int, int)>
    decreases messages.len(),
{
    if messages.len() == 0 {
        if tail_len > 0 {
            seq![(base, base + tail_len)]
        } else {
            Seq::empty()
        }
    } else {
        let end = base + messages.first().len();
        (if base < end {
            seq![(base, end)]
        } else {
            Seq::empty()
        }) + message_ranges_with_tail(messages.drop_first(), pattern_len, tail_len, end + pattern_len)
    }
}

/// The bytes of a bundle bind as they are read: the first message and its
/// delimiter, then the rest.
proof fn lemma_bundle_unfolds(messages: Seq<Seq<u8>>, pattern: Seq<u8>, tail: Seq<u8>)
    requires
        messages.len() > 0,
    ensures
        delimited_bundle(messages, pattern) + tail == (messages.first() + pattern) + (
        delimited_bundle(messages.drop_first(), pattern) + tail),
{
    assert(delimited_bundle(messages, pattern) + tail =~= (messages.first() + pattern) + (
    delimited_bundle(messages.drop_first(), pattern) + tail));
}

/// A tail without delimiter that stands at `pos` and runs to the end is
/// read as one data unit, unless it is empty.
proof fn lemma_delimiter_tail(data: Seq<u8>, pos: int, tail: Seq<u8>, pattern: Seq<u8>)
    requires
        0 <= pos <= data.len(),
        pattern.len() >= 1,
        data.subrange(pos, data.len() as int) == tail,
        without(tail, pattern),
    ensures
        delimiter_from(data, pattern, pos).is_clean(),
        sdu_ranges(delimiter_from(data, pattern, pos).segments) == if tail.len() > 0 {
            seq![(pos, pos + tail.len())]
        } else {
            Seq::<(int, int)>::empty()
        },
{
    let n = data.len() as int;
    if pos < n {
        assert forall|i: int| pos <= i implies !#[trigger] matches_at(data, pattern, i) by {
            if matches_at(data, pattern, i) {
                let q = i - pos;
                assert(tail.subrange(q, q + pattern.len()) =~= pattern) by {
                    assert forall|j: int| 0 <= j < pattern.len() implies tail[q + j] == pattern[j] by {
                        assert(tail[q + j] == data[pos + (q + j)]);
                        assert(data.subrange(i, i + pattern.len())[j] == data[i + j]);
                    }
                }
                assert(matches_at(tail, pattern, q));
            }
        }
        lemma_first_match_none(data, pattern, pos);
        let step = delimiter_step(data, pattern, pos);
        let sdu = seg(KindView::Sdu, pos, n);
        assert(step.out.segments =~= seq![sdu]);
        assert(step.next is None);
        assert(delimiter_from(data, pattern, pos) == step.out);
        reveal_with_fuel(sdu_ranges, 2);
        assert(step.out.segments.drop_last() =~= Seq::<SegmentView>::empty());
        assert(sdu_ranges(step.out.segments) =~= seq![(pos, n)]);
    } else {
        assert(sdu_ranges(Seq::<SegmentView>::empty()) =~= Seq::empty());
    }
}

/// Delimiter framing with a last message that no delimiter follows gives
/// back what was framed. Take any messages in which, followed by the
/// delimiter, the delimiter stands only at the end, and a tail in which it
/// stands nowhere, and let `data` hold the messages' bundle and then the
/// tail from `pos` on: parsing from `pos` yields no failure and no
/// diagnostic, and its data units are the messages and the tail that are
/// not empty, each at its place.
pub proof fn lemma_delimiter_tail_roundtrip_from(
    data: Seq<u8>,
    pos: int,
    messages: Seq<Seq<u8>>,
    tail: Seq<u8>,
    pattern: Seq<u8>,
)
    requires
        0 <= pos <= data.len(),
        pattern.len() >= 1,
        data.subrange(pos, data.len() as int) == delimited_bundle(messages, pattern) + tail,
        forall|i: int| 0 <= i < messages.len() ==> free_of(#[trigger] messages[i], pattern),
        without(tail, pattern),
    ensures
        delimiter_from(data, pattern, pos).is_clean(),
        sdu_ranges(delimiter_from(data, pattern, pos).segments) == message_ranges_with_tail(
            messages,
            pattern.len() as int,
            tail.len() as int,
            pos,
        ),
    decreases messages.len(),
{
    if messages.len() == 0 {
        assert(delimited_bundle(messages, pattern) + tail =~= tail);
        lemma_delimiter_tail(data, pos, tail, pattern);
    } else {
        let first = messages.first();
        assert(first == messages[0]);
        let rest = messages.drop_first();
        let own = first + pattern;
        lemma_bundle_unfolds(messages, pattern, tail);
        lemma_tail_split(data, pos, own, delimited_bundle(rest, pattern) + tail);
        lemma_delimiter_step_of(data, pos, first, pattern);
        let next = pos + own.len();
        assert forall|i: int| 0 <= i < rest.len() implies free_of(#[trigger] rest[i], pattern) by {
            assert(rest[i] == messages[i + 1]);
        }
        lemma_delimiter_tail_roundtrip_from(data, next, rest, tail, pattern);
        let step = delimiter_step(data, pattern, pos);
        let after = delimiter_from(data, pattern, next);
        assert(delimiter_from(data, pattern, pos) == step.out.followed_by(after));
        lemma_followed_by_clean(step.out, after);
        lemma_sdu_ranges_concat(step.out.segments, after.segments);
    }
}

/// Delimiter framing with a last message that no delimiter follows gives
/// back what was framed: parsing the bundle of any messages in which,
/// followed by the delimiter, the delimiter stands only at the end, and
/// then a tail in which it stands nowhere, yields no failure and no
/// diagnostic, and its data units are the messages and the tail that are
/// not empty, each at its place.
pub proof fn lemma_delimiter_tail_roundtrip(messages: Seq<Seq<u8>>, tail: Seq<u8>, pattern: Seq<u8>)
    requires
        pattern.len() >= 1,
        forall|i: int| 0 <= i < messages.len() ==> free_of(#[trigger] messages[i], pattern),
        without(tail, pattern),
    ensures
        delimiter_parsed(delimited_bundle(messages, pattern) + tail, pattern).is_clean(),
        sdu_ranges(delimiter_parsed(delimited_bundle(messages, pattern) + tail, pattern).segments)
            == message_ranges_with_tail(messages, pattern.len() as int, tail.len() as int, 0),
{
    let data = delimited_bundle(messages, pattern) + tail;
    assert(data.subrange(0, data.len() as int) =~= data);
    lemma_delimiter_tail_roundtrip_from(data, 0, messages, tail, pattern);
}

/// Whether the pattern stands at `at`.
fn pattern_at(data: &[u8], pattern: &[u8], at: usize) -> (yes: bool)
    requires
        at + pattern@.len() <= data@.len(),
    ensures
        yes == matches_at(data@, pattern@, at as int),
{
    let n = data.len();
    let mut k: usize = 0;
    while k < pattern.len()
        invariant
            k <= pattern@.len(),
            n == data@.len(),
            at + pattern@.len() <= data@.len(),
            forall|j: int| 0 <= j < k ==> data@[at + j] == pattern@[j],
        decreases pattern@.len() - k,
    {
        if data[at + k] != pattern[k] {
            assert(data@.subrange(at as int, at + pattern@.len())[k as int] != pattern@[k as int]);
            return false;
        }
        k += 1;
    }
    assert(data@.subrange(at as int, at + pattern@.len()) =~= pattern@);
    true
}

/// Finds the first place at or after `from` where the pattern stands.
fn find_pattern(data: &[u8], pattern: &[u8], from: usize) -> (at: usize)
    requires
        from <= data@.len(),
        pattern@.len() >= 1,
    ensures
        at == first_match(data@, pattern@, from as int),
{
    let n = data.len();
    let m = pattern.len();
    let mut at = from;
    while at <= n && m <= n - at
        invariant
            n == data@.len(),
            m == pattern@.len(),
            m >= 1,
            from <= at,
            first_match(data@, pattern@, from as int) == first_match(data@, pattern@, at as int),
        decreases n + 1 - at,
    {
        if pattern_at(data, pattern, at) {
            return at;
        }
        at += 1;
    }
    n
}

/// Parses one payload as a bundle of delimited messages.
pub fn parse_delimiter(data: &[u8], pattern: &[u8]) -> (parsed: ParsedPdu)
    requires
        pattern@.len() >= 1,
    ensures
        parsed@ == delimiter_parsed(data@, pattern@),
        parsed@.within(data@.len() as int),
{
    let n = data.len();
    let ghost whole = delimiter_parsed(data@, pattern@);
    let mut parsed = ParsedPdu::new(Vec::new());
    let mut pos: usize = 0;
    let mut done = false;
    assert(whole =~= parsed@.followed_by(whole));
    while pos < n && !done
        invariant
            pos <= n,
            n == data@.len(),
            pattern@.len() >= 1,
            whole == parsed@.followed_by(
                if done {
                    ParsedPduView::empty()
                } else {
                    delimiter_from(data@, pattern@, pos as int)
                },
            ),
        decreases
            n - pos + if done {
                0int
            } else {
                1int
            },
    {
        let ghost before = parsed@;
        let ghost step = delimiter_step(data@, pattern@, pos as int);
        proof {
            lemma_delimiter_step(data@, pattern@, pos as int);
            lemma_first_match(data@, pattern@, pos as int);
        }
        let found = find_pattern(data, pattern, pos);
        if found < n {
            if pos < found {
                parsed.push_segment(SegmentKind::Sdu, pos, found);
            }
            parsed.push_segment(SegmentKind::MessageBoundary, found, found + pattern.len());
            assert(parsed@ =~= before.followed_by(step.out));
            assert(whole =~= parsed@.followed_by(
                delimiter_from(data@, pattern@, found + pattern@.len()),
            ));
            pos = found + pattern.len();
        } else {
            parsed.push_segment(SegmentKind::Sdu, pos, n);
            assert(parsed@ =~= before.followed_by(step.out));
            done = true;
            assert(whole =~= parsed@.followed_by(ParsedPduView::empty()));
        }
    }
    assert(whole =~= parsed@);
    proof {
        lemma_delimiter_within(data@, pattern@, 0);
    }
    parsed
}

/// The parser of the delimiter family.
pub struct DelimiterParser;

impl Parser for DelimiterParser {
    open spec fn applies(&self, h: HypothesisView) -> bool {
        h is DelimiterBundle
    }

    open spec fn parsed(&self, data: Seq<u8>, h: HypothesisView) -> ParsedPduView {
        match h {
            HypothesisView::DelimiterBundle { pattern } => delimiter_parsed(data, pattern),
            _ => ParsedPduView::empty(),
        }
    }

    fn name(&self) -> (name: &'static str)
        ensures
            name@ == "DelimiterParser"@,
    {
        "DelimiterParser"
    }

    fn applicable(&self, h: &Hypothesis) -> (yes: bool) {
        match h {
            Hypothesis::DelimiterBundle { .. } => true,
            _ => false,
        }
    }

    fn parse_corpus(&self, corpus: &Corpus, h: &Hypothesis) -> (parsed: ParsedCorpus) {
        let mut parsed_pdus: Vec<ParsedPdu> = Vec::new();
        if let Hypothesis::DelimiterBundle { pattern } = h {
            let mut i: usize = 0;
            while i < corpus.items.len()
                invariant
                    i <= corpus.items@.len(),
                    corpus.wf(),
                    pattern@.len() >= 1,
                    parsed_pdus.deep_view().len() == i,
                    forall|j: int|
                        0 <= j < i ==> {
                            &&& #[trigger] parsed_pdus.deep_view()[j] == delimiter_parsed(
                                corpus.pdus()[j],
                                pattern@,
                            )
                            &&& parsed_pdus.deep_view()[j].within(corpus.pdus()[j].len() as int)
                        },
                decreases corpus.items@.len() - i,
            {
                let pdu = parse_delimiter(corpus.items[i].as_slice(), pattern.as_slice());
                let ghost before = parsed_pdus;
                parsed_pdus.push(pdu);
                proof {
                    lemma_deep_view_push(before, parsed_pdus, pdu);
                }
                i += 1;
            }
        } else {
            assert(parsed_pdus.deep_view() =~= Seq::empty());
        }
        ParsedCorpus::new(parsed_pdus)
    }
}

} // verus!
