//! What parsing yields: the segments and diagnostics of one payload, and
//! those of a whole corpus.

use crate::corpus::Corpus;
use crate::hypothesis::{Hypothesis, HypothesisView};
use crate::segment::{seg, Segment, SegmentKind, SegmentView};
use std::ops::Range;
use vstd::prelude::*;

verus! {

/// The segments of one payload and the diagnostics met on the way.
#[derive(Debug)]
pub struct ParsedPdu {
    pub segments: Vec<Segment>,
    pub exceptions: Vec<String>,
}

/// The mathematical value of a [`ParsedPdu`].
#[verifier::ext_equal]
pub struct ParsedPduView {
    pub segments: Seq<SegmentView>,
    pub exceptions: Seq<Seq<char>>,
}

impl ParsedPduView {
    /// Neither segments nor diagnostics.
    pub open spec fn empty() -> ParsedPduView {
        ParsedPduView { segments: Seq::empty(), exceptions: Seq::empty() }
    }

    /// `self` followed by `rest`.
    pub open spec fn followed_by(self, rest: ParsedPduView) -> ParsedPduView {
        ParsedPduView {
            segments: self.segments + rest.segments,
            exceptions: self.exceptions + rest.exceptions,
        }
    }

    /// No segment marks a failure.
    pub open spec fn is_success(self) -> bool {
        forall|i: int| 0 <= i < self.segments.len() ==> !((#[trigger] self.segments[i]).kind is Error)
    }

    /// No segment marks a failure and there is no diagnostic.
    pub open spec fn is_clean(self) -> bool {
        self.is_success() && self.exceptions.len() == 0
    }

    /// No segment ends before it starts.
    pub open spec fn ordered(self) -> bool {
        forall|i: int|
            0 <= i < self.segments.len() ==> (#[trigger] self.segments[i]).start
                <= self.segments[i].end
    }

    /// Every segment is well ordered and ends within `len` bytes.
    pub open spec fn within(self, len: int) -> bool {
        forall|i: int| 0 <= i < self.segments.len() ==> (#[trigger] self.segments[i]).within(len)
    }
}

/// One step of a parser that walks a payload: what the step emits, and
/// where the next step starts unless the parse ends here.
#[verifier::ext_equal]
pub struct Step {
    pub out: ParsedPduView,
    pub next: Option<int>,
}

impl Step {
    /// A step that emits `segments` and `exceptions` and ends the parse.
    pub open spec fn stop(segments: Seq<SegmentView>, exceptions: Seq<Seq<char>>) -> Step {
        Step { out: ParsedPduView { segments, exceptions }, next: None }
    }

    /// A step that emits `segments` and goes on at `next`.
    pub open spec fn advance(segments: Seq<SegmentView>, next: int) -> Step {
        Step { out: ParsedPduView { segments, exceptions: Seq::empty() }, next: Some(next) }
    }
}

/// The ranges of the service data units among `segments`, in order.
pub open spec fn sdu_ranges(segments: Seq<SegmentView>) -> Seq<(int, int)>
    decreases segments.len(),
{
    if segments.len() == 0 {
        Seq::empty()
    } else {
        let before = sdu_ranges(segments.drop_last());
        if segments.last().kind is Sdu {
            before.push((segments.last().start, segments.last().end))
        } else {
            before
        }
    }
}

impl View for ParsedPdu {
    type V = ParsedPduView;

    open spec fn view(&self) -> ParsedPduView {
        ParsedPduView {
            segments: self.segments.deep_view(),
            exceptions: self.exceptions.deep_view(),
        }
    }
}

impl DeepView for ParsedPdu {
    type V = ParsedPduView;

    open spec fn deep_view(&self) -> ParsedPduView {
        self@
    }
}

/// A copy of `segments`.
pub fn clone_segments(segments: &Vec<Segment>) -> (copy: Vec<Segment>)
    ensures
        copy.deep_view() == segments.deep_view(),
{
    let mut copy: Vec<Segment> = Vec::new();
    let mut i: usize = 0;
    while i < segments.len()
        invariant
            i <= segments.len(),
            copy.deep_view() == segments.deep_view().take(i as int),
        decreases segments.len() - i,
    {
        let ghost before = copy;
        let segment = segments[i].clone();
        copy.push(segment);
        proof {
            lemma_deep_view_push(before, copy, segment);
            assert(segments.deep_view().take(i as int).push(segments.deep_view()[i as int])
                =~= segments.deep_view().take(i + 1));
        }
        i += 1;
    }
    assert(segments.deep_view().take(i as int) =~= segments.deep_view());
    copy
}

/// A copy of `texts`.
pub fn clone_texts(texts: &Vec<String>) -> (copy: Vec<String>)
    ensures
        copy.deep_view() == texts.deep_view(),
{
    let mut copy: Vec<String> = Vec::new();
    let mut i: usize = 0;
    while i < texts.len()
        invariant
            i <= texts.len(),
            copy.deep_view() == texts.deep_view().take(i as int),
        decreases texts.len() - i,
    {
        let ghost before = copy;
        let text = texts[i].clone();
        copy.push(text);
        proof {
            lemma_deep_view_push(before, copy, text);
            assert(texts.deep_view().take(i as int).push(texts.deep_view()[i as int])
                =~= texts.deep_view().take(i + 1));
        }
        i += 1;
    }
    assert(texts.deep_view().take(i as int) =~= texts.deep_view());
    copy
}

impl Clone for ParsedPdu {
    fn clone(&self) -> (copy: Self)
        ensures
            copy@ == self@,
    {
        ParsedPdu {
            segments: clone_segments(&self.segments),
            exceptions: clone_texts(&self.exceptions),
        }
    }
}

impl ParsedPdu {
    /// The given segments, without diagnostics.
    pub fn new(segments: Vec<Segment>) -> (parsed: Self)
        ensures
            parsed@ == (ParsedPduView {
                segments: segments.deep_view(),
                exceptions: Seq::empty(),
            }),
    {
        let parsed = ParsedPdu { segments, exceptions: Vec::new() };
        assert(parsed.exceptions.deep_view() =~= Seq::empty());
        parsed
    }

    /// The same with `msg` as one more diagnostic.
    pub fn with_exception(self, msg: String) -> (parsed: Self)
        ensures
            parsed@ == (ParsedPduView {
                segments: self@.segments,
                exceptions: self@.exceptions.push(msg@),
            }),
    {
        let mut parsed = self;
        parsed.exceptions.push(msg);
        assert(parsed.exceptions.deep_view() =~= self.exceptions.deep_view().push(msg@));
        parsed
    }

    /// Appends a segment of `kind` over `[start, end)`.
    pub(crate) fn push_segment(&mut self, kind: SegmentKind, start: usize, end: usize)
        ensures
            final(self)@ == (ParsedPduView {
                segments: old(self)@.segments.push(seg(kind@, start as int, end as int)),
                exceptions: old(self)@.exceptions,
            }),
    {
        let ghost before = self.segments;
        let segment = Segment::new(kind, start..end);
        self.segments.push(segment);
        proof {
            lemma_deep_view_push(before, self.segments, segment);
        }
    }

    /// Appends a diagnostic.
    pub(crate) fn push_exception(&mut self, msg: String)
        ensures
            final(self)@ == (ParsedPduView {
                segments: old(self)@.segments,
                exceptions: old(self)@.exceptions.push(msg@),
            }),
    {
        let ghost before = self.exceptions;
        self.exceptions.push(msg);
        proof {
            lemma_deep_view_push(before, self.exceptions, msg);
        }
    }

    /// The ranges of the service data units, in order.
    pub fn sdus(&self) -> (ranges: Vec<Range<usize>>)
        ensures
            ranges@.len() == sdu_ranges(self@.segments).len(),
            forall|i: int|
                0 <= i < ranges@.len() ==> (#[trigger] ranges@[i].start as int, ranges@[i].end as int)
                    == sdu_ranges(self@.segments)[i],
    {
        let mut ranges: Vec<Range<usize>> = Vec::new();
        let mut i: usize = 0;
        while i < self.segments.len()
            invariant
                i <= self.segments.len(),
                ranges@.len() == sdu_ranges(self@.segments.take(i as int)).len(),
                forall|j: int|
                    0 <= j < ranges@.len() ==> (#[trigger] ranges@[j].start as int, ranges@[j].end as int)
                        == sdu_ranges(self@.segments.take(i as int))[j],
            decreases self.segments.len() - i,
        {
            proof {
                assert(self@.segments.take(i + 1).drop_last() =~= self@.segments.take(i as int));
            }
            match self.segments[i].kind {
                SegmentKind::Sdu => {
                    ranges.push(self.segments[i].range.start..self.segments[i].range.end);
                },
                _ => {},
            }
            i += 1;
        }
        assert(self@.segments.take(i as int) =~= self@.segments);
        ranges
    }

    /// Whether no segment marks a failure.
    pub fn is_success(&self) -> (ok: bool)
        ensures
            ok == self@.is_success(),
    {
        let mut i: usize = 0;
        while i < self.segments.len()
            invariant
                i <= self.segments.len(),
                forall|j: int| 0 <= j < i ==> !((#[trigger] self@.segments[j]).kind is Error),
            decreases self.segments.len() - i,
        {
            match self.segments[i].kind {
                SegmentKind::Error(_) => {
                    assert(self@.segments[i as int].kind is Error);
                    return false;
                },
                _ => {},
            }
            i += 1;
        }
        true
    }
}

/// The parsed payloads of a corpus, one per payload and in its order.
#[derive(Debug)]
pub struct ParsedCorpus {
    pub parsed_pdus: Vec<ParsedPdu>,
    pub diagnostics: Vec<String>,
}

/// The mathematical value of a [`ParsedCorpus`].
#[verifier::ext_equal]
pub struct ParsedCorpusView {
    pub pdus: Seq<ParsedPduView>,
    pub diagnostics: Seq<Seq<char>>,
}

/// The number of parsed payloads without a failure among `pdus`.
pub open spec fn success_count(pdus: Seq<ParsedPduView>) -> nat
    decreases pdus.len(),
{
    if pdus.len() == 0 {
        0
    } else {
        success_count(pdus.drop_last()) + if pdus.last().is_success() {
            1nat
        } else {
            0nat
        }
    }
}

impl ParsedCorpusView {
    /// One parsed payload per payload, each with its segments inside its
    /// payload.
    pub open spec fn fits(self, pdus: Seq<Seq<u8>>) -> bool {
        &&& self.pdus.len() == pdus.len()
        &&& forall|i: int| 0 <= i < pdus.len() ==> (#[trigger] self.pdus[i]).within(pdus[i].len() as int)
    }
}

impl View for ParsedCorpus {
    type V = ParsedCorpusView;

    open spec fn view(&self) -> ParsedCorpusView {
        ParsedCorpusView {
            pdus: self.parsed_pdus.deep_view(),
            diagnostics: self.diagnostics.deep_view(),
        }
    }
}

impl DeepView for ParsedCorpus {
    type V = ParsedCorpusView;

    open spec fn deep_view(&self) -> ParsedCorpusView {
        self@
    }
}

impl Clone for ParsedCorpus {
    fn clone(&self) -> (copy: Self)
        ensures
            copy@ == self@,
    {
        let mut parsed_pdus: Vec<ParsedPdu> = Vec::new();
        let mut i: usize = 0;
        while i < self.parsed_pdus.len()
            invariant
                i <= self.parsed_pdus.len(),
                parsed_pdus.deep_view() == self.parsed_pdus.deep_view().take(i as int),
            decreases self.parsed_pdus.len() - i,
        {
            let ghost before = parsed_pdus;
            let pdu = self.parsed_pdus[i].clone();
            parsed_pdus.push(pdu);
            proof {
                lemma_deep_view_push(before, parsed_pdus, pdu);
                assert(self.parsed_pdus.deep_view().take(i as int).push(
                    self.parsed_pdus.deep_view()[i as int],
                ) =~= self.parsed_pdus.deep_view().take(i + 1));
            }
            i += 1;
        }
        assert(self.parsed_pdus.deep_view().take(i as int) =~= self.parsed_pdus.deep_view());
        ParsedCorpus { parsed_pdus, diagnostics: clone_texts(&self.diagnostics) }
    }
}

impl ParsedCorpus {
    /// The given parsed payloads, without diagnostics.
    pub fn new(parsed_pdus: Vec<ParsedPdu>) -> (parsed: Self)
        ensures
            parsed@ == (ParsedCorpusView {
                pdus: parsed_pdus.deep_view(),
                diagnostics: Seq::empty(),
            }),
    {
        let parsed = ParsedCorpus { parsed_pdus, diagnostics: Vec::new() };
        assert(parsed.diagnostics.deep_view() =~= Seq::empty());
        parsed
    }

    /// Whether there is one parsed payload per payload of `corpus`, each
    /// with its segments inside its payload.
    pub fn fits_corpus(&self, corpus: &Corpus) -> (ok: bool)
        requires
            corpus.wf(),
        ensures
            ok == self@.fits(corpus.pdus()),
    {
        if self.parsed_pdus.len() != corpus.items.len() {
            return false;
        }
        let mut i: usize = 0;
        while i < self.parsed_pdus.len()
            invariant
                i <= self.parsed_pdus.len(),
                self.parsed_pdus.len() == corpus.items@.len(),
                corpus.wf(),
                forall|k: int|
                    0 <= k < i ==> (#[trigger] self@.pdus[k]).within(corpus.pdus()[k].len() as int),
            decreases self.parsed_pdus.len() - i,
        {
            let pdu = &self.parsed_pdus[i];
            let len = corpus.items[i].len();
            let mut j: usize = 0;
            while j < pdu.segments.len()
                invariant
                    j <= pdu.segments.len(),
                    i < self.parsed_pdus.len(),
                    self.parsed_pdus.len() == corpus.items@.len(),
                    pdu@ == self@.pdus[i as int],
                    len == corpus.pdus()[i as int].len(),
                    forall|k: int| 0 <= k < j ==> (#[trigger] pdu@.segments[k]).within(len as int),
                decreases pdu.segments.len() - j,
            {
                let segment = &pdu.segments[j];
                assert(pdu@.segments[j as int] == segment@);
                if segment.range.start > segment.range.end || segment.range.end > len {
                    assert(!pdu@.segments[j as int].within(len as int));
                    assert(pdu@ == self@.pdus[i as int]);
                    return false;
                }
                j += 1;
            }
            assert(pdu@ == self@.pdus[i as int]);
            i += 1;
        }
        true
    }

    /// The number of payloads parsed without a failure.
    pub fn success_count(&self) -> (n: usize)
        ensures
            n == success_count(self@.pdus),
            n <= self@.pdus.len(),
    {
        let mut n: usize = 0;
        let mut i: usize = 0;
        while i < self.parsed_pdus.len()
            invariant
                i <= self.parsed_pdus.len(),
                n <= i,
                n == success_count(self@.pdus.take(i as int)),
            decreases self.parsed_pdus.len() - i,
        {
            proof {
                assert(self@.pdus.take(i + 1).drop_last() =~= self@.pdus.take(i as int));
            }
            if self.parsed_pdus[i].is_success() {
                n += 1;
            }
            i += 1;
        }
        assert(self@.pdus.take(i as int) =~= self@.pdus);
        n
    }
}

/// A parser cuts every payload of a corpus into segments under a
/// hypothesis of a family that it reads. Parsing is a function of the
/// payload and the hypothesis alone, and no segment leaves its payload.
pub trait Parser: Send + Sync {
    /// Whether the parser reads hypotheses of this family.
    spec fn applies(&self, h: HypothesisView) -> bool;

    /// What parsing one payload yields.
    spec fn parsed(&self, data: Seq<u8>, h: HypothesisView) -> ParsedPduView;

    /// The parser's name.
    fn name(&self) -> &'static str;

    /// Whether the parser reads `h`.
    fn applicable(&self, h: &Hypothesis) -> (yes: bool)
        ensures
            yes == self.applies(h@),
    ;

    /// Parses every payload on its own. Under a hypothesis that the parser
    /// does not read, nothing is parsed.
    fn parse_corpus(&self, corpus: &Corpus, h: &Hypothesis) -> (parsed: ParsedCorpus)
        requires
            corpus.wf(),
            h@.wf(),
        ensures
            parsed@.diagnostics.len() == 0,
            parsed@.pdus.len() == if self.applies(h@) {
                corpus.items@.len()
            } else {
                0
            },
            forall|i: int|
                0 <= i < parsed@.pdus.len() ==> #[trigger] parsed@.pdus[i] == self.parsed(
                    corpus.pdus()[i],
                    h@,
                ),
            self.applies(h@) ==> parsed@.fits(corpus.pdus()),
    ;
}

/// Pushing onto a vector pushes the element's value onto the vector's value.
pub proof fn lemma_deep_view_push<T: DeepView>(before: Vec<T>, after: Vec<T>, last: T)
    requires
        after@ == before@.push(last),
    ensures
        after.deep_view() == before.deep_view().push(last.deep_view()),
{
    assert(after.deep_view() =~= before.deep_view().push(last.deep_view()));
}

/// Where two parses stay within `len` bytes, so does one followed by the
/// other.
pub proof fn lemma_followed_by_within(first: ParsedPduView, rest: ParsedPduView, len: int)
    requires
        first.within(len),
        rest.within(len),
    ensures
        first.followed_by(rest).within(len),
{
    let all = first.followed_by(rest);
    assert forall|i: int| 0 <= i < all.segments.len() implies (#[trigger] all.segments[i]).within(
        len,
    ) by {
        if i < first.segments.len() {
            assert(all.segments[i] == first.segments[i]);
        } else {
            assert(all.segments[i] == rest.segments[i - first.segments.len()]);
        }
    }
}

/// The data units of one run of segments followed by another are those of
/// the first followed by those of the second.
pub proof fn lemma_sdu_ranges_concat(first: Seq<SegmentView>, rest: Seq<SegmentView>)
    ensures
        sdu_ranges(first + rest) == sdu_ranges(first) + sdu_ranges(rest),
    decreases rest.len(),
{
    if rest.len() == 0 {
        assert(first + rest =~= first);
        assert(sdu_ranges(first) + sdu_ranges(rest) =~= sdu_ranges(first));
    } else {
        assert((first + rest).drop_last() =~= first + rest.drop_last());
        lemma_sdu_ranges_concat(first, rest.drop_last());
        assert(sdu_ranges(first + rest) =~= sdu_ranges(first) + sdu_ranges(rest));
    }
}

/// Where the bytes from `pos` on are `own` followed by `rest`, `own`
/// stands at `pos` and `rest` behind it.
pub proof fn lemma_tail_split(data: Seq<u8>, pos: int, own: Seq<u8>, rest: Seq<u8>)
    requires
        0 <= pos <= data.len(),
        data.subrange(pos, data.len() as int) == own + rest,
    ensures
        pos + own.len() + rest.len() == data.len(),
        data.subrange(pos, pos + own.len()) == own,
        data.subrange(pos + own.len(), data.len() as int) == rest,
{
    let n = data.len() as int;
    let tail = data.subrange(pos, n);
    assert(tail.len() == own.len() + rest.len());
    assert(data.subrange(pos, pos + own.len()) =~= own) by {
        assert forall|j: int| 0 <= j < own.len() implies data[pos + j] == own[j] by {
            assert(tail[j] == data[pos + j]);
            assert((own + rest)[j] == own[j]);
        }
    }
    assert(data.subrange(pos + own.len(), n) =~= rest) by {
        assert forall|j: int| 0 <= j < rest.len() implies data[pos + own.len() + j] == rest[j] by {
            assert(tail[own.len() + j] == data[pos + own.len() + j]);
            assert((own + rest)[own.len() + j] == rest[j]);
        }
    }
}

/// Segments of which none is a data unit hold no data unit.
pub proof fn lemma_sdu_ranges_none(segments: Seq<SegmentView>)
    requires
        forall|i: int| 0 <= i < segments.len() ==> !((#[trigger] segments[i]).kind is Sdu),
    ensures
        sdu_ranges(segments) == Seq::<(int, int)>::empty(),
    decreases segments.len(),
{
    if segments.len() > 0 {
        lemma_sdu_ranges_none(segments.drop_last());
    }
}

/// Where two parses are without failure and without diagnostic, so is one
/// followed by the other.
pub proof fn lemma_followed_by_clean(first: ParsedPduView, rest: ParsedPduView)
    requires
        first.is_clean(),
        rest.is_clean(),
    ensures
        first.followed_by(rest).is_clean(),
{
    let all = first.followed_by(rest);
    assert forall|i: int| 0 <= i < all.segments.len() implies !((#[trigger] all.segments[i]).kind
        is Error) by {
        if i < first.segments.len() {
            assert(all.segments[i] == first.segments[i]);
        } else {
            assert(all.segments[i] == rest.segments[i - first.segments.len()]);
        }
    }
}

/// Parsing is a function of the payloads and the hypothesis: two results
/// of one parser on the same payloads under the same hypothesis are the
/// same.
pub proof fn lemma_parse_deterministic<P: Parser>(
    parser: P,
    pdus: Seq<Seq<u8>>,
    h: HypothesisView,
    first: ParsedCorpusView,
    second: ParsedCorpusView,
)
    requires
        first.diagnostics.len() == 0,
        second.diagnostics.len() == 0,
        first.pdus.len() == if parser.applies(h) {
            pdus.len()
        } else {
            0
        },
        second.pdus.len() == first.pdus.len(),
        forall|i: int|
            0 <= i < first.pdus.len() ==> #[trigger] first.pdus[i] == parser.parsed(pdus[i], h),
        forall|i: int|
            0 <= i < second.pdus.len() ==> #[trigger] second.pdus[i] == parser.parsed(pdus[i], h),
    ensures
        first == second,
{
    assert(first.pdus =~= second.pdus);
    assert(first.diagnostics =~= second.diagnostics);
}

} // verus!
