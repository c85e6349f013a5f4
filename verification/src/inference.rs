//! The engine's decisions. At every depth the generators' proposals are
//! parsed and scored; the engine says whether a depth is entered, which
//! hypotheses are tried, which parser reads each, how the scored candidates
//! rank, whether the best one is adopted, and which payloads the next depth
//! gets. Costs are integers whose order is the order of the scores.

use crate::corpus::{share_buffer, total_len, Corpus, CorpusMeta, PduRef};
use crate::hypothesis::{Hypothesis, HypothesisView};
use crate::measures::deflated;
use crate::parser::{ParsedCorpus, ParsedPdu, ParsedPduView, Parser};
use crate::plugin::{HypothesisGenerator, PluginRegistry, Scorer};
use crate::plugins::scorers::{deflated_size, gather_raw};
use crate::score::all_bytes;
use crate::ranking::{
    is_ranking, is_selection, lemma_ranking_best, lemma_selection_unique, rank_top,
};
use crate::segment::{SegmentKind, SegmentView};
use std::ops::Range;
use vstd::prelude::*;
use vstd::string::StringExecFns;

verus! {

/// The proposals of all generators, generator after generator.
pub open spec fn all_proposals<G: HypothesisGenerator>(generators: Seq<G>, pdus: Seq<Seq<u8>>) -> Seq<
    HypothesisView,
>
    decreases generators.len(),
{
    if generators.len() == 0 {
        Seq::empty()
    } else {
        all_proposals(generators.drop_last(), pdus) + generators.last().proposed(pdus)
    }
}

/// The place of the first parser that reads `h`, if any does.
pub open spec fn first_applicable<P: Parser>(parsers: Seq<P>, h: HypothesisView) -> Option<int>
    decreases parsers.len(),
{
    if parsers.len() == 0 {
        None
    } else {
        match first_applicable(parsers.drop_last(), h) {
            Some(i) => Some(i),
            None => if parsers.last().applies(h) {
                Some(parsers.len() - 1)
            } else {
                None
            },
        }
    }
}

/// The sum of the lengths of the data units of at least `min` bytes among
/// `segments`.
pub open spec fn sdu_len(segments: Seq<SegmentView>, min: int) -> int
    decreases segments.len(),
{
    if segments.len() == 0 {
        0
    } else {
        sdu_len(segments.drop_last(), min) + if segments.last().kind is Sdu && segments.last().len()
            >= min {
            segments.last().len()
        } else {
            0
        }
    }
}

/// The sum of the lengths of the data units of at least `min` bytes of all
/// parsed payloads.
pub open spec fn sdu_total(parsed: Seq<ParsedPduView>, min: int) -> int
    decreases parsed.len(),
{
    if parsed.len() == 0 {
        0
    } else {
        sdu_total(parsed.drop_last(), min) + sdu_len(parsed.last().segments, min)
    }
}

/// The part `[start, end)` of the bytes that `pdu` selects, over the same
/// buffer.
pub open spec fn sub_pdu(pdu: PduRef, start: int, end: int) -> PduRef {
    PduRef {
        data: pdu.data,
        range: Range { start: (pdu.range.start + start) as usize, end: (pdu.range.start + end) as usize },
    }
}

/// The data units of at least `min` bytes among `segments`, as parts of
/// `pdu`.
pub open spec fn sdu_parts(pdu: PduRef, segments: Seq<SegmentView>, min: int) -> Seq<PduRef>
    decreases segments.len(),
{
    if segments.len() == 0 {
        Seq::empty()
    } else {
        sdu_parts(pdu, segments.drop_last(), min) + if segments.last().kind is Sdu
            && segments.last().len() >= min {
            seq![sub_pdu(pdu, segments.last().start, segments.last().end)]
        } else {
            Seq::empty()
        }
    }
}

/// The data units of at least `min` bytes of all parsed payloads, as parts
/// of their payloads, payload after payload.
pub open spec fn sdu_items(items: Seq<PduRef>, parsed: Seq<ParsedPduView>, min: int) -> Seq<PduRef>
    recommends
        items.len() == parsed.len(),
    decreases items.len(),
{
    if items.len() == 0 || parsed.len() == 0 {
        Seq::empty()
    } else {
        sdu_items(items.drop_last(), parsed.drop_last(), min) + sdu_parts(
            items.last(),
            parsed.last().segments,
            min,
        )
    }
}

/// The engine's settings.
#[derive(Debug, Clone, Copy, PartialEq, Eq)]
pub struct InferenceEngine {
    /// No depth beyond this one is entered.
    pub max_depth: usize,
    /// The number of candidates kept per depth.
    pub top_k: usize,
    /// The gain, in whole bits, that the best candidate must bring over the
    /// raw payloads.
    pub min_gain_epsilon: u64,
    /// The least length of a data unit that the next depth gets, and the
    /// least mean payload length of a corpus that is analysed.
    pub min_sdu_size: usize,
}

impl InferenceEngine {
    /// Six depths, ten candidates, a gain of a hundred bits, data units of
    /// four bytes.
    pub fn new() -> (engine: Self)
        ensures
            engine == (InferenceEngine {
                max_depth: 6,
                top_k: 10,
                min_gain_epsilon: 100,
                min_sdu_size: 4,
            }),
    {
        InferenceEngine { max_depth: 6, top_k: 10, min_gain_epsilon: 100, min_sdu_size: 4 }
    }

    /// The same engine with another depth limit.
    pub fn with_max_depth(self, depth: usize) -> (engine: Self)
        ensures
            engine == (InferenceEngine { max_depth: depth, ..self }),
    {
        InferenceEngine { max_depth: depth, ..self }
    }

    /// The same engine with another number of candidates kept.
    pub fn with_top_k(self, k: usize) -> (engine: Self)
        ensures
            engine == (InferenceEngine { top_k: k, ..self }),
    {
        InferenceEngine { top_k: k, ..self }
    }

    /// A depth is entered below the depth limit, on a corpus that is not
    /// empty and whose payloads have the least length on average.
    pub open spec fn enters(self, depth: int, items: Seq<PduRef>) -> bool {
        depth < self.max_depth && items.len() > 0 && total_len(items) >= self.min_sdu_size
            * items.len()
    }

    /// `next` is what the next depth gets after `parsed`, the parse of
    /// `corpus`: a well-formed corpus of every data unit of at least
    /// `min_sdu_size` bytes, as a part of its payload over the payload's own
    /// buffer, payload after payload, labelled after `corpus`; nothing
    /// where there is no such data unit.
    pub open spec fn is_next_corpus(self, corpus: Corpus, parsed: Seq<ParsedPduView>, next: Option<Corpus>) -> bool {
        match next {
            Some(sdus) => {
                &&& sdus.items@ == sdu_items(corpus.items@, parsed, self.min_sdu_size as int)
                &&& sdus.items@.len() > 0
                &&& sdus.wf()
                &&& sdus.meta.source@ == corpus.meta.source@ + "_sdu"@
                &&& sdus.meta.flow_id == corpus.meta.flow_id
            },
            None => sdu_items(corpus.items@, parsed, self.min_sdu_size as int).len() == 0,
        }
    }

    /// Whether depth `depth` is entered on `corpus`.
    pub fn enters_depth(&self, depth: usize, corpus: &Corpus) -> (yes: bool)
        requires
            corpus.wf(),
        ensures
            yes == self.enters(depth as int, corpus.items@),
    {
        if depth >= self.max_depth || corpus.items.len() == 0 {
            return false;
        }
        assert(self.min_sdu_size * corpus.items@.len() <= 0xffff_ffff_ffff_ffff
            * 0xffff_ffff_ffff_ffff) by (nonlinear_arith)
            requires
                self.min_sdu_size <= 0xffff_ffff_ffff_ffff,
                corpus.items@.len() <= 0xffff_ffff_ffff_ffff,
        ;
        let least: u128 = (self.min_sdu_size as u128) * (corpus.items.len() as u128);
        corpus.total_bytes() as u128 >= least
    }

    /// The proposals of all registered generators for `corpus`, generator
    /// after generator.
    pub fn propose_all<G: HypothesisGenerator, P: Parser, S: Scorer>(
        &self,
        corpus: &Corpus,
        registry: &PluginRegistry<G, P, S>,
    ) -> (hypotheses: Vec<Hypothesis>)
        requires
            corpus.wf(),
        ensures
            hypotheses.deep_view() == all_proposals(registry.generator_list(), corpus.pdus()),
            forall|i: int|
                0 <= i < hypotheses.deep_view().len() ==> (#[trigger] hypotheses.deep_view()[i]).wf(),
    {
        let generators = registry.generators();
        let mut hypotheses: Vec<Hypothesis> = Vec::new();
        let mut g: usize = 0;
        assert(generators@.take(0) =~= Seq::empty());
        assert(hypotheses.deep_view() =~= Seq::empty());
        while g < generators.len()
            invariant
                g <= generators@.len(),
                corpus.wf(),
                hypotheses.deep_view() == all_proposals(generators@.take(g as int), corpus.pdus()),
                forall|i: int|
                    0 <= i < hypotheses.deep_view().len() ==> (
                    #[trigger] hypotheses.deep_view()[i]).wf(),
            decreases generators@.len() - g,
        {
            let mut proposed = generators[g].propose(corpus);
            let ghost before = hypotheses.deep_view();
            let ghost added = proposed.deep_view();
            hypotheses.append(&mut proposed);
            proof {
                assert(hypotheses.deep_view() =~= before + added);
                assert(generators@.take(g + 1).drop_last() =~= generators@.take(g as int));
            }
            g += 1;
        }
        assert(generators@.take(g as int) =~= generators@);
        hypotheses
    }

    /// The place of the first registered parser that reads `h`.
    pub fn find_parser<G: HypothesisGenerator, P: Parser, S: Scorer>(
        &self,
        registry: &PluginRegistry<G, P, S>,
        h: &Hypothesis,
    ) -> (place: Option<usize>)
        ensures
            match place {
                Some(i) => first_applicable(registry.parser_list(), h@) == Some(i as int),
                None => first_applicable(registry.parser_list(), h@) is None,
            },
            place matches Some(i) ==> i < registry.parser_list().len() && registry.parser_list()[i as int].applies(
                h@,
            ),
    {
        let parsers = registry.parsers();
        let mut i: usize = 0;
        assert(parsers@.take(0) =~= Seq::empty());
        while i < parsers.len()
            invariant
                i <= parsers@.len(),
                parsers@ == registry.parser_list(),
                first_applicable(parsers@.take(i as int), h@) is None,
            decreases parsers@.len() - i,
        {
            proof {
                assert(parsers@.take(i + 1).drop_last() =~= parsers@.take(i as int));
            }
            if parsers[i].applicable(h) {
                proof {
                    lemma_first_applicable_prefix(parsers@, h@, i + 1);
                }
                return Some(i);
            }
            i += 1;
        }
        assert(parsers@.take(i as int) =~= parsers@);
        None
    }

    /// Parses `corpus` under `h` with the first registered parser that
    /// reads it; nothing where none does.
    pub fn parse_candidate<G: HypothesisGenerator, P: Parser, S: Scorer>(
        &self,
        corpus: &Corpus,
        registry: &PluginRegistry<G, P, S>,
        h: &Hypothesis,
    ) -> (parsed: Option<ParsedCorpus>)
        requires
            corpus.wf(),
            h@.wf(),
        ensures
            match first_applicable(registry.parser_list(), h@) {
                None => parsed is None,
                Some(i) => parsed matches Some(p) && {
                    &&& 0 <= i < registry.parser_list().len()
                    &&& p@.diagnostics.len() == 0
                    &&& p@.pdus.len() == corpus.items@.len()
                    &&& forall|k: int|
                        0 <= k < p@.pdus.len() ==> #[trigger] p@.pdus[k]
                            == registry.parser_list()[i].parsed(corpus.pdus()[k], h@)
                    &&& p@.fits(corpus.pdus())
                },
            },
    {
        match self.find_parser(registry, h) {
            None => None,
            Some(i) => Some(registry.parsers()[i].parse_corpus(corpus, h)),
        }
    }

    /// The bits of the raw payloads: eight per byte of their DEFLATE
    /// stream, or of the payloads themselves where no stream was had.
    pub fn baseline_bits(&self, compressed: Option<usize>, total_bytes: usize) -> (bits: u128)
        ensures
            bits == match compressed {
                Some(size) => 8 * size,
                None => 8 * total_bytes,
            },
            bits <= 8 * usize::MAX,
    {
        match compressed {
            Some(size) => 8 * (size as u128),
            None => 8 * (total_bytes as u128),
        }
    }

    /// The bits of the raw payloads of `corpus`.
    pub fn raw_bits(&self, corpus: &Corpus) -> (bits: u128)
        requires
            corpus.wf(),
        ensures
            bits == 8 * deflated(all_bytes(corpus.pdus())).len(),
            bits <= 8 * usize::MAX,
    {
        let raw = gather_raw(corpus);
        let compressed = deflated_size(raw.as_slice());
        self.baseline_bits(compressed, corpus.total_bytes())
    }

    /// The most that the best candidate may cost to be adopted, in whole
    /// bits: the bits of the raw payloads less the gain that is asked for.
    pub fn gain_ceiling(&self, raw_bits: u128) -> (ceiling: i128)
        requires
            raw_bits <= 8 * usize::MAX,
        ensures
            ceiling == raw_bits - self.min_gain_epsilon,
    {
        raw_bits as i128 - self.min_gain_epsilon as i128
    }

    /// Ranks the candidates by cost, the earlier first among equals, and
    /// keeps the best `top_k`.
    pub fn rank(&self, costs: &[u64]) -> (ranking: Vec<usize>)
        ensures
            is_ranking(costs@, costs@.len() as int, self.top_k as int, ranking@),
    {
        rank_top(costs, self.top_k)
    }

    /// Picks the candidates to keep and decides on the best of them: the
    /// ranking of the best `top_k`, unless there is no candidate to keep or
    /// the best one costs more than `ceiling`.
    pub fn select(&self, costs: &[u64], ceiling: u64) -> (kept: Option<Vec<usize>>)
        ensures
            is_selection(
                costs@,
                self.top_k as int,
                ceiling,
                match kept {
                    Some(ranking) => Some(ranking@),
                    None => None,
                },
            ),
    {
        let ranking = self.rank(costs);
        if ranking.len() == 0 {
            return None;
        }
        let best = ranking[0];
        if costs[best] > ceiling {
            proof {
                assert forall|i: int| 0 <= i < costs@.len() implies #[trigger] costs@[i] > ceiling by {
                    lemma_ranking_best(costs@, self.top_k as int, ranking@, i as usize);
                }
            }
            return None;
        }
        Some(ranking)
    }
}

impl InferenceEngine {
    /// The sum of the lengths of the data units that the next depth would
    /// get, unless it is beyond what can be counted.
    pub fn sdu_bytes(&self, parsed: &ParsedCorpus) -> (total: Option<usize>)
        requires
            forall|i: int| 0 <= i < parsed@.pdus.len() ==> (#[trigger] parsed@.pdus[i]).ordered(),
        ensures
            match total {
                Some(t) => t == sdu_total(parsed@.pdus, self.min_sdu_size as int),
                None => sdu_total(parsed@.pdus, self.min_sdu_size as int) > usize::MAX,
            },
    {
        let ghost min = self.min_sdu_size as int;
        let mut total: usize = 0;
        let mut i: usize = 0;
        assert(parsed@.pdus.take(0) =~= Seq::empty());
        while i < parsed.parsed_pdus.len()
            invariant
                i <= parsed.parsed_pdus.len(),
                min == self.min_sdu_size,
                forall|i: int| 0 <= i < parsed@.pdus.len() ==> (#[trigger] parsed@.pdus[i]).ordered(),
                total == sdu_total(parsed@.pdus.take(i as int), min),
            decreases parsed.parsed_pdus.len() - i,
        {
            let pdu = &parsed.parsed_pdus[i];
            proof {
                assert(parsed@.pdus.take(i + 1).drop_last() =~= parsed@.pdus.take(i as int));
                assert(pdu@ == parsed@.pdus[i as int]);
                lemma_sdu_total_prefix(parsed@.pdus, min, i + 1);
            }
            let mut j: usize = 0;
            let ghost start = total;
            assert(pdu@.segments.take(0) =~= Seq::empty());
            while j < pdu.segments.len()
                invariant
                    j <= pdu.segments.len(),
                    min == self.min_sdu_size,
                    pdu@.ordered(),
                    total == start + sdu_len(pdu@.segments.take(j as int), min),
                    start + sdu_len(pdu@.segments, min) <= sdu_total(parsed@.pdus, min),
                decreases pdu.segments.len() - j,
            {
                let segment = &pdu.segments[j];
                proof {
                    assert(pdu@.segments.take(j + 1).drop_last() =~= pdu@.segments.take(j as int));
                    assert(pdu@.segments[j as int] == segment@);
                    lemma_sdu_len_prefix(pdu@.segments, min, j + 1);
                }
                match segment.kind {
                    SegmentKind::Sdu => {
                        let len = segment.len();
                        if len >= self.min_sdu_size {
                            if len > usize::MAX - total {
                                return None;
                            }
                            total = total + len;
                        }
                    },
                    _ => {},
                }
                j += 1;
            }
            assert(pdu@.segments.take(j as int) =~= pdu@.segments);
            i += 1;
        }
        assert(parsed@.pdus.take(i as int) =~= parsed@.pdus);
        Some(total)
    }

    /// Appends the data units of one parsed payload, as parts of the
    /// payload, to `items`, and adds their lengths to `total`.
    fn push_sdu_parts(&self, pdu: &PduRef, parsed: &ParsedPdu, items: &mut Vec<PduRef>, total: usize) -> (sum:
        usize)
        requires
            pdu.wf(),
            parsed@.within(pdu@.len() as int),
            forall|i: int| 0 <= i < old(items)@.len() ==> (#[trigger] old(items)@[i]).wf(),
            total == total_len(old(items)@),
            total + sdu_len(parsed@.segments, self.min_sdu_size as int) <= usize::MAX,
        ensures
            final(items)@ == old(items)@ + sdu_parts(*pdu, parsed@.segments, self.min_sdu_size as int),
            forall|i: int| 0 <= i < final(items)@.len() ==> (#[trigger] final(items)@[i]).wf(),
            sum == total + sdu_len(parsed@.segments, self.min_sdu_size as int),
            sum == total_len(final(items)@),
    {
        let ghost min = self.min_sdu_size as int;
        let ghost before = items@;
        let mut sum = total;
        let mut j: usize = 0;
        assert(parsed@.segments.take(0) =~= Seq::empty());
        assert(items@ =~= before + sdu_parts(*pdu, parsed@.segments.take(0), min));
        while j < parsed.segments.len()
            invariant
                j <= parsed.segments.len(),
                min == self.min_sdu_size,
                pdu.wf(),
                parsed@.within(pdu@.len() as int),
                items@ == before + sdu_parts(*pdu, parsed@.segments.take(j as int), min),
                forall|i: int| 0 <= i < items@.len() ==> (#[trigger] items@[i]).wf(),
                sum == total + sdu_len(parsed@.segments.take(j as int), min),
                sum == total_len(items@),
                total + sdu_len(parsed@.segments, min) <= usize::MAX,
            decreases parsed.segments.len() - j,
        {
            let segment = &parsed.segments[j];
            proof {
                assert(parsed@.segments.take(j + 1).drop_last() =~= parsed@.segments.take(j as int));
                assert(parsed@.segments[j as int] == segment@);
                assert(segment@.within(pdu@.len() as int));
                lemma_sdu_len_prefix(parsed@.segments, min, j + 1);
            }
            let ghost sofar = items@;
            match segment.kind {
                SegmentKind::Sdu => {
                    let len = segment.len();
                    if len >= self.min_sdu_size {
                        let part = PduRef::new(
                            share_buffer(&pdu.data),
                            (pdu.range.start + segment.range.start)..(pdu.range.start
                                + segment.range.end),
                        );
                        assert(part == sub_pdu(*pdu, segment@.start, segment@.end));
                        items.push(part);
                        assert(items@.drop_last() =~= sofar);
                        sum = sum + len;
                    }
                },
                _ => {},
            }
            assert(items@ =~= before + sdu_parts(*pdu, parsed@.segments.take(j + 1), min));
            j += 1;
        }
        assert(parsed@.segments.take(j as int) =~= parsed@.segments);
        sum
    }

    /// The corpus of the next depth: every data unit of at least
    /// `min_sdu_size` bytes, as a part of its payload over the payload's own
    /// buffer, payload after payload; nothing where there is no such data
    /// unit.
    pub fn extract_sdu_corpus(&self, corpus: &Corpus, parsed: &ParsedCorpus) -> (next: Option<Corpus>)
        requires
            corpus.wf(),
            parsed@.fits(corpus.pdus()),
            sdu_total(parsed@.pdus, self.min_sdu_size as int) <= usize::MAX,
        ensures
            self.is_next_corpus(*corpus, parsed@.pdus, next),
    {
        let ghost min = self.min_sdu_size as int;
        let mut items: Vec<PduRef> = Vec::new();
        let mut total: usize = 0;
        let mut i: usize = 0;
        assert(corpus.items@.take(0) =~= Seq::empty());
        while i < corpus.items.len()
            invariant
                i <= corpus.items@.len(),
                min == self.min_sdu_size,
                corpus.wf(),
                parsed@.fits(corpus.pdus()),
                sdu_total(parsed@.pdus, min) <= usize::MAX,
                items@ == sdu_items(corpus.items@.take(i as int), parsed@.pdus.take(i as int), min),
                forall|k: int| 0 <= k < items@.len() ==> (#[trigger] items@[k]).wf(),
                total == sdu_total(parsed@.pdus.take(i as int), min),
                total == total_len(items@),
            decreases corpus.items@.len() - i,
        {
            proof {
                assert(corpus.items@.take(i + 1).drop_last() =~= corpus.items@.take(i as int));
                assert(parsed@.pdus.take(i + 1).drop_last() =~= parsed@.pdus.take(i as int));
                assert(parsed@.pdus[i as int].within(corpus.pdus()[i as int].len() as int));
                assert forall|k: int| 0 <= k < parsed@.pdus.len() implies (
                #[trigger] parsed@.pdus[k]).ordered() by {
                    assert(parsed@.pdus[k].within(corpus.pdus()[k].len() as int));
                }
                lemma_sdu_total_prefix(parsed@.pdus, min, i + 1);
            }
            total = self.push_sdu_parts(&corpus.items[i], &parsed.parsed_pdus[i], &mut items, total);
            i += 1;
        }
        assert(corpus.items@.take(i as int) =~= corpus.items@);
        assert(parsed@.pdus.take(i as int) =~= parsed@.pdus);
        if items.len() == 0 {
            return None;
        }
        let mut source = corpus.meta.source.clone();
        source.append("_sdu");
        let pdu_count = items.len();
        Some(
            Corpus::new(
                items,
                CorpusMeta { source, total_bytes: total, pdu_count, flow_id: corpus.meta.flow_id },
            ),
        )
    }
}

/// How a depth ends where a candidate is adopted: the candidates kept, best
/// first, and the corpus of the next depth.
#[derive(Debug)]
pub struct Adoption {
    pub ranking: Vec<usize>,
    pub sdu_corpus: Option<Corpus>,
}

impl InferenceEngine {
    /// Ends a depth. Of the candidates, given by their parses of `corpus`
    /// and their costs, the best `top_k` are kept and the best of them is
    /// adopted, unless there is no candidate to keep or the best one costs
    /// more than `ceiling`. The next depth gets the data units of the
    /// adopted candidate's parse.
    pub fn adopt(&self, corpus: &Corpus, parses: &[ParsedCorpus], costs: &[u64], ceiling: u64) -> (adopted:
        Option<Adoption>)
        requires
            corpus.wf(),
            parses@.len() == costs@.len(),
            forall|i: int| 0 <= i < parses@.len() ==> (#[trigger] parses@[i])@.fits(corpus.pdus()),
            forall|i: int|
                0 <= i < parses@.len() ==> sdu_total(
                    (#[trigger] parses@[i])@.pdus,
                    self.min_sdu_size as int,
                ) <= usize::MAX,
        ensures
            is_selection(
                costs@,
                self.top_k as int,
                ceiling,
                match adopted {
                    Some(adoption) => Some(adoption.ranking@),
                    None => None,
                },
            ),
            adopted matches Some(adoption) ==> self.is_next_corpus(
                *corpus,
                parses@[adoption.ranking@[0] as int]@.pdus,
                adoption.sdu_corpus,
            ),
    {
        match self.select(costs, ceiling) {
            None => None,
            Some(ranking) => {
                let best = ranking[0];
                let sdu_corpus = self.extract_sdu_corpus(corpus, &parses[best]);
                Some(Adoption { ranking, sdu_corpus })
            },
        }
    }
}

/// The data units of the first segments weigh no more than those of all.
pub proof fn lemma_sdu_len_prefix(segments: Seq<SegmentView>, min: int, n: int)
    requires
        0 <= n <= segments.len(),
        forall|i: int| 0 <= i < segments.len() ==> (#[trigger] segments[i]).start <= segments[i].end,
    ensures
        0 <= sdu_len(segments.take(n), min) <= sdu_len(segments, min),
    decreases segments.len() - n,
{
    lemma_sdu_len_nonnegative(segments.take(n), min);
    if n < segments.len() {
        assert(segments.take(n + 1).drop_last() =~= segments.take(n));
        lemma_sdu_len_prefix(segments, min, n + 1);
    } else {
        assert(segments.take(n) =~= segments);
    }
}

/// Data units have no negative weight.
pub proof fn lemma_sdu_len_nonnegative(segments: Seq<SegmentView>, min: int)
    requires
        forall|i: int| 0 <= i < segments.len() ==> (#[trigger] segments[i]).start <= segments[i].end,
    ensures
        0 <= sdu_len(segments, min),
    decreases segments.len(),
{
    if segments.len() > 0 {
        lemma_sdu_len_nonnegative(segments.drop_last(), min);
    }
}

/// The data units of the first parsed payloads weigh no more than those of
/// all.
pub proof fn lemma_sdu_total_prefix(parsed: Seq<ParsedPduView>, min: int, n: int)
    requires
        0 <= n <= parsed.len(),
        forall|i: int| 0 <= i < parsed.len() ==> (#[trigger] parsed[i]).ordered(),
    ensures
        0 <= sdu_total(parsed.take(n), min) <= sdu_total(parsed, min),
    decreases parsed.len() - n,
{
    lemma_sdu_total_nonnegative(parsed.take(n), min);
    if n < parsed.len() {
        assert(parsed.take(n + 1).drop_last() =~= parsed.take(n));
        assert(parsed[n].ordered());
        lemma_sdu_len_nonnegative(parsed[n].segments, min);
        lemma_sdu_total_prefix(parsed, min, n + 1);
    } else {
        assert(parsed.take(n) =~= parsed);
    }
}

/// Data units have no negative weight.
pub proof fn lemma_sdu_total_nonnegative(parsed: Seq<ParsedPduView>, min: int)
    requires
        forall|i: int| 0 <= i < parsed.len() ==> (#[trigger] parsed[i]).ordered(),
    ensures
        0 <= sdu_total(parsed, min),
    decreases parsed.len(),
{
    if parsed.len() > 0 {
        lemma_sdu_total_nonnegative(parsed.drop_last(), min);
        lemma_sdu_len_nonnegative(parsed.last().segments, min);
    }
}

impl Default for InferenceEngine {
    fn default() -> (engine: Self)
        ensures
            engine == (InferenceEngine {
                max_depth: 6,
                top_k: 10,
                min_gain_epsilon: 100,
                min_sdu_size: 4,
            }),
    {
        InferenceEngine::new()
    }
}

/// A part of a payload selects the bytes of the payload's range.
pub proof fn lemma_sub_pdu_view(pdu: PduRef, start: int, end: int)
    requires
        pdu.wf(),
        0 <= start <= end <= pdu@.len(),
    ensures
        sub_pdu(pdu, start, end).wf(),
        sub_pdu(pdu, start, end).data == pdu.data,
        sub_pdu(pdu, start, end)@ == pdu@.subrange(start, end),
{
    assert(sub_pdu(pdu, start, end)@ =~= pdu@.subrange(start, end));
}

/// Every data unit handed on by one payload lies on the payload's own
/// buffer and selects bytes that the payload selects.
pub proof fn lemma_sdu_parts_alias(pdu: PduRef, segments: Seq<SegmentView>, min: int)
    requires
        pdu.wf(),
        forall|j: int| 0 <= j < segments.len() ==> (#[trigger] segments[j]).within(pdu@.len() as int),
    ensures
        forall|k: int|
            0 <= k < sdu_parts(pdu, segments, min).len() ==> {
                &&& (#[trigger] sdu_parts(pdu, segments, min)[k]).data == pdu.data
                &&& pdu.range.start <= sdu_parts(pdu, segments, min)[k].range.start
                &&& sdu_parts(pdu, segments, min)[k].range.start <= sdu_parts(
                    pdu,
                    segments,
                    min,
                )[k].range.end
                &&& sdu_parts(pdu, segments, min)[k].range.end <= pdu.range.end
            },
    decreases segments.len(),
{
    if segments.len() > 0 {
        let all = sdu_parts(pdu, segments, min);
        let before = sdu_parts(pdu, segments.drop_last(), min);
        lemma_sdu_parts_alias(pdu, segments.drop_last(), min);
        assert(segments.last() == segments[segments.len() - 1]);
        assert(segments[segments.len() - 1].within(pdu@.len() as int));
        assert forall|k: int| 0 <= k < all.len() implies {
            &&& (#[trigger] all[k]).data == pdu.data
            &&& pdu.range.start <= all[k].range.start
            &&& all[k].range.start <= all[k].range.end
            &&& all[k].range.end <= pdu.range.end
        } by {
            if k < before.len() {
                assert(all[k] == before[k]);
            } else {
                assert(all[k] == sub_pdu(pdu, segments.last().start, segments.last().end));
            }
        }
    }
}

/// No copy is made for the next depth: every payload of the next corpus
/// lies on the buffer of a payload of this one and selects a part of what
/// that payload selects.
pub proof fn lemma_sdu_items_alias(items: Seq<PduRef>, parsed: Seq<ParsedPduView>, min: int)
    requires
        items.len() == parsed.len(),
        forall|i: int| 0 <= i < items.len() ==> (#[trigger] items[i]).wf(),
        forall|i: int| 0 <= i < items.len() ==> (#[trigger] parsed[i]).within(items[i]@.len() as int),
    ensures
        forall|k: int|
            0 <= k < sdu_items(items, parsed, min).len() ==> exists|i: int|
                {
                    &&& 0 <= i < items.len()
                    &&& (#[trigger] sdu_items(items, parsed, min)[k]).data == (#[trigger] items[i]).data
                    &&& items[i].range.start <= sdu_items(items, parsed, min)[k].range.start
                    &&& sdu_items(items, parsed, min)[k].range.start <= sdu_items(
                        items,
                        parsed,
                        min,
                    )[k].range.end
                    &&& sdu_items(items, parsed, min)[k].range.end <= items[i].range.end
                },
    decreases items.len(),
{
    if items.len() > 0 {
        let all = sdu_items(items, parsed, min);
        let before = sdu_items(items.drop_last(), parsed.drop_last(), min);
        let here = sdu_parts(items.last(), parsed.last().segments, min);
        lemma_sdu_items_alias(items.drop_last(), parsed.drop_last(), min);
        assert(parsed.last() == parsed[items.len() - 1]);
        assert(parsed[items.len() - 1].within(items[items.len() - 1]@.len() as int));
        lemma_sdu_parts_alias(items.last(), parsed.last().segments, min);
        assert forall|k: int| 0 <= k < all.len() implies exists|i: int|
            {
                &&& 0 <= i < items.len()
                &&& (#[trigger] all[k]).data == (#[trigger] items[i]).data
                &&& items[i].range.start <= all[k].range.start
                &&& all[k].range.start <= all[k].range.end
                &&& all[k].range.end <= items[i].range.end
            } by {
            if k < before.len() {
                assert(all[k] == before[k]);
                let i = choose|i: int|
                    {
                        &&& 0 <= i < items.drop_last().len()
                        &&& (#[trigger] before[k]).data == (#[trigger] items.drop_last()[i]).data
                        &&& items.drop_last()[i].range.start <= before[k].range.start
                        &&& before[k].range.start <= before[k].range.end
                        &&& before[k].range.end <= items.drop_last()[i].range.end
                    };
                assert(items.drop_last()[i] == items[i]);
            } else {
                assert(all[k] == here[k - before.len()]);
                assert(items.last() == items[items.len() - 1]);
            }
        }
    }
}

/// Payload `part` lies on the buffer of payload `whole` and selects a part
/// of what `whole` selects.
pub open spec fn lies_in(part: PduRef, whole: PduRef) -> bool {
    &&& part.data == whole.data
    &&& whole.range.start <= part.range.start
    &&& part.range.start <= part.range.end
    &&& part.range.end <= whole.range.end
}

/// Payload `part` lies in one of the payloads of `outer`.
pub open spec fn lies_in_one(part: PduRef, outer: Seq<PduRef>) -> bool {
    exists|i: int| 0 <= i < outer.len() && lies_in(part, #[trigger] outer[i])
}

/// Every payload of `inner` lies on the buffer of a payload of `outer` and
/// selects a part of what that payload selects.
pub open spec fn lies_within(inner: Seq<PduRef>, outer: Seq<PduRef>) -> bool {
    forall|k: int| 0 <= k < inner.len() ==> lies_in_one(#[trigger] inner[k], outer)
}

/// What the next depth gets lies within the corpus it was cut from.
pub proof fn lemma_next_corpus_within(
    engine: InferenceEngine,
    corpus: Corpus,
    parsed: Seq<ParsedPduView>,
    next: Corpus,
)
    requires
        corpus.wf(),
        parsed.len() == corpus.items@.len(),
        forall|i: int|
            0 <= i < parsed.len() ==> (#[trigger] parsed[i]).within(corpus.items@[i]@.len() as int),
        engine.is_next_corpus(corpus, parsed, Some(next)),
    ensures
        lies_within(next.items@, corpus.items@),
{
    let items = corpus.items@;
    let all = sdu_items(items, parsed, engine.min_sdu_size as int);
    lemma_sdu_items_alias(items, parsed, engine.min_sdu_size as int);
    assert forall|k: int| 0 <= k < all.len() implies lies_in_one(#[trigger] all[k], items) by {
        let i = choose|i: int|
            {
                &&& 0 <= i < items.len()
                &&& (#[trigger] all[k]).data == (#[trigger] items[i]).data
                &&& items[i].range.start <= all[k].range.start
                &&& all[k].range.start <= all[k].range.end
                &&& all[k].range.end <= items[i].range.end
            };
        assert(lies_in(all[k], items[i]));
    }
}

/// No copy is made over any number of depths: payloads that lie within
/// payloads that lie within a corpus lie within that corpus.
pub proof fn lemma_lies_within_chain(inner: Seq<PduRef>, middle: Seq<PduRef>, outer: Seq<PduRef>)
    requires
        lies_within(inner, middle),
        lies_within(middle, outer),
    ensures
        lies_within(inner, outer),
{
    assert forall|k: int| 0 <= k < inner.len() implies lies_in_one(#[trigger] inner[k], outer) by {
        assert(lies_in_one(inner[k], middle));
        let m = choose|m: int| 0 <= m < middle.len() && lies_in(inner[k], #[trigger] middle[m]);
        assert(lies_in_one(middle[m], outer));
        let i = choose|i: int| 0 <= i < outer.len() && lies_in(middle[m], #[trigger] outer[i]);
        assert(lies_in(inner[k], outer[i]));
    }
}

/// Every payload handed on by one payload is one of its data units of the
/// least length, over the payload's buffer with the range moved by the
/// payload's start, and selects the bytes of that data unit.
pub proof fn lemma_sdu_parts_bytes(pdu: PduRef, segments: Seq<SegmentView>, min: int)
    requires
        pdu.wf(),
        forall|j: int| 0 <= j < segments.len() ==> (#[trigger] segments[j]).within(pdu@.len() as int),
    ensures
        forall|k: int|
            0 <= k < sdu_parts(pdu, segments, min).len() ==> exists|j: int|
                {
                    &&& 0 <= j < segments.len()
                    &&& (#[trigger] segments[j]).kind is Sdu
                    &&& segments[j].len() >= min
                    &&& (#[trigger] sdu_parts(pdu, segments, min)[k]) == sub_pdu(
                        pdu,
                        segments[j].start,
                        segments[j].end,
                    )
                    &&& sdu_parts(pdu, segments, min)[k]@ == pdu@.subrange(
                        segments[j].start,
                        segments[j].end,
                    )
                },
    decreases segments.len(),
{
    if segments.len() > 0 {
        let all = sdu_parts(pdu, segments, min);
        let before = sdu_parts(pdu, segments.drop_last(), min);
        let last = segments.len() - 1;
        lemma_sdu_parts_bytes(pdu, segments.drop_last(), min);
        assert(segments.last() == segments[last]);
        assert(segments[last].within(pdu@.len() as int));
        assert forall|k: int| 0 <= k < all.len() implies exists|j: int|
            {
                &&& 0 <= j < segments.len()
                &&& (#[trigger] segments[j]).kind is Sdu
                &&& segments[j].len() >= min
                &&& (#[trigger] all[k]) == sub_pdu(pdu, segments[j].start, segments[j].end)
                &&& all[k]@ == pdu@.subrange(segments[j].start, segments[j].end)
            } by {
            if k < before.len() {
                assert(all[k] == before[k]);
                let j = choose|j: int|
                    {
                        &&& 0 <= j < segments.drop_last().len()
                        &&& (#[trigger] segments.drop_last()[j]).kind is Sdu
                        &&& segments.drop_last()[j].len() >= min
                        &&& (#[trigger] before[k]) == sub_pdu(
                            pdu,
                            segments.drop_last()[j].start,
                            segments.drop_last()[j].end,
                        )
                        &&& before[k]@ == pdu@.subrange(
                            segments.drop_last()[j].start,
                            segments.drop_last()[j].end,
                        )
                    };
                assert(segments.drop_last()[j] == segments[j]);
            } else {
                assert(all[k] == sub_pdu(pdu, segments[last].start, segments[last].end));
                lemma_sub_pdu_view(pdu, segments[last].start, segments[last].end);
            }
        }
    }
}

/// What the next depth gets is a function of the corpus and the adopted
/// parse: two such corpora hold the same payloads under the same label.
pub proof fn lemma_next_corpus_unique(
    engine: InferenceEngine,
    corpus: Corpus,
    parsed: Seq<ParsedPduView>,
    first: Option<Corpus>,
    second: Option<Corpus>,
)
    requires
        engine.is_next_corpus(corpus, parsed, first),
        engine.is_next_corpus(corpus, parsed, second),
    ensures
        first is Some <==> second is Some,
        first is Some ==> {
            &&& first->0.items@ == second->0.items@
            &&& first->0.meta.source@ == second->0.meta.source@
            &&& first->0.meta.total_bytes == second->0.meta.total_bytes
            &&& first->0.meta.pdu_count == second->0.meta.pdu_count
            &&& first->0.meta.flow_id == second->0.meta.flow_id
        },
{
}

/// The candidates that an adoption keeps, if there is one.
pub open spec fn kept_of(adopted: Option<Adoption>) -> Option<Seq<usize>> {
    match adopted {
        Some(adoption) => Some(adoption.ranking@),
        None => None,
    }
}

/// How a depth ends is a function of the corpus, the candidates' parses,
/// their costs and the ceiling: two ends of one depth keep the same
/// candidates in the same order and hand on the same payloads under the
/// same label.
pub proof fn lemma_adoption_unique(
    engine: InferenceEngine,
    corpus: Corpus,
    parses: Seq<Seq<ParsedPduView>>,
    costs: Seq<u64>,
    ceiling: u64,
    first: Option<Adoption>,
    second: Option<Adoption>,
)
    requires
        is_selection(costs, engine.top_k as int, ceiling, kept_of(first)),
        is_selection(costs, engine.top_k as int, ceiling, kept_of(second)),
        first matches Some(adoption) ==> engine.is_next_corpus(
            corpus,
            parses[adoption.ranking@[0] as int],
            adoption.sdu_corpus,
        ),
        second matches Some(adoption) ==> engine.is_next_corpus(
            corpus,
            parses[adoption.ranking@[0] as int],
            adoption.sdu_corpus,
        ),
    ensures
        first is Some <==> second is Some,
        first is Some ==> {
            &&& first->0.ranking@ == second->0.ranking@
            &&& first->0.sdu_corpus is Some <==> second->0.sdu_corpus is Some
            &&& first->0.sdu_corpus is Some ==> {
                &&& first->0.sdu_corpus->0.items@ == second->0.sdu_corpus->0.items@
                &&& first->0.sdu_corpus->0.meta.source@ == second->0.sdu_corpus->0.meta.source@
                &&& first->0.sdu_corpus->0.meta.total_bytes
                    == second->0.sdu_corpus->0.meta.total_bytes
                &&& first->0.sdu_corpus->0.meta.pdu_count == second->0.sdu_corpus->0.meta.pdu_count
                &&& first->0.sdu_corpus->0.meta.flow_id == second->0.sdu_corpus->0.meta.flow_id
            }
        },
{
    lemma_selection_unique(costs, engine.top_k as int, ceiling, kept_of(first), kept_of(second));
    if first is Some {
        let best = first->0.ranking@[0] as int;
        lemma_next_corpus_unique(
            engine,
            corpus,
            parses[best],
            first->0.sdu_corpus,
            second->0.sdu_corpus,
        );
    }
}

/// The first parser that reads `h` among a prefix that ends in one is the
/// first among all.
pub proof fn lemma_first_applicable_prefix<P: Parser>(parsers: Seq<P>, h: HypothesisView, n: int)
    requires
        1 <= n <= parsers.len(),
        first_applicable(parsers.take(n - 1), h) is None,
        parsers[n - 1].applies(h),
    ensures
        first_applicable(parsers, h) == Some(n - 1),
    decreases parsers.len() - n,
{
    assert(parsers.take(n).drop_last() =~= parsers.take(n - 1));
    assert(first_applicable(parsers.take(n), h) == Some(n - 1));
    lemma_first_applicable_extends(parsers, h, n);
}

/// A first parser found among a prefix stays the first among all.
pub proof fn lemma_first_applicable_extends<P: Parser>(parsers: Seq<P>, h: HypothesisView, n: int)
    requires
        0 <= n <= parsers.len(),
        first_applicable(parsers.take(n), h) is Some,
    ensures
        first_applicable(parsers, h) == first_applicable(parsers.take(n), h),
    decreases parsers.len() - n,
{
    if n < parsers.len() {
        assert(parsers.take(n + 1).drop_last() =~= parsers.take(n));
        lemma_first_applicable_extends(parsers, h, n + 1);
    } else {
        assert(parsers.take(n) =~= parsers);
    }
}

} // verus!
