//! The plugin roles and the registry that holds the plugins in the order
//! of their registration.

use crate::corpus::Corpus;
use crate::hypothesis::{Hypothesis, HypothesisView};
use crate::parser::{ParsedCorpus, Parser};
use crate::score::Assessment;
use vstd::prelude::*;

verus! {

/// A generator proposes hypotheses for a corpus. What it proposes is a
/// function of the payloads alone, and every proposal keeps the limits of
/// its family.
pub trait HypothesisGenerator: Send + Sync {
    /// The proposals for the given payloads, in order.
    spec fn proposed(&self, pdus: Seq<Seq<u8>>) -> Seq<HypothesisView>;

    /// The generator's name.
    fn name(&self) -> &'static str;

    /// Proposes hypotheses for `corpus`.
    fn propose(&self, corpus: &Corpus) -> (hypotheses: Vec<Hypothesis>)
        requires
            corpus.wf(),
        ensures
            hypotheses.deep_view() == self.proposed(corpus.pdus()),
            forall|i: int|
                0 <= i < hypotheses.deep_view().len() ==> (#[trigger] hypotheses.deep_view()[i]).wf(),
    ;
}

/// A scorer says what the score of a parsed corpus under a hypothesis is
/// computed from, or that the hypothesis is rejected.
pub trait Scorer: Send + Sync {
    /// The scorer's name.
    fn name(&self) -> &'static str;

    /// Screens and measures `parsed`, the parse of `corpus` under `h`.
    fn score(&self, corpus: &Corpus, parsed: &ParsedCorpus, h: &Hypothesis) -> (found: Assessment)
        requires
            corpus.wf(),
            parsed@.fits(corpus.pdus()),
    ;
}

/// The generators, parsers and scorers at work, each kind in the order of
/// registration.
pub struct PluginRegistry<G: HypothesisGenerator, P: Parser, S: Scorer> {
    generators: Vec<G>,
    parsers: Vec<P>,
    scorers: Vec<S>,
}

impl<G: HypothesisGenerator, P: Parser, S: Scorer> PluginRegistry<G, P, S> {
    /// The registered generators, first registered first.
    pub closed spec fn generator_list(&self) -> Seq<G> {
        self.generators@
    }

    /// The registered parsers, first registered first.
    pub closed spec fn parser_list(&self) -> Seq<P> {
        self.parsers@
    }

    /// The registered scorers, first registered first.
    pub closed spec fn scorer_list(&self) -> Seq<S> {
        self.scorers@
    }

    /// A registry without plugins.
    pub fn new() -> (registry: Self)
        ensures
            registry.generator_list() == Seq::<G>::empty(),
            registry.parser_list() == Seq::<P>::empty(),
            registry.scorer_list() == Seq::<S>::empty(),
    {
        PluginRegistry { generators: Vec::new(), parsers: Vec::new(), scorers: Vec::new() }
    }

    /// Registers a generator behind those already there.
    pub fn register_generator(&mut self, generator: G)
        ensures
            final(self).generator_list() == old(self).generator_list().push(generator),
            final(self).parser_list() == old(self).parser_list(),
            final(self).scorer_list() == old(self).scorer_list(),
    {
        self.generators.push(generator);
    }

    /// Registers a parser behind those already there.
    pub fn register_parser(&mut self, parser: P)
        ensures
            final(self).parser_list() == old(self).parser_list().push(parser),
            final(self).generator_list() == old(self).generator_list(),
            final(self).scorer_list() == old(self).scorer_list(),
    {
        self.parsers.push(parser);
    }

    /// Registers a scorer behind those already there.
    pub fn register_scorer(&mut self, scorer: S)
        ensures
            final(self).scorer_list() == old(self).scorer_list().push(scorer),
            final(self).generator_list() == old(self).generator_list(),
            final(self).parser_list() == old(self).parser_list(),
    {
        self.scorers.push(scorer);
    }

    /// The registered generators, first registered first.
    pub fn generators(&self) -> (list: &[G])
        ensures
            list@ == self.generator_list(),
    {
        self.generators.as_slice()
    }

    /// The registered parsers, first registered first.
    pub fn parsers(&self) -> (list: &[P])
        ensures
            list@ == self.parser_list(),
    {
        self.parsers.as_slice()
    }

    /// The registered scorers, first registered first.
    pub fn scorers(&self) -> (list: &[S])
        ensures
            list@ == self.scorer_list(),
    {
        self.scorers.as_slice()
    }
}

} // verus!
