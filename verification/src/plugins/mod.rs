//! The built-in plugins: a generator and a parser for each framing family,
//! and the registry that holds them all.

pub mod bitmap;
pub mod delimiter;
pub mod fixed_header;
pub mod generators;
pub mod length_prefix;
pub mod scorers;
pub mod tlv;
pub mod varint;

pub use bitmap::ExtensibleBitmapParser;
pub use delimiter::DelimiterParser;
pub use fixed_header::FixedHeaderParser;
pub use generators::{
    DelimiterGenerator, ExtensibleBitmapGenerator, FixedHeaderGenerator, LengthPrefixGenerator,
    TlvGenerator, VarintGenerator,
};
pub use length_prefix::LengthPrefixParser;
pub use scorers::MdlScorer;
pub use tlv::TlvParser;
pub use varint::VarintParser;

use crate::corpus::Corpus;
use crate::hypothesis::{Hypothesis, HypothesisView};
use crate::parser::{ParsedCorpus, ParsedPduView, Parser};
use crate::plugin::{HypothesisGenerator, PluginRegistry};
use vstd::prelude::*;

verus! {

/// One of the built-in generators.
pub enum BuiltinGenerator {
    LengthPrefix(LengthPrefixGenerator),
    Delimiter(DelimiterGenerator),
    FixedHeader(FixedHeaderGenerator),
    ExtensibleBitmap(ExtensibleBitmapGenerator),
    Tlv(TlvGenerator),
    Varint(VarintGenerator),
}

impl HypothesisGenerator for BuiltinGenerator {
    open spec fn proposed(&self, pdus: Seq<Seq<u8>>) -> Seq<HypothesisView> {
        match *self {
            BuiltinGenerator::LengthPrefix(g) => g.proposed(pdus),
            BuiltinGenerator::Delimiter(g) => g.proposed(pdus),
            BuiltinGenerator::FixedHeader(g) => g.proposed(pdus),
            BuiltinGenerator::ExtensibleBitmap(g) => g.proposed(pdus),
            BuiltinGenerator::Tlv(g) => g.proposed(pdus),
            BuiltinGenerator::Varint(g) => g.proposed(pdus),
        }
    }

    fn name(&self) -> (name: &'static str)
        ensures
            name@ == match *self {
                BuiltinGenerator::LengthPrefix(_) => "LengthPrefixGenerator"@,
                BuiltinGenerator::Delimiter(_) => "DelimiterGenerator"@,
                BuiltinGenerator::FixedHeader(_) => "FixedHeaderGenerator"@,
                BuiltinGenerator::ExtensibleBitmap(_) => "ExtensibleBitmapGenerator"@,
                BuiltinGenerator::Tlv(_) => "TlvGenerator"@,
                BuiltinGenerator::Varint(_) => "VarintGenerator"@,
            },
    {
        match self {
            BuiltinGenerator::LengthPrefix(g) => g.name(),
            BuiltinGenerator::Delimiter(g) => g.name(),
            BuiltinGenerator::FixedHeader(g) => g.name(),
            BuiltinGenerator::ExtensibleBitmap(g) => g.name(),
            BuiltinGenerator::Tlv(g) => g.name(),
            BuiltinGenerator::Varint(g) => g.name(),
        }
    }

    fn propose(&self, corpus: &Corpus) -> (hypotheses: Vec<Hypothesis>) {
        match self {
            BuiltinGenerator::LengthPrefix(g) => g.propose(corpus),
            BuiltinGenerator::Delimiter(g) => g.propose(corpus),
            BuiltinGenerator::FixedHeader(g) => g.propose(corpus),
            BuiltinGenerator::ExtensibleBitmap(g) => g.propose(corpus),
            BuiltinGenerator::Tlv(g) => g.propose(corpus),
            BuiltinGenerator::Varint(g) => g.propose(corpus),
        }
    }
}

/// One of the built-in parsers.
pub enum BuiltinParser {
    LengthPrefix(LengthPrefixParser),
    Delimiter(DelimiterParser),
    FixedHeader(FixedHeaderParser),
    ExtensibleBitmap(ExtensibleBitmapParser),
    Tlv(TlvParser),
    Varint(VarintParser),
}

impl Parser for BuiltinParser {
    open spec fn applies(&self, h: HypothesisView) -> bool {
        match *self {
            BuiltinParser::LengthPrefix(p) => p.applies(h),
            BuiltinParser::Delimiter(p) => p.applies(h),
            BuiltinParser::FixedHeader(p) => p.applies(h),
            BuiltinParser::ExtensibleBitmap(p) => p.applies(h),
            BuiltinParser::Tlv(p) => p.applies(h),
            BuiltinParser::Varint(p) => p.applies(h),
        }
    }

    open spec fn parsed(&self, data: Seq<u8>, h: HypothesisView) -> ParsedPduView {
        match *self {
            BuiltinParser::LengthPrefix(p) => p.parsed(data, h),
            BuiltinParser::Delimiter(p) => p.parsed(data, h),
            BuiltinParser::FixedHeader(p) => p.parsed(data, h),
            BuiltinParser::ExtensibleBitmap(p) => p.parsed(data, h),
            BuiltinParser::Tlv(p) => p.parsed(data, h),
            BuiltinParser::Varint(p) => p.parsed(data, h),
        }
    }

    fn name(&self) -> (name: &'static str)
        ensures
            name@ == match *self {
                BuiltinParser::LengthPrefix(_) => "LengthPrefixParser"@,
                BuiltinParser::Delimiter(_) => "DelimiterParser"@,
                BuiltinParser::FixedHeader(_) => "FixedHeaderParser"@,
                BuiltinParser::ExtensibleBitmap(_) => "ExtensibleBitmapParser"@,
                BuiltinParser::Tlv(_) => "TlvParser"@,
                BuiltinParser::Varint(_) => "VarintParser"@,
            },
    {
        match self {
            BuiltinParser::LengthPrefix(p) => p.name(),
            BuiltinParser::Delimiter(p) => p.name(),
            BuiltinParser::FixedHeader(p) => p.name(),
            BuiltinParser::ExtensibleBitmap(p) => p.name(),
            BuiltinParser::Tlv(p) => p.name(),
            BuiltinParser::Varint(p) => p.name(),
        }
    }

    fn applicable(&self, h: &Hypothesis) -> (yes: bool) {
        match self {
            BuiltinParser::LengthPrefix(p) => p.applicable(h),
            BuiltinParser::Delimiter(p) => p.applicable(h),
            BuiltinParser::FixedHeader(p) => p.applicable(h),
            BuiltinParser::ExtensibleBitmap(p) => p.applicable(h),
            BuiltinParser::Tlv(p) => p.applicable(h),
            BuiltinParser::Varint(p) => p.applicable(h),
        }
    }

    fn parse_corpus(&self, corpus: &Corpus, h: &Hypothesis) -> (parsed: ParsedCorpus) {
        match self {
            BuiltinParser::LengthPrefix(p) => p.parse_corpus(corpus, h),
            BuiltinParser::Delimiter(p) => p.parse_corpus(corpus, h),
            BuiltinParser::FixedHeader(p) => p.parse_corpus(corpus, h),
            BuiltinParser::ExtensibleBitmap(p) => p.parse_corpus(corpus, h),
            BuiltinParser::Tlv(p) => p.parse_corpus(corpus, h),
            BuiltinParser::Varint(p) => p.parse_corpus(corpus, h),
        }
    }
}

/// The built-in generators in their order: length prefix, delimiter, fixed
/// header, extensible bitmap, TLV, varint.
pub open spec fn default_generators() -> Seq<BuiltinGenerator> {
    seq![
        BuiltinGenerator::LengthPrefix(LengthPrefixGenerator),
        BuiltinGenerator::Delimiter(DelimiterGenerator),
        BuiltinGenerator::FixedHeader(FixedHeaderGenerator),
        BuiltinGenerator::ExtensibleBitmap(ExtensibleBitmapGenerator),
        BuiltinGenerator::Tlv(TlvGenerator),
        BuiltinGenerator::Varint(VarintGenerator),
    ]
}

/// The built-in parsers in their order: length prefix, delimiter, fixed
/// header, extensible bitmap, TLV, varint.
pub open spec fn default_parsers() -> Seq<BuiltinParser> {
    seq![
        BuiltinParser::LengthPrefix(LengthPrefixParser),
        BuiltinParser::Delimiter(DelimiterParser),
        BuiltinParser::FixedHeader(FixedHeaderParser),
        BuiltinParser::ExtensibleBitmap(ExtensibleBitmapParser),
        BuiltinParser::Tlv(TlvParser),
        BuiltinParser::Varint(VarintParser),
    ]
}

/// A registry with the built-in plugins: the six generators, the six
/// parsers and the scorer by description length.
pub fn create_default_registry() -> (registry: PluginRegistry<
    BuiltinGenerator,
    BuiltinParser,
    MdlScorer,
>)
    ensures
        registry.generator_list() == default_generators(),
        registry.parser_list() == default_parsers(),
        registry.scorer_list() == seq![MdlScorer { min_parse_success_percent: 95 }],
{
    let mut registry = PluginRegistry::new();
    registry.register_generator(BuiltinGenerator::LengthPrefix(LengthPrefixGenerator));
    registry.register_generator(BuiltinGenerator::Delimiter(DelimiterGenerator));
    registry.register_generator(BuiltinGenerator::FixedHeader(FixedHeaderGenerator));
    registry.register_generator(BuiltinGenerator::ExtensibleBitmap(ExtensibleBitmapGenerator));
    registry.register_generator(BuiltinGenerator::Tlv(TlvGenerator));
    registry.register_generator(BuiltinGenerator::Varint(VarintGenerator));
    registry.register_parser(BuiltinParser::LengthPrefix(LengthPrefixParser));
    registry.register_parser(BuiltinParser::Delimiter(DelimiterParser));
    registry.register_parser(BuiltinParser::FixedHeader(FixedHeaderParser));
    registry.register_parser(BuiltinParser::ExtensibleBitmap(ExtensibleBitmapParser));
    registry.register_parser(BuiltinParser::Tlv(TlvParser));
    registry.register_parser(BuiltinParser::Varint(VarintParser));
    registry.register_scorer(MdlScorer::new());
    assert(registry.generator_list() =~= default_generators());
    assert(registry.parser_list() =~= default_parsers());
    assert(registry.scorer_list() =~= seq![MdlScorer { min_parse_success_percent: 95 }]);
    registry
}

impl Default for PluginRegistry<BuiltinGenerator, BuiltinParser, MdlScorer> {
    /// The registry with the built-in plugins.
    fn default() -> (registry: Self)
        ensures
            registry.generator_list() == default_generators(),
            registry.parser_list() == default_parsers(),
            registry.scorer_list() == seq![MdlScorer { min_parse_success_percent: 95 }],
    {
        create_default_registry()
    }
}

} // verus!
