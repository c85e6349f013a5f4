use protocol_infer_core::corpus::{Corpus, CorpusMeta, PduRef};
use protocol_infer_core::hypothesis::{Endianness, Hypothesis, LengthWidth, TlvLenRule};
use protocol_infer_core::inference::InferenceEngine;
use protocol_infer_core::measures::byte_histogram;
use protocol_infer_core::parser::ParsedCorpus;
use protocol_infer_core::plugin::{PluginRegistry, Scorer};
use protocol_infer_core::score::{Assessment, Measurements, ModelBits};
use protocol_infer_core::plugins::{
    create_default_registry, BuiltinGenerator, BuiltinParser, MdlScorer,
};
use protocol_infer_core::segment::SegmentKind;
use std::sync::Arc;

fn create_test_corpus(data: Vec<Vec<u8>>) -> Corpus {
    let items: Vec<PduRef> = data
        .into_iter()
        .map(|bytes| {
            let len = bytes.len();
            PduRef::new(Arc::from(bytes), 0..len)
        })
        .collect();
    let pdu_count = items.len();
    let total_bytes: usize = items.iter().map(|p| p.len()).sum();
    Corpus::new(
        items,
        CorpusMeta { source: "test".to_string(), total_bytes, pdu_count, flow_id: None },
    )
}

#[derive(Debug, Clone, PartialEq)]
struct ScoreBreakdown {
    mdl_model_bits: f64,
    mdl_data_bits: f64,
    parse_success_ratio: f64,
    alignment_gain_bits: f64,
    entropy_drop_bits: f64,
    penalties_bits: f64,
}

impl ScoreBreakdown {
    fn total_bits(&self) -> f64 {
        self.mdl_model_bits + self.mdl_data_bits - self.alignment_gain_bits - self.entropy_drop_bits
            + self.penalties_bits
    }
}

#[derive(Debug, Clone, PartialEq)]
struct Score {
    breakdown: ScoreBreakdown,
    total_bits: f64,
}

impl Score {
    fn new(breakdown: ScoreBreakdown) -> Self {
        let total_bits = breakdown.total_bits();
        Score { breakdown, total_bits }
    }
}

fn entropy(data: &[u8]) -> f64 {
    if data.is_empty() {
        return 0.0;
    }
    let len = data.len() as f64;
    byte_histogram(data)
        .iter()
        .filter(|&&count| count > 0)
        .map(|&count| {
            let p = count as f64 / len;
            -p * p.log2()
        })
        .sum()
}

fn encode_bits(data: &[u8], deflated: Option<usize>) -> f64 {
    if data.is_empty() {
        return 0.0;
    }
    let by_entropy = entropy(data) * data.len() as f64;
    match deflated {
        Some(size) => by_entropy.min(size as f64 * 8.0),
        None => by_entropy,
    }
}

fn base_model_bits(model: &ModelBits) -> f64 {
    model.constant as f64
        + match model.log2_twice_of {
            Some(n) => (n as f64).log2() * 2.0,
            None => 0.0,
        }
}

fn rejected(parse_success_ratio: f64) -> Score {
    Score::new(ScoreBreakdown {
        mdl_model_bits: f64::INFINITY,
        mdl_data_bits: f64::INFINITY,
        parse_success_ratio,
        alignment_gain_bits: 0.0,
        entropy_drop_bits: 0.0,
        penalties_bits: f64::INFINITY,
    })
}

fn measured(m: &Measurements) -> Score {
    let pci_bits = encode_bits(&m.pci, m.pci_deflated);
    let field_bits = encode_bits(&m.fields, m.fields_deflated);
    let sdu_bits = encode_bits(&m.sdu, m.sdu_deflated);
    let mdl_model_bits = base_model_bits(&m.model) + pci_bits + field_bits;
    let mdl_data_bits = if m.sdu.is_empty() { m.total_bytes as f64 * 8.0 } else { sdu_bits };
    let raw_bits = match m.raw_deflated {
        Some(size) => size as f64 * 8.0,
        None => entropy(&m.raw) * m.raw.len() as f64,
    };
    let entropy_drop_bits = if m.raw.is_empty() {
        0.0
    } else {
        (raw_bits - (pci_bits + field_bits + sdu_bits)).max(0.0)
    };
    let mut penalties_bits = 0.0;
    let avg_segments = m.segment_count as f64 / m.pdu_count.max(1) as f64;
    if avg_segments > 10.0 {
        penalties_bits += (avg_segments - 10.0) * 8.0;
    }
    penalties_bits += m.exception_count as f64 * 16.0;
    penalties_bits += m.small_segment_count as f64 * 4.0;
    Score::new(ScoreBreakdown {
        mdl_model_bits,
        mdl_data_bits,
        parse_success_ratio: m.success_count as f64 / m.pdu_count as f64,
        alignment_gain_bits: 0.0,
        entropy_drop_bits,
        penalties_bits,
    })
}

fn score(found: &Assessment) -> Score {
    match found {
        Assessment::Overflow => rejected(0.0),
        Assessment::LowSuccess { success_count, pdu_count } => rejected(if *pdu_count == 0 {
            0.0
        } else {
            *success_count as f64 / *pdu_count as f64
        }),
        Assessment::Measured(m) => measured(m),
    }
}

fn order_key(bits: f64) -> u64 {
    if bits.is_nan() {
        return u64::MAX;
    }
    let raw = (bits + 0.0).to_bits();
    if raw >> 63 == 1 {
        !raw
    } else {
        raw | (1u64 << 63)
    }
}

struct Layer {
    hypothesis: Hypothesis,
    score: Score,
    parsed: ParsedCorpus,
    sdu_corpus: Option<Corpus>,
    all_hypotheses: Vec<(Hypothesis, Score)>,
    raw_bits: f64,
}

fn infer(
    engine: &InferenceEngine,
    corpus: &Corpus,
    registry: &PluginRegistry<BuiltinGenerator, BuiltinParser, MdlScorer>,
) -> Vec<Layer> {
    let scorer = match registry.scorers().first() {
        Some(scorer) => scorer,
        None => return Vec::new(),
    };
    let mut layers = Vec::new();
    let mut current = corpus.clone();
    let mut depth = 0;
    loop {
        assert!(current.is_well_formed());
        if !engine.enters_depth(depth, &current) {
            break;
        }
        let hypotheses = engine.propose_all(&current, registry);
        let mut scored: Vec<(Hypothesis, Score, ParsedCorpus)> = Vec::new();
        for h in hypotheses {
            assert!(h.is_valid());
            if let Some(parsed) = engine.parse_candidate(&current, registry, &h) {
                let found = scorer.score(&current, &parsed, &h);
                scored.push((h, score(&found), parsed));
            }
        }
        let costs: Vec<u64> = scored.iter().map(|s| order_key(s.1.total_bits)).collect();
        let raw_bits = engine.raw_bits(&current) as f64;
        let ceiling = order_key(engine.gain_ceiling(engine.raw_bits(&current)) as f64);
        let parses: Vec<ParsedCorpus> = scored.iter().map(|s| s.2.clone()).collect();
        for parsed in &parses {
            assert!(parsed.fits_corpus(&current));
            let total = engine.sdu_bytes(parsed).expect("data units fit");
            assert!(total <= current.total_bytes());
        }
        let (ranking, sdu_corpus) = match engine.adopt(&current, &parses, &costs, ceiling) {
            Some(adoption) => (adoption.ranking, adoption.sdu_corpus),
            None => break,
        };
        assert_eq!(engine.select(&costs, ceiling), Some(ranking.clone()));
        let best = &scored[ranking[0]];
        layers.push(Layer {
            hypothesis: best.0.clone(),
            score: best.1.clone(),
            parsed: best.2.clone(),
            sdu_corpus: sdu_corpus.clone(),
            all_hypotheses: ranking
                .iter()
                .map(|&i| (scored[i].0.clone(), scored[i].1.clone()))
                .collect(),
            raw_bits,
        });
        match sdu_corpus {
            Some(next) => current = next,
            None => break,
        }
        depth += 1;
    }
    layers
}

fn describe(layers: &[Layer]) -> Vec<(Hypothesis, u64, Vec<(Hypothesis, u64)>)> {
    layers
        .iter()
        .map(|l| {
            (
                l.hypothesis.clone(),
                l.score.total_bits.to_bits(),
                l.all_hypotheses.iter().map(|(h, s)| (h.clone(), s.total_bits.to_bits())).collect(),
            )
        })
        .collect()
}

fn noise(seed: u32, count: usize, len: usize) -> Vec<Vec<u8>> {
    let mut state = seed;
    let mut data = Vec::new();
    for _ in 0..count {
        let mut pdu = Vec::new();
        for _ in 0..len {
            state = state.wrapping_mul(1664525).wrapping_add(1013904223);
            pdu.push((state >> 24) as u8);
        }
        data.push(pdu);
    }
    data
}

fn headed(count: usize) -> Vec<Vec<u8>> {
    let mut data = Vec::new();
    for (n, body) in noise(7, count, 24).into_iter().enumerate() {
        let mut pdu = vec![0xC0u8, 0xDE, 0x00, (n % 3) as u8];
        pdu.extend_from_slice(&body);
        data.push(pdu);
    }
    data
}

fn length_prefixed(count: usize) -> Vec<Vec<u8>> {
    let mut data = Vec::new();
    for i in 0..count {
        let payload: Vec<u8> = vec![i as u8; 10 + i];
        let len = payload.len() as u16;
        let mut pdu = len.to_le_bytes().to_vec();
        pdu.extend_from_slice(&payload);
        data.push(pdu);
    }
    data
}

#[test]
fn engine_settings() {
    let engine = InferenceEngine::new();
    assert_eq!(engine.max_depth, 6);
    assert_eq!(engine.top_k, 10);
    assert_eq!(engine.min_gain_epsilon, 100);
    assert_eq!(engine.min_sdu_size, 4);
    assert_eq!(InferenceEngine::default(), engine);
    let changed = engine.with_max_depth(3).with_top_k(5);
    assert_eq!(
        changed,
        InferenceEngine { max_depth: 3, top_k: 5, min_gain_epsilon: 100, min_sdu_size: 4 }
    );
}

#[test]
fn a_depth_is_entered_on_payloads_of_mean_length() {
    let engine = InferenceEngine::new().with_max_depth(2);
    let corpus = create_test_corpus(vec![vec![0; 3], vec![0; 5]]);
    assert!(engine.enters_depth(0, &corpus));
    assert!(engine.enters_depth(1, &corpus));
    assert!(!engine.enters_depth(2, &corpus));
    let short = create_test_corpus(vec![vec![0; 3], vec![0; 4]]);
    assert!(!engine.enters_depth(0, &short));
    let empty = create_test_corpus(vec![]);
    assert!(!engine.enters_depth(0, &empty));
    assert!(!InferenceEngine::new().with_max_depth(0).enters_depth(0, &corpus));
}

#[test]
fn proposals_come_generator_after_generator() {
    let engine = InferenceEngine::new();
    let registry = create_default_registry();
    let corpus = create_test_corpus(vec![vec![0u8; 6], vec![0u8; 9]]);
    let proposed = engine.propose_all(&corpus, &registry);
    assert_eq!(proposed.len(), 30 + 4 + 5 + 80 + 108 + 3);
    assert_eq!(proposed[0].name(), "LengthPrefixBundle");
    assert_eq!(proposed[29].name(), "LengthPrefixBundle");
    assert_eq!(proposed[30], Hypothesis::DelimiterBundle { pattern: vec![0, 0] });
    assert_eq!(proposed[34], Hypothesis::FixedHeader { len: 2 });
    assert_eq!(proposed[38], Hypothesis::FixedHeader { len: 6 });
    assert_eq!(proposed[39].name(), "ExtensibleBitmap");
    assert_eq!(proposed[119].name(), "TLV");
    assert_eq!(proposed[227].name(), "VarintKeyWireType");
    assert_eq!(
        proposed[229],
        Hypothesis::VarintKeyWireType { key_max_bytes: 10, allow_embedded: false }
    );
    assert!(engine.propose_all(&create_test_corpus(vec![]), &registry).is_empty());
    let none: PluginRegistry<BuiltinGenerator, BuiltinParser, MdlScorer> = PluginRegistry::new();
    assert!(engine.propose_all(&corpus, &none).is_empty());
}

#[test]
fn the_first_parser_that_reads_a_hypothesis_parses() {
    let engine = InferenceEngine::new();
    let registry = create_default_registry();
    let corpus = create_test_corpus(vec![vec![1, 2, 3, 4, 5]]);
    let h = Hypothesis::FixedHeader { len: 2 };
    assert_eq!(engine.find_parser(&registry, &h), Some(2));
    let tlv = Hypothesis::Tlv {
        tag_offset: 0,
        tag_bytes: 1,
        len_offset: 1,
        len_rule: TlvLenRule::DefiniteShort,
        length_includes_header: false,
    };
    assert_eq!(engine.find_parser(&registry, &tlv), Some(4));
    let parsed = engine.parse_candidate(&corpus, &registry, &h).expect("a parser reads it");
    assert_eq!(parsed.parsed_pdus.len(), 1);
    assert_eq!(parsed.parsed_pdus[0].segments[0].kind, SegmentKind::Pci);
    assert_eq!(parsed.parsed_pdus[0].segments[1].range, 2..5);

    let mut only_tlv: PluginRegistry<BuiltinGenerator, BuiltinParser, MdlScorer> = PluginRegistry::new();
    only_tlv.register_parser(BuiltinParser::Tlv(protocol_infer_core::plugins::TlvParser));
    assert_eq!(engine.find_parser(&only_tlv, &h), None);
    assert!(engine.parse_candidate(&corpus, &only_tlv, &h).is_none());
    assert_eq!(engine.find_parser(&only_tlv, &tlv), Some(0));
}

#[test]
fn ranking_is_by_cost_and_stable() {
    let engine = InferenceEngine::new().with_top_k(4);
    assert_eq!(engine.rank(&[50, 10, 30, 10, 70, 30, 10]), vec![1, 3, 6, 2]);
    assert_eq!(engine.rank(&[3, 2, 1]), vec![2, 1, 0]);
    assert_eq!(engine.rank(&[5, 5, 5, 5, 5, 5]), vec![0, 1, 2, 3]);
    assert_eq!(engine.rank(&[]), Vec::<usize>::new());
    assert_eq!(engine.rank(&[u64::MAX, 0]), vec![1, 0]);
    assert_eq!(InferenceEngine::new().with_top_k(0).rank(&[1, 2]), Vec::<usize>::new());
    assert_eq!(InferenceEngine::new().with_top_k(1).rank(&[9, 4, 4]), vec![1]);
    let many: Vec<u64> = (0..100u64).map(|i| (i * 37) % 11).collect();
    let ranking = InferenceEngine::new().rank(&many);
    let mut by_sort: Vec<usize> = (0..100).collect();
    by_sort.sort_by_key(|&i| many[i]);
    by_sort.truncate(10);
    assert_eq!(ranking, by_sort);
}

#[test]
fn the_best_candidate_is_adopted_within_the_ceiling() {
    let engine = InferenceEngine::new().with_top_k(2);
    assert_eq!(engine.select(&[40, 20, 30], 20), Some(vec![1, 2]));
    assert_eq!(engine.select(&[40, 20, 30], 19), None);
    assert_eq!(engine.select(&[40, 20, 30], u64::MAX), Some(vec![1, 2]));
    assert_eq!(engine.select(&[], u64::MAX), None);
    assert_eq!(engine.with_top_k(0).select(&[1], u64::MAX), None);
    assert_eq!(engine.select(&[u64::MAX], u64::MAX), Some(vec![0]));
}

#[test]
fn raw_payloads_cost_eight_bits_per_compressed_byte() {
    let engine = InferenceEngine::new();
    assert_eq!(engine.baseline_bits(Some(41), 165), 328);
    assert_eq!(engine.baseline_bits(None, 165), 1320);
    assert_eq!(engine.baseline_bits(Some(0), 0), 0);
    assert_eq!(engine.baseline_bits(Some(usize::MAX), 1), 8 * (usize::MAX as u128));
    let corpus = create_test_corpus(vec![vec![7u8; 500], vec![7u8; 500]]);
    let all = vec![7u8; 1000];
    let compressed = protocol_infer_core::measures::compressed_size(&all).expect("encoder works");
    assert_eq!(engine.raw_bits(&corpus), 8 * compressed as u128);
    assert!(compressed < 100);
    assert_eq!(engine.gain_ceiling(328), 228);
    assert_eq!(engine.gain_ceiling(40), -60);
    assert_eq!(InferenceEngine { min_gain_epsilon: 0, ..engine }.gain_ceiling(0), 0);
    assert_eq!(
        InferenceEngine { min_gain_epsilon: u64::MAX, ..engine }.gain_ceiling(0),
        -(u64::MAX as i128)
    );
}

#[test]
fn data_units_become_the_next_corpus_without_a_copy() {
    let engine = InferenceEngine::new();
    let registry = create_default_registry();
    let mut first = vec![9u8, 9, 6];
    first.extend_from_slice(&[1, 2, 3, 4, 5, 6]);
    first.push(2);
    first.extend_from_slice(&[7, 8]);
    first.push(4);
    first.extend_from_slice(&[9, 10, 11, 12]);
    let buffer: Arc<[u8]> = Arc::from(first);
    let second: Arc<[u8]> = Arc::from(vec![5u8, 21, 22, 23, 24, 25]);
    let corpus = Corpus::new(
        vec![PduRef::new(buffer.clone(), 2..17), PduRef::new(second.clone(), 0..6)],
        CorpusMeta { source: "flow_Some(1)".to_string(), total_bytes: 21, pdu_count: 2, flow_id: Some(1) },
    );
    assert!(corpus.is_well_formed());
    let h = Hypothesis::LengthPrefixBundle {
        offset: 0,
        width: LengthWidth::One,
        endian: Endianness::Big,
        includes_header: false,
    };
    let parsed = engine.parse_candidate(&corpus, &registry, &h).expect("a parser reads it");
    assert_eq!(parsed.parsed_pdus[0].sdus(), vec![1..7, 8..10, 11..15]);
    assert_eq!(engine.sdu_bytes(&parsed), Some(6 + 4 + 5));
    let next = engine.extract_sdu_corpus(&corpus, &parsed).expect("there are data units");
    assert_eq!(next.len(), 3);
    assert_eq!(next.meta.source, "flow_Some(1)_sdu");
    assert_eq!(next.meta.flow_id, Some(1));
    assert_eq!(next.meta.pdu_count, 3);
    assert_eq!(next.total_bytes(), 15);
    assert!(next.is_well_formed());
    assert!(Arc::ptr_eq(&next.items[0].data, &buffer));
    assert!(Arc::ptr_eq(&next.items[1].data, &buffer));
    assert!(Arc::ptr_eq(&next.items[2].data, &second));
    assert_eq!(next.items[0].range, 3..9);
    assert_eq!(next.items[1].range, 13..17);
    assert_eq!(next.items[2].range, 1..6);
    assert_eq!(next.items[0].as_slice(), &[1, 2, 3, 4, 5, 6]);
    assert_eq!(next.items[1].as_slice(), &[9, 10, 11, 12]);
    assert_eq!(next.items[2].as_slice(), &[21, 22, 23, 24, 25]);

    let deeper = engine
        .parse_candidate(&next, &registry, &Hypothesis::FixedHeader { len: 1 })
        .expect("a parser reads it");
    let last = engine.with_top_k(1);
    let third = last.extract_sdu_corpus(&next, &deeper).expect("there are data units");
    assert_eq!(third.meta.source, "flow_Some(1)_sdu_sdu");
    assert_eq!(third.len(), 2);
    assert!(Arc::ptr_eq(&third.items[0].data, &buffer));
    assert_eq!(third.items[0].range, 4..9);
    assert_eq!(third.items[0].as_slice(), &[2, 3, 4, 5, 6]);
    assert!(Arc::ptr_eq(&third.items[1].data, &second));
    assert_eq!(third.items[1].range, 2..6);

    let small = create_test_corpus(vec![vec![3, 1, 2, 3]]);
    let parsed = engine.parse_candidate(&small, &registry, &h).expect("a parser reads it");
    assert_eq!(engine.sdu_bytes(&parsed), Some(0));
    assert!(engine.extract_sdu_corpus(&small, &parsed).is_none());
}

#[test]
fn rejected_hypotheses_score_infinite_bits() {
    let scorer = MdlScorer::new();
    let engine = InferenceEngine::new();
    let registry = create_default_registry();
    let corpus = create_test_corpus(vec![vec![200u8, 1, 2, 3]; 4]);
    let overrun = Hypothesis::LengthPrefixBundle {
        offset: 0,
        width: LengthWidth::One,
        endian: Endianness::Big,
        includes_header: false,
    };
    let parsed = engine.parse_candidate(&corpus, &registry, &overrun).expect("a parser reads it");
    let found = scorer.score(&corpus, &parsed, &overrun);
    let s = score(&found);
    assert_eq!(s.total_bits, f64::INFINITY);
    assert_eq!(s.breakdown.parse_success_ratio, 0.0);
    assert_eq!(order_key(s.total_bits), 0xFFF0_0000_0000_0000);

    let too_short = Hypothesis::FixedHeader { len: 5 };
    let parsed = engine.parse_candidate(&corpus, &registry, &too_short).expect("a parser reads it");
    let found = scorer.score(&corpus, &parsed, &too_short);
    let s = score(&found);
    assert_eq!(s.total_bits, f64::INFINITY);
    assert_eq!(s.breakdown.parse_success_ratio, 0.0);
    assert!(s.breakdown.parse_success_ratio < 0.95);
}

#[test]
fn score_totals_add_up() {
    let scorer = MdlScorer::new();
    let engine = InferenceEngine::new();
    let registry = create_default_registry();
    let corpus = create_test_corpus(headed(20));
    for h in engine.propose_all(&corpus, &registry) {
        let parsed = engine.parse_candidate(&corpus, &registry, &h).expect("a parser reads it");
        let s = score(&scorer.score(&corpus, &parsed, &h));
        let b = &s.breakdown;
        let expected = b.mdl_model_bits + b.mdl_data_bits - b.alignment_gain_bits
            - b.entropy_drop_bits
            + b.penalties_bits;
        if expected.is_finite() {
            assert!((s.total_bits - expected).abs() <= 1e-9 * expected.abs());
        } else {
            assert_eq!(s.total_bits, expected);
        }
        if b.parse_success_ratio < 0.95 {
            assert_eq!(s.total_bits, f64::INFINITY);
        }
        if parsed
            .parsed_pdus
            .iter()
            .any(|p| p.exceptions.iter().any(|e| e.contains("extends beyond PDU")))
        {
            assert_eq!(s.total_bits, f64::INFINITY);
        }
    }
}

#[test]
fn order_keys_keep_the_order_of_scores() {
    let values = [
        f64::NEG_INFINITY,
        -1.0e300,
        -4826.3,
        -1.0,
        -1.0e-300,
        0.0,
        1.0e-300,
        8.2149912200411,
        10.0,
        276.43856189774726,
        1.0e300,
        f64::INFINITY,
    ];
    for pair in values.windows(2) {
        assert!(order_key(pair[0]) < order_key(pair[1]));
    }
    assert_eq!(order_key(-0.0), order_key(0.0));
    assert_eq!(order_key(f64::NAN), u64::MAX);
}

#[test]
fn two_runs_give_the_same_layers() {
    let registry = create_default_registry();
    let engine = InferenceEngine::new();
    let corpus = create_test_corpus(headed(40));
    let first = infer(&engine, &corpus, &registry);
    let second = infer(&engine, &corpus, &registry);
    assert!(!first.is_empty());
    assert_eq!(describe(&first), describe(&second));
    for (a, b) in first.iter().zip(second.iter()) {
        assert_eq!(a.parsed.parsed_pdus.len(), b.parsed.parsed_pdus.len());
        for (p, q) in a.parsed.parsed_pdus.iter().zip(b.parsed.parsed_pdus.iter()) {
            assert_eq!(p.exceptions, q.exceptions);
            assert_eq!(p.sdus(), q.sdus());
            assert_eq!(p.segments.len(), q.segments.len());
        }
        match (&a.sdu_corpus, &b.sdu_corpus) {
            (Some(x), Some(y)) => {
                assert_eq!(x.len(), y.len());
                for (i, j) in x.items.iter().zip(y.items.iter()) {
                    assert_eq!(i.range, j.range);
                    assert!(Arc::ptr_eq(&i.data, &j.data));
                }
            }
            (None, None) => {}
            _ => panic!("one run handed data units on and the other did not"),
        }
    }
}

#[test]
fn every_adopted_layer_brings_the_gain() {
    let registry = create_default_registry();
    let engine = InferenceEngine::new();
    for data in [headed(40), noise(3, 50, 64), length_prefixed(5), length_prefixed(60)] {
        let corpus = create_test_corpus(data);
        let layers = infer(&engine, &corpus, &registry);
        assert!(layers.len() <= engine.max_depth);
        for layer in &layers {
            assert!(layer.raw_bits - layer.score.total_bits >= engine.min_gain_epsilon as f64);
            assert!(layer.score.breakdown.parse_success_ratio >= 0.95);
            assert!(layer.all_hypotheses.len() <= engine.top_k);
            assert_eq!(layer.all_hypotheses[0].0, layer.hypothesis);
            for pair in layer.all_hypotheses.windows(2) {
                assert!(pair[0].1.total_bits <= pair[1].1.total_bits);
            }
            if let Some(next) = &layer.sdu_corpus {
                assert!(!next.is_empty());
                for item in &next.items {
                    assert!(item.len() >= engine.min_sdu_size);
                    assert!(corpus.items.iter().any(|p| Arc::ptr_eq(&p.data, &item.data)));
                }
            }
        }
    }
}

#[test]
fn no_layer_is_adopted_below_the_gain() {
    let registry = create_default_registry();
    let corpus = create_test_corpus(length_prefixed(10));
    let strict = InferenceEngine::new().with_max_depth(3);
    assert!(infer(&strict, &corpus, &registry).is_empty());
    let lenient = InferenceEngine { min_gain_epsilon: 0, ..strict };
    let layers = infer(&lenient, &corpus, &registry);
    assert!(!layers.is_empty());
    assert!(layers[0].score.breakdown.parse_success_ratio >= 0.95);
    assert!(infer(&strict.with_max_depth(0), &corpus, &registry).is_empty());
    assert!(infer(&strict, &create_test_corpus(vec![]), &registry).is_empty());
    assert!(infer(&strict, &create_test_corpus(vec![vec![1, 2, 3]; 5]), &registry).is_empty());
}

#[test]
fn the_named_hypotheses_are_proposed_and_parse_every_payload() {
    let registry = create_default_registry();
    let engine = InferenceEngine::new();
    let scorer = MdlScorer::new();
    let mut fixed = Vec::new();
    let mut tlv = Vec::new();
    for i in 0..5u8 {
        let mut pdu = vec![1u8, 2, 3, 4];
        pdu.extend_from_slice(&[i; 20]);
        fixed.push(pdu);
        let mut pdu = vec![1u8, 10];
        pdu.extend_from_slice(&[i; 10]);
        tlv.push(pdu);
    }
    let cases = vec![
        (
            length_prefixed(5),
            Hypothesis::LengthPrefixBundle {
                offset: 0,
                width: LengthWidth::Two,
                endian: Endianness::Little,
                includes_header: false,
            },
        ),
        (fixed, Hypothesis::FixedHeader { len: 4 }),
        (
            tlv,
            Hypothesis::Tlv {
                tag_offset: 0,
                tag_bytes: 1,
                len_offset: 1,
                len_rule: TlvLenRule::DefiniteShort,
                length_includes_header: false,
            },
        ),
    ];
    for (data, named) in cases {
        let corpus = create_test_corpus(data);
        assert!(engine.enters_depth(0, &corpus));
        let proposed = engine.propose_all(&corpus, &registry);
        assert!(proposed.contains(&named));
        let parsed = engine.parse_candidate(&corpus, &registry, &named).expect("a parser reads it");
        let s = score(&scorer.score(&corpus, &parsed, &named));
        assert_eq!(s.breakdown.parse_success_ratio, 1.0);
        assert!(s.total_bits.is_finite());
        for pdu in &parsed.parsed_pdus {
            assert!(pdu.exceptions.is_empty());
            assert_eq!(pdu.sdus().len(), 1);
        }
    }
}

#[test]
fn score_terms_by_hand() {
    let m = Measurements {
        success_count: 2,
        pdu_count: 2,
        pci: vec![],
        fields: vec![5, 5, 5, 5],
        sdu: vec![1, 2, 3, 4],
        raw: vec![5, 5, 1, 2, 5, 5, 3, 4],
        pci_deflated: Some(2),
        fields_deflated: Some(6),
        sdu_deflated: Some(6),
        raw_deflated: Some(10),
        total_bytes: 8,
        segment_count: 25,
        exception_count: 1,
        small_segment_count: 2,
        model: ModelBits { constant: 16, log2_twice_of: Some(4) },
    };
    let s = score(&Assessment::Measured(m));
    assert_eq!(s.breakdown.mdl_model_bits, 20.0);
    assert_eq!(s.breakdown.mdl_data_bits, 8.0);
    assert_eq!(s.breakdown.entropy_drop_bits, 72.0);
    assert_eq!(s.breakdown.penalties_bits, 20.0 + 16.0 + 8.0);
    assert_eq!(s.breakdown.alignment_gain_bits, 0.0);
    assert_eq!(s.breakdown.parse_success_ratio, 1.0);
    assert_eq!(s.total_bits, 20.0 + 8.0 - 72.0 + 44.0);

    let no_sdu = Measurements {
        success_count: 1,
        pdu_count: 1,
        pci: vec![7, 7],
        fields: vec![],
        sdu: vec![],
        raw: vec![7, 7],
        pci_deflated: None,
        fields_deflated: None,
        sdu_deflated: None,
        raw_deflated: Some(1),
        total_bytes: 2,
        segment_count: 1,
        exception_count: 0,
        small_segment_count: 0,
        model: ModelBits { constant: 32, log2_twice_of: None },
    };
    let s = score(&Assessment::Measured(no_sdu));
    assert_eq!(s.breakdown.mdl_model_bits, 32.0);
    assert_eq!(s.breakdown.mdl_data_bits, 16.0);
    assert_eq!(s.breakdown.entropy_drop_bits, 8.0);
    assert_eq!(s.breakdown.penalties_bits, 0.0);
    assert_eq!(s.total_bits, 40.0);

    assert_eq!(entropy(&[]), 0.0);
    assert_eq!(entropy(&[9, 9, 9]), 0.0);
    assert_eq!(entropy(&[0, 1]), 1.0);
    assert_eq!(entropy(&[0, 1, 2, 3, 0, 1, 2, 3]), 2.0);
    assert_eq!(score(&Assessment::Overflow).total_bits, f64::INFINITY);
    let low = score(&Assessment::LowSuccess { success_count: 9, pdu_count: 10 });
    assert_eq!(low.total_bits, f64::INFINITY);
    assert_eq!(low.breakdown.parse_success_ratio, 0.9);
}

#[test]
fn equal_segmentations_differ_by_their_model_bits() {
    let registry = create_default_registry();
    let engine = InferenceEngine::new();
    let scorer = MdlScorer::new();
    let corpus = create_test_corpus(length_prefixed(5));
    let prefix = Hypothesis::LengthPrefixBundle {
        offset: 0,
        width: LengthWidth::Two,
        endian: Endianness::Little,
        includes_header: false,
    };
    let header = Hypothesis::FixedHeader { len: 2 };
    let parsed = engine.parse_candidate(&corpus, &registry, &prefix).expect("a parser reads it");
    let by_prefix = score(&scorer.score(&corpus, &parsed, &prefix));
    let parsed = engine.parse_candidate(&corpus, &registry, &header).expect("a parser reads it");
    let by_header = score(&scorer.score(&corpus, &parsed, &header));
    assert_eq!(by_prefix.breakdown.mdl_data_bits, by_header.breakdown.mdl_data_bits);
    assert_eq!(by_prefix.breakdown.entropy_drop_bits, by_header.breakdown.entropy_drop_bits);
    assert_eq!(by_prefix.breakdown.penalties_bits, by_header.breakdown.penalties_bits);
    assert_eq!(by_prefix.breakdown.mdl_model_bits - by_header.breakdown.mdl_model_bits, 14.0);
    assert!(order_key(by_header.total_bits) < order_key(by_prefix.total_bits));
}

#[test]
fn a_depth_ends_in_the_ranking_and_the_next_corpus() {
    let engine = InferenceEngine::new().with_top_k(2);
    let registry = create_default_registry();
    let mut first = vec![6u8];
    first.extend_from_slice(&[1, 2, 3, 4, 5, 6]);
    let buffer: Arc<[u8]> = Arc::from(first);
    let corpus = Corpus::new(
        vec![PduRef::new(buffer.clone(), 0..7)],
        CorpusMeta { source: "flow_None".to_string(), total_bytes: 7, pdu_count: 1, flow_id: None },
    );
    let candidates = vec![
        Hypothesis::FixedHeader { len: 5 },
        Hypothesis::LengthPrefixBundle {
            offset: 0,
            width: LengthWidth::One,
            endian: Endianness::Big,
            includes_header: false,
        },
        Hypothesis::FixedHeader { len: 2 },
    ];
    let parses: Vec<ParsedCorpus> = candidates
        .iter()
        .map(|h| engine.parse_candidate(&corpus, &registry, h).expect("a parser reads it"))
        .collect();

    let adoption = engine.adopt(&corpus, &parses, &[30, 10, 20], 10).expect("the best is within");
    assert_eq!(adoption.ranking, vec![1, 2]);
    let next = adoption.sdu_corpus.expect("there is a data unit");
    assert_eq!(next.len(), 1);
    assert_eq!(next.items[0].range, 1..7);
    assert!(Arc::ptr_eq(&next.items[0].data, &buffer));
    assert_eq!(next.meta.source, "flow_None_sdu");

    let adoption = engine.adopt(&corpus, &parses, &[5, 10, 20], 7).expect("the best is within");
    assert_eq!(adoption.ranking, vec![0, 1]);
    assert!(adoption.sdu_corpus.is_none());

    let adoption = engine.adopt(&corpus, &parses, &[9, 9, 3], 3).expect("the best is within");
    assert_eq!(adoption.ranking, vec![2, 0]);
    assert_eq!(adoption.sdu_corpus.expect("there is a data unit").items[0].range, 2..7);

    assert!(engine.adopt(&corpus, &parses, &[30, 10, 20], 9).is_none());
    assert!(engine.adopt(&corpus, &[], &[], u64::MAX).is_none());
    assert!(engine.with_top_k(0).adopt(&corpus, &parses, &[1, 2, 3], u64::MAX).is_none());
}

#[test]
fn raw_payloads_cost_the_same_on_every_call() {
    let engine = InferenceEngine::new();
    let corpus = create_test_corpus(headed(30));
    let first = engine.raw_bits(&corpus);
    assert_eq!(engine.raw_bits(&corpus), first);
    assert_eq!(engine.raw_bits(&corpus.clone()), first);
    assert_eq!(engine.raw_bits(&create_test_corpus(vec![])), 8 * 2);
}
