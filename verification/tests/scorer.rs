use flate2::write::DeflateEncoder;
use flate2::Compression;
use protocol_infer_core::corpus::{Corpus, CorpusMeta, PduRef};
use protocol_infer_core::hypothesis::{Endianness, Hypothesis, LengthWidth, TlvLenRule};
use protocol_infer_core::error::Error;
use protocol_infer_core::measures::{
    byte_counts, byte_histogram, compressed_size, samples_at_anchors, samples_by_offset,
    stream_size,
};
use protocol_infer_core::parser::{ParsedCorpus, ParsedPdu};
use protocol_infer_core::plugin::Scorer;
use protocol_infer_core::plugins::scorers::{
    count_segments, deflated_size, estimate_model_bits, gather_bytes, gather_raw,
    has_overflow_diagnostic, is_overflow_diagnostic, measured_size,
};
use protocol_infer_core::score::{Assessment, ModelBits, SegmentClass};
use protocol_infer_core::plugins::MdlScorer;
use protocol_infer_core::segment::{Segment, SegmentKind};
use std::io::Write;
use std::sync::Arc;

fn corpus_of(data: Vec<Vec<u8>>) -> Corpus {
    let items: Vec<PduRef> = data
        .into_iter()
        .map(|bytes| {
            let len = bytes.len();
            PduRef::new(Arc::from(bytes), 0..len)
        })
        .collect();
    let pdu_count = items.len();
    let total_bytes: usize = items.iter().map(|p| p.len()).sum();
    Corpus::new(
        items,
        CorpusMeta { source: "test".to_string(), total_bytes, pdu_count, flow_id: None },
    )
}

fn deflate_directly(data: &[u8]) -> usize {
    let mut encoder = DeflateEncoder::new(Vec::new(), Compression::default());
    encoder.write_all(data).expect("writing to a vector");
    encoder.finish().expect("finishing into a vector").len()
}

fn sample_parse() -> (Corpus, ParsedCorpus) {
    let corpus = corpus_of(vec![vec![10, 11, 12, 13, 14, 15], vec![20, 21, 22, 23]]);
    let parsed = ParsedCorpus::new(vec![
        ParsedPdu::new(vec![
            Segment::new(SegmentKind::Pci, 0..1),
            Segment::new(SegmentKind::Field("tag".to_string()), 1..2),
            Segment::new(SegmentKind::Field("length".to_string()), 2..4),
            Segment::new(SegmentKind::Sdu, 4..6),
            Segment::new(SegmentKind::MessageBoundary, 6..6),
        ]),
        ParsedPdu::new(vec![
            Segment::new(SegmentKind::Sdu, 0..1),
            Segment::new(SegmentKind::Pci, 1..3),
            Segment::new(SegmentKind::Sdu, 3..4),
        ])
        .with_exception("Incomplete tag".to_string()),
    ]);
    (corpus, parsed)
}

#[test]
fn compressed_size_is_the_size_of_the_deflate_stream() {
    let zeros = vec![0u8; 1000];
    let size = compressed_size(&zeros).expect("encoder works");
    assert_eq!(size, deflate_directly(&zeros));
    assert!(size < 30);
    assert_ne!(size, zeros.len());
    let text = b"the quick brown fox jumps over the lazy dog, the quick brown fox".to_vec();
    assert_eq!(compressed_size(&text).expect("encoder works"), deflate_directly(&text));
    assert_eq!(compressed_size(&[]).expect("encoder works"), deflate_directly(&[]));
    assert_eq!(deflated_size(&text), Some(deflate_directly(&text)));
}

#[test]
fn histogram_counts_every_byte_value() {
    let counts = byte_histogram(&[0, 255, 7, 7, 0, 7]);
    assert_eq!(counts.len(), 256);
    assert_eq!(counts[0], 2);
    assert_eq!(counts[7], 3);
    assert_eq!(counts[255], 1);
    assert_eq!(counts.iter().sum::<usize>(), 6);
    assert_eq!(counts.iter().filter(|&&c| c > 0).count(), 3);
    let none = byte_histogram(&[]);
    assert_eq!(none, vec![0usize; 256]);

    let by_value = byte_counts(&[0, 255, 7, 7, 0, 7]);
    assert_eq!(by_value.len(), 3);
    assert_eq!(by_value.get(&0), Some(&2));
    assert_eq!(by_value.get(&7), Some(&3));
    assert_eq!(by_value.get(&255), Some(&1));
    assert_eq!(by_value.get(&1), None);
    assert!(byte_counts(&[]).is_empty());
}

#[test]
fn samples_are_taken_place_by_place() {
    let corpus = corpus_of(vec![vec![1, 2, 3], vec![4], vec![], vec![5, 6]]);
    assert_eq!(
        samples_by_offset(&corpus, 4),
        vec![vec![1, 4, 5], vec![2, 6], vec![3], vec![]]
    );
    assert_eq!(samples_by_offset(&corpus, 1), vec![vec![1, 4, 5]]);
    assert!(samples_by_offset(&corpus, 0).is_empty());
    assert_eq!(
        samples_at_anchors(&corpus, &[1, 0, 1, 7], 3),
        vec![vec![1, 4, 5], vec![2, 2, 6, 6], vec![]]
    );
    assert_eq!(samples_at_anchors(&corpus, &[2], 2), vec![Vec::<u8>::new(), vec![]]);
    assert_eq!(samples_at_anchors(&corpus, &[], 2), vec![Vec::<u8>::new(), vec![]]);
}

#[test]
fn overflow_diagnostics_are_recognised() {
    assert!(is_overflow_diagnostic("Message extends beyond PDU at pos 11"));
    assert!(is_overflow_diagnostic("Bitmap extends beyond PDU"));
    assert!(is_overflow_diagnostic("Length-delimited value extends beyond PDU"));
    assert!(is_overflow_diagnostic(
        "Value extends beyond PDU: value_start=2, actual_len=10, data_len=5, remaining=3"
    ));
    assert!(is_overflow_diagnostic("Length too large for remaining data: actual_len=9, remaining=1"));
    assert!(is_overflow_diagnostic("extends beyond PDU"));
    assert!(!is_overflow_diagnostic("extends beyond PD"));
    assert!(!is_overflow_diagnostic("Incomplete tag"));
    assert!(!is_overflow_diagnostic("EOC not found"));
    assert!(!is_overflow_diagnostic("Length field appears invalid: len=1024, remaining=1, stopping TLV parsing"));
    assert!(!is_overflow_diagnostic(""));

    let (_, clean) = sample_parse();
    assert!(!has_overflow_diagnostic(&clean));
    let tainted = ParsedCorpus::new(vec![
        ParsedPdu::new(vec![]),
        ParsedPdu::new(vec![])
            .with_exception("Incomplete length".to_string())
            .with_exception("Bitmap extends beyond PDU".to_string()),
    ]);
    assert!(has_overflow_diagnostic(&tainted));
    assert!(!has_overflow_diagnostic(&ParsedCorpus::new(vec![])));
}

#[test]
fn bytes_are_gathered_by_class_in_order() {
    let (corpus, parsed) = sample_parse();
    assert_eq!(gather_bytes(&corpus, &parsed, SegmentClass::Pci), vec![10, 21, 22]);
    assert_eq!(gather_bytes(&corpus, &parsed, SegmentClass::Field), vec![11, 12, 13]);
    assert_eq!(gather_bytes(&corpus, &parsed, SegmentClass::Sdu), vec![14, 15, 20, 23]);
    assert_eq!(gather_raw(&corpus), vec![10, 11, 12, 13, 14, 15, 20, 21, 22, 23]);
    assert_eq!(count_segments(&parsed), (8, 1, 5));
}

#[test]
fn naming_a_hypothesis_costs_its_family_bits() {
    let plain = |constant| ModelBits { constant, log2_twice_of: None };
    let lp = Hypothesis::LengthPrefixBundle {
        offset: 3,
        width: LengthWidth::Four,
        endian: Endianness::Big,
        includes_header: true,
    };
    assert_eq!(estimate_model_bits(&lp), plain(32));
    assert_eq!(estimate_model_bits(&Hypothesis::DelimiterBundle { pattern: vec![0x0A] }), plain(24));
    assert_eq!(
        estimate_model_bits(&Hypothesis::DelimiterBundle { pattern: vec![0, 0, 0] }),
        plain(40)
    );
    assert_eq!(
        estimate_model_bits(&Hypothesis::FixedHeader { len: 8 }),
        ModelBits { constant: 16, log2_twice_of: Some(8) }
    );
    let bitmap = Hypothesis::ExtensibleBitmap { start: 0, cont_bit: 7, stop_value: 0, max_bytes: 8 };
    assert_eq!(estimate_model_bits(&bitmap), plain(40));
    let tlv = Hypothesis::Tlv {
        tag_offset: 0,
        tag_bytes: 1,
        len_offset: 1,
        len_rule: TlvLenRule::DefiniteShort,
        length_includes_header: false,
    };
    assert_eq!(estimate_model_bits(&tlv), plain(24));
    let varint = Hypothesis::VarintKeyWireType { key_max_bytes: 5, allow_embedded: false };
    assert_eq!(estimate_model_bits(&varint), plain(24));
}

#[test]
fn the_success_threshold_is_ninety_five_in_a_hundred() {
    let scorer = MdlScorer::new();
    assert_eq!(scorer.min_parse_success_percent, 95);
    assert_eq!(MdlScorer::default().min_parse_success_percent, 95);
    assert_eq!(scorer.name(), "MdlScorer");
    assert!(!scorer.below_threshold(19, 20));
    assert!(scorer.below_threshold(18, 20));
    assert!(!scorer.below_threshold(95, 100));
    assert!(scorer.below_threshold(94, 100));
    assert!(!scorer.below_threshold(1, 1));
    assert!(scorer.below_threshold(0, 1));
    assert!(scorer.below_threshold(0, 0));
    assert!(scorer.below_threshold(949, 1000));
    assert!(!scorer.below_threshold(usize::MAX, usize::MAX));
    assert!(scorer.below_threshold(usize::MAX / 2, usize::MAX));
    let any = MdlScorer { min_parse_success_percent: 0 };
    assert!(!any.below_threshold(0, 0));
    assert!(!any.below_threshold(0, 5));
}

#[test]
fn a_clean_parse_is_measured() {
    let (corpus, parsed) = sample_parse();
    let h = Hypothesis::FixedHeader { len: 4 };
    let found = MdlScorer::new().score(&corpus, &parsed, &h);
    let m = match found {
        Assessment::Measured(m) => m,
        other => panic!("expected measurements, got {:?}", other),
    };
    assert_eq!(m.success_count, 2);
    assert_eq!(m.pdu_count, 2);
    assert_eq!(m.pci, vec![10, 21, 22]);
    assert_eq!(m.fields, vec![11, 12, 13]);
    assert_eq!(m.sdu, vec![14, 15, 20, 23]);
    assert_eq!(m.raw, vec![10, 11, 12, 13, 14, 15, 20, 21, 22, 23]);
    assert_eq!(m.pci_deflated, Some(deflate_directly(&[10, 21, 22])));
    assert_eq!(m.fields_deflated, Some(deflate_directly(&[11, 12, 13])));
    assert_eq!(m.sdu_deflated, Some(deflate_directly(&[14, 15, 20, 23])));
    assert_eq!(m.raw_deflated, Some(deflate_directly(&m.raw)));
    assert_eq!(m.total_bytes, 10);
    assert_eq!(m.segment_count, 8);
    assert_eq!(m.exception_count, 1);
    assert_eq!(m.small_segment_count, 5);
    assert_eq!(m.model, ModelBits { constant: 16, log2_twice_of: Some(4) });
}

#[test]
fn an_overflow_diagnostic_rejects_before_anything_else() {
    let corpus = corpus_of(vec![vec![1, 2, 3]; 20]);
    let mut pdus = Vec::new();
    for _ in 0..19 {
        pdus.push(ParsedPdu::new(vec![Segment::new(SegmentKind::Sdu, 0..3)]));
    }
    pdus.push(
        ParsedPdu::new(vec![Segment::new(SegmentKind::Pci, 0..1)])
            .with_exception("Message extends beyond PDU at pos 1".to_string()),
    );
    let parsed = ParsedCorpus::new(pdus);
    let found = MdlScorer::new().score(&corpus, &parsed, &Hypothesis::FixedHeader { len: 1 });
    assert!(matches!(found, Assessment::Overflow));
}

#[test]
fn too_few_successes_reject() {
    let corpus = corpus_of(vec![vec![1, 2, 3]; 20]);
    let parse = |failures: usize| {
        let mut pdus = Vec::new();
        for i in 0..20 {
            if i < failures {
                pdus.push(ParsedPdu::new(vec![Segment::new(
                    SegmentKind::Error("PDU too short".to_string()),
                    0..3,
                )]));
            } else {
                pdus.push(ParsedPdu::new(vec![Segment::new(SegmentKind::Sdu, 0..3)]));
            }
        }
        ParsedCorpus::new(pdus)
    };
    let h = Hypothesis::FixedHeader { len: 1 };
    let scorer = MdlScorer::new();
    match scorer.score(&corpus, &parse(2), &h) {
        Assessment::LowSuccess { success_count, pdu_count } => {
            assert_eq!((success_count, pdu_count), (18, 20));
        }
        other => panic!("expected a rejection, got {:?}", other),
    }
    assert!(matches!(scorer.score(&corpus, &parse(1), &h), Assessment::Measured(_)));
    assert!(matches!(scorer.score(&corpus, &parse(0), &h), Assessment::Measured(_)));
    match scorer.score(&corpus, &parse(20), &h) {
        Assessment::LowSuccess { success_count, pdu_count } => {
            assert_eq!((success_count, pdu_count), (0, 20));
        }
        other => panic!("expected a rejection, got {:?}", other),
    }
    let empty = corpus_of(vec![]);
    match scorer.score(&empty, &ParsedCorpus::new(vec![]), &h) {
        Assessment::LowSuccess { success_count, pdu_count } => {
            assert_eq!((success_count, pdu_count), (0, 0));
        }
        other => panic!("expected a rejection, got {:?}", other),
    }
}

#[test]
fn an_encoder_answer_becomes_a_size_or_an_io_error() {
    assert_eq!(stream_size(Ok(vec![1, 2, 3])).expect("a size"), 3);
    assert_eq!(stream_size(Ok(vec![])).expect("a size"), 0);
    let broken = std::io::Error::new(std::io::ErrorKind::BrokenPipe, "pipe closed");
    match stream_size(Err(broken)) {
        Err(Error::Io(e)) => {
            assert_eq!(e.kind(), std::io::ErrorKind::BrokenPipe);
            assert_eq!(e.to_string(), "pipe closed");
        }
        other => panic!("expected an I/O error, got {:?}", other),
    }
    assert_eq!(measured_size(Ok(5)), Some(5));
    assert_eq!(measured_size(Ok(0)), Some(0));
    assert_eq!(measured_size(Err(Error::Plugin("failed".to_string()))), None);
    let full = std::io::Error::new(std::io::ErrorKind::Other, "disk full");
    assert_eq!(measured_size(stream_size(Err(full))), None);
    assert_eq!(measured_size(stream_size(Ok(vec![9; 41]))), Some(41));
}

#[test]
fn compression_succeeds_on_ordinary_bytes() {
    for data in [Vec::new(), vec![0u8; 1], vec![7u8; 5000], (0..=255u8).collect::<Vec<u8>>()] {
        let size = compressed_size(&data).expect("encoder works");
        assert_eq!(size, deflate_directly(&data));
        assert_eq!(deflated_size(&data), Some(size));
    }
}
