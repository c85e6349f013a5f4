use protocol_infer_core::corpus::{Corpus, CorpusMeta, PduRef};
use protocol_infer_core::hypothesis::{Endianness, Hypothesis, LengthWidth, TlvLenRule};
use protocol_infer_core::parser::{ParsedCorpus, ParsedPdu, Parser};
use protocol_infer_core::plugins::{
    create_default_registry, DelimiterParser, ExtensibleBitmapParser, FixedHeaderParser,
    LengthPrefixParser, TlvParser, VarintParser,
};
use protocol_infer_core::segment::SegmentKind;
use std::sync::Arc;

fn create_test_corpus(data: Vec<Vec<u8>>) -> Corpus {
    let items: Vec<PduRef> = data
        .into_iter()
        .map(|bytes| {
            let len = bytes.len();
            PduRef::new(Arc::from(bytes), 0..len)
        })
        .collect();
    let pdu_count = items.len();
    let total_bytes: usize = items.iter().map(|p| p.len()).sum();
    Corpus::new(
        items,
        CorpusMeta { source: "test".to_string(), total_bytes, pdu_count, flow_id: None },
    )
}

fn parse_success_ratio(parsed: &ParsedCorpus) -> f64 {
    if parsed.parsed_pdus.is_empty() {
        return 0.0;
    }
    parsed.success_count() as f64 / parsed.parsed_pdus.len() as f64
}

fn field(name: &str) -> SegmentKind {
    SegmentKind::Field(name.to_string())
}

fn error(text: &str) -> SegmentKind {
    SegmentKind::Error(text.to_string())
}

fn shape(pdu: &ParsedPdu) -> Vec<(SegmentKind, usize, usize)> {
    pdu.segments.iter().map(|s| (s.kind.clone(), s.range.start, s.range.end)).collect()
}

fn parse_one<P: Parser>(parser: &P, bytes: Vec<u8>, h: &Hypothesis) -> ParsedPdu {
    let corpus = create_test_corpus(vec![bytes]);
    let mut parsed = parser.parse_corpus(&corpus, h);
    assert_eq!(parsed.parsed_pdus.len(), 1);
    assert!(parsed.diagnostics.is_empty());
    parsed.parsed_pdus.remove(0)
}

fn length_prefix(offset: usize, width: LengthWidth, endian: Endianness) -> Hypothesis {
    Hypothesis::LengthPrefixBundle { offset, width, endian, includes_header: false }
}

fn tlv(
    tag_offset: usize,
    tag_bytes: usize,
    len_offset: usize,
    len_rule: TlvLenRule,
    length_includes_header: bool,
) -> Hypothesis {
    Hypothesis::Tlv { tag_offset, tag_bytes, len_offset, len_rule, length_includes_header }
}

fn varint(key_max_bytes: usize) -> Hypothesis {
    Hypothesis::VarintKeyWireType { key_max_bytes, allow_embedded: false }
}

#[test]
fn test_length_prefix_bundling() {
    let mut data = Vec::new();
    for i in 0..5 {
        let payload: Vec<u8> = vec![i as u8; 10 + i];
        let len = payload.len() as u16;
        let mut pdu = len.to_le_bytes().to_vec();
        pdu.extend_from_slice(&payload);
        data.push(pdu);
    }
    let corpus = create_test_corpus(data);
    let registry = create_default_registry();
    let hypothesis = Hypothesis::LengthPrefixBundle {
        offset: 0,
        width: LengthWidth::Two,
        endian: Endianness::Little,
        includes_header: false,
    };
    let parser = registry
        .parsers()
        .iter()
        .find(|p| p.applicable(&hypothesis))
        .expect("Parser length-prefix devrait être disponible");
    let parsed = parser.parse_corpus(&corpus, &hypothesis);
    assert!(parse_success_ratio(&parsed) >= 0.95);
    for parsed_pdu in &parsed.parsed_pdus {
        assert!(parsed_pdu.is_success());
        assert!(parsed_pdu.segments.len() >= 2);
    }
}

#[test]
fn test_fixed_header() {
    let mut data = Vec::new();
    for i in 0..5 {
        let mut pdu = vec![0x01, 0x02, 0x03, 0x04];
        let payload: Vec<u8> = vec![i as u8; 20];
        pdu.extend_from_slice(&payload);
        data.push(pdu);
    }
    let corpus = create_test_corpus(data);
    let registry = create_default_registry();
    let hypothesis = Hypothesis::FixedHeader { len: 4 };
    let parser = registry
        .parsers()
        .iter()
        .find(|p| p.applicable(&hypothesis))
        .expect("Parser fixed-header devrait être disponible");
    let parsed = parser.parse_corpus(&corpus, &hypothesis);
    assert!(parse_success_ratio(&parsed) >= 0.95);
    for parsed_pdu in &parsed.parsed_pdus {
        assert!(parsed_pdu.is_success());
        assert_eq!(parsed_pdu.segments[0].kind, SegmentKind::Pci);
        assert_eq!(parsed_pdu.segments[0].len(), 4);
    }
}

#[test]
fn test_extensible_bitmap() {
    let mut data = Vec::new();
    for _ in 0..5 {
        let mut pdu = vec![0x80, 0x80, 0x00];
        let payload: Vec<u8> = vec![0xAA; 20];
        pdu.extend_from_slice(&payload);
        data.push(pdu);
    }
    let corpus = create_test_corpus(data);
    let registry = create_default_registry();
    let hypothesis =
        Hypothesis::ExtensibleBitmap { start: 0, cont_bit: 7, stop_value: 0, max_bytes: 8 };
    let parser = registry
        .parsers()
        .iter()
        .find(|p| p.applicable(&hypothesis))
        .expect("Parser bitmap devrait être disponible");
    let parsed = parser.parse_corpus(&corpus, &hypothesis);
    assert!(parse_success_ratio(&parsed) >= 0.95);
    for parsed_pdu in &parsed.parsed_pdus {
        assert!(parsed_pdu.is_success());
        assert!(parsed_pdu
            .segments
            .iter()
            .any(|s| matches!(s.kind, SegmentKind::Field(ref name) if name == "bitmap")));
    }
}

#[test]
fn test_tlv_definite_short() {
    let mut data = Vec::new();
    for i in 0..5 {
        let mut pdu = vec![0x01];
        pdu.push(10);
        let value: Vec<u8> = vec![i as u8; 10];
        pdu.extend_from_slice(&value);
        data.push(pdu);
    }
    let corpus = create_test_corpus(data);
    let registry = create_default_registry();
    let hypothesis = Hypothesis::Tlv {
        tag_offset: 0,
        tag_bytes: 1,
        len_offset: 1,
        len_rule: TlvLenRule::DefiniteShort,
        length_includes_header: false,
    };
    let parser = registry
        .parsers()
        .iter()
        .find(|p| p.applicable(&hypothesis))
        .expect("Parser TLV devrait être disponible");
    let parsed = parser.parse_corpus(&corpus, &hypothesis);
    assert!(parse_success_ratio(&parsed) >= 0.95);
    for parsed_pdu in &parsed.parsed_pdus {
        assert!(parsed_pdu.is_success());
        assert!(parsed_pdu.segments.len() >= 3);
    }
}

#[test]
fn test_varint_protobuf_like() {
    let mut data = Vec::new();
    for i in 0..5 {
        let mut pdu = vec![0x0A];
        pdu.push(10);
        let value: Vec<u8> = vec![i as u8; 10];
        pdu.extend_from_slice(&value);
        data.push(pdu);
    }
    let corpus = create_test_corpus(data);
    let registry = create_default_registry();
    let hypothesis = Hypothesis::VarintKeyWireType { key_max_bytes: 5, allow_embedded: false };
    let parser = registry
        .parsers()
        .iter()
        .find(|p| p.applicable(&hypothesis))
        .expect("Parser varint devrait être disponible");
    let parsed = parser.parse_corpus(&corpus, &hypothesis);
    assert!(parse_success_ratio(&parsed) >= 0.8);
    for parsed_pdu in &parsed.parsed_pdus {
        assert!(parsed_pdu.segments.len() >= 1);
    }
}

#[test]
fn length_prefix_little_endian_u16_yields_length_and_payload() {
    for i in 0..5usize {
        let mut pdu = ((10 + i) as u16).to_le_bytes().to_vec();
        pdu.extend_from_slice(&vec![i as u8; 10 + i]);
        let parsed = parse_one(
            &LengthPrefixParser,
            pdu,
            &length_prefix(0, LengthWidth::Two, Endianness::Little),
        );
        assert_eq!(shape(&parsed), vec![(field("length"), 0, 2), (SegmentKind::Sdu, 2, 12 + i)]);
        assert!(parsed.exceptions.is_empty());
        assert!(parsed.is_success());
    }
}

#[test]
fn length_prefix_reads_every_width_and_byte_order() {
    let mut big = vec![0x01, 0x02];
    big.extend_from_slice(&vec![7u8; 0x0102]);
    let parsed =
        parse_one(&LengthPrefixParser, big, &length_prefix(0, LengthWidth::Two, Endianness::Big));
    assert_eq!(shape(&parsed), vec![(field("length"), 0, 2), (SegmentKind::Sdu, 2, 2 + 0x0102)]);

    let mut little = vec![0x02, 0x01];
    little.extend_from_slice(&vec![7u8; 0x0102]);
    let parsed = parse_one(
        &LengthPrefixParser,
        little,
        &length_prefix(0, LengthWidth::Two, Endianness::Little),
    );
    assert_eq!(shape(&parsed), vec![(field("length"), 0, 2), (SegmentKind::Sdu, 2, 2 + 0x0102)]);

    let mut four_le = vec![0x03, 0x01, 0x00, 0x00];
    four_le.extend_from_slice(&vec![9u8; 0x0103]);
    let parsed = parse_one(
        &LengthPrefixParser,
        four_le,
        &length_prefix(0, LengthWidth::Four, Endianness::Little),
    );
    assert_eq!(shape(&parsed), vec![(field("length"), 0, 4), (SegmentKind::Sdu, 4, 4 + 0x0103)]);

    let mut four_be = vec![0x00, 0x00, 0x01, 0x03];
    four_be.extend_from_slice(&vec![9u8; 0x0103]);
    let parsed = parse_one(
        &LengthPrefixParser,
        four_be,
        &length_prefix(0, LengthWidth::Four, Endianness::Big),
    );
    assert_eq!(shape(&parsed), vec![(field("length"), 0, 4), (SegmentKind::Sdu, 4, 4 + 0x0103)]);

    let parsed = parse_one(
        &LengthPrefixParser,
        vec![3, 1, 2, 3],
        &length_prefix(0, LengthWidth::One, Endianness::Big),
    );
    assert_eq!(shape(&parsed), vec![(field("length"), 0, 1), (SegmentKind::Sdu, 1, 4)]);
}

#[test]
fn length_prefix_bundle_marks_boundaries_between_messages() {
    let data = vec![0xEE, 2, 0xA1, 0xA2, 0xEE, 0, 0xEE, 1, 0xB1];
    let parsed =
        parse_one(&LengthPrefixParser, data, &length_prefix(1, LengthWidth::One, Endianness::Big));
    assert_eq!(
        shape(&parsed),
        vec![
            (field("length"), 0, 2),
            (SegmentKind::Sdu, 2, 4),
            (SegmentKind::MessageBoundary, 4, 4),
            (field("length"), 4, 6),
            (SegmentKind::MessageBoundary, 6, 6),
            (field("length"), 6, 8),
            (SegmentKind::Sdu, 8, 9),
        ]
    );
    assert!(parsed.exceptions.is_empty());
}

#[test]
fn length_prefix_overrun_is_a_failure_with_the_position() {
    let mut data = vec![10u8];
    data.extend_from_slice(&[1u8; 10]);
    data.push(200);
    data.extend_from_slice(&[2u8; 5]);
    let parsed =
        parse_one(&LengthPrefixParser, data, &length_prefix(0, LengthWidth::One, Endianness::Big));
    assert_eq!(
        shape(&parsed),
        vec![
            (field("length"), 0, 1),
            (SegmentKind::Sdu, 1, 11),
            (SegmentKind::MessageBoundary, 11, 11),
            (error("Message overflow"), 11, 17),
        ]
    );
    assert_eq!(parsed.exceptions, vec!["Message extends beyond PDU at pos 11".to_string()]);
    assert!(!parsed.is_success());
}

#[test]
fn length_prefix_incomplete_length_field_is_a_failure_without_diagnostic() {
    let parsed = parse_one(
        &LengthPrefixParser,
        vec![1, 0, 0xAA, 0x05],
        &length_prefix(0, LengthWidth::Two, Endianness::Little),
    );
    assert_eq!(
        shape(&parsed),
        vec![
            (field("length"), 0, 2),
            (SegmentKind::Sdu, 2, 3),
            (SegmentKind::MessageBoundary, 3, 3),
            (error("Incomplete length field"), 3, 4),
        ]
    );
    assert!(parsed.exceptions.is_empty());
}

#[test]
fn delimiter_splits_at_every_occurrence_and_keeps_the_tail() {
    let h = Hypothesis::DelimiterBundle { pattern: vec![0x0D, 0x0A] };
    let parsed = parse_one(&DelimiterParser, b"ab\r\ncd\r\n\r\nef".to_vec(), &h);
    assert_eq!(
        shape(&parsed),
        vec![
            (SegmentKind::Sdu, 0, 2),
            (SegmentKind::MessageBoundary, 2, 4),
            (SegmentKind::Sdu, 4, 6),
            (SegmentKind::MessageBoundary, 6, 8),
            (SegmentKind::MessageBoundary, 8, 10),
            (SegmentKind::Sdu, 10, 12),
        ]
    );
    assert!(parsed.exceptions.is_empty());

    let parsed = parse_one(&DelimiterParser, b"no delimiter here".to_vec(), &h);
    assert_eq!(shape(&parsed), vec![(SegmentKind::Sdu, 0, 17)]);

    let parsed = parse_one(&DelimiterParser, b"x\r".to_vec(), &h);
    assert_eq!(shape(&parsed), vec![(SegmentKind::Sdu, 0, 2)]);

    let parsed = parse_one(&DelimiterParser, Vec::new(), &h);
    assert!(parsed.segments.is_empty());
}

#[test]
fn fixed_header_four_yields_header_and_payload() {
    for i in 0..5u8 {
        let mut pdu = vec![0x01, 0x02, 0x03, 0x04];
        pdu.extend_from_slice(&[i; 20]);
        let parsed = parse_one(&FixedHeaderParser, pdu, &Hypothesis::FixedHeader { len: 4 });
        assert_eq!(shape(&parsed), vec![(SegmentKind::Pci, 0, 4), (SegmentKind::Sdu, 4, 24)]);
        assert_eq!(parsed.segments[0].kind, SegmentKind::Pci);
        assert_eq!(parsed.segments[0].len(), 4);
    }
}

#[test]
fn fixed_header_edges() {
    let h = Hypothesis::FixedHeader { len: 4 };
    let parsed = parse_one(&FixedHeaderParser, vec![1, 2, 3], &h);
    assert_eq!(shape(&parsed), vec![(error("PDU too short"), 0, 3)]);
    assert!(parsed.exceptions.is_empty());
    assert!(!parsed.is_success());
    let parsed = parse_one(&FixedHeaderParser, vec![1, 2, 3, 4], &h);
    assert_eq!(shape(&parsed), vec![(SegmentKind::Pci, 0, 4)]);
}

#[test]
fn bitmap_with_continuation_bit_seven() {
    for _ in 0..5 {
        let mut pdu = vec![0x80, 0x80, 0x00];
        pdu.extend_from_slice(&[0xAA; 20]);
        let h = Hypothesis::ExtensibleBitmap { start: 0, cont_bit: 7, stop_value: 0, max_bytes: 8 };
        let parsed = parse_one(&ExtensibleBitmapParser, pdu, &h);
        assert_eq!(shape(&parsed), vec![(field("bitmap"), 0, 3), (SegmentKind::Sdu, 3, 23)]);
        assert!(parsed.exceptions.is_empty());
    }
}

#[test]
fn bitmap_edges() {
    let h = Hypothesis::ExtensibleBitmap { start: 2, cont_bit: 0, stop_value: 1, max_bytes: 3 };
    let parsed = parse_one(&ExtensibleBitmapParser, vec![9, 9, 0x02, 0x03, 0x55], &h);
    assert_eq!(
        shape(&parsed),
        vec![(SegmentKind::Pci, 0, 2), (field("bitmap"), 2, 4), (SegmentKind::Sdu, 4, 5)]
    );
    let parsed = parse_one(&ExtensibleBitmapParser, vec![9, 9, 2, 4, 6, 8, 10], &h);
    assert_eq!(
        shape(&parsed),
        vec![(SegmentKind::Pci, 0, 2), (field("bitmap"), 2, 5), (SegmentKind::Sdu, 5, 7)]
    );
    let parsed = parse_one(&ExtensibleBitmapParser, vec![9, 9, 2, 4], &h);
    assert_eq!(shape(&parsed), vec![(SegmentKind::Pci, 0, 2), (field("bitmap"), 2, 4)]);
    let parsed = parse_one(&ExtensibleBitmapParser, vec![9, 9], &h);
    assert_eq!(shape(&parsed), vec![(SegmentKind::Pci, 0, 2), (field("bitmap"), 2, 2)]);
    let parsed = parse_one(&ExtensibleBitmapParser, vec![9], &h);
    assert_eq!(shape(&parsed), vec![(error("PDU too short for bitmap start"), 0, 1)]);
    assert!(parsed.exceptions.is_empty());
}

#[test]
fn tlv_tag_one_length_one_without_header() {
    for i in 0..5u8 {
        let mut pdu = vec![0x01, 0x0A];
        pdu.extend_from_slice(&[i; 10]);
        let parsed =
            parse_one(&TlvParser, pdu, &tlv(0, 1, 1, TlvLenRule::DefiniteShort, false));
        assert_eq!(
            shape(&parsed),
            vec![(field("tag"), 0, 1), (field("length"), 1, 2), (SegmentKind::Sdu, 2, 12)]
        );
        assert!(parsed.exceptions.is_empty());
    }
}

#[test]
fn tlv_with_offsets_gap_and_header_in_length() {
    let data = vec![0xF0, 0x11, 0x12, 0xEE, 0x00, 0x07, 0xC1, 0xC2, 0xF0, 0x21, 0x22, 0xEE, 0x00, 0x05];
    let parsed = parse_one(&TlvParser, data, &tlv(1, 2, 4, TlvLenRule::DefiniteMedium, true));
    assert_eq!(
        shape(&parsed),
        vec![
            (SegmentKind::Pci, 0, 1),
            (field("tag"), 1, 3),
            (SegmentKind::Pci, 3, 4),
            (field("length"), 4, 6),
            (SegmentKind::Sdu, 6, 8),
            (SegmentKind::Pci, 8, 9),
            (field("tag"), 9, 11),
            (SegmentKind::Pci, 11, 12),
            (field("length"), 12, 14),
        ]
    );
    assert!(parsed.exceptions.is_empty());
}

#[test]
fn tlv_long_rule_is_big_endian() {
    let mut data = vec![0x30, 0x00, 0x00, 0x01, 0x02];
    data.extend_from_slice(&vec![5u8; 0x0102]);
    let parsed = parse_one(&TlvParser, data, &tlv(0, 1, 1, TlvLenRule::DefiniteLong, false));
    assert_eq!(
        shape(&parsed),
        vec![(field("tag"), 0, 1), (field("length"), 1, 5), (SegmentKind::Sdu, 5, 5 + 0x0102)]
    );
}

#[test]
fn tlv_indefinite_runs_to_the_end_mark() {
    let data = vec![0x30, 1, 2, 3, 0, 0, 0x31, 9, 0, 0];
    let parsed = parse_one(&TlvParser, data, &tlv(0, 1, 1, TlvLenRule::IndefiniteWithEoc, false));
    assert_eq!(
        shape(&parsed),
        vec![
            (field("tag"), 0, 1),
            (SegmentKind::Sdu, 1, 4),
            (field("tag"), 6, 7),
            (SegmentKind::Sdu, 7, 8),
        ]
    );
    assert!(parsed.exceptions.is_empty());

    let parsed = parse_one(
        &TlvParser,
        vec![0x30, 1, 2, 0],
        &tlv(0, 1, 1, TlvLenRule::IndefiniteWithEoc, false),
    );
    assert_eq!(shape(&parsed), vec![(field("tag"), 0, 1)]);
    assert_eq!(parsed.exceptions, vec!["EOC not found".to_string()]);
    assert!(parsed.is_success());
}

#[test]
fn tlv_diagnostics() {
    let short = tlv(0, 1, 1, TlvLenRule::DefiniteShort, false);
    let parsed =
        parse_one(&TlvParser, vec![1, 1, 0, 7], &tlv(0, 2, 2, TlvLenRule::DefiniteShort, false));
    assert_eq!(
        shape(&parsed),
        vec![
            (field("tag"), 0, 2),
            (field("length"), 2, 3),
            (error("Incomplete tag"), 3, 4),
        ]
    );
    assert_eq!(parsed.exceptions, vec!["Incomplete tag".to_string()]);

    let parsed = parse_one(&TlvParser, vec![1], &short);
    assert_eq!(shape(&parsed), vec![(field("tag"), 0, 1)]);
    assert_eq!(parsed.exceptions, vec!["Incomplete length".to_string()]);

    let parsed = parse_one(&TlvParser, vec![1, 10, 1, 2, 3], &short);
    assert_eq!(shape(&parsed), vec![(field("tag"), 0, 1), (field("length"), 1, 2)]);
    assert_eq!(
        parsed.exceptions,
        vec!["Value extends beyond PDU: value_start=2, actual_len=10, data_len=5, remaining=3"
            .to_string()]
    );
    assert!(parsed.is_success());

    let parsed = parse_one(
        &TlvParser,
        vec![1, 0x04, 0x00, 9],
        &tlv(0, 1, 1, TlvLenRule::DefiniteMedium, false),
    );
    assert_eq!(shape(&parsed), vec![(field("tag"), 0, 1), (field("length"), 1, 3)]);
    assert_eq!(
        parsed.exceptions,
        vec!["Length field appears invalid: len=1024, remaining=1, stopping TLV parsing".to_string()]
    );

    let parsed = parse_one(
        &TlvParser,
        vec![1, 0x03, 0xE9, 9],
        &tlv(0, 1, 1, TlvLenRule::DefiniteMedium, false),
    );
    assert_eq!(
        parsed.exceptions,
        vec!["Value extends beyond PDU: value_start=3, actual_len=1001, data_len=4, remaining=1"
            .to_string()]
    );

    let parsed =
        parse_one(&TlvParser, vec![1, 1, 9, 9], &tlv(0, 1, 1, TlvLenRule::DefiniteShort, true));
    assert_eq!(shape(&parsed), vec![(field("tag"), 0, 1), (field("length"), 1, 2)]);
    assert_eq!(
        parsed.exceptions,
        vec!["Length too small to include header: len=1, header_size=2".to_string()]
    );
}

#[test]
fn varint_key_with_wire_type_two() {
    for i in 0..5u8 {
        let mut pdu = vec![0x0A, 0x0A];
        pdu.extend_from_slice(&[i; 10]);
        let parsed = parse_one(&VarintParser, pdu, &varint(5));
        assert_eq!(
            shape(&parsed),
            vec![(field("key"), 0, 1), (field("value_length"), 1, 2), (SegmentKind::Sdu, 2, 12)]
        );
        assert!(parsed.exceptions.is_empty());
    }
}

#[test]
fn varint_reads_every_wire_type() {
    let mut data = vec![0x08, 0x96, 0x01];
    data.extend_from_slice(&[0x09, 1, 2, 3, 4, 5, 6, 7, 8]);
    data.extend_from_slice(&[0x92, 0x01, 0x00]);
    data.extend_from_slice(&[0x0D, 1, 2, 3, 4]);
    let parsed = parse_one(&VarintParser, data, &varint(5));
    assert_eq!(
        shape(&parsed),
        vec![
            (field("key"), 0, 1),
            (field("value_varint"), 1, 3),
            (field("key"), 3, 4),
            (field("value_fixed64"), 4, 12),
            (field("key"), 12, 14),
            (field("value_length"), 14, 15),
            (SegmentKind::Sdu, 15, 15),
            (field("key"), 15, 16),
            (field("value_fixed32"), 16, 20),
        ]
    );
    assert!(parsed.exceptions.is_empty());
}

#[test]
fn varint_diagnostics() {
    let parsed = parse_one(&VarintParser, vec![0x0B, 1], &varint(5));
    assert_eq!(shape(&parsed), vec![(field("key"), 0, 1)]);
    assert_eq!(parsed.exceptions, vec!["Unknown wire type: 3".to_string()]);

    let parsed = parse_one(&VarintParser, vec![0x0F], &varint(5));
    assert_eq!(parsed.exceptions, vec!["Unknown wire type: 7".to_string()]);

    let parsed = parse_one(&VarintParser, vec![0x82, 0x81, 0x01, 1], &varint(2));
    assert!(parsed.segments.is_empty());
    assert_eq!(parsed.exceptions, vec!["Varint key too long".to_string()]);

    let parsed = parse_one(&VarintParser, vec![0x09, 1, 2, 3], &varint(5));
    assert_eq!(shape(&parsed), vec![(field("key"), 0, 1)]);
    assert_eq!(parsed.exceptions, vec!["Incomplete fixed64".to_string()]);

    let parsed = parse_one(&VarintParser, vec![0x0D, 1, 2, 3], &varint(5));
    assert_eq!(parsed.exceptions, vec!["Incomplete fixed32".to_string()]);

    let parsed = parse_one(&VarintParser, vec![0x0A], &varint(5));
    assert_eq!(shape(&parsed), vec![(field("key"), 0, 1)]);
    assert_eq!(parsed.exceptions, vec!["Incomplete length".to_string()]);

    let parsed = parse_one(&VarintParser, vec![0x0A, 3, 1, 2], &varint(5));
    assert_eq!(shape(&parsed), vec![(field("key"), 0, 1)]);
    assert_eq!(
        parsed.exceptions,
        vec!["Length-delimited value extends beyond PDU".to_string()]
    );

    let parsed = parse_one(&VarintParser, vec![0x88, 0x80], &varint(5));
    assert_eq!(shape(&parsed), vec![(field("key"), 0, 2), (field("value_varint"), 2, 2)]);
    assert!(parsed.exceptions.is_empty());
}

#[test]
fn a_parser_parses_nothing_under_another_family() {
    let corpus = create_test_corpus(vec![vec![1, 2, 3], vec![4, 5, 6]]);
    let h = Hypothesis::FixedHeader { len: 1 };
    assert!(!LengthPrefixParser.applicable(&h));
    assert!(!DelimiterParser.applicable(&h));
    assert!(FixedHeaderParser.applicable(&h));
    assert!(!ExtensibleBitmapParser.applicable(&h));
    assert!(!TlvParser.applicable(&h));
    assert!(!VarintParser.applicable(&h));
    assert!(LengthPrefixParser.parse_corpus(&corpus, &h).parsed_pdus.is_empty());
    assert!(DelimiterParser.parse_corpus(&corpus, &h).parsed_pdus.is_empty());
    assert!(ExtensibleBitmapParser.parse_corpus(&corpus, &h).parsed_pdus.is_empty());
    assert!(TlvParser.parse_corpus(&corpus, &h).parsed_pdus.is_empty());
    assert!(VarintParser.parse_corpus(&corpus, &h).parsed_pdus.is_empty());
    assert_eq!(FixedHeaderParser.parse_corpus(&corpus, &h).parsed_pdus.len(), 2);
    assert_eq!(LengthPrefixParser.name(), "LengthPrefixParser");
    assert_eq!(DelimiterParser.name(), "DelimiterParser");
    assert_eq!(FixedHeaderParser.name(), "FixedHeaderParser");
    assert_eq!(ExtensibleBitmapParser.name(), "ExtensibleBitmapParser");
    assert_eq!(TlvParser.name(), "TlvParser");
    assert_eq!(VarintParser.name(), "VarintParser");
}

#[test]
fn parsing_reads_the_selected_range_of_a_shared_buffer() {
    let buffer: Arc<[u8]> = Arc::from(vec![0xFF, 0xFF, 2, 7, 8, 0xFF]);
    let pdu = PduRef::new(buffer, 2..5);
    let corpus = Corpus::new(
        vec![pdu],
        CorpusMeta { source: "part".to_string(), total_bytes: 3, pdu_count: 1, flow_id: None },
    );
    assert!(corpus.is_well_formed());
    let parsed = LengthPrefixParser
        .parse_corpus(&corpus, &length_prefix(0, LengthWidth::One, Endianness::Big));
    assert_eq!(
        shape(&parsed.parsed_pdus[0]),
        vec![(field("length"), 0, 1), (SegmentKind::Sdu, 1, 3)]
    );
}

#[test]
fn every_segment_of_every_proposal_lies_within_its_payload() {
    let mut state: u32 = 12345;
    let mut data = Vec::new();
    for n in 0..12usize {
        let mut pdu = Vec::new();
        for _ in 0..(n * 5) {
            state = state.wrapping_mul(1664525).wrapping_add(1013904223);
            pdu.push((state >> 24) as u8);
        }
        data.push(pdu);
    }
    data.push(vec![0, 0, 0, 0, 0, 0]);
    data.push(vec![0x0A, 2, 1, 1, 0x0A, 0xFF]);
    let corpus = create_test_corpus(data);
    let registry = create_default_registry();
    let engine = protocol_infer_core::inference::InferenceEngine::new();
    let hypotheses = engine.propose_all(&corpus, &registry);
    assert_eq!(hypotheses.len(), 30 + 4 + 80 + 108 + 3);
    let mut extra = vec![
        tlv(0, 1, 1, TlvLenRule::IndefiniteWithEoc, false),
        tlv(2, 3, 7, TlvLenRule::IndefiniteWithEoc, true),
        Hypothesis::FixedHeader { len: 100 },
        length_prefix(1000, LengthWidth::Four, Endianness::Big),
        length_prefix(usize::MAX, LengthWidth::Four, Endianness::Big),
        tlv(usize::MAX - 5, 2, usize::MAX - 1, TlvLenRule::DefiniteLong, true),
        Hypothesis::ExtensibleBitmap { start: usize::MAX, cont_bit: 3, stop_value: 1, max_bytes: usize::MAX },
        varint(1),
        varint(usize::MAX),
    ];
    let mut all = hypotheses;
    all.append(&mut extra);
    for h in &all {
        assert!(h.is_valid());
        let parsed = engine.parse_candidate(&corpus, &registry, h).expect("a parser reads it");
        assert_eq!(parsed.parsed_pdus.len(), corpus.len());
        assert!(parsed.fits_corpus(&corpus));
        for (pdu, parsed_pdu) in corpus.items.iter().zip(parsed.parsed_pdus.iter()) {
            for segment in &parsed_pdu.segments {
                assert!(segment.range.start <= segment.range.end);
                assert!(segment.range.end <= pdu.len());
            }
        }
    }
}

#[test]
fn framing_round_trips() {
    let payloads: Vec<Vec<u8>> = vec![vec![1, 2, 3], vec![], vec![0x0A; 40], vec![9]];

    let mut bundle = Vec::new();
    let mut expected = Vec::new();
    for p in &payloads {
        bundle.extend_from_slice(&[0xEE, 0xEF]);
        bundle.extend_from_slice(&(p.len() as u32).to_be_bytes());
        if !p.is_empty() {
            expected.push(bundle.len()..bundle.len() + p.len());
        }
        bundle.extend_from_slice(p);
    }
    let parsed = parse_one(
        &LengthPrefixParser,
        bundle.clone(),
        &length_prefix(2, LengthWidth::Four, Endianness::Big),
    );
    assert_eq!(parsed.sdus(), expected);
    assert!(parsed.is_success() && parsed.exceptions.is_empty());
    for (range, p) in parsed.sdus().iter().zip(payloads.iter().filter(|p| !p.is_empty())) {
        assert_eq!(&bundle[range.clone()], &p[..]);
    }

    let mut bundle = Vec::new();
    let mut expected = Vec::new();
    for p in &payloads {
        if !p.is_empty() {
            expected.push(bundle.len()..bundle.len() + p.len());
        }
        bundle.extend_from_slice(p);
        bundle.extend_from_slice(&[0xFF, 0xFF]);
    }
    let parsed = parse_one(
        &DelimiterParser,
        bundle,
        &Hypothesis::DelimiterBundle { pattern: vec![0xFF, 0xFF] },
    );
    assert_eq!(parsed.sdus(), expected);
    assert!(parsed.is_success() && parsed.exceptions.is_empty());

    let mut bundle = Vec::new();
    let mut expected = Vec::new();
    for p in &payloads {
        if !p.is_empty() {
            expected.push(bundle.len()..bundle.len() + p.len());
        }
        bundle.extend_from_slice(p);
        bundle.extend_from_slice(&[0xFF, 0xFF]);
    }
    expected.push(bundle.len()..bundle.len() + 5);
    bundle.extend_from_slice(&[4, 0xFF, 5, 0xFF, 6]);
    let parsed = parse_one(
        &DelimiterParser,
        bundle,
        &Hypothesis::DelimiterBundle { pattern: vec![0xFF, 0xFF] },
    );
    assert_eq!(parsed.sdus(), expected);
    assert!(parsed.is_success() && parsed.exceptions.is_empty());

    let mut pdu = vec![7u8; 6];
    pdu.extend_from_slice(&payloads[2]);
    let parsed = parse_one(&FixedHeaderParser, pdu, &Hypothesis::FixedHeader { len: 6 });
    assert_eq!(parsed.sdus(), vec![6..46]);

    let mut pdu = vec![0x55, 0x10, 0x10, 0x00];
    pdu.extend_from_slice(&payloads[0]);
    let parsed = parse_one(
        &ExtensibleBitmapParser,
        pdu,
        &Hypothesis::ExtensibleBitmap { start: 1, cont_bit: 4, stop_value: 0, max_bytes: 8 },
    );
    assert_eq!(parsed.sdus(), vec![4..7]);

    let mut run = Vec::new();
    let mut expected = Vec::new();
    for p in &payloads {
        run.extend_from_slice(&[0xAA, 0x31, 0x32, 0xBB]);
        run.extend_from_slice(&((p.len() + 5) as u16).to_be_bytes());
        if !p.is_empty() {
            expected.push(run.len()..run.len() + p.len());
        }
        run.extend_from_slice(p);
    }
    let parsed = parse_one(&TlvParser, run, &tlv(1, 2, 4, TlvLenRule::DefiniteMedium, true));
    assert_eq!(parsed.sdus(), expected);
    assert!(parsed.is_success() && parsed.exceptions.is_empty());

    let mut run = Vec::new();
    let mut expected = Vec::new();
    for p in &payloads {
        run.extend_from_slice(&[0x92, 0x81, 0x01]);
        run.push(p.len() as u8);
        expected.push(run.len()..run.len() + p.len());
        run.extend_from_slice(p);
    }
    let parsed = parse_one(&VarintParser, run, &varint(5));
    assert_eq!(parsed.sdus(), expected);
    assert!(parsed.is_success() && parsed.exceptions.is_empty());
}
