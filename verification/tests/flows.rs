use protocol_infer_core::corpus::Direction;
use protocol_infer_core::flows::{udp_payload, FlowTable};
use std::sync::Arc;

fn record(table: &mut FlowTable, src: &str, dst: &str, sport: u16, dport: u16, at: u64, len: usize) -> usize {
    table.record(src.to_string(), dst.to_string(), sport, dport, 17, at, Arc::from(vec![at as u8; len]))
}

#[test]
fn datagrams_join_the_flow_of_their_endpoints() {
    let mut table = FlowTable::new();
    assert!(table.flows.is_empty());
    assert_eq!(record(&mut table, "10.0.0.1", "10.0.0.2", 1000, 53, 1, 3), 0);
    assert_eq!(record(&mut table, "10.0.0.2", "10.0.0.1", 53, 1000, 2, 4), 1);
    assert_eq!(record(&mut table, "10.0.0.1", "10.0.0.2", 1000, 53, 3, 5), 0);
    assert_eq!(record(&mut table, "10.0.0.1", "10.0.0.2", 1001, 53, 4, 6), 2);
    assert_eq!(record(&mut table, "10.0.0.2", "10.0.0.1", 53, 1000, 5, 7), 1);
    assert_eq!(record(&mut table, "10.0.0.2", "10.0.0.1", 53, 1000, 6, 8), 1);
    assert_eq!(table.flows.len(), 3);

    let first = &table.flows[0];
    assert_eq!((first.src_ip.as_str(), first.dst_ip.as_str()), ("10.0.0.1", "10.0.0.2"));
    assert_eq!((first.src_port, first.dst_port, first.protocol), (1000, 53, 17));
    assert_eq!(first.datagrams.len(), 2);
    assert_eq!(first.datagrams[0].timestamp_micros, 1);
    assert_eq!(first.datagrams[1].timestamp_micros, 3);
    assert_eq!(first.datagrams[1].payload.len(), 5);
    assert!(first.datagrams.iter().all(|d| d.flow_id == 0));
    assert!(first.datagrams.iter().all(|d| d.direction == Direction::ClientToServer));

    let second = &table.flows[1];
    assert_eq!(second.datagrams.len(), 3);
    assert!(second.datagrams.iter().all(|d| d.flow_id == 1));
    assert!(second.datagrams.iter().all(|d| d.direction == Direction::ServerToClient));
    assert_eq!(table.flows[2].datagrams[0].direction, Direction::ClientToServer);
    assert_eq!(table.flows[2].datagrams[0].flow_id, 2);

    let a = "10.0.0.1".to_string();
    let b = "10.0.0.2".to_string();
    assert_eq!(table.find(&a, &b, 1000, 53, 17), Some(0));
    assert_eq!(table.find(&b, &a, 53, 1000, 17), Some(1));
    assert_eq!(table.find(&a, &b, 1001, 53, 17), Some(2));
    assert_eq!(table.find(&a, &b, 1000, 53, 6), None);
    assert_eq!(table.find(&a, &a, 1000, 53, 17), None);
    assert_eq!(FlowTable::default().find(&a, &b, 1000, 53, 17), None);
}

#[test]
fn flows_are_listed_largest_first() {
    let mut table = FlowTable::new();
    record(&mut table, "a", "b", 1, 2, 1, 1);
    record(&mut table, "c", "d", 1, 2, 2, 1);
    record(&mut table, "e", "f", 1, 2, 3, 1);
    record(&mut table, "c", "d", 1, 2, 4, 1);
    record(&mut table, "g", "h", 1, 2, 5, 1);
    record(&mut table, "g", "h", 1, 2, 6, 1);
    record(&mut table, "g", "h", 1, 2, 7, 1);
    record(&mut table, "i", "j", 1, 2, 8, 1);
    record(&mut table, "i", "j", 1, 2, 9, 1);
    let sorted = table.by_size();
    let order: Vec<(&str, usize)> =
        sorted.iter().map(|f| (f.src_ip.as_str(), f.datagrams.len())).collect();
    assert_eq!(order, vec![("g", 3), ("c", 2), ("i", 2), ("a", 1), ("e", 1)]);
    assert_eq!(sorted[0].datagrams[2].timestamp_micros, 7);
    assert!(Arc::ptr_eq(&sorted[1].datagrams[0].payload, &table.flows[1].datagrams[0].payload));
    assert_eq!(table.flows.len(), 5);
    assert!(FlowTable::new().by_size().is_empty());
    let copy = sorted[0].clone();
    assert_eq!(copy.datagrams.len(), 3);
    assert_eq!(copy.src_ip, "g");
}

#[test]
fn the_udp_payload_follows_the_three_headers() {
    let frame: Vec<u8> = (0..50u8).collect();
    assert_eq!(udp_payload(&frame, 20), Some(&frame[42..]));
    assert_eq!(udp_payload(&frame, 24), Some(&frame[46..]));
    assert_eq!(udp_payload(&frame, 27), Some(&frame[49..]));
    assert_eq!(udp_payload(&frame, 28), None);
    assert_eq!(udp_payload(&frame, 40), None);
    assert_eq!(udp_payload(&frame, usize::MAX), None);
    assert_eq!(udp_payload(&frame[..22], 0), None);
    assert_eq!(udp_payload(&frame[..23], 0), Some(&frame[22..23]));
    assert_eq!(udp_payload(&[], 0), None);
}
