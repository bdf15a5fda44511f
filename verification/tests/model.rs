use pcap_analyze::decode::{DecodedPacket, Transport, TransportInfo};
use pcap_analyze::entities::EntityStore;
use pcap_analyze::model::CaptureIndex;

fn packet(source: &str, destination: &str, source_port: u16, destination_port: u16) -> DecodedPacket {
    DecodedPacket {
        source: source.into(),
        destination: destination.into(),
        source_addresses: vec![source.into()],
        destination_addresses: vec![destination.into()],
        address_associations: Vec::new(),
        transport: Some(TransportInfo {
            kind: Transport::Tcp,
            source_port,
            destination_port,
        }),
        application: "HTTP/1".into(),
        summary: "test".into(),
    }
}

#[test]
fn active_entity_count_tracks_merges() {
    let mut entities = EntityStore::default();
    let first = entities.entity_for(&"10.0.0.1".to_string());
    let second = entities.entity_for(&"00-01-02-03-04-05".to_string());
    assert_eq!(entities.count(), 2);

    entities.associate(&vec!["10.0.0.1".into(), "00-01-02-03-04-05".into()]);
    assert_eq!(entities.count(), 1);
    assert_eq!(entities.root(first), entities.root(second));

    entities.associate(&vec!["10.0.0.1".into(), "00-01-02-03-04-05".into()]);
    assert_eq!(entities.count(), 1);
}

#[test]
fn flow_timestamps_ignore_nan_and_track_out_of_order_bounds() {
    let packet = || packet("10.0.0.1", "10.0.0.2", 1234, 80);
    let mut index = CaptureIndex::default();
    index.add_packet(None, 0, 40, 40, Some(packet()));
    index.add_packet(Some(20_000), 40, 40, 40, Some(packet()));
    index.add_packet(Some(10_000), 80, 40, 40, Some(packet()));
    let flow = index.flow(0).unwrap();
    assert_eq!(flow.started_nanos.map(|n| n as f64 / 1000.0), Some(10.0));
    assert_eq!(flow.ended_nanos.map(|n| n as f64 / 1000.0), Some(20.0));
}

#[test]
fn both_directions_share_one_flow() {
    let mut index = CaptureIndex::default();
    index.add_packet(Some(1), 0, 40, 100, Some(packet("10.0.0.1", "10.0.0.2", 1234, 80)));
    index.add_packet(Some(2), 40, 40, 60, Some(packet("10.0.0.2", "10.0.0.1", 80, 1234)));
    index.add_packet(Some(3), 80, 40, 7, Some(packet("10.0.0.1", "10.0.0.3", 1234, 80)));
    let stats = index.stats();
    assert_eq!(stats.packets, 3);
    assert_eq!(stats.flows, 2);
    assert_eq!(stats.entities, 3);
    assert_eq!(stats.captured_bytes, 120);
    let flow = index.flow(0).unwrap();
    assert_eq!(flow.transport, "TCP");
    assert_eq!(flow.endpoint_a, "10.0.0.1:1234");
    assert_eq!(flow.endpoint_b, "10.0.0.2:80");
    assert_eq!(flow.packet_count, 2);
    assert_eq!(flow.bytes_a_to_b, 100);
    assert_eq!(flow.bytes_b_to_a, 60);
    assert!(index.flow(2).is_none());
    let rows = index.flow_rows(0, 0, 10);
    assert_eq!(rows.len(), 2);
    assert_eq!(rows[1].id, 1);
    assert_eq!(rows[1].flow_id, Some(0));
}

#[test]
fn malformed_packets_get_rows_without_flows() {
    let mut index = CaptureIndex::default();
    index.add_packet(Some(5), 24, 3, 3, None);
    let stats = index.stats();
    assert_eq!(stats.packets, 1);
    assert_eq!(stats.malformed_packets, 1);
    assert_eq!(stats.flows, 0);
    let row = &index.rows(0, 1)[0];
    assert_eq!(row.protocol, "Unknown");
    assert_eq!(row.source, "—");
    assert_eq!(row.summary, "Unsupported or truncated packet");
    assert_eq!(row.flow_id, None);
}

#[test]
fn row_pages_are_bounded() {
    let mut index = CaptureIndex::default();
    for i in 0..2100u64 {
        index.add_packet(Some(i as i128), i * 10, 1, 1, None);
    }
    assert_eq!(index.rows(0, 5000).len(), 2000);
    assert_eq!(index.rows(2090, 100).len(), 10);
    assert_eq!(index.rows(3000, 10).len(), 0);
    assert_eq!(index.rows(5, 2)[1].id, 6);
}

#[test]
fn entity_summaries_and_flows() {
    let mut index = CaptureIndex::default();
    index.add_packet(Some(1), 0, 40, 100, Some(packet("10.0.0.1", "10.0.0.2", 1234, 80)));
    index.add_packet(Some(2), 40, 40, 60, Some(packet("10.0.0.1", "10.0.0.3", 1234, 53)));
    let row = &index.rows(0, 1)[0];
    let source = row.source_entity.unwrap();
    let summary = index.entity(source).unwrap();
    assert_eq!(summary.addresses, vec!["10.0.0.1".to_string()]);
    assert_eq!(summary.packets_out, 2);
    assert_eq!(summary.bytes_out, 160);
    assert_eq!(summary.packets_in, 0);
    assert_eq!(summary.flow_count, 2);
    let flows = index.entity_flows(source, 0, 10);
    assert_eq!(flows.len(), 2);
    assert_eq!(flows[0].id, 0);
    assert_eq!(flows[1].id, 1);
    assert!(index.entity(99).is_none());
}

#[test]
fn rows_come_in_time_order() {
    let mut index = CaptureIndex::default();
    index.add_packet(Some(20_000), 0, 1, 1, None);
    index.add_packet(None, 10, 1, 1, None);
    index.add_packet(Some(10_000), 20, 1, 1, None);
    index.add_packet(Some(20_000), 30, 1, 1, None);
    let ids: Vec<u64> = index.rows(0, 10).iter().map(|r| r.id).collect();
    assert_eq!(ids, vec![2, 0, 3, 1]);
    let page: Vec<u64> = index.rows(1, 2).iter().map(|r| r.id).collect();
    assert_eq!(page, vec![0, 3]);
}

#[test]
fn flow_rows_carry_their_flow() {
    let mut index = CaptureIndex::default();
    index.add_packet(Some(3), 0, 40, 40, Some(packet("10.0.0.1", "10.0.0.2", 1234, 80)));
    index.add_packet(Some(1), 40, 40, 40, Some(packet("10.0.0.1", "10.0.0.3", 1234, 53)));
    index.add_packet(Some(2), 80, 40, 40, Some(packet("10.0.0.2", "10.0.0.1", 80, 1234)));
    let rows = index.flow_rows(0, 0, 10);
    assert_eq!(rows.iter().map(|r| r.id).collect::<Vec<_>>(), vec![0, 2]);
    assert!(rows.iter().all(|r| r.flow_id == Some(0)));
    let ids: Vec<u64> = index.rows(0, 10).iter().map(|r| r.id).collect();
    assert_eq!(ids, vec![1, 2, 0]);
}
