use pcap_analyze::capture::{nanos_of_ticks, CaptureError, CaptureParser, Endian};

fn ethernet_ipv4_tcp() -> Vec<u8> {
    let mut packet = vec![
        0, 1, 2, 3, 4, 5, 6, 7, 8, 9, 10, 11, 0x08, 0x00, 0x45, 0, 0, 58, 0, 0, 0, 0, 64, 6, 0,
        0, 10, 0, 0, 1, 10, 0, 0, 2, 0x04, 0xd2, 0, 80, 0, 0, 0, 1, 0, 0, 0, 0, 0x50, 0x02,
        0xff, 0xff, 0, 0, 0, 0,
    ];
    packet.extend_from_slice(b"GET / HTTP/1.1\r\n\r\n");
    packet
}

fn pcap_header(magic: [u8; 4], link_type: u32) -> Vec<u8> {
    let mut capture = magic.to_vec();
    capture.extend_from_slice(&[2, 0, 4, 0, 0, 0, 0, 0, 0, 0, 0, 0, 0xff, 0xff, 0, 0]);
    capture.extend_from_slice(&link_type.to_le_bytes());
    capture
}

fn pcap_record(capture: &mut Vec<u8>, seconds: u32, fraction: u32, packet: &[u8]) {
    capture.extend_from_slice(&seconds.to_le_bytes());
    capture.extend_from_slice(&fraction.to_le_bytes());
    capture.extend_from_slice(&(packet.len() as u32).to_le_bytes());
    capture.extend_from_slice(&(packet.len() as u32).to_le_bytes());
    capture.extend_from_slice(packet);
}

fn append_pcapng_block(capture: &mut Vec<u8>, block_type: u32, body: &[u8]) {
    let length = (12 + body.len()) as u32;
    capture.extend_from_slice(&block_type.to_le_bytes());
    capture.extend_from_slice(&length.to_le_bytes());
    capture.extend_from_slice(body);
    capture.extend_from_slice(&length.to_le_bytes());
}

fn section_header(capture: &mut Vec<u8>) {
    append_pcapng_block(
        capture,
        0x0a0d0d0a,
        &[
            0x4d, 0x3c, 0x2b, 0x1a, 1, 0, 0, 0, 0xff, 0xff, 0xff, 0xff, 0xff, 0xff, 0xff, 0xff,
        ],
    );
}

fn ethernet_interface(capture: &mut Vec<u8>, snap_len: u32) {
    let mut body = vec![1, 0, 0, 0];
    body.extend_from_slice(&snap_len.to_le_bytes());
    body.extend_from_slice(&[0, 0, 0, 0]);
    append_pcapng_block(capture, 1, &body);
}

fn enhanced_packet(capture: &mut Vec<u8>, interface: u32, ticks: u64, packet: &[u8]) {
    let mut enhanced = Vec::new();
    enhanced.extend_from_slice(&interface.to_le_bytes());
    enhanced.extend_from_slice(&((ticks >> 32) as u32).to_le_bytes());
    enhanced.extend_from_slice(&(ticks as u32).to_le_bytes());
    enhanced.extend_from_slice(&(packet.len() as u32).to_le_bytes());
    enhanced.extend_from_slice(&(packet.len() as u32).to_le_bytes());
    enhanced.extend_from_slice(packet);
    while enhanced.len() % 4 != 0 {
        enhanced.push(0);
    }
    append_pcapng_block(capture, 6, &enhanced);
}

fn push_all(capture: &[u8], chunk: usize) -> (CaptureParser, Result<(), String>) {
    let mut parser = CaptureParser::default();
    parser.reset(capture.len() as u64);
    for piece in capture.chunks(chunk) {
        if let Err(e) = parser.push(piece) {
            return (parser, Err(e));
        }
    }
    (parser, Ok(()))
}

#[test]
fn parses_pcap_across_chunk_boundaries() {
    let packet = ethernet_ipv4_tcp();
    let mut capture = vec![
        0xd4, 0xc3, 0xb2, 0xa1, 2, 0, 4, 0, 0, 0, 0, 0, 0, 0, 0, 0, 0xff, 0xff, 0, 0, 1, 0, 0, 0,
    ];
    capture.extend_from_slice(&1u32.to_le_bytes());
    capture.extend_from_slice(&500u32.to_le_bytes());
    capture.extend_from_slice(&(packet.len() as u32).to_le_bytes());
    capture.extend_from_slice(&(packet.len() as u32).to_le_bytes());
    capture.extend_from_slice(&packet);

    let mut parser = CaptureParser::default();
    parser.reset(capture.len() as u64);
    for chunk in capture.chunks(7) {
        parser.push(chunk).unwrap();
    }
    let progress = parser.finish().unwrap();
    assert_eq!(progress.stats.packets, 1);
    assert_eq!(progress.stats.flows, 1);
    assert_eq!(progress.stats.entities, 2);
    let row = &parser.index().rows(0, 1)[0];
    assert_eq!(row.protocol, "HTTP/1");
    assert_eq!(row.source, "10.0.0.1");
    assert!(parser.index().flow(row.flow_id.unwrap()).is_some());
}

#[test]
fn parses_pcapng_interface_timestamp_resolution() {
    let packet = ethernet_ipv4_tcp();
    let mut capture = Vec::new();
    append_pcapng_block(
        &mut capture,
        0x0a0d0d0a,
        &[
            0x4d, 0x3c, 0x2b, 0x1a, 1, 0, 0, 0, 0xff, 0xff, 0xff, 0xff, 0xff, 0xff, 0xff, 0xff,
        ],
    );
    append_pcapng_block(
        &mut capture,
        1,
        &[
            1, 0, 0, 0, 0xff, 0xff, 0, 0, // Ethernet + snap length
            9, 0, 1, 0, 9, 0, 0, 0, // if_tsresol = 10^-9
            14, 0, 8, 0, 2, 0, 0, 0, 0, 0, 0, 0, // if_tsoffset = 2 seconds
            0, 0, 0, 0, // end of options
        ],
    );
    let mut enhanced = Vec::new();
    enhanced.extend_from_slice(&0u32.to_le_bytes());
    enhanced.extend_from_slice(&0u32.to_le_bytes());
    enhanced.extend_from_slice(&1000u32.to_le_bytes());
    enhanced.extend_from_slice(&(packet.len() as u32).to_le_bytes());
    enhanced.extend_from_slice(&(packet.len() as u32).to_le_bytes());
    enhanced.extend_from_slice(&packet);
    while enhanced.len() % 4 != 0 {
        enhanced.push(0);
    }
    append_pcapng_block(&mut capture, 6, &enhanced);

    let mut parser = CaptureParser::default();
    parser.reset(capture.len() as u64);
    for chunk in capture.chunks(11) {
        parser.push(chunk).unwrap();
    }
    let progress = parser.finish().unwrap();
    assert_eq!(progress.format, "pcapng");
    assert_eq!(progress.stats.packets, 1);
    let micros = parser.index().rows(0, 1)[0].timestamp_nanos.unwrap() as f64 / 1000.0;
    assert_eq!(micros, 2_000_001.0);
}

#[test]
fn rejects_short_pcapng_section_header() {
    let mut capture = Vec::new();
    append_pcapng_block(&mut capture, 0x0a0d0d0a, &[0x4d, 0x3c, 0x2b, 0x1a]);
    let mut parser = CaptureParser::default();
    parser.reset(capture.len() as u64);
    assert!(parser.push(&capture).is_err());
}

#[test]
fn every_chunk_size_gives_the_same_index() {
    let packet = ethernet_ipv4_tcp();
    let mut capture = pcap_header([0xd4, 0xc3, 0xb2, 0xa1], 1);
    pcap_record(&mut capture, 1, 500, &packet);
    pcap_record(&mut capture, 2, 0, &packet[..20]);
    pcap_record(&mut capture, 3, 7, &packet);
    let (whole, r) = push_all(&capture, capture.len());
    r.unwrap();
    for chunk in [1, 2, 3, 5, 16, 17, 40, 100] {
        let (mut parser, r) = push_all(&capture, chunk);
        r.unwrap();
        let progress = parser.finish().unwrap();
        assert_eq!(progress.stats, whole.progress().stats);
        assert_eq!(progress.consumed_bytes, capture.len() as u64);
        assert_eq!(progress.received_bytes, capture.len() as u64);
        let rows = parser.index().rows(0, 10);
        let expected = whole.index().rows(0, 10);
        assert_eq!(rows.len(), 3);
        for (a, b) in rows.iter().zip(expected.iter()) {
            assert_eq!(a.file_offset, b.file_offset);
            assert_eq!(a.timestamp_nanos, b.timestamp_nanos);
            assert_eq!(a.protocol, b.protocol);
            assert_eq!(a.summary, b.summary);
        }
    }
}

#[test]
fn pcap_timestamps_and_offsets() {
    let packet = ethernet_ipv4_tcp();
    let mut capture = pcap_header([0xd4, 0xc3, 0xb2, 0xa1], 1);
    pcap_record(&mut capture, 1, 500, &packet);
    let (parser, r) = push_all(&capture, 9);
    r.unwrap();
    let row = &parser.index().rows(0, 1)[0];
    assert_eq!(row.timestamp_nanos, Some(1_000_500_000));
    assert_eq!(row.file_offset, 40);
    assert_eq!(row.captured_len, packet.len() as u32);

    let mut nano = pcap_header([0x4d, 0x3c, 0xb2, 0xa1], 1);
    pcap_record(&mut nano, 1, 500, &packet);
    let (parser, r) = push_all(&nano, 5);
    r.unwrap();
    assert_eq!(parser.index().rows(0, 1)[0].timestamp_nanos, Some(1_000_000_500));
}

#[test]
fn big_endian_pcap() {
    let packet = ethernet_ipv4_tcp();
    let mut capture = vec![0xa1, 0xb2, 0xc3, 0xd4, 0, 2, 0, 4, 0, 0, 0, 0, 0, 0, 0, 0, 0, 0, 0xff, 0xff, 0, 0, 0, 1];
    capture.extend_from_slice(&2u32.to_be_bytes());
    capture.extend_from_slice(&3u32.to_be_bytes());
    capture.extend_from_slice(&(packet.len() as u32).to_be_bytes());
    capture.extend_from_slice(&(packet.len() as u32).to_be_bytes());
    capture.extend_from_slice(&packet);
    let (mut parser, r) = push_all(&capture, 4);
    r.unwrap();
    let progress = parser.finish().unwrap();
    assert_eq!(progress.format, "pcap");
    let row = &parser.index().rows(0, 1)[0];
    assert_eq!(row.timestamp_nanos, Some(2_000_003_000));
    assert_eq!(row.protocol, "HTTP/1");
}

#[test]
fn unknown_link_type_gives_a_malformed_row() {
    let packet = ethernet_ipv4_tcp();
    let mut capture = pcap_header([0xd4, 0xc3, 0xb2, 0xa1], 0x0001_0000 + 147);
    pcap_record(&mut capture, 1, 0, &packet);
    let (parser, r) = push_all(&capture, 64);
    r.unwrap();
    let progress = parser.progress();
    assert_eq!(progress.stats.packets, 1);
    assert_eq!(progress.stats.malformed_packets, 1);
    assert_eq!(parser.index().rows(0, 1)[0].protocol, "Unknown");
}

#[test]
fn progress_while_detecting() {
    let mut parser = CaptureParser::default();
    parser.reset(100);
    let progress = parser.push(&[0xd4, 0xc3]).unwrap();
    assert_eq!(progress.format, "detecting");
    assert_eq!(progress.received_bytes, 2);
    assert_eq!(progress.consumed_bytes, 0);
    assert_eq!(progress.total_bytes, 100);
    assert!(!progress.complete);
    assert_eq!(
        parser.finish().unwrap_err(),
        "file is too short or has an unsupported capture format"
    );
}

#[test]
fn rejects_unknown_magic() {
    let capture = vec![0u8; 24];
    let (_, r) = push_all(&capture, 24);
    assert_eq!(r.unwrap_err(), "unsupported file: expected PCAP or PCAPNG magic bytes");
}

#[test]
fn rejects_oversized_pcap_packet() {
    let mut capture = pcap_header([0xd4, 0xc3, 0xb2, 0xa1], 1);
    capture.extend_from_slice(&[0, 0, 0, 0, 0, 0, 0, 0]);
    capture.extend_from_slice(&(64 * 1024 * 1024 + 1u32).to_le_bytes());
    capture.extend_from_slice(&[0, 0, 0, 0]);
    let (_, r) = push_all(&capture, 3);
    assert_eq!(r.unwrap_err(), "PCAP packet is too large: 67108865 bytes");
}

#[test]
fn finish_refuses_an_incomplete_record() {
    let packet = ethernet_ipv4_tcp();
    let mut capture = pcap_header([0xd4, 0xc3, 0xb2, 0xa1], 1);
    pcap_record(&mut capture, 1, 0, &packet);
    capture.truncate(capture.len() - 5);
    let (mut parser, r) = push_all(&capture, 10);
    r.unwrap();
    assert_eq!(parser.progress().consumed_bytes, 24);
    assert_eq!(
        parser.finish().unwrap_err(),
        format!("capture ended with {} bytes of an incomplete record", 16 + packet.len() - 5)
    );
}

#[test]
fn push_after_finish_is_refused() {
    let capture = pcap_header([0xd4, 0xc3, 0xb2, 0xa1], 1);
    let (mut parser, r) = push_all(&capture, 24);
    r.unwrap();
    assert!(parser.finish().unwrap().complete);
    assert_eq!(parser.push(&[1]).unwrap_err(), "capture is already complete");
    assert_eq!(parser.progress().received_bytes, 24);
}

#[test]
fn rejects_bad_byte_order_magic() {
    let mut capture = Vec::new();
    append_pcapng_block(&mut capture, 0x0a0d0d0a, &[1, 2, 3, 4, 1, 0, 0, 0, 0, 0, 0, 0, 0, 0, 0, 0]);
    let (_, r) = push_all(&capture, 5);
    assert_eq!(r.unwrap_err(), "invalid PCAPNG byte-order magic");
}

#[test]
fn rejects_bad_block_length() {
    let mut capture = Vec::new();
    section_header(&mut capture);
    capture.extend_from_slice(&[1, 0, 0, 0, 14, 0, 0, 0]);
    capture.extend_from_slice(&[0, 0, 0, 0, 14, 0, 0, 0]);
    let (_, r) = push_all(&capture, 8);
    assert_eq!(r.unwrap_err(), "invalid PCAPNG block length: 14");
}

#[test]
fn rejects_trailer_mismatch() {
    let mut capture = Vec::new();
    section_header(&mut capture);
    capture.extend_from_slice(&[2, 0, 0, 0, 12, 0, 0, 0, 16, 0, 0, 0]);
    let (_, r) = push_all(&capture, 12);
    assert_eq!(r.unwrap_err(), "PCAPNG block length trailer does not match");
}

#[test]
fn rejects_truncated_interface_block() {
    let mut capture = Vec::new();
    section_header(&mut capture);
    append_pcapng_block(&mut capture, 1, &[1, 0, 0, 0]);
    let (_, r) = push_all(&capture, 100);
    assert_eq!(r.unwrap_err(), "truncated PCAPNG interface block");
}

#[test]
fn rejects_truncated_interface_option() {
    let mut capture = Vec::new();
    section_header(&mut capture);
    append_pcapng_block(&mut capture, 1, &[1, 0, 0, 0, 0, 0, 0, 0, 9, 0, 8, 0, 6, 0, 0, 0]);
    let (_, r) = push_all(&capture, 100);
    assert_eq!(r.unwrap_err(), "truncated PCAPNG interface option");
}

#[test]
fn rejects_missing_interface() {
    let mut capture = Vec::new();
    section_header(&mut capture);
    ethernet_interface(&mut capture, 0);
    enhanced_packet(&mut capture, 3, 0, &ethernet_ipv4_tcp());
    let (parser, r) = push_all(&capture, 13);
    assert_eq!(r.unwrap_err(), "PCAPNG packet references missing interface 3");
    assert_eq!(parser.progress().stats.packets, 0);
}

#[test]
fn rejects_truncated_enhanced_packet() {
    let mut capture = Vec::new();
    section_header(&mut capture);
    append_pcapng_block(&mut capture, 6, &[0; 16]);
    let (_, r) = push_all(&capture, 100);
    assert_eq!(r.unwrap_err(), "truncated PCAPNG enhanced packet block");
}

#[test]
fn rejects_invalid_captured_length() {
    let mut capture = Vec::new();
    section_header(&mut capture);
    ethernet_interface(&mut capture, 0);
    let mut body = vec![0; 20];
    body[12] = 200;
    append_pcapng_block(&mut capture, 6, &body);
    let (_, r) = push_all(&capture, 100);
    assert_eq!(r.unwrap_err(), "invalid PCAPNG captured packet length");
}

#[test]
fn rejects_simple_packet_without_interface() {
    let mut capture = Vec::new();
    section_header(&mut capture);
    append_pcapng_block(&mut capture, 3, &[0, 0, 0, 0]);
    let (_, r) = push_all(&capture, 100);
    assert_eq!(r.unwrap_err(), "PCAPNG simple packet has no interface");
}

#[test]
fn rejects_truncated_simple_packet() {
    let mut capture = Vec::new();
    section_header(&mut capture);
    ethernet_interface(&mut capture, 0);
    append_pcapng_block(&mut capture, 3, &[]);
    let (_, r) = push_all(&capture, 100);
    assert_eq!(r.unwrap_err(), "truncated PCAPNG simple packet block");
}

#[test]
fn simple_packet_is_cut_to_wire_and_snap_length() {
    let packet = ethernet_ipv4_tcp();
    let mut capture = Vec::new();
    section_header(&mut capture);
    ethernet_interface(&mut capture, 40);
    let mut body = (packet.len() as u32).to_le_bytes().to_vec();
    body.extend_from_slice(&packet);
    while body.len() % 4 != 0 {
        body.push(0);
    }
    append_pcapng_block(&mut capture, 3, &body);
    let (mut parser, r) = push_all(&capture, 6);
    r.unwrap();
    parser.finish().unwrap();
    let row = &parser.index().rows(0, 1)[0];
    assert_eq!(row.captured_len, 40);
    assert_eq!(row.wire_len, packet.len() as u32);
    assert_eq!(row.timestamp_nanos, None);
}

#[test]
fn unknown_blocks_are_skipped_and_sections_reset_interfaces() {
    let packet = ethernet_ipv4_tcp();
    let mut capture = Vec::new();
    section_header(&mut capture);
    ethernet_interface(&mut capture, 0);
    append_pcapng_block(&mut capture, 5, &[1, 2, 3, 4]);
    enhanced_packet(&mut capture, 0, 1_500_000, &packet);
    section_header(&mut capture);
    enhanced_packet(&mut capture, 0, 0, &packet);
    let (parser, r) = push_all(&capture, 1);
    assert_eq!(r.unwrap_err(), "PCAPNG packet references missing interface 0");
    let rows = parser.index().rows(0, 10);
    assert_eq!(rows.len(), 1);
    assert_eq!(rows[0].timestamp_nanos, Some(1_500_000_000));
}

#[test]
fn big_endian_pcapng_section() {
    let mut capture = vec![0x0a, 0x0d, 0x0d, 0x0a, 0, 0, 0, 28, 0x1a, 0x2b, 0x3c, 0x4d];
    capture.extend_from_slice(&[0, 1, 0, 0, 0xff, 0xff, 0xff, 0xff, 0xff, 0xff, 0xff, 0xff]);
    capture.extend_from_slice(&[0, 0, 0, 28]);
    let (mut parser, r) = push_all(&capture, 3);
    r.unwrap();
    let progress = parser.finish().unwrap();
    assert_eq!(progress.format, "pcapng");
    assert_eq!(progress.consumed_bytes, 28);
}

#[test]
fn tick_resolutions() {
    assert_eq!(nanos_of_ticks(7, 6), 7_000);
    assert_eq!(nanos_of_ticks(7, 9), 7);
    assert_eq!(nanos_of_ticks(7, 0), 7_000_000_000);
    assert_eq!(nanos_of_ticks(12_345, 12), 12);
    assert_eq!(nanos_of_ticks(3, 0x80 | 3), 375_000_000);
    assert_eq!(nanos_of_ticks(u64::MAX, 0), u64::MAX as u128 * 1_000_000_000);
}

#[test]
fn byte_orders() {
    let bytes = [1u8, 2, 3, 4, 5, 6, 7, 0x88];
    assert_eq!(Endian::Little.u16(&bytes, 0), 0x0201);
    assert_eq!(Endian::Big.u16(&bytes, 0), 0x0102);
    assert_eq!(Endian::Little.u32(&bytes, 4), 0x8807_0605);
    assert_eq!(Endian::Big.u32(&bytes, 4), 0x0506_0788);
    assert_eq!(Endian::Little.i64(&bytes, 0), i64::from_le_bytes(bytes));
    assert_eq!(Endian::Big.i64(&bytes, 0), i64::from_be_bytes(bytes));
}

#[test]
fn error_messages() {
    assert_eq!(CaptureError::InvalidBlockLength(13).message(), "invalid PCAPNG block length: 13");
    assert_eq!(
        CaptureError::DataBeforeSectionHeader.message(),
        "PCAPNG data appeared before a section header"
    );
    assert_eq!(
        CaptureError::SectionHeaderTooShort.message(),
        "PCAPNG section header is shorter than 28 bytes"
    );
    assert_eq!(
        CaptureError::IncompleteRecord(0).message(),
        "capture ended with 0 bytes of an incomplete record"
    );
}
