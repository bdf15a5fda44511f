use pcap_analyze::decode::{
    classify_tcp, decode_arp, decode_ip, decode_packet, decode_tcp, decode_udp, format_ipv4,
    format_ipv6, format_mac, hex_address, Transport,
};

fn ipv4_tcp(total_len: u16, fragment: u16, trailing: &[u8]) -> Vec<u8> {
    let mut packet = vec![
        0x45,
        0,
        (total_len >> 8) as u8,
        total_len as u8,
        0,
        0,
        (fragment >> 8) as u8,
        fragment as u8,
        64,
        6,
        0,
        0,
        10,
        0,
        0,
        1,
        10,
        0,
        0,
        2,
        0x04,
        0xd2,
        0,
        80,
        0,
        0,
        0,
        1,
        0,
        0,
        0,
        0,
        0x50,
        0x02,
        0xff,
        0xff,
        0,
        0,
        0,
        0,
    ];
    packet.extend_from_slice(trailing);
    packet
}

#[test]
fn ipv4_total_length_excludes_ethernet_padding() {
    let packet = ipv4_tcp(40, 0, b"GET / HTTP/1.1\r\n\r\n");
    let decoded = decode_ip(&packet, None, None).unwrap();
    assert_eq!(decoded.application, "HTTP/1");
    assert!(decoded.summary.ends_with("0 payload bytes"));
}

#[test]
fn rejects_truncated_ipv4_total_length() {
    let packet = ipv4_tcp(80, 0, &[]);
    assert!(decode_ip(&packet, None, None).is_none());
}

#[test]
fn fragmented_ipv4_does_not_create_transport() {
    let packet = ipv4_tcp(40, 0x2000, &[]);
    let decoded = decode_ip(&packet, None, None).unwrap();
    assert_eq!(decoded.application, "IPv4 fragment");
    assert!(decoded.transport.is_none());
}

#[test]
fn udp_length_bounds_payload() {
    let packet = [0, 53, 0x13, 0x89, 0, 8, 0, 0, 1, 2, 3, 4];
    let (_, _, summary) = decode_udp(&packet).unwrap();
    assert!(summary.ends_with("0 payload bytes"));
    let malformed = [0, 53, 0x13, 0x89, 0, 16, 0, 0];
    assert!(decode_udp(&malformed).is_none());
}

#[test]
fn rejects_truncated_ipv6_payload_length() {
    let mut packet = vec![0x60, 0, 0, 0, 0, 20, 6, 64];
    packet.extend_from_slice(&[0; 32]);
    packet.extend_from_slice(&[0; 8]);
    assert!(decode_ip(&packet, None, None).is_none());
}

#[test]
fn fragmented_ipv6_does_not_create_transport() {
    let mut packet = vec![0x60, 0, 0, 0, 0, 8, 44, 64];
    packet.extend_from_slice(&[0; 32]);
    packet.extend_from_slice(&[6, 0, 0, 1, 0, 0, 0, 1]);
    let decoded = decode_ip(&packet, None, None).unwrap();
    assert_eq!(decoded.application, "IPv6 fragment");
    assert!(decoded.transport.is_none());
}

#[test]
fn full_tcp_decode_over_ethernet() {
    let mut frame = vec![0, 1, 2, 3, 4, 5, 6, 7, 8, 9, 10, 11, 0x08, 0x00];
    frame.extend_from_slice(&ipv4_tcp(58, 0, b"GET / HTTP/1.1\r\n\r\n"));
    let decoded = decode_packet(1, &frame).unwrap();
    assert_eq!(decoded.source, "10.0.0.1");
    assert_eq!(decoded.destination, "10.0.0.2");
    assert_eq!(decoded.source_addresses, vec!["10.0.0.1", "06-07-08-09-0a-0b"]);
    assert_eq!(decoded.destination_addresses, vec!["10.0.0.2", "00-01-02-03-04-05"]);
    assert!(decoded.address_associations.is_empty());
    assert_eq!(decoded.application, "HTTP/1");
    assert_eq!(decoded.summary, "1234 → 80 [SYN] 18 payload bytes");
    let transport = decoded.transport.unwrap();
    assert_eq!(transport.kind, Transport::Tcp);
    assert_eq!(transport.source_port, 1234);
    assert_eq!(transport.destination_port, 80);
}

#[test]
fn unknown_link_type_and_short_frames() {
    assert!(decode_packet(7, &[0; 64]).is_none());
    assert!(decode_packet(1, &[0; 13]).is_none());
    assert!(decode_ip(&[], None, None).is_none());
    assert!(decode_ip(&[0x50; 40], None, None).is_none());
}

#[test]
fn vlan_tags_are_skipped_and_other_ethertypes_reported() {
    let mut frame = vec![0, 1, 2, 3, 4, 5, 6, 7, 8, 9, 10, 11, 0x81, 0x00, 0, 5, 0x88, 0xb5];
    frame.extend_from_slice(&[1, 2, 3]);
    let decoded = decode_packet(1, &frame).unwrap();
    assert_eq!(decoded.application, "EtherType 0x88b5");
    assert_eq!(decoded.summary, "Ethernet protocol 0x88b5");
    assert_eq!(decoded.source, "06-07-08-09-0a-0b");
    assert_eq!(decoded.destination_addresses, vec!["00-01-02-03-04-05"]);
    let truncated = vec![0, 1, 2, 3, 4, 5, 6, 7, 8, 9, 10, 11, 0x81, 0x00, 0, 5];
    assert!(decode_packet(1, &truncated).is_none());
}

#[test]
fn arp_reply_associates_both_sides() {
    let arp = [
        0, 1, 8, 0, 6, 4, 0, 2, 0xaa, 0xbb, 0xcc, 0xdd, 0xee, 0xff, 192, 168, 1, 1, 0x11, 0x22,
        0x33, 0x44, 0x55, 0x66, 192, 168, 1, 2,
    ];
    let decoded = decode_arp(&arp, "s".to_string(), "d".to_string()).unwrap();
    assert_eq!(decoded.source, "192.168.1.1");
    assert_eq!(decoded.destination, "192.168.1.2");
    assert_eq!(decoded.application, "ARP");
    assert_eq!(decoded.summary, "ARP reply: 192.168.1.1 → 192.168.1.2");
    assert_eq!(
        decoded.address_associations,
        vec![
            vec!["192.168.1.1".to_string(), "aa-bb-cc-dd-ee-ff".to_string()],
            vec!["192.168.1.2".to_string(), "11-22-33-44-55-66".to_string()],
        ]
    );
}

#[test]
fn arp_request_with_zero_target_hardware_has_one_association() {
    let arp = [
        0, 1, 8, 0, 6, 4, 0, 1, 0xaa, 0xbb, 0xcc, 0xdd, 0xee, 0xff, 10, 0, 0, 1, 0, 0, 0, 0, 0, 0,
        10, 0, 0, 9,
    ];
    let decoded = decode_arp(&arp, "s".to_string(), "d".to_string()).unwrap();
    assert_eq!(decoded.summary, "ARP request: 10.0.0.1 → 10.0.0.9");
    assert_eq!(decoded.address_associations.len(), 1);
    assert!(decode_arp(&arp[..27], "s".to_string(), "d".to_string()).is_none());
}

#[test]
fn arp_with_unusual_lengths_uses_link_addresses() {
    let arp = [0, 1, 8, 0, 2, 2, 0, 7, 1, 2, 0xab, 0xcd, 3, 4, 0x0f, 0x10];
    let decoded = decode_arp(&arp, "src".to_string(), "dst".to_string()).unwrap();
    assert_eq!(decoded.source, "ab:cd");
    assert_eq!(decoded.destination, "0f:10");
    assert_eq!(decoded.source_addresses, vec!["ab:cd", "src"]);
    assert_eq!(decoded.destination_addresses, vec!["0f:10", "dst"]);
    assert_eq!(decoded.summary, "ARP operation: ab:cd → 0f:10");
}

#[test]
fn icmp_and_other_protocols() {
    let mut packet = ipv4_tcp(40, 0, &[]);
    packet[9] = 1;
    let decoded = decode_ip(&packet, None, None).unwrap();
    assert_eq!(decoded.application, "ICMP");
    assert_eq!(decoded.summary, "ICMP 20 bytes");
    packet[9] = 47;
    let decoded = decode_ip(&packet, Some("m1".into()), Some("m2".into())).unwrap();
    assert_eq!(decoded.application, "IP/47");
    assert_eq!(decoded.summary, "IP protocol 47, 20 bytes");
    assert_eq!(decoded.source_addresses, vec!["10.0.0.1", "m1"]);
    assert_eq!(decoded.destination_addresses, vec!["10.0.0.2", "m2"]);
}

#[test]
fn ipv6_udp_dns_and_extension_headers() {
    let mut packet = vec![0x60, 0, 0, 0, 0, 20, 0, 64];
    let mut source = [0u8; 16];
    source[0] = 0x20;
    source[1] = 0x01;
    source[2] = 0x0d;
    source[3] = 0xb8;
    source[15] = 1;
    let mut destination = [0u8; 16];
    destination[15] = 1;
    packet.extend_from_slice(&source);
    packet.extend_from_slice(&destination);
    packet.extend_from_slice(&[17, 0, 0, 0, 0, 0, 0, 0]);
    packet.extend_from_slice(&[0x13, 0x88, 0, 53, 0, 12, 0, 0, 9, 9, 9, 9]);
    let decoded = decode_ip(&packet, None, None).unwrap();
    assert_eq!(decoded.source, "2001:db8::1");
    assert_eq!(decoded.destination, "::1");
    assert_eq!(decoded.application, "DNS");
    assert_eq!(decoded.summary, "5000 → 53, 4 payload bytes");
    assert_eq!(decoded.transport.unwrap().kind, Transport::Udp);
}

#[test]
fn tcp_flags_and_classification() {
    let mut segment = vec![0, 22, 0xc3, 0x50, 0, 0, 0, 0, 0, 0, 0, 0, 0x50, 0x1b, 0, 0, 0, 0, 0, 0];
    let (_, application, summary) = decode_tcp(&segment).unwrap();
    assert_eq!(application, "SSH");
    assert_eq!(summary, "22 → 50000 [SYN,ACK,FIN,PSH] 0 payload bytes");
    segment[13] = 0;
    let (_, _, summary) = decode_tcp(&segment).unwrap();
    assert_eq!(summary, "22 → 50000 [—] 0 payload bytes");
    segment[12] = 0x40;
    assert!(decode_tcp(&segment).is_none());
    assert_eq!(classify_tcp(1, 443, b"x"), "TLS");
    assert_eq!(classify_tcp(80, 443, b"x"), "TLS");
    assert_eq!(classify_tcp(8080, 1, b""), "HTTP/1");
    assert_eq!(classify_tcp(53, 1, b""), "DNS/TCP");
    assert_eq!(classify_tcp(1, 2, b"OPTIONS * HTTP/1.1"), "HTTP/1");
    assert_eq!(classify_tcp(1, 2, b"HTTP/1.1 200 OK"), "HTTP/1");
    assert_eq!(classify_tcp(1, 2, b"PRI * HTTP/2.0\r\n\r\nSM\r\n\r\nrest"), "HTTP/2");
    assert_eq!(classify_tcp(1, 2, b"PRI * HTTP/2.0"), "TCP");
}

#[test]
fn udp_applications() {
    let app = |sp: u16, dp: u16| {
        let mut d = vec![(sp >> 8) as u8, sp as u8, (dp >> 8) as u8, dp as u8, 0, 8, 0, 0];
        d.push(0);
        decode_udp(&d).unwrap().1
    };
    assert_eq!(app(68, 67), "DHCP");
    assert_eq!(app(443, 9), "QUIC");
    assert_eq!(app(9, 5353), "mDNS");
    assert_eq!(app(9, 10), "UDP");
    assert_eq!(app(53, 443), "DNS");
}

#[test]
fn address_text() {
    assert_eq!(format_mac(&[0, 0x1a, 0xff, 0x10, 0x0b, 0x9c]), "00-1a-ff-10-0b-9c");
    assert_eq!(hex_address(&[1, 0xab]), "01:ab");
    assert_eq!(hex_address(&[]), "");
    assert_eq!(format_ipv4(&[192, 0, 2, 255]), "192.0.2.255");
    let v6 = |b: [u8; 16]| format_ipv6(&b);
    assert_eq!(v6([0; 16]), "::");
    let mut b = [0u8; 16];
    b[10] = 0xff;
    b[11] = 0xff;
    b[12] = 192;
    b[13] = 0;
    b[14] = 2;
    b[15] = 1;
    assert_eq!(v6(b), "::ffff:192.0.2.1");
    let b = [0x20, 0x01, 0x0d, 0xb8, 0, 0, 0, 1, 0, 0, 0, 0, 0, 0, 0, 1];
    assert_eq!(v6(b), "2001:db8:0:1::1");
    let b = [0x20, 0x01, 0, 0, 0, 0, 0, 1, 0, 0, 0, 0, 0, 0, 0, 1];
    assert_eq!(v6(b), "2001:0:0:1::1");
    let b = [0xfe, 0x80, 0, 0, 0, 0, 0, 0, 0x02, 0x11, 0x22, 0xff, 0xfe, 0x33, 0x44, 0x55];
    assert_eq!(v6(b), "fe80::211:22ff:fe33:4455");
    let b = [0, 1, 0, 0, 0, 2, 0, 0, 0, 3, 0, 0, 0, 4, 0, 5];
    assert_eq!(v6(b), "1:0:2:0:3:0:4:5");
    assert_eq!(Transport::Tcp.label(), "TCP");
    assert_eq!(Transport::Udp.label(), "UDP");
}

#[test]
fn vlan_tags_are_skipped() {
    let mut frame = vec![0, 1, 2, 3, 4, 5, 6, 7, 8, 9, 10, 11, 0x08, 0x00];
    frame.extend_from_slice(&ipv4_tcp(58, 0, b"GET / HTTP/1.1\r\n\r\n"));
    let plain = decode_packet(1, &frame).unwrap();
    for tag in [[0x81u8, 0x00, 0x00, 0x2a], [0x88, 0xa8, 0xff, 0xff]] {
        let mut tagged = frame[..12].to_vec();
        tagged.extend_from_slice(&tag);
        tagged.extend_from_slice(&frame[12..]);
        let decoded = decode_packet(1, &tagged).unwrap();
        assert_eq!(decoded.source, plain.source);
        assert_eq!(decoded.destination, plain.destination);
        assert_eq!(decoded.source_addresses, plain.source_addresses);
        assert_eq!(decoded.destination_addresses, plain.destination_addresses);
        assert_eq!(decoded.application, plain.application);
        assert_eq!(decoded.summary, plain.summary);
        assert_eq!(decoded.transport, plain.transport);
    }
    let mut cut = frame[..12].to_vec();
    cut.extend_from_slice(&[0x81, 0x00, 0x00]);
    assert!(decode_packet(1, &cut).is_none());
}
