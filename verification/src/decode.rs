//! Decoding the link, network and transport headers of one captured packet.
use vstd::prelude::*;
use vstd::slice::slice_subrange;
use vstd::string::StringExecFns;
use crate::text::{
    ascii, decimal, hex4, hex_join, ipv4_text, ipv6_text, push_char, push_decimal, push_hex4,
    push_hex_join, push_ipv4, push_ipv6, text,
};

verus! {

/// The transport protocols that form flows.
#[derive(Clone, Copy, Debug, PartialEq, Eq, Hash, Structural)]
pub enum Transport {
    Tcp,
    Udp,
}

impl Transport {
    /// The label of the protocol.
    pub open spec fn label_text(self) -> Seq<char> {
        match self {
            Transport::Tcp => "TCP"@,
            Transport::Udp => "UDP"@,
        }
    }

    pub fn label(self) -> (s: &'static str)
        ensures
            s@ == self.label_text(),
    {
        match self {
            Transport::Tcp => "TCP",
            Transport::Udp => "UDP",
        }
    }
}

/// Transport protocol and ports of a decoded packet.
#[derive(Clone, Copy, Debug, PartialEq, Eq, Structural)]
pub struct TransportInfo {
    pub kind: Transport,
    pub source_port: u16,
    pub destination_port: u16,
}

/// What the decoder learned of one packet.
#[derive(Clone, Debug)]
pub struct DecodedPacket {
    pub source: String,
    pub destination: String,
    pub source_addresses: Vec<String>,
    pub destination_addresses: Vec<String>,
    pub address_associations: Vec<Vec<String>>,
    pub transport: Option<TransportInfo>,
    pub application: String,
    pub summary: String,
}

/// The text content of a [`DecodedPacket`].
pub struct DecodedView {
    pub source: Seq<char>,
    pub destination: Seq<char>,
    pub source_addresses: Seq<Seq<char>>,
    pub destination_addresses: Seq<Seq<char>>,
    pub address_associations: Seq<Seq<Seq<char>>>,
    pub transport: Option<TransportInfo>,
    pub application: Seq<char>,
    pub summary: Seq<char>,
}

impl View for DecodedPacket {
    type V = DecodedView;

    open spec fn view(&self) -> DecodedView {
        DecodedView {
            source: self.source@,
            destination: self.destination@,
            source_addresses: self.source_addresses.deep_view(),
            destination_addresses: self.destination_addresses.deep_view(),
            address_associations: self.address_associations.deep_view(),
            transport: self.transport,
            application: self.application@,
            summary: self.summary@,
        }
    }
}

/// The view of an optional decoded packet.
pub open spec fn decoded_view(d: Option<DecodedPacket>) -> Option<DecodedView> {
    match d {
        Some(p) => Some(p@),
        None => None,
    }
}

/// The text of an optional string.
pub open spec fn text_view(s: Option<String>) -> Option<Seq<char>> {
    match s {
        Some(t) => Some(t@),
        None => None,
    }
}

/// The view of a transport decode result: transport, application label and summary.
pub open spec fn layer_view(r: Option<(Option<TransportInfo>, String, String)>) -> Option<
    (Option<TransportInfo>, Seq<char>, Seq<char>),
> {
    match r {
        Some((t, a, s)) => Some((t, a@, s@)),
        None => None,
    }
}

/// Big-endian 16-bit value of the two bytes at `i`.
pub open spec fn be16(p: Seq<u8>, i: int) -> u16 {
    (p[i] as int * 256 + p[i + 1] as int) as u16
}

/// Hardware address text: two-digit hexadecimal bytes joined by `-`.
pub open spec fn mac_text(b: Seq<u8>) -> Seq<char> {
    hex_join(b, '-')
}

/// Text of an address of unusual length: two-digit hexadecimal bytes joined by `:`.
pub open spec fn hex_address_text(b: Seq<u8>) -> Seq<char> {
    hex_join(b, ':')
}

/// A network address followed by the hardware address it was seen with, if any.
pub open spec fn with_mac(address: Seq<char>, mac: Option<Seq<char>>) -> Seq<Seq<char>> {
    match mac {
        Some(m) => seq![address, m],
        None => seq![address],
    }
}

/// What `decode_packet` makes of a packet of the given link type.
pub open spec fn spec_decode_packet(link_type: u16, p: Seq<u8>) -> Option<DecodedView> {
    if link_type == 1 {
        spec_ethernet(p)
    } else if link_type == 101 {
        spec_ip(p, None, None)
    } else {
        None
    }
}

/// Skips 802.1Q and 802.1ad tags from `offset`; the inner EtherType and the offset of the
/// payload, or `None` when a tag is cut short.
pub open spec fn vlan_end(p: Seq<u8>, ether_type: u16, offset: int) -> Option<(u16, int)>
    decreases p.len() - offset,
{
    if ether_type == 0x8100 || ether_type == 0x88a8 {
        if p.len() < offset + 4 || offset < 0 {
            None
        } else {
            vlan_end(p, be16(p, offset + 2), offset + 4)
        }
    } else {
        Some((ether_type, offset))
    }
}

pub open spec fn spec_ethernet(p: Seq<u8>) -> Option<DecodedView> {
    if p.len() < 14 {
        None
    } else {
        let destination = mac_text(p.subrange(0, 6));
        let source = mac_text(p.subrange(6, 12));
        match vlan_end(p, be16(p, 12), 14) {
            None => None,
            Some((ether_type, offset)) => {
                let rest = p.subrange(offset, p.len() as int);
                if ether_type == 0x0806 {
                    spec_arp(rest, source, destination)
                } else if ether_type == 0x0800 || ether_type == 0x86dd {
                    spec_ip(rest, Some(source), Some(destination))
                } else {
                    Some(
                        DecodedView {
                            source: source,
                            destination: destination,
                            source_addresses: seq![source],
                            destination_addresses: seq![destination],
                            address_associations: Seq::empty(),
                            transport: None,
                            application: "EtherType 0x"@ + hex4(ether_type),
                            summary: "Ethernet protocol 0x"@ + hex4(ether_type),
                        },
                    )
                }
            },
        }
    }
}

/// Protocol address text: dotted decimal for four bytes, hexadecimal otherwise.
pub open spec fn protocol_address_text(b: Seq<u8>) -> Seq<char> {
    if b.len() == 4 {
        ipv4_text(b)
    } else {
        hex_address_text(b)
    }
}

pub open spec fn arp_operation_label(operation: u16) -> Seq<char> {
    if operation == 1 {
        "request"@
    } else if operation == 2 {
        "reply"@
    } else {
        "operation"@
    }
}

pub open spec fn spec_arp(p: Seq<u8>, source_mac: Seq<char>, destination_mac: Seq<char>) -> Option<
    DecodedView,
> {
    if p.len() < 8 {
        None
    } else {
        let hl = p[4] as int;
        let pl = p[5] as int;
        let required = 8 + (hl + pl) * 2;
        if p.len() < required {
            None
        } else {
            let target_start = 8 + hl + pl;
            let sender_hardware = p.subrange(8, 8 + hl);
            let sender_protocol = p.subrange(8 + hl, target_start);
            let target_hardware = p.subrange(target_start, target_start + hl);
            let target_protocol = p.subrange(target_start + hl, required);
            let sender_mac = if hl == 6 {
                mac_text(sender_hardware)
            } else {
                source_mac
            };
            let target_mac = if hl == 6 {
                mac_text(target_hardware)
            } else {
                destination_mac
            };
            let sender_ip = protocol_address_text(sender_protocol);
            let target_ip = protocol_address_text(target_protocol);
            let first = seq![seq![sender_ip, sender_mac]];
            let associations = if exists|i: int| 0 <= i < hl && target_hardware[i] != 0 {
                first.push(seq![target_ip, target_mac])
            } else {
                first
            };
            Some(
                DecodedView {
                    source: sender_ip,
                    destination: target_ip,
                    source_addresses: seq![sender_ip, sender_mac],
                    destination_addresses: seq![target_ip, target_mac],
                    address_associations: associations,
                    transport: None,
                    application: "ARP"@,
                    summary: "ARP "@ + arp_operation_label(be16(p, 6)) + ": "@ + sender_ip + " → "@
                        + target_ip,
                },
            )
        }
    }
}

pub open spec fn spec_ip(p: Seq<u8>, source_mac: Option<Seq<char>>, destination_mac: Option<
    Seq<char>,
>) -> Option<DecodedView> {
    if p.len() == 0 {
        None
    } else if p[0] / 16 == 4 {
        spec_ipv4(p, source_mac, destination_mac)
    } else if p[0] / 16 == 6 {
        spec_ipv6(p, source_mac, destination_mac)
    } else {
        None
    }
}

pub open spec fn spec_ipv4(p: Seq<u8>, source_mac: Option<Seq<char>>, destination_mac: Option<
    Seq<char>,
>) -> Option<DecodedView> {
    if p.len() < 20 {
        None
    } else {
        let header_len = (p[0] % 16) as int * 4;
        let total_len = be16(p, 2) as int;
        if header_len < 20 || total_len < header_len || p.len() < total_len {
            None
        } else {
            let source = ipv4_text(p.subrange(12, 16));
            let destination = ipv4_text(p.subrange(16, 20));
            if be16(p, 6) & 0x3fff != 0 {
                Some(
                    spec_fragment("IPv4 fragment"@, source, destination, source_mac, destination_mac),
                )
            } else {
                spec_transport(
                    p[9],
                    p.subrange(header_len, total_len),
                    source,
                    destination,
                    source_mac,
                    destination_mac,
                )
            }
        }
    }
}

/// Where the walk over IPv6 extension headers ends.
pub enum ExtensionWalk {
    /// A header runs past the payload length.
    Truncated,
    /// A fragment header of a fragmented datagram.
    Fragment,
    /// The upper-layer protocol and the offset of its header.
    Upper(u8, int),
}

/// Walks at most `rounds` hop-by-hop, routing, destination-options and fragment headers.
pub open spec fn extension_walk(p: Seq<u8>, total: int, next_header: u8, offset: int, rounds: nat) -> ExtensionWalk
    decreases rounds,
{
    if rounds == 0 {
        ExtensionWalk::Upper(next_header, offset)
    } else if next_header == 0 || next_header == 43 || next_header == 60 {
        if total < offset + 2 {
            ExtensionWalk::Truncated
        } else {
            extension_walk(
                p,
                total,
                p[offset],
                offset + (p[offset + 1] as int + 1) * 8,
                (rounds - 1) as nat,
            )
        }
    } else if next_header == 44 {
        if total < offset + 8 {
            ExtensionWalk::Truncated
        } else if be16(p, offset + 2) & 0xfff9 != 0 {
            ExtensionWalk::Fragment
        } else {
            extension_walk(p, total, p[offset], offset + 8, (rounds - 1) as nat)
        }
    } else {
        ExtensionWalk::Upper(next_header, offset)
    }
}

pub open spec fn spec_ipv6(p: Seq<u8>, source_mac: Option<Seq<char>>, destination_mac: Option<
    Seq<char>,
>) -> Option<DecodedView> {
    if p.len() < 40 {
        None
    } else {
        let total_len = 40 + be16(p, 4) as int;
        if p.len() < total_len {
            None
        } else {
            let source = ipv6_text(p.subrange(8, 24));
            let destination = ipv6_text(p.subrange(24, 40));
            match extension_walk(p, total_len, p[6], 40, 8) {
                ExtensionWalk::Truncated => None,
                ExtensionWalk::Fragment => Some(
                    spec_fragment("IPv6 fragment"@, source, destination, source_mac, destination_mac),
                ),
                ExtensionWalk::Upper(next_header, offset) => {
                    if offset > total_len {
                        None
                    } else {
                        spec_transport(
                            next_header,
                            p.subrange(offset, total_len),
                            source,
                            destination,
                            source_mac,
                            destination_mac,
                        )
                    }
                },
            }
        }
    }
}

pub open spec fn spec_fragment(
    label: Seq<char>,
    source: Seq<char>,
    destination: Seq<char>,
    source_mac: Option<Seq<char>>,
    destination_mac: Option<Seq<char>>,
) -> DecodedView {
    DecodedView {
        source: source,
        destination: destination,
        source_addresses: with_mac(source, source_mac),
        destination_addresses: with_mac(destination, destination_mac),
        address_associations: Seq::empty(),
        transport: None,
        application: label,
        summary: "Fragmented payload; transport decode deferred"@,
    }
}

/// Transport, application label and summary of an IP payload of the given protocol.
pub open spec fn spec_layer(protocol: u8, payload: Seq<u8>) -> Option<
    (Option<TransportInfo>, Seq<char>, Seq<char>),
> {
    if protocol == 6 {
        spec_tcp(payload)
    } else if protocol == 17 {
        spec_udp(payload)
    } else if protocol == 1 || protocol == 58 {
        Some((None, "ICMP"@, "ICMP "@ + decimal(payload.len()) + " bytes"@))
    } else {
        Some(
            (
                None,
                "IP/"@ + decimal(protocol as nat),
                "IP protocol "@ + decimal(protocol as nat) + ", "@ + decimal(payload.len())
                    + " bytes"@,
            ),
        )
    }
}

pub open spec fn spec_transport(
    protocol: u8,
    payload: Seq<u8>,
    source: Seq<char>,
    destination: Seq<char>,
    source_mac: Option<Seq<char>>,
    destination_mac: Option<Seq<char>>,
) -> Option<DecodedView> {
    match spec_layer(protocol, payload) {
        None => None,
        Some((transport, application, summary)) => Some(
            DecodedView {
                source: source,
                destination: destination,
                source_addresses: with_mac(source, source_mac),
                destination_addresses: with_mac(destination, destination_mac),
                address_associations: Seq::empty(),
                transport: transport,
                application: application,
                summary: summary,
            },
        ),
    }
}

/// Appends `name` to a comma-separated list when `set`.
pub open spec fn add_flag(list: Seq<char>, set: bool, name: Seq<char>) -> Seq<char> {
    if !set {
        list
    } else if list.len() == 0 {
        name
    } else {
        list.push(',') + name
    }
}

/// The names of the SYN, ACK, FIN, RST and PSH flags that are set, in that order.
pub open spec fn tcp_flag_names(flags: u8) -> Seq<char> {
    add_flag(
        add_flag(
            add_flag(
                add_flag(add_flag(Seq::empty(), flags & 0x02 != 0, "SYN"@), flags & 0x10 != 0, "ACK"@),
                flags & 0x01 != 0,
                "FIN"@,
            ),
            flags & 0x04 != 0,
            "RST"@,
        ),
        flags & 0x08 != 0,
        "PSH"@,
    )
}

pub open spec fn spec_tcp(p: Seq<u8>) -> Option<(Option<TransportInfo>, Seq<char>, Seq<char>)> {
    if p.len() < 20 {
        None
    } else {
        let source_port = be16(p, 0);
        let destination_port = be16(p, 2);
        let header_len = (p[12] / 16) as int * 4;
        if header_len < 20 || p.len() < header_len {
            None
        } else {
            let payload = p.subrange(header_len, p.len() as int);
            let names = tcp_flag_names(p[13]);
            Some(
                (
                    Some(
                        TransportInfo {
                            kind: Transport::Tcp,
                            source_port: source_port,
                            destination_port: destination_port,
                        },
                    ),
                    spec_classify_tcp(source_port, destination_port, payload),
                    decimal(source_port as nat) + " → "@ + decimal(destination_port as nat) + " ["@
                        + (if names.len() == 0 {
                        "—"@
                    } else {
                        names
                    }) + "] "@ + decimal(payload.len()) + " payload bytes"@,
                ),
            )
        }
    }
}

/// Either port equals `port`.
pub open spec fn uses_port(a: u16, b: u16, port: u16) -> bool {
    a == port || b == port
}

pub open spec fn udp_application(source_port: u16, destination_port: u16) -> Seq<char> {
    if uses_port(source_port, destination_port, 53) {
        "DNS"@
    } else if uses_port(source_port, destination_port, 67) || uses_port(
        source_port,
        destination_port,
        68,
    ) {
        "DHCP"@
    } else if uses_port(source_port, destination_port, 443) {
        "QUIC"@
    } else if uses_port(source_port, destination_port, 5353) {
        "mDNS"@
    } else {
        "UDP"@
    }
}

pub open spec fn spec_udp(p: Seq<u8>) -> Option<(Option<TransportInfo>, Seq<char>, Seq<char>)> {
    if p.len() < 8 {
        None
    } else {
        let source_port = be16(p, 0);
        let destination_port = be16(p, 2);
        let datagram_len = be16(p, 4) as int;
        if datagram_len < 8 || datagram_len > p.len() {
            None
        } else {
            Some(
                (
                    Some(
                        TransportInfo {
                            kind: Transport::Udp,
                            source_port: source_port,
                            destination_port: destination_port,
                        },
                    ),
                    udp_application(source_port, destination_port),
                    decimal(source_port as nat) + " → "@ + decimal(destination_port as nat) + ", "@
                        + decimal((datagram_len - 8) as nat) + " payload bytes"@,
                ),
            )
        }
    }
}

/// `s` begins with `prefix`.
pub open spec fn has_prefix(s: Seq<u8>, prefix: Seq<u8>) -> bool {
    prefix.len() <= s.len() && s.subrange(0, prefix.len() as int) == prefix
}

/// The HTTP/2 connection preface.
pub open spec fn http2_preface() -> Seq<u8> {
    ascii("PRI * HTTP/2.0\r\n\r\nSM\r\n\r\n"@)
}

/// A payload that opens like an HTTP/1 request or response.
pub open spec fn is_http1_start(payload: Seq<u8>) -> bool {
    ||| has_prefix(payload, ascii("HTTP/1."@))
    ||| has_prefix(payload, ascii("GET "@))
    ||| has_prefix(payload, ascii("POST "@))
    ||| has_prefix(payload, ascii("PUT "@))
    ||| has_prefix(payload, ascii("PATCH "@))
    ||| has_prefix(payload, ascii("DELETE "@))
    ||| has_prefix(payload, ascii("HEAD "@))
    ||| has_prefix(payload, ascii("OPTIONS "@))
    ||| has_prefix(payload, ascii("CONNECT "@))
    ||| has_prefix(payload, ascii("TRACE "@))
}

pub open spec fn tcp_port_application(source_port: u16, destination_port: u16) -> Seq<char> {
    if uses_port(source_port, destination_port, 443) {
        "TLS"@
    } else if uses_port(source_port, destination_port, 80) || uses_port(
        source_port,
        destination_port,
        8000,
    ) || uses_port(source_port, destination_port, 8080) {
        "HTTP/1"@
    } else if uses_port(source_port, destination_port, 22) {
        "SSH"@
    } else if uses_port(source_port, destination_port, 53) {
        "DNS/TCP"@
    } else {
        "TCP"@
    }
}

pub open spec fn spec_classify_tcp(source_port: u16, destination_port: u16, payload: Seq<u8>) -> Seq<
    char,
> {
    if has_prefix(payload, http2_preface()) {
        "HTTP/2"@
    } else if is_http1_start(payload) {
        "HTTP/1"@
    } else {
        tcp_port_application(source_port, destination_port)
    }
}


/// Big-endian 16-bit value of the two bytes at `i`.
fn read_be16(p: &[u8], i: usize) -> (v: u16)
    requires
        i + 1 < p@.len(),
    ensures
        v == be16(p@, i as int),
{
    (p[i] as u16) * 256 + p[i + 1] as u16
}

/// Hardware address text of `bytes`.
pub fn format_mac(bytes: &[u8]) -> (s: String)
    ensures
        s@ == mac_text(bytes@),
{
    let mut s = String::new();
    push_hex_join(&mut s, bytes, '-');
    assert(s@ =~= mac_text(bytes@));
    s
}

/// Hexadecimal text of an address of unusual length.
pub fn hex_address(bytes: &[u8]) -> (s: String)
    ensures
        s@ == hex_address_text(bytes@),
{
    let mut s = String::new();
    push_hex_join(&mut s, bytes, ':');
    assert(s@ =~= hex_address_text(bytes@));
    s
}

/// Dotted-decimal text of the first four bytes.
pub fn format_ipv4(bytes: &[u8]) -> (s: String)
    requires
        bytes@.len() >= 4,
    ensures
        s@ == ipv4_text(bytes@),
{
    let mut s = String::new();
    push_ipv4(&mut s, bytes, 0);
    assert(s@ =~= ipv4_text(bytes@));
    s
}

/// Text of a 16-byte IPv6 address.
pub fn format_ipv6(bytes: &[u8]) -> (s: String)
    requires
        bytes@.len() == 16,
    ensures
        s@ == ipv6_text(bytes@),
{
    let mut s = String::new();
    push_ipv6(&mut s, bytes, 0);
    assert(bytes@.subrange(0, 16) =~= bytes@);
    assert(s@ =~= ipv6_text(bytes@));
    s
}

fn protocol_address(bytes: &[u8]) -> (s: String)
    ensures
        s@ == protocol_address_text(bytes@),
{
    if bytes.len() == 4 {
        format_ipv4(bytes)
    } else {
        hex_address(bytes)
    }
}

fn any_nonzero(bytes: &[u8]) -> (r: bool)
    ensures
        r == exists|i: int| 0 <= i < bytes@.len() && bytes@[i] != 0,
{
    let mut i: usize = 0;
    while i < bytes.len()
        invariant
            i <= bytes@.len(),
            forall|j: int| 0 <= j < i ==> bytes@[j] == 0,
        decreases bytes@.len() - i,
    {
        if bytes[i] != 0 {
            return true;
        }
        i += 1;
    }
    false
}

fn one(s: String) -> (v: Vec<String>)
    ensures
        v.deep_view() == seq![s@],
{
    let mut v = Vec::new();
    v.push(s);
    assert(v.deep_view() =~= seq![s@]);
    v
}

fn two(a: String, b: String) -> (v: Vec<String>)
    ensures
        v.deep_view() == seq![a@, b@],
{
    let mut v = Vec::new();
    v.push(a);
    v.push(b);
    assert(v.deep_view() =~= seq![a@, b@]);
    v
}

fn address_list(address: String, mac: Option<String>) -> (v: Vec<String>)
    ensures
        v.deep_view() == with_mac(address@, text_view(mac)),
{
    match mac {
        Some(m) => two(address, m),
        None => one(address),
    }
}

/// Decodes a packet of the given capture link type: Ethernet (1) or raw IP (101).
pub fn decode_packet(link_type: u16, packet: &[u8]) -> (r: Option<DecodedPacket>)
    ensures
        decoded_view(r) == spec_decode_packet(link_type, packet@),
{
    if link_type == 1 {
        decode_ethernet(packet)
    } else if link_type == 101 {
        decode_ip(packet, None, None)
    } else {
        None
    }
}

/// Decodes an Ethernet frame, skipping VLAN tags.
pub fn decode_ethernet(packet: &[u8]) -> (r: Option<DecodedPacket>)
    ensures
        decoded_view(r) == spec_ethernet(packet@),
{
    if packet.len() < 14 {
        return None;
    }
    let destination_mac = format_mac(slice_subrange(packet, 0, 6));
    let source_mac = format_mac(slice_subrange(packet, 6, 12));
    let mut ether_type = read_be16(packet, 12);
    let mut offset: usize = 14;
    while ether_type == 0x8100 || ether_type == 0x88a8
        invariant
            14 <= offset <= packet@.len(),
            vlan_end(packet@, ether_type, offset as int) == vlan_end(packet@, be16(packet@, 12), 14),
        decreases packet@.len() - offset,
    {
        if packet.len() - offset < 4 {
            return None;
        }
        ether_type = read_be16(packet, offset + 2);
        offset += 4;
    }
    let rest = slice_subrange(packet, offset, packet.len());
    if ether_type == 0x0806 {
        decode_arp(rest, source_mac, destination_mac)
    } else if ether_type == 0x0800 || ether_type == 0x86dd {
        decode_ip(rest, Some(source_mac), Some(destination_mac))
    } else {
        let mut application = text("EtherType 0x");
        push_hex4(&mut application, ether_type);
        let mut summary = text("Ethernet protocol 0x");
        push_hex4(&mut summary, ether_type);
        let r = DecodedPacket {
            source: source_mac.clone(),
            destination: destination_mac.clone(),
            source_addresses: one(source_mac),
            destination_addresses: one(destination_mac),
            address_associations: Vec::new(),
            transport: None,
            application,
            summary,
        };
        assert(r.address_associations.deep_view() =~= Seq::<Seq<Seq<char>>>::empty());
        Some(r)
    }
}

/// Decodes an ARP message; the Ethernet addresses stand in for hardware addresses that are
/// not six bytes long.
pub fn decode_arp(packet: &[u8], source_mac: String, destination_mac: String) -> (r: Option<
    DecodedPacket,
>)
    ensures
        decoded_view(r) == spec_arp(packet@, source_mac@, destination_mac@),
{
    if packet.len() < 8 {
        return None;
    }
    let hardware_len = packet[4] as usize;
    let protocol_len = packet[5] as usize;
    let operation = read_be16(packet, 6);
    let required = 8 + (hardware_len + protocol_len) * 2;
    if packet.len() < required {
        return None;
    }
    let target_start = 8 + hardware_len + protocol_len;
    let sender_hardware = slice_subrange(packet, 8, 8 + hardware_len);
    let sender_protocol = slice_subrange(packet, 8 + hardware_len, target_start);
    let target_hardware = slice_subrange(packet, target_start, target_start + hardware_len);
    let target_protocol = slice_subrange(packet, target_start + hardware_len, required);
    let sender_mac = if hardware_len == 6 {
        format_mac(sender_hardware)
    } else {
        source_mac
    };
    let target_mac = if hardware_len == 6 {
        format_mac(target_hardware)
    } else {
        destination_mac
    };
    let sender_ip = protocol_address(sender_protocol);
    let target_ip = protocol_address(target_protocol);
    let operation_label = if operation == 1 {
        "request"
    } else if operation == 2 {
        "reply"
    } else {
        "operation"
    };
    let mut associations: Vec<Vec<String>> = Vec::new();
    associations.push(two(sender_ip.clone(), sender_mac.clone()));
    let ghost first = seq![seq![sender_ip@, sender_mac@]];
    assert(associations.deep_view() =~= first);
    if any_nonzero(target_hardware) {
        associations.push(two(target_ip.clone(), target_mac.clone()));
        assert(associations.deep_view() =~= first.push(seq![target_ip@, target_mac@]));
    }
    let mut summary = text("ARP ");
    summary.append(operation_label);
    summary.append(": ");
    summary.append(sender_ip.as_str());
    summary.append(" → ");
    summary.append(target_ip.as_str());
    let r = DecodedPacket {
        source: sender_ip.clone(),
        destination: target_ip.clone(),
        source_addresses: two(sender_ip, sender_mac),
        destination_addresses: two(target_ip, target_mac),
        address_associations: associations,
        transport: None,
        application: text("ARP"),
        summary,
    };
    Some(r)
}

/// Decodes an IPv4 or IPv6 packet; `source_mac` and `destination_mac` are the link-layer
/// addresses it arrived with, if any.
pub fn decode_ip(packet: &[u8], source_mac: Option<String>, destination_mac: Option<String>) -> (r:
    Option<DecodedPacket>)
    ensures
        decoded_view(r) == spec_ip(packet@, text_view(source_mac), text_view(destination_mac)),
{
    if packet.len() == 0 {
        return None;
    }
    let version = packet[0] / 16;
    if version == 4 {
        decode_ipv4(packet, source_mac, destination_mac)
    } else if version == 6 {
        decode_ipv6(packet, source_mac, destination_mac)
    } else {
        None
    }
}

fn decode_ipv4(packet: &[u8], source_mac: Option<String>, destination_mac: Option<String>) -> (r:
    Option<DecodedPacket>)
    ensures
        decoded_view(r) == spec_ipv4(packet@, text_view(source_mac), text_view(destination_mac)),
{
    if packet.len() < 20 {
        return None;
    }
    let header_len = (packet[0] % 16) as usize * 4;
    let total_len = read_be16(packet, 2) as usize;
    if header_len < 20 || total_len < header_len || packet.len() < total_len {
        return None;
    }
    let source = format_ipv4(slice_subrange(packet, 12, 16));
    let destination = format_ipv4(slice_subrange(packet, 16, 20));
    let fragment = read_be16(packet, 6);
    if fragment & 0x3fff != 0 {
        return decode_fragment("IPv4 fragment", source, destination, source_mac, destination_mac);
    }
    decode_transport(
        packet[9],
        slice_subrange(packet, header_len, total_len),
        source,
        destination,
        source_mac,
        destination_mac,
    )
}

fn decode_ipv6(packet: &[u8], source_mac: Option<String>, destination_mac: Option<String>) -> (r:
    Option<DecodedPacket>)
    ensures
        decoded_view(r) == spec_ipv6(packet@, text_view(source_mac), text_view(destination_mac)),
{
    if packet.len() < 40 {
        return None;
    }
    let payload_len = read_be16(packet, 4) as usize;
    let total_len = 40 + payload_len;
    if packet.len() < total_len {
        return None;
    }
    let source = format_ipv6(slice_subrange(packet, 8, 24));
    let destination = format_ipv6(slice_subrange(packet, 24, 40));
    let ghost p = packet@;
    let mut next_header = packet[6];
    let mut offset: usize = 40;
    let mut rounds: usize = 0;
    while rounds < 8
        invariant
            p == packet@,
            40 <= p.len(),
            total_len == 40 + be16(p, 4),
            total_len <= p.len(),
            source@ == ipv6_text(p.subrange(8, 24)),
            destination@ == ipv6_text(p.subrange(24, 40)),
            rounds <= 8,
            40 <= offset <= 40 + 2048 * rounds,
            extension_walk(p, total_len as int, next_header, offset as int, (8 - rounds) as nat)
                == extension_walk(p, total_len as int, p[6], 40, 8),
        decreases 8 - rounds,
    {
        if next_header == 0 || next_header == 43 || next_header == 60 {
            if total_len < offset + 2 {
                return None;
            }
            let header_words = packet[offset + 1] as usize;
            next_header = packet[offset];
            offset = offset + (header_words + 1) * 8;
            rounds += 1;
        } else if next_header == 44 {
            if total_len < offset + 8 {
                return None;
            }
            let fragment = read_be16(packet, offset + 2);
            if fragment & 0xfff9 != 0 {
                return decode_fragment(
                    "IPv6 fragment",
                    source,
                    destination,
                    source_mac,
                    destination_mac,
                );
            }
            next_header = packet[offset];
            offset += 8;
            rounds += 1;
        } else {
            rounds = 8;
        }
    }
    if offset > total_len {
        return None;
    }
    decode_transport(
        next_header,
        slice_subrange(packet, offset, total_len),
        source,
        destination,
        source_mac,
        destination_mac,
    )
}

fn decode_fragment(
    label: &str,
    source: String,
    destination: String,
    source_mac: Option<String>,
    destination_mac: Option<String>,
) -> (r: Option<DecodedPacket>)
    ensures
        decoded_view(r) == Some(
            spec_fragment(
                label@,
                source@,
                destination@,
                text_view(source_mac),
                text_view(destination_mac),
            ),
        ),
{
    let r = DecodedPacket {
        source: source.clone(),
        destination: destination.clone(),
        source_addresses: address_list(source, source_mac),
        destination_addresses: address_list(destination, destination_mac),
        address_associations: Vec::new(),
        transport: None,
        application: text(label),
        summary: text("Fragmented payload; transport decode deferred"),
    };
    assert(r.address_associations.deep_view() =~= Seq::<Seq<Seq<char>>>::empty());
    Some(r)
}

fn decode_transport(
    protocol: u8,
    payload: &[u8],
    source: String,
    destination: String,
    source_mac: Option<String>,
    destination_mac: Option<String>,
) -> (r: Option<DecodedPacket>)
    ensures
        decoded_view(r) == spec_transport(
            protocol,
            payload@,
            source@,
            destination@,
            text_view(source_mac),
            text_view(destination_mac),
        ),
{
    let layer = if protocol == 6 {
        decode_tcp(payload)
    } else if protocol == 17 {
        decode_udp(payload)
    } else if protocol == 1 || protocol == 58 {
        let mut summary = text("ICMP ");
        push_decimal(&mut summary, payload.len() as u64);
        summary.append(" bytes");
        Some((None, text("ICMP"), summary))
    } else {
        let mut application = text("IP/");
        push_decimal(&mut application, protocol as u64);
        let mut summary = text("IP protocol ");
        push_decimal(&mut summary, protocol as u64);
        summary.append(", ");
        push_decimal(&mut summary, payload.len() as u64);
        summary.append(" bytes");
        Some((None, application, summary))
    };
    assert(layer_view(layer) == spec_layer(protocol, payload@));
    match layer {
        None => None,
        Some((transport, application, summary)) => {
            let r = DecodedPacket {
                source: source.clone(),
                destination: destination.clone(),
                source_addresses: address_list(source, source_mac),
                destination_addresses: address_list(destination, destination_mac),
                address_associations: Vec::new(),
                transport,
                application,
                summary,
            };
            assert(r.address_associations.deep_view() =~= Seq::<Seq<Seq<char>>>::empty());
            Some(r)
        },
    }
}

fn add_flag_name(list: &mut String, set: bool, name: &str)
    ensures
        final(list)@ == add_flag(old(list)@, set, name@),
{
    if set {
        if list.as_str().is_empty() {
            list.append(name);
            assert(list@ =~= name@);
        } else {
            push_char(list, ',');
            list.append(name);
        }
    }
}

/// Decodes a TCP header: transport, application label and summary.
pub fn decode_tcp(packet: &[u8]) -> (r: Option<(Option<TransportInfo>, String, String)>)
    ensures
        layer_view(r) == spec_tcp(packet@),
{
    if packet.len() < 20 {
        return None;
    }
    let source_port = read_be16(packet, 0);
    let destination_port = read_be16(packet, 2);
    let header_len = (packet[12] / 16) as usize * 4;
    if header_len < 20 || packet.len() < header_len {
        return None;
    }
    let flags = packet[13];
    let payload = slice_subrange(packet, header_len, packet.len());
    let application = classify_tcp(source_port, destination_port, payload);
    let mut names = String::new();
    add_flag_name(&mut names, flags & 0x02 != 0, "SYN");
    add_flag_name(&mut names, flags & 0x10 != 0, "ACK");
    add_flag_name(&mut names, flags & 0x01 != 0, "FIN");
    add_flag_name(&mut names, flags & 0x04 != 0, "RST");
    add_flag_name(&mut names, flags & 0x08 != 0, "PSH");
    let mut summary = String::new();
    push_decimal(&mut summary, source_port as u64);
    summary.append(" → ");
    push_decimal(&mut summary, destination_port as u64);
    summary.append(" [");
    if names.as_str().is_empty() {
        summary.append("—");
    } else {
        summary.append(names.as_str());
    }
    summary.append("] ");
    push_decimal(&mut summary, payload.len() as u64);
    summary.append(" payload bytes");
    let info = TransportInfo { kind: Transport::Tcp, source_port, destination_port };
    Some((Some(info), application, summary))
}

/// Decodes a UDP header: transport, application label and summary.
pub fn decode_udp(packet: &[u8]) -> (r: Option<(Option<TransportInfo>, String, String)>)
    ensures
        layer_view(r) == spec_udp(packet@),
{
    if packet.len() < 8 {
        return None;
    }
    let source_port = read_be16(packet, 0);
    let destination_port = read_be16(packet, 2);
    let datagram_len = read_be16(packet, 4) as usize;
    if datagram_len < 8 || datagram_len > packet.len() {
        return None;
    }
    let application = if source_port == 53 || destination_port == 53 {
        "DNS"
    } else if source_port == 67 || destination_port == 67 || source_port == 68 || destination_port
        == 68 {
        "DHCP"
    } else if source_port == 443 || destination_port == 443 {
        "QUIC"
    } else if source_port == 5353 || destination_port == 5353 {
        "mDNS"
    } else {
        "UDP"
    };
    let mut summary = String::new();
    push_decimal(&mut summary, source_port as u64);
    summary.append(" → ");
    push_decimal(&mut summary, destination_port as u64);
    summary.append(", ");
    push_decimal(&mut summary, (datagram_len - 8) as u64);
    summary.append(" payload bytes");
    let info = TransportInfo { kind: Transport::Udp, source_port, destination_port };
    Some((Some(info), text(application), summary))
}

/// Whether `s` begins with `prefix`.
fn starts_with(s: &[u8], prefix: &[u8]) -> (r: bool)
    ensures
        r == has_prefix(s@, prefix@),
{
    if prefix.len() > s.len() {
        return false;
    }
    let mut i: usize = 0;
    while i < prefix.len()
        invariant
            prefix@.len() <= s@.len(),
            i <= prefix@.len(),
            forall|j: int| 0 <= j < i ==> s@[j] == prefix@[j],
        decreases prefix@.len() - i,
    {
        if s[i] != prefix[i] {
            assert(s@.subrange(0, prefix@.len() as int)[i as int] != prefix@[i as int]);
            return false;
        }
        i += 1;
    }
    assert(s@.subrange(0, prefix@.len() as int) =~= prefix@);
    true
}

/// The application a TCP segment most likely carries.
pub fn classify_tcp(source_port: u16, destination_port: u16, payload: &[u8]) -> (s: String)
    ensures
        s@ == spec_classify_tcp(source_port, destination_port, payload@),
{
    let preface: [u8; 24] = [
        80, 82, 73, 32, 42, 32, 72, 84, 84, 80, 47, 50, 46, 48, 13, 10, 13, 10, 83, 77, 13, 10,
        13, 10,
    ];
    proof {
        reveal_strlit("PRI * HTTP/2.0\r\n\r\nSM\r\n\r\n");
        assert(preface@ =~= http2_preface());
    }
    if starts_with(payload, preface.as_slice()) {
        return text("HTTP/2");
    }
    if is_http1(payload) {
        return text("HTTP/1");
    }
    let label = if source_port == 443 || destination_port == 443 {
        "TLS"
    } else if source_port == 80 || destination_port == 80 || source_port == 8000
        || destination_port == 8000 || source_port == 8080 || destination_port == 8080 {
        "HTTP/1"
    } else if source_port == 22 || destination_port == 22 {
        "SSH"
    } else if source_port == 53 || destination_port == 53 {
        "DNS/TCP"
    } else {
        "TCP"
    };
    text(label)
}

fn is_http1(payload: &[u8]) -> (r: bool)
    ensures
        r == is_http1_start(payload@),
{
    let version: [u8; 7] = [72, 84, 84, 80, 47, 49, 46];
    let get: [u8; 4] = [71, 69, 84, 32];
    let post: [u8; 5] = [80, 79, 83, 84, 32];
    let put: [u8; 4] = [80, 85, 84, 32];
    let patch: [u8; 6] = [80, 65, 84, 67, 72, 32];
    let delete: [u8; 7] = [68, 69, 76, 69, 84, 69, 32];
    let head: [u8; 5] = [72, 69, 65, 68, 32];
    let options: [u8; 8] = [79, 80, 84, 73, 79, 78, 83, 32];
    let connect: [u8; 8] = [67, 79, 78, 78, 69, 67, 84, 32];
    let trace: [u8; 6] = [84, 82, 65, 67, 69, 32];
    proof {
        reveal_strlit("HTTP/1.");
        reveal_strlit("GET ");
        reveal_strlit("POST ");
        reveal_strlit("PUT ");
        reveal_strlit("PATCH ");
        reveal_strlit("DELETE ");
        reveal_strlit("HEAD ");
        reveal_strlit("OPTIONS ");
        reveal_strlit("CONNECT ");
        reveal_strlit("TRACE ");
        assert(version@ =~= ascii("HTTP/1."@));
        assert(get@ =~= ascii("GET "@));
        assert(post@ =~= ascii("POST "@));
        assert(put@ =~= ascii("PUT "@));
        assert(patch@ =~= ascii("PATCH "@));
        assert(delete@ =~= ascii("DELETE "@));
        assert(head@ =~= ascii("HEAD "@));
        assert(options@ =~= ascii("OPTIONS "@));
        assert(connect@ =~= ascii("CONNECT "@));
        assert(trace@ =~= ascii("TRACE "@));
    }
    starts_with(payload, version.as_slice()) || starts_with(payload, get.as_slice())
        || starts_with(payload, post.as_slice()) || starts_with(payload, put.as_slice())
        || starts_with(payload, patch.as_slice()) || starts_with(payload, delete.as_slice())
        || starts_with(payload, head.as_slice()) || starts_with(payload, options.as_slice())
        || starts_with(payload, connect.as_slice()) || starts_with(payload, trace.as_slice())
}

proof fn lemma_vlan_shift(p: Seq<u8>, q: Seq<u8>, ether_type: u16, offset: int)
    requires
        offset >= 12,
        q.len() == p.len() + 4,
        forall|x: int| 12 <= x < p.len() ==> q[x + 4] == #[trigger] p[x],
    ensures
        vlan_end(q, ether_type, offset + 4) == match vlan_end(p, ether_type, offset) {
            None => None,
            Some((t, end)) => Some((t, end + 4)),
        },
    decreases p.len() - offset,
{
    if ether_type == 0x8100 || ether_type == 0x88a8 {
        if p.len() >= offset + 4 {
            assert(q[offset + 6] == p[offset + 2]);
            assert(q[offset + 7] == p[offset + 3]);
            assert(be16(q, offset + 6) == be16(p, offset + 2));
            lemma_vlan_shift(p, q, be16(p, offset + 2), offset + 4);
        }
    }
}

/// VLAN tags are skipped: an 802.1Q or 802.1ad tag inserted after the two hardware addresses
/// of an Ethernet frame leaves its decoding unchanged.
pub proof fn lemma_vlan_tag_skipped(p: Seq<u8>, tag: Seq<u8>)
    requires
        p.len() >= 14,
        tag.len() == 4,
        be16(tag, 0) == 0x8100 || be16(tag, 0) == 0x88a8,
    ensures
        spec_ethernet(p.subrange(0, 12) + tag + p.subrange(12, p.len() as int)) == spec_ethernet(p),
{
    let q = p.subrange(0, 12) + tag + p.subrange(12, p.len() as int);
    assert(q.len() == p.len() + 4);
    assert forall|x: int| 12 <= x < p.len() implies q[x + 4] == #[trigger] p[x] by {}
    assert(q.subrange(0, 6) =~= p.subrange(0, 6));
    assert(q.subrange(6, 12) =~= p.subrange(6, 12));
    assert(be16(q, 12) == be16(tag, 0));
    assert(q[16] == p[12] && q[17] == p[13]);
    assert(be16(q, 16) == be16(p, 12));
    lemma_vlan_shift(p, q, be16(p, 12), 14);
    match vlan_end(p, be16(p, 12), 14) {
        None => {},
        Some((t, end)) => {
            lemma_vlan_end_bound(p, be16(p, 12), 14);
            assert(q.subrange(end + 4, q.len() as int) =~= p.subrange(end, p.len() as int));
        },
    }
}

proof fn lemma_vlan_end_bound(p: Seq<u8>, ether_type: u16, offset: int)
    requires
        offset >= 0,
        offset <= p.len(),
    ensures
        vlan_end(p, ether_type, offset) matches Some((_, end)) ==> offset <= end <= p.len(),
    decreases p.len() - offset,
{
    if ether_type == 0x8100 || ether_type == 0x88a8 {
        if p.len() >= offset + 4 {
            lemma_vlan_end_bound(p, be16(p, offset + 2), offset + 4);
        }
    }
}

/// The flags-and-offset field of an IPv4 header masked to More-Fragments and the offset does
/// not see the Don't-Fragment bit.
proof fn lemma_dont_fragment_bits(a: u8, b: u8, x: u8)
    requires
        a & 0xbf == b & 0xbf,
    ensures
        ((a as int * 256 + x as int) as u16) & 0x3fff == ((b as int * 256 + x as int) as u16) & 0x3fff,
{
    assert((((a as u16) * 256 + (x as u16)) as u16) & 0x3fff == (((b as u16) * 256 + (x as u16)) as u16)
        & 0x3fff) by (bit_vector)
        requires
            a & 0xbf == b & 0xbf,
    ;
}

/// The Don't-Fragment bit (0x40 of byte 6) plays no part in decoding IPv4: a packet decodes the
/// same with it set or clear. Only the More-Fragments bit or a non-zero fragment offset make a
/// fragment.
#[verifier::rlimit(50)]
pub proof fn lemma_ipv4_dont_fragment(
    p: Seq<u8>,
    flags: u8,
    source_mac: Option<Seq<char>>,
    destination_mac: Option<Seq<char>>,
)
    requires
        p.len() > 7,
        flags & 0xbf == p[6] & 0xbf,
    ensures
        spec_ipv4(p.update(6, flags), source_mac, destination_mac) == spec_ipv4(p, source_mac, destination_mac),
        p[0] / 16 == 4 ==> spec_ip(p.update(6, flags), source_mac, destination_mac) == spec_ip(
            p,
            source_mac,
            destination_mac,
        ),
{
    let q = p.update(6, flags);
    lemma_dont_fragment_bits(flags, p[6], p[7]);
    assert(be16(q, 6) & 0x3fff == be16(p, 6) & 0x3fff);
    assert(be16(q, 2) == be16(p, 2));
    assert(q[0] == p[0]);
    if p.len() >= 20 {
        assert(q[9] == p[9]);
        assert(q.subrange(12, 16) =~= p.subrange(12, 16));
        assert(q.subrange(16, 20) =~= p.subrange(16, 20));
        let header_len = (p[0] % 16) as int * 4;
        let total_len = be16(p, 2) as int;
        if header_len >= 20 && total_len >= header_len && p.len() >= total_len {
            assert(q.subrange(header_len, total_len) =~= p.subrange(header_len, total_len));
        }
    }
}

/// Port-based TCP classification is symmetric: a segment and its reply get the same label.
pub proof fn lemma_classify_tcp_symmetric(source_port: u16, destination_port: u16, payload: Seq<u8>)
    ensures
        spec_classify_tcp(source_port, destination_port, payload) == spec_classify_tcp(
            destination_port,
            source_port,
            payload,
        ),
        tcp_port_application(source_port, destination_port) == tcp_port_application(destination_port, source_port),
{
}

/// A segment to or from port 22, with no TLS or HTTP port and no HTTP payload, is SSH.
pub proof fn lemma_classify_ssh(source_port: u16, destination_port: u16, payload: Seq<u8>)
    requires
        source_port == 22 || destination_port == 22,
        source_port != 443 && destination_port != 443,
        source_port != 80 && destination_port != 80,
        source_port != 8000 && destination_port != 8000,
        source_port != 8080 && destination_port != 8080,
        !has_prefix(payload, http2_preface()),
        !is_http1_start(payload),
    ensures
        spec_classify_tcp(source_port, destination_port, payload) == "SSH"@,
{
}

} // verus!
