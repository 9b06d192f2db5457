use bcr::addr::Ipv4Addr;
use bcr::config::{NatOptions, Protocol};
use bcr::packet::{
    extract_packet_info, is_already_relayed, is_broadcast, validate_ipv4_header,
    RELAY_MARKER_IP_ID,
};
use bcr::rewrite::apply_nat;
use pnet::packet::ip::IpNextHeaderProtocols;
use pnet::packet::ipv4::MutableIpv4Packet;
use pnet::packet::udp::MutableUdpPacket;

#[test]
fn test_is_broadcast() {
    assert!(is_broadcast(Ipv4Addr::new(255, 255, 255, 255)));
    assert!(is_broadcast(Ipv4Addr::new(192, 168, 1, 255)));
    assert!(!is_broadcast(Ipv4Addr::new(192, 168, 1, 100)));
    assert!(is_broadcast(Ipv4Addr::new(224, 0, 0, 251))); // mDNS multicast
    assert!(is_broadcast(Ipv4Addr::new(239, 255, 255, 250))); // SSDP multicast
    assert!(!is_broadcast(Ipv4Addr::new(10, 20, 1, 173)));
}

/// Build a minimal UDP-over-IPv4 packet (no Ethernet header, as delivered
/// by AF_PACKET/SOCK_DGRAM) with the given source and destination IPs.
fn build_udp(src: Ipv4Addr, dst: Ipv4Addr) -> Vec<u8> {
    let mut buf = vec![0u8; 20 + 8];
    {
        let mut ip = MutableIpv4Packet::new(&mut buf).unwrap();
        ip.set_version(4);
        ip.set_header_length(5);
        ip.set_total_length(28);
        ip.set_ttl(64);
        ip.set_next_level_protocol(IpNextHeaderProtocols::Udp);
        ip.set_source(src.octets().into());
        ip.set_destination(dst.octets().into());
    }
    {
        let mut udp = MutableUdpPacket::new(&mut buf[20..]).unwrap();
        udp.set_source(1234);
        udp.set_destination(5353);
        udp.set_length(8);
        udp.set_checksum(0x1234);
    }
    buf
}

#[test]
fn test_rejects_multicast_source() {
    // A crafted packet claiming a multicast source must be rejected even
    // though its destination is a relayable multicast/broadcast address.
    let mcast_to_mcast = build_udp(
        Ipv4Addr::new(224, 0, 0, 251),
        Ipv4Addr::new(224, 0, 0, 251),
    );
    assert!(extract_packet_info(&mcast_to_mcast).is_none());

    let mcast_to_bcast = build_udp(
        Ipv4Addr::new(239, 255, 255, 250),
        Ipv4Addr::new(255, 255, 255, 255),
    );
    assert!(extract_packet_info(&mcast_to_bcast).is_none());
}

#[test]
fn test_rejects_broadcast_source() {
    let bcast_src = build_udp(
        Ipv4Addr::new(255, 255, 255, 255),
        Ipv4Addr::new(255, 255, 255, 255),
    );
    assert!(extract_packet_info(&bcast_src).is_none());

    // Directed broadcast as a source is also invalid.
    let directed_src = build_udp(
        Ipv4Addr::new(192, 168, 1, 255),
        Ipv4Addr::new(255, 255, 255, 255),
    );
    assert!(extract_packet_info(&directed_src).is_none());
}

#[test]
fn test_accepts_unicast_source() {
    let valid = build_udp(
        Ipv4Addr::new(192, 168, 1, 50),
        Ipv4Addr::new(224, 0, 0, 251),
    );
    let info = extract_packet_info(&valid).expect("valid packet should parse");
    assert_eq!(info.src_ip, Ipv4Addr::new(192, 168, 1, 50));
    assert_eq!(info.dst_ip, Ipv4Addr::new(224, 0, 0, 251));
}

#[test]
fn test_rejects_truncated_packet() {
    // A valid 28-byte datagram parses; the same packet truncated below its
    // declared total_length must be rejected rather than relayed corrupt.
    let valid = build_udp(Ipv4Addr::new(192, 168, 1, 1), Ipv4Addr::new(255, 255, 255, 255));
    assert!(extract_packet_info(&valid).is_some());
    assert!(extract_packet_info(&valid[..valid.len() - 1]).is_none());
}

#[test]
fn test_validate_rejects_malformed_headers() {
    assert!(validate_ipv4_header(&[]).is_none()); // empty
    assert!(validate_ipv4_header(&[0u8; 19]).is_none()); // too short
    assert!(validate_ipv4_header(&[0x40, 0, 0, 0]).is_none()); // v4, but < 20 bytes
    assert!(validate_ipv4_header(&[0x45u8; 19]).is_none()); // v4 ihl=5 but 19 bytes
    assert!(validate_ipv4_header(&[0x40u8; 20]).is_none()); // v4 ihl=0 (illegal)
    assert!(validate_ipv4_header(&[0x60u8; 20]).is_none()); // v6
    // v4 ihl=15 (60-byte header) on a 28-byte buffer: header runs past end.
    let mut short = [0u8; 28];
    short[0] = 0x4f;
    assert!(validate_ipv4_header(&short).is_none());
    // Well-formed minimal header.
    assert_eq!(validate_ipv4_header(&[0x45u8; 20]), Some(20));
}

/// Pseudo-fuzz the parsing path: a malformed or crafted packet must never
/// panic (under panic=abort a panic aborts the whole relay -> DoS). We drive
/// every truncation, every IHL nibble, and a stream of deterministic
/// "random" buffers through all three entry points and simply require that
/// none of them panic.
#[test]
fn fuzz_parsing_path_never_panics() {
    let dst = Ipv4Addr::new(10, 0, 0, 255);
    let nat = NatOptions::default();

    let exercise = |buf: &[u8]| {
        let _ = is_already_relayed(buf);
        let _ = extract_packet_info(buf);
        // apply_nat mutates in place; give it its own copy.
        let mut owned = buf.to_vec();
        let _ = apply_nat(&mut owned, &nat, dst);
    };

    // 1. Every truncation of a valid packet.
    let valid = build_udp(Ipv4Addr::new(192, 168, 1, 1), Ipv4Addr::new(255, 255, 255, 255));
    for len in 0..=valid.len() {
        exercise(&valid[..len]);
    }

    // 2. Every IHL nibble (0..15) over buffers of several sizes.
    for &size in &[0usize, 1, 4, 20, 28, 40, 64] {
        for ihl in 0u8..16 {
            let mut buf = vec![0x33u8; size];
            if !buf.is_empty() {
                buf[0] = (4 << 4) | ihl;
            }
            exercise(&buf);
        }
    }

    // 3. Deterministic pseudo-random buffers (seeded LCG, reproducible).
    let mut state: u32 = 0x1234_5678;
    let mut next = || {
        state = state.wrapping_mul(1_664_525).wrapping_add(1_013_904_223);
        state
    };
    for _ in 0..5000 {
        let len = (next() % 80) as usize;
        let mut buf = vec![0u8; len];
        for b in buf.iter_mut() {
            *b = (next() >> 16) as u8;
        }
        exercise(&buf);
    }
}

#[test]
fn ports_and_protocol_are_extracted() {
    let valid = build_udp(Ipv4Addr::new(192, 168, 1, 50), Ipv4Addr::new(192, 168, 1, 255));
    let info = extract_packet_info(&valid).unwrap();
    assert_eq!(info.protocol, Protocol::Udp);
    assert_eq!(info.src_port, 1234);
    assert_eq!(info.dst_port, 5353);
}

#[test]
fn options_move_the_ports() {
    // A header of 24 bytes: the ports lie behind the option word.
    let mut buf = build_udp(Ipv4Addr::new(10, 0, 0, 1), Ipv4Addr::new(10, 0, 0, 255));
    buf.splice(20..20, [1, 1, 1, 0]);
    buf[0] = 0x46;
    buf[3] = 32;
    let info = extract_packet_info(&buf).unwrap();
    assert_eq!((info.src_port, info.dst_port), (1234, 5353));
    assert_eq!(validate_ipv4_header(&buf), Some(24));
}

#[test]
fn unspecified_source_is_rejected() {
    let p = build_udp(Ipv4Addr::new(0, 0, 0, 0), Ipv4Addr::new(255, 255, 255, 255));
    assert!(extract_packet_info(&p).is_none());
}

#[test]
fn unicast_destination_is_ignored() {
    let p = build_udp(Ipv4Addr::new(10, 0, 0, 1), Ipv4Addr::new(10, 0, 0, 2));
    assert!(extract_packet_info(&p).is_none());
}

#[test]
fn only_udp_is_extracted() {
    let mut p = build_udp(Ipv4Addr::new(10, 0, 0, 1), Ipv4Addr::new(10, 0, 0, 255));
    p[9] = 6;
    assert!(extract_packet_info(&p).is_none());
}

#[test]
fn total_length_must_leave_room_for_udp() {
    let mut p = build_udp(Ipv4Addr::new(10, 0, 0, 1), Ipv4Addr::new(10, 0, 0, 255));
    p[3] = 27; // one byte short of a UDP header
    assert!(extract_packet_info(&p).is_none());
    p[3] = 19; // shorter than the IPv4 header
    assert!(extract_packet_info(&p).is_none());
    p[2] = 1; // more than was captured
    assert!(extract_packet_info(&p).is_none());
}

#[test]
fn padding_behind_the_datagram_is_accepted() {
    let mut p = build_udp(Ipv4Addr::new(10, 0, 0, 1), Ipv4Addr::new(10, 0, 0, 255));
    p.resize(46, 0);
    assert!(extract_packet_info(&p).is_some());
}

#[test]
fn marker_needs_both_parts() {
    let mut p = build_udp(Ipv4Addr::new(10, 0, 0, 1), Ipv4Addr::new(10, 0, 0, 255));
    assert!(!is_already_relayed(&p));
    p[8] = 1;
    assert!(!is_already_relayed(&p));
    p[4..6].copy_from_slice(&RELAY_MARKER_IP_ID.to_be_bytes());
    assert!(is_already_relayed(&p));
    p[8] = 2;
    assert!(!is_already_relayed(&p));
    p[8] = 1;
    p[0] = 0x65;
    assert!(!is_already_relayed(&p));
}
