use bcr::addr::Ipv4Addr;
use bcr::config::NatOptions;
use bcr::packet::{is_already_relayed, validate_ipv4_header, RELAY_MARKER_IP_ID};
use bcr::rewrite::{apply_nat, NatError};
use pnet::packet::ip::IpNextHeaderProtocols;
use pnet::packet::ipv4::MutableIpv4Packet;
use pnet::packet::udp::{ipv4_checksum, MutableUdpPacket, UdpPacket};

/// Build a UDP-over-IPv4 packet (no Ethernet header) with the given TTL,
/// IP identification, and UDP checksum, carrying a short payload.
fn build_packet(ttl: u8, ip_id: u16, udp_cksum: u16) -> Vec<u8> {
    let payload = b"hello";
    let mut buf = vec![0u8; 20 + 8 + payload.len()];
    {
        let mut ip = MutableIpv4Packet::new(&mut buf).unwrap();
        ip.set_version(4);
        ip.set_header_length(5);
        ip.set_total_length((20 + 8 + payload.len()) as u16);
        ip.set_identification(ip_id);
        ip.set_ttl(ttl);
        ip.set_next_level_protocol(IpNextHeaderProtocols::Udp);
        ip.set_source([192, 168, 1, 50].into());
        ip.set_destination([255, 255, 255, 255].into());
    }
    {
        let mut udp = MutableUdpPacket::new(&mut buf[20..]).unwrap();
        udp.set_source(1234);
        udp.set_destination(5353);
        udp.set_length((8 + payload.len()) as u16);
        udp.set_checksum(udp_cksum);
        udp.set_payload(payload);
    }
    buf
}

/// The one's complement sum of the words of `bytes`, on top of `start`.
fn folded(start: u64, bytes: &[u8]) -> u64 {
    let mut sum = start;
    for pair in bytes.chunks(2) {
        let low = if pair.len() == 2 { pair[1] } else { 0 };
        sum += u64::from(pair[0]) * 256 + u64::from(low);
    }
    while sum > 0xffff {
        sum = (sum & 0xffff) + (sum >> 16);
    }
    sum
}

/// What a receiver finds when it checks the UDP checksum: 0xffff if it is right.
fn udp_check(packet: &[u8], len: usize) -> u64 {
    let header = usize::from(packet[0] & 0x0f) * 4;
    let pseudo = folded(17 + len as u64, &packet[12..20]);
    folded(pseudo, &packet[header..header + len])
}

#[test]
fn relayed_packet_carries_loop_marker() {
    let mut buf = build_packet(64, 0x1111, 0x9999);
    apply_nat(&mut buf, &NatOptions::default(), Ipv4Addr::new(255, 255, 255, 255)).unwrap();

    let ip = MutableIpv4Packet::new(&mut buf).unwrap();
    assert_eq!(ip.get_ttl(), 1);
    assert_eq!(ip.get_identification(), RELAY_MARKER_IP_ID);
    assert!(is_already_relayed(&build_packet(1, RELAY_MARKER_IP_ID, 0)));
    // The relayed packet round-trips through the loop check.
    assert!(is_already_relayed(&buf));
}

#[test]
fn relayed_packet_has_valid_udp_checksum() {
    // Integrity must be preserved: the relayed packet carries a correct,
    // non-zero UDP checksum rather than a zeroed marker.
    let mut buf = build_packet(64, 0x1111, 0);
    let src = [192, 168, 1, 50].into();
    let dst = Ipv4Addr::new(255, 255, 255, 255);
    apply_nat(&mut buf, &NatOptions::default(), dst).unwrap();

    let udp = UdpPacket::new(&buf[20..]).unwrap();
    assert_ne!(udp.get_checksum(), 0, "checksum must not be the zeroed marker");
    // Recomputing over the relayed packet yields the same value -> valid.
    assert_eq!(udp.get_checksum(), ipv4_checksum(&udp, &src, &[255, 255, 255, 255].into()));
}

#[test]
fn legit_ttl1_zero_checksum_is_not_treated_as_relayed() {
    // A real packet with TTL=1 and a (legal) zero UDP checksum but a normal
    // IP id must NOT be misidentified as already-relayed: that would silently
    // drop legitimate traffic.
    let buf = build_packet(1, 0x1111, 0);
    assert!(!is_already_relayed(&buf));
}

#[test]
fn rewritten_packet_byte_by_byte() {
    let mut buf = build_packet(64, 0x1111, 0x9999);
    apply_nat(&mut buf, &NatOptions::default(), Ipv4Addr::new(10, 1, 2, 255)).unwrap();
    assert_eq!(
        buf,
        [
            0x45, 0x00, 0x00, 0x21, 0xbc, 0xbc, 0x00, 0x00, 0x01, 0x11, 0x2e, 0x36, 192, 168, 1,
            50, 10, 1, 2, 255, 0x04, 0xd2, 0x14, 0xe9, 0x00, 0x0d, 0xd3, 0x6c, b'h', b'e', b'l',
            b'l', b'o',
        ]
    );
}

#[test]
fn both_checksums_are_right() {
    let mut buf = build_packet(64, 0x1111, 0x9999);
    apply_nat(&mut buf, &NatOptions::default(), Ipv4Addr::new(10, 1, 2, 255)).unwrap();
    assert_eq!(folded(0, &buf[..20]), 0xffff);
    assert_eq!(udp_check(&buf, 13), 0xffff);
}

#[test]
fn nat_options_are_applied() {
    let mut buf = build_packet(64, 0x1111, 0x9999);
    let opts = NatOptions {
        source_ip: Some(Ipv4Addr::new(1, 2, 3, 4)),
        dest_ip: Some(Ipv4Addr::new(5, 6, 7, 8)),
        source_port: Some(40000),
        dest_port: Some(53),
    };
    apply_nat(&mut buf, &opts, Ipv4Addr::new(10, 1, 2, 255)).unwrap();
    assert_eq!(buf[12..20], [1, 2, 3, 4, 5, 6, 7, 8]);
    assert_eq!(buf[20..24], [0x9c, 0x40, 0, 53]);
    assert_eq!(buf[28..], *b"hello");
    assert_eq!(folded(0, &buf[..20]), 0xffff);
    assert_eq!(udp_check(&buf, 13), 0xffff);
}

#[test]
fn multicast_destination_is_kept() {
    let mut buf = build_packet(64, 0x1111, 0x9999);
    buf[16..20].copy_from_slice(&[224, 0, 0, 251]);
    let mut redirected = buf.clone();
    apply_nat(&mut buf, &NatOptions::default(), Ipv4Addr::new(10, 1, 2, 255)).unwrap();
    assert_eq!(buf[16..20], [224, 0, 0, 251]);
    assert_eq!(udp_check(&buf, 13), 0xffff);
    let opts = NatOptions { dest_ip: Some(Ipv4Addr::new(9, 9, 9, 9)), ..NatOptions::default() };
    apply_nat(&mut redirected, &opts, Ipv4Addr::new(10, 1, 2, 255)).unwrap();
    assert_eq!(redirected[16..20], [9, 9, 9, 9]);
}

#[test]
fn link_padding_is_no_part_of_the_datagram() {
    let mut buf = build_packet(64, 0x1111, 0x9999);
    let mut plain = buf.clone();
    buf.extend_from_slice(&[0xaa; 13]);
    let dst = Ipv4Addr::new(10, 1, 2, 255);
    apply_nat(&mut buf, &NatOptions::default(), dst).unwrap();
    apply_nat(&mut plain, &NatOptions::default(), dst).unwrap();
    assert_eq!(buf[..33], plain[..]);
    assert_eq!(buf[33..], [0xaa; 13]);
    assert_eq!(udp_check(&buf, 13), 0xffff);
}

#[test]
fn impossible_udp_length_is_not_consulted() {
    for length in [0u8, 7, 14] {
        let mut buf = build_packet(64, 0x1111, 0x9999);
        buf[25] = length;
        apply_nat(&mut buf, &NatOptions::default(), Ipv4Addr::new(10, 1, 2, 255)).unwrap();
        assert_eq!(udp_check(&buf, 13), 0xffff);
    }
}

#[test]
fn checksum_of_zero_is_sent_as_all_ones() {
    // Two payload bytes in place of the first two that make the words of the
    // datagram add up to all ones.
    let dst = Ipv4Addr::new(10, 1, 2, 255);
    let mut probe = build_packet(64, 0x1111, 0);
    probe[28] = 0;
    probe[29] = 0;
    let mut buf = probe.clone();
    apply_nat(&mut probe, &NatOptions::default(), dst).unwrap();
    buf[28] = probe[26];
    buf[29] = probe[27];
    apply_nat(&mut buf, &NatOptions::default(), dst).unwrap();
    assert_eq!(buf[26..28], [0xff, 0xff]);
    assert_eq!(udp_check(&buf, 13), 0xffff);
}

#[test]
fn header_options_are_covered_by_the_checksum() {
    let mut buf = build_packet(64, 0x1111, 0x9999);
    buf.splice(20..20, [7, 4, 4, 0]);
    buf[0] = 0x46;
    buf[3] += 4;
    let opts = NatOptions { dest_port: Some(99), ..NatOptions::default() };
    apply_nat(&mut buf, &opts, Ipv4Addr::new(10, 1, 2, 255)).unwrap();
    assert_eq!(buf[20..24], [7, 4, 4, 0]);
    assert_eq!(buf[24..28], [0x04, 0xd2, 0, 99]);
    assert_eq!(folded(0, &buf[..24]), 0xffff);
    assert_eq!(udp_check(&buf, 13), 0xffff);
}

#[test]
fn malformed_packets_cannot_be_rewritten() {
    let dst = Ipv4Addr::new(10, 1, 2, 255);
    let opts = NatOptions::default();
    let mut short = vec![0x45; 19];
    assert_eq!(apply_nat(&mut short, &opts, dst), Err(NatError::MalformedHeader));
    assert_eq!(short, [0x45; 19]);
    assert_eq!(apply_nat(&mut [], &opts, dst), Err(NatError::MalformedHeader));
    let mut no_udp = build_packet(64, 0x1111, 0)[..27].to_vec();
    assert_eq!(apply_nat(&mut no_udp, &opts, dst), Err(NatError::InvalidUdp));
    assert_eq!(NatError::MalformedHeader.text(), "Malformed IPv4 header");
    assert_eq!(NatError::InvalidUdp.text(), "Invalid UDP packet");
}

#[test]
fn other_protocols_keep_their_payload() {
    let mut buf = build_packet(64, 0x1111, 0x9999);
    buf[9] = 6;
    let before = buf.clone();
    apply_nat(&mut buf, &NatOptions::default(), Ipv4Addr::new(10, 1, 2, 255)).unwrap();
    assert_eq!(buf[20..], before[20..]);
    assert_eq!(buf[16..20], [10, 1, 2, 255]);
    assert_eq!(folded(0, &buf[..20]), 0xffff);
}

#[test]
fn rewriting_once_more_changes_nothing() {
    let dst = Ipv4Addr::new(10, 1, 2, 255);
    let all = NatOptions {
        source_ip: Some(Ipv4Addr::new(1, 2, 3, 4)),
        dest_ip: Some(Ipv4Addr::new(5, 6, 7, 8)),
        source_port: Some(40000),
        dest_port: Some(53),
    };
    for opts in [NatOptions::default(), all] {
        for protocol in [17, 6] {
            let mut buf = build_packet(64, 0x1111, 0x9999);
            buf[9] = protocol;
            apply_nat(&mut buf, &opts, dst).unwrap();
            let once = buf.clone();
            apply_nat(&mut buf, &opts, dst).unwrap();
            assert_eq!(buf, once);
        }
    }
}

#[test]
fn rewritten_header_is_marked_and_as_long_as_before() {
    let mut buf = build_packet(64, 0x1111, 0x9999);
    buf.splice(20..20, [7, 4, 4, 0]);
    buf[0] = 0x46;
    buf[3] += 4;
    apply_nat(&mut buf, &NatOptions::default(), Ipv4Addr::new(10, 1, 2, 255)).unwrap();
    assert_eq!(validate_ipv4_header(&buf), Some(24));
    assert_eq!((buf[8], buf[4], buf[5]), (1, 0xbc, 0xbc));
    assert!(is_already_relayed(&buf));
    assert_eq!(folded(0, &buf[..24]), 0xffff);
}

#[test]
fn buffers_beyond_any_packet_are_rewritten_too() {
    let mut buf = build_packet(64, 0x1111, 0x9999);
    buf[24] = 0;
    buf[25] = 0; // a length field that is not consulted
    buf.resize(200_000, 0xff);
    apply_nat(&mut buf, &NatOptions::default(), Ipv4Addr::new(10, 1, 2, 255)).unwrap();
    assert!(is_already_relayed(&buf));
    assert_eq!(folded(0, &buf[..20]), 0xffff);
    assert_eq!(udp_check(&buf, 199_980), 0xffff);
    assert!(buf[33..].iter().all(|b| *b == 0xff));
}

#[test]
fn whole_rest_is_covered_whatever_its_length() {
    let dst = Ipv4Addr::new(10, 1, 2, 255);
    for rest in [13, 131_060, 131_061, 131_062, 131_063, 131_080, 200_001] {
        let mut buf = build_packet(64, 0x1111, 0x9999);
        buf[24] = 0;
        buf[25] = 0; // a length field that is not consulted
        buf.resize(20 + rest, 0);
        buf[20 + rest - 1] = 7;
        apply_nat(&mut buf, &NatOptions::default(), dst).unwrap();
        let udp = UdpPacket::new(&buf[20..]).unwrap();
        let expected =
            ipv4_checksum(&udp, &[192, 168, 1, 50].into(), &[10, 1, 2, 255].into());
        assert_eq!(udp.get_checksum(), expected, "{}", rest);
    }
}
