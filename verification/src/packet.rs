//! Parsing of received packets.

use vstd::prelude::*;
use crate::addr::Ipv4Addr;
use crate::config::{PacketInfo, Protocol};
use crate::wire::{
    addr_at, has_ipv4_header, ihl_bytes, ipv4_destination, ipv4_identification, ipv4_payload,
    ipv4_payload_bytes, ipv4_protocol, ipv4_source, ipv4_total_length, ipv4_ttl, u16_at,
    udp_destination, udp_source, UDP_PROTOCOL,
};

verus! {

/// Value in the IPv4 Identification field of relayed packets that marks them,
/// together with a TTL of 1, as already relayed.
///
/// Receivers ignore the Identification field of an unfragmented datagram, so
/// it is a free signal, and the UDP checksum stays valid.
pub const RELAY_MARKER_IP_ID: u16 = 0xBCBC;

/// The two halves of a byte.
proof fn lemma_nibbles(b: u8)
    ensures
        b >> 4 == b / 16,
        b & 0x0f == b % 16,
{
    assert(b >> 4 == b / 16 && b & 0x0f == b % 16) by (bit_vector);
}

/// Checks that `buf` begins with a well-formed IPv4 header that fits entirely
/// within the captured bytes, and returns the header's length in bytes.
pub fn validate_ipv4_header(buf: &[u8]) -> (r: Option<usize>)
    ensures
        r is Some <==> has_ipv4_header(buf@),
        r matches Some(n) ==> n == ihl_bytes(buf@),
        r == if buf@.len() >= 20 && buf@[0] / 16 == 4 && 20 <= (buf@[0] % 16) * 4 <= buf@.len() {
            Some(((buf@[0] % 16) * 4) as usize)
        } else {
            None
        },
{
    if buf.len() < 20 {
        return None;
    }
    proof {
        lemma_nibbles(buf@[0]);
    }
    let version: u8 = buf[0] >> 4;
    let ihl: usize = (buf[0] & 0x0f) as usize;
    if version != 4 || ihl < 5 {
        return None;
    }
    let header_len: usize = ihl * 4;
    if header_len > buf.len() {
        return None;
    }
    Some(header_len)
}

/// Whether an address is a broadcast or multicast address: its last octet is
/// 255, or it lies in 224.0.0.0/4.
pub open spec fn broadcast_like(ip: Ipv4Addr) -> bool {
    ip.d == 255 || ip.multicast()
}

/// Whether an address is a broadcast or multicast address.
pub fn is_broadcast(ip: Ipv4Addr) -> (r: bool)
    ensures
        r == broadcast_like(ip),
        r <==> ip.d == 255 || 224 <= ip.a <= 239,
{
    ip == Ipv4Addr::broadcast() || ip.d == 255 || ip.is_multicast()
}

/// Whether packets may come from this address.
pub open spec fn unicast_source(ip: Ipv4Addr) -> bool {
    ip != (Ipv4Addr { a: 0, b: 0, c: 0, d: 0 }) && !broadcast_like(ip)
}

/// What the rules look at in the packet `s`; nothing unless it is a complete
/// UDP datagram over IPv4 from a unicast address to a broadcast or multicast
/// address.
pub open spec fn packet_info(s: Seq<u8>) -> Option<PacketInfo> {
    let payload = ipv4_payload_bytes(s);
    let src_ip = addr_at(s, 12);
    let dst_ip = addr_at(s, 16);
    if has_ipv4_header(s) && 20 <= u16_at(s, 2) <= s.len()
        && broadcast_like(dst_ip) && unicast_source(src_ip) && s[9] == UDP_PROTOCOL
        && payload.len() >= 8 {
        Some(
            PacketInfo {
                protocol: Protocol::Udp,
                src_ip,
                dst_ip,
                src_port: u16_at(payload, 0),
                dst_port: u16_at(payload, 2),
            },
        )
    } else {
        None
    }
}

/// Extracts what the rules look at. The buffer starts with the IPv4 header.
pub fn extract_packet_info(buf: &[u8]) -> (r: Option<PacketInfo>)
    ensures
        r == packet_info(buf@),
{
    // Malformed headers go first: everything below relies on a sane header.
    if validate_ipv4_header(buf).is_none() {
        return None;
    }
    // A packet that claims more bytes than were captured is truncated.
    let total_length: usize = ipv4_total_length(buf) as usize;
    if total_length < 20 || total_length > buf.len() {
        return None;
    }
    let dst_ip: Ipv4Addr = ipv4_destination(buf);
    if !is_broadcast(dst_ip) {
        return None;
    }
    // Legitimate traffic never comes from 0.0.0.0, a multicast or a broadcast
    // address; such packets could be bounced between two relays.
    let src_ip: Ipv4Addr = ipv4_source(buf);
    if src_ip == Ipv4Addr::new(0, 0, 0, 0) || is_broadcast(src_ip) {
        return None;
    }
    if ipv4_protocol(buf) != UDP_PROTOCOL {
        return None;
    }
    let payload: Vec<u8> = ipv4_payload(buf);
    if payload.len() < 8 {
        return None;
    }
    Some(
        PacketInfo {
            protocol: Protocol::Udp,
            src_ip,
            dst_ip,
            src_port: udp_source(payload.as_slice()),
            dst_port: udp_destination(payload.as_slice()),
        },
    )
}

/// Whether the packet `s` carries the marker of relayed packets.
pub open spec fn carries_marker(s: Seq<u8>) -> bool {
    &&& has_ipv4_header(s)
    &&& s[8] == 1
    &&& u16_at(s, 4) == RELAY_MARKER_IP_ID
}

/// Loop prevention: whether a packet was relayed before.
pub fn is_already_relayed(buf: &[u8]) -> (r: bool)
    ensures
        r == carries_marker(buf@),
{
    if validate_ipv4_header(buf).is_none() {
        return false;
    }
    ipv4_ttl(buf) == 1 && ipv4_identification(buf) == RELAY_MARKER_IP_ID
}

/// Every packet that is a complete UDP datagram over IPv4 from a unicast
/// address to a broadcast or multicast address is understood, and no other:
/// version 4, a header of at least five words that fits, a total length that
/// leaves room for a UDP header and does not run past the bytes captured,
/// protocol 17, a source that is neither 0.0.0.0 nor multicast nor ends in 255,
/// and a destination that is multicast or ends in 255.
pub proof fn exactly_complete_broadcasts_are_understood(s: Seq<u8>)
    ensures
        packet_info(s) is Some <==> {
            let header = (s[0] % 16) * 4;
            let total = s[2] * 256 + s[3];
            &&& s.len() >= 20
            &&& s[0] / 16 == 4
            &&& header >= 20
            &&& header + 8 <= total <= s.len()
            &&& s[9] == 17
            &&& !(s[12] == 0 && s[13] == 0 && s[14] == 0 && s[15] == 0)
            &&& !(224 <= s[12] <= 239)
            &&& s[15] != 255
            &&& 224 <= s[16] <= 239 || s[19] == 255
        },
{
    let header = (s[0] % 16) * 4;
    let total = s[2] * 256 + s[3];
    assert(u16_at(s, 2) == total);
    if has_ipv4_header(s) && total <= s.len() {
        assert(ipv4_payload_bytes(s).len() == if total < header {
            0
        } else {
            total - header
        });
    }
}

/// What is understood of a packet is what it says: its addresses, and the ports
/// right behind its header.
pub proof fn packet_is_described_by_its_bytes(s: Seq<u8>)
    requires
        packet_info(s) is Some,
    ensures
        ({
            let info = packet_info(s)->0;
            let h = (s[0] % 16) * 4;
            &&& info.protocol == Protocol::Udp
            &&& info.src_ip == (Ipv4Addr { a: s[12], b: s[13], c: s[14], d: s[15] })
            &&& info.dst_ip == (Ipv4Addr { a: s[16], b: s[17], c: s[18], d: s[19] })
            &&& info.src_port == s[h] * 256 + s[h + 1]
            &&& info.dst_port == s[h + 2] * 256 + s[h + 3]
        }),
{
    let h = (s[0] % 16) * 4;
    let payload = ipv4_payload_bytes(s);
    assert(forall|i: int| 0 <= i < 4 ==> payload[i] == s[h + i]);
    assert(payload[0] == s[h + 0] && payload[1] == s[h + 1]);
    assert(payload[2] == s[h + 2] && payload[3] == s[h + 3]);
}

/// A packet counts as relayed exactly when, behind a well-formed start of an
/// IPv4 header, its TTL is 1 and its Identification field is 0xBCBC.
pub proof fn marker_is_ttl_and_identification(s: Seq<u8>)
    ensures
        carries_marker(s) <==> {
            &&& s.len() >= 20
            &&& s[0] / 16 == 4
            &&& 20 <= (s[0] % 16) * 4 <= s.len()
            &&& s[8] == 1
            &&& s[4] == 0xBC
            &&& s[5] == 0xBC
        },
{
    assert(u16_at(s, 4) == s[4] * 256 + s[5]);
}

} // verus!
