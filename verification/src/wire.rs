//! The IPv4 and UDP headers on the wire: where their fields lie, what their
//! checksums are, and the calls into `pnet` that read and write them.

use vstd::prelude::*;
use pnet::packet::ipv4::{Ipv4Packet, MutableIpv4Packet};
use pnet::packet::udp::{MutableUdpPacket, UdpPacket};
use pnet::packet::Packet;
use crate::addr::Ipv4Addr;

verus! {

/// Length of an IPv4 header without options.
pub const IPV4_MIN_LEN: usize = 20;

/// Length of a UDP header.
pub const UDP_HEADER_LEN: usize = 8;

/// The protocol number of UDP.
pub const UDP_PROTOCOL: u8 = 17;

/// The longest datagram whose words, together with the pseudo-header, always
/// add up to less than 2^32.
pub const MAX_CHECKSUM_LEN: usize = 131_061;

/// The big-endian 16-bit number at offset `i`.
pub open spec fn u16_at(s: Seq<u8>, i: int) -> u16 {
    (s[i] * 256 + s[i + 1]) as u16
}

/// `s` with the 16-bit number at offset `i` set to `v`, big-endian.
pub open spec fn with_u16(s: Seq<u8>, i: int, v: u16) -> Seq<u8> {
    s.update(i, (v / 256) as u8).update(i + 1, (v % 256) as u8)
}

/// The address at offset `i`.
pub open spec fn addr_at(s: Seq<u8>, i: int) -> Ipv4Addr {
    Ipv4Addr { a: s[i], b: s[i + 1], c: s[i + 2], d: s[i + 3] }
}

/// `s` with the address at offset `i` set to `v`.
pub open spec fn with_addr(s: Seq<u8>, i: int, v: Ipv4Addr) -> Seq<u8> {
    s.update(i, v.a).update(i + 1, v.b).update(i + 2, v.c).update(i + 3, v.d)
}

/// Length in bytes of the IPv4 header at the start of `s`, by its IHL field.
pub open spec fn ihl_bytes(s: Seq<u8>) -> int {
    (s[0] % 16) * 4
}

/// Whether `s` starts with an IPv4 header that fits into it.
pub open spec fn has_ipv4_header(s: Seq<u8>) -> bool {
    &&& s.len() >= IPV4_MIN_LEN
    &&& s[0] / 16 == 4
    &&& s[0] % 16 >= 5
    &&& ihl_bytes(s) <= s.len()
}

/// The sum of the big-endian 16-bit words of `s`; an odd last byte counts as
/// the high byte of a word.
pub open spec fn word_sum(s: Seq<u8>) -> nat
    decreases s.len(),
{
    if s.len() == 0 {
        0
    } else if s.len() == 1 {
        (s[0] * 256) as nat
    } else {
        (s[0] * 256 + s[1]) as nat + word_sum(s.skip(2))
    }
}

/// The one's complement sum of words that add up to `sum`: carries are added
/// back in until the sum fits into 16 bits.
pub open spec fn folded(sum: nat) -> u16 {
    if sum == 0 {
        0
    } else {
        ((sum - 1) % 0xffff + 1) as u16
    }
}

/// The Internet checksum of words that add up to `sum`: the complement of
/// their one's complement sum.
pub open spec fn internet_checksum(sum: nat) -> u16 {
    (0xffff - folded(sum)) as u16
}

/// The sum of the words of the UDP pseudo-header. The length enters as a
/// 32-bit number.
pub open spec fn pseudo_header_sum(src: Ipv4Addr, dst: Ipv4Addr, len: nat) -> nat {
    (src.a * 256 + src.b) as nat + (src.c * 256 + src.d) as nat + (dst.a * 256 + dst.b) as nat + (
    dst.c * 256 + dst.d) as nat + UDP_PROTOCOL as nat + len % 0x1_0000_0000
}

/// The checksum of an IPv4 header, its checksum field taken as zero.
pub open spec fn ipv4_header_checksum(header: Seq<u8>) -> u16 {
    internet_checksum(word_sum(with_u16(header, 10, 0)))
}

/// The checksum of a UDP datagram between two addresses, its checksum field
/// taken as zero.
pub open spec fn udp_checksum(datagram: Seq<u8>, src: Ipv4Addr, dst: Ipv4Addr) -> u16 {
    internet_checksum(
        pseudo_header_sum(src, dst, datagram.len()) + word_sum(with_u16(datagram, 6, 0)),
    )
}

/// Calls `Ipv4Packet::get_total_length`: the big-endian number in bytes 2 and 3.
#[verifier::external_body]
pub(crate) fn ipv4_total_length(buf: &[u8]) -> (r: u16)
    requires
        buf@.len() >= IPV4_MIN_LEN,
    ensures
        r == u16_at(buf@, 2),
{
    Ipv4Packet::new(buf).unwrap().get_total_length()
}

/// Calls `Ipv4Packet::get_identification`: the big-endian number in bytes 4
/// and 5.
#[verifier::external_body]
pub(crate) fn ipv4_identification(buf: &[u8]) -> (r: u16)
    requires
        buf@.len() >= IPV4_MIN_LEN,
    ensures
        r == u16_at(buf@, 4),
{
    Ipv4Packet::new(buf).unwrap().get_identification()
}

/// Calls `Ipv4Packet::get_ttl`: byte 8.
#[verifier::external_body]
pub(crate) fn ipv4_ttl(buf: &[u8]) -> (r: u8)
    requires
        buf@.len() >= IPV4_MIN_LEN,
    ensures
        r == buf@[8],
{
    Ipv4Packet::new(buf).unwrap().get_ttl()
}

/// Calls `Ipv4Packet::get_next_level_protocol`: byte 9.
#[verifier::external_body]
pub(crate) fn ipv4_protocol(buf: &[u8]) -> (r: u8)
    requires
        buf@.len() >= IPV4_MIN_LEN,
    ensures
        r == buf@[9],
{
    Ipv4Packet::new(buf).unwrap().get_next_level_protocol().0
}

/// Calls `Ipv4Packet::get_source`: the address in bytes 12 to 15.
#[verifier::external_body]
pub(crate) fn ipv4_source(buf: &[u8]) -> (r: Ipv4Addr)
    requires
        buf@.len() >= IPV4_MIN_LEN,
    ensures
        r == addr_at(buf@, 12),
{
    let octets = Ipv4Packet::new(buf).unwrap().get_source().octets();
    Ipv4Addr { a: octets[0], b: octets[1], c: octets[2], d: octets[3] }
}

/// Calls `Ipv4Packet::get_destination`: the address in bytes 16 to 19.
#[verifier::external_body]
pub(crate) fn ipv4_destination(buf: &[u8]) -> (r: Ipv4Addr)
    requires
        buf@.len() >= IPV4_MIN_LEN,
    ensures
        r == addr_at(buf@, 16),
{
    let octets = Ipv4Packet::new(buf).unwrap().get_destination().octets();
    Ipv4Addr { a: octets[0], b: octets[1], c: octets[2], d: octets[3] }
}

/// The bytes behind the header, up to the end that the total length field
/// gives and no further than the bytes at hand.
pub open spec fn ipv4_payload_bytes(s: Seq<u8>) -> Seq<u8> {
    let start = ihl_bytes(s);
    let end = if u16_at(s, 2) > s.len() {
        s.len() as int
    } else if u16_at(s, 2) < start {
        start
    } else {
        u16_at(s, 2) as int
    };
    s.subrange(start, end)
}

/// Calls `Packet::payload` on an `Ipv4Packet`: the bytes behind the header and
/// its options, as many as the total length field leaves for them and the
/// buffer holds.
#[verifier::external_body]
pub(crate) fn ipv4_payload(buf: &[u8]) -> (r: Vec<u8>)
    requires
        has_ipv4_header(buf@),
    ensures
        r@ == ipv4_payload_bytes(buf@),
{
    Ipv4Packet::new(buf).unwrap().payload().to_vec()
}

/// Calls `MutableIpv4Packet::set_identification`, which writes bytes 4 and 5.
#[verifier::external_body]
pub(crate) fn ipv4_set_identification(buf: &mut [u8], value: u16)
    requires
        old(buf)@.len() >= IPV4_MIN_LEN,
    ensures
        final(buf)@ == with_u16(old(buf)@, 4, value),
{
    MutableIpv4Packet::new(buf).unwrap().set_identification(value)
}

/// Calls `MutableIpv4Packet::set_ttl`, which writes byte 8.
#[verifier::external_body]
pub(crate) fn ipv4_set_ttl(buf: &mut [u8], value: u8)
    requires
        old(buf)@.len() >= IPV4_MIN_LEN,
    ensures
        final(buf)@ == old(buf)@.update(8, value),
{
    MutableIpv4Packet::new(buf).unwrap().set_ttl(value)
}

/// Calls `MutableIpv4Packet::set_checksum`, which writes bytes 10 and 11.
#[verifier::external_body]
pub(crate) fn ipv4_set_checksum(buf: &mut [u8], value: u16)
    requires
        old(buf)@.len() >= IPV4_MIN_LEN,
    ensures
        final(buf)@ == with_u16(old(buf)@, 10, value),
{
    MutableIpv4Packet::new(buf).unwrap().set_checksum(value)
}

/// Calls `MutableIpv4Packet::set_source`, which writes bytes 12 to 15.
#[verifier::external_body]
pub(crate) fn ipv4_set_source(buf: &mut [u8], value: Ipv4Addr)
    requires
        old(buf)@.len() >= IPV4_MIN_LEN,
    ensures
        final(buf)@ == with_addr(old(buf)@, 12, value),
{
    let octets = [value.a, value.b, value.c, value.d];
    MutableIpv4Packet::new(buf).unwrap().set_source(octets.into())
}

/// Calls `MutableIpv4Packet::set_destination`, which writes bytes 16 to 19.
#[verifier::external_body]
pub(crate) fn ipv4_set_destination(buf: &mut [u8], value: Ipv4Addr)
    requires
        old(buf)@.len() >= IPV4_MIN_LEN,
    ensures
        final(buf)@ == with_addr(old(buf)@, 16, value),
{
    let octets = [value.a, value.b, value.c, value.d];
    MutableIpv4Packet::new(buf).unwrap().set_destination(octets.into())
}

/// Calls `pnet::packet::ipv4::checksum`: the checksum of the header, as long
/// as its IHL field says, with the checksum field taken as zero.
#[verifier::external_body]
pub(crate) fn ipv4_checksum(buf: &[u8]) -> (r: u16)
    requires
        has_ipv4_header(buf@),
    ensures
        r == ipv4_header_checksum(buf@.take(ihl_bytes(buf@))),
{
    pnet::packet::ipv4::checksum(&Ipv4Packet::new(buf).unwrap())
}

/// Calls `UdpPacket::get_source`: the big-endian number in bytes 0 and 1.
#[verifier::external_body]
pub(crate) fn udp_source(datagram: &[u8]) -> (r: u16)
    requires
        datagram@.len() >= UDP_HEADER_LEN,
    ensures
        r == u16_at(datagram@, 0),
{
    UdpPacket::new(datagram).unwrap().get_source()
}

/// Calls `UdpPacket::get_destination`: the big-endian number in bytes 2 and 3.
#[verifier::external_body]
pub(crate) fn udp_destination(datagram: &[u8]) -> (r: u16)
    requires
        datagram@.len() >= UDP_HEADER_LEN,
    ensures
        r == u16_at(datagram@, 2),
{
    UdpPacket::new(datagram).unwrap().get_destination()
}

/// Calls `UdpPacket::get_length`: the big-endian number in bytes 4 and 5.
#[verifier::external_body]
pub(crate) fn udp_length(datagram: &[u8]) -> (r: u16)
    requires
        datagram@.len() >= UDP_HEADER_LEN,
    ensures
        r == u16_at(datagram@, 4),
{
    UdpPacket::new(datagram).unwrap().get_length()
}

/// Calls `MutableUdpPacket::set_source`, which writes bytes 0 and 1.
#[verifier::external_body]
pub(crate) fn udp_set_source(datagram: &mut [u8], value: u16)
    requires
        old(datagram)@.len() >= UDP_HEADER_LEN,
    ensures
        final(datagram)@ == with_u16(old(datagram)@, 0, value),
{
    MutableUdpPacket::new(datagram).unwrap().set_source(value)
}

/// Calls `MutableUdpPacket::set_destination`, which writes bytes 2 and 3.
#[verifier::external_body]
pub(crate) fn udp_set_destination(datagram: &mut [u8], value: u16)
    requires
        old(datagram)@.len() >= UDP_HEADER_LEN,
    ensures
        final(datagram)@ == with_u16(old(datagram)@, 2, value),
{
    MutableUdpPacket::new(datagram).unwrap().set_destination(value)
}

/// Calls `MutableUdpPacket::set_checksum`, which writes bytes 6 and 7.
#[verifier::external_body]
pub(crate) fn udp_set_checksum(datagram: &mut [u8], value: u16)
    requires
        old(datagram)@.len() >= UDP_HEADER_LEN,
    ensures
        final(datagram)@ == with_u16(old(datagram)@, 6, value),
{
    MutableUdpPacket::new(datagram).unwrap().set_checksum(value)
}

/// Calls `pnet::packet::udp::ipv4_checksum`: the checksum over the
/// pseudo-header, whose length is that of the whole slice, and every byte of
/// the slice, with the checksum field taken as zero.
#[verifier::external_body]
pub(crate) fn udp_ipv4_checksum(datagram: &[u8], src: Ipv4Addr, dst: Ipv4Addr) -> (r: u16)
    requires
        UDP_HEADER_LEN <= datagram@.len() <= MAX_CHECKSUM_LEN,
    ensures
        r == udp_checksum(datagram@, src, dst),
{
    let packet = UdpPacket::new(datagram).unwrap();
    pnet::packet::udp::ipv4_checksum(
        &packet,
        &[src.a, src.b, src.c, src.d].into(),
        &[dst.a, dst.b, dst.c, dst.d].into(),
    )
}

/// The checksum of a UDP datagram of any length between two addresses, its
/// checksum field taken as zero.
pub(crate) fn datagram_checksum(datagram: &[u8], src: Ipv4Addr, dst: Ipv4Addr) -> (r: u16)
    requires
        UDP_HEADER_LEN <= datagram@.len(),
    ensures
        r == udp_checksum(datagram@, src, dst),
{
    if datagram.len() <= MAX_CHECKSUM_LEN {
        udp_ipv4_checksum(datagram, src, dst)
    } else {
        wide_checksum(datagram, src, dst)
    }
}

/// The checksum of a UDP datagram whose words may add up to more than 32 bits
/// can hold.
fn wide_checksum(datagram: &[u8], src: Ipv4Addr, dst: Ipv4Addr) -> (r: u16)
    requires
        UDP_HEADER_LEN <= datagram@.len(),
    ensures
        r == udp_checksum(datagram@, src, dst),
{
    let ghost cleared = with_u16(datagram@, 6, 0);
    let ghost total = pseudo_header_sum(src, dst, datagram@.len()) + word_sum(cleared);
    let mut sum: u128 = (src.a as u128 * 256 + src.b as u128) + (src.c as u128 * 256
        + src.d as u128) + (dst.a as u128 * 256 + dst.b as u128) + (dst.c as u128 * 256
        + dst.d as u128) + UDP_PROTOCOL as u128 + datagram.len() as u128 % 0x1_0000_0000;
    let mut i: usize = 0;
    proof {
        assert(cleared.skip(0) =~= cleared);
    }
    while datagram.len() - i >= 2
        invariant
            UDP_HEADER_LEN <= datagram@.len(),
            i <= datagram@.len(),
            i % 2 == 0,
            cleared == with_u16(datagram@, 6, 0),
            sum + word_sum(cleared.skip(i as int)) == total,
            sum <= 0x2_0000_0000 + i * 0xffff,
        decreases datagram@.len() - i,
    {
        proof {
            assert(cleared.skip(i as int).skip(2) =~= cleared.skip(i as int + 2));
        }
        if i != 6 {
            sum = sum + (datagram[i] as u128 * 256 + datagram[i + 1] as u128);
        }
        i = i + 2;
    }
    if i < datagram.len() {
        sum = sum + datagram[i] as u128 * 256;
    }
    proof {
        assert(sum == total);
    }
    0xffff - ((sum - 1) % 0xffff + 1) as u16
}

/// Setting a word adds its value to the sum of words.
pub proof fn lemma_word_sum_with_u16(s: Seq<u8>, i: int, v: u16)
    requires
        0 <= i,
        i + 1 < s.len(),
        i % 2 == 0,
    ensures
        word_sum(with_u16(s, i, v)) == word_sum(with_u16(s, i, 0)) + v,
    decreases s.len(),
{
    let t = with_u16(s, i, v);
    let z = with_u16(s, i, 0);
    if i == 0 {
        assert(t.skip(2) =~= z.skip(2));
        assert(t[0] * 256 + t[1] == v);
    } else {
        assert(t.skip(2) =~= with_u16(s.skip(2), i - 2, v));
        assert(z.skip(2) =~= with_u16(s.skip(2), i - 2, 0));
        lemma_word_sum_with_u16(s.skip(2), i - 2, v);
    }
}

/// A sum of words and its checksum, or the other representation of zero in
/// place of a checksum of zero, add up to all ones, as a receiver checks.
pub proof fn lemma_checksum_cancels(sum: nat)
    requires
        sum > 0,
    ensures
        folded(sum + internet_checksum(sum) as nat) == 0xffff,
        internet_checksum(sum) == 0 ==> folded(sum + 0xffff) == 0xffff,
{
    let q = (sum - 1) / 0xffff;
    let r = (sum - 1) % 0xffff;
    assert(sum - 1 == 0xffff * q + r);
    assert(sum + internet_checksum(sum) - 1 == 0xffff * q + 0xfffe);
}

/// A sum of words is positive if the first of them is.
pub proof fn lemma_word_sum_positive(s: Seq<u8>)
    requires
        s.len() > 0,
        s[0] > 0,
    ensures
        word_sum(s) > 0,
{
}

/// The sum of words adds up over parts, as long as no word is torn apart: two
/// bytes are a word, high byte first, and a single last byte is a high byte.
pub proof fn word_sums_add_up(s: Seq<u8>, t: Seq<u8>, x: u8, y: u8)
    requires
        s.len() % 2 == 0,
    ensures
        word_sum(Seq::<u8>::empty()) == 0,
        word_sum(seq![x]) == x * 256,
        word_sum(seq![x, y]) == x * 256 + y,
        word_sum(s + t) == word_sum(s) + word_sum(t),
    decreases s.len(),
{
    assert(seq![x, y].skip(2) =~= Seq::<u8>::empty());
    assert(word_sum(seq![x, y].skip(2)) == 0);
    if s.len() == 0 {
        assert(s + t =~= t);
    } else {
        word_sums_add_up(s.skip(2), t, x, y);
        assert((s + t).skip(2) =~= s.skip(2) + t);
    }
}

/// Adding carries back in keeps a sum modulo 0xffff, and leaves zero only of
/// zero.
pub proof fn folding_keeps_the_remainder(sum: nat)
    ensures
        folded(sum) as nat % 0xffff == sum % 0xffff,
        folded(sum) == 0 <==> sum == 0,
        sum <= 0xffff ==> folded(sum) == sum,
{
    if sum > 0 {
        let q = (sum - 1) / 0xffff;
        let r = (sum - 1) % 0xffff;
        assert(sum == 0xffff * q + (r + 1));
        if r + 1 == 0xffff {
            assert(sum == 0xffff * (q + 1));
        }
    }
}

/// No checksum overflows: the words of a datagram of at most 131061 bytes and
/// of its pseudo-header add up to less than 2^32.
pub proof fn checksums_fit_up_to_the_limit(datagram: Seq<u8>, src: Ipv4Addr, dst: Ipv4Addr)
    requires
        datagram.len() <= MAX_CHECKSUM_LEN,
    ensures
        pseudo_header_sum(src, dst, datagram.len()) + word_sum(datagram) < 0x1_0000_0000,
{
    lemma_word_sum_bound(datagram);
}

/// A sum of words is no more than all ones in each of them.
proof fn lemma_word_sum_bound(s: Seq<u8>)
    ensures
        s.len() % 2 == 0 ==> 2 * word_sum(s) <= 0xffff * s.len(),
        s.len() % 2 == 1 ==> 2 * word_sum(s) <= 0xffff * (s.len() - 1) + 2 * 0xff00,
    decreases s.len(),
{
    if s.len() >= 2 {
        lemma_word_sum_bound(s.skip(2));
    }
}

/// Where the fields of a packet lie: numbers have their high byte first, an
/// address its first octet; writing a field changes its bytes and no others.
pub proof fn fields_lie_in_network_order(s: Seq<u8>, i: int, v: u16, ip: Ipv4Addr, k: int)
    requires
        0 <= i,
        i + 4 <= s.len(),
        0 <= k < s.len(),
    ensures
        u16_at(s, i) == s[i] * 256 + s[i + 1],
        u16_at(with_u16(s, i, v), i) == v,
        k != i && k != i + 1 ==> with_u16(s, i, v)[k] == s[k],
        addr_at(s, i).a == s[i] && addr_at(s, i).b == s[i + 1],
        addr_at(s, i).c == s[i + 2] && addr_at(s, i).d == s[i + 3],
        addr_at(with_addr(s, i, ip), i) == ip,
        !(i <= k < i + 4) ==> with_addr(s, i, ip)[k] == s[k],
{
    assert((v / 256) * 256 + v % 256 == v);
}

} // verus!
