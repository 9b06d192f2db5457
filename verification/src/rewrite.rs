//! Rewriting of packets on their way out.

use vstd::prelude::*;
use crate::addr::Ipv4Addr;
use crate::config::NatOptions;
use crate::packet::{carries_marker, validate_ipv4_header, RELAY_MARKER_IP_ID};
use crate::wire::{
    addr_at, datagram_checksum, folded, has_ipv4_header, ihl_bytes, ipv4_checksum,
    ipv4_destination, ipv4_header_checksum, ipv4_protocol, ipv4_set_checksum,
    ipv4_set_destination, ipv4_set_identification, ipv4_set_source, ipv4_set_ttl, ipv4_source,
    lemma_checksum_cancels, lemma_word_sum_positive, lemma_word_sum_with_u16, pseudo_header_sum,
    u16_at, udp_checksum, udp_length, udp_set_checksum, udp_set_destination, udp_set_source,
    with_addr, with_u16, word_sum, UDP_HEADER_LEN, UDP_PROTOCOL,
};

verus! {

/// Why a packet cannot be rewritten.
#[derive(Debug, Clone, Copy, PartialEq, Eq, Structural)]
pub enum NatError {
    /// The packet does not start with a well-formed IPv4 header.
    MalformedHeader,
    /// What follows the IPv4 header is too short for a UDP header.
    InvalidUdp,
}

impl NatError {
    /// The message for a user.
    pub open spec fn message(self) -> Seq<char> {
        match self {
            NatError::MalformedHeader => "Malformed IPv4 header"@,
            NatError::InvalidUdp => "Invalid UDP packet"@,
        }
    }

    /// The message for a user.
    pub fn text(&self) -> (r: &'static str)
        ensures
            r@ == self.message(),
    {
        match self {
            NatError::MalformedHeader => "Malformed IPv4 header",
            NatError::InvalidUdp => "Invalid UDP packet",
        }
    }
}

/// The source address of a packet after rewriting.
pub open spec fn new_source(s: Seq<u8>, opts: NatOptions) -> Ipv4Addr {
    match opts.source_ip {
        Some(ip) => ip,
        None => addr_at(s, 12),
    }
}

/// The destination address of a packet after rewriting: the one that the
/// options ask for, or else the packet's own if that is a multicast group, or
/// else the broadcast address of the segment.
pub open spec fn new_destination(
    s: Seq<u8>,
    opts: NatOptions,
    dest_broadcast: Ipv4Addr,
) -> Ipv4Addr {
    match opts.dest_ip {
        Some(ip) => ip,
        None => if addr_at(s, 16).multicast() {
            addr_at(s, 16)
        } else {
            dest_broadcast
        },
    }
}

/// A packet with its new addresses and the marker of relayed packets.
pub open spec fn readdressed(s: Seq<u8>, opts: NatOptions, dest_broadcast: Ipv4Addr) -> Seq<u8> {
    with_u16(
        with_addr(
            with_addr(s, 12, new_source(s, opts)),
            16,
            new_destination(s, opts, dest_broadcast),
        ).update(8, 1),
        4,
        RELAY_MARKER_IP_ID,
    )
}

/// How many of the bytes behind the IPv4 header belong to the UDP datagram: as
/// many as its length field says. Bytes behind that are padding of the link.
/// A length field that cannot be right is not consulted: then they all belong
/// to it.
pub open spec fn udp_extent(rest: Seq<u8>) -> int {
    if UDP_HEADER_LEN <= u16_at(rest, 4) <= rest.len() {
        u16_at(rest, 4) as int
    } else {
        rest.len() as int
    }
}

/// The UDP part of a packet with its new ports.
pub open spec fn with_ports(rest: Seq<u8>, opts: NatOptions) -> Seq<u8> {
    let s = match opts.source_port {
        Some(port) => with_u16(rest, 0, port),
        None => rest,
    };
    match opts.dest_port {
        Some(port) => with_u16(s, 2, port),
        None => s,
    }
}

/// The checksum to put into a datagram: where it comes out as zero, which
/// would say that there is none, the other representation of zero stands in.
pub open spec fn sent_udp_checksum(datagram: Seq<u8>, src: Ipv4Addr, dst: Ipv4Addr) -> u16 {
    if udp_checksum(datagram, src, dst) == 0 {
        0xffff
    } else {
        udp_checksum(datagram, src, dst)
    }
}

/// The UDP part of a packet with its new ports and checksum.
pub open spec fn udp_rewritten(
    rest: Seq<u8>,
    opts: NatOptions,
    src: Ipv4Addr,
    dst: Ipv4Addr,
) -> Seq<u8> {
    let ported = with_ports(rest, opts);
    with_u16(ported, 6, sent_udp_checksum(ported.take(udp_extent(rest)), src, dst))
}

/// A packet with a fresh IPv4 header checksum.
pub open spec fn with_header_checksum(s: Seq<u8>) -> Seq<u8> {
    with_u16(s, 10, ipv4_header_checksum(s.take(ihl_bytes(s))))
}

/// The packet that is sent for the packet `s`.
pub open spec fn nat_result(s: Seq<u8>, opts: NatOptions, dest_broadcast: Ipv4Addr) -> Result<
    Seq<u8>,
    NatError,
> {
    let moved = readdressed(s, opts, dest_broadcast);
    let n = ihl_bytes(s);
    if !has_ipv4_header(s) {
        Err(NatError::MalformedHeader)
    } else if s[9] != UDP_PROTOCOL {
        Ok(with_header_checksum(moved))
    } else if s.len() - n < UDP_HEADER_LEN {
        Err(NatError::InvalidUdp)
    } else {
        let src = new_source(s, opts);
        let dst = new_destination(s, opts, dest_broadcast);
        Ok(with_header_checksum(moved.take(n) + udp_rewritten(moved.skip(n), opts, src, dst)))
    }
}

/// Rewrites a packet in place for an output segment: applies the NAT options,
/// addresses it to the segment's broadcast address unless it goes to a
/// multicast group, marks it as relayed, and recomputes its checksums. Doing so
/// once more changes nothing.
pub fn apply_nat(buf: &mut [u8], opts: &NatOptions, dest_broadcast: Ipv4Addr) -> (r: Result<
    (),
    NatError,
>)
    ensures
        match r {
            Ok(_) => {
                &&& nat_result(old(buf)@, *opts, dest_broadcast) == Ok::<Seq<u8>, NatError>(
                    final(buf)@,
                )
                &&& carries_marker(final(buf)@)
                &&& ihl_bytes(final(buf)@) == ihl_bytes(old(buf)@)
                &&& folded(word_sum(final(buf)@.take(ihl_bytes(final(buf)@)))) == 0xffff
                &&& nat_result(final(buf)@, *opts, dest_broadcast) == Ok::<Seq<u8>, NatError>(
                    final(buf)@,
                )
            },
            Err(e) => {
                &&& nat_result(old(buf)@, *opts, dest_broadcast) == Err::<Seq<u8>, NatError>(e)
                &&& final(buf)@ == if e == NatError::MalformedHeader {
                    old(buf)@
                } else {
                    readdressed(old(buf)@, *opts, dest_broadcast)
                }
            },
        },
{
    let ghost s = buf@;
    let ip_header_len: usize = match validate_ipv4_header(buf) {
        Some(n) => n,
        None => {
            return Err(NatError::MalformedHeader);
        },
    };
    if let Some(new_src) = opts.source_ip {
        ipv4_set_source(buf, new_src);
    }
    proof {
        assert(buf@ =~= with_addr(s, 12, new_source(s, *opts)));
        assert(addr_at(buf@, 16) == addr_at(s, 16));
    }
    if let Some(new_dst) = opts.dest_ip {
        ipv4_set_destination(buf, new_dst);
    } else if !ipv4_destination(buf).is_multicast() {
        ipv4_set_destination(buf, dest_broadcast);
    }
    proof {
        assert(buf@ =~= with_addr(
            with_addr(s, 12, new_source(s, *opts)),
            16,
            new_destination(s, *opts, dest_broadcast),
        ));
    }
    ipv4_set_ttl(buf, 1);
    ipv4_set_identification(buf, RELAY_MARKER_IP_ID);
    let protocol: u8 = ipv4_protocol(buf);
    let final_src: Ipv4Addr = ipv4_source(buf);
    let final_dst: Ipv4Addr = ipv4_destination(buf);
    let ghost moved = buf@;
    proof {
        assert(moved == readdressed(s, *opts, dest_broadcast));
        assert(final_src == new_source(s, *opts));
        assert(final_dst == new_destination(s, *opts, dest_broadcast));
    }
    if protocol == UDP_PROTOCOL {
        if buf.len() - ip_header_len < UDP_HEADER_LEN {
            return Err(NatError::InvalidUdp);
        }
        let (_, datagram) = buf.split_at_mut(ip_header_len);
        apply_udp_nat(datagram, opts, final_src, final_dst);
        proof {
            assert(moved.subrange(0, ip_header_len as int) =~= moved.take(ip_header_len as int));
            assert(moved.subrange(ip_header_len as int, moved.len() as int) =~= moved.skip(
                ip_header_len as int,
            ));
        }
    }
    let checksum: u16 = ipv4_checksum(buf);
    ipv4_set_checksum(buf, checksum);
    proof {
        rewritten_packets_are_marked_and_well_formed(s, *opts, dest_broadcast);
        rewriting_twice_changes_nothing(s, *opts, dest_broadcast);
    }
    Ok(())
}

/// Rewrites the UDP part of a packet: new ports, and a checksum over the
/// result and the new addresses.
fn apply_udp_nat(datagram: &mut [u8], opts: &NatOptions, src: Ipv4Addr, dst: Ipv4Addr)
    requires
        UDP_HEADER_LEN <= old(datagram)@.len(),
    ensures
        final(datagram)@ == udp_rewritten(old(datagram)@, *opts, src, dst),
{
    let length: usize = udp_length(datagram) as usize;
    let extent: usize = if UDP_HEADER_LEN <= length && length <= datagram.len() {
        length
    } else {
        datagram.len()
    };
    if let Some(new_sport) = opts.source_port {
        udp_set_source(datagram, new_sport);
    }
    if let Some(new_dport) = opts.dest_port {
        udp_set_destination(datagram, new_dport);
    }
    proof {
        assert(datagram@.subrange(0, extent as int) =~= datagram@.take(extent as int));
    }
    let checksum: u16 = datagram_checksum(
        vstd::slice::slice_subrange(datagram, 0, extent),
        src,
        dst,
    );
    udp_set_checksum(
        datagram,
        if checksum == 0 {
            0xffff
        } else {
            checksum
        },
    );
}

/// A rewritten packet is as long as the one received, keeps its header length
/// and protocol, and differs from it in nothing but the addresses, the marker,
/// the ports and the checksums.
pub proof fn rewriting_keeps_the_rest(s: Seq<u8>, opts: NatOptions, dest_broadcast: Ipv4Addr, i: int)
    requires
        nat_result(s, opts, dest_broadcast) is Ok,
        0 <= i < s.len(),
    ensures
        ({
            let out = nat_result(s, opts, dest_broadcast)->Ok_0;
            let n = ihl_bytes(s);
            &&& out.len() == s.len()
            &&& has_ipv4_header(out)
            &&& ihl_bytes(out) == n
            &&& out[i] != s[i] ==> {
                ||| 4 <= i < 6 || i == 8 || 10 <= i < 20
                ||| s[9] == UDP_PROTOCOL && (n <= i < n + 4 || n + 6 <= i < n + 8)
            }
        }),
{
    let moved = readdressed(s, opts, dest_broadcast);
    let n = ihl_bytes(s);
    if s[9] == UDP_PROTOCOL {
        let rest = udp_rewritten(
            moved.skip(n),
            opts,
            new_source(s, opts),
            new_destination(s, opts, dest_broadcast),
        );
        assert(rest.len() == moved.len() - n);
        assert((moved.take(n) + rest)[0] == s[0]);
        if i < n {
            assert((moved.take(n) + rest)[i] == moved[i]);
        } else {
            assert((moved.take(n) + rest)[i] == rest[i - n]);
            assert(moved.skip(n)[i - n] == moved[i]);
        }
    }
}

/// A rewritten packet carries the addresses that were asked for, and carries
/// the marker of relayed packets.
pub proof fn rewriting_readdresses_and_marks(
    s: Seq<u8>,
    opts: NatOptions,
    dest_broadcast: Ipv4Addr,
)
    requires
        nat_result(s, opts, dest_broadcast) is Ok,
    ensures
        ({
            let out = nat_result(s, opts, dest_broadcast)->Ok_0;
            &&& addr_at(out, 12) == new_source(s, opts)
            &&& addr_at(out, 16) == new_destination(s, opts, dest_broadcast)
            &&& carries_marker(out)
        }),
{
    rewriting_keeps_the_rest(s, opts, dest_broadcast, 0);
    let moved = readdressed(s, opts, dest_broadcast);
    let n = ihl_bytes(s);
    let out = nat_result(s, opts, dest_broadcast)->Ok_0;
    assert(moved.take(n).len() == n >= 20);
    assert(forall|i: int| 0 <= i < 20 && i != 10 && i != 11 ==> out[i] == moved[i]);
    assert(out[4] == 0xBC && out[5] == 0xBC);
}

/// A rewritten UDP packet carries the ports that were asked for, and its own
/// where none was.
pub proof fn rewriting_sets_the_ports(s: Seq<u8>, opts: NatOptions, dest_broadcast: Ipv4Addr)
    requires
        nat_result(s, opts, dest_broadcast) is Ok,
        s[9] == UDP_PROTOCOL,
    ensures
        ({
            let out = nat_result(s, opts, dest_broadcast)->Ok_0;
            let n = ihl_bytes(s);
            &&& u16_at(out, n) == match opts.source_port {
                Some(port) => port,
                None => u16_at(s, n),
            }
            &&& u16_at(out, n + 2) == match opts.dest_port {
                Some(port) => port,
                None => u16_at(s, n + 2),
            }
        }),
{
    let moved = readdressed(s, opts, dest_broadcast);
    let n = ihl_bytes(s);
    let out = nat_result(s, opts, dest_broadcast)->Ok_0;
    let ported = with_ports(moved.skip(n), opts);
    let rest = udp_rewritten(
        moved.skip(n),
        opts,
        new_source(s, opts),
        new_destination(s, opts, dest_broadcast),
    );
    assert((moved.take(n) + rest)[0] == s[0]);
    assert forall|i: int| 0 <= i < 4 implies out[n + i] == ported[i] by {
        assert((moved.take(n) + rest)[n + i] == rest[i]);
    }
    assert(forall|i: int| 0 <= i < 4 ==> moved.skip(n)[i] == s[n + i]);
    assert(out[n + 0] == ported[0] && out[n + 1] == ported[1] && out[n + 2] == ported[2] && out[n
        + 3] == ported[3]);
    assert(u16_at(moved.skip(n), 0) == u16_at(s, n));
    assert(u16_at(moved.skip(n), 2) == u16_at(s, n + 2));
}

/// The words of the IPv4 header of a rewritten packet, its options and its
/// checksum among them, add up to all ones: a receiver finds the checksum right.
pub proof fn rewritten_header_checksum_is_valid(
    s: Seq<u8>,
    opts: NatOptions,
    dest_broadcast: Ipv4Addr,
)
    requires
        nat_result(s, opts, dest_broadcast) is Ok,
    ensures
        ({
            let out = nat_result(s, opts, dest_broadcast)->Ok_0;
            folded(word_sum(out.take(ihl_bytes(out)))) == 0xffff
        }),
{
    rewriting_keeps_the_rest(s, opts, dest_broadcast, 0);
    let moved = readdressed(s, opts, dest_broadcast);
    let n = ihl_bytes(s);
    let out = nat_result(s, opts, dest_broadcast)->Ok_0;
    let before = if s[9] == UDP_PROTOCOL {
        moved.take(n) + udp_rewritten(
            moved.skip(n),
            opts,
            new_source(s, opts),
            new_destination(s, opts, dest_broadcast),
        )
    } else {
        moved
    };
    assert(before[0] == s[0]);
    assert(out == with_header_checksum(before));
    let header = before.take(n);
    let checksum = ipv4_header_checksum(header);
    assert(out.take(n) =~= with_u16(header, 10, checksum));
    lemma_word_sum_with_u16(header, 10, checksum);
    lemma_word_sum_positive(with_u16(header, 10, 0));
    lemma_checksum_cancels(word_sum(with_u16(header, 10, 0)));
}

/// The words of the UDP datagram in a rewritten packet and of its
/// pseudo-header, the checksum among them, add up to all ones: a receiver finds
/// the checksum right. The checksum is not the zero that says there is none.
pub proof fn rewritten_udp_checksum_is_valid(
    s: Seq<u8>,
    opts: NatOptions,
    dest_broadcast: Ipv4Addr,
)
    requires
        nat_result(s, opts, dest_broadcast) is Ok,
        s[9] == UDP_PROTOCOL,
    ensures
        ({
            let out = nat_result(s, opts, dest_broadcast)->Ok_0;
            let rest = out.skip(ihl_bytes(out));
            let n = udp_extent(rest);
            &&& u16_at(rest, 4) == u16_at(s.skip(ihl_bytes(s)), 4)
            &&& folded(
                pseudo_header_sum(addr_at(out, 12), addr_at(out, 16), n as nat) + word_sum(
                    rest.take(n),
                ),
            ) == 0xffff
            &&& u16_at(rest, 6) != 0
        }),
{
    rewriting_keeps_the_rest(s, opts, dest_broadcast, 0);
    rewriting_readdresses_and_marks(s, opts, dest_broadcast);
    let moved = readdressed(s, opts, dest_broadcast);
    let h = ihl_bytes(s);
    let out = nat_result(s, opts, dest_broadcast)->Ok_0;
    let src = new_source(s, opts);
    let dst = new_destination(s, opts, dest_broadcast);
    let rest = out.skip(h);
    let tail = moved.skip(h);
    let ported = with_ports(tail, opts);
    assert(forall|i: int| 4 <= i < 6 ==> ported[i] == tail[i]);
    assert(rest =~= udp_rewritten(tail, opts, src, dst));
    let n = udp_extent(tail);
    assert(forall|i: int| 4 <= i < 6 ==> tail[i] == s[h + i]);
    assert(udp_extent(rest) == n);
    let datagram = ported.take(n);
    let checksum = sent_udp_checksum(datagram, src, dst);
    assert(rest.take(n) =~= with_u16(datagram, 6, checksum));
    lemma_word_sum_with_u16(datagram, 6, checksum);
    let sum = pseudo_header_sum(src, dst, n as nat) + word_sum(
        with_u16(datagram, 6, 0),
    );
    lemma_checksum_cancels(sum);
    assert(rest[6] * 256 + rest[7] == checksum);
}

/// A packet that was rewritten carries the marker of relayed packets, whatever
/// the options and the segment, behind an IPv4 header as long as before whose
/// words, options included, add up to all ones.
pub proof fn rewritten_packets_are_marked_and_well_formed(
    s: Seq<u8>,
    opts: NatOptions,
    dest_broadcast: Ipv4Addr,
)
    requires
        nat_result(s, opts, dest_broadcast) is Ok,
    ensures
        ({
            let out = nat_result(s, opts, dest_broadcast)->Ok_0;
            &&& out.len() == s.len()
            &&& has_ipv4_header(out)
            &&& ihl_bytes(out) == ihl_bytes(s)
            &&& out[8] == 1
            &&& out[4] == 0xBC
            &&& out[5] == 0xBC
            &&& carries_marker(out)
            &&& folded(word_sum(out.take(ihl_bytes(out)))) == 0xffff
        }),
{
    rewriting_keeps_the_rest(s, opts, dest_broadcast, 0);
    rewriting_readdresses_and_marks(s, opts, dest_broadcast);
    rewritten_header_checksum_is_valid(s, opts, dest_broadcast);
    let out = nat_result(s, opts, dest_broadcast)->Ok_0;
    assert(out[4] * 256 + out[5] == RELAY_MARKER_IP_ID);
}

/// Rewriting a rewritten packet once more, with the same options for the same
/// segment, succeeds and changes nothing.
pub proof fn rewriting_twice_changes_nothing(
    s: Seq<u8>,
    opts: NatOptions,
    dest_broadcast: Ipv4Addr,
)
    requires
        nat_result(s, opts, dest_broadcast) is Ok,
    ensures
        nat_result(nat_result(s, opts, dest_broadcast)->Ok_0, opts, dest_broadcast)
            == nat_result(s, opts, dest_broadcast),
{
    let out = nat_result(s, opts, dest_broadcast)->Ok_0;
    let n = ihl_bytes(s);
    rewriting_readdresses_and_marks(s, opts, dest_broadcast);
    rewriting_keeps_the_rest(s, opts, dest_broadcast, 0);
    rewriting_keeps_the_rest(s, opts, dest_broadcast, 9);
    let moved = readdressed(s, opts, dest_broadcast);
    let src = new_source(s, opts);
    let dst = new_destination(s, opts, dest_broadcast);
    assert(new_source(out, opts) == src);
    assert(new_destination(out, opts, dest_broadcast) == dst);
    assert(readdressed(out, opts, dest_broadcast) =~= out) by {
        assert(out[4] * 256 + out[5] == RELAY_MARKER_IP_ID);
    }
    if s[9] == UDP_PROTOCOL {
        let tail = moved.skip(n);
        let rest = udp_rewritten(tail, opts, src, dst);
        let before = moved.take(n) + rest;
        assert(before[0] == s[0]);
        assert(out.skip(n) =~= rest);
        lemma_udp_rewritten_twice(tail, opts, src, dst);
        assert(out.take(n) + rest =~= out);
        lemma_header_checksum_twice(before);
    } else {
        assert(moved[0] == s[0]);
        lemma_header_checksum_twice(moved);
    }
}

/// A fresh header checksum comes out the same when it is formed again.
proof fn lemma_header_checksum_twice(s: Seq<u8>)
    requires
        has_ipv4_header(s),
    ensures
        with_header_checksum(with_header_checksum(s)) == with_header_checksum(s),
{
    let out = with_header_checksum(s);
    let n = ihl_bytes(s);
    assert(ihl_bytes(out) == n);
    assert(with_u16(out.take(n), 10, 0) =~= with_u16(s.take(n), 10, 0));
    assert(with_header_checksum(out) =~= out);
}

/// New ports and a fresh checksum come out the same when they are set again.
proof fn lemma_udp_rewritten_twice(rest: Seq<u8>, opts: NatOptions, src: Ipv4Addr, dst: Ipv4Addr)
    requires
        rest.len() >= UDP_HEADER_LEN,
    ensures
        udp_rewritten(udp_rewritten(rest, opts, src, dst), opts, src, dst) == udp_rewritten(
            rest,
            opts,
            src,
            dst,
        ),
{
    let out = udp_rewritten(rest, opts, src, dst);
    let ported = with_ports(rest, opts);
    assert(out[4] == rest[4] && out[5] == rest[5]);
    let n = udp_extent(rest);
    assert(udp_extent(out) == n);
    assert(with_ports(out, opts) =~= out);
    assert(with_u16(out.take(n), 6, 0) =~= with_u16(ported.take(n), 6, 0));
    assert(out.take(n).len() == ported.take(n).len());
    assert(udp_rewritten(out, opts, src, dst) =~= out);
}

/// Rewriting succeeds on every packet that starts with a whole IPv4 header and,
/// if it is UDP, has a whole UDP header behind it, and on no other.
pub proof fn whole_headers_can_be_rewritten(
    s: Seq<u8>,
    opts: NatOptions,
    dest_broadcast: Ipv4Addr,
)
    ensures
        ({
            let h = (s[0] % 16) * 4;
            let whole = s.len() >= 20 && s[0] / 16 == 4 && 20 <= h <= s.len();
            match nat_result(s, opts, dest_broadcast) {
                Ok(_) => whole && (s[9] == 17 ==> s.len() - h >= 8),
                Err(NatError::MalformedHeader) => !whole,
                Err(NatError::InvalidUdp) => whole && s[9] == 17 && s.len() - h < 8,
            }
        }),
{
}

/// Which bytes a rewritten packet has: the marker, the addresses and ports that
/// were asked for, the group of a multicast or else the address of the segment,
/// and apart from the checksums all other bytes as they were.
pub proof fn rewritten_bytes(s: Seq<u8>, opts: NatOptions, dest_broadcast: Ipv4Addr)
    requires
        nat_result(s, opts, dest_broadcast) is Ok,
    ensures
        ({
            let out = nat_result(s, opts, dest_broadcast)->Ok_0;
            let h = (s[0] % 16) * 4;
            &&& out.len() == s.len()
            &&& forall|i: int|
                0 <= i < s.len() && !(4 <= i < 6) && i != 8 && !(10 <= i < 20) && !(s[9] == 17 && (h
                    <= i < h + 4 || h + 6 <= i < h + 8)) ==> #[trigger] out[i] == s[i]
            &&& out[4] == 0xBC
            &&& out[5] == 0xBC
            &&& out[8] == 1
            &&& match opts.source_ip {
                Some(ip) => out[12] == ip.a && out[13] == ip.b && out[14] == ip.c && out[15]
                    == ip.d,
                None => out[12] == s[12] && out[13] == s[13] && out[14] == s[14] && out[15]
                    == s[15],
            }
            &&& match opts.dest_ip {
                Some(ip) => out[16] == ip.a && out[17] == ip.b && out[18] == ip.c && out[19]
                    == ip.d,
                None => if 224 <= s[16] <= 239 {
                    out[16] == s[16] && out[17] == s[17] && out[18] == s[18] && out[19] == s[19]
                } else {
                    out[16] == dest_broadcast.a && out[17] == dest_broadcast.b && out[18]
                        == dest_broadcast.c && out[19] == dest_broadcast.d
                },
            }
            &&& s[9] == 17 ==> out[h] * 256 + out[h + 1] == match opts.source_port {
                Some(port) => port as int,
                None => s[h] * 256 + s[h + 1],
            }
            &&& s[9] == 17 ==> out[h + 2] * 256 + out[h + 3] == match opts.dest_port {
                Some(port) => port as int,
                None => s[h + 2] * 256 + s[h + 3],
            }
        }),
{
    let out = nat_result(s, opts, dest_broadcast)->Ok_0;
    let h = (s[0] % 16) * 4;
    rewriting_keeps_the_rest(s, opts, dest_broadcast, 0);
    rewriting_readdresses_and_marks(s, opts, dest_broadcast);
    rewritten_packets_are_marked_and_well_formed(s, opts, dest_broadcast);
    assert forall|i: int|
        0 <= i < s.len() && !(4 <= i < 6) && i != 8 && !(10 <= i < 20) && !(s[9] == 17 && (h <= i
            < h + 4 || h + 6 <= i < h + 8)) implies #[trigger] out[i] == s[i] by {
        rewriting_keeps_the_rest(s, opts, dest_broadcast, i);
    }
    let src = addr_at(out, 12);
    let dst = addr_at(out, 16);
    assert(src.a == out[12] && src.b == out[13] && src.c == out[14] && src.d == out[15]);
    assert(dst.a == out[16] && dst.b == out[17] && dst.c == out[18] && dst.d == out[19]);
    if s[9] == UDP_PROTOCOL {
        rewriting_sets_the_ports(s, opts, dest_broadcast);
        assert(u16_at(out, h) == out[h] * 256 + out[h + 1]);
        assert(u16_at(out, h + 2) == out[h + 2] * 256 + out[h + 3]);
    }
}

/// A receiver accepts the IPv4 header of a rewritten packet: its words add up
/// to all ones, and its checksum is not the other representation of zero.
pub proof fn receivers_accept_the_header(s: Seq<u8>, opts: NatOptions, dest_broadcast: Ipv4Addr)
    requires
        nat_result(s, opts, dest_broadcast) is Ok,
    ensures
        ({
            let out = nat_result(s, opts, dest_broadcast)->Ok_0;
            &&& folded(word_sum(out.take((s[0] % 16) * 4))) == 0xffff
            &&& !(out[10] == 0xff && out[11] == 0xff)
        }),
{
    rewriting_keeps_the_rest(s, opts, dest_broadcast, 0);
    rewritten_header_checksum_is_valid(s, opts, dest_broadcast);
    let moved = readdressed(s, opts, dest_broadcast);
    let n = ihl_bytes(s);
    let out = nat_result(s, opts, dest_broadcast)->Ok_0;
    let before = if s[9] == UDP_PROTOCOL {
        moved.take(n) + udp_rewritten(
            moved.skip(n),
            opts,
            new_source(s, opts),
            new_destination(s, opts, dest_broadcast),
        )
    } else {
        moved
    };
    assert(before[0] == s[0]);
    assert(out == with_header_checksum(before));
    let header = before.take(n);
    lemma_word_sum_positive(with_u16(header, 10, 0));
    assert(ipv4_header_checksum(header) != 0xffff);
    assert(out[10] * 256 + out[11] == ipv4_header_checksum(header));
}

/// A receiver accepts the datagram of a rewritten UDP packet: the words of the
/// pseudo-header with the length that the datagram's length field gives, and of
/// as many bytes behind the IPv4 header, add up to all ones. Where that length
/// is less than a UDP header or more than there is, all bytes behind the header
/// count. The checksum is never the zero that says there is none.
pub proof fn receivers_accept_the_datagram(
    s: Seq<u8>,
    opts: NatOptions,
    dest_broadcast: Ipv4Addr,
)
    requires
        nat_result(s, opts, dest_broadcast) is Ok,
        s[9] == 17,
    ensures
        ({
            let out = nat_result(s, opts, dest_broadcast)->Ok_0;
            let h = (s[0] % 16) * 4;
            let field = out[h + 4] * 256 + out[h + 5];
            let n = if 8 <= field <= out.len() - h {
                field
            } else {
                out.len() - h
            };
            let pseudo = (out[12] * 256 + out[13]) + (out[14] * 256 + out[15]) + (out[16] * 256
                + out[17]) + (out[18] * 256 + out[19]) + 17 + n % 0x1_0000_0000;
            &&& field == s[h + 4] * 256 + s[h + 5]
            &&& folded(pseudo as nat + word_sum(out.subrange(h, h + n))) == 0xffff
            &&& !(out[h + 6] == 0 && out[h + 7] == 0)
        }),
{
    rewriting_keeps_the_rest(s, opts, dest_broadcast, 0);
    rewritten_udp_checksum_is_valid(s, opts, dest_broadcast);
    let out = nat_result(s, opts, dest_broadcast)->Ok_0;
    let h = (s[0] % 16) * 4;
    let rest = out.skip(h);
    let n = udp_extent(rest);
    rewriting_keeps_the_rest(s, opts, dest_broadcast, h + 4);
    rewriting_keeps_the_rest(s, opts, dest_broadcast, h + 5);
    assert(rest[4] == out[h + 4] && rest[5] == out[h + 5]);
    assert(rest[6] == out[h + 6] && rest[7] == out[h + 7]);
    assert(u16_at(rest, 4) == out[h + 4] * 256 + out[h + 5]);
    assert(rest.take(n) =~= out.subrange(h, h + n));
}

} // verus!
