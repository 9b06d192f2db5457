//! The relay's decisions: what becomes of a received packet, and what goes out
//! where.

use vstd::prelude::*;
use std::time::Instant;
use crate::addr::{limited_broadcast, Ipv4Addr};
use crate::config::{allow_everything, Action, NatOptions, PacketInfo, Protocol, RuleView};
use crate::filter::{
    allow_all_relays_everything, allowing_rule, first_match_decides, nothing_relayed_without_allow,
    relayed_only_if_allowed, Filter,
};
use crate::logging::{filtered_line, log_filtered};
use crate::packet::{
    broadcast_like, carries_marker, exactly_complete_broadcasts_are_understood,
    extract_packet_info, is_already_relayed, marker_is_ttl_and_identification,
    packet_is_described_by_its_bytes, packet_info, unicast_source,
};
use crate::ratelimit::{lemma_refill_bounded, lemma_taken, Bucket, RateLimiter, TOKEN};
use crate::rewrite::{
    apply_nat, nat_result, rewriting_keeps_the_rest, rewriting_readdresses_and_marks,
    rewriting_sets_the_ports, rewritten_header_checksum_is_valid, rewritten_udp_checksum_is_valid,
    udp_extent, NatError,
};
use crate::socket::link_destination;
use crate::startup::denies_all;
use crate::text::same_text;
use crate::wire::{addr_at, folded, ihl_bytes, pseudo_header_sum, u16_at, word_sum, UDP_PROTOCOL};

verus! {

/// Whether a packet to `dst` that came in on `ingress_if` goes out on `out_if`,
/// whose subnet has the broadcast address `out_broadcast`: never back to where
/// it came from; multicast and limited broadcasts to every other interface; a
/// directed broadcast to the interface of its subnet only.
pub open spec fn relays_to(
    dst: Ipv4Addr,
    ingress_if: Seq<char>,
    out_if: Seq<char>,
    out_broadcast: Ipv4Addr,
) -> bool {
    &&& ingress_if != out_if
    &&& dst.multicast() || dst == limited_broadcast() || dst == out_broadcast
}

/// Decides whether a packet to `dst` that came in on `ingress_if` goes out on
/// `out_if`, whose subnet has the broadcast address `out_broadcast`.
pub fn should_relay_to(
    dst: Ipv4Addr,
    ingress_if: &str,
    out_if: &str,
    out_broadcast: Ipv4Addr,
) -> (r: bool)
    ensures
        r == relays_to(dst, ingress_if@, out_if@, out_broadcast),
{
    if same_text(ingress_if, out_if) {
        return false;
    }
    dst.is_multicast() || dst == Ipv4Addr::broadcast() || dst == out_broadcast
}

/// An interface to relay to.
#[derive(Debug)]
pub struct Output {
    pub ifname: String,
    /// All IPv4 broadcast addresses of the interface, one per subnet.
    pub broadcast_addrs: Vec<Ipv4Addr>,
}

/// What an [`Output`] stands for.
pub struct OutputView {
    pub ifname: Seq<char>,
    pub broadcast_addrs: Seq<Ipv4Addr>,
}

impl View for Output {
    type V = OutputView;

    open spec fn view(&self) -> OutputView {
        OutputView { ifname: self.ifname@, broadcast_addrs: self.broadcast_addrs@ }
    }
}

impl OutputView {
    /// The broadcast address for a packet to `dst` from `ingress_if` on this
    /// interface, if it goes out here: a directed broadcast keeps its own,
    /// anything else takes the interface's first.
    pub open spec fn target(self, dst: Ipv4Addr, ingress_if: Seq<char>) -> Option<Ipv4Addr> {
        if ingress_if == self.ifname || self.broadcast_addrs.len() == 0 {
            None
        } else if dst.multicast() || dst == limited_broadcast() {
            Some(self.broadcast_addrs[0])
        } else if self.broadcast_addrs.contains(dst) {
            Some(dst)
        } else {
            None
        }
    }
}

impl Output {
    /// The broadcast address for a packet to `dst` from `ingress_if` on this
    /// interface, if it goes out here.
    pub fn target(&self, dst: Ipv4Addr, ingress_if: &str) -> (r: Option<Ipv4Addr>)
        ensures
            r == self@.target(dst, ingress_if@),
    {
        let mut i: usize = 0;
        while i < self.broadcast_addrs.len()
            invariant
                i <= self.broadcast_addrs@.len(),
                forall|j: int|
                    0 <= j < i ==> !relays_to(
                        dst,
                        ingress_if@,
                        self.ifname@,
                        #[trigger] self.broadcast_addrs@[j],
                    ),
            decreases self.broadcast_addrs@.len() - i,
        {
            let addr: Ipv4Addr = self.broadcast_addrs[i];
            if should_relay_to(dst, ingress_if, self.ifname.as_str(), addr) {
                proof {
                    if i > 0 {
                        assert(!relays_to(
                            dst,
                            ingress_if@,
                            self.ifname@,
                            self.broadcast_addrs@[0],
                        ));
                    }
                    assert(self.broadcast_addrs@.contains(addr));
                }
                return Some(addr);
            }
            i = i + 1;
        }
        proof {
            if self.broadcast_addrs@.len() > 0 {
                assert(!relays_to(dst, ingress_if@, self.ifname@, self.broadcast_addrs@[0]));
            }
            if ingress_if@ != self.ifname@ && self.broadcast_addrs@.contains(dst) {
                let k = choose|k: int|
                    0 <= k < self.broadcast_addrs@.len() && self.broadcast_addrs@[k] == dst;
                assert(!relays_to(dst, ingress_if@, self.ifname@, self.broadcast_addrs@[k]));
            }
        }
        None
    }
}

/// A packet for one output interface.
#[derive(Debug)]
pub struct Dispatch {
    /// The position of the interface among the outputs.
    pub output: usize,
    /// The rewritten packet, or why there is none.
    pub frame: Result<Vec<u8>, NatError>,
}

/// What a [`Dispatch`] stands for.
pub struct DispatchView {
    pub output: int,
    pub frame: Result<Seq<u8>, NatError>,
}

impl View for Dispatch {
    type V = DispatchView;

    open spec fn view(&self) -> DispatchView {
        DispatchView {
            output: self.output as int,
            frame: match self.frame {
                Ok(frame) => Ok(frame@),
                Err(e) => Err(e),
            },
        }
    }
}

/// What goes out of the packet `packet` to `dst` from `ingress_if`, in the
/// order of the outputs.
pub open spec fn dispatches(
    outputs: Seq<OutputView>,
    packet: Seq<u8>,
    dst: Ipv4Addr,
    ingress_if: Seq<char>,
    opts: NatOptions,
) -> Seq<DispatchView>
    decreases outputs.len(),
{
    if outputs.len() == 0 {
        Seq::empty()
    } else {
        let before = dispatches(outputs.drop_last(), packet, dst, ingress_if, opts);
        match outputs.last().target(dst, ingress_if) {
            Some(addr) => before.push(
                DispatchView {
                    output: outputs.len() - 1,
                    frame: nat_result(packet, opts, addr),
                },
            ),
            None => before,
        }
    }
}

/// What becomes of a received packet.
#[derive(Debug)]
pub enum Verdict {
    /// Dropped: a relay has sent it.
    AlreadyRelayed,
    /// Dropped: it is not a well-formed UDP broadcast.
    Ignored,
    /// Dropped: no rule allows it.
    Filtered(PacketInfo),
    /// Dropped: the rate limit is reached.
    RateLimited(PacketInfo),
    /// Relayed.
    Relayed(PacketInfo, Vec<Dispatch>),
}

/// What a [`Verdict`] stands for.
pub enum VerdictView {
    AlreadyRelayed,
    Ignored,
    Filtered(PacketInfo),
    RateLimited(PacketInfo),
    Relayed(PacketInfo, Seq<DispatchView>),
}

/// The views of a list of dispatches.
pub open spec fn dispatch_views(list: Seq<Dispatch>) -> Seq<DispatchView> {
    Seq::new(list.len(), |i: int| list[i]@)
}

impl View for Verdict {
    type V = VerdictView;

    open spec fn view(&self) -> VerdictView {
        match self {
            Verdict::AlreadyRelayed => VerdictView::AlreadyRelayed,
            Verdict::Ignored => VerdictView::Ignored,
            Verdict::Filtered(info) => VerdictView::Filtered(*info),
            Verdict::RateLimited(info) => VerdictView::RateLimited(*info),
            Verdict::Relayed(info, list) => VerdictView::Relayed(*info, dispatch_views(list@)),
        }
    }
}

/// The relay, without its sockets.
pub struct Relay {
    pub outputs: Vec<Output>,
    pub filter: Filter,
    /// Ceiling on accepted packets per second, if there is one.
    pub rate_limiter: Option<RateLimiter>,
    /// Whether to tell about dropped packets.
    pub verbose: bool,
}

/// What a [`Relay`] stands for.
pub struct RelayView {
    pub outputs: Seq<OutputView>,
    pub rules: Seq<RuleView>,
    pub bucket: Option<Bucket>,
    pub verbose: bool,
}

impl View for Relay {
    type V = RelayView;

    open spec fn view(&self) -> RelayView {
        RelayView {
            outputs: Seq::new(self.outputs@.len(), |i: int| self.outputs@[i]@),
            rules: self.filter@,
            bucket: match self.rate_limiter {
                Some(limiter) => Some(limiter@),
                None => None,
            },
            verbose: self.verbose,
        }
    }
}

impl RelayView {
    /// The packet's description and the rule by which it is relayed, unless it
    /// is dropped before the rate limit comes into play.
    pub open spec fn accepted(self, packet: Seq<u8>) -> Option<(PacketInfo, RuleView)> {
        match packet_info(packet) {
            Some(info) => match allowing_rule(self.rules, info) {
                Some(rule) => if carries_marker(packet) {
                    None
                } else {
                    Some((info, rule))
                },
                None => None,
            },
            None => None,
        }
    }

    /// What becomes of a packet from `ingress_if` at the time `now`.
    pub open spec fn verdict(self, ingress_if: Seq<char>, packet: Seq<u8>, now: nat) -> VerdictView {
        if carries_marker(packet) {
            VerdictView::AlreadyRelayed
        } else {
            match packet_info(packet) {
                None => VerdictView::Ignored,
                Some(info) => match allowing_rule(self.rules, info) {
                    None => VerdictView::Filtered(info),
                    Some(rule) => if self.bucket is Some && !self.bucket->0.passes(now) {
                        VerdictView::RateLimited(info)
                    } else {
                        VerdictView::Relayed(
                            info,
                            dispatches(self.outputs, packet, info.dst_ip, ingress_if, rule.nat),
                        )
                    },
                },
            }
        }
    }

    /// The relay after a packet at the time `now`: only an accepted packet
    /// counts against the rate limit.
    pub open spec fn after(self, packet: Seq<u8>, now: nat) -> RelayView {
        RelayView {
            bucket: match self.bucket {
                Some(bucket) => Some(
                    if self.accepted(packet) is Some {
                        bucket.after(now)
                    } else {
                        bucket
                    },
                ),
                None => None,
            },
            ..self
        }
    }
}

impl Relay {
    /// The reading of the clock from which the rate limiter counts its time.
    pub open spec fn limited_since(&self) -> Option<Instant> {
        match self.rate_limiter {
            Some(limiter) => Some(limiter.made_at()),
            None => None,
        }
    }

    /// Decides what becomes of a packet received on `ingress_if`, at a time no
    /// earlier than the last one at which the rate limit came into play.
    pub fn receive(&mut self, ingress_if: &str, packet: &[u8]) -> (r: Verdict)
        ensures
            exists|now: nat|
                {
                    &&& old(self)@.bucket matches Some(b) ==> now >= b.last
                    &&& r@ == old(self)@.verdict(ingress_if@, packet@, now)
                    &&& final(self)@ == #[trigger] old(self)@.after(packet@, now)
                },
            final(self).limited_since() == old(self).limited_since(),
    {
        let now: u128 = match &self.rate_limiter {
            Some(limiter) => limiter.now(),
            None => 0,
        };
        self.receive_at(ingress_if, packet, now)
    }

    /// Like [`Relay::receive`], at the time `now`, in nanoseconds since the
    /// rate limiter was made.
    pub fn receive_at(&mut self, ingress_if: &str, packet: &[u8], now: u128) -> (r: Verdict)
        ensures
            r@ == old(self)@.verdict(ingress_if@, packet@, now as nat),
            final(self)@ == old(self)@.after(packet@, now as nat),
            final(self).limited_since() == old(self).limited_since(),
    {
        if is_already_relayed(packet) {
            return Verdict::AlreadyRelayed;
        }
        let info: PacketInfo = match extract_packet_info(packet) {
            Some(info) => info,
            None => {
                return Verdict::Ignored;
            },
        };
        if !self.filter.should_relay(&info) {
            return Verdict::Filtered(info);
        }
        if let Some(limiter) = &mut self.rate_limiter {
            if !limiter.allow_at(now) {
                return Verdict::RateLimited(info);
            }
        }
        let opts: NatOptions = match self.filter.get_nat_rule(&info) {
            Some(rule) => rule.nat,
            None => {
                return Verdict::Filtered(info);
            },
        };
        Verdict::Relayed(info, self.fan_out(packet, info.dst_ip, ingress_if, &opts))
    }

    /// Rewrites a packet for every output interface that it goes out on.
    fn fan_out(
        &self,
        packet: &[u8],
        dst: Ipv4Addr,
        ingress_if: &str,
        opts: &NatOptions,
    ) -> (r: Vec<Dispatch>)
        ensures
            dispatch_views(r@) == dispatches(
                self@.outputs,
                packet@,
                dst,
                ingress_if@,
                *opts,
            ),
    {
        let mut r: Vec<Dispatch> = Vec::new();
        let mut i: usize = 0;
        let ghost outputs = self@.outputs;
        proof {
            assert(outputs.take(0) =~= Seq::<OutputView>::empty());
            assert(dispatch_views(r@) =~= Seq::<DispatchView>::empty());
        }
        while i < self.outputs.len()
            invariant
                outputs == self@.outputs,
                i <= self.outputs@.len() == outputs.len(),
                dispatch_views(r@) == dispatches(
                    outputs.take(i as int),
                    packet@,
                    dst,
                    ingress_if@,
                    *opts,
                ),
            decreases self.outputs@.len() - i,
        {
            proof {
                assert(outputs.take(i as int + 1).drop_last() =~= outputs.take(i as int));
                assert(outputs.take(i as int + 1).last() == self.outputs@[i as int]@);
            }
            if let Some(addr) = self.outputs[i].target(dst, ingress_if) {
                let mut frame: Vec<u8> = vstd::slice::slice_to_vec(packet);
                let outcome: Result<(), NatError> = apply_nat(frame.as_mut_slice(), opts, addr);
                let ghost before = dispatch_views(r@);
                let dispatch: Dispatch = Dispatch {
                    output: i,
                    frame: match outcome {
                        Ok(_) => Ok(frame),
                        Err(e) => Err(e),
                    },
                };
                let ghost view = dispatch@;
                r.push(dispatch);
                proof {
                    assert(dispatch_views(r@) =~= before.push(view));
                }
            }
            i = i + 1;
        }
        proof {
            assert(outputs.take(outputs.len() as int) =~= outputs);
        }
        r
    }

    /// The log line for a dropped packet, if the relay tells about it.
    pub fn drop_line(&self, verdict: &Verdict) -> (r: Option<String>)
        ensures
            match verdict {
                Verdict::Filtered(info) if self.verbose => r is Some && r->0@ == filtered_line(
                    "no match"@,
                    *info,
                ),
                Verdict::RateLimited(info) if self.verbose => r is Some && r->0@ == filtered_line(
                    "rate limit"@,
                    *info,
                ),
                _ => r is None,
            },
    {
        if !self.verbose {
            return None;
        }
        match verdict {
            Verdict::Filtered(info) => Some(log_filtered("no match", info)),
            Verdict::RateLimited(info) => Some(log_filtered("rate limit", info)),
            _ => None,
        }
    }
}

/// The `i`-th dispatch goes to an output that the packet has a target on, is
/// rewritten for that target, and comes before those for later outputs.
proof fn lemma_dispatch(
    outputs: Seq<OutputView>,
    packet: Seq<u8>,
    dst: Ipv4Addr,
    ingress_if: Seq<char>,
    opts: NatOptions,
    i: int,
)
    requires
        0 <= i < dispatches(outputs, packet, dst, ingress_if, opts).len(),
    ensures
        ({
            let list = dispatches(outputs, packet, dst, ingress_if, opts);
            let d = list[i];
            &&& 0 <= d.output < outputs.len()
            &&& outputs[d.output].target(dst, ingress_if) is Some
            &&& d.frame == nat_result(
                packet,
                opts,
                outputs[d.output].target(dst, ingress_if)->0,
            )
            &&& i > 0 ==> list[i - 1].output < d.output
        }),
    decreases outputs.len(),
{
    let before = dispatches(outputs.drop_last(), packet, dst, ingress_if, opts);
    if i < before.len() {
        lemma_dispatch(outputs.drop_last(), packet, dst, ingress_if, opts, i);
    } else if i > 0 {
        lemma_dispatch(outputs.drop_last(), packet, dst, ingress_if, opts, i - 1);
    }
}

/// An output that the packet has a target on gets a dispatch.
proof fn lemma_dispatched(
    outputs: Seq<OutputView>,
    packet: Seq<u8>,
    dst: Ipv4Addr,
    ingress_if: Seq<char>,
    opts: NatOptions,
    k: int,
) -> (i: int)
    requires
        0 <= k < outputs.len(),
        outputs[k].target(dst, ingress_if) is Some,
    ensures
        0 <= i < dispatches(outputs, packet, dst, ingress_if, opts).len(),
        dispatches(outputs, packet, dst, ingress_if, opts)[i].output == k,
    decreases outputs.len(),
{
    let before = dispatches(outputs.drop_last(), packet, dst, ingress_if, opts);
    if k < outputs.len() - 1 {
        lemma_dispatched(outputs.drop_last(), packet, dst, ingress_if, opts, k)
    } else {
        before.len() as int
    }
}

/// Only what an `allow` rule lets through is relayed, and only UDP datagrams
/// from a unicast address to a broadcast or multicast address.
pub proof fn only_allowed_packets_are_relayed(
    relay: RelayView,
    ingress_if: Seq<char>,
    packet: Seq<u8>,
    now: nat,
)
    requires
        relay.verdict(ingress_if, packet, now) is Relayed,
    ensures
        ({
            let info = relay.verdict(ingress_if, packet, now)->Relayed_0;
            &&& packet_info(packet) == Some(info)
            &&& allowing_rule(relay.rules, info) is Some
            &&& unicast_source(info.src_ip)
            &&& broadcast_like(info.dst_ip)
            &&& packet[9] == UDP_PROTOCOL
        }),
{
}

/// A packet is never sent out on the interface that it arrived on.
pub proof fn never_echoed(
    relay: RelayView,
    ingress_if: Seq<char>,
    packet: Seq<u8>,
    now: nat,
    i: int,
)
    requires
        relay.verdict(ingress_if, packet, now) matches VerdictView::Relayed(_, list) && 0 <= i
            < list.len(),
    ensures
        ({
            let d = relay.verdict(ingress_if, packet, now)->Relayed_1[i];
            &&& 0 <= d.output < relay.outputs.len()
            &&& relay.outputs[d.output].ifname != ingress_if
        }),
{
    let info = packet_info(packet)->0;
    let rule = allowing_rule(relay.rules, info)->0;
    lemma_dispatch(relay.outputs, packet, info.dst_ip, ingress_if, rule.nat, i);
}

/// A relayed packet goes out once on every other interface if it is a
/// multicast or a limited broadcast, and otherwise on exactly those that have
/// its destination among their broadcast addresses.
pub proof fn relayed_where_it_belongs(
    relay: RelayView,
    ingress_if: Seq<char>,
    packet: Seq<u8>,
    now: nat,
    k: int,
)
    requires
        relay.verdict(ingress_if, packet, now) is Relayed,
        0 <= k < relay.outputs.len(),
        relay.outputs[k].broadcast_addrs.len() > 0,
    ensures
        ({
            let info = relay.verdict(ingress_if, packet, now)->Relayed_0;
            let list = relay.verdict(ingress_if, packet, now)->Relayed_1;
            let out = relay.outputs[k];
            &&& (exists|i: int| 0 <= i < list.len() && (#[trigger] list[i]).output == k) <==> {
                &&& out.ifname != ingress_if
                &&& info.dst_ip.multicast() || info.dst_ip == limited_broadcast()
                    || out.broadcast_addrs.contains(info.dst_ip)
            }
            &&& forall|i: int, j: int|
                0 <= i < j < list.len() ==> (#[trigger] list[i]).output < (
                #[trigger] list[j]).output
        }),
{
    let info = packet_info(packet)->0;
    let rule = allowing_rule(relay.rules, info)->0;
    let list = relay.verdict(ingress_if, packet, now)->Relayed_1;
    assert forall|i: int| 0 <= i < list.len() && (#[trigger] list[i]).output == k implies
        relay.outputs[k].target(info.dst_ip, ingress_if) is Some by {
        lemma_dispatch(relay.outputs, packet, info.dst_ip, ingress_if, rule.nat, i);
    }
    if relay.outputs[k].target(info.dst_ip, ingress_if) is Some {
        let i = lemma_dispatched(
            relay.outputs,
            packet,
            info.dst_ip,
            ingress_if,
            rule.nat,
            k,
        );
        assert(list[i].output == k);
    }
    assert forall|i: int, j: int| 0 <= i < j < list.len() implies (#[trigger] list[i]).output < (
    #[trigger] list[j]).output by {
        lemma_increasing(relay, ingress_if, packet, now, i, j);
    }
}

/// Dispatches come in the order of the outputs.
proof fn lemma_increasing(
    relay: RelayView,
    ingress_if: Seq<char>,
    packet: Seq<u8>,
    now: nat,
    i: int,
    j: int,
)
    requires
        relay.verdict(ingress_if, packet, now) matches VerdictView::Relayed(_, list) && 0 <= i < j
            < list.len(),
    ensures
        relay.verdict(ingress_if, packet, now)->Relayed_1[i].output < relay.verdict(
            ingress_if,
            packet,
            now,
        )->Relayed_1[j].output,
    decreases j - i,
{
    let info = packet_info(packet)->0;
    let rule = allowing_rule(relay.rules, info)->0;
    lemma_dispatch(relay.outputs, packet, info.dst_ip, ingress_if, rule.nat, j);
    if i < j - 1 {
        lemma_increasing(relay, ingress_if, packet, now, i, j - 1);
    }
}

/// Rewriting an accepted packet never fails, so every dispatch holds a packet.
/// That packet carries the marker and the addresses that it should, and both
/// of its checksums are right.
pub proof fn sent_packets_are_sound(
    relay: RelayView,
    ingress_if: Seq<char>,
    packet: Seq<u8>,
    now: nat,
    i: int,
)
    requires
        relay.verdict(ingress_if, packet, now) matches VerdictView::Relayed(_, list) && 0 <= i
            < list.len(),
    ensures
        ({
            let info = relay.verdict(ingress_if, packet, now)->Relayed_0;
            let d = relay.verdict(ingress_if, packet, now)->Relayed_1[i];
            let opts = allowing_rule(relay.rules, info)->0.nat;
            let target = relay.outputs[d.output].target(info.dst_ip, ingress_if)->0;
            let sent = d.frame->Ok_0;
            let rest = sent.skip(ihl_bytes(sent));
            let n = udp_extent(rest);
            &&& d.frame is Ok
            &&& sent.len() == packet.len()
            &&& carries_marker(sent)
            &&& addr_at(sent, 12) == match opts.source_ip {
                Some(ip) => ip,
                None => info.src_ip,
            }
            &&& addr_at(sent, 16) == match opts.dest_ip {
                Some(ip) => ip,
                None => if info.dst_ip.multicast() {
                    info.dst_ip
                } else {
                    target
                },
            }
            &&& folded(word_sum(sent.take(ihl_bytes(sent)))) == 0xffff
            &&& folded(
                pseudo_header_sum(addr_at(sent, 12), addr_at(sent, 16), n as nat) + word_sum(
                    rest.take(n),
                ),
            ) == 0xffff
            &&& u16_at(rest, 6) != 0
        }),
{
    let info = packet_info(packet)->0;
    let rule = allowing_rule(relay.rules, info)->0;
    lemma_dispatch(relay.outputs, packet, info.dst_ip, ingress_if, rule.nat, i);
    let d = relay.verdict(ingress_if, packet, now)->Relayed_1[i];
    let target = relay.outputs[d.output].target(info.dst_ip, ingress_if)->0;
    accepted_packets_can_be_rewritten(packet, rule.nat, target);
    rewriting_keeps_the_rest(packet, rule.nat, target, 0);
    rewriting_readdresses_and_marks(packet, rule.nat, target);
    rewritten_header_checksum_is_valid(packet, rule.nat, target);
    rewritten_udp_checksum_is_valid(packet, rule.nat, target);
}

/// A sent packet carries the ports that the rule asks for, and otherwise those
/// of the received packet.
pub proof fn sent_packets_have_the_right_ports(
    relay: RelayView,
    ingress_if: Seq<char>,
    packet: Seq<u8>,
    now: nat,
    i: int,
)
    requires
        relay.verdict(ingress_if, packet, now) matches VerdictView::Relayed(_, list) && 0 <= i
            < list.len(),
    ensures
        ({
            let info = relay.verdict(ingress_if, packet, now)->Relayed_0;
            let opts = allowing_rule(relay.rules, info)->0.nat;
            let sent = relay.verdict(ingress_if, packet, now)->Relayed_1[i].frame->Ok_0;
            &&& u16_at(sent, ihl_bytes(packet)) == match opts.source_port {
                Some(port) => port,
                None => info.src_port,
            }
            &&& u16_at(sent, ihl_bytes(packet) + 2) == match opts.dest_port {
                Some(port) => port,
                None => info.dst_port,
            }
        }),
{
    let info = packet_info(packet)->0;
    let rule = allowing_rule(relay.rules, info)->0;
    lemma_dispatch(relay.outputs, packet, info.dst_ip, ingress_if, rule.nat, i);
    let d = relay.verdict(ingress_if, packet, now)->Relayed_1[i];
    let target = relay.outputs[d.output].target(info.dst_ip, ingress_if)->0;
    accepted_packets_can_be_rewritten(packet, rule.nat, target);
    rewriting_sets_the_ports(packet, rule.nat, target);
}

/// Rewriting never fails on a packet that the rules get to see.
pub proof fn accepted_packets_can_be_rewritten(
    packet: Seq<u8>,
    opts: NatOptions,
    dest_broadcast: Ipv4Addr,
)
    requires
        packet_info(packet) is Some,
    ensures
        nat_result(packet, opts, dest_broadcast) is Ok,
{
}

/// No loops between relays: what one relay sends, any relay drops.
pub proof fn sent_packets_are_not_relayed_again(
    relay: RelayView,
    ingress_if: Seq<char>,
    packet: Seq<u8>,
    now: nat,
    i: int,
    other: RelayView,
    other_if: Seq<char>,
    later: nat,
)
    requires
        relay.verdict(ingress_if, packet, now) matches VerdictView::Relayed(_, list) && 0 <= i
            < list.len(),
    ensures
        ({
            let sent = relay.verdict(ingress_if, packet, now)->Relayed_1[i].frame->Ok_0;
            &&& other.verdict(other_if, sent, later) == VerdictView::AlreadyRelayed
            &&& other.after(sent, later).bucket == other.bucket
        }),
{
    sent_packets_are_sound(relay, ingress_if, packet, now, i);
}

/// A sent packet goes to the Ethernet address of its multicast group if it is
/// addressed to one, and to the broadcast address otherwise.
pub proof fn sent_packets_have_the_right_link_destination(
    relay: RelayView,
    ingress_if: Seq<char>,
    packet: Seq<u8>,
    now: nat,
    i: int,
)
    requires
        relay.verdict(ingress_if, packet, now) matches VerdictView::Relayed(_, list) && 0 <= i
            < list.len(),
    ensures
        ({
            let sent = relay.verdict(ingress_if, packet, now)->Relayed_1[i].frame->Ok_0;
            let dst = addr_at(sent, 16);
            link_destination(sent) == if dst.multicast() {
                seq![0x01u8, 0x00, 0x5e, (dst.b % 128) as u8, dst.c, dst.d, 0, 0]
            } else {
                seq![0xffu8, 0xff, 0xff, 0xff, 0xff, 0xff, 0, 0]
            }
        }),
{
    sent_packets_are_sound(relay, ingress_if, packet, now, i);
}

/// Packets that are dropped before the rate limit comes into play leave the
/// relay as it is; in particular they use up nothing of the limit.
pub proof fn dropped_packets_cost_nothing(
    relay: RelayView,
    ingress_if: Seq<char>,
    packet: Seq<u8>,
    now: nat,
)
    requires
        relay.verdict(ingress_if, packet, now) !is Relayed,
        relay.verdict(ingress_if, packet, now) !is RateLimited,
    ensures
        relay.after(packet, now) == relay,
{
}

/// With rules that deny everything, no packet is relayed.
pub proof fn nothing_relayed_if_all_is_denied(
    relay: RelayView,
    ingress_if: Seq<char>,
    packet: Seq<u8>,
    now: nat,
)
    requires
        denies_all(relay.rules),
    ensures
        relay.verdict(ingress_if, packet, now) !is Relayed,
{
    if let Some(info) = packet_info(packet) {
        nothing_relayed_without_allow(relay.rules, info);
    }
}

/// With the rules that stand in for a missing configuration and without a rate
/// limit, a packet is relayed exactly when it is a well-formed UDP broadcast
/// or multicast that no relay has sent.
pub proof fn without_rules_every_broadcast_is_relayed(
    relay: RelayView,
    ingress_if: Seq<char>,
    packet: Seq<u8>,
    now: nat,
)
    requires
        relay.rules == seq![allow_everything()],
        relay.bucket is None,
    ensures
        relay.verdict(ingress_if, packet, now) is Relayed <==> packet_info(packet) is Some
            && !carries_marker(packet),
{
    if let Some(info) = packet_info(packet) {
        allow_all_relays_everything(info);
    }
}

/// A packet as the relay receives it.
pub struct Arrival {
    pub ingress_if: Seq<char>,
    pub packet: Seq<u8>,
    pub now: nat,
}

/// The relay after the given packets.
pub open spec fn relay_after(relay: RelayView, arrivals: Seq<Arrival>) -> RelayView
    decreases arrivals.len(),
{
    if arrivals.len() == 0 {
        relay
    } else {
        relay_after(relay, arrivals.drop_last()).after(
            arrivals.last().packet,
            arrivals.last().now,
        )
    }
}

/// How many of the given packets are relayed.
pub open spec fn relayed(relay: RelayView, arrivals: Seq<Arrival>) -> nat
    decreases arrivals.len(),
{
    if arrivals.len() == 0 {
        0
    } else {
        let last = arrivals.last();
        relayed(relay, arrivals.drop_last()) + if relay_after(
            relay,
            arrivals.drop_last(),
        ).verdict(last.ingress_if, last.packet, last.now) is Relayed {
            1nat
        } else {
            0
        }
    }
}

/// Storms are capped: of any packets that arrive in the order of the clock, no
/// more are relayed than the burst and what the rate brings from the first of
/// them to the last.
pub proof fn relayed_packets_are_limited(relay: RelayView, arrivals: Seq<Arrival>)
    requires
        relay.bucket is Some,
        relay.bucket->0.wf(),
        arrivals.len() > 0,
        forall|i: int, j: int|
            0 <= i <= j < arrivals.len() ==> (#[trigger] arrivals[i]).now <= (
            #[trigger] arrivals[j]).now,
    ensures
        relayed(relay, arrivals) * TOKEN <= relay.bucket->0.burst * TOKEN + relay.bucket->0.rate * (
        arrivals.last().now - arrivals[0].now),
{
    lemma_relay_budget(relay, arrivals);
}

/// The rate limit keeps its shape, whatever arrives.
proof fn lemma_relay_bucket(relay: RelayView, arrivals: Seq<Arrival>)
    requires
        relay.bucket is Some,
        relay.bucket->0.wf(),
    ensures
        ({
            let end = relay_after(relay, arrivals).bucket;
            &&& end is Some
            &&& end->0.wf()
            &&& end->0.rate == relay.bucket->0.rate
            &&& end->0.burst == relay.bucket->0.burst
        }),
    decreases arrivals.len(),
{
    if arrivals.len() > 0 {
        lemma_relay_bucket(relay, arrivals.drop_last());
    }
}

/// What was relayed and what is left of the limit come out of a full bucket
/// and what the rate has brought since the first packet.
proof fn lemma_relay_budget(relay: RelayView, arrivals: Seq<Arrival>)
    requires
        relay.bucket is Some,
        relay.bucket->0.wf(),
        arrivals.len() > 0,
        forall|i: int, j: int|
            0 <= i <= j < arrivals.len() ==> (#[trigger] arrivals[i]).now <= (
            #[trigger] arrivals[j]).now,
    ensures
        ({
            let b = relay.bucket->0;
            let now = arrivals.last().now;
            relayed(relay, arrivals) * TOKEN + relay_after(relay, arrivals).bucket->0.refilled(now)
                <= b.burst * TOKEN + b.rate * (now - arrivals[0].now)
        }),
    decreases arrivals.len(),
{
    let b = relay.bucket->0;
    let front = arrivals.drop_last();
    let last = arrivals.last();
    let mid = relay_after(relay, front).bucket->0;
    let start = arrivals[0].now;
    lemma_relay_bucket(relay, front);
    if front.len() > 0 {
        assert forall|i: int, j: int| 0 <= i <= j < front.len() implies (
        #[trigger] front[i]).now <= (#[trigger] front[j]).now by {
            assert(front[i] == arrivals[i] && front[j] == arrivals[j]);
        }
        assert(front[0] == arrivals[0]);
        assert(front.last() == arrivals[front.len() - 1]);
        assert(arrivals[front.len() - 1].now <= arrivals[arrivals.len() - 1].now);
        lemma_relay_budget(relay, front);
        lemma_refill_bounded(mid, front.last().now, last.now);
        let until = front.last().now;
        assert(b.rate * (last.now - start) == b.rate * (until - start) + b.rate * (last.now
            - until)) by (nonlinear_arith);
    } else {
        assert(b.rate * (start - start) == 0) by (nonlinear_arith);
    }
    lemma_taken(mid, last.now);
    let n = relayed(relay, front);
    assert((n + 1) * TOKEN == n * TOKEN + TOKEN) by (nonlinear_arith);
}

/// A packet goes from one interface to another exactly when these differ and it
/// is a multicast, a limited broadcast, or addressed to the other's subnet.
pub proof fn ways_between_interfaces(
    dst: Ipv4Addr,
    ingress_if: Seq<char>,
    out_if: Seq<char>,
    out_broadcast: Ipv4Addr,
)
    ensures
        relays_to(dst, ingress_if, out_if, out_broadcast) <==> {
            &&& ingress_if != out_if
            &&& 224 <= dst.a <= 239 || dst == out_broadcast || (dst.a == 255 && dst.b == 255
                && dst.c == 255 && dst.d == 255)
        },
{
}

/// A packet has a target on an interface exactly when the way to one of the
/// interface's subnets is open. A directed broadcast is for its own subnet;
/// anything else goes to the first one.
pub proof fn targets_are_subnets_of_the_output(
    out: OutputView,
    dst: Ipv4Addr,
    ingress_if: Seq<char>,
)
    ensures
        out.target(dst, ingress_if) is Some <==> exists|i: int|
            0 <= i < out.broadcast_addrs.len() && relays_to(
                dst,
                ingress_if,
                out.ifname,
                #[trigger] out.broadcast_addrs[i],
            ),
        out.target(dst, ingress_if) matches Some(addr) ==> addr == if 224 <= dst.a <= 239 || (dst.a
            == 255 && dst.b == 255 && dst.c == 255 && dst.d == 255) {
            out.broadcast_addrs[0]
        } else {
            dst
        },
{
    if out.target(dst, ingress_if) is Some {
        if dst.multicast() || dst == limited_broadcast() {
            assert(relays_to(dst, ingress_if, out.ifname, out.broadcast_addrs[0]));
        } else {
            let k = choose|k: int|
                0 <= k < out.broadcast_addrs.len() && out.broadcast_addrs[k] == dst;
            assert(relays_to(dst, ingress_if, out.ifname, out.broadcast_addrs[k]));
        }
    }
}

/// Whether a rule is the first that a packet satisfies.
pub open spec fn is_first_match(rules: Seq<RuleView>, pkt: PacketInfo, r: int) -> bool {
    &&& 0 <= r < rules.len()
    &&& rules[r].admits(pkt)
    &&& forall|j: int| 0 <= j < r ==> !(#[trigger] rules[j]).admits(pkt)
}

/// What is relayed is relayed in full: a packet that carries no marker, is a
/// complete broadcast or multicast, has as its first match a rule that allows
/// it, and is within the rate limit goes out, rewritten by the options of that
/// rule, on each output that has a way open for it, and on no other.
pub proof fn allowed_packets_go_out(
    relay: RelayView,
    ingress_if: Seq<char>,
    packet: Seq<u8>,
    now: nat,
    r: int,
    k: int,
)
    requires
        !carries_marker(packet),
        packet_info(packet) is Some,
        is_first_match(relay.rules, packet_info(packet)->0, r),
        relay.rules[r].action == Action::Allow,
        relay.bucket matches Some(b) ==> b.passes(now),
        0 <= k < relay.outputs.len(),
    ensures
        relay.verdict(ingress_if, packet, now) matches VerdictView::Relayed(info, list) && {
            let dst = info.dst_ip;
            let out = relay.outputs[k];
            let wide = 224 <= dst.a <= 239 || (dst.a == 255 && dst.b == 255 && dst.c == 255
                && dst.d == 255);
            let target = if wide {
                out.broadcast_addrs[0]
            } else {
                dst
            };
            let goes = out.ifname != ingress_if && out.broadcast_addrs.len() > 0 && (wide
                || out.broadcast_addrs.contains(dst));
            &&& packet_info(packet) == Some(info)
            &&& goes <==> exists|i: int| 0 <= i < list.len() && (#[trigger] list[i]).output == k
            &&& forall|i: int|
                0 <= i < list.len() && (#[trigger] list[i]).output == k ==> list[i].frame
                    == nat_result(packet, relay.rules[r].nat, target)
        },
{
    let info = packet_info(packet)->0;
    first_match_decides(relay.rules, info, r);
    let rule = relay.rules[r];
    let list = relay.verdict(ingress_if, packet, now)->Relayed_1;
    assert forall|i: int| 0 <= i < list.len() && (#[trigger] list[i]).output == k implies
        relay.outputs[k].target(info.dst_ip, ingress_if) is Some && list[i].frame == nat_result(
        packet,
        rule.nat,
        relay.outputs[k].target(info.dst_ip, ingress_if)->0,
    ) by {
        lemma_dispatch(relay.outputs, packet, info.dst_ip, ingress_if, rule.nat, i);
    }
    if relay.outputs[k].target(info.dst_ip, ingress_if) is Some {
        let i = lemma_dispatched(
            relay.outputs,
            packet,
            info.dst_ip,
            ingress_if,
            rule.nat,
            k,
        );
        assert(list[i].output == k);
    }
}

/// Every verdict has its reason: the marker; a packet that is not a complete
/// broadcast or multicast; no rule whose first match allows it; the rate limit;
/// or none of these, and then the packet is relayed.
pub proof fn every_verdict_has_its_reason(
    relay: RelayView,
    ingress_if: Seq<char>,
    packet: Seq<u8>,
    now: nat,
)
    ensures
        ({
            let verdict = relay.verdict(ingress_if, packet, now);
            let info = packet_info(packet)->0;
            let allowed = exists|r: int|
                is_first_match(relay.rules, info, r) && (#[trigger] relay.rules[r]).action
                    == Action::Allow;
            &&& verdict == VerdictView::AlreadyRelayed <==> carries_marker(packet)
            &&& verdict == VerdictView::Ignored <==> !carries_marker(packet) && packet_info(
                packet,
            ) is None
            &&& verdict is Filtered <==> !carries_marker(packet) && packet_info(packet) is Some
                && !allowed
            &&& verdict is RateLimited <==> !carries_marker(packet) && packet_info(packet) is Some
                && allowed && relay.bucket is Some && !relay.bucket->0.passes(now)
            &&& verdict matches VerdictView::Filtered(seen) ==> seen == info
            &&& verdict matches VerdictView::RateLimited(seen) ==> seen == info
        }),
{
    if let Some(info) = packet_info(packet) {
        relayed_only_if_allowed(relay.rules, info);
        if allowing_rule(relay.rules, info) is Some {
            let r = choose|r: int|
                {
                    &&& 0 <= r < relay.rules.len()
                    &&& (#[trigger] relay.rules[r]).admits(info)
                    &&& relay.rules[r].action == Action::Allow
                    &&& forall|j: int| 0 <= j < r ==> !(#[trigger] relay.rules[j]).admits(info)
                };
            assert(is_first_match(relay.rules, info, r));
            assert(relay.rules[r].action == Action::Allow);
        }
    }
}

/// A packet changes nothing about a relay but its rate limit, and that only if
/// it got as far as the limit.
pub proof fn packets_count_against_the_limit_only(
    relay: RelayView,
    ingress_if: Seq<char>,
    packet: Seq<u8>,
    now: nat,
)
    ensures
        ({
            let verdict = relay.verdict(ingress_if, packet, now);
            let end = relay.after(packet, now);
            &&& end.outputs == relay.outputs
            &&& end.rules == relay.rules
            &&& end.verbose == relay.verbose
            &&& relay.bucket is None ==> end.bucket is None
            &&& relay.bucket matches Some(b) ==> end.bucket == Some(
                if verdict is Relayed || verdict is RateLimited {
                    b.after(now)
                } else {
                    b
                },
            )
        }),
{
}

/// Without a configuration and without a rate limit, every complete broadcast
/// or multicast that no relay has sent is relayed, whatever its size.
pub proof fn every_complete_broadcast_is_relayed(
    relay: RelayView,
    ingress_if: Seq<char>,
    s: Seq<u8>,
    now: nat,
)
    requires
        relay.rules == seq![allow_everything()],
        relay.bucket is None,
        s.len() >= 20,
        s[0] / 16 == 4,
        s[0] % 16 >= 5,
        (s[0] % 16) * 4 + 8 <= s[2] * 256 + s[3] <= s.len(),
        s[9] == 17,
        !(s[12] == 0 && s[13] == 0 && s[14] == 0 && s[15] == 0),
        !(224 <= s[12] <= 239),
        s[15] != 255,
        224 <= s[16] <= 239 || s[19] == 255,
        !(s[8] == 1 && s[4] == 0xBC && s[5] == 0xBC),
    ensures
        relay.verdict(ingress_if, s, now) matches VerdictView::Relayed(info, _) && info == (
        PacketInfo {
            protocol: Protocol::Udp,
            src_ip: Ipv4Addr { a: s[12], b: s[13], c: s[14], d: s[15] },
            dst_ip: Ipv4Addr { a: s[16], b: s[17], c: s[18], d: s[19] },
            src_port: (s[(s[0] % 16) * 4] * 256 + s[(s[0] % 16) * 4 + 1]) as u16,
            dst_port: (s[(s[0] % 16) * 4 + 2] * 256 + s[(s[0] % 16) * 4 + 3]) as u16,
        }),
{
    exactly_complete_broadcasts_are_understood(s);
    packet_is_described_by_its_bytes(s);
    marker_is_ttl_and_identification(s);
    without_rules_every_broadcast_is_relayed(relay, ingress_if, s, now);
}

/// What the relay and its parts stand for is what they hold, in order.
pub proof fn relays_stand_for_their_parts(relay: Relay, out: Output, d: Dispatch, k: int)
    requires
        0 <= k < relay.outputs@.len(),
    ensures
        out@.ifname == out.ifname@,
        out@.broadcast_addrs == out.broadcast_addrs@,
        d@.output == d.output,
        d.frame matches Ok(frame) ==> d@.frame == Ok::<Seq<u8>, NatError>(frame@),
        d.frame matches Err(e) ==> d@.frame == Err::<Seq<u8>, NatError>(e),
        relay@.outputs.len() == relay.outputs@.len(),
        relay@.outputs[k] == relay.outputs@[k]@,
        relay@.rules == relay.filter@,
        relay@.verbose == relay.verbose,
        relay@.bucket is None <==> relay.rate_limiter is None,
        relay.rate_limiter matches Some(limiter) ==> relay@.bucket == Some(limiter@),
{
}

/// What a verdict stands for is what it says, with its dispatches in order.
pub proof fn verdicts_stand_for_what_they_say(info: PacketInfo, list: Vec<Dispatch>, i: int)
    requires
        0 <= i < list@.len(),
    ensures
        Verdict::AlreadyRelayed@ == VerdictView::AlreadyRelayed,
        Verdict::Ignored@ == VerdictView::Ignored,
        Verdict::Filtered(info)@ == VerdictView::Filtered(info),
        Verdict::RateLimited(info)@ == VerdictView::RateLimited(info),
        Verdict::Relayed(info, list)@ matches VerdictView::Relayed(seen, views) && seen == info
            && views.len() == list@.len() && views[i] == list@[i]@,
{
}

} // verus!
