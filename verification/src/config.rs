//! Relay rules: what they match, and which of them applies to a packet.

use vstd::prelude::*;
use std::ops::RangeInclusive;
use vstd::std_specs::range::RangeInclusiveView;
use crate::addr::{limited_broadcast, Ipv4Addr};

verus! {

/// Action to take when a rule matches.
#[derive(Debug, Clone, Copy, PartialEq, Eq, Structural)]
pub enum Action {
    Allow,
    Deny,
}

/// Protocol filter.
///
/// Only UDP is relayed. TCP is connection-oriented unicast and has no
/// meaningful broadcast or multicast semantics.
#[derive(Debug, Clone, Copy, PartialEq, Eq, Structural)]
pub enum Protocol {
    Udp,
    Any,
}

/// IP address matcher.
#[derive(Debug, Clone, Copy, PartialEq, Eq, Structural)]
pub enum IpMatcher {
    Any,
    Exact(Ipv4Addr),
    /// A network, as its address and its mask.
    Cidr { addr: u32, mask: u32 },
}

impl IpMatcher {
    /// Whether `ip` satisfies the matcher.
    pub open spec fn admits(self, ip: Ipv4Addr) -> bool {
        match self {
            IpMatcher::Any => true,
            IpMatcher::Exact(addr) => addr == ip,
            IpMatcher::Cidr { addr, mask } => ip.bits() & mask == addr,
        }
    }

    /// Whether `ip` satisfies the matcher.
    pub fn matches(&self, ip: Ipv4Addr) -> (r: bool)
        ensures
            r == self.admits(ip),
            match self {
                IpMatcher::Any => r,
                IpMatcher::Exact(addr) => r == (*addr == ip),
                IpMatcher::Cidr { addr, mask } => r == (ip.bits() & *mask == *addr),
            },
    {
        match self {
            IpMatcher::Any => true,
            IpMatcher::Exact(addr) => *addr == ip,
            IpMatcher::Cidr { addr, mask } => (ip.to_bits() & *mask) == *addr,
        }
    }
}

/// `RangeInclusive::clone` clones both ends, and the copy has used up its last
/// value exactly when `range` has.
pub assume_specification<Idx>[ <RangeInclusive<Idx> as Clone>::clone ](
    range: &RangeInclusive<Idx>,
) -> (r: RangeInclusive<Idx>) where Idx: Clone
    ensures
        cloned(range@.start, r@.start),
        cloned(range@.end, r@.end),
        r@.exhausted == range@.exhausted,
;

/// Port matcher.
#[derive(Debug)]
pub enum PortMatcher {
    Any,
    Exact(u16),
    Range(RangeInclusive<u16>),
}

/// What a [`PortMatcher`] stands for.
pub enum PortMatcherView {
    Any,
    Exact(u16),
    Range(RangeInclusiveView<u16>),
}

impl View for PortMatcher {
    type V = PortMatcherView;

    open spec fn view(&self) -> PortMatcherView {
        match self {
            PortMatcher::Any => PortMatcherView::Any,
            PortMatcher::Exact(p) => PortMatcherView::Exact(*p),
            PortMatcher::Range(r) => PortMatcherView::Range(r@),
        }
    }
}

impl Clone for PortMatcher {
    fn clone(&self) -> (r: PortMatcher)
        ensures
            r@ == self@,
    {
        match self {
            PortMatcher::Any => PortMatcher::Any,
            PortMatcher::Exact(p) => PortMatcher::Exact(*p),
            PortMatcher::Range(range) => PortMatcher::Range(range.clone()),
        }
    }
}

impl PortMatcherView {
    /// Whether `port` satisfies the matcher: a range holds both of its ends,
    /// unless iteration has already used up its last port.
    pub open spec fn admits(self, port: u16) -> bool {
        match self {
            PortMatcherView::Any => true,
            PortMatcherView::Exact(p) => p == port,
            PortMatcherView::Range(r) => {
                &&& r.start <= port
                &&& port <= r.end
                &&& r.exhausted ==> port != r.end
            },
        }
    }
}

impl PortMatcher {
    /// Whether `port` satisfies the matcher.
    pub fn matches(&self, port: u16) -> (r: bool)
        ensures
            r == self@.admits(port),
            match self {
                PortMatcher::Any => r,
                PortMatcher::Exact(p) => r == (*p == port),
                PortMatcher::Range(range) => r == (range@.start <= port <= range@.end && (
                range@.exhausted ==> port != range@.end)),
            },
    {
        match self {
            PortMatcher::Any => true,
            PortMatcher::Exact(p) => *p == port,
            PortMatcher::Range(r) => r.contains(&port),
        }
    }
}

/// Broadcast type filter.
#[derive(Debug, Clone, Copy, PartialEq, Eq, Structural)]
pub enum BroadcastType {
    Any,
    /// 255.255.255.255.
    Limited,
    /// A subnet's broadcast address, such as 192.168.1.255.
    Directed,
}

impl BroadcastType {
    /// Whether the destination `dst` is of this type.
    pub open spec fn admits(self, dst: Ipv4Addr) -> bool {
        match self {
            BroadcastType::Any => true,
            BroadcastType::Limited => dst == limited_broadcast(),
            BroadcastType::Directed => dst.d == 255 && dst != limited_broadcast(),
        }
    }
}

/// NAT rewriting options.
#[derive(Debug, Clone, Copy, PartialEq, Eq)]
pub struct NatOptions {
    pub source_ip: Option<Ipv4Addr>,
    pub dest_ip: Option<Ipv4Addr>,
    pub source_port: Option<u16>,
    pub dest_port: Option<u16>,
}

/// The options that rewrite nothing.
pub open spec fn no_nat() -> NatOptions {
    NatOptions { source_ip: None, dest_ip: None, source_port: None, dest_port: None }
}

impl Default for NatOptions {
    fn default() -> (r: NatOptions)
        ensures
            r == no_nat(),
    {
        NatOptions { source_ip: None, dest_ip: None, source_port: None, dest_port: None }
    }
}

/// What the rules look at in a packet.
#[derive(Debug, Clone, Copy, PartialEq, Eq, Structural)]
pub struct PacketInfo {
    pub protocol: Protocol,
    pub src_ip: Ipv4Addr,
    pub dst_ip: Ipv4Addr,
    pub src_port: u16,
    pub dst_port: u16,
}

/// Single relay rule.
#[derive(Debug)]
pub struct Rule {
    pub action: Action,
    pub protocol: Protocol,
    pub src_ip: IpMatcher,
    pub src_port: PortMatcher,
    pub dst_ip: IpMatcher,
    pub dst_port: PortMatcher,
    pub broadcast_type: BroadcastType,
    pub nat: NatOptions,
}

/// What a [`Rule`] stands for.
pub struct RuleView {
    pub action: Action,
    pub protocol: Protocol,
    pub src_ip: IpMatcher,
    pub src_port: PortMatcherView,
    pub dst_ip: IpMatcher,
    pub dst_port: PortMatcherView,
    pub broadcast_type: BroadcastType,
    pub nat: NatOptions,
}

impl View for Rule {
    type V = RuleView;

    open spec fn view(&self) -> RuleView {
        RuleView {
            action: self.action,
            protocol: self.protocol,
            src_ip: self.src_ip,
            src_port: self.src_port@,
            dst_ip: self.dst_ip,
            dst_port: self.dst_port@,
            broadcast_type: self.broadcast_type,
            nat: self.nat,
        }
    }
}

impl Clone for Rule {
    fn clone(&self) -> (r: Rule)
        ensures
            r@ == self@,
    {
        Rule {
            action: self.action,
            protocol: self.protocol,
            src_ip: self.src_ip,
            src_port: self.src_port.clone(),
            dst_ip: self.dst_ip,
            dst_port: self.dst_port.clone(),
            broadcast_type: self.broadcast_type,
            nat: self.nat,
        }
    }
}

impl RuleView {
    /// Whether a packet satisfies every condition of the rule.
    pub open spec fn admits(self, pkt: PacketInfo) -> bool {
        &&& self.protocol == Protocol::Any || self.protocol == pkt.protocol
        &&& self.src_port.admits(pkt.src_port)
        &&& self.dst_port.admits(pkt.dst_port)
        &&& self.src_ip.admits(pkt.src_ip)
        &&& self.dst_ip.admits(pkt.dst_ip)
        &&& self.broadcast_type.admits(pkt.dst_ip)
    }
}

impl Rule {
    /// Whether a packet satisfies every condition of the rule.
    pub fn matches(&self, pkt: &PacketInfo) -> (r: bool)
        ensures
            r == self@.admits(*pkt),
            r <==> {
                &&& self.protocol == Protocol::Any || self.protocol == pkt.protocol
                &&& self.src_ip.admits(pkt.src_ip)
                &&& self.src_port@.admits(pkt.src_port)
                &&& self.dst_ip.admits(pkt.dst_ip)
                &&& self.dst_port@.admits(pkt.dst_port)
                &&& self.broadcast_type.admits(pkt.dst_ip)
            },
    {
        if self.protocol != Protocol::Any && self.protocol != pkt.protocol {
            return false;
        }
        if !self.src_port.matches(pkt.src_port) {
            return false;
        }
        if !self.dst_port.matches(pkt.dst_port) {
            return false;
        }
        if !self.src_ip.matches(pkt.src_ip) {
            return false;
        }
        if !self.dst_ip.matches(pkt.dst_ip) {
            return false;
        }
        match self.broadcast_type {
            BroadcastType::Any => true,
            BroadcastType::Limited => pkt.dst_ip == Ipv4Addr::broadcast(),
            BroadcastType::Directed => pkt.dst_ip.d == 255 && pkt.dst_ip != Ipv4Addr::broadcast(),
        }
    }
}

/// Configuration holder.
pub struct Config {
    pub rules: Vec<Rule>,
}

impl View for Config {
    type V = Seq<RuleView>;

    open spec fn view(&self) -> Seq<RuleView> {
        Seq::new(self.rules@.len(), |i: int| self.rules@[i]@)
    }
}

/// The first of `rules` that a packet satisfies.
pub open spec fn first_match(rules: Seq<RuleView>, pkt: PacketInfo) -> Option<RuleView>
    decreases rules.len(),
{
    if rules.len() == 0 {
        None
    } else if rules[0].admits(pkt) {
        Some(rules[0])
    } else {
        first_match(rules.drop_first(), pkt)
    }
}

/// The rule that every packet satisfies and that allows it unchanged.
pub open spec fn allow_everything() -> RuleView {
    RuleView {
        action: Action::Allow,
        protocol: Protocol::Any,
        src_ip: IpMatcher::Any,
        src_port: PortMatcherView::Any,
        dst_ip: IpMatcher::Any,
        dst_port: PortMatcherView::Any,
        broadcast_type: BroadcastType::Any,
        nat: no_nat(),
    }
}

impl Config {
    /// Finds the first rule that a packet satisfies.
    pub fn find_match(&self, pkt: &PacketInfo) -> (r: Option<&Rule>)
        ensures
            match r {
                Some(rule) => first_match(self@, *pkt) == Some(rule@),
                None => first_match(self@, *pkt) is None,
            },
    {
        let mut i: usize = 0;
        proof {
            assert(self@.skip(0) =~= self@);
        }
        while i < self.rules.len()
            invariant
                i <= self.rules@.len(),
                first_match(self@, *pkt) == first_match(self@.skip(i as int), *pkt),
            decreases self.rules@.len() - i,
        {
            proof {
                assert(self@.skip(i as int)[0] == self.rules@[i as int]@);
                assert(self@.skip(i as int).drop_first() =~= self@.skip(i as int + 1));
            }
            if self.rules[i].matches(pkt) {
                return Some(&self.rules[i]);
            }
            i = i + 1;
        }
        None
    }

    /// The configuration that allows all broadcast traffic.
    pub fn allow_all() -> (r: Config)
        ensures
            r@ == seq![allow_everything()],
    {
        let mut rules: Vec<Rule> = Vec::new();
        rules.push(
            Rule {
                action: Action::Allow,
                protocol: Protocol::Any,
                src_ip: IpMatcher::Any,
                src_port: PortMatcher::Any,
                dst_ip: IpMatcher::Any,
                dst_port: PortMatcher::Any,
                broadcast_type: BroadcastType::Any,
                nat: NatOptions::default(),
            },
        );
        let r: Config = Config { rules };
        proof {
            assert(r@ =~= seq![allow_everything()]);
        }
        r
    }
}

/// A packet satisfies a rule exactly when it satisfies each of its conditions.
pub proof fn every_condition_counts(rule: RuleView, pkt: PacketInfo)
    ensures
        rule.admits(pkt) <==> {
            &&& rule.protocol == Protocol::Udp ==> pkt.protocol == Protocol::Udp
            &&& rule.src_ip.admits(pkt.src_ip)
            &&& rule.src_port.admits(pkt.src_port)
            &&& rule.dst_ip.admits(pkt.dst_ip)
            &&& rule.dst_port.admits(pkt.dst_port)
            &&& rule.broadcast_type == BroadcastType::Limited ==> pkt.dst_ip == (Ipv4Addr {
                a: 255,
                b: 255,
                c: 255,
                d: 255,
            })
            &&& rule.broadcast_type == BroadcastType::Directed ==> pkt.dst_ip.d == 255 && !(
            pkt.dst_ip.a == 255 && pkt.dst_ip.b == 255 && pkt.dst_ip.c == 255)
        },
{
}

/// A port condition without a port holds of every port, one with a port of
/// that port alone, and one with a range of the ports from its start to its
/// end.
pub proof fn ports_within_the_range_match(port: u16, p: u16, start: u16, end: u16)
    ensures
        PortMatcherView::Any.admits(port),
        PortMatcherView::Exact(p).admits(port) <==> p == port,
        PortMatcherView::Range(RangeInclusiveView { start, end, exhausted: false }).admits(port)
            <==> start <= port <= end,
{
}

/// An address condition without an address holds of every address, one with an
/// address of that address alone.
pub proof fn addresses_match_themselves(ip: Ipv4Addr, other: Ipv4Addr)
    ensures
        IpMatcher::Any.admits(ip),
        IpMatcher::Exact(other).admits(ip) <==> ip == other,
{
}

/// Without a configuration every packet satisfies the one rule there is, which
/// allows it and asks for no rewriting.
pub proof fn allow_everything_admits_everything(pkt: PacketInfo)
    ensures
        allow_everything().admits(pkt),
        allow_everything().action == Action::Allow,
        allow_everything().nat.source_ip is None,
        allow_everything().nat.dest_ip is None,
        allow_everything().nat.source_port is None,
        allow_everything().nat.dest_port is None,
{
}

/// What rules and configurations stand for is what they hold, field by field
/// and in order.
pub proof fn rules_stand_for_their_fields(config: Config, rule: Rule, i: int)
    requires
        0 <= i < config.rules@.len(),
    ensures
        rule@.action == rule.action,
        rule@.protocol == rule.protocol,
        rule@.src_ip == rule.src_ip,
        rule@.src_port == rule.src_port@,
        rule@.dst_ip == rule.dst_ip,
        rule@.dst_port == rule.dst_port@,
        rule@.broadcast_type == rule.broadcast_type,
        rule@.nat == rule.nat,
        PortMatcher::Any@ == PortMatcherView::Any,
        rule.src_port matches PortMatcher::Exact(p) ==> rule@.src_port == PortMatcherView::Exact(p),
        rule.src_port matches PortMatcher::Range(r) ==> rule@.src_port == PortMatcherView::Range(
            r@,
        ),
        config@.len() == config.rules@.len(),
        config@[i] == config.rules@[i]@,
{
}

} // verus!
