//! The configuration file: one rule per line,
//! `ACTION PROTO SRC_IP[:SRC_PORT] DST_IP[:DST_PORT] [NAT_OPTIONS]`.
//!
//! Parsing is strict: what cannot be understood is an error with a line
//! number, never silently skipped.

use vstd::prelude::*;
use std::ops::RangeInclusive;
use vstd::std_specs::range::RangeInclusiveView;
use vstd::arithmetic::power2::{lemma2_to64, pow2};
use vstd::bits::lemma_u32_shr_is_div;
use crate::addr::{address_is_a_number, limited_broadcast, parse_addr, Ipv4Addr};
use crate::config::{
    no_nat, Action, BroadcastType, Config, IpMatcher, NatOptions, PacketInfo, PortMatcher,
    PortMatcherView, Protocol, Rule, RuleView,
};
use crate::number::{
    decimal, number_accepted_iff, parse_number, parse_uint, push_decimal, IntError,
};
use crate::text::{
    after_prefix, chars_of, contains_char, is_space, is_text, lemma_split_not_empty,
    lemma_trim_start, prefix_and_rest_make_the_text, separator_separates, split, split_at_char,
    split_whitespace, string_of, strip_prefix, texts, trim, trim_end,
    trimming_strips_surrounding_whitespace, trimmed, unseparated_text_is_one_piece, words,
};

verus! {

/// Why a line is not a rule.
#[derive(Debug)]
pub enum RuleError {
    /// Fewer than four fields.
    Format,
    /// The action is neither `allow` nor `deny`.
    InvalidAction(String),
    /// The protocol is `tcp`.
    TcpNotSupported,
    /// The protocol is neither `udp` nor `any`.
    InvalidProtocol(String),
    /// A source or destination with more than one colon.
    AddrPortFormat(String),
    /// An address that is not in dotted notation.
    InvalidAddress,
    /// A port or a prefix length that is not a number in range.
    InvalidNumber(IntError),
    /// A network with more than one slash.
    InvalidCidr(String),
    /// A prefix length of more than 32.
    PrefixTooLong(u32),
    /// A port range with more than one dash.
    InvalidPortRange(String),
    /// A port range whose start lies behind its end.
    InvertedPortRange(String),
    /// An option that does not exist.
    UnknownOption(String),
    /// NAT options on a `deny` rule.
    NatOnDeny,
}

/// What a [`RuleError`] stands for.
pub enum RuleErrorView {
    Format,
    InvalidAction(Seq<char>),
    TcpNotSupported,
    InvalidProtocol(Seq<char>),
    AddrPortFormat(Seq<char>),
    InvalidAddress,
    InvalidNumber(IntError),
    InvalidCidr(Seq<char>),
    PrefixTooLong(u32),
    InvalidPortRange(Seq<char>),
    InvertedPortRange(Seq<char>),
    UnknownOption(Seq<char>),
    NatOnDeny,
}

impl View for RuleError {
    type V = RuleErrorView;

    open spec fn view(&self) -> RuleErrorView {
        match self {
            RuleError::Format => RuleErrorView::Format,
            RuleError::InvalidAction(s) => RuleErrorView::InvalidAction(s@),
            RuleError::TcpNotSupported => RuleErrorView::TcpNotSupported,
            RuleError::InvalidProtocol(s) => RuleErrorView::InvalidProtocol(s@),
            RuleError::AddrPortFormat(s) => RuleErrorView::AddrPortFormat(s@),
            RuleError::InvalidAddress => RuleErrorView::InvalidAddress,
            RuleError::InvalidNumber(e) => RuleErrorView::InvalidNumber(*e),
            RuleError::InvalidCidr(s) => RuleErrorView::InvalidCidr(s@),
            RuleError::PrefixTooLong(n) => RuleErrorView::PrefixTooLong(*n),
            RuleError::InvalidPortRange(s) => RuleErrorView::InvalidPortRange(s@),
            RuleError::InvertedPortRange(s) => RuleErrorView::InvertedPortRange(s@),
            RuleError::UnknownOption(s) => RuleErrorView::UnknownOption(s@),
            RuleError::NatOnDeny => RuleErrorView::NatOnDeny,
        }
    }
}

impl RuleErrorView {
    /// The message for a user.
    pub open spec fn message(self) -> Seq<char> {
        match self {
            RuleErrorView::Format =>
                "Invalid rule format, expected: ACTION PROTO SRC DST [NAT...]"@,
            RuleErrorView::InvalidAction(s) => "Invalid action: "@ + s,
            RuleErrorView::TcpNotSupported =>
                "TCP is not supported: TCP has no broadcast/multicast semantics and is not relayed"@,
            RuleErrorView::InvalidProtocol(s) => "Invalid protocol: "@ + s,
            RuleErrorView::AddrPortFormat(s) => "Invalid address:port format: "@ + s,
            RuleErrorView::InvalidAddress => "invalid IPv4 address syntax"@,
            RuleErrorView::InvalidNumber(e) => e.message(),
            RuleErrorView::InvalidCidr(s) => "Invalid CIDR: "@ + s,
            RuleErrorView::PrefixTooLong(n) => "Invalid CIDR prefix length: "@ + decimal(n as nat),
            RuleErrorView::InvalidPortRange(s) => "Invalid port range: "@ + s,
            RuleErrorView::InvertedPortRange(s) => "Inverted port range: "@ + s,
            RuleErrorView::UnknownOption(s) => "Unknown option: "@ + s,
            RuleErrorView::NatOnDeny => "NAT options have no effect on a deny rule"@,
        }
    }
}

impl RuleError {
    /// Appends the message for a user.
    pub fn push_to(&self, out: &mut String)
        ensures
            final(out)@ == old(out)@ + self@.message(),
    {
        let ghost start = out@;
        match self {
            RuleError::Format => out.append(
                "Invalid rule format, expected: ACTION PROTO SRC DST [NAT...]",
            ),
            RuleError::InvalidAction(s) => {
                out.append("Invalid action: ");
                out.append(s.as_str());
            },
            RuleError::TcpNotSupported => out.append(
                "TCP is not supported: TCP has no broadcast/multicast semantics and is not relayed",
            ),
            RuleError::InvalidProtocol(s) => {
                out.append("Invalid protocol: ");
                out.append(s.as_str());
            },
            RuleError::AddrPortFormat(s) => {
                out.append("Invalid address:port format: ");
                out.append(s.as_str());
            },
            RuleError::InvalidAddress => out.append("invalid IPv4 address syntax"),
            RuleError::InvalidNumber(e) => out.append(e.text()),
            RuleError::InvalidCidr(s) => {
                out.append("Invalid CIDR: ");
                out.append(s.as_str());
            },
            RuleError::PrefixTooLong(n) => {
                out.append("Invalid CIDR prefix length: ");
                push_decimal(out, *n as u64);
            },
            RuleError::InvalidPortRange(s) => {
                out.append("Invalid port range: ");
                out.append(s.as_str());
            },
            RuleError::InvertedPortRange(s) => {
                out.append("Inverted port range: ");
                out.append(s.as_str());
            },
            RuleError::UnknownOption(s) => {
                out.append("Unknown option: ");
                out.append(s.as_str());
            },
            RuleError::NatOnDeny => out.append("NAT options have no effect on a deny rule"),
        }
        proof {
            assert(out@ =~= start + self@.message());
        }
    }

    /// The message for a user.
    pub fn to_string(&self) -> (r: String)
        ensures
            r@ == self@.message(),
    {
        let mut r: String = String::new();
        self.push_to(&mut r);
        proof {
            assert(r@ =~= self@.message());
        }
        r
    }
}

/// The port condition that a text denotes: `any`, a port, or `START-END`.
pub open spec fn port_matcher_of(s: Seq<char>) -> Result<PortMatcherView, RuleErrorView> {
    if s == "any"@ {
        Ok(PortMatcherView::Any)
    } else if s.contains('-') {
        let parts = split_at_char(s, '-');
        if parts.len() != 2 {
            Err(RuleErrorView::InvalidPortRange(s))
        } else {
            match (parse_uint(parts[0], 65535), parse_uint(parts[1], 65535)) {
                (Err(e), _) => Err(RuleErrorView::InvalidNumber(e)),
                (Ok(_), Err(e)) => Err(RuleErrorView::InvalidNumber(e)),
                (Ok(start), Ok(end)) => if start > end {
                    Err(RuleErrorView::InvertedPortRange(s))
                } else {
                    Ok(
                        PortMatcherView::Range(
                            RangeInclusiveView {
                                start: start as u16,
                                end: end as u16,
                                exhausted: false,
                            },
                        ),
                    )
                },
            }
        }
    } else {
        match parse_uint(s, 65535) {
            Err(e) => Err(RuleErrorView::InvalidNumber(e)),
            Ok(port) => Ok(PortMatcherView::Exact(port as u16)),
        }
    }
}

/// Reads a port condition.
pub fn parse_port_matcher(s: &[char]) -> (r: Result<PortMatcher, RuleError>)
    ensures
        match r {
            Ok(m) => port_matcher_of(s@) == Ok::<PortMatcherView, RuleErrorView>(m@),
            Err(e) => port_matcher_of(s@) == Err::<PortMatcherView, RuleErrorView>(e@),
        },
{
    if is_text(s, "any") {
        return Ok(PortMatcher::Any);
    }
    if contains_char(s, '-') {
        let parts: Vec<&[char]> = split(s, '-');
        proof {
            assert(forall|i: int| 0 <= i < parts@.len() ==> texts(parts@)[i] == parts@[i]@);
        }
        if parts.len() != 2 {
            return Err(RuleError::InvalidPortRange(string_of(s)));
        }
        let start: u32 = match parse_number(parts[0], 65535) {
            Ok(v) => v,
            Err(e) => {
                return Err(RuleError::InvalidNumber(e));
            },
        };
        let end: u32 = match parse_number(parts[1], 65535) {
            Ok(v) => v,
            Err(e) => {
                return Err(RuleError::InvalidNumber(e));
            },
        };
        if start > end {
            return Err(RuleError::InvertedPortRange(string_of(s)));
        }
        Ok(PortMatcher::Range(RangeInclusive::new(start as u16, end as u16)))
    } else {
        match parse_number(s, 65535) {
            Ok(port) => Ok(PortMatcher::Exact(port as u16)),
            Err(e) => Err(RuleError::InvalidNumber(e)),
        }
    }
}

/// The network mask of a prefix length: that many leading one bits.
pub open spec fn prefix_mask(len: u32) -> u32 {
    if len == 0 {
        0
    } else {
        !0u32 << ((32 - len) as u32)
    }
}

/// The address condition that a text denotes: `any`, an address, or a network
/// `ADDRESS/PREFIX_LENGTH`.
pub open spec fn ip_matcher_of(s: Seq<char>) -> Result<IpMatcher, RuleErrorView> {
    if s == "any"@ {
        Ok(IpMatcher::Any)
    } else if s.contains('/') {
        let parts = split_at_char(s, '/');
        if parts.len() != 2 {
            Err(RuleErrorView::InvalidCidr(s))
        } else {
            match (parse_addr(parts[0]), parse_uint(parts[1], 0xffff_ffff)) {
                (None, _) => Err(RuleErrorView::InvalidAddress),
                (Some(_), Err(e)) => Err(RuleErrorView::InvalidNumber(e)),
                (Some(addr), Ok(len)) => if len > 32 {
                    Err(RuleErrorView::PrefixTooLong(len as u32))
                } else {
                    let mask = prefix_mask(len as u32);
                    Ok(IpMatcher::Cidr { addr: addr.bits() & mask, mask })
                },
            }
        }
    } else {
        match parse_addr(s) {
            Some(addr) => Ok(IpMatcher::Exact(addr)),
            None => Err(RuleErrorView::InvalidAddress),
        }
    }
}

/// Reads an address condition.
pub fn parse_ip_matcher(s: &[char]) -> (r: Result<IpMatcher, RuleError>)
    ensures
        match r {
            Ok(m) => ip_matcher_of(s@) == Ok::<IpMatcher, RuleErrorView>(m),
            Err(e) => ip_matcher_of(s@) == Err::<IpMatcher, RuleErrorView>(e@),
        },
{
    if is_text(s, "any") {
        return Ok(IpMatcher::Any);
    }
    if contains_char(s, '/') {
        let parts: Vec<&[char]> = split(s, '/');
        proof {
            assert(forall|i: int| 0 <= i < parts@.len() ==> texts(parts@)[i] == parts@[i]@);
        }
        if parts.len() != 2 {
            return Err(RuleError::InvalidCidr(string_of(s)));
        }
        let addr: Ipv4Addr = match Ipv4Addr::parse(parts[0]) {
            Some(addr) => addr,
            None => {
                return Err(RuleError::InvalidAddress);
            },
        };
        let prefix_len: u32 = match parse_number(parts[1], 0xffff_ffff) {
            Ok(v) => v,
            Err(e) => {
                return Err(RuleError::InvalidNumber(e));
            },
        };
        if prefix_len > 32 {
            return Err(RuleError::PrefixTooLong(prefix_len));
        }
        let mask: u32 = if prefix_len == 0 {
            0
        } else {
            !0u32 << (32 - prefix_len)
        };
        Ok(IpMatcher::Cidr { addr: addr.to_bits() & mask, mask })
    } else {
        match Ipv4Addr::parse(s) {
            Some(addr) => Ok(IpMatcher::Exact(addr)),
            None => Err(RuleError::InvalidAddress),
        }
    }
}

/// The source conditions that a text `IP[:PORT]` denotes. Without a port, any
/// port will do.
pub open spec fn addr_port_of(s: Seq<char>) -> Result<
    (IpMatcher, PortMatcherView),
    RuleErrorView,
> {
    let parts = split_at_char(s, ':');
    if parts.len() > 2 {
        Err(RuleErrorView::AddrPortFormat(s))
    } else {
        match ip_matcher_of(parts[0]) {
            Err(e) => Err(e),
            Ok(ip) => if parts.len() == 1 {
                Ok((ip, PortMatcherView::Any))
            } else {
                match port_matcher_of(parts[1]) {
                    Err(e) => Err(e),
                    Ok(port) => Ok((ip, port)),
                }
            },
        }
    }
}

/// Reads the source conditions of a rule.
pub fn parse_addr_port(s: &[char]) -> (r: Result<(IpMatcher, PortMatcher), RuleError>)
    ensures
        match r {
            Ok(m) => addr_port_of(s@) == Ok::<(IpMatcher, PortMatcherView), RuleErrorView>(
                (m.0, m.1@),
            ),
            Err(e) => addr_port_of(s@) == Err::<(IpMatcher, PortMatcherView), RuleErrorView>(e@),
        },
{
    let parts: Vec<&[char]> = split(s, ':');
    proof {
        assert(forall|i: int| 0 <= i < parts@.len() ==> texts(parts@)[i] == parts@[i]@);
    }
    if parts.len() > 2 {
        return Err(RuleError::AddrPortFormat(string_of(s)));
    }
    let ip: IpMatcher = match parse_ip_matcher(parts[0]) {
        Ok(ip) => ip,
        Err(e) => {
            return Err(e);
        },
    };
    if parts.len() == 1 {
        return Ok((ip, PortMatcher::Any));
    }
    match parse_port_matcher(parts[1]) {
        Ok(port) => Ok((ip, port)),
        Err(e) => Err(e),
    }
}

/// The destination address conditions that a text denotes: those of a source,
/// and the keyword `directed`.
pub open spec fn dest_ip_of(s: Seq<char>) -> Result<(IpMatcher, BroadcastType), RuleErrorView> {
    if s == "255.255.255.255"@ {
        Ok((IpMatcher::Exact(limited_broadcast()), BroadcastType::Limited))
    } else if s == "directed"@ {
        Ok((IpMatcher::Any, BroadcastType::Directed))
    } else if s == "any"@ {
        Ok((IpMatcher::Any, BroadcastType::Any))
    } else {
        match ip_matcher_of(s) {
            Err(e) => Err(e),
            Ok(ip) => Ok((ip, BroadcastType::Any)),
        }
    }
}

/// The destination conditions that a text `IP[:PORT]` denotes. Without a port,
/// any port will do.
pub open spec fn dest_addr_port_of(s: Seq<char>) -> Result<
    (IpMatcher, PortMatcherView, BroadcastType),
    RuleErrorView,
> {
    let parts = split_at_char(s, ':');
    if parts.len() > 2 {
        Err(RuleErrorView::AddrPortFormat(s))
    } else {
        let port = if parts.len() == 1 {
            Ok(PortMatcherView::Any)
        } else {
            port_matcher_of(parts[1])
        };
        match (port, dest_ip_of(parts[0])) {
            (Err(e), _) => Err(e),
            (Ok(_), Err(e)) => Err(e),
            (Ok(port), Ok((ip, broadcast_type))) => Ok((ip, port, broadcast_type)),
        }
    }
}

/// Reads the destination conditions of a rule.
pub fn parse_dest_addr_port(s: &[char]) -> (r: Result<
    (IpMatcher, PortMatcher, BroadcastType),
    RuleError,
>)
    ensures
        match r {
            Ok(m) => dest_addr_port_of(s@) == Ok::<
                (IpMatcher, PortMatcherView, BroadcastType),
                RuleErrorView,
            >((m.0, m.1@, m.2)),
            Err(e) => dest_addr_port_of(s@) == Err::<
                (IpMatcher, PortMatcherView, BroadcastType),
                RuleErrorView,
            >(e@),
        },
{
    let parts: Vec<&[char]> = split(s, ':');
    proof {
        assert(forall|i: int| 0 <= i < parts@.len() ==> texts(parts@)[i] == parts@[i]@);
    }
    if parts.len() > 2 {
        return Err(RuleError::AddrPortFormat(string_of(s)));
    }
    let port: PortMatcher = if parts.len() == 1 {
        PortMatcher::Any
    } else {
        match parse_port_matcher(parts[1]) {
            Ok(port) => port,
            Err(e) => {
                return Err(e);
            },
        }
    };
    let ip: &[char] = parts[0];
    if is_text(ip, "255.255.255.255") {
        Ok((IpMatcher::Exact(Ipv4Addr::broadcast()), port, BroadcastType::Limited))
    } else if is_text(ip, "directed") {
        Ok((IpMatcher::Any, port, BroadcastType::Directed))
    } else if is_text(ip, "any") {
        Ok((IpMatcher::Any, port, BroadcastType::Any))
    } else {
        match parse_ip_matcher(ip) {
            Ok(m) => Ok((m, port, BroadcastType::Any)),
            Err(e) => Err(e),
        }
    }
}

/// The action that a word denotes.
pub open spec fn action_of(s: Seq<char>) -> Result<Action, RuleErrorView> {
    if s == "allow"@ {
        Ok(Action::Allow)
    } else if s == "deny"@ {
        Ok(Action::Deny)
    } else {
        Err(RuleErrorView::InvalidAction(s))
    }
}

/// The protocol that a word denotes.
pub open spec fn protocol_of(s: Seq<char>) -> Result<Protocol, RuleErrorView> {
    if s == "udp"@ {
        Ok(Protocol::Udp)
    } else if s == "any"@ {
        Ok(Protocol::Any)
    } else if s == "tcp"@ {
        Err(RuleErrorView::TcpNotSupported)
    } else {
        Err(RuleErrorView::InvalidProtocol(s))
    }
}

/// The NAT options `opts` after the further option `s`.
pub open spec fn option_of(s: Seq<char>, opts: NatOptions) -> Result<NatOptions, RuleErrorView> {
    if let Some(val) = after_prefix(s, "snat="@) {
        match parse_addr(val) {
            Some(ip) => Ok(NatOptions { source_ip: Some(ip), ..opts }),
            None => Err(RuleErrorView::InvalidAddress),
        }
    } else if let Some(val) = after_prefix(s, "dnat="@) {
        match parse_addr(val) {
            Some(ip) => Ok(NatOptions { dest_ip: Some(ip), ..opts }),
            None => Err(RuleErrorView::InvalidAddress),
        }
    } else if let Some(val) = after_prefix(s, "sport="@) {
        match parse_uint(val, 65535) {
            Ok(port) => Ok(NatOptions { source_port: Some(port as u16), ..opts }),
            Err(e) => Err(RuleErrorView::InvalidNumber(e)),
        }
    } else if let Some(val) = after_prefix(s, "dport="@) {
        match parse_uint(val, 65535) {
            Ok(port) => Ok(NatOptions { dest_port: Some(port as u16), ..opts }),
            Err(e) => Err(RuleErrorView::InvalidNumber(e)),
        }
    } else {
        Err(RuleErrorView::UnknownOption(s))
    }
}

/// Reads one more NAT option.
fn parse_option(s: &[char], opts: NatOptions) -> (r: Result<NatOptions, RuleError>)
    ensures
        match r {
            Ok(n) => option_of(s@, opts) == Ok::<NatOptions, RuleErrorView>(n),
            Err(e) => option_of(s@, opts) == Err::<NatOptions, RuleErrorView>(e@),
        },
{
    if let Some(val) = strip_prefix(s, "snat=") {
        match Ipv4Addr::parse(val) {
            Some(ip) => Ok(NatOptions { source_ip: Some(ip), ..opts }),
            None => Err(RuleError::InvalidAddress),
        }
    } else if let Some(val) = strip_prefix(s, "dnat=") {
        match Ipv4Addr::parse(val) {
            Some(ip) => Ok(NatOptions { dest_ip: Some(ip), ..opts }),
            None => Err(RuleError::InvalidAddress),
        }
    } else if let Some(val) = strip_prefix(s, "sport=") {
        match parse_number(val, 65535) {
            Ok(port) => Ok(NatOptions { source_port: Some(port as u16), ..opts }),
            Err(e) => Err(RuleError::InvalidNumber(e)),
        }
    } else if let Some(val) = strip_prefix(s, "dport=") {
        match parse_number(val, 65535) {
            Ok(port) => Ok(NatOptions { dest_port: Some(port as u16), ..opts }),
            Err(e) => Err(RuleError::InvalidNumber(e)),
        }
    } else {
        Err(RuleError::UnknownOption(string_of(s)))
    }
}

/// The NAT options that a list of words denotes. Of a repeated option the last
/// one counts.
pub open spec fn options_of(parts: Seq<Seq<char>>) -> Result<NatOptions, RuleErrorView>
    decreases parts.len(),
{
    if parts.len() == 0 {
        Ok(no_nat())
    } else {
        match options_of(parts.drop_last()) {
            Err(e) => Err(e),
            Ok(opts) => option_of(parts.last(), opts),
        }
    }
}

/// An error among the first `n` options is the error of the whole list.
proof fn lemma_options_stop(parts: Seq<Seq<char>>, n: int)
    requires
        0 <= n <= parts.len(),
        options_of(parts.take(n)) is Err,
    ensures
        options_of(parts) == options_of(parts.take(n)),
    decreases parts.len(),
{
    if n == parts.len() {
        assert(parts.take(n) =~= parts);
    } else {
        assert(parts.drop_last().take(n) =~= parts.take(n));
        lemma_options_stop(parts.drop_last(), n);
    }
}

/// The rule that a line denotes.
pub open spec fn rule_of(line: Seq<char>) -> Result<RuleView, RuleErrorView> {
    let parts = words(line);
    if parts.len() < 4 {
        Err(RuleErrorView::Format)
    } else {
        match (
            action_of(parts[0]),
            protocol_of(parts[1]),
            addr_port_of(parts[2]),
            dest_addr_port_of(parts[3]),
            options_of(parts.skip(4)),
        ) {
            (Err(e), _, _, _, _) => Err(e),
            (_, Err(e), _, _, _) => Err(e),
            (_, _, Err(e), _, _) => Err(e),
            (_, _, _, Err(e), _) => Err(e),
            (_, _, _, _, Err(e)) => Err(e),
            (
                Ok(action),
                Ok(protocol),
                Ok((src_ip, src_port)),
                Ok((dst_ip, dst_port, broadcast_type)),
                Ok(opts),
            ) => if action == Action::Deny && parts.len() > 4 {
                Err(RuleErrorView::NatOnDeny)
            } else {
                Ok(
                    RuleView {
                        action,
                        protocol,
                        src_ip,
                        src_port,
                        dst_ip,
                        dst_port,
                        broadcast_type,
                        nat: opts,
                    },
                )
            },
        }
    }
}

/// Reads a rule.
pub fn parse_rule(line: &[char]) -> (r: Result<Rule, RuleError>)
    ensures
        match r {
            Ok(rule) => rule_of(line@) == Ok::<RuleView, RuleErrorView>(rule@),
            Err(e) => rule_of(line@) == Err::<RuleView, RuleErrorView>(e@),
        },
{
    let parts: Vec<&[char]> = split_whitespace(line);
    let ghost fields = words(line@);
    proof {
        assert(forall|i: int| 0 <= i < parts@.len() ==> fields[i] == parts@[i]@);
        assert(parts@.len() == fields.len());
    }
    if parts.len() < 4 {
        return Err(RuleError::Format);
    }
    let action: Action = if is_text(parts[0], "allow") {
        Action::Allow
    } else if is_text(parts[0], "deny") {
        Action::Deny
    } else {
        return Err(RuleError::InvalidAction(string_of(parts[0])));
    };
    let protocol: Protocol = if is_text(parts[1], "udp") {
        Protocol::Udp
    } else if is_text(parts[1], "any") {
        Protocol::Any
    } else if is_text(parts[1], "tcp") {
        return Err(RuleError::TcpNotSupported);
    } else {
        return Err(RuleError::InvalidProtocol(string_of(parts[1])));
    };
    let (src_ip, src_port) = match parse_addr_port(parts[2]) {
        Ok(m) => m,
        Err(e) => {
            return Err(e);
        },
    };
    let (dst_ip, dst_port, broadcast_type) = match parse_dest_addr_port(parts[3]) {
        Ok(m) => m,
        Err(e) => {
            return Err(e);
        },
    };
    let mut opts: NatOptions = NatOptions::default();
    let mut i: usize = 4;
    proof {
        assert(fields.skip(4).take(0) =~= Seq::<Seq<char>>::empty());
    }
    while i < parts.len()
        invariant
            4 <= i <= parts@.len() == fields.len(),
            forall|j: int| 0 <= j < parts@.len() ==> fields[j] == parts@[j]@,
            fields == words(line@),
            options_of(fields.skip(4).take(i - 4)) == Ok::<NatOptions, RuleErrorView>(opts),
            action_of(fields[0]) is Ok,
            protocol_of(fields[1]) is Ok,
            addr_port_of(fields[2]) is Ok,
            dest_addr_port_of(fields[3]) is Ok,
        decreases parts@.len() - i,
    {
        proof {
            let t = fields.skip(4).take(i - 3);
            assert(t.drop_last() =~= fields.skip(4).take(i - 4));
            assert(t.last() == fields[i as int]);
        }
        match parse_option(parts[i], opts) {
            Ok(n) => {
                opts = n;
            },
            Err(e) => {
                proof {
                    lemma_options_stop(fields.skip(4), i - 3);
                }
                return Err(e);
            },
        }
        i = i + 1;
    }
    proof {
        assert(fields.skip(4).take(fields.len() - 4) =~= fields.skip(4));
    }
    if action == Action::Deny && parts.len() > 4 {
        return Err(RuleError::NatOnDeny);
    }
    Ok(
        Rule {
            action,
            protocol,
            src_ip,
            src_port,
            dst_ip,
            dst_port,
            broadcast_type,
            nat: opts,
        },
    )
}

/// A line of a configuration that is not a rule.
#[derive(Debug)]
pub struct ConfigError {
    /// The line's number, counted from 1.
    pub line: usize,
    /// What is wrong with it.
    pub error: RuleError,
}

/// What a [`ConfigError`] stands for.
pub struct ConfigErrorView {
    pub line: nat,
    pub error: RuleErrorView,
}

impl View for ConfigError {
    type V = ConfigErrorView;

    open spec fn view(&self) -> ConfigErrorView {
        ConfigErrorView { line: self.line as nat, error: self.error@ }
    }
}

impl ConfigErrorView {
    /// The message for a user.
    pub open spec fn message(self) -> Seq<char> {
        "Config parse error at line "@ + decimal(self.line) + ": "@ + self.error.message()
    }
}

impl ConfigError {
    /// The message for a user.
    pub fn to_string(&self) -> (r: String)
        ensures
            r@ == self@.message(),
    {
        let mut r: String = String::new();
        r.append("Config parse error at line ");
        push_decimal(&mut r, self.line as u64);
        r.append(": ");
        self.error.push_to(&mut r);
        proof {
            assert(r@ =~= self@.message());
        }
        r
    }
}

/// Whether a line, without surrounding whitespace, is blank or a comment.
pub open spec fn is_skipped(line: Seq<char>) -> bool {
    line.len() == 0 || line[0] == '#'
}

/// The rules that a list of lines denotes, or the first line that is wrong.
pub open spec fn rules_of(lines: Seq<Seq<char>>) -> Result<Seq<RuleView>, ConfigErrorView>
    decreases lines.len(),
{
    if lines.len() == 0 {
        Ok(Seq::empty())
    } else {
        match rules_of(lines.drop_last()) {
            Err(e) => Err(e),
            Ok(rules) => {
                let line = trimmed(lines.last());
                if is_skipped(line) {
                    Ok(rules)
                } else {
                    match rule_of(line) {
                        Ok(rule) => Ok(rules.push(rule)),
                        Err(error) => Err(ConfigErrorView { line: lines.len(), error }),
                    }
                }
            },
        }
    }
}

/// The rules that the text of a configuration file denotes. Lines end with a
/// line feed; a carriage return before it is trailing whitespace.
pub open spec fn config_of(content: Seq<char>) -> Result<Seq<RuleView>, ConfigErrorView> {
    rules_of(split_at_char(content, '\n'))
}

/// An error among the first `n` lines is the error of the whole file.
proof fn lemma_rules_stop(lines: Seq<Seq<char>>, n: int)
    requires
        0 <= n <= lines.len(),
        rules_of(lines.take(n)) is Err,
    ensures
        rules_of(lines) == rules_of(lines.take(n)),
    decreases lines.len(),
{
    if n == lines.len() {
        assert(lines.take(n) =~= lines);
    } else {
        assert(lines.drop_last().take(n) =~= lines.take(n));
        lemma_rules_stop(lines.drop_last(), n);
    }
}

impl Config {
    /// Reads a configuration.
    pub fn parse(content: &str) -> (r: Result<Config, ConfigError>)
        ensures
            match r {
                Ok(config) => config_of(content@) == Ok::<Seq<RuleView>, ConfigErrorView>(config@),
                Err(e) => config_of(content@) == Err::<Seq<RuleView>, ConfigErrorView>(e@),
            },
    {
        let chars: Vec<char> = chars_of(content);
        let lines: Vec<&[char]> = split(chars.as_slice(), '\n');
        let ghost all = split_at_char(content@, '\n');
        let mut config: Config = Config { rules: Vec::new() };
        let mut i: usize = 0;
        proof {
            assert(forall|j: int| 0 <= j < lines@.len() ==> all[j] == lines@[j]@);
            assert(all.take(0) =~= Seq::<Seq<char>>::empty());
            assert(config@ =~= Seq::<RuleView>::empty());
        }
        while i < lines.len()
            invariant
                i <= lines@.len() == all.len(),
                all == split_at_char(content@, '\n'),
                forall|j: int| 0 <= j < lines@.len() ==> all[j] == lines@[j]@,
                rules_of(all.take(i as int)) == Ok::<Seq<RuleView>, ConfigErrorView>(config@),
            decreases lines@.len() - i,
        {
            let line: &[char] = trim(lines[i]);
            proof {
                assert(all.take(i as int + 1).drop_last() =~= all.take(i as int));
                assert(all.take(i as int + 1).last() == all[i as int]);
            }
            if line.len() > 0 && line[0] != '#' {
                match parse_rule(line) {
                    Ok(rule) => {
                        let ghost before = config@;
                        config.rules.push(rule);
                        proof {
                            assert(config@ =~= before.push(rule@));
                        }
                    },
                    Err(error) => {
                        proof {
                            lemma_rules_stop(all, i as int + 1);
                        }
                        return Err(ConfigError { line: i + 1, error });
                    },
                }
            }
            i = i + 1;
        }
        proof {
            assert(all.take(all.len() as int) =~= all);
        }
        Ok(config)
    }
}

/// Whether a word is a NAT option with a good value.
pub open spec fn is_option(s: Seq<char>) -> bool {
    ||| after_prefix(s, "snat="@) matches Some(val) && parse_addr(val) is Some
    ||| after_prefix(s, "dnat="@) matches Some(val) && parse_addr(val) is Some
    ||| after_prefix(s, "sport="@) matches Some(val) && parse_uint(val, 65535) is Ok
    ||| after_prefix(s, "dport="@) matches Some(val) && parse_uint(val, 65535) is Ok
}

/// A port condition of a rule is never an empty range.
pub open spec fn is_satisfiable(m: PortMatcherView) -> bool {
    m matches PortMatcherView::Range(r) ==> r.start <= r.end && !r.exhausted
}

/// Strict parsing: every word of a line that is accepted as a rule has been
/// understood. An option that does not exist, a value that cannot be read, an
/// inverted port range or an option on a `deny` rule means that there is no
/// rule.
pub proof fn accepted_rules_are_fully_understood(line: Seq<char>)
    requires
        rule_of(line) is Ok,
    ensures
        ({
            let parts = words(line);
            let rule = rule_of(line)->Ok_0;
            &&& parts.len() >= 4
            &&& parts[0] == "allow"@ || parts[0] == "deny"@
            &&& parts[1] == "udp"@ || parts[1] == "any"@
            &&& is_satisfiable(rule.src_port)
            &&& is_satisfiable(rule.dst_port)
            &&& forall|i: int| 4 <= i < parts.len() ==> is_option(#[trigger] parts[i])
            &&& rule.action == Action::Deny ==> parts.len() == 4 && rule.nat == no_nat()
        }),
{
    let parts = words(line);
    lemma_options_understood(parts.skip(4));
    assert forall|i: int| 4 <= i < parts.len() implies is_option(#[trigger] parts[i]) by {
        assert(parts[i] == parts.skip(4)[i - 4]);
    }
    if parts.len() == 4 {
        assert(parts.skip(4) =~= Seq::<Seq<char>>::empty());
    }
}

/// Every word of an accepted list of options is an option.
proof fn lemma_options_understood(parts: Seq<Seq<char>>)
    requires
        options_of(parts) is Ok,
    ensures
        forall|i: int| 0 <= i < parts.len() ==> is_option(#[trigger] parts[i]),
    decreases parts.len(),
{
    if parts.len() > 0 {
        lemma_options_understood(parts.drop_last());
        assert forall|i: int| 0 <= i < parts.len() implies is_option(#[trigger] parts[i]) by {
            if i < parts.len() - 1 {
                assert(parts[i] == parts.drop_last()[i]);
            }
        }
    }
}

/// Whether a line is blank, a comment or a rule.
pub open spec fn is_good_line(line: Seq<char>) -> bool {
    is_skipped(trimmed(line)) || rule_of(trimmed(line)) is Ok
}

/// A line is good exactly when it is read without trouble.
proof fn lemma_good_line(line: Seq<char>)
    ensures
        is_good_line(line) == reads_well(line_reader(), line),
{
}

/// A configuration is accepted exactly when each of its lines is blank, a
/// comment or a rule.
pub proof fn accepted_iff_every_line_is_good(content: Seq<char>)
    ensures
        config_of(content) is Ok <==> forall|i: int|
            0 <= i < split_at_char(content, '\n').len() ==> is_good_line(
                #[trigger] split_at_char(content, '\n')[i],
            ),
{
    let lines = split_at_char(content, '\n');
    lemma_rules_by(lines);
    lemma_rules_ok_iff(line_reader(), lines);
    assert forall|line: Seq<char>| #[trigger] is_good_line(line) == reads_well(
        line_reader(),
        line,
    ) by {
        lemma_good_line(line);
    }
}

/// How lines are read: as nothing, as a rule, or as something that is wrong.
type LineReader = spec_fn(Seq<char>) -> Option<Result<RuleView, RuleErrorView>>;

/// How the lines of a configuration are read.
spec fn line_reader() -> LineReader {
    |line: Seq<char>|
        if is_skipped(trimmed(line)) {
            None
        } else {
            Some(rule_of(trimmed(line)))
        }
}

/// The rules that a list of lines denotes, or the first line that is wrong,
/// when lines are read by `read`.
spec fn rules_by(read: LineReader, lines: Seq<Seq<char>>) -> Result<Seq<RuleView>, ConfigErrorView>
    decreases lines.len(),
{
    if lines.len() == 0 {
        Ok(Seq::empty())
    } else {
        match rules_by(read, lines.drop_last()) {
            Err(e) => Err(e),
            Ok(rules) => match read(lines.last()) {
                None => Ok(rules),
                Some(Ok(rule)) => Ok(rules.push(rule)),
                Some(Err(error)) => Err(ConfigErrorView { line: lines.len(), error }),
            },
        }
    }
}

/// The lines of a configuration are read by its reader.
proof fn lemma_rules_by(lines: Seq<Seq<char>>)
    ensures
        rules_of(lines) == rules_by(line_reader(), lines),
    decreases lines.len(),
{
    if lines.len() > 0 {
        lemma_rules_by(lines.drop_last());
    }
}

/// Whether a line is read without trouble.
spec fn reads_well(read: LineReader, line: Seq<char>) -> bool {
    !(read(line) matches Some(Err(_)))
}

/// Lines are accepted exactly when each of them is read without trouble.
proof fn lemma_rules_ok_iff(read: LineReader, lines: Seq<Seq<char>>)
    ensures
        rules_by(read, lines) is Ok <==> forall|i: int|
            0 <= i < lines.len() ==> reads_well(read, #[trigger] lines[i]),
    decreases lines.len(),
{
    if lines.len() > 0 {
        let front = lines.drop_last();
        lemma_rules_ok_iff(read, front);
        if rules_by(read, lines) is Ok {
            assert forall|i: int| 0 <= i < lines.len() implies reads_well(
                read,
                #[trigger] lines[i],
            ) by {
                if i < front.len() {
                    assert(lines[i] == front[i]);
                }
            }
        }
        if forall|i: int| 0 <= i < lines.len() ==> reads_well(read, #[trigger] lines[i]) {
            assert forall|i: int| 0 <= i < front.len() implies reads_well(
                read,
                #[trigger] front[i],
            ) by {
                assert(front[i] == lines[i]);
            }
            assert(reads_well(read, lines[lines.len() - 1]));
        }
    }
}

/// The error for a configuration names its first bad line, counted from 1, and
/// says what is wrong with it.
pub proof fn error_names_the_first_bad_line(content: Seq<char>)
    requires
        config_of(content) is Err,
    ensures
        ({
            let lines = split_at_char(content, '\n');
            let e = config_of(content)->Err_0;
            &&& 1 <= e.line <= lines.len()
            &&& !is_skipped(trimmed(lines[e.line - 1]))
            &&& rule_of(trimmed(lines[e.line - 1])) == Err::<RuleView, RuleErrorView>(e.error)
            &&& forall|i: int| 0 <= i < e.line - 1 ==> is_good_line(#[trigger] lines[i])
        }),
{
    let lines = split_at_char(content, '\n');
    lemma_rules_by(lines);
    lemma_first_bad_line(line_reader(), lines);
    let e = config_of(content)->Err_0;
    assert forall|i: int| 0 <= i < e.line - 1 implies is_good_line(#[trigger] lines[i]) by {
        lemma_good_line(lines[i]);
    }
}

/// The error for a list of lines is that of the first bad one.
proof fn lemma_first_bad_line(read: LineReader, lines: Seq<Seq<char>>)
    requires
        rules_by(read, lines) is Err,
    ensures
        ({
            let e = rules_by(read, lines)->Err_0;
            &&& 1 <= e.line <= lines.len()
            &&& read(lines[e.line - 1]) == Some(Err::<RuleView, RuleErrorView>(e.error))
            &&& forall|i: int| 0 <= i < e.line - 1 ==> reads_well(read, #[trigger] lines[i])
        }),
    decreases lines.len(),
{
    let front = lines.drop_last();
    if rules_by(read, front) is Err {
        lemma_first_bad_line(read, front);
        let e = rules_by(read, front)->Err_0;
        assert forall|i: int| 0 <= i < e.line - 1 implies reads_well(read, #[trigger] lines[i]) by {
            assert(lines[i] == front[i]);
        }
    } else {
        lemma_rules_ok_iff(read, front);
        assert forall|i: int| 0 <= i < front.len() implies reads_well(read, #[trigger] lines[i]) by {
            assert(lines[i] == front[i]);
        }
    }
}

/// A blank line or a comment between two parts of a configuration changes
/// nothing but the numbers of the lines below it.
pub proof fn comments_and_blank_lines_are_ignored(
    above: Seq<char>,
    line: Seq<char>,
    below: Seq<char>,
)
    requires
        !line.contains('\n'),
        is_skipped(trimmed(line)),
    ensures
        ({
            let without = config_of(above.push('\n') + below);
            let with = config_of(above.push('\n') + (line.push('\n') + below));
            let height = split_at_char(above, '\n').len();
            match without {
                Ok(rules) => with == Ok::<Seq<RuleView>, ConfigErrorView>(rules),
                Err(e) => with == Err::<Seq<RuleView>, ConfigErrorView>(
                    if e.line <= height {
                        e
                    } else {
                        ConfigErrorView { line: e.line + 1, error: e.error }
                    },
                ),
            }
        }),
{
    separator_separates(above, '\n', below);
    separator_separates(above, '\n', line.push('\n') + below);
    separator_separates(line, '\n', below);
    unseparated_text_is_one_piece(line, '\n');
    let a = split_at_char(above, '\n');
    let b = split_at_char(below, '\n');
    assert(a + (seq![line] + b) =~= a.push(line) + b);
    lemma_rules_by(a + b);
    lemma_rules_by(a.push(line) + b);
    lemma_skipped_line(line_reader(), a, line, b);
}

/// A line that is read as nothing only moves the lines below it.
proof fn lemma_skipped_line(
    read: LineReader,
    a: Seq<Seq<char>>,
    line: Seq<char>,
    b: Seq<Seq<char>>,
)
    requires
        read(line) is None,
    ensures
        match rules_by(read, a + b) {
            Ok(rules) => rules_by(read, a.push(line) + b) == Ok::<Seq<RuleView>, ConfigErrorView>(
                rules,
            ),
            Err(e) => rules_by(read, a.push(line) + b) == Err::<Seq<RuleView>, ConfigErrorView>(
                if e.line <= a.len() {
                    e
                } else {
                    ConfigErrorView { line: e.line + 1, error: e.error }
                },
            ),
        },
    decreases b.len(),
{
    if b.len() == 0 {
        assert(a + b =~= a);
        assert(a.push(line) + b =~= a.push(line));
        assert(a.push(line).drop_last() =~= a);
        if rules_by(read, a) is Err {
            lemma_first_bad_line(read, a);
        }
    } else {
        lemma_skipped_line(read, a, line, b.drop_last());
        assert((a + b).drop_last() =~= a + b.drop_last());
        assert((a.push(line) + b).drop_last() =~= a.push(line) + b.drop_last());
    }
}

/// A rule further down comes further back: a last line with a rule adds that
/// rule behind all others.
pub proof fn rules_keep_the_order_of_lines(above: Seq<char>, line: Seq<char>)
    requires
        config_of(above) is Ok,
        !line.contains('\n'),
        !is_skipped(trimmed(line)),
        rule_of(trimmed(line)) is Ok,
    ensures
        config_of(above.push('\n') + line) == Ok::<Seq<RuleView>, ConfigErrorView>(
            config_of(above)->Ok_0.push(rule_of(trimmed(line))->Ok_0),
        ),
{
    separator_separates(above, '\n', line);
    unseparated_text_is_one_piece(line, '\n');
    let lines = split_at_char(above, '\n') + seq![line];
    assert(lines.drop_last() =~= split_at_char(above, '\n'));
}

/// A configuration is read line by line: a further line adds nothing if it is
/// blank or a comment, adds its rule behind the others, or is the error, unless
/// there is one before it.
pub proof fn lines_are_read_one_by_one(above: Seq<char>, line: Seq<char>)
    requires
        !line.contains('\n'),
    ensures
        config_of(above.push('\n') + line) == match config_of(above) {
            Err(e) => Err(e),
            Ok(rules) => if is_skipped(trimmed(line)) {
                Ok(rules)
            } else {
                match rule_of(trimmed(line)) {
                    Ok(rule) => Ok(rules.push(rule)),
                    Err(error) => Err(
                        ConfigErrorView { line: split_at_char(above, '\n').len() + 1, error },
                    ),
                }
            },
        },
        config_of(line) == if is_skipped(trimmed(line)) {
            Ok(Seq::<RuleView>::empty())
        } else {
            match rule_of(trimmed(line)) {
                Ok(rule) => Ok(seq![rule]),
                Err(error) => Err(ConfigErrorView { line: 1, error }),
            }
        },
{
    separator_separates(above, '\n', line);
    unseparated_text_is_one_piece(line, '\n');
    let lines = split_at_char(above, '\n') + seq![line];
    assert(lines.drop_last() =~= split_at_char(above, '\n'));
    let one = seq![line];
    assert(one.drop_last() =~= Seq::<Seq<char>>::empty());
    assert(rules_of(one.drop_last()) == Ok::<Seq<RuleView>, ConfigErrorView>(Seq::empty()));
    if rule_of(trimmed(line)) is Ok {
        let rule = rule_of(trimmed(line))->Ok_0;
        assert(Seq::<RuleView>::empty().push(rule) =~= seq![rule]);
    }
}

/// Leaving out the port is the same as writing `any` for it.
pub proof fn port_defaults_to_any(ip: Seq<char>)
    requires
        !ip.contains(':'),
    ensures
        addr_port_of(ip + ":any"@) == addr_port_of(ip),
        dest_addr_port_of(ip + ":any"@) == dest_addr_port_of(ip),
{
    reveal_strlit(":any");
    reveal_strlit("any");
    assert(ip + ":any"@ =~= ip.push(':') + "any"@);
    separator_separates(ip, ':', "any"@);
    unseparated_text_is_one_piece(ip, ':');
    unseparated_text_is_one_piece("any"@, ':');
    assert(split_at_char(ip + ":any"@, ':') =~= seq![ip, "any"@]);
}

/// The network of a prefix length holds exactly the addresses that agree with
/// its address in that many leading bits.
pub proof fn network_holds_addresses_with_its_prefix(addr: Ipv4Addr, len: u32, ip: Ipv4Addr)
    requires
        len <= 32,
    ensures
        ({
            let mask = prefix_mask(len);
            (IpMatcher::Cidr { addr: addr.bits() & mask, mask }).admits(ip) <==> len == 0
                || ip.bits() >> ((32 - len) as u32) == addr.bits() >> ((32 - len) as u32)
        }),
{
    let x = ip.bits();
    let y = addr.bits();
    if len == 0 {
        assert(x & 0 == 0 && y & 0 == 0) by (bit_vector);
    } else {
        let k = (32 - len) as u32;
        assert(x & (!0u32 << k) == y & (!0u32 << k) <==> x >> k == y >> k) by (bit_vector)
            requires
                k < 32,
        ;
    }
}

/// A single port condition: `any` holds of every port, a number of that port
/// alone, and anything else is no condition.
pub proof fn single_port_conditions(s: Seq<char>, port: u16)
    requires
        !s.contains('-'),
    ensures
        match port_matcher_of(s) {
            Ok(m) => if s == "any"@ {
                m.admits(port)
            } else {
                parse_uint(s, 65535) is Ok && (m.admits(port) <==> parse_uint(s, 65535) == Ok::<
                    nat,
                    IntError,
                >(port as nat))
            },
            Err(e) => s != "any"@ && parse_uint(s, 65535) is Err && e
                == RuleErrorView::InvalidNumber(parse_uint(s, 65535)->Err_0),
        },
{
    if let Ok(n) = parse_uint(s, 65535) {
        number_accepted_iff(s, 65535, n);
    }
}

/// A port range: `START-END` holds of the ports from the one number to the
/// other, both included; the numbers must be ports, and in order.
pub proof fn port_range_conditions(a: Seq<char>, b: Seq<char>, port: u16)
    requires
        !a.contains('-'),
        !b.contains('-'),
    ensures
        ({
            let s = a.push('-') + b;
            match (parse_uint(a, 65535), parse_uint(b, 65535)) {
                (Ok(start), Ok(end)) => if start <= end {
                    port_matcher_of(s) matches Ok(m) && (m.admits(port) <==> start <= port <= end)
                } else {
                    port_matcher_of(s) == Err::<PortMatcherView, RuleErrorView>(
                        RuleErrorView::InvertedPortRange(s),
                    )
                },
                (Err(e), _) => port_matcher_of(s) == Err::<PortMatcherView, RuleErrorView>(
                    RuleErrorView::InvalidNumber(e),
                ),
                (Ok(_), Err(e)) => port_matcher_of(s) == Err::<PortMatcherView, RuleErrorView>(
                    RuleErrorView::InvalidNumber(e),
                ),
            }
        }),
{
    let s = a.push('-') + b;
    separator_separates(a, '-', b);
    unseparated_text_is_one_piece(a, '-');
    unseparated_text_is_one_piece(b, '-');
    assert(split_at_char(s, '-') =~= seq![a, b]);
    assert(s[a.len() as int] == '-');
    assert(s.contains('-'));
    reveal_strlit("any");
    assert(!"any"@.contains('-'));
    if let Ok(n) = parse_uint(a, 65535) {
        number_accepted_iff(a, 65535, n);
    }
    if let Ok(n) = parse_uint(b, 65535) {
        number_accepted_iff(b, 65535, n);
    }
}

/// A port condition with more than one dash is no condition.
pub proof fn more_dashes_are_no_range(a: Seq<char>, b: Seq<char>, c: Seq<char>)
    ensures
        port_matcher_of(a.push('-') + (b.push('-') + c)) == Err::<PortMatcherView, RuleErrorView>(
            RuleErrorView::InvalidPortRange(a.push('-') + (b.push('-') + c)),
        ),
{
    let s = a.push('-') + (b.push('-') + c);
    separator_separates(a, '-', b.push('-') + c);
    separator_separates(b, '-', c);
    lemma_split_not_empty(a, '-');
    lemma_split_not_empty(b, '-');
    lemma_split_not_empty(c, '-');
    assert(s[a.len() as int] == '-');
    assert(s.contains('-'));
    reveal_strlit("any");
    assert(!"any"@.contains('-'));
}

/// A single address condition: `any` holds of every address, an address in
/// dotted notation of that address alone, and anything else is no condition.
pub proof fn single_address_conditions(s: Seq<char>, ip: Ipv4Addr)
    requires
        !s.contains('/'),
    ensures
        match ip_matcher_of(s) {
            Ok(m) => if s == "any"@ {
                m.admits(ip)
            } else {
                parse_addr(s) is Some && (m.admits(ip) <==> parse_addr(s) == Some(ip))
            },
            Err(e) => s != "any"@ && parse_addr(s) is None && e == RuleErrorView::InvalidAddress,
        },
{
}

/// A network: `ADDRESS/LENGTH` holds of the addresses that, as numbers, agree
/// with its address in that many leading bits of 32; the address must be in
/// dotted notation, and the length a number of at most 32.
pub proof fn network_conditions(a: Seq<char>, b: Seq<char>, ip: Ipv4Addr)
    requires
        !a.contains('/'),
        !b.contains('/'),
    ensures
        ({
            let s = a.push('/') + b;
            match (parse_addr(a), parse_uint(b, 0xffff_ffff)) {
                (None, _) => ip_matcher_of(s) == Err::<IpMatcher, RuleErrorView>(
                    RuleErrorView::InvalidAddress,
                ),
                (Some(_), Err(e)) => ip_matcher_of(s) == Err::<IpMatcher, RuleErrorView>(
                    RuleErrorView::InvalidNumber(e),
                ),
                (Some(net), Ok(len)) => if len > 32 {
                    ip_matcher_of(s) == Err::<IpMatcher, RuleErrorView>(
                        RuleErrorView::PrefixTooLong(len as u32),
                    )
                } else {
                    let there = ((ip.a * 256 + ip.b) * 256 + ip.c) * 256 + ip.d;
                    let here = ((net.a * 256 + net.b) * 256 + net.c) * 256 + net.d;
                    let block = pow2((32 - len) as nat) as int;
                    ip_matcher_of(s) matches Ok(m) && (m.admits(ip) <==> there / block == here
                        / block)
                },
            }
        }),
{
    let s = a.push('/') + b;
    separator_separates(a, '/', b);
    unseparated_text_is_one_piece(a, '/');
    unseparated_text_is_one_piece(b, '/');
    assert(split_at_char(s, '/') =~= seq![a, b]);
    assert(s[a.len() as int] == '/');
    assert(s.contains('/'));
    reveal_strlit("any");
    assert(!"any"@.contains('/'));
    if let Ok(len) = parse_uint(b, 0xffff_ffff) {
        number_accepted_iff(b, 0xffff_ffff, len);
        if len <= 32 && parse_addr(a) is Some {
            let net = parse_addr(a)->0;
            network_holds_addresses_with_its_prefix(net, len as u32, ip);
            address_is_a_number(ip);
            address_is_a_number(net);
            if len == 0 {
                lemma2_to64();
                assert(pow2(32) == 0x1_0000_0000);
                assert(ip.bits() as int / 0x1_0000_0000 == 0);
                assert(net.bits() as int / 0x1_0000_0000 == 0);
            } else {
                lemma_u32_shr_is_div(ip.bits(), (32 - len) as u32);
                lemma_u32_shr_is_div(net.bits(), (32 - len) as u32);
            }
        }
    }
}

/// A network with more than one slash is no condition.
pub proof fn more_slashes_are_no_network(a: Seq<char>, b: Seq<char>, c: Seq<char>)
    ensures
        ip_matcher_of(a.push('/') + (b.push('/') + c)) == Err::<IpMatcher, RuleErrorView>(
            RuleErrorView::InvalidCidr(a.push('/') + (b.push('/') + c)),
        ),
{
    let s = a.push('/') + (b.push('/') + c);
    separator_separates(a, '/', b.push('/') + c);
    separator_separates(b, '/', c);
    lemma_split_not_empty(a, '/');
    lemma_split_not_empty(b, '/');
    lemma_split_not_empty(c, '/');
    assert(s[a.len() as int] == '/');
    assert(s.contains('/'));
    reveal_strlit("any");
    assert(!"any"@.contains('/'));
}

/// A source `IP:PORT` has the address condition that `IP` denotes and the port
/// condition that `PORT` denotes; the address is looked at first.
pub proof fn sources_are_an_address_and_a_port(ip: Seq<char>, port: Seq<char>)
    requires
        !ip.contains(':'),
        !port.contains(':'),
    ensures
        match addr_port_of(ip.push(':') + port) {
            Ok((m, p)) => ip_matcher_of(ip) == Ok::<IpMatcher, RuleErrorView>(m)
                && port_matcher_of(port) == Ok::<PortMatcherView, RuleErrorView>(p),
            Err(e) => ip_matcher_of(ip) == Err::<IpMatcher, RuleErrorView>(e) || (ip_matcher_of(
                ip,
            ) is Ok && port_matcher_of(port) == Err::<PortMatcherView, RuleErrorView>(e)),
        },
{
    separator_separates(ip, ':', port);
    unseparated_text_is_one_piece(ip, ':');
    unseparated_text_is_one_piece(port, ':');
    assert(split_at_char(ip.push(':') + port, ':') =~= seq![ip, port]);
}

/// A destination `IP:PORT` has the port condition that `PORT` denotes, whatever
/// `IP` is. `directed` stands for the subnets' broadcast addresses,
/// 255.255.255.255 for the limited one, and everything else for the address
/// condition that it denotes; the port is looked at first.
pub proof fn destinations_are_an_address_and_a_port(ip: Seq<char>, port: Seq<char>)
    requires
        !ip.contains(':'),
        !port.contains(':'),
    ensures
        match dest_addr_port_of(ip.push(':') + port) {
            Ok((m, p, kind)) => {
                &&& port_matcher_of(port) == Ok::<PortMatcherView, RuleErrorView>(p)
                &&& if ip == "directed"@ {
                    m == IpMatcher::Any && kind == BroadcastType::Directed
                } else if ip == "255.255.255.255"@ {
                    m == IpMatcher::Exact(Ipv4Addr { a: 255, b: 255, c: 255, d: 255 }) && kind
                        == BroadcastType::Limited
                } else {
                    ip_matcher_of(ip) == Ok::<IpMatcher, RuleErrorView>(m) && kind
                        == BroadcastType::Any
                }
            },
            Err(e) => port_matcher_of(port) == Err::<PortMatcherView, RuleErrorView>(e) || (
            port_matcher_of(port) is Ok && ip != "directed"@ && ip != "255.255.255.255"@
                && ip_matcher_of(ip) == Err::<IpMatcher, RuleErrorView>(e)),
        },
{
    separator_separates(ip, ':', port);
    unseparated_text_is_one_piece(ip, ':');
    unseparated_text_is_one_piece(port, ':');
    assert(split_at_char(ip.push(':') + port, ':') =~= seq![ip, port]);
    reveal_strlit("directed");
    reveal_strlit("255.255.255.255");
    assert("directed"@.len() != "255.255.255.255"@.len());
}

/// A source or destination with more than one colon is none.
pub proof fn more_colons_are_no_address(a: Seq<char>, b: Seq<char>, c: Seq<char>)
    ensures
        addr_port_of(a.push(':') + (b.push(':') + c)) == Err::<
            (IpMatcher, PortMatcherView),
            RuleErrorView,
        >(RuleErrorView::AddrPortFormat(a.push(':') + (b.push(':') + c))),
        dest_addr_port_of(a.push(':') + (b.push(':') + c)) == Err::<
            (IpMatcher, PortMatcherView, BroadcastType),
            RuleErrorView,
        >(RuleErrorView::AddrPortFormat(a.push(':') + (b.push(':') + c))),
{
    separator_separates(a, ':', b.push(':') + c);
    separator_separates(b, ':', c);
    lemma_split_not_empty(a, ':');
    lemma_split_not_empty(b, ':');
    lemma_split_not_empty(c, ':');
}

/// Each word of a line that is a rule says what the rule says there.
pub proof fn rules_say_what_their_words_say(line: Seq<char>)
    requires
        rule_of(line) is Ok,
    ensures
        ({
            let parts = words(line);
            let rule = rule_of(line)->Ok_0;
            &&& rule.action == Action::Allow <==> parts[0] == "allow"@
            &&& rule.action == Action::Deny <==> parts[0] == "deny"@
            &&& rule.protocol == Protocol::Udp <==> parts[1] == "udp"@
            &&& rule.protocol == Protocol::Any <==> parts[1] == "any"@
            &&& addr_port_of(parts[2]) == Ok::<(IpMatcher, PortMatcherView), RuleErrorView>(
                (rule.src_ip, rule.src_port),
            )
            &&& dest_addr_port_of(parts[3]) == Ok::<
                (IpMatcher, PortMatcherView, BroadcastType),
                RuleErrorView,
            >((rule.dst_ip, rule.dst_port, rule.broadcast_type))
        }),
{
    reveal_strlit("allow");
    reveal_strlit("deny");
    reveal_strlit("udp");
    reveal_strlit("any");
    assert("allow"@.len() != "deny"@.len());
    assert("udp"@[0] != "any"@[0]);
}

/// A packet satisfies a rule only if its destination port lies in what stands
/// behind the colon of the rule's destination, whatever stands before it, and
/// likewise its source port.
pub proof fn ports_of_rules_bind(
    line: Seq<char>,
    src: Seq<char>,
    src_port: Seq<char>,
    dst: Seq<char>,
    dst_port: Seq<char>,
    pkt: PacketInfo,
)
    requires
        rule_of(line) is Ok,
        words(line)[2] == src.push(':') + src_port,
        words(line)[3] == dst.push(':') + dst_port,
        !src.contains(':'),
        !src_port.contains(':'),
        !dst.contains(':'),
        !dst_port.contains(':'),
        rule_of(line)->Ok_0.admits(pkt),
    ensures
        port_matcher_of(src_port) matches Ok(m) && m.admits(pkt.src_port),
        port_matcher_of(dst_port) matches Ok(m) && m.admits(pkt.dst_port),
{
    rules_say_what_their_words_say(line);
    sources_are_an_address_and_a_port(src, src_port);
    destinations_are_an_address_and_a_port(dst, dst_port);
}

/// A line is a rule exactly when it has four words that are an action, a
/// protocol, a source and a destination, only options follow, and none follows
/// on `deny`.
pub proof fn rules_are_accepted_iff_all_words_are_good(line: Seq<char>)
    ensures
        rule_of(line) is Ok <==> {
            let parts = words(line);
            &&& parts.len() >= 4
            &&& parts[0] == "allow"@ || (parts[0] == "deny"@ && parts.len() == 4)
            &&& parts[1] == "udp"@ || parts[1] == "any"@
            &&& addr_port_of(parts[2]) is Ok
            &&& dest_addr_port_of(parts[3]) is Ok
            &&& forall|i: int| 4 <= i < parts.len() ==> is_option(#[trigger] parts[i])
        },
{
    reveal_strlit("allow");
    reveal_strlit("deny");
    assert("allow"@.len() != "deny"@.len());
    let parts = words(line);
    if rule_of(line) is Ok {
        accepted_rules_are_fully_understood(line);
    }
    if parts.len() >= 4 && (forall|i: int| 4 <= i < parts.len() ==> is_option(#[trigger] parts[i])) {
        let opts = parts.skip(4);
        assert forall|i: int| 0 <= i < opts.len() implies is_option(#[trigger] opts[i]) by {
            assert(opts[i] == parts[i + 4]);
        }
        lemma_options_accepted(opts);
    }
}

/// A list of options is accepted.
proof fn lemma_options_accepted(parts: Seq<Seq<char>>)
    requires
        forall|i: int| 0 <= i < parts.len() ==> is_option(#[trigger] parts[i]),
    ensures
        options_of(parts) is Ok,
    decreases parts.len(),
{
    if parts.len() > 0 {
        let front = parts.drop_last();
        assert forall|i: int| 0 <= i < front.len() implies is_option(#[trigger] front[i]) by {
            assert(front[i] == parts[i]);
        }
        lemma_options_accepted(front);
        assert(is_option(parts[parts.len() - 1]));
        lemma_option_keywords(parts.last());
    }
}

/// No word starts with two of the option keywords.
proof fn lemma_option_keywords(s: Seq<char>)
    ensures
        after_prefix(s, "snat="@) is Some ==> after_prefix(s, "dnat="@) is None && after_prefix(
            s,
            "sport="@,
        ) is None && after_prefix(s, "dport="@) is None,
        after_prefix(s, "dnat="@) is Some ==> after_prefix(s, "sport="@) is None && after_prefix(
            s,
            "dport="@,
        ) is None,
        after_prefix(s, "sport="@) is Some ==> after_prefix(s, "dport="@) is None,
{
    reveal_strlit("snat=");
    reveal_strlit("dnat=");
    reveal_strlit("sport=");
    reveal_strlit("dport=");
    if "snat="@.is_prefix_of(s) {
        assert(s[0] == "snat="@[0] && s[1] == "snat="@[1]);
    }
    if "dnat="@.is_prefix_of(s) {
        assert(s[0] == "dnat="@[0] && s[1] == "dnat="@[1]);
    }
    if "sport="@.is_prefix_of(s) {
        assert(s[0] == "sport="@[0] && s[1] == "sport="@[1]);
    }
    if "dport="@.is_prefix_of(s) {
        assert(s[0] == "dport="@[0] && s[1] == "dport="@[1]);
    }
}

/// What one more option does: `snat=` and `dnat=` set the address that is
/// written behind them, `sport=` and `dport=` the port, and each of them leaves
/// the other three alone.
pub proof fn options_set_what_they_name(val: Seq<char>, opts: NatOptions)
    ensures
        match parse_addr(val) {
            Some(ip) => {
                &&& option_of("snat="@ + val, opts) == Ok::<NatOptions, RuleErrorView>(
                    NatOptions {
                        source_ip: Some(ip),
                        dest_ip: opts.dest_ip,
                        source_port: opts.source_port,
                        dest_port: opts.dest_port,
                    },
                )
                &&& option_of("dnat="@ + val, opts) == Ok::<NatOptions, RuleErrorView>(
                    NatOptions {
                        source_ip: opts.source_ip,
                        dest_ip: Some(ip),
                        source_port: opts.source_port,
                        dest_port: opts.dest_port,
                    },
                )
            },
            None => {
                &&& option_of("snat="@ + val, opts) == Err::<NatOptions, RuleErrorView>(
                    RuleErrorView::InvalidAddress,
                )
                &&& option_of("dnat="@ + val, opts) == Err::<NatOptions, RuleErrorView>(
                    RuleErrorView::InvalidAddress,
                )
            },
        },
        match parse_uint(val, 65535) {
            Ok(port) => {
                &&& option_of("sport="@ + val, opts) == Ok::<NatOptions, RuleErrorView>(
                    NatOptions {
                        source_ip: opts.source_ip,
                        dest_ip: opts.dest_ip,
                        source_port: Some(port as u16),
                        dest_port: opts.dest_port,
                    },
                )
                &&& option_of("dport="@ + val, opts) == Ok::<NatOptions, RuleErrorView>(
                    NatOptions {
                        source_ip: opts.source_ip,
                        dest_ip: opts.dest_ip,
                        source_port: opts.source_port,
                        dest_port: Some(port as u16),
                    },
                )
            },
            Err(e) => {
                &&& option_of("sport="@ + val, opts) == Err::<NatOptions, RuleErrorView>(
                    RuleErrorView::InvalidNumber(e),
                )
                &&& option_of("dport="@ + val, opts) == Err::<NatOptions, RuleErrorView>(
                    RuleErrorView::InvalidNumber(e),
                )
            },
        },
{
    prefix_and_rest_make_the_text("snat="@ + val, "snat="@, val);
    prefix_and_rest_make_the_text("dnat="@ + val, "dnat="@, val);
    prefix_and_rest_make_the_text("sport="@ + val, "sport="@, val);
    prefix_and_rest_make_the_text("dport="@ + val, "dport="@, val);
    lemma_option_keywords("snat="@ + val);
    lemma_option_keywords("dnat="@ + val);
    lemma_option_keywords("sport="@ + val);
    lemma_option_keywords("dport="@ + val);
}

/// A word that starts with none of the four keywords is no option.
pub proof fn other_words_are_no_options(s: Seq<char>, opts: NatOptions)
    requires
        forall|val: Seq<char>|
            s != #[trigger] ("snat="@ + val) && s != "dnat="@ + val && s != "sport="@ + val && s
                != "dport="@ + val,
    ensures
        option_of(s, opts) == Err::<NatOptions, RuleErrorView>(RuleErrorView::UnknownOption(s)),
{
    if let Some(val) = after_prefix(s, "snat="@) {
        prefix_and_rest_make_the_text(s, "snat="@, val);
        assert(s == "snat="@ + val);
    }
    if let Some(val) = after_prefix(s, "dnat="@) {
        prefix_and_rest_make_the_text(s, "dnat="@, val);
        assert("snat="@ + val != s);
    }
    if let Some(val) = after_prefix(s, "sport="@) {
        prefix_and_rest_make_the_text(s, "sport="@, val);
        assert("snat="@ + val != s);
    }
    if let Some(val) = after_prefix(s, "dport="@) {
        prefix_and_rest_make_the_text(s, "dport="@, val);
        assert("snat="@ + val != s);
    }
}

/// Options take effect one after the other, starting from no rewriting, and the
/// first one that is wrong is the error.
pub proof fn options_take_effect_in_order(parts: Seq<Seq<char>>, s: Seq<char>)
    ensures
        options_of(Seq::<Seq<char>>::empty()) == Ok::<NatOptions, RuleErrorView>(
            NatOptions { source_ip: None, dest_ip: None, source_port: None, dest_port: None },
        ),
        options_of(parts.push(s)) == match options_of(parts) {
            Ok(opts) => option_of(s, opts),
            Err(e) => Err(e),
        },
{
    assert(parts.push(s).drop_last() =~= parts);
}

/// The NAT options of a rule are those that its words behind the fourth spell.
pub proof fn rules_have_their_options(line: Seq<char>)
    requires
        rule_of(line) is Ok,
    ensures
        options_of(words(line).skip(4)) == Ok::<NatOptions, RuleErrorView>(
            rule_of(line)->Ok_0.nat,
        ),
{
}

/// The error for a line is that of its first bad word.
pub proof fn rule_errors_name_the_first_bad_word(line: Seq<char>)
    requires
        rule_of(line) is Err,
    ensures
        ({
            let parts = words(line);
            let e = rule_of(line)->Err_0;
            if parts.len() < 4 {
                e == RuleErrorView::Format
            } else if parts[0] != "allow"@ && parts[0] != "deny"@ {
                e == RuleErrorView::InvalidAction(parts[0])
            } else if parts[1] == "tcp"@ {
                e == RuleErrorView::TcpNotSupported
            } else if parts[1] != "udp"@ && parts[1] != "any"@ {
                e == RuleErrorView::InvalidProtocol(parts[1])
            } else if addr_port_of(parts[2]) is Err {
                e == addr_port_of(parts[2])->Err_0
            } else if dest_addr_port_of(parts[3]) is Err {
                e == dest_addr_port_of(parts[3])->Err_0
            } else if options_of(parts.skip(4)) is Err {
                e == options_of(parts.skip(4))->Err_0
            } else {
                e == RuleErrorView::NatOnDeny && parts[0] == "deny"@ && parts.len() > 4
            }
        }),
{
    reveal_strlit("tcp");
    reveal_strlit("udp");
    reveal_strlit("any");
    reveal_strlit("allow");
    reveal_strlit("deny");
    assert("tcp"@[0] != "udp"@[0] && "tcp"@[0] != "any"@[0]);
    assert("allow"@.len() != "deny"@.len());
}

/// A line is a comment exactly when the first character that is not whitespace
/// is `#`.
pub proof fn comments_start_with_a_hash(before: Seq<char>, rest: Seq<char>)
    requires
        forall|i: int| 0 <= i < before.len() ==> is_space(#[trigger] before[i]),
        rest.len() > 0,
        !is_space(rest[0]),
    ensures
        is_skipped(trimmed(before + rest)) <==> rest[0] == '#',
{
    lemma_trim_start(before, rest);
    lemma_first_char_stays(rest);
}

/// A line of whitespace alone is skipped.
pub proof fn blank_lines_are_skipped(line: Seq<char>)
    requires
        forall|i: int| 0 <= i < line.len() ==> is_space(#[trigger] line[i]),
    ensures
        is_skipped(trimmed(line)),
{
    let empty = Seq::<char>::empty();
    trimming_strips_surrounding_whitespace(line, empty, empty);
    assert(line + empty + empty =~= line);
}

/// Taking away trailing whitespace leaves a first character that is none.
proof fn lemma_first_char_stays(s: Seq<char>)
    requires
        s.len() > 0,
        !is_space(s[0]),
    ensures
        trim_end(s).len() > 0,
        trim_end(s)[0] == s[0],
    decreases s.len(),
{
    if is_space(s.last()) {
        lemma_first_char_stays(s.drop_last());
    }
}

} // verus!
