use bcr::addr::Ipv4Addr;
use bcr::config::{
    Action, BroadcastType, Config, IpMatcher, NatOptions, PacketInfo, PortMatcher, Protocol, Rule,
};
use bcr::filter::Filter;
use bcr::number::IntError;
use bcr::syntax::{
    parse_addr_port, parse_dest_addr_port, parse_ip_matcher, parse_port_matcher, parse_rule,
    RuleError,
};

fn chars(s: &str) -> Vec<char> {
    s.chars().collect()
}

fn error_of(content: &str) -> String {
    Config::parse(content).err().expect("should be rejected").to_string()
}

fn packet(src: [u8; 4], src_port: u16, dst: [u8; 4], dst_port: u16) -> PacketInfo {
    PacketInfo {
        protocol: Protocol::Udp,
        src_ip: Ipv4Addr::new(src[0], src[1], src[2], src[3]),
        dst_ip: Ipv4Addr::new(dst[0], dst[1], dst[2], dst[3]),
        src_port,
        dst_port,
    }
}

#[test]
fn test_parse_simple_allow_rule() {
    let config = Config::parse("allow udp any:137-139 255.255.255.255:137-139").unwrap();
    assert_eq!(config.rules.len(), 1);
    assert!(matches!(config.rules[0].action, Action::Allow));
    assert!(matches!(config.rules[0].protocol, Protocol::Udp));
}

#[test]
fn test_tcp_protocol_rejected() {
    // TCP has no broadcast semantics and is intentionally unsupported;
    // a config using it must fail to parse rather than silently relay.
    let result = Config::parse("allow tcp any:80 255.255.255.255:80");
    let err = result.err().expect("tcp rule should be rejected");
    assert!(err.to_string().contains("TCP is not supported"));
}

#[test]
fn test_parse_with_nat() {
    let config =
        Config::parse("allow udp 192.168.1.0/24:1900 255.255.255.255:1900 snat=10.0.0.1").unwrap();
    assert_eq!(config.rules.len(), 1);
    assert_eq!(config.rules[0].nat.source_ip, Some(Ipv4Addr::new(10, 0, 0, 1)));
}

#[test]
fn test_ip_matcher_cidr() {
    let matcher = IpMatcher::Cidr {
        addr: u32::from_be_bytes([192, 168, 1, 0]),
        mask: !0u32 << 8, // /24
    };
    assert!(matcher.matches(Ipv4Addr::new(192, 168, 1, 100)));
    assert!(!matcher.matches(Ipv4Addr::new(192, 168, 2, 100)));
}

#[test]
fn test_port_matcher_range() {
    let matcher = PortMatcher::Range(137..=139);
    assert!(matcher.matches(138));
    assert!(!matcher.matches(140));
}

#[test]
fn port_range_holds_both_ends() {
    let matcher = PortMatcher::Range(137..=139);
    assert!(matcher.matches(137));
    assert!(matcher.matches(139));
    assert!(!matcher.matches(136));
    assert!(matcher.clone().matches(139));
    assert!(!matcher.clone().matches(140));
}

#[test]
fn used_up_range_lacks_its_last_port() {
    let mut range = 7..=7u16;
    assert_eq!(range.next(), Some(7));
    let matcher = PortMatcher::Range(range);
    assert!(!matcher.matches(7));
    assert!(!matcher.clone().matches(7));
}

#[test]
fn port_conditions() {
    assert!(matches!(parse_port_matcher(&chars("any")), Ok(PortMatcher::Any)));
    assert!(matches!(parse_port_matcher(&chars("0")), Ok(PortMatcher::Exact(0))));
    assert!(matches!(parse_port_matcher(&chars("+65535")), Ok(PortMatcher::Exact(65535))));
    match parse_port_matcher(&chars("67-68")) {
        Ok(PortMatcher::Range(r)) => assert_eq!((*r.start(), *r.end()), (67, 68)),
        _ => panic!("range expected"),
    }
    match parse_port_matcher(&chars("5-5")) {
        Ok(PortMatcher::Range(r)) => assert_eq!((*r.start(), *r.end()), (5, 5)),
        _ => panic!("range expected"),
    }
    assert!(matches!(
        parse_port_matcher(&chars("65536")),
        Err(RuleError::InvalidNumber(IntError::PosOverflow))
    ));
    assert!(matches!(
        parse_port_matcher(&chars("")),
        Err(RuleError::InvalidNumber(IntError::Empty))
    ));
    assert!(matches!(
        parse_port_matcher(&chars("http")),
        Err(RuleError::InvalidNumber(IntError::InvalidDigit))
    ));
    assert!(matches!(
        parse_port_matcher(&chars("-5")),
        Err(RuleError::InvalidNumber(IntError::Empty))
    ));
    match parse_port_matcher(&chars("1-2-3")) {
        Err(RuleError::InvalidPortRange(s)) => assert_eq!(s, "1-2-3"),
        _ => panic!("three-part range accepted"),
    }
    match parse_port_matcher(&chars("139-137")) {
        Err(RuleError::InvertedPortRange(s)) => assert_eq!(s, "139-137"),
        _ => panic!("inverted range accepted"),
    }
}

#[test]
fn address_conditions() {
    assert!(matches!(parse_ip_matcher(&chars("any")), Ok(IpMatcher::Any)));
    assert_eq!(
        parse_ip_matcher(&chars("10.1.2.3")).unwrap(),
        IpMatcher::Exact(Ipv4Addr::new(10, 1, 2, 3))
    );
    assert_eq!(
        parse_ip_matcher(&chars("192.168.1.77/24")).unwrap(),
        IpMatcher::Cidr { addr: 0xc0a80100, mask: 0xffffff00 }
    );
    assert_eq!(
        parse_ip_matcher(&chars("10.1.2.3/32")).unwrap(),
        IpMatcher::Cidr { addr: 0x0a010203, mask: 0xffffffff }
    );
    assert_eq!(
        parse_ip_matcher(&chars("10.1.2.3/0")).unwrap(),
        IpMatcher::Cidr { addr: 0, mask: 0 }
    );
    assert!(matches!(
        parse_ip_matcher(&chars("10.1.2.3/33")),
        Err(RuleError::PrefixTooLong(33))
    ));
    assert!(matches!(parse_ip_matcher(&chars("10.1.2")), Err(RuleError::InvalidAddress)));
    assert!(matches!(parse_ip_matcher(&chars("10.1.2.256/8")), Err(RuleError::InvalidAddress)));
    assert!(matches!(
        parse_ip_matcher(&chars("10.1.2.3/")),
        Err(RuleError::InvalidNumber(IntError::Empty))
    ));
    assert!(matches!(
        parse_ip_matcher(&chars("10.1.2.3/4294967296")),
        Err(RuleError::InvalidNumber(IntError::PosOverflow))
    ));
    match parse_ip_matcher(&chars("10.0.0.0/8/8")) {
        Err(RuleError::InvalidCidr(s)) => assert_eq!(s, "10.0.0.0/8/8"),
        _ => panic!("two slashes accepted"),
    }
}

#[test]
fn network_matches_its_prefix_only() {
    let odd = parse_ip_matcher(&chars("10.128.0.0/9")).unwrap();
    assert!(odd.matches(Ipv4Addr::new(10, 128, 0, 1)));
    assert!(odd.matches(Ipv4Addr::new(10, 255, 255, 255)));
    assert!(!odd.matches(Ipv4Addr::new(10, 127, 255, 255)));
    let everything = parse_ip_matcher(&chars("1.2.3.4/0")).unwrap();
    assert!(everything.matches(Ipv4Addr::new(200, 0, 0, 1)));
    let one = parse_ip_matcher(&chars("1.2.3.4/32")).unwrap();
    assert!(one.matches(Ipv4Addr::new(1, 2, 3, 4)));
    assert!(!one.matches(Ipv4Addr::new(1, 2, 3, 5)));
}

#[test]
fn port_may_be_left_out() {
    let (ip, port) = parse_addr_port(&chars("10.0.0.1")).unwrap();
    assert_eq!(ip, IpMatcher::Exact(Ipv4Addr::new(10, 0, 0, 1)));
    assert!(matches!(port, PortMatcher::Any));
    let (ip, port, kind) = parse_dest_addr_port(&chars("directed")).unwrap();
    assert_eq!(ip, IpMatcher::Any);
    assert!(matches!(port, PortMatcher::Any));
    assert_eq!(kind, BroadcastType::Directed);
    assert!(matches!(parse_addr_port(&chars("1.2.3.4:5:6")), Err(RuleError::AddrPortFormat(_))));
    assert!(matches!(
        parse_dest_addr_port(&chars("1.2.3.4:5:6")),
        Err(RuleError::AddrPortFormat(_))
    ));
}

#[test]
fn destination_keywords() {
    let (ip, _, kind) = parse_dest_addr_port(&chars("255.255.255.255:9")).unwrap();
    assert_eq!(ip, IpMatcher::Exact(Ipv4Addr::new(255, 255, 255, 255)));
    assert_eq!(kind, BroadcastType::Limited);
    let (ip, _, kind) = parse_dest_addr_port(&chars("any:9")).unwrap();
    assert_eq!((ip, kind), (IpMatcher::Any, BroadcastType::Any));
    let (ip, _, kind) = parse_dest_addr_port(&chars("224.0.0.251:5353")).unwrap();
    assert_eq!(ip, IpMatcher::Exact(Ipv4Addr::new(224, 0, 0, 251)));
    assert_eq!(kind, BroadcastType::Any);
    // The port is looked at first, as in the order of the error messages.
    assert!(matches!(
        parse_dest_addr_port(&chars("nowhere:x")),
        Err(RuleError::InvalidNumber(IntError::InvalidDigit))
    ));
    assert!(matches!(parse_dest_addr_port(&chars("nowhere:9")), Err(RuleError::InvalidAddress)));
}

#[test]
fn all_nat_options() {
    let rule = parse_rule(&chars(
        "allow any any any snat=1.2.3.4 dnat=5.6.7.8 sport=9 dport=10 sport=11",
    ))
    .unwrap();
    assert_eq!(
        rule.nat,
        NatOptions {
            source_ip: Some(Ipv4Addr::new(1, 2, 3, 4)),
            dest_ip: Some(Ipv4Addr::new(5, 6, 7, 8)),
            source_port: Some(11),
            dest_port: Some(10),
        }
    );
    assert_eq!(rule.protocol, Protocol::Any);
    let plain = parse_rule(&chars("deny udp any any")).unwrap();
    assert_eq!(plain.nat, NatOptions::default());
    assert_eq!(plain.action, Action::Deny);
}

#[test]
fn every_parse_error_has_its_message() {
    let at = |what: &str| format!("Config parse error at line 1: {}", what);
    assert_eq!(
        error_of("allow udp any:1"),
        at("Invalid rule format, expected: ACTION PROTO SRC DST [NAT...]")
    );
    assert_eq!(error_of("permit udp any any"), at("Invalid action: permit"));
    assert_eq!(
        error_of("allow tcp any any"),
        at("TCP is not supported: TCP has no broadcast/multicast semantics and is not relayed")
    );
    assert_eq!(error_of("allow icmp any any"), at("Invalid protocol: icmp"));
    assert_eq!(error_of("allow udp any:1:2 any"), at("Invalid address:port format: any:1:2"));
    assert_eq!(error_of("allow udp 1.2.3 any"), at("invalid IPv4 address syntax"));
    assert_eq!(error_of("allow udp any: any"), at("cannot parse integer from empty string"));
    assert_eq!(error_of("allow udp any:x any"), at("invalid digit found in string"));
    assert_eq!(
        error_of("allow udp any:99999 any"),
        at("number too large to fit in target type")
    );
    assert_eq!(error_of("allow udp 1.2.3.4/5/6 any"), at("Invalid CIDR: 1.2.3.4/5/6"));
    assert_eq!(error_of("allow udp 1.2.3.4/64 any"), at("Invalid CIDR prefix length: 64"));
    assert_eq!(error_of("allow udp any:1-2-3 any"), at("Invalid port range: 1-2-3"));
    assert_eq!(error_of("allow udp any:9-8 any"), at("Inverted port range: 9-8"));
    assert_eq!(error_of("allow udp any any snnat=1.2.3.4"), at("Unknown option: snnat=1.2.3.4"));
    assert_eq!(
        error_of("deny udp any any snat=1.2.3.4"),
        at("NAT options have no effect on a deny rule")
    );
    assert_eq!(error_of("allow udp any any snat=1.2.3"), at("invalid IPv4 address syntax"));
    assert_eq!(error_of("allow udp any any dnat="), at("invalid IPv4 address syntax"));
    assert_eq!(error_of("allow udp any any sport=-1"), at("invalid digit found in string"));
    assert_eq!(
        error_of("allow udp any any dport=65536"),
        at("number too large to fit in target type")
    );
}

#[test]
fn rule_error_text_stands_alone() {
    let err = parse_rule(&chars("drop udp any any")).err().unwrap();
    assert_eq!(err.to_string(), "Invalid action: drop");
}

#[test]
fn error_names_first_bad_line() {
    let content = "# header\n\nallow udp any any\n  oops\nalso bad";
    assert_eq!(
        error_of(content),
        "Config parse error at line 4: Invalid rule format, expected: ACTION PROTO SRC DST [NAT...]"
    );
    let err = Config::parse(content).err().unwrap();
    assert_eq!(err.line, 4);
}

#[test]
fn comments_blank_lines_and_line_ends_do_not_matter() {
    let config = Config::parse(
        "# comment\r\n\t\r\n  allow udp any:67-68 255.255.255.255:67-68 \r\n   # more\r\ndeny any any any\r\n",
    )
    .unwrap();
    assert_eq!(config.rules.len(), 2);
    assert_eq!(config.rules[0].action, Action::Allow);
    assert_eq!(config.rules[1].action, Action::Deny);
    assert_eq!(Config::parse("").unwrap().rules.len(), 0);
    assert_eq!(Config::parse("\n\n").unwrap().rules.len(), 0);
}

#[test]
fn rules_come_in_the_order_of_lines() {
    let config = Config::parse("allow udp any any sport=1\nallow udp any any sport=2").unwrap();
    assert_eq!(config.rules[0].nat.source_port, Some(1));
    assert_eq!(config.rules[1].nat.source_port, Some(2));
}

const SAMPLE: &str = "
# Allow NetBIOS name/datagram service (Windows discovery)
allow udp any:137-139 255.255.255.255:137-139

# Allow mDNS / Bonjour / Avahi (multicast)
allow udp any:5353 224.0.0.251:5353

# Relay directed broadcasts originating from one subnet
allow udp 10.0.0.0/24:any directed:any

# Relay SSDP while masquerading the source onto the relay's address
allow udp 192.168.1.0/24:1900 255.255.255.255:1900 snat=10.0.0.1
";

#[test]
fn sample_configuration() {
    let filter = Filter::new(Config::parse(SAMPLE).unwrap());
    assert!(filter.should_relay(&packet([10, 9, 9, 9], 137, [255, 255, 255, 255], 138)));
    assert!(!filter.should_relay(&packet([10, 9, 9, 9], 140, [255, 255, 255, 255], 138)));
    assert!(!filter.should_relay(&packet([10, 9, 9, 9], 137, [10, 9, 9, 255], 138)));
    assert!(filter.should_relay(&packet([1, 1, 1, 1], 5353, [224, 0, 0, 251], 5353)));
    assert!(!filter.should_relay(&packet([1, 1, 1, 1], 5353, [224, 0, 0, 252], 5353)));
    assert!(filter.should_relay(&packet([10, 0, 0, 7], 4, [192, 168, 1, 255], 5)));
    assert!(!filter.should_relay(&packet([10, 0, 1, 7], 4, [192, 168, 1, 255], 5)));
    assert!(!filter.should_relay(&packet([10, 0, 0, 7], 4, [255, 255, 255, 255], 5)));
    let ssdp = packet([192, 168, 1, 7], 1900, [255, 255, 255, 255], 1900);
    let rule = filter.get_nat_rule(&ssdp).unwrap();
    assert_eq!(rule.nat.source_ip, Some(Ipv4Addr::new(10, 0, 0, 1)));
    assert!(filter.get_nat_rule(&packet([1, 1, 1, 1], 1, [2, 2, 2, 255], 2)).is_none());
}

#[test]
fn first_matching_rule_decides() {
    let deny_first = Filter::new(Config::parse("deny udp any:9 any\nallow udp any any").unwrap());
    let p = packet([1, 1, 1, 1], 9, [2, 2, 2, 255], 7);
    assert!(!deny_first.should_relay(&p));
    assert!(deny_first.get_nat_rule(&p).is_none());
    let allow_first = Filter::new(Config::parse("allow udp any any\ndeny udp any:9 any").unwrap());
    assert!(allow_first.should_relay(&p));
    let config = Config::parse("allow udp any:1 any sport=1\nallow udp any any sport=2").unwrap();
    assert_eq!(config.find_match(&p).unwrap().nat.source_port, Some(2));
    assert_eq!(
        config.find_match(&packet([1, 1, 1, 1], 1, [2, 2, 2, 255], 7)).unwrap().nat.source_port,
        Some(1)
    );
}

#[test]
fn no_match_is_denied() {
    let p = packet([1, 1, 1, 1], 9, [2, 2, 2, 255], 7);
    assert!(!Filter::new(Config::parse("").unwrap()).should_relay(&p));
    assert!(!Filter::new(Config::parse("deny any any any").unwrap()).should_relay(&p));
    assert!(Config::parse("allow udp any:8 any").unwrap().find_match(&p).is_none());
}

#[test]
fn allow_all_allows_and_changes_nothing() {
    let config = Config::allow_all();
    assert_eq!(config.rules.len(), 1);
    assert_eq!(config.rules[0].nat, NatOptions::default());
    let filter = Filter::new(config);
    assert!(filter.should_relay(&packet([1, 1, 1, 1], 9, [2, 2, 2, 255], 7)));
    assert!(filter.should_relay(&packet([1, 1, 1, 1], 0, [239, 1, 1, 1], 65535)));
}

#[test]
fn rule_conditions_all_count() {
    let rule: Rule = parse_rule(&chars("allow udp 10.0.0.1:5 10.0.0.255:6")).unwrap();
    let p = packet([10, 0, 0, 1], 5, [10, 0, 0, 255], 6);
    assert!(rule.matches(&p));
    assert!(rule.clone().matches(&p));
    assert!(!rule.matches(&packet([10, 0, 0, 2], 5, [10, 0, 0, 255], 6)));
    assert!(!rule.matches(&packet([10, 0, 0, 1], 4, [10, 0, 0, 255], 6)));
    assert!(!rule.matches(&packet([10, 0, 0, 1], 5, [10, 0, 1, 255], 6)));
    assert!(!rule.matches(&packet([10, 0, 0, 1], 5, [10, 0, 0, 255], 7)));
    let any = PacketInfo { protocol: Protocol::Any, ..p };
    assert!(!rule.matches(&any));
}
