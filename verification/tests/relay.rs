use bcr::addr::Ipv4Addr;
use bcr::config::{Config, PacketInfo};
use bcr::filter::Filter;
use bcr::packet::is_already_relayed;
use bcr::ratelimit::RateLimiter;
use bcr::relay::{should_relay_to, Dispatch, Output, Relay, Verdict};
use bcr::socket::dest_mac;

const BCAST_A: Ipv4Addr = Ipv4Addr { a: 192, b: 168, c: 1, d: 255 };
const LIMITED: Ipv4Addr = Ipv4Addr { a: 255, b: 255, c: 255, d: 255 };
const MCAST: Ipv4Addr = Ipv4Addr { a: 224, b: 0, c: 0, d: 251 };

#[test]
fn never_echoes_back_to_ingress_interface() {
    // Even a limited broadcast must not be sent back out the ingress iface.
    assert!(!should_relay_to(LIMITED, "eth0", "eth0", BCAST_A));
    assert!(!should_relay_to(MCAST, "eth0", "eth0", BCAST_A));
    assert!(!should_relay_to(BCAST_A, "eth0", "eth0", BCAST_A));
}

#[test]
fn relays_broadcast_and_multicast_to_other_interfaces() {
    assert!(should_relay_to(LIMITED, "eth0", "eth1", BCAST_A));
    assert!(should_relay_to(MCAST, "eth0", "eth1", BCAST_A));
}

#[test]
fn directed_broadcast_only_to_matching_subnet() {
    // Goes to the interface whose subnet broadcast it matches...
    assert!(should_relay_to(BCAST_A, "eth0", "eth1", BCAST_A));
    // ...but not to an interface on a different subnet.
    assert!(!should_relay_to(BCAST_A, "eth0", "eth2", Ipv4Addr::new(10, 0, 0, 255)));
}

#[test]
fn bidirectional_config_does_not_loop() {
    // `-i eth0 -i eth1 -o eth0 -o eth1`: a packet from eth0 reaches eth1 only.
    assert!(!should_relay_to(LIMITED, "eth0", "eth0", BCAST_A));
    assert!(should_relay_to(LIMITED, "eth0", "eth1", BCAST_A));
}

/// A UDP packet from 192.168.1.50:1234 to port 5353 of `dst`.
fn udp_to(dst: Ipv4Addr) -> Vec<u8> {
    let mut buf = vec![0u8; 30];
    buf[0] = 0x45;
    buf[3] = 30;
    buf[8] = 64;
    buf[9] = 17;
    buf[12..16].copy_from_slice(&[192, 168, 1, 50]);
    buf[16..20].copy_from_slice(&dst.octets());
    buf[20..26].copy_from_slice(&[0x04, 0xd2, 0x14, 0xe9, 0, 10]);
    buf[28..].copy_from_slice(b"hi");
    buf
}

fn output(ifname: &str, broadcast_addrs: &[Ipv4Addr]) -> Output {
    Output { ifname: ifname.to_string(), broadcast_addrs: broadcast_addrs.to_vec() }
}

/// Three interfaces, the last one with two subnets.
fn relay(rules: &str) -> Relay {
    Relay {
        outputs: vec![
            output("eth0", &[BCAST_A]),
            output("eth1", &[Ipv4Addr::new(10, 0, 0, 255)]),
            output("eth2", &[Ipv4Addr::new(172, 16, 255, 255), Ipv4Addr::new(10, 9, 9, 255)]),
        ],
        filter: Filter::new(Config::parse(rules).unwrap()),
        rate_limiter: None,
        verbose: true,
    }
}

fn relayed(verdict: Verdict) -> (PacketInfo, Vec<Dispatch>) {
    match verdict {
        Verdict::Relayed(info, list) => (info, list),
        other => panic!("not relayed: {:?}", other),
    }
}

fn destinations(list: &[Dispatch]) -> Vec<(usize, Vec<u8>)> {
    list.iter().map(|d| (d.output, d.frame.as_ref().unwrap()[16..20].to_vec())).collect()
}

#[test]
fn limited_broadcast_goes_to_every_other_interface() {
    let mut relay = relay("allow udp any any");
    let (info, list) = relayed(relay.receive("eth0", &udp_to(LIMITED)));
    assert_eq!(info.dst_ip, LIMITED);
    assert_eq!(destinations(&list), [
        (1, vec![10, 0, 0, 255]),
        (2, vec![172, 16, 255, 255])
    ]);
}

#[test]
fn multicast_keeps_its_group() {
    let mut relay = relay("allow udp any any");
    let (_, list) = relayed(relay.receive("eth1", &udp_to(MCAST)));
    assert_eq!(destinations(&list), [
        (0, vec![224, 0, 0, 251]),
        (2, vec![224, 0, 0, 251])
    ]);
    let frame = list[0].frame.as_ref().unwrap();
    assert_eq!(dest_mac(frame), [0x01, 0x00, 0x5e, 0x00, 0x00, 0xfb, 0, 0]);
}

#[test]
fn directed_broadcast_reaches_each_subnet_of_an_interface() {
    let mut relay = relay("allow udp any any");
    let (_, list) = relayed(relay.receive("eth0", &udp_to(Ipv4Addr::new(10, 9, 9, 255))));
    assert_eq!(destinations(&list), [(2, vec![10, 9, 9, 255])]);
    let frame = list[0].frame.as_ref().unwrap();
    assert_eq!(dest_mac(frame), [0xff, 0xff, 0xff, 0xff, 0xff, 0xff, 0, 0]);
    // Its own subnet is where it came from; no other interface has it.
    let (_, list) = relayed(relay.receive("eth0", &udp_to(BCAST_A)));
    assert!(list.is_empty());
}

#[test]
fn output_without_addresses_gets_nothing() {
    assert_eq!(output("eth1", &[]).target(LIMITED, "eth0"), None);
    assert_eq!(output("eth1", &[BCAST_A]).target(LIMITED, "eth0"), Some(BCAST_A));
    assert_eq!(output("eth0", &[BCAST_A]).target(LIMITED, "eth0"), None);
}

#[test]
fn nat_options_of_the_matching_rule_apply() {
    let mut relay = relay("allow udp any:1 any sport=1\nallow udp any any snat=1.2.3.4 dport=99");
    let (_, list) = relayed(relay.receive("eth0", &udp_to(LIMITED)));
    let frame = list[0].frame.as_ref().unwrap();
    assert_eq!(frame[12..16], [1, 2, 3, 4]);
    assert_eq!(frame[20..24], [0x04, 0xd2, 0, 99]);
    assert_eq!(frame[28..], *b"hi");
}

#[test]
fn sent_packets_are_dropped_by_any_relay() {
    let mut one = relay("allow udp any any");
    let mut other = relay("allow udp any any");
    let (_, list) = relayed(one.receive("eth0", &udp_to(LIMITED)));
    for dispatch in list {
        let frame = dispatch.frame.unwrap();
        assert!(is_already_relayed(&frame));
        assert!(matches!(other.receive("eth1", &frame), Verdict::AlreadyRelayed));
        assert!(matches!(one.receive("eth2", &frame), Verdict::AlreadyRelayed));
    }
}

#[test]
fn malformed_packets_are_ignored() {
    let mut relay = relay("allow udp any any");
    assert!(matches!(relay.receive("eth0", &[]), Verdict::Ignored));
    assert!(matches!(relay.receive("eth0", &udp_to(LIMITED)[..29]), Verdict::Ignored));
    let unicast = udp_to(Ipv4Addr::new(10, 0, 0, 7));
    assert!(matches!(relay.receive("eth0", &unicast), Verdict::Ignored));
}

#[test]
fn unmatched_packets_are_filtered() {
    let mut relay = relay("allow udp any:9 any");
    let verdict = relay.receive("eth0", &udp_to(LIMITED));
    assert!(matches!(verdict, Verdict::Filtered(_)));
    assert_eq!(
        relay.drop_line(&verdict).unwrap(),
        "FILTERED(no match): 192.168.1.50:1234 -> 255.255.255.255:5353 (UDP)"
    );
    relay.verbose = false;
    assert!(relay.drop_line(&verdict).is_none());
}

#[test]
fn rate_limit_drops_what_is_over_the_budget() {
    let mut relay = relay("allow udp any any");
    relay.rate_limiter = RateLimiter::from_options(1, Some(2));
    let packet = udp_to(LIMITED);
    assert!(matches!(relay.receive_at("eth0", &packet, 0), Verdict::Relayed(..)));
    assert!(matches!(relay.receive_at("eth0", &packet, 0), Verdict::Relayed(..)));
    let verdict = relay.receive_at("eth0", &packet, 0);
    assert!(matches!(verdict, Verdict::RateLimited(_)));
    assert_eq!(
        relay.drop_line(&verdict).unwrap(),
        "FILTERED(rate limit): 192.168.1.50:1234 -> 255.255.255.255:5353 (UDP)"
    );
    assert!(matches!(relay.receive_at("eth0", &packet, 1_000_000_000), Verdict::Relayed(..)));
    assert!(matches!(relay.receive_at("eth0", &packet, 1_000_000_000), Verdict::RateLimited(_)));
}

#[test]
fn dropped_packets_leave_the_budget_alone() {
    let mut relay = relay("deny udp any 224.0.0.0/4\nallow udp any any");
    relay.rate_limiter = Some(RateLimiter::new(0, 1));
    for _ in 0..5 {
        assert!(matches!(relay.receive("eth0", &udp_to(MCAST)), Verdict::Filtered(_)));
        assert!(matches!(relay.receive("eth0", &[0x45; 28]), Verdict::Ignored));
    }
    assert!(matches!(relay.receive("eth0", &udp_to(LIMITED)), Verdict::Relayed(..)));
    assert!(matches!(relay.receive("eth0", &udp_to(LIMITED)), Verdict::RateLimited(_)));
}

#[test]
fn without_configuration_everything_is_relayed() {
    let mut relay = relay("");
    relay.filter = Filter::new(Config::allow_all());
    for dst in [LIMITED, MCAST, Ipv4Addr::new(10, 0, 0, 255)] {
        let (_, list) = relayed(relay.receive("eth0", &udp_to(dst)));
        assert!(!list.is_empty());
        assert_eq!(list[0].frame.as_ref().unwrap()[12..16], [192, 168, 1, 50]);
    }
}

#[test]
fn relayed_and_dropped_verdicts_without_a_line() {
    let mut relay = relay("allow udp any any");
    let verdict = relay.receive("eth0", &udp_to(LIMITED));
    assert!(relay.drop_line(&verdict).is_none());
    assert!(relay.drop_line(&Verdict::Ignored).is_none());
    assert!(relay.drop_line(&Verdict::AlreadyRelayed).is_none());
}

#[test]
fn relayed_packets_stay_within_the_limit_of_their_window() {
    let mut relay = relay("allow udp any any");
    relay.rate_limiter = RateLimiter::from_options(10, Some(3));
    let mut count = 0;
    for tick in 0..=100u128 {
        let now = 500_000_000_000 + tick * 10_000_000;
        let _ = relay.receive_at("eth0", &[], now);
        if matches!(relay.receive_at("eth0", &udp_to(LIMITED), now), Verdict::Relayed(..)) {
            count += 1;
        }
    }
    // A burst of 3, and 10 for the second in which packets came.
    assert_eq!(count, 13);
}
