use bcr::addr::Ipv4Addr;
use bcr::interface::{discover_interfaces, Interface};
use bcr::socket::{broadcast_addrs, contains_addr, dest_mac, packet_filter, InterfaceAddr, SockFilter};

/// Build a 20-byte IPv4 header carrying the given destination address.
fn pkt_with_dst(dst: [u8; 4]) -> Vec<u8> {
    let mut buf = vec![0u8; 20];
    buf[16..20].copy_from_slice(&dst);
    buf
}

#[test]
fn multicast_maps_to_01005e_mac() {
    // 224.0.0.251 (mDNS) -> 01:00:5e:00:00:fb
    assert_eq!(
        dest_mac(&pkt_with_dst([224, 0, 0, 251])),
        [0x01, 0x00, 0x5e, 0x00, 0x00, 0xfb, 0, 0]
    );
    // 239.255.255.250 (SSDP): high bit of the second octet is masked off.
    assert_eq!(
        dest_mac(&pkt_with_dst([239, 255, 255, 250])),
        [0x01, 0x00, 0x5e, 0x7f, 0xff, 0xfa, 0, 0]
    );
}

#[test]
fn broadcast_uses_all_ones_mac() {
    let bcast = [0xff, 0xff, 0xff, 0xff, 0xff, 0xff, 0, 0];
    assert_eq!(dest_mac(&pkt_with_dst([255, 255, 255, 255])), bcast); // limited
    assert_eq!(dest_mac(&pkt_with_dst([192, 168, 1, 255])), bcast); // directed
}

#[test]
fn short_buffer_falls_back_to_broadcast() {
    assert_eq!(
        dest_mac(&[0u8; 10]),
        [0xff, 0xff, 0xff, 0xff, 0xff, 0xff, 0, 0]
    );
}

fn entry(name: &str, broadcast: Option<[u8; 4]>) -> InterfaceAddr {
    InterfaceAddr {
        interface_name: name.to_string(),
        broadcast: broadcast.map(|b| Ipv4Addr::new(b[0], b[1], b[2], b[3])),
    }
}

#[test]
fn all_broadcast_addresses_of_an_interface() {
    let entries = vec![
        entry("eth0", None),
        entry("eth0", Some([192, 168, 1, 255])),
        entry("eth1", Some([10, 0, 0, 255])),
        entry("eth0", Some([172, 16, 255, 255])),
        entry("eth0", Some([192, 168, 1, 255])),
    ];
    assert_eq!(
        broadcast_addrs(&entries, "eth0"),
        [Ipv4Addr::new(192, 168, 1, 255), Ipv4Addr::new(172, 16, 255, 255)]
    );
    assert_eq!(broadcast_addrs(&entries, "eth1"), [Ipv4Addr::new(10, 0, 0, 255)]);
    assert!(contains_addr(&broadcast_addrs(&entries, "eth0"), Ipv4Addr::new(172, 16, 255, 255)));
    assert!(!contains_addr(&broadcast_addrs(&entries, "eth0"), Ipv4Addr::new(10, 0, 0, 255)));
}

#[test]
fn interface_without_broadcast_address() {
    let entries = vec![entry("tun0", None)];
    assert_eq!(broadcast_addrs(&entries, "tun0"), [Ipv4Addr::broadcast()]);
    assert_eq!(broadcast_addrs(&vec![], "tun0"), [Ipv4Addr::broadcast()]);
}

#[test]
fn one_entry_per_interface() {
    let make = |name: &str, is_up: bool| Interface { name: name.to_string(), is_up };
    let found = discover_interfaces(&vec![
        make("lo", true),
        make("eth0", false),
        make("lo", false),
        make("eth0", true),
        make("eth1", true),
    ]);
    let found: Vec<(&str, bool)> = found.iter().map(|i| (i.name.as_str(), i.is_up)).collect();
    assert_eq!(found, [("lo", true), ("eth0", false), ("eth1", true)]);
}

/// Runs a program on a packet, as the kernel does.
fn run(prog: &[SockFilter], data: &[u8]) -> u32 {
    let mut pc = 0;
    let mut acc = 0u32;
    loop {
        let ins = prog[pc];
        pc += 1;
        match ins.code {
            0x30 => match data.get(ins.k as usize) {
                Some(b) => acc = u32::from(*b),
                None => return 0,
            },
            0x54 => acc &= ins.k,
            0x15 => pc += usize::from(if acc == ins.k { ins.jt } else { ins.jf }),
            0x06 => return ins.k,
            other => panic!("unexpected instruction {:x}", other),
        }
    }
}

fn udp_to(dst: [u8; 4]) -> Vec<u8> {
    let mut buf = vec![0u8; 28];
    buf[0] = 0x45;
    buf[9] = 17;
    buf[16..20].copy_from_slice(&dst);
    buf
}

#[test]
fn kernel_filter_program() {
    let prog = packet_filter();
    assert_eq!(prog.len(), 12);
    assert_eq!(prog[0], SockFilter { code: 0x30, jt: 0, jf: 0, k: 0 });
    assert_eq!(prog[2], SockFilter { code: 0x15, jt: 0, jf: 8, k: 0x40 });
    assert_eq!(prog[10], SockFilter { code: 0x06, jt: 0, jf: 0, k: 262144 });
    assert_eq!(prog[11], SockFilter { code: 0x06, jt: 0, jf: 0, k: 0 });
}

#[test]
fn kernel_filter_accepts_broadcasts_and_multicasts_only() {
    let prog = packet_filter();
    assert_eq!(run(&prog, &udp_to([224, 0, 0, 251])), 262144);
    assert_eq!(run(&prog, &udp_to([239, 1, 2, 3])), 262144);
    assert_eq!(run(&prog, &udp_to([255, 255, 255, 255])), 262144);
    assert_eq!(run(&prog, &udp_to([192, 168, 1, 255])), 262144);
    assert_eq!(run(&prog, &udp_to([192, 168, 1, 7])), 0);
    assert_eq!(run(&prog, &udp_to([240, 0, 0, 1])), 0);
    let mut tcp = udp_to([255, 255, 255, 255]);
    tcp[9] = 6;
    assert_eq!(run(&prog, &tcp), 0);
    let mut v6 = udp_to([255, 255, 255, 255]);
    v6[0] = 0x65;
    assert_eq!(run(&prog, &v6), 0);
    assert_eq!(run(&prog, &udp_to([255, 255, 255, 255])[..19]), 0);
    assert_eq!(run(&prog, &[]), 0);
}
