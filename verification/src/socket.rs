//! What the packet sockets are told: the kernel filter, the addresses of an
//! interface, and the link-layer destination of a packet.

use vstd::prelude::*;
use crate::addr::{limited_broadcast, Ipv4Addr};
use crate::packet::packet_info;
use crate::text::same_text;
use crate::wire::{addr_at, UDP_PROTOCOL};

verus! {

/// The link-layer destination of a packet, padded with two zero bytes. A
/// multicast group has the Ethernet address `01:00:5e` followed by the low 23
/// bits of the group; everything else goes to the broadcast address.
pub open spec fn link_destination(data: Seq<u8>) -> Seq<u8> {
    if data.len() >= 20 && addr_at(data, 16).multicast() {
        seq![0x01u8, 0x00, 0x5e, (data[17] % 128) as u8, data[18], data[19], 0, 0]
    } else {
        seq![0xffu8, 0xff, 0xff, 0xff, 0xff, 0xff, 0, 0]
    }
}

/// The link-layer destination of an outgoing IPv4 packet.
pub fn dest_mac(data: &[u8]) -> (r: [u8; 8])
    ensures
        r@ == link_destination(data@),
{
    if data.len() >= 20 {
        let d: Ipv4Addr = Ipv4Addr::new(data[16], data[17], data[18], data[19]);
        if d.is_multicast() {
            let b: u8 = d.b;
            assert(b & 0x7f == b % 128) by (bit_vector);
            let r: [u8; 8] = [0x01, 0x00, 0x5e, b & 0x7f, d.c, d.d, 0, 0];
            assert(r@ =~= link_destination(data@));
            return r;
        }
    }
    let r: [u8; 8] = [0xff, 0xff, 0xff, 0xff, 0xff, 0xff, 0, 0];
    assert(r@ =~= link_destination(data@));
    r
}

/// One address of an interface, as the system reports it.
#[derive(Debug)]
pub struct InterfaceAddr {
    pub interface_name: String,
    /// The broadcast address of the subnet, if it is IPv4 and has one.
    pub broadcast: Option<Ipv4Addr>,
}

/// The different broadcast addresses of the interface `ifname` among the
/// entries, in order of first appearance.
pub open spec fn reported_broadcasts(entries: Seq<InterfaceAddr>, ifname: Seq<char>) -> Seq<
    Ipv4Addr,
>
    decreases entries.len(),
{
    if entries.len() == 0 {
        Seq::empty()
    } else {
        let before = reported_broadcasts(entries.drop_last(), ifname);
        match entries.last().broadcast {
            Some(ip) => if entries.last().interface_name@ == ifname && !before.contains(ip) {
                before.push(ip)
            } else {
                before
            },
            None => before,
        }
    }
}

/// The broadcast addresses by which an interface is known: those that are
/// reported, or else the limited broadcast address alone.
pub open spec fn known_broadcasts(entries: Seq<InterfaceAddr>, ifname: Seq<char>) -> Seq<Ipv4Addr> {
    if reported_broadcasts(entries, ifname).len() == 0 {
        seq![limited_broadcast()]
    } else {
        reported_broadcasts(entries, ifname)
    }
}

/// Whether `ip` occurs in `list`.
pub fn contains_addr(list: &Vec<Ipv4Addr>, ip: Ipv4Addr) -> (r: bool)
    ensures
        r == list@.contains(ip),
{
    let mut i: usize = 0;
    while i < list.len()
        invariant
            i <= list@.len(),
            forall|j: int| 0 <= j < i ==> list@[j] != ip,
        decreases list@.len() - i,
    {
        if list[i] == ip {
            return true;
        }
        i = i + 1;
    }
    false
}

/// Collects all broadcast addresses of the interface `ifname`. An interface
/// can carry several subnets, each with its own.
pub fn broadcast_addrs(entries: &Vec<InterfaceAddr>, ifname: &str) -> (r: Vec<Ipv4Addr>)
    ensures
        r@ == known_broadcasts(entries@, ifname@),
        r@.len() > 0,
{
    let mut r: Vec<Ipv4Addr> = Vec::new();
    let mut i: usize = 0;
    proof {
        assert(entries@.take(0) =~= Seq::<InterfaceAddr>::empty());
        assert(r@ =~= Seq::<Ipv4Addr>::empty());
    }
    while i < entries.len()
        invariant
            i <= entries@.len(),
            r@ == reported_broadcasts(entries@.take(i as int), ifname@),
        decreases entries@.len() - i,
    {
        proof {
            assert(entries@.take(i as int + 1).drop_last() =~= entries@.take(i as int));
            assert(entries@.take(i as int + 1).last() == entries@[i as int]);
        }
        if same_text(entries[i].interface_name.as_str(), ifname) {
            if let Some(ip) = entries[i].broadcast {
                if !contains_addr(&r, ip) {
                    r.push(ip);
                }
            }
        }
        i = i + 1;
    }
    proof {
        assert(entries@.take(entries@.len() as int) =~= entries@);
    }
    if r.len() == 0 {
        r.push(Ipv4Addr::broadcast());
        proof {
            assert(r@ =~= seq![limited_broadcast()]);
        }
    }
    r
}

/// One instruction of a classic BPF program.
#[derive(Debug, Clone, Copy, PartialEq, Eq, Structural)]
pub struct SockFilter {
    pub code: u16,
    pub jt: u8,
    pub jf: u8,
    pub k: u32,
}

/// Load the byte at an absolute offset: `BPF_LD | BPF_B | BPF_ABS`.
pub const BPF_LOAD_BYTE: u16 = 0x30;

/// Bitwise and with a constant: `BPF_ALU | BPF_AND | BPF_K`.
pub const BPF_AND: u16 = 0x54;

/// Jump on equality with a constant: `BPF_JMP | BPF_JEQ | BPF_K`.
pub const BPF_JUMP_EQ: u16 = 0x15;

/// Return a constant: `BPF_RET | BPF_K`.
pub const BPF_RETURN: u16 = 0x06;

/// As many bytes as the kernel is asked to deliver of an accepted packet.
pub const ACCEPT_LEN: u32 = 262144;

/// How many bytes of the packet `data` a program accepts, run from instruction
/// `pc` on with the accumulator `acc`. A load beyond the packet rejects it, as
/// does running off the program or an instruction of another kind.
pub open spec fn run_filter(prog: Seq<SockFilter>, data: Seq<u8>, pc: int, acc: u32) -> u32
    decreases
            if pc < prog.len() {
                prog.len() - pc
            } else {
                0
            },
{
    if pc < 0 || pc >= prog.len() {
        0
    } else {
        let ins = prog[pc];
        if ins.code == BPF_LOAD_BYTE {
            if ins.k < data.len() {
                run_filter(prog, data, pc + 1, data[ins.k as int] as u32)
            } else {
                0
            }
        } else if ins.code == BPF_AND {
            run_filter(prog, data, pc + 1, acc & ins.k)
        } else if ins.code == BPF_JUMP_EQ {
            if acc == ins.k {
                run_filter(prog, data, pc + 1 + ins.jt, acc)
            } else {
                run_filter(prog, data, pc + 1 + ins.jf, acc)
            }
        } else if ins.code == BPF_RETURN {
            ins.k
        } else {
            0
        }
    }
}

/// Whether `data`, which starts with the IPv4 header, is an IPv4 UDP packet to
/// a multicast address or to one whose last octet is 255.
pub open spec fn wanted(data: Seq<u8>) -> bool {
    &&& data.len() > 16
    &&& data[0] / 16 == 4
    &&& data[9] == UDP_PROTOCOL
    &&& 224 <= data[16] <= 239 || (data.len() > 19 && data[19] == 255)
}

/// The program itself.
pub open spec fn filter_program() -> Seq<SockFilter> {
    seq![
        SockFilter { code: BPF_LOAD_BYTE, jt: 0, jf: 0, k: 0 },
        SockFilter { code: BPF_AND, jt: 0, jf: 0, k: 0xf0 },
        SockFilter { code: BPF_JUMP_EQ, jt: 0, jf: 8, k: 0x40 },
        SockFilter { code: BPF_LOAD_BYTE, jt: 0, jf: 0, k: 9 },
        SockFilter { code: BPF_JUMP_EQ, jt: 0, jf: 6, k: 17 },
        SockFilter { code: BPF_LOAD_BYTE, jt: 0, jf: 0, k: 16 },
        SockFilter { code: BPF_AND, jt: 0, jf: 0, k: 0xf0 },
        SockFilter { code: BPF_JUMP_EQ, jt: 2, jf: 0, k: 0xe0 },
        SockFilter { code: BPF_LOAD_BYTE, jt: 0, jf: 0, k: 19 },
        SockFilter { code: BPF_JUMP_EQ, jt: 0, jf: 1, k: 0xff },
        SockFilter { code: BPF_RETURN, jt: 0, jf: 0, k: ACCEPT_LEN },
        SockFilter { code: BPF_RETURN, jt: 0, jf: 0, k: 0 },
    ]
}

/// The kernel filter for a packet socket that strips the link-layer header:
/// the kernel then delivers exactly the packets that are worth a look.
pub fn packet_filter() -> (r: Vec<SockFilter>)
    ensures
        r@ == filter_program(),
        forall|data: Seq<u8>| #[trigger]
            run_filter(r@, data, 0, 0) == if wanted(data) {
                ACCEPT_LEN
            } else {
                0
            },
{
    let mut r: Vec<SockFilter> = Vec::new();
    // A = ip[0], version and IHL; isolate the version nibble: IPv4 only.
    r.push(SockFilter { code: BPF_LOAD_BYTE, jt: 0, jf: 0, k: 0 });
    r.push(SockFilter { code: BPF_AND, jt: 0, jf: 0, k: 0xf0 });
    r.push(SockFilter { code: BPF_JUMP_EQ, jt: 0, jf: 8, k: 0x40 });
    // A = ip[9], the protocol: UDP only.
    r.push(SockFilter { code: BPF_LOAD_BYTE, jt: 0, jf: 0, k: 9 });
    r.push(SockFilter { code: BPF_JUMP_EQ, jt: 0, jf: 6, k: 17 });
    // A = ip[16], first octet of the destination: accept 224.0.0.0/4.
    r.push(SockFilter { code: BPF_LOAD_BYTE, jt: 0, jf: 0, k: 16 });
    r.push(SockFilter { code: BPF_AND, jt: 0, jf: 0, k: 0xf0 });
    r.push(SockFilter { code: BPF_JUMP_EQ, jt: 2, jf: 0, k: 0xe0 });
    // A = ip[19], last octet of the destination: accept broadcasts.
    r.push(SockFilter { code: BPF_LOAD_BYTE, jt: 0, jf: 0, k: 19 });
    r.push(SockFilter { code: BPF_JUMP_EQ, jt: 0, jf: 1, k: 0xff });
    r.push(SockFilter { code: BPF_RETURN, jt: 0, jf: 0, k: ACCEPT_LEN });
    r.push(SockFilter { code: BPF_RETURN, jt: 0, jf: 0, k: 0 });
    proof {
        assert(r@ =~= filter_program());
        assert forall|data: Seq<u8>| #[trigger]
            run_filter(r@, data, 0, 0) == if wanted(data) {
                ACCEPT_LEN
            } else {
                0
            } by {
            lemma_filter_program(data);
        }
    }
    r
}

/// The program accepts exactly the wanted packets.
proof fn lemma_filter_program(data: Seq<u8>)
    ensures
        run_filter(filter_program(), data, 0, 0) == if wanted(data) {
            ACCEPT_LEN
        } else {
            0
        },
{
    reveal_with_fuel(run_filter, 13);
    if data.len() > 0 {
        let b = data[0];
        assert((b as u32) & 0xf0 == 0x40 <==> b / 16 == 4) by (bit_vector);
    }
    if data.len() > 16 {
        let b = data[16];
        assert((b as u32) & 0xf0 == 0xe0 <==> 224 <= b <= 239) by (bit_vector);
    }
}

/// The kernel filter loses nothing: it accepts every packet that the relay
/// could forward.
pub proof fn filter_accepts_relayable(data: Seq<u8>)
    requires
        packet_info(data) is Some,
    ensures
        run_filter(filter_program(), data, 0, 0) == ACCEPT_LEN,
{
    lemma_filter_program(data);
}

/// The broadcast addresses of an interface are all different.
pub proof fn broadcasts_are_distinct(entries: Seq<InterfaceAddr>, ifname: Seq<char>)
    ensures
        known_broadcasts(entries, ifname).no_duplicates(),
{
    lemma_reported_distinct(entries, ifname);
}

/// No broadcast address is reported twice.
proof fn lemma_reported_distinct(entries: Seq<InterfaceAddr>, ifname: Seq<char>)
    ensures
        reported_broadcasts(entries, ifname).no_duplicates(),
    decreases entries.len(),
{
    if entries.len() > 0 {
        lemma_reported_distinct(entries.drop_last(), ifname);
    }
}

/// Every reported broadcast address of an interface is among those by which
/// the interface is known.
pub proof fn every_broadcast_is_known(entries: Seq<InterfaceAddr>, ifname: Seq<char>, i: int)
    requires
        0 <= i < entries.len(),
        entries[i].interface_name@ == ifname,
        entries[i].broadcast is Some,
    ensures
        known_broadcasts(entries, ifname).contains(entries[i].broadcast->0),
{
    lemma_reported_contains(entries, ifname, i);
}

/// Every broadcast address of an interface is reported.
proof fn lemma_reported_contains(entries: Seq<InterfaceAddr>, ifname: Seq<char>, i: int)
    requires
        0 <= i < entries.len(),
        entries[i].interface_name@ == ifname,
        entries[i].broadcast is Some,
    ensures
        reported_broadcasts(entries, ifname).contains(entries[i].broadcast->0),
    decreases entries.len(),
{
    let before = reported_broadcasts(entries.drop_last(), ifname);
    let all = reported_broadcasts(entries, ifname);
    let ip = entries[i].broadcast->0;
    if i < entries.len() - 1 {
        lemma_reported_contains(entries.drop_last(), ifname, i);
        let k = choose|k: int| 0 <= k < before.len() && before[k] == ip;
        assert(all[k] == ip);
    } else if !before.contains(ip) {
        assert(all[all.len() - 1] == ip);
    }
}

/// Where a packet goes on the link, by its bytes: a group in 224.0.0.0/4 has
/// `01:00:5e` and its own low 23 bits, everything else the broadcast address.
pub proof fn groups_have_their_own_link_address(data: Seq<u8>)
    ensures
        link_destination(data).len() == 8,
        link_destination(data)[6] == 0 && link_destination(data)[7] == 0,
        data.len() >= 20 && 224 <= data[16] <= 239 ==> {
            let mac = link_destination(data);
            &&& mac[0] == 0x01 && mac[1] == 0x00 && mac[2] == 0x5e
            &&& mac[3] * 0x1_0000 + mac[4] * 0x100 + mac[5] == (data[17] * 0x1_0000 + data[18]
                * 0x100 + data[19]) % 0x80_0000
        },
        data.len() < 20 || !(224 <= data[16] <= 239) ==> forall|i: int|
            0 <= i < 6 ==> #[trigger] link_destination(data)[i] == 0xff,
{
}

/// Which packets the kernel delivers, by their bytes: IPv4, UDP, and to
/// 224.0.0.0/4 or to an address that ends in 255; of these it delivers up to
/// 262144 bytes, of all others none.
pub proof fn kernel_delivers_broadcasts_only(data: Seq<u8>)
    ensures
        run_filter(filter_program(), data, 0, 0) == if data.len() > 16 && data[0] / 16 == 4
            && data[9] == 17 && (224 <= data[16] <= 239 || (data.len() > 19 && data[19] == 255)) {
            262144
        } else {
            0u32
        },
{
    lemma_filter_program(data);
}

/// How the kernel runs a program, by the numbers of its instructions: 0x30
/// loads a byte or rejects, 0x54 masks, 0x15 jumps, 0x06 returns.
pub proof fn kernel_instructions(prog: Seq<SockFilter>, data: Seq<u8>, pc: int, acc: u32)
    requires
        0 <= pc < prog.len(),
    ensures
        ({
            let ins = prog[pc];
            let run = run_filter(prog, data, pc, acc);
            &&& ins.code == 0x30 && ins.k < data.len() ==> run == run_filter(
                prog,
                data,
                pc + 1,
                data[ins.k as int] as u32,
            )
            &&& ins.code == 0x30 && ins.k >= data.len() ==> run == 0
            &&& ins.code == 0x54 ==> run == run_filter(prog, data, pc + 1, acc & ins.k)
            &&& ins.code == 0x15 && acc == ins.k ==> run == run_filter(
                prog,
                data,
                pc + 1 + ins.jt,
                acc,
            )
            &&& ins.code == 0x15 && acc != ins.k ==> run == run_filter(
                prog,
                data,
                pc + 1 + ins.jf,
                acc,
            )
            &&& ins.code == 0x06 ==> run == ins.k
        }),
{
}

/// Whether the `i`-th entry is the first that reports this broadcast address of
/// the interface.
pub open spec fn first_reports(
    entries: Seq<InterfaceAddr>,
    ifname: Seq<char>,
    ip: Ipv4Addr,
    i: int,
) -> bool {
    &&& 0 <= i < entries.len()
    &&& entries[i].interface_name@ == ifname
    &&& entries[i].broadcast == Some(ip)
    &&& forall|j: int|
        0 <= j < i && (#[trigger] entries[j]).interface_name@ == ifname ==> entries[j].broadcast
            != Some(ip)
}

/// An interface with a broadcast address is known by no other addresses than
/// its own.
pub proof fn only_own_broadcasts_are_known(
    entries: Seq<InterfaceAddr>,
    ifname: Seq<char>,
    own: int,
    k: int,
)
    requires
        0 <= own < entries.len(),
        entries[own].interface_name@ == ifname,
        entries[own].broadcast is Some,
        0 <= k < known_broadcasts(entries, ifname).len(),
    ensures
        exists|i: int|
            #[trigger] first_reports(entries, ifname, known_broadcasts(entries, ifname)[k], i),
{
    lemma_reported_contains(entries, ifname, own);
    let i = lemma_first_report(entries, ifname, k);
    assert(first_reports(entries, ifname, known_broadcasts(entries, ifname)[k], i));
}

/// The broadcast addresses of an interface come in the order in which they are
/// first reported.
pub proof fn broadcasts_keep_their_order(
    entries: Seq<InterfaceAddr>,
    ifname: Seq<char>,
    k: int,
    l: int,
    i: int,
    j: int,
)
    requires
        0 <= k < l < known_broadcasts(entries, ifname).len(),
        first_reports(entries, ifname, known_broadcasts(entries, ifname)[k], i),
        first_reports(entries, ifname, known_broadcasts(entries, ifname)[l], j),
    ensures
        i < j,
{
    lemma_report_order(entries, ifname, k, l, i, j);
}

/// An interface without a broadcast address is known by 255.255.255.255 alone.
pub proof fn limited_broadcast_stands_in(entries: Seq<InterfaceAddr>, ifname: Seq<char>)
    requires
        forall|i: int|
            0 <= i < entries.len() && (#[trigger] entries[i]).interface_name@ == ifname
                ==> entries[i].broadcast is None,
    ensures
        known_broadcasts(entries, ifname) == seq![Ipv4Addr { a: 255, b: 255, c: 255, d: 255 }],
{
    lemma_none_reported(entries, ifname);
}

/// Where a known address is first reported.
proof fn lemma_first_report(entries: Seq<InterfaceAddr>, ifname: Seq<char>, k: int) -> (i: int)
    requires
        0 <= k < reported_broadcasts(entries, ifname).len(),
    ensures
        first_reports(entries, ifname, reported_broadcasts(entries, ifname)[k], i),
    decreases entries.len(),
{
    let front = entries.drop_last();
    let before = reported_broadcasts(front, ifname);
    if k < before.len() {
        let i = lemma_first_report(front, ifname, k);
        assert(first_reports(entries, ifname, before[k], i)) by {
            assert(entries[i] == front[i]);
            assert forall|j: int| 0 <= j < i && (#[trigger] entries[j]).interface_name@
                == ifname implies entries[j].broadcast != Some(before[k]) by {
                assert(entries[j] == front[j]);
            }
        }
        i
    } else {
        let i = entries.len() - 1;
        let ip = entries[i].broadcast->0;
        assert forall|j: int| 0 <= j < i && (#[trigger] entries[j]).interface_name@
            == ifname implies entries[j].broadcast != Some(ip) by {
            if entries[j].broadcast == Some(ip) {
                assert(entries[j] == front[j]);
                lemma_reported_contains(front, ifname, j);
            }
        }
        i
    }
}

/// Addresses that are reported first are known first.
proof fn lemma_report_order(
    entries: Seq<InterfaceAddr>,
    ifname: Seq<char>,
    k: int,
    l: int,
    i: int,
    j: int,
)
    requires
        0 <= k < l < reported_broadcasts(entries, ifname).len(),
        first_reports(entries, ifname, reported_broadcasts(entries, ifname)[k], i),
        first_reports(entries, ifname, reported_broadcasts(entries, ifname)[l], j),
    ensures
        i < j,
    decreases entries.len(),
{
    let front = entries.drop_last();
    let before = reported_broadcasts(front, ifname);
    let all = reported_broadcasts(entries, ifname);
    let ki = lemma_first_report(front, ifname, k);
    assert(front[ki] == entries[ki]);
    if i > ki {
        assert(entries[ki].broadcast != Some(all[k]));
    }
    if ki > i {
        assert(front[i] == entries[i]);
    }
    assert(i == ki);
    if l < before.len() {
        let lj = lemma_first_report(front, ifname, l);
        assert(front[lj] == entries[lj]);
        if j > lj {
            assert(entries[lj].broadcast != Some(all[l]));
        }
        if lj > j {
            assert(front[j] == entries[j]);
        }
        assert(j == lj);
        lemma_report_order(front, ifname, k, l, i, j);
    } else {
        if j < front.len() {
            assert(front[j] == entries[j]);
            lemma_reported_contains(front, ifname, j);
        }
    }
}

/// Without a report there is nothing reported.
proof fn lemma_none_reported(entries: Seq<InterfaceAddr>, ifname: Seq<char>)
    requires
        forall|i: int|
            0 <= i < entries.len() && (#[trigger] entries[i]).interface_name@ == ifname
                ==> entries[i].broadcast is None,
    ensures
        reported_broadcasts(entries, ifname).len() == 0,
    decreases entries.len(),
{
    if entries.len() > 0 {
        let front = entries.drop_last();
        assert forall|i: int| 0 <= i < front.len() && (#[trigger] front[i]).interface_name@
            == ifname implies front[i].broadcast is None by {
            assert(front[i] == entries[i]);
        }
        lemma_none_reported(front, ifname);
        let last = entries[entries.len() - 1];
        assert(last.interface_name@ == ifname ==> last.broadcast is None);
    }
}

} // verus!
