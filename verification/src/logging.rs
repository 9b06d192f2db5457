//! One-line log messages.

use vstd::prelude::*;
use crate::config::{PacketInfo, Protocol};
use crate::number::{decimal, push_decimal};

verus! {

/// The name of a protocol in log messages.
pub open spec fn protocol_label(proto: Protocol) -> Seq<char> {
    match proto {
        Protocol::Udp => "UDP"@,
        Protocol::Any => "ANY"@,
    }
}

/// The name of a protocol in log messages.
pub fn protocol_name(proto: Protocol) -> (r: &'static str)
    ensures
        r@ == protocol_label(proto),
{
    match proto {
        Protocol::Udp => "UDP",
        Protocol::Any => "ANY",
    }
}

/// `SRC_IP:PORT -> DST_IP:PORT`.
pub open spec fn flow(pkt: PacketInfo) -> Seq<char> {
    pkt.src_ip.dotted() + ":"@ + decimal(pkt.src_port as nat) + " -> "@ + pkt.dst_ip.dotted() + ":"@
        + decimal(pkt.dst_port as nat)
}

/// Appends `SRC_IP:PORT -> DST_IP:PORT`.
fn push_flow(out: &mut String, pkt: &PacketInfo)
    ensures
        final(out)@ == old(out)@ + flow(*pkt),
{
    let ghost start = out@;
    pkt.src_ip.push_to(out);
    out.append(":");
    push_decimal(out, pkt.src_port as u64);
    out.append(" -> ");
    pkt.dst_ip.push_to(out);
    out.append(":");
    push_decimal(out, pkt.dst_port as u64);
    proof {
        assert(out@ =~= start + flow(*pkt));
    }
}

/// The line for a relayed packet.
pub open spec fn relay_line(pkt: PacketInfo, size: nat, output_if: Seq<char>) -> Seq<char> {
    "RELAY: "@ + flow(pkt) + " ("@ + protocol_label(pkt.protocol) + ", "@ + decimal(size)
        + " bytes) via "@ + output_if
}

/// The line for a relayed packet:
/// `RELAY: SRC_IP:PORT -> DST_IP:PORT (PROTO, SIZE bytes) via INTERFACE`.
pub fn log_relay(pkt: &PacketInfo, size: usize, output_if: &str) -> (r: String)
    ensures
        r@ == relay_line(*pkt, size as nat, output_if@),
{
    let mut r: String = String::new();
    r.append("RELAY: ");
    push_flow(&mut r, pkt);
    r.append(" (");
    r.append(protocol_name(pkt.protocol));
    r.append(", ");
    push_decimal(&mut r, size as u64);
    r.append(" bytes) via ");
    r.append(output_if);
    proof {
        assert(r@ =~= relay_line(*pkt, size as nat, output_if@));
    }
    r
}

/// The line for a packet that is not relayed.
pub open spec fn filtered_line(reason: Seq<char>, pkt: PacketInfo) -> Seq<char> {
    "FILTERED("@ + reason + "): "@ + flow(pkt) + " ("@ + protocol_label(pkt.protocol) + ")"@
}

/// The line for a packet that is not relayed:
/// `FILTERED(REASON): SRC_IP:PORT -> DST_IP:PORT (PROTO)`.
pub fn log_filtered(reason: &str, pkt: &PacketInfo) -> (r: String)
    ensures
        r@ == filtered_line(reason@, *pkt),
{
    let mut r: String = String::new();
    r.append("FILTERED(");
    r.append(reason);
    r.append("): ");
    push_flow(&mut r, pkt);
    r.append(" (");
    r.append(protocol_name(pkt.protocol));
    r.append(")");
    proof {
        assert(r@ =~= filtered_line(reason@, *pkt));
    }
    r
}

/// A log line says all of a packet: its source and its destination, each as an
/// address in dotted notation and a port in decimal, the protocol, and what
/// became of it.
pub proof fn log_lines_say_it_all(
    pkt: PacketInfo,
    size: nat,
    output_if: Seq<char>,
    reason: Seq<char>,
)
    ensures
        ({
            let from = pkt.src_ip.dotted().push(':') + decimal(pkt.src_port as nat);
            let to = pkt.dst_ip.dotted().push(':') + decimal(pkt.dst_port as nat);
            let name = if pkt.protocol == Protocol::Udp {
                "UDP"@
            } else {
                "ANY"@
            };
            &&& relay_line(pkt, size, output_if) == "RELAY: "@ + from + " -> "@ + to + " ("@ + name
                + ", "@ + decimal(size) + " bytes) via "@ + output_if
            &&& filtered_line(reason, pkt) == "FILTERED("@ + reason + "): "@ + from + " -> "@ + to
                + " ("@ + name + ")"@
        }),
{
    reveal_strlit(":");
    let from = pkt.src_ip.dotted().push(':') + decimal(pkt.src_port as nat);
    let to = pkt.dst_ip.dotted().push(':') + decimal(pkt.dst_port as nat);
    let name = if pkt.protocol == Protocol::Udp {
        "UDP"@
    } else {
        "ANY"@
    };
    assert(flow(pkt) =~= from + " -> "@ + to);
    assert(relay_line(pkt, size, output_if) =~= "RELAY: "@ + from + " -> "@ + to + " ("@ + name
        + ", "@ + decimal(size) + " bytes) via "@ + output_if);
    assert(filtered_line(reason, pkt) =~= "FILTERED("@ + reason + "): "@ + from + " -> "@ + to
        + " ("@ + name + ")"@);
}

} // verus!
