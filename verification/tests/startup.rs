use bcr::addr::Ipv4Addr;
use bcr::config::{Config, PacketInfo, Protocol};
use bcr::interface::Interface;
use bcr::logging::{log_filtered, log_relay, protocol_name};
use bcr::startup::{next_drop_step, validate_startup, DropFailure, DropStep, Readiness};

fn interfaces() -> Vec<Interface> {
    vec![
        Interface { name: "eth0".to_string(), is_up: true },
        Interface { name: "eth1".to_string(), is_up: true },
        Interface { name: "eth2".to_string(), is_up: false },
    ]
}

fn names(list: &[&str]) -> Vec<String> {
    list.iter().map(|s| s.to_string()).collect()
}

fn start(config: &Config, inputs: &[&str], outputs: &[&str]) -> Result<Readiness, String> {
    validate_startup(config, &interfaces(), &names(inputs), &names(outputs))
        .map_err(|e| e.to_string())
}

#[test]
fn named_interfaces_must_be_up() {
    let config = Config::allow_all();
    assert_eq!(start(&config, &["eth0"], &["eth1"]), Ok(Readiness::Ready));
    assert_eq!(start(&config, &["eth0", "eth1"], &["eth1", "eth0"]), Ok(Readiness::Ready));
    assert_eq!(
        start(&config, &["eth0", "eth2"], &["eth9"]),
        Err("Input interface 'eth2' not found or not up".to_string())
    );
    assert_eq!(
        start(&config, &["eth0"], &["eth1", "eth9"]),
        Err("Output interface 'eth9' not found or not up".to_string())
    );
}

#[test]
fn configuration_without_allow_rules() {
    let empty = Config::parse("").unwrap();
    assert_eq!(start(&empty, &["eth0"], &["eth1"]), Ok(Readiness::NothingAllowed));
    let deny = Config::parse("deny any any any").unwrap();
    assert_eq!(start(&deny, &["eth0"], &["eth1"]), Ok(Readiness::NothingAllowed));
    let some = Config::parse("deny any any any\nallow any any any").unwrap();
    assert_eq!(start(&some, &["eth0"], &["eth1"]), Ok(Readiness::Ready));
}

fn drop_with(answers: &[bool]) -> DropStep {
    let mut step = DropStep::SetGroups;
    for answer in answers {
        step = next_drop_step(step, *answer);
    }
    step
}

#[test]
fn privileges_are_dropped_in_order() {
    assert_eq!(drop_with(&[]), DropStep::SetGroups);
    assert_eq!(drop_with(&[true]), DropStep::SetGid);
    assert_eq!(drop_with(&[true, true]), DropStep::SetUid);
    assert_eq!(drop_with(&[true, true, true]), DropStep::TryRoot);
    assert_eq!(drop_with(&[true, true, true, false]), DropStep::Dropped);
    assert_eq!(drop_with(&[true, true, true, false, true]), DropStep::Dropped);
}

#[test]
fn every_failed_step_ends_the_drop() {
    assert_eq!(drop_with(&[false]), DropStep::Failed(DropFailure::Groups));
    assert_eq!(drop_with(&[true, false]), DropStep::Failed(DropFailure::Gid));
    assert_eq!(drop_with(&[true, true, false]), DropStep::Failed(DropFailure::Uid));
    assert_eq!(
        drop_with(&[true, true, true, true]),
        DropStep::Failed(DropFailure::RootRegained)
    );
    assert_eq!(drop_with(&[false, true, true, true]), DropStep::Failed(DropFailure::Groups));
}

#[test]
fn log_lines() {
    let pkt = PacketInfo {
        protocol: Protocol::Udp,
        src_ip: Ipv4Addr::new(192, 168, 1, 50),
        dst_ip: Ipv4Addr::broadcast(),
        src_port: 137,
        dst_port: 65535,
    };
    assert_eq!(
        log_relay(&pkt, 1500, "eth1"),
        "RELAY: 192.168.1.50:137 -> 255.255.255.255:65535 (UDP, 1500 bytes) via eth1"
    );
    assert_eq!(
        log_filtered("no match", &pkt),
        "FILTERED(no match): 192.168.1.50:137 -> 255.255.255.255:65535 (UDP)"
    );
    assert_eq!(protocol_name(Protocol::Any), "ANY");
}
