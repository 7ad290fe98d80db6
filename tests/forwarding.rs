use dataplane::engine::{AppError, ForwardingService, Transmission};
use dataplane::frame::{decode, encode, EthernetFrame, FrameError, MacAddress, VlanId};
use dataplane::vlan::{PortConfig, VlanError};

const M1: [u8; 6] = [2, 0, 0, 0, 0, 1];
const M2: [u8; 6] = [2, 0, 0, 0, 0, 2];
const M3: [u8; 6] = [2, 0, 0, 0, 0, 3];
const BCAST: [u8; 6] = [0xff; 6];

fn switch() -> ForwardingService {
    let ports = vec![
        PortConfig::access(VlanId(10)),
        PortConfig::access(VlanId(10)),
        PortConfig::trunk(VlanId(1), vec![VlanId(10), VlanId(20)]),
        PortConfig::access(VlanId(20)),
    ];
    ForwardingService::new(ports, 64, 1500, 300)
}

fn wire(dst: [u8; 6], src: [u8; 6], vlan: Option<VlanId>) -> Vec<u8> {
    let mut f = EthernetFrame::new(dst, src, 0x0800, vec![9, 8, 7]);
    f.vlan = vlan;
    encode(&f, 1500).unwrap()
}

fn ports_of(ts: &[Transmission]) -> Vec<u16> {
    ts.iter().map(|t| t.port).collect()
}

#[test]
fn test_setup_pipeline_creates_pipeline() {
    let svc = switch();
    let pipeline = svc
        .setup_pipeline("eth0", "eth1")
        .expect("pipeline should build");

    assert_eq!(pipeline.input.name, "eth0");
    assert_eq!(pipeline.input.index, 0);
    assert_eq!(pipeline.output.name, "eth1");
    assert_eq!(pipeline.output.index, 1);
}

#[test]
fn unknown_destination_floods_vlan_with_port_policy() {
    let mut svc = switch();
    let ts = svc.forward(0, &wire(M2, M1, None), 1).unwrap();
    assert_eq!(ports_of(&ts), vec![1, 2]);
    let on_access = decode(&ts[0].bytes).unwrap();
    assert_eq!(on_access.vlan, None);
    assert_eq!(ts[0].bytes, wire(M2, M1, None));
    let on_trunk = decode(&ts[1].bytes).unwrap();
    assert_eq!(on_trunk.vlan, Some(VlanId(10)));
    assert_eq!(ts[1].bytes, wire(M2, M1, Some(VlanId(10))));
    assert_eq!(svc.lookup(&MacAddress::new(M1), VlanId(10)), Some(0));
}

#[test]
fn learned_destination_is_unicast() {
    let mut svc = switch();
    svc.forward(1, &wire(BCAST, M2, None), 1).unwrap();
    let ts = svc.forward(0, &wire(M2, M1, None), 2).unwrap();
    assert_eq!(ports_of(&ts), vec![1]);
    assert_eq!(ts[0].bytes, wire(M2, M1, None));
}

#[test]
fn destination_behind_ingress_is_not_reflected() {
    let mut svc = switch();
    svc.forward(0, &wire(BCAST, M1, None), 1).unwrap();
    assert_eq!(svc.forward(0, &wire(M1, M3, None), 2).unwrap_err(), AppError::Reflected);
}

#[test]
fn broadcast_floods_even_when_known() {
    let mut svc = switch();
    let ts = svc.forward(2, &wire(BCAST, M3, Some(VlanId(20))), 1).unwrap();
    assert_eq!(ports_of(&ts), vec![3]);
    assert_eq!(ts[0].bytes, wire(BCAST, M3, None));
}

#[test]
fn lone_port_in_vlan_drops_flood() {
    let ports = vec![PortConfig::access(VlanId(30)), PortConfig::access(VlanId(40))];
    let mut svc = ForwardingService::new(ports, 8, 1500, 300);
    assert_eq!(svc.port_count(), 2);
    assert_eq!(svc.forward(0, &wire(M2, M1, None), 1).unwrap_err(), AppError::NoEgressPort);
}

#[test]
fn bad_frames_are_dropped_with_reason() {
    let mut svc = switch();
    assert_eq!(
        svc.forward(0, &[0u8; 5], 1).unwrap_err(),
        AppError::Frame(FrameError::TooShort)
    );
    let mut truncated = wire(M2, M1, Some(VlanId(10)));
    truncated.truncate(16);
    assert_eq!(
        svc.forward(2, &truncated, 1).unwrap_err(),
        AppError::Frame(FrameError::Truncated)
    );
    assert_eq!(
        svc.forward(2, &wire(M2, M1, Some(VlanId(99))), 1).unwrap_err(),
        AppError::Vlan(VlanError::NotPermitted)
    );
    assert_eq!(svc.lookup(&MacAddress::new(M1), VlanId(99)), None);
}

#[test]
fn payload_over_mtu_is_not_sent() {
    let ports = vec![PortConfig::access(VlanId(10)), PortConfig::access(VlanId(10))];
    let mut svc = ForwardingService::new(ports, 8, 2, 300);
    assert_eq!(svc.forward(0, &wire(M2, M1, None), 1).unwrap_err(), AppError::NoEgressPort);
    svc.forward(1, &wire(BCAST, M2, None), 1).unwrap_err();
    assert_eq!(
        svc.forward(0, &wire(M2, M1, None), 1).unwrap_err(),
        AppError::Frame(FrameError::ExceedsMtu)
    );
}

#[test]
fn service_age_sweep_forgets_idle_sources() {
    let mut svc = switch();
    svc.forward(1, &wire(BCAST, M2, None), 100).unwrap();
    assert_eq!(svc.age_sweep(400), 0);
    assert_eq!(svc.age_sweep(401), 1);
    assert_eq!(svc.lookup(&MacAddress::new(M2), VlanId(10)), None);
    let ts = svc.forward(0, &wire(M2, M1, None), 402).unwrap();
    assert_eq!(ports_of(&ts), vec![1, 2]);
}
