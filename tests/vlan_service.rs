use dataplane::frame::{decode, EthernetFrame, VlanId};
use dataplane::vlan::{
    apply_egress_policy, resolve_ingress_vlan, PortConfig, VlanError, VlanService,
};

#[test]
fn test_tag_packet() {
    let service = VlanService::new();
    let mut packet = vec![0u8; 64];

    service.tag_packet(&mut packet, VlanId(100));

    // 802.1Q: TPID at bytes 12-13, TCI (VLAN id) at bytes 14-15.
    let tpid = ((packet[12] as u16) << 8) | (packet[13] as u16);
    assert_eq!(tpid, 0x8100);
    let actual = ((packet[14] as u16) << 8) | (packet[15] as u16);
    assert_eq!(actual, 100);
    assert_eq!(packet.len(), 68);
}

#[test]
fn test_untag_packet() {
    let service = VlanService::new();
    let mut packet = vec![0u8; 64];

    packet[12] = 0x81;
    packet[13] = 0x00;
    packet[14] = 0;
    packet[15] = 100;

    let vlan = service.untag_packet(&mut packet);
    assert_eq!(vlan, Some(VlanId(100)));
    assert_eq!(packet.len(), 60);
}

#[test]
fn test_untag_too_short() {
    let service = VlanService::new();
    let mut small = vec![0u8; 10];
    assert!(service.untag_packet(&mut small).is_none());
    assert_eq!(small.len(), 10);
}

#[test]
fn untag_leaves_untagged_bytes_alone() {
    let service = VlanService::new();
    let mut packet = vec![0u8; 64];
    packet[12] = 0;
    packet[13] = 100;
    let before = packet.clone();
    assert_eq!(service.untag_packet(&mut packet), None);
    assert_eq!(packet, before);
}

#[test]
fn tag_then_untag_gives_the_packet_back() {
    let service = VlanService::new();
    let original: Vec<u8> = (0u8..40).collect();
    let mut packet = original.clone();
    service.tag_packet(&mut packet, VlanId(4000));
    assert_eq!(packet[14], 0x0f);
    assert_eq!(packet[15], 0xa0);
    assert_eq!(service.untag_packet(&mut packet), Some(VlanId(4000)));
    assert_eq!(packet, original);
}

#[test]
fn retag_keeps_priority_bits() {
    let service = VlanService::new();
    let mut packet = vec![0u8; 30];
    packet[12] = 0x81;
    packet[14] = 0xa0 | 0x01; // priority 5, VLAN 0x1ff
    packet[15] = 0xff;
    service.tag_packet(&mut packet, VlanId(7));
    assert_eq!(packet.len(), 30);
    assert_eq!(packet[14], 0xa0);
    assert_eq!(packet[15], 7);
}

#[test]
fn tag_short_packet_is_unchanged() {
    let service = VlanService::new();
    let mut packet = vec![1u8; 13];
    service.tag_packet(&mut packet, VlanId(5));
    assert_eq!(packet, vec![1u8; 13]);
}

fn untagged_frame() -> EthernetFrame {
    EthernetFrame::new([0xff; 6], [2, 0, 0, 0, 0, 1], 0x0800, vec![1, 2, 3])
}

#[test]
fn untagged_frame_on_access_port_exits_per_port_policy() {
    let ingress = PortConfig::access(VlanId(10));
    let access = PortConfig::access(VlanId(10));
    let trunk = PortConfig::trunk(VlanId(1), vec![VlanId(10), VlanId(20)]);
    let frame = untagged_frame();
    let vlan = resolve_ingress_vlan(&frame, &ingress).unwrap();
    assert_eq!(vlan, VlanId(10));
    let out_access = apply_egress_policy(&frame, vlan, &access).unwrap();
    assert_eq!(out_access.vlan, None);
    let out_trunk = apply_egress_policy(&frame, vlan, &trunk).unwrap();
    assert_eq!(out_trunk.vlan, Some(VlanId(10)));
    assert_eq!(out_trunk.payload, vec![1, 2, 3]);
}

#[test]
fn trunk_refuses_vlan_it_does_not_carry() {
    let trunk = PortConfig::trunk(VlanId(1), vec![VlanId(20)]);
    let mut frame = untagged_frame();
    assert_eq!(apply_egress_policy(&frame, VlanId(10), &trunk), Err(VlanError::NotPermitted));
    frame.vlan = Some(VlanId(10));
    assert_eq!(resolve_ingress_vlan(&frame, &trunk), Err(VlanError::NotPermitted));
    frame.vlan = Some(VlanId(20));
    assert_eq!(resolve_ingress_vlan(&frame, &trunk), Ok(VlanId(20)));
    frame.vlan = None;
    assert_eq!(resolve_ingress_vlan(&frame, &trunk), Ok(VlanId(1)));
}

#[test]
fn reserved_vlan_is_malformed() {
    let trunk = PortConfig::trunk(VlanId(1), vec![VlanId(4095)]);
    let mut frame = untagged_frame();
    frame.vlan = Some(VlanId(4095));
    assert_eq!(resolve_ingress_vlan(&frame, &trunk), Err(VlanError::Malformed));
}

#[test]
fn priority_tag_uses_native_vlan() {
    let access = PortConfig::access(VlanId(30));
    let bytes = [
        1, 2, 3, 4, 5, 6, 7, 8, 9, 10, 11, 12, 0x81, 0x00, 0xe0, 0x00, 0x08, 0x00,
    ];
    let frame = decode(&bytes).unwrap();
    assert_eq!(frame.vlan, Some(VlanId(0)));
    assert_eq!(resolve_ingress_vlan(&frame, &access), Ok(VlanId(30)));
}
