use dataplane::frame::{decode, encode, EthernetFrame, FrameError, VlanId};

fn sample_untagged() -> EthernetFrame {
    EthernetFrame::new([1, 2, 3, 4, 5, 6], [7, 8, 9, 10, 11, 12], 0x0800, vec![0xde, 0xad, 0xbe, 0xef])
}

#[test]
fn round_trip_untagged() {
    let f = sample_untagged();
    let bytes = encode(&f, 1500).unwrap();
    assert_eq!(
        bytes,
        vec![1, 2, 3, 4, 5, 6, 7, 8, 9, 10, 11, 12, 0x08, 0x00, 0xde, 0xad, 0xbe, 0xef]
    );
    assert_eq!(decode(&bytes), Ok(f));
}

#[test]
fn round_trip_tagged() {
    let mut f = sample_untagged();
    f.vlan = Some(VlanId(0x123));
    let bytes = encode(&f, 1500).unwrap();
    assert_eq!(&bytes[12..18], &[0x81, 0x00, 0x01, 0x23, 0x08, 0x00]);
    assert_eq!(bytes.len(), 22);
    assert_eq!(decode(&bytes), Ok(f));
}

#[test]
fn short_buffers_are_too_short() {
    for n in 0..14 {
        let b = vec![0u8; n];
        assert_eq!(decode(&b), Err(FrameError::TooShort));
    }
}

#[test]
fn zero_header_decodes() {
    let b = [0u8; 14];
    let f = decode(&b).unwrap();
    assert_eq!(f.ethertype, 0);
    assert!(f.payload.is_empty());
    assert!(f.is_empty());
    assert_eq!(f.vlan, None);
    assert_eq!(f.len(), 14);
}

#[test]
fn tag_without_room_is_truncated() {
    let mut b = vec![0u8; 17];
    b[12] = 0x81;
    assert_eq!(decode(&b), Err(FrameError::Truncated));
    b.push(0);
    let f = decode(&b).unwrap();
    assert_eq!(f.vlan, Some(VlanId(0)));
    assert_eq!(f.len(), 18);
}

#[test]
fn tci_priority_bits_are_not_vlan() {
    let mut b = vec![0u8; 20];
    b[12] = 0x81;
    b[14] = 0xff;
    b[15] = 0xfe;
    b[16] = 0x86;
    b[17] = 0xdd;
    let f = decode(&b).unwrap();
    assert_eq!(f.vlan, Some(VlanId(0xffe)));
    assert_eq!(f.ethertype, 0x86dd);
    assert_eq!(f.payload, vec![0, 0]);
}

#[test]
fn encode_refuses_payload_over_mtu() {
    let f = sample_untagged();
    assert_eq!(encode(&f, 3), Err(FrameError::ExceedsMtu));
    assert!(encode(&f, 4).is_ok());
}

#[test]
fn frame_length_counts_header() {
    let mut f = sample_untagged();
    assert_eq!(f.len(), 18);
    assert!(!f.is_empty());
    f.vlan = Some(VlanId(1));
    assert_eq!(f.len(), 22);
}
