//! Per-port VLAN policy: which VLAN a received frame belongs to, how a frame
//! leaves through a port, and tagging of raw frame bytes.
use vstd::prelude::*;
use crate::frame::{
    has_tpid, hi_byte, lo_byte, tci_vid, EthernetFrame, FrameView, VlanId, TAGGED_HEADER_LEN,
};

verus! {

/// How a port carries VLANs.
#[derive(Clone, Copy, Debug, PartialEq, Eq, Structural)]
pub enum VlanMode {
    /// Untagged traffic of one VLAN, the port's native VLAN.
    Access,
    /// Tagged traffic of every VLAN in the port's allowed set.
    Trunk,
}

/// Why a VLAN policy refused a frame.
#[derive(Clone, Copy, Debug, PartialEq, Eq, Structural)]
pub enum VlanError {
    /// The port does not carry the frame's VLAN.
    NotPermitted,
    /// The tag holds the reserved VLAN id 4095.
    Malformed,
}

/// VLAN configuration of one port.
#[derive(Clone, Debug)]
pub struct PortConfig {
    pub mode: VlanMode,
    /// The access VLAN of an access port, the native VLAN of a trunk.
    pub native_vlan: VlanId,
    /// The VLANs that a trunk port carries.
    pub allowed: Vec<VlanId>,
}

/// The highest VLAN id that a tag may carry; 4095 is reserved.
pub const MAX_VLAN_ID: u16 = 4094;

/// Traffic of VLAN `v` may leave and enter through port `p`.
pub open spec fn port_carries(p: PortConfig, v: VlanId) -> bool {
    match p.mode {
        VlanMode::Access => p.native_vlan == v,
        VlanMode::Trunk => p.allowed@.contains(v),
    }
}

/// The VLAN that a frame received on `p` belongs to.
pub open spec fn ingress_vlan_spec(tag: Option<VlanId>, p: PortConfig) -> Result<VlanId, VlanError> {
    match tag {
        None => Ok(p.native_vlan),
        Some(v) => {
            if v.0 == 0 {
                Ok(p.native_vlan)
            } else if v.0 > MAX_VLAN_ID {
                Err(VlanError::Malformed)
            } else if port_carries(p, v) {
                Ok(v)
            } else {
                Err(VlanError::NotPermitted)
            }
        },
    }
}

/// The frame that leaves through `p` for a frame of VLAN `v`: untagged on an
/// access port, tagged with `v` on a trunk.
pub open spec fn egress_spec(f: FrameView, v: VlanId, p: PortConfig) -> Result<FrameView, VlanError> {
    if !port_carries(p, v) {
        Err(VlanError::NotPermitted)
    } else {
        match p.mode {
            VlanMode::Access => Ok(FrameView { vlan: None, ..f }),
            VlanMode::Trunk => Ok(FrameView { vlan: Some(v), ..f }),
        }
    }
}

impl PortConfig {
    /// An access port of VLAN `vlan`.
    pub fn access(vlan: VlanId) -> (r: Self)
        ensures
            r.mode == VlanMode::Access,
            r.native_vlan == vlan,
            r.allowed@ == Seq::<VlanId>::empty(),
    {
        PortConfig { mode: VlanMode::Access, native_vlan: vlan, allowed: Vec::new() }
    }

    /// A trunk port with native VLAN `native` that carries `allowed`.
    pub fn trunk(native: VlanId, allowed: Vec<VlanId>) -> (r: Self)
        ensures
            r.mode == VlanMode::Trunk,
            r.native_vlan == native,
            r.allowed@ == allowed@,
    {
        PortConfig { mode: VlanMode::Trunk, native_vlan: native, allowed }
    }

    /// The port carries VLAN `v`.
    pub fn carries(&self, v: VlanId) -> (r: bool)
        ensures
            r == port_carries(*self, v),
    {
        match self.mode {
            VlanMode::Access => self.native_vlan.0 == v.0,
            VlanMode::Trunk => {
                let mut i: usize = 0;
                while i < self.allowed.len()
                    invariant
                        self.mode is Trunk,
                        0 <= i <= self.allowed@.len(),
                        forall|j: int| 0 <= j < i ==> self.allowed@[j] != v,
                    decreases self.allowed@.len() - i,
                {
                    if self.allowed[i].0 == v.0 {
                        assert(self.allowed@[i as int] == v);
                        return true;
                    }
                    i = i + 1;
                }
                false
            },
        }
    }
}

/// The VLAN that a frame received on `port` belongs to: its tag, checked
/// against the port's VLANs, or the port's native VLAN when it has none.
pub fn resolve_ingress_vlan(frame: &EthernetFrame, port: &PortConfig) -> (r: Result<VlanId, VlanError>)
    ensures
        r == ingress_vlan_spec(frame.vlan, *port),
{
    match frame.vlan {
        None => Ok(port.native_vlan),
        Some(v) => {
            if v.0 == 0 {
                Ok(port.native_vlan)
            } else if v.0 > MAX_VLAN_ID {
                Err(VlanError::Malformed)
            } else if port.carries(v) {
                Ok(v)
            } else {
                Err(VlanError::NotPermitted)
            }
        },
    }
}

/// A copy of `v`.
fn copy_bytes(v: &Vec<u8>) -> (r: Vec<u8>)
    ensures
        r@ == v@,
{
    let mut r: Vec<u8> = Vec::new();
    let mut i: usize = 0;
    while i < v.len()
        invariant
            0 <= i <= v@.len(),
            r@ == v@.subrange(0, i as int),
        decreases v@.len() - i,
    {
        r.push(v[i]);
        i = i + 1;
        assert(r@ =~= v@.subrange(0, i as int));
    }
    assert(r@ =~= v@);
    r
}

/// The frame of VLAN `vlan` as it leaves through `port`: without a tag on an
/// access port, with the tag `vlan` on a trunk. A port that does not carry
/// `vlan` refuses it.
pub fn apply_egress_policy(frame: &EthernetFrame, vlan: VlanId, port: &PortConfig) -> (r: Result<EthernetFrame, VlanError>)
    ensures
        match (r, egress_spec(frame@, vlan, *port)) {
            (Ok(f), Ok(g)) => f@ == g,
            (Err(e), Err(d)) => e == d,
            _ => false,
        },
{
    if !port.carries(vlan) {
        return Err(VlanError::NotPermitted);
    }
    let tag = match port.mode {
        VlanMode::Access => None,
        VlanMode::Trunk => Some(vlan),
    };
    Ok(
        EthernetFrame {
            dst_mac: frame.dst_mac,
            src_mac: frame.src_mac,
            vlan: tag,
            ethertype: frame.ethertype,
            payload: copy_bytes(&frame.payload),
        },
    )
}

/// Raw frame bytes with `v` as their 802.1Q tag: a tag is inserted after the
/// addresses, or an existing tag gets `v` as its VLAN id and keeps its
/// priority bits. Bytes too short for a header, or for the tag they
/// announce, stay as they are.
pub open spec fn tag_spec(b: Seq<u8>, v: VlanId) -> Seq<u8> {
    if b.len() < 14 {
        b
    } else if has_tpid(b) {
        if b.len() < 18 {
            b
        } else {
            b.update(14, ((b[14] / 16) * 16 + hi_byte(v.0)) as u8).update(15, lo_byte(v.0))
        }
    } else {
        b.subrange(0, 12) + seq![0x81u8, 0x00u8, hi_byte(v.0), lo_byte(v.0)] + b.subrange(
            12,
            b.len() as int,
        )
    }
}

/// Raw frame bytes without their 802.1Q tag, and the VLAN id it held.
pub open spec fn untag_spec(b: Seq<u8>) -> (Seq<u8>, Option<VlanId>) {
    if has_tpid(b) && b.len() >= 18 {
        (b.subrange(0, 12) + b.subrange(16, b.len() as int), Some(VlanId(tci_vid(b[14], b[15]))))
    } else {
        (b, None)
    }
}

/// Inserts and removes 802.1Q tags in raw frame bytes.
pub struct VlanService;

impl VlanService {
    pub fn new() -> (r: Self) {
        VlanService
    }

    /// Tags `packet` with `vlan` (see `tag_spec`).
    pub fn tag_packet(&self, packet: &mut Vec<u8>, vlan: VlanId)
        requires
            vlan.0 < 4096,
        ensures
            final(packet)@ == tag_spec(old(packet)@, vlan),
    {
        let n = packet.len();
        if n < 14 {
            return;
        }
        let hi: u8 = (vlan.0 / 256) as u8;
        let lo: u8 = (vlan.0 % 256) as u8;
        if packet[12] == 0x81 && packet[13] == 0x00 {
            if n < TAGGED_HEADER_LEN {
                return;
            }
            let pcp: u8 = (packet[14] / 16) * 16;
            packet.set(14, pcp + hi);
            packet.set(15, lo);
        } else {
            let ghost b = packet@;
            packet.insert(12, lo);
            packet.insert(12, hi);
            packet.insert(12, 0x00);
            packet.insert(12, 0x81);
            assert(packet@ =~= tag_spec(b, vlan));
        }
    }

    /// Strips the 802.1Q tag from `packet` and returns its VLAN id; `None`,
    /// with `packet` unchanged, when it carries no complete tag.
    pub fn untag_packet(&self, packet: &mut Vec<u8>) -> (r: Option<VlanId>)
        ensures
            (final(packet)@, r) == untag_spec(old(packet)@),
    {
        let n = packet.len();
        if n < TAGGED_HEADER_LEN || packet[12] != 0x81 || packet[13] != 0x00 {
            return None;
        }
        let vid: u16 = (packet[14] % 16) as u16 * 256 + packet[15] as u16;
        let ghost b = packet@;
        packet.remove(12);
        packet.remove(12);
        packet.remove(12);
        packet.remove(12);
        assert(packet@ =~= b.subrange(0, 12) + b.subrange(16, b.len() as int));
        Some(VlanId(vid))
    }
}

} // verus!
