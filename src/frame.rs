//! Ethernet II / IEEE 802.1Q frame layout: decoding raw bytes into a frame
//! and encoding a frame back into bytes.
use vstd::prelude::*;

verus! {

/// Length of an untagged Ethernet header: dst(6) src(6) ethertype(2).
pub const HEADER_LEN: usize = 14;

/// Length of a header that carries one 802.1Q tag: TPID(2) and TCI(2) more.
pub const TAGGED_HEADER_LEN: usize = 18;

/// The ethertype value that marks an 802.1Q tag (TPID).
pub const TPID: u16 = 0x8100;

/// A 12-bit VLAN identifier; 0 stands for the untagged / native context.
#[derive(Clone, Copy, Debug, PartialEq, Eq, Hash, Structural)]
pub struct VlanId(pub u16);

/// Six raw bytes of a MAC address.
#[derive(Clone, Copy, Debug, PartialEq, Eq, Hash)]
pub struct MacAddress(pub [u8; 6]);

impl MacAddress {
    pub fn new(addr: [u8; 6]) -> (r: Self)
        ensures
            r.0 == addr,
    {
        MacAddress(addr)
    }
}

/// Why bytes could not be turned into a frame, or a frame into bytes.
#[derive(Clone, Copy, Debug, PartialEq, Eq, Structural)]
pub enum FrameError {
    /// Fewer than the 14 bytes of an Ethernet header.
    TooShort,
    /// The header announces a VLAN tag that the buffer does not hold.
    Truncated,
    /// The payload is longer than the configured MTU.
    ExceedsMtu,
}

/// A decoded frame. `vlan` is `Some` exactly when the frame carries an
/// 802.1Q tag on the wire.
#[derive(Clone, Debug, PartialEq, Eq)]
pub struct EthernetFrame {
    pub dst_mac: [u8; 6],
    pub src_mac: [u8; 6],
    pub vlan: Option<VlanId>,
    pub ethertype: u16,
    pub payload: Vec<u8>,
}

/// Mathematical model of a frame.
pub struct FrameView {
    pub dst: Seq<u8>,
    pub src: Seq<u8>,
    pub vlan: Option<VlanId>,
    pub ethertype: u16,
    pub payload: Seq<u8>,
}

impl View for EthernetFrame {
    type V = FrameView;

    open spec fn view(&self) -> FrameView {
        FrameView {
            dst: self.dst_mac@,
            src: self.src_mac@,
            vlan: self.vlan,
            ethertype: self.ethertype,
            payload: self.payload@,
        }
    }
}

/// Big-endian value of two bytes.
pub open spec fn be16(hi: u8, lo: u8) -> u16 {
    (hi as int * 256 + lo as int) as u16
}

/// The VLAN id held in a TCI: its low 12 bits.
pub open spec fn tci_vid(hi: u8, lo: u8) -> u16 {
    ((hi % 16) as int * 256 + lo as int) as u16
}

pub open spec fn hi_byte(x: u16) -> u8 {
    (x / 256) as u8
}

pub open spec fn lo_byte(x: u16) -> u8 {
    (x % 256) as u8
}

/// Bytes 12 and 13 hold the TPID.
pub open spec fn has_tpid(b: Seq<u8>) -> bool {
    b.len() >= 14 && b[12] == 0x81 && b[13] == 0x00
}

/// What a buffer decodes to.
pub open spec fn decode_spec(b: Seq<u8>) -> Result<FrameView, FrameError> {
    if b.len() < 14 {
        Err(FrameError::TooShort)
    } else if has_tpid(b) {
        if b.len() < 18 {
            Err(FrameError::Truncated)
        } else {
            Ok(
                FrameView {
                    dst: b.subrange(0, 6),
                    src: b.subrange(6, 12),
                    vlan: Some(VlanId(tci_vid(b[14], b[15]))),
                    ethertype: be16(b[16], b[17]),
                    payload: b.subrange(18, b.len() as int),
                },
            )
        }
    } else {
        Ok(
            FrameView {
                dst: b.subrange(0, 6),
                src: b.subrange(6, 12),
                vlan: None,
                ethertype: be16(b[12], b[13]),
                payload: b.subrange(14, b.len() as int),
            },
        )
    }
}

/// The four tag bytes written for a VLAN id, or none for an untagged frame.
pub open spec fn tag_bytes(vlan: Option<VlanId>) -> Seq<u8> {
    match vlan {
        Some(v) => seq![0x81u8, 0x00u8, hi_byte(v.0), lo_byte(v.0)],
        None => Seq::empty(),
    }
}

/// The wire bytes of a frame: dst, src, optional tag, ethertype, payload.
pub open spec fn encode_spec(f: FrameView) -> Seq<u8> {
    f.dst + f.src + tag_bytes(f.vlan) + seq![hi_byte(f.ethertype), lo_byte(f.ethertype)]
        + f.payload
}

/// A frame that the wire format can carry and give back unchanged: six-byte
/// addresses, a 12-bit VLAN id, and no untagged frame whose ethertype reads
/// as a TPID.
pub open spec fn frame_wf(f: FrameView) -> bool {
    &&& f.dst.len() == 6
    &&& f.src.len() == 6
    &&& match f.vlan {
        Some(v) => v.0 < 4096,
        None => f.ethertype != TPID,
    }
}

impl EthernetFrame {
    /// An untagged frame.
    pub fn new(dst_mac: [u8; 6], src_mac: [u8; 6], ethertype: u16, payload: Vec<u8>) -> (r: Self)
        ensures
            r.dst_mac == dst_mac,
            r.src_mac == src_mac,
            r.vlan.is_none(),
            r.ethertype == ethertype,
            r.payload == payload,
    {
        EthernetFrame { dst_mac, src_mac, vlan: None, ethertype, payload }
    }

    /// Length of the header on the wire: 18 with a tag, 14 without.
    pub open spec fn header_len_spec(&self) -> nat {
        if self.vlan.is_some() {
            18
        } else {
            14
        }
    }

    /// Total length of the frame on the wire.
    pub fn len(&self) -> (r: usize)
        requires
            self.payload@.len() + 18 <= usize::MAX,
        ensures
            r == self.header_len_spec() + self.payload@.len(),
    {
        let header = if self.vlan.is_some() {
            TAGGED_HEADER_LEN
        } else {
            HEADER_LEN
        };
        header + self.payload.len()
    }

    /// The frame carries no payload.
    pub fn is_empty(&self) -> (r: bool)
        ensures
            r == (self.payload@.len() == 0),
    {
        self.payload.is_empty()
    }
}

/// Copies `b[start..]` into a new vector.
fn copy_from(b: &[u8], start: usize) -> (r: Vec<u8>)
    requires
        start <= b@.len(),
    ensures
        r@ == b@.subrange(start as int, b@.len() as int),
{
    let mut r: Vec<u8> = Vec::new();
    let mut i: usize = start;
    while i < b.len()
        invariant
            start <= i <= b@.len(),
            r@ == b@.subrange(start as int, i as int),
        decreases b@.len() - i,
    {
        r.push(b[i]);
        i = i + 1;
        assert(r@ =~= b@.subrange(start as int, i as int));
    }
    r
}

/// Six bytes of `b` from `start` on, as an array.
fn mac_at(b: &[u8], start: usize) -> (r: [u8; 6])
    requires
        start + 6 <= b@.len(),
    ensures
        r@ == b@.subrange(start as int, start + 6),
{
    let r = [b[start], b[start + 1], b[start + 2], b[start + 3], b[start + 4], b[start + 5]];
    assert(r@ =~= b@.subrange(start as int, start + 6));
    r
}

/// Parses raw bytes as an Ethernet frame, with or without one 802.1Q tag.
pub fn decode(bytes: &[u8]) -> (r: Result<EthernetFrame, FrameError>)
    ensures
        match (r, decode_spec(bytes@)) {
            (Ok(f), Ok(v)) => f@ == v,
            (Err(e), Err(d)) => e == d,
            _ => false,
        },
{
    let n = bytes.len();
    if n < HEADER_LEN {
        return Err(FrameError::TooShort);
    }
    let dst_mac = mac_at(bytes, 0);
    let src_mac = mac_at(bytes, 6);
    if bytes[12] == 0x81 && bytes[13] == 0x00 {
        if n < TAGGED_HEADER_LEN {
            return Err(FrameError::Truncated);
        }
        let vid: u16 = (bytes[14] % 16) as u16 * 256 + bytes[15] as u16;
        let ethertype: u16 = bytes[16] as u16 * 256 + bytes[17] as u16;
        let payload = copy_from(bytes, TAGGED_HEADER_LEN);
        Ok(EthernetFrame { dst_mac, src_mac, vlan: Some(VlanId(vid)), ethertype, payload })
    } else {
        let ethertype: u16 = bytes[12] as u16 * 256 + bytes[13] as u16;
        let payload = copy_from(bytes, HEADER_LEN);
        Ok(EthernetFrame { dst_mac, src_mac, vlan: None, ethertype, payload })
    }
}

/// Writes a frame in its wire layout; fails when the payload exceeds `mtu`.
pub fn encode(frame: &EthernetFrame, mtu: usize) -> (r: Result<Vec<u8>, FrameError>)
    ensures
        frame.payload@.len() > mtu ==> r == Err::<Vec<u8>, FrameError>(FrameError::ExceedsMtu),
        frame.payload@.len() <= mtu ==> (r matches Ok(b) && b@ == encode_spec(frame@)),
{
    if frame.payload.len() > mtu {
        return Err(FrameError::ExceedsMtu);
    }
    let mut out: Vec<u8> = Vec::new();
    let mut i: usize = 0;
    while i < 6
        invariant
            0 <= i <= 6,
            out@ == frame.dst_mac@.subrange(0, i as int),
        decreases 6 - i,
    {
        out.push(frame.dst_mac[i]);
        i = i + 1;
        assert(out@ =~= frame.dst_mac@.subrange(0, i as int));
    }
    assert(out@ =~= frame.dst_mac@);
    let mut i: usize = 0;
    while i < 6
        invariant
            0 <= i <= 6,
            out@ == frame.dst_mac@ + frame.src_mac@.subrange(0, i as int),
        decreases 6 - i,
    {
        out.push(frame.src_mac[i]);
        i = i + 1;
        assert(out@ =~= frame.dst_mac@ + frame.src_mac@.subrange(0, i as int));
    }
    assert(out@ =~= frame.dst_mac@ + frame.src_mac@);
    match frame.vlan {
        Some(v) => {
            out.push(0x81);
            out.push(0x00);
            out.push((v.0 / 256) as u8);
            out.push((v.0 % 256) as u8);
        },
        None => {},
    }
    assert(out@ =~= frame.dst_mac@ + frame.src_mac@ + tag_bytes(frame.vlan));
    out.push((frame.ethertype / 256) as u8);
    out.push((frame.ethertype % 256) as u8);
    let ghost head = out@;
    let mut i: usize = 0;
    while i < frame.payload.len()
        invariant
            0 <= i <= frame.payload@.len(),
            out@ == head + frame.payload@.subrange(0, i as int),
        decreases frame.payload@.len() - i,
    {
        out.push(frame.payload[i]);
        i = i + 1;
        assert(out@ =~= head + frame.payload@.subrange(0, i as int));
    }
    assert(out@ =~= encode_spec(frame@));
    Ok(out)
}

proof fn lemma_bytes_of(x: u16)
    ensures
        be16(hi_byte(x), lo_byte(x)) == x,
        x < 4096 ==> tci_vid(hi_byte(x), lo_byte(x)) == x,
        (hi_byte(x) == 0x81 && lo_byte(x) == 0) ==> x == TPID,
{
    assert(x as int == (x as int / 256) * 256 + x as int % 256) by (nonlinear_arith);
    assert(x < 4096 ==> x as int / 256 < 16) by (nonlinear_arith);
}

/// Decoding the bytes that a well-formed frame encodes to gives that frame
/// back, tagged or untagged.
pub proof fn lemma_decode_encode(f: FrameView)
    requires
        frame_wf(f),
    ensures
        decode_spec(encode_spec(f)) == Ok::<FrameView, FrameError>(f),
{
    let b = encode_spec(f);
    lemma_bytes_of(f.ethertype);
    match f.vlan {
        Some(v) => {
            lemma_bytes_of(v.0);
            assert(b.len() == 18 + f.payload.len());
            assert(b[12] == 0x81 && b[13] == 0);
            assert(b.subrange(0, 6) =~= f.dst);
            assert(b.subrange(6, 12) =~= f.src);
            assert(b.subrange(18, b.len() as int) =~= f.payload);
            assert(b[14] == hi_byte(v.0) && b[15] == lo_byte(v.0));
            assert(b[16] == hi_byte(f.ethertype) && b[17] == lo_byte(f.ethertype));
        },
        None => {
            assert(b.len() == 14 + f.payload.len());
            assert(b[12] == hi_byte(f.ethertype) && b[13] == lo_byte(f.ethertype));
            assert(!has_tpid(b));
            assert(b.subrange(0, 6) =~= f.dst);
            assert(b.subrange(6, 12) =~= f.src);
            assert(b.subrange(14, b.len() as int) =~= f.payload);
        },
    }
}

/// A buffer shorter than an Ethernet header never decodes: it is `TooShort`.
pub proof fn lemma_decode_too_short(b: Seq<u8>)
    requires
        b.len() < 14,
    ensures
        decode_spec(b) == Err::<FrameView, FrameError>(FrameError::TooShort),
{
}

/// Fourteen zero bytes decode to an untagged frame with ethertype 0 and an
/// empty payload.
pub proof fn lemma_decode_zero_header(b: Seq<u8>)
    requires
        b.len() == 14,
        forall|i: int| 0 <= i < 14 ==> b[i] == 0,
    ensures
        decode_spec(b) matches Ok(f) && f.vlan.is_none() && f.ethertype == 0 && f.payload.len()
            == 0,
{
    assert(b[12] == 0 && b[13] == 0);
}

} // verus!
