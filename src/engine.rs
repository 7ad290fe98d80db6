//! The forwarding decision for one received frame: decode, resolve the VLAN,
//! learn the source, look up the destination, apply the egress policy of each
//! output port and encode.
use vstd::prelude::*;
use crate::frame::{
    decode, decode_spec, encode, encode_spec, EthernetFrame, FrameError, FrameView, MacAddress,
    VlanId,
};
use crate::port::{NetIf, Pipeline};
use crate::table::{learn_spec, lookup_spec, sweep_spec, ForwardingEntry, MacTable};
use crate::vlan::{
    apply_egress_policy, egress_spec, ingress_vlan_spec, port_carries, resolve_ingress_vlan,
    PortConfig, VlanMode,
};

verus! {

/// Why a frame was dropped as a whole.
#[derive(Clone, Copy, Debug, PartialEq, Eq, Structural)]
pub enum AppError {
    /// The bytes are no frame, or the frame does not fit the MTU.
    Frame(FrameError),
    /// A VLAN policy refused the frame.
    Vlan(crate::vlan::VlanError),
    /// The destination is reached through the port the frame came in on.
    Reflected,
    /// No other port carries the frame's VLAN.
    NoEgressPort,
}

/// Bytes to send on one port.
#[derive(Clone, Debug)]
pub struct Transmission {
    pub port: u16,
    pub bytes: Vec<u8>,
}

pub open spec fn tx_views(ts: Seq<Transmission>) -> Seq<(u16, Seq<u8>)> {
    ts.map_values(|t: Transmission| (t.port, t.bytes@))
}

/// The MAC address whose bytes are `s`.
pub open spec fn mac_of(s: Seq<u8>) -> MacAddress {
    MacAddress(choose|a: [u8; 6]| a@ == s)
}

proof fn lemma_mac_of(a: [u8; 6])
    ensures
        mac_of(a@) == MacAddress(a),
{
    let c = choose|c: [u8; 6]| c@ == a@;
    assert(c@ == a@);
    assert(c =~= a);
}

proof fn lemma_mac_of_bytes(x: Seq<u8>)
    requires
        x.len() == 6,
    ensures
        mac_of(x).0@ == x,
{
    let a: [u8; 6] = [x[0], x[1], x[2], x[3], x[4], x[5]];
    assert(a@ =~= x);
}

/// A group (broadcast or multicast) address: the low bit of its first byte.
pub open spec fn is_group(dst: Seq<u8>) -> bool {
    dst[0] % 2 == 1
}

/// The frame of VLAN `v` as it leaves through `p`, for a port that carries `v`.
pub open spec fn egress_frame(f: FrameView, v: VlanId, p: PortConfig) -> FrameView {
    match p.mode {
        VlanMode::Access => FrameView { vlan: None, ..f },
        VlanMode::Trunk => FrameView { vlan: Some(v), ..f },
    }
}

/// The copies that a flood sends on ports `0..n`: one on each port other
/// than `ingress` that carries `v`, when the payload fits the MTU.
pub open spec fn flood_upto(
    ports: Seq<PortConfig>,
    ingress: u16,
    f: FrameView,
    v: VlanId,
    mtu: nat,
    n: nat,
) -> Seq<(u16, Seq<u8>)>
    decreases n,
{
    if n == 0 {
        Seq::empty()
    } else {
        let prev = flood_upto(ports, ingress, f, v, mtu, (n - 1) as nat);
        let q = (n - 1) as int;
        if q != ingress as int && port_carries(ports[q], v) && f.payload.len() <= mtu {
            prev.push((q as u16, encode_spec(egress_frame(f, v, ports[q]))))
        } else {
            prev
        }
    }
}

/// A flood over every port; dropped when it reaches no port.
pub open spec fn flood_spec(ports: Seq<PortConfig>, ingress: u16, f: FrameView, v: VlanId, mtu: nat) -> Result<
    Seq<(u16, Seq<u8>)>,
    AppError,
> {
    let s = flood_upto(ports, ingress, f, v, mtu, ports.len());
    if s.len() == 0 {
        Err(AppError::NoEgressPort)
    } else {
        Ok(s)
    }
}

/// What is sent for frame `f` of VLAN `v` that the table sends to port `p`.
pub open spec fn unicast_spec(ports: Seq<PortConfig>, ingress: u16, f: FrameView, v: VlanId, mtu: nat, p: u16) -> Result<
    Seq<(u16, Seq<u8>)>,
    AppError,
> {
    if p == ingress {
        Err(AppError::Reflected)
    } else {
        match egress_spec(f, v, ports[p as int]) {
            Err(e) => Err(AppError::Vlan(e)),
            Ok(g) => {
                if g.payload.len() > mtu {
                    Err(AppError::Frame(FrameError::ExceedsMtu))
                } else {
                    Ok(seq![(p, encode_spec(g))])
                }
            },
        }
    }
}

/// The table after a frame of bytes `b` arrives on `ingress` at `now`: the
/// source is learned on the frame's VLAN once the frame decodes and its VLAN
/// is admitted.
pub open spec fn forward_table_spec(
    ports: Seq<PortConfig>,
    fib: Seq<ForwardingEntry>,
    cap: nat,
    ingress: u16,
    b: Seq<u8>,
    now: u64,
) -> Seq<ForwardingEntry> {
    match decode_spec(b) {
        Err(_) => fib,
        Ok(f) => match ingress_vlan_spec(f.vlan, ports[ingress as int]) {
            Err(_) => fib,
            Ok(v) => learn_spec(fib, cap, mac_of(f.src), v, ingress, now),
        },
    }
}

/// What is sent for bytes `b` that arrive on `ingress` at `now`.
pub open spec fn forward_spec(
    ports: Seq<PortConfig>,
    fib: Seq<ForwardingEntry>,
    cap: nat,
    mtu: nat,
    ingress: u16,
    b: Seq<u8>,
    now: u64,
) -> Result<Seq<(u16, Seq<u8>)>, AppError> {
    match decode_spec(b) {
        Err(e) => Err(AppError::Frame(e)),
        Ok(f) => match ingress_vlan_spec(f.vlan, ports[ingress as int]) {
            Err(e) => Err(AppError::Vlan(e)),
            Ok(v) => {
                let t = learn_spec(fib, cap, mac_of(f.src), v, ingress, now);
                if is_group(f.dst) {
                    flood_spec(ports, ingress, f, v, mtu)
                } else {
                    match lookup_spec(t, mac_of(f.dst), v) {
                        None => flood_spec(ports, ingress, f, v, mtu),
                        Some(p) => unicast_spec(ports, ingress, f, v, mtu, p),
                    }
                }
            },
        },
    }
}

/// Every copy that a flood sends leaves through a port other than `ingress`
/// that carries `v`, at most one per port, in port order; every such port
/// gets one when the payload fits the MTU.
pub proof fn lemma_flood_targets(
    ports: Seq<PortConfig>,
    ingress: u16,
    f: FrameView,
    v: VlanId,
    mtu: nat,
    n: nat,
)
    requires
        n <= ports.len() <= 65536,
    ensures
        forall|k: int|
            0 <= k < flood_upto(ports, ingress, f, v, mtu, n).len() ==> {
                let q = (#[trigger] flood_upto(ports, ingress, f, v, mtu, n)[k]).0;
                &&& q != ingress
                &&& (q as int) < n
                &&& port_carries(ports[q as int], v)
                &&& flood_upto(ports, ingress, f, v, mtu, n)[k].1 == encode_spec(
                    egress_frame(f, v, ports[q as int]),
                )
            },
        forall|a: int, b: int|
            0 <= a < b < flood_upto(ports, ingress, f, v, mtu, n).len() ==> (#[trigger] flood_upto(
                ports,
                ingress,
                f,
                v,
                mtu,
                n,
            )[a]).0 < (#[trigger] flood_upto(ports, ingress, f, v, mtu, n)[b]).0,
        forall|q: int|
            0 <= q < n && q != ingress && #[trigger] port_carries(ports[q], v) && f.payload.len()
                <= mtu ==> exists|k: int|
                0 <= k < flood_upto(ports, ingress, f, v, mtu, n).len() && (#[trigger] flood_upto(
                    ports,
                    ingress,
                    f,
                    v,
                    mtu,
                    n,
                )[k]).0 == q,
    decreases n,
{
    if n > 0 {
        let m = (n - 1) as nat;
        lemma_flood_targets(ports, ingress, f, v, mtu, m);
        let prev = flood_upto(ports, ingress, f, v, mtu, m);
        let cur = flood_upto(ports, ingress, f, v, mtu, n);
        assert forall|q: int|
            0 <= q < n && q != ingress && #[trigger] port_carries(ports[q], v) && f.payload.len()
                <= mtu implies exists|k: int| 0 <= k < cur.len() && (#[trigger] cur[k]).0 == q by {
            if q == m {
                assert(cur[cur.len() - 1].0 == q);
            } else {
                let k = choose|k: int| 0 <= k < prev.len() && (#[trigger] prev[k]).0 == q;
                assert(cur[k] == prev[k]);
            }
        }
        assert forall|a: int, b: int| 0 <= a < b < cur.len() implies (#[trigger] cur[a]).0 < (
        #[trigger] cur[b]).0 by {
            assert(cur[a] == prev[a]);
            if b < prev.len() {
                assert(cur[b] == prev[b]);
            }
        }
        assert forall|k: int| 0 <= k < cur.len() implies {
            let q = (#[trigger] cur[k]).0;
            &&& q != ingress
            &&& (q as int) < n
            &&& port_carries(ports[q as int], v)
            &&& cur[k].1 == encode_spec(egress_frame(f, v, ports[q as int]))
        } by {
            if k < prev.len() {
                assert(cur[k] == prev[k]);
            }
        }
    }
}

/// A unicast frame to a learned address `M2` on VLAN `V`, arriving on
/// `ingress`, goes out once, on the learned port only and never on
/// `ingress`; when the learned port is `ingress` it is dropped. This holds
/// unless learning the frame's own source displaces the entry of `M2`: a
/// source equal to `M2`, or a full table whose least recently learned entry
/// is that of `M2`.
pub proof fn lemma_unicast(
    ports: Seq<PortConfig>,
    fib: Seq<ForwardingEntry>,
    cap: nat,
    mtu: nat,
    ingress: u16,
    b: Seq<u8>,
    now: u64,
    f: FrameView,
    v: VlanId,
    port2: u16,
)
    requires
        crate::table::keys_unique(fib),
        fib.len() <= cap,
        0 < cap,
        (ingress as int) < ports.len(),
        decode_spec(b) == Ok::<FrameView, FrameError>(f),
        ingress_vlan_spec(f.vlan, ports[ingress as int]) == Ok::<VlanId, crate::vlan::VlanError>(v),
        !is_group(f.dst),
        lookup_spec(fib, mac_of(f.dst), v) == Some(port2),
        f.src != f.dst,
        !(fib.len() >= cap && !crate::table::has_key(fib, mac_of(f.src), v)
            && crate::table::key_is(fib[0], mac_of(f.dst), v)),
    ensures
        port2 == ingress ==> forward_spec(ports, fib, cap, mtu, ingress, b, now) == Err::<
            Seq<(u16, Seq<u8>)>,
            AppError,
        >(AppError::Reflected),
        forward_spec(ports, fib, cap, mtu, ingress, b, now) matches Ok(ts) ==> ts.len() == 1
            && ts[0].0 == port2 && port2 != ingress,
        port2 != ingress && port_carries(ports[port2 as int], v) && f.payload.len() <= mtu
            ==> forward_spec(ports, fib, cap, mtu, ingress, b, now) == Ok::<
            Seq<(u16, Seq<u8>)>,
            AppError,
        >(seq![(port2, encode_spec(egress_frame(f, v, ports[port2 as int])))]),
{
    lemma_mac_of_bytes(f.src);
    lemma_mac_of_bytes(f.dst);
    crate::table::lemma_learn_keeps_other(fib, cap, mac_of(f.src), v, ingress, now, mac_of(f.dst), v);
}

/// A frame to an address that the table does not know on its VLAN `V` is
/// flooded: it goes out on every port other than `ingress` that carries
/// `V` (when it fits the MTU) and on no other port; when no other port
/// carries `V` it is dropped, never sent back out of `ingress`. This holds
/// unless the frame's source is its own destination, which learning binds
/// to `ingress`.
pub proof fn lemma_flood(
    ports: Seq<PortConfig>,
    fib: Seq<ForwardingEntry>,
    cap: nat,
    mtu: nat,
    ingress: u16,
    b: Seq<u8>,
    now: u64,
    f: FrameView,
    v: VlanId,
)
    requires
        crate::table::keys_unique(fib),
        fib.len() <= cap,
        0 < cap,
        ports.len() <= 65536,
        (ingress as int) < ports.len(),
        decode_spec(b) == Ok::<FrameView, FrameError>(f),
        ingress_vlan_spec(f.vlan, ports[ingress as int]) == Ok::<VlanId, crate::vlan::VlanError>(v),
        lookup_spec(fib, mac_of(f.dst), v) == None::<u16>,
        f.src != f.dst,
    ensures
        forward_spec(ports, fib, cap, mtu, ingress, b, now) == flood_spec(ports, ingress, f, v, mtu),
        forward_spec(ports, fib, cap, mtu, ingress, b, now) matches Ok(ts) ==> forall|k: int|
            0 <= k < ts.len() ==> (#[trigger] ts[k]).0 != ingress && port_carries(
                ports[ts[k].0 as int],
                v,
            ),
        forall|q: int|
            0 <= q < ports.len() && q != ingress && #[trigger] port_carries(ports[q], v)
                && f.payload.len() <= mtu ==> forward_spec(ports, fib, cap, mtu, ingress, b, now)
                == Ok::<Seq<(u16, Seq<u8>)>, AppError>(flood_upto(ports, ingress, f, v, mtu, ports.len()))
                && exists|k: int|
                0 <= k < flood_upto(ports, ingress, f, v, mtu, ports.len()).len() && (#[trigger] flood_upto(
                    ports,
                    ingress,
                    f,
                    v,
                    mtu,
                    ports.len(),
                )[k]).0 == q,
        (forall|q: int| 0 <= q < ports.len() && q != ingress ==> !#[trigger] port_carries(ports[q], v))
            ==> forward_spec(ports, fib, cap, mtu, ingress, b, now) == Err::<
            Seq<(u16, Seq<u8>)>,
            AppError,
        >(AppError::NoEgressPort),
{
    lemma_mac_of_bytes(f.src);
    lemma_mac_of_bytes(f.dst);
    crate::table::lemma_learn_keeps_other(fib, cap, mac_of(f.src), v, ingress, now, mac_of(f.dst), v);
    lemma_flood_targets(ports, ingress, f, v, mtu, ports.len());
    let s = flood_upto(ports, ingress, f, v, mtu, ports.len());
    if forall|q: int| 0 <= q < ports.len() && q != ingress ==> !#[trigger] port_carries(ports[q], v) {
        if s.len() > 0 {
            let q = s[0].0 as int;
            assert(!port_carries(ports[q], v));
        }
    }
    assert forall|q: int|
        0 <= q < ports.len() && q != ingress && #[trigger] port_carries(ports[q], v)
            && f.payload.len() <= mtu implies forward_spec(ports, fib, cap, mtu, ingress, b, now)
            == Ok::<Seq<(u16, Seq<u8>)>, AppError>(s) && exists|k: int|
            0 <= k < s.len() && (#[trigger] s[k]).0 == q by {
        let k = choose|k: int| 0 <= k < s.len() && (#[trigger] s[k]).0 == q;
    }
}

/// An untagged frame received on an access port of VLAN `V` belongs to
/// `V`; sent to another access port of `V` it leaves untagged, and sent to
/// a trunk that permits `V` it leaves tagged with `V`. Either copy decodes
/// back to the frame with that tagging.
pub proof fn lemma_vlan_policy(f: FrameView, v: VlanId, ingress: PortConfig, access: PortConfig, trunk: PortConfig)
    requires
        crate::frame::frame_wf(f),
        f.vlan.is_none(),
        0 < v.0 <= crate::vlan::MAX_VLAN_ID,
        ingress.mode == VlanMode::Access,
        ingress.native_vlan == v,
        access.mode == VlanMode::Access,
        access.native_vlan == v,
        trunk.mode == VlanMode::Trunk,
        trunk.allowed@.contains(v),
    ensures
        ingress_vlan_spec(f.vlan, ingress) == Ok::<VlanId, crate::vlan::VlanError>(v),
        egress_spec(f, v, access) == Ok::<FrameView, crate::vlan::VlanError>(egress_frame(f, v, access)),
        egress_frame(f, v, access).vlan == None::<VlanId>,
        egress_spec(f, v, trunk) == Ok::<FrameView, crate::vlan::VlanError>(egress_frame(f, v, trunk)),
        egress_frame(f, v, trunk).vlan == Some(v),
        decode_spec(encode_spec(egress_frame(f, v, access))) == Ok::<FrameView, FrameError>(
            egress_frame(f, v, access),
        ),
        decode_spec(encode_spec(egress_frame(f, v, trunk))) == Ok::<FrameView, FrameError>(
            egress_frame(f, v, trunk),
        ),
{
    crate::frame::lemma_decode_encode(egress_frame(f, v, access));
    crate::frame::lemma_decode_encode(egress_frame(f, v, trunk));
}

/// A switch: its ports' VLAN configuration, its forwarding table, the MTU and
/// the aging timeout.
pub struct ForwardingService {
    ports: Vec<PortConfig>,
    table: MacTable,
    mtu: usize,
    aging_timeout: u64,
}

impl ForwardingService {
    pub closed spec fn port_configs(&self) -> Seq<PortConfig> {
        self.ports@
    }

    pub closed spec fn fib(&self) -> MacTable {
        self.table
    }

    pub closed spec fn mtu_spec(&self) -> nat {
        self.mtu as nat
    }

    pub closed spec fn timeout_spec(&self) -> u64 {
        self.aging_timeout
    }

    /// The table is well formed and names only ports that exist.
    pub open spec fn wf(&self) -> bool {
        &&& self.fib().wf()
        &&& self.port_configs().len() <= 65536
        &&& forall|k: int|
            0 <= k < self.fib()@.len() ==> (#[trigger] self.fib()@[k]).port
                < self.port_configs().len()
    }

    /// A switch over `ports`, numbered by their position, with an empty table.
    pub fn new(ports: Vec<PortConfig>, max_entries: usize, mtu: usize, aging_timeout: u64) -> (r: Self)
        requires
            ports@.len() <= 65536,
            0 < max_entries,
        ensures
            r.wf(),
            r.port_configs() == ports@,
            r.fib()@ == Seq::<ForwardingEntry>::empty(),
            r.fib().capacity() == max_entries,
            r.mtu_spec() == mtu,
            r.timeout_spec() == aging_timeout,
    {
        ForwardingService { ports, table: MacTable::with_capacity(max_entries), mtu, aging_timeout }
    }

    /// Number of ports.
    pub fn port_count(&self) -> (r: usize)
        ensures
            r == self.port_configs().len(),
    {
        self.ports.len()
    }

    /// The port bound to (`mac`, `vlan`) in the table, if any.
    pub fn lookup(&self, mac: &MacAddress, vlan: VlanId) -> (r: Option<u16>)
        requires
            self.wf(),
        ensures
            r == lookup_spec(self.fib()@, *mac, vlan),
    {
        self.table.lookup(mac, vlan)
    }

    /// A pipeline from interface `input` (port 0) to `output` (port 1).
    pub fn setup_pipeline(&self, input: &str, output: &str) -> (r: Result<Pipeline, AppError>)
        ensures
            r matches Ok(p) && p.input.name@ == input@ && p.input.index == 0 && p.output.name@
                == output@ && p.output.index == 1,
    {
        let in_if = NetIf::new(input, 0);
        let out_if = NetIf::new(output, 1);
        Ok(Pipeline::new(in_if, out_if))
    }

    /// Removes the entries idle for longer than the aging timeout at `now`;
    /// returns how many it removed.
    pub fn age_sweep(&mut self, now: u64) -> (r: usize)
        requires
            old(self).wf(),
        ensures
            final(self).wf(),
            final(self).port_configs() == old(self).port_configs(),
            final(self).mtu_spec() == old(self).mtu_spec(),
            final(self).timeout_spec() == old(self).timeout_spec(),
            final(self).fib().capacity() == old(self).fib().capacity(),
            final(self).fib()@ == sweep_spec(old(self).fib()@, now, old(self).timeout_spec()),
            r == old(self).fib()@.len() - final(self).fib()@.len(),
    {
        let ghost s = self.table@;
        let r = self.table.age_sweep(now, self.aging_timeout);
        assert forall|k: int| 0 <= k < self.fib()@.len() implies (#[trigger] self.fib()@[k]).port
            < self.port_configs().len() by {
            let j = choose|j: int| 0 <= j < s.len() && s[j] == self.fib()@[k];
            assert(s[j].port < self.port_configs().len());
        }
        r
    }

    /// Sends a copy of `frame` (of VLAN `vlan`) on every port other than
    /// `ingress` that carries `vlan`; a copy that a port refuses is dropped
    /// alone.
    fn flood(&self, frame: &EthernetFrame, vlan: VlanId, ingress: u16) -> (r: Result<Vec<Transmission>, AppError>)
        requires
            self.wf(),
        ensures
            match (r, flood_spec(self.port_configs(), ingress, frame@, vlan, self.mtu_spec())) {
                (Ok(ts), Ok(sv)) => tx_views(ts@) == sv,
                (Err(e), Err(d)) => e == d,
                _ => false,
            },
    {
        let mut out: Vec<Transmission> = Vec::new();
        let mut q: usize = 0;
        while q < self.ports.len()
            invariant
                self.wf(),
                0 <= q <= self.port_configs().len(),
                self.ports@ == self.port_configs(),
                self.mtu as nat == self.mtu_spec(),
                tx_views(out@) == flood_upto(
                    self.port_configs(),
                    ingress,
                    frame@,
                    vlan,
                    self.mtu_spec(),
                    q as nat,
                ),
            decreases self.port_configs().len() - q,
        {
            let ghost prev = out@;
            if q != ingress as usize && self.ports[q].carries(vlan) {
                match apply_egress_policy(frame, vlan, &self.ports[q]) {
                    Ok(g) => {
                        assert(g@ == egress_frame(frame@, vlan, self.ports@[q as int]));
                        match encode(&g, self.mtu) {
                            Ok(bytes) => {
                                out.push(Transmission { port: q as u16, bytes });
                                assert(tx_views(out@) =~= tx_views(prev).push(
                                    (q as u16, encode_spec(g@)),
                                ));
                            },
                            Err(_) => {},
                        }
                    },
                    Err(_) => {},
                }
            }
            q = q + 1;
        }
        if out.len() == 0 {
            Err(AppError::NoEgressPort)
        } else {
            Ok(out)
        }
    }

    /// Forwards bytes received on port `ingress` at time `now`: returns the
    /// bytes to send on each output port, or why the frame was dropped. The
    /// source address is learned on the frame's VLAN first.
    pub fn forward(&mut self, ingress: u16, bytes: &[u8], now: u64) -> (r: Result<Vec<Transmission>, AppError>)
        requires
            old(self).wf(),
            (ingress as int) < old(self).port_configs().len(),
        ensures
            final(self).wf(),
            final(self).port_configs() == old(self).port_configs(),
            final(self).mtu_spec() == old(self).mtu_spec(),
            final(self).timeout_spec() == old(self).timeout_spec(),
            final(self).fib().capacity() == old(self).fib().capacity(),
            final(self).fib()@ == forward_table_spec(
                old(self).port_configs(),
                old(self).fib()@,
                old(self).fib().capacity(),
                ingress,
                bytes@,
                now,
            ),
            match (
                r,
                forward_spec(
                    old(self).port_configs(),
                    old(self).fib()@,
                    old(self).fib().capacity(),
                    old(self).mtu_spec(),
                    ingress,
                    bytes@,
                    now,
                ),
            ) {
                (Ok(ts), Ok(sv)) => tx_views(ts@) == sv,
                (Err(e), Err(d)) => e == d,
                _ => false,
            },
    {
        let frame = match decode(bytes) {
            Ok(f) => f,
            Err(e) => {
                return Err(AppError::Frame(e));
            },
        };
        let vlan = match resolve_ingress_vlan(&frame, &self.ports[ingress as usize]) {
            Ok(v) => v,
            Err(e) => {
                return Err(AppError::Vlan(e));
            },
        };
        let src = MacAddress(frame.src_mac);
        let dst = MacAddress(frame.dst_mac);
        proof {
            lemma_mac_of(frame.src_mac);
            lemma_mac_of(frame.dst_mac);
        }
        let ghost s = self.table@;
        let _ = self.table.learn(&src, vlan, ingress, now);
        assert forall|k: int| 0 <= k < self.fib()@.len() implies (#[trigger] self.fib()@[k]).port
            < self.port_configs().len() by {
            if self.fib()@[k] != (ForwardingEntry { mac: src, vlan, port: ingress, last_seen: now }) {
                let j = choose|j: int| 0 <= j < s.len() && s[j] == self.fib()@[k];
                assert(s[j].port < self.port_configs().len());
            }
        }
        if frame.dst_mac[0] % 2 == 1 {
            return self.flood(&frame, vlan, ingress);
        }
        match self.table.lookup(&dst, vlan) {
            None => self.flood(&frame, vlan, ingress),
            Some(p) => {
                if p == ingress {
                    return Err(AppError::Reflected);
                }
                assert(p < self.port_configs().len()) by {
                    let i = crate::table::key_index(self.fib()@, dst, vlan);
                    assert(self.fib()@[i].port == p);
                }
                let g = match apply_egress_policy(&frame, vlan, &self.ports[p as usize]) {
                    Ok(g) => g,
                    Err(e) => {
                        return Err(AppError::Vlan(e));
                    },
                };
                match encode(&g, self.mtu) {
                    Ok(out) => {
                        let mut ts: Vec<Transmission> = Vec::new();
                        ts.push(Transmission { port: p, bytes: out });
                        assert(tx_views(ts@) =~= seq![(p, encode_spec(g@))]);
                        Ok(ts)
                    },
                    Err(e) => Err(AppError::Frame(e)),
                }
            },
        }
    }
}

} // verus!
