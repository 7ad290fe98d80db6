//! The forwarding table (FIB): (MAC, VLAN) -> egress port, with aging and
//! least-recently-used eviction at capacity.
use vstd::prelude::*;
use crate::frame::{MacAddress, VlanId};

verus! {

/// Capacity of a table made by `MacTable::new`.
pub const DEFAULT_MAX_ENTRIES: usize = 8192;

/// One learned binding: `mac` on `vlan` is reached through `port`, last
/// seen at `last_seen`.
#[derive(Clone, Copy, Debug, PartialEq, Eq, Hash)]
pub struct ForwardingEntry {
    pub mac: MacAddress,
    pub vlan: VlanId,
    pub port: u16,
    pub last_seen: u64,
}

impl ForwardingEntry {
    pub fn new(mac: MacAddress, vlan: VlanId, port: u16, last_seen: u64) -> (r: Self)
        ensures
            r == (ForwardingEntry { mac, vlan, port, last_seen }),
    {
        ForwardingEntry { mac, vlan, port, last_seen }
    }

    /// Relies on std's `format!` and the derived `Debug` impls to render the
    /// entry as readable text.
    #[verifier::external_body]
    pub fn display(&self) -> String {
        format!(
            "ForwardingEntry {{ mac: {:?}, vlan: {:?}, port: {}, last_seen: {} }}",
            self.mac,
            self.vlan,
            self.port,
            self.last_seen
        )
    }
}

/// `e` is the entry of key (`mac`, `vlan`).
pub open spec fn key_is(e: ForwardingEntry, mac: MacAddress, vlan: VlanId) -> bool {
    e.mac.0@ == mac.0@ && e.vlan == vlan
}

/// No two entries share a key.
pub open spec fn keys_unique(s: Seq<ForwardingEntry>) -> bool {
    forall|i: int, j: int|
        0 <= i < j < s.len() ==> !key_is(#[trigger] s[i], s[j].mac, #[trigger] s[j].vlan)
}

pub open spec fn has_key(s: Seq<ForwardingEntry>, mac: MacAddress, vlan: VlanId) -> bool {
    exists|i: int| 0 <= i < s.len() && key_is(#[trigger] s[i], mac, vlan)
}

pub open spec fn key_index(s: Seq<ForwardingEntry>, mac: MacAddress, vlan: VlanId) -> int {
    choose|i: int| 0 <= i < s.len() && key_is(#[trigger] s[i], mac, vlan)
}

/// The port bound to (`mac`, `vlan`), if any.
pub open spec fn lookup_spec(s: Seq<ForwardingEntry>, mac: MacAddress, vlan: VlanId) -> Option<u16> {
    if has_key(s, mac, vlan) {
        Some(s[key_index(s, mac, vlan)].port)
    } else {
        None
    }
}

/// The entries after learning (`mac`, `vlan`) on `port` at `now`. Entries run
/// from least to most recently learned: a known key moves to the end with
/// its new port and time; a new key is appended, after the first (least
/// recently used) entry is evicted if the table is full.
pub open spec fn learn_spec(
    s: Seq<ForwardingEntry>,
    cap: nat,
    mac: MacAddress,
    vlan: VlanId,
    port: u16,
    now: u64,
) -> Seq<ForwardingEntry> {
    let e = ForwardingEntry { mac, vlan, port, last_seen: now };
    if has_key(s, mac, vlan) {
        s.remove(key_index(s, mac, vlan)).push(e)
    } else if s.len() < cap {
        s.push(e)
    } else {
        s.subrange(1, s.len() as int).push(e)
    }
}

/// The entry that learning (`mac`, `vlan`) evicts, if any.
pub open spec fn evicted_spec(s: Seq<ForwardingEntry>, cap: nat, mac: MacAddress, vlan: VlanId) -> Option<
    ForwardingEntry,
> {
    if !has_key(s, mac, vlan) && s.len() >= cap {
        Some(s[0])
    } else {
        None
    }
}

/// The entry has been idle for longer than `timeout` at time `now`.
pub open spec fn expired(e: ForwardingEntry, now: u64, timeout: u64) -> bool {
    now as int - e.last_seen as int > timeout as int
}

/// The entries that an aging sweep at `now` keeps, in their order.
pub open spec fn sweep_spec(s: Seq<ForwardingEntry>, now: u64, timeout: u64) -> Seq<ForwardingEntry> {
    s.filter(|e: ForwardingEntry| !expired(e, now, timeout))
}

/// The entry of a key, once learned, is the table's last entry, and no
/// other entry has that key; what else the table holds was there before.
proof fn lemma_learn_wf(
    s: Seq<ForwardingEntry>,
    cap: nat,
    mac: MacAddress,
    vlan: VlanId,
    port: u16,
    now: u64,
)
    requires
        keys_unique(s),
        s.len() <= cap,
        0 < cap,
    ensures
        keys_unique(learn_spec(s, cap, mac, vlan, port, now)),
        learn_spec(s, cap, mac, vlan, port, now).len() <= cap,
        learn_spec(s, cap, mac, vlan, port, now).last() == (ForwardingEntry {
            mac,
            vlan,
            port,
            last_seen: now,
        }),
        forall|k: int|
            0 <= k < learn_spec(s, cap, mac, vlan, port, now).len() - 1 ==> s.contains(
                #[trigger] learn_spec(s, cap, mac, vlan, port, now)[k],
            ),
{
    let t = learn_spec(s, cap, mac, vlan, port, now);
    let mid = t.drop_last();
    // where each surviving entry came from
    let src = |j: int|
        if has_key(s, mac, vlan) {
            if j < key_index(s, mac, vlan) {
                j
            } else {
                j + 1
            }
        } else if s.len() >= cap {
            j + 1
        } else {
            j
        };
    assert forall|j: int| 0 <= j < mid.len() implies mid[j] == s[src(j)] && 0 <= src(j) < s.len()
        && #[trigger] s.contains(mid[j]) by {
        assert(mid[j] == t[j]);
        assert(s.contains(s[src(j)]));
    }
    assert forall|j: int| 0 <= j < mid.len() implies !key_is(#[trigger] mid[j], mac, vlan) by {
        if has_key(s, mac, vlan) {
            let i = key_index(s, mac, vlan);
            if src(j) < i {
                assert(!key_is(s[src(j)], s[i].mac, s[i].vlan));
            } else {
                assert(!key_is(s[i], s[src(j)].mac, s[src(j)].vlan));
            }
        } else {
            assert(!key_is(s[src(j)], mac, vlan));
        }
    }
    assert forall|a: int, b: int| 0 <= a < b < t.len() implies !key_is(
        #[trigger] t[a],
        t[b].mac,
        #[trigger] t[b].vlan,
    ) by {
        assert(t[a] == mid[a]);
        if b == t.len() - 1 {
            assert(!key_is(mid[a], mac, vlan));
        } else {
            assert(t[b] == mid[b]);
            assert(src(a) < src(b));
        }
    }
    assert forall|k: int| 0 <= k < t.len() - 1 implies s.contains(#[trigger] t[k]) by {
        assert(t[k] == mid[k]);
    }
}

/// In a table without repeated keys, each entry's key finds that entry.
pub proof fn lemma_lookup_entry(s: Seq<ForwardingEntry>, i: int)
    requires
        keys_unique(s),
        0 <= i < s.len(),
    ensures
        lookup_spec(s, s[i].mac, s[i].vlan) == Some(s[i].port),
{
    let mac = s[i].mac;
    let vlan = s[i].vlan;
    assert(key_is(s[i], mac, vlan));
    let k = key_index(s, mac, vlan);
    if k < i {
        assert(!key_is(s[k], s[i].mac, s[i].vlan));
    } else if k > i {
        assert(!key_is(s[i], s[k].mac, s[k].vlan));
    }
}

/// Every entry that a filter keeps was in the sequence filtered.
proof fn lemma_filter_subset(s: Seq<ForwardingEntry>, pred: spec_fn(ForwardingEntry) -> bool)
    ensures
        forall|k: int| 0 <= k < s.filter(pred).len() ==> s.contains(#[trigger] s.filter(pred)[k]),
    decreases s.len(),
{
    reveal(Seq::filter);
    if s.len() > 0 {
        let d = s.drop_last();
        lemma_filter_subset(d, pred);
        assert forall|k: int| 0 <= k < s.filter(pred).len() implies s.contains(
            #[trigger] s.filter(pred)[k],
        ) by {
            if k < d.filter(pred).len() {
                assert(s.filter(pred)[k] == d.filter(pred)[k]);
                let j = choose|j: int| 0 <= j < d.len() && d[j] == d.filter(pred)[k];
                assert(s[j] == d[j]);
            } else {
                assert(s.filter(pred)[k] == s[s.len() - 1]);
            }
        }
    }
}

/// After `learn(M, V, P)`, `lookup(M, V)` is `Some(P)`; learning the key again
/// on another port `P2` (a flap) makes `lookup(M, V)` give `P2`.
pub proof fn lemma_learn_lookup(
    s: Seq<ForwardingEntry>,
    cap: nat,
    mac: MacAddress,
    vlan: VlanId,
    port: u16,
    port2: u16,
    now: u64,
    later: u64,
)
    requires
        keys_unique(s),
        s.len() <= cap,
        0 < cap,
    ensures
        lookup_spec(learn_spec(s, cap, mac, vlan, port, now), mac, vlan) == Some(port),
        lookup_spec(
            learn_spec(learn_spec(s, cap, mac, vlan, port, now), cap, mac, vlan, port2, later),
            mac,
            vlan,
        ) == Some(port2),
{
    let t = learn_spec(s, cap, mac, vlan, port, now);
    lemma_learn_wf(s, cap, mac, vlan, port, now);
    lemma_lookup_entry(t, t.len() - 1);
    let u = learn_spec(t, cap, mac, vlan, port2, later);
    lemma_learn_wf(t, cap, mac, vlan, port2, later);
    lemma_lookup_entry(u, u.len() - 1);
}

/// An entry learned at `t` is gone after a sweep at `t + timeout + 1`:
/// `lookup` then finds nothing for its key.
pub proof fn lemma_sweep_forgets(
    s: Seq<ForwardingEntry>,
    cap: nat,
    mac: MacAddress,
    vlan: VlanId,
    port: u16,
    t: u64,
    timeout: u64,
)
    requires
        keys_unique(s),
        s.len() <= cap,
        0 < cap,
        t + timeout + 1 <= u64::MAX,
    ensures
        lookup_spec(
            sweep_spec(learn_spec(s, cap, mac, vlan, port, t), (t + timeout + 1) as u64, timeout),
            mac,
            vlan,
        ) == None::<u16>,
{
    let now = (t + timeout + 1) as u64;
    let l = learn_spec(s, cap, mac, vlan, port, t);
    lemma_learn_wf(s, cap, mac, vlan, port, t);
    let pred = |e: ForwardingEntry| !expired(e, now, timeout);
    let w = l.filter(pred);
    assert(w == sweep_spec(l, now, timeout));
    lemma_filter_subset(l, pred);
    if has_key(w, mac, vlan) {
        let k = key_index(w, mac, vlan);
        assert(pred(w[k])) by {
            l.lemma_filter_pred(pred, k);
        }
        assert(l.contains(w[k]));
        let j = choose|j: int| 0 <= j < l.len() && l[j] == w[k];
        let last = l.len() - 1;
        if j < last {
            assert(!key_is(l[j], l[last].mac, l[last].vlan));
        }
        assert(false);
    }
}

/// At capacity, learning a new key evicts the least recently learned entry
/// and only that one: the table keeps its size, the new key is found, the
/// evicted key is not, and every other key still finds its port.
pub proof fn lemma_capacity_evicts_lru(
    s: Seq<ForwardingEntry>,
    cap: nat,
    mac: MacAddress,
    vlan: VlanId,
    port: u16,
    now: u64,
)
    requires
        keys_unique(s),
        s.len() == cap,
        0 < cap,
        !has_key(s, mac, vlan),
    ensures
        evicted_spec(s, cap, mac, vlan) == Some(s[0]),
        learn_spec(s, cap, mac, vlan, port, now).len() == cap,
        lookup_spec(learn_spec(s, cap, mac, vlan, port, now), mac, vlan) == Some(port),
        lookup_spec(learn_spec(s, cap, mac, vlan, port, now), s[0].mac, s[0].vlan) == None::<u16>,
        forall|k: int|
            1 <= k < s.len() ==> lookup_spec(
                learn_spec(s, cap, mac, vlan, port, now),
                #[trigger] s[k].mac,
                s[k].vlan,
            ) == Some(s[k].port),
{
    let t = learn_spec(s, cap, mac, vlan, port, now);
    lemma_learn_wf(s, cap, mac, vlan, port, now);
    lemma_lookup_entry(t, t.len() - 1);
    assert forall|k: int| 1 <= k < s.len() implies lookup_spec(t, #[trigger] s[k].mac, s[k].vlan)
        == Some(s[k].port) by {
        assert(t[k - 1] == s[k]);
        lemma_lookup_entry(t, k - 1);
    }
    if has_key(t, s[0].mac, s[0].vlan) {
        let i = key_index(t, s[0].mac, s[0].vlan);
        if i == t.len() - 1 {
            assert(key_is(s[0], mac, vlan));
        } else {
            assert(t[i] == s[i + 1]);
            assert(!key_is(s[0], s[i + 1].mac, s[i + 1].vlan));
        }
    }
}

/// Learning one key leaves the lookup of every other key as it was, unless
/// that key's entry is the one a full table evicts.
pub proof fn lemma_learn_keeps_other(
    s: Seq<ForwardingEntry>,
    cap: nat,
    mac: MacAddress,
    vlan: VlanId,
    port: u16,
    now: u64,
    mac2: MacAddress,
    vlan2: VlanId,
)
    requires
        keys_unique(s),
        s.len() <= cap,
        0 < cap,
        !(mac2.0@ == mac.0@ && vlan2 == vlan),
        !(s.len() >= cap && !has_key(s, mac, vlan) && key_is(s[0], mac2, vlan2)),
    ensures
        lookup_spec(learn_spec(s, cap, mac, vlan, port, now), mac2, vlan2) == lookup_spec(
            s,
            mac2,
            vlan2,
        ),
{
    let t = learn_spec(s, cap, mac, vlan, port, now);
    lemma_learn_wf(s, cap, mac, vlan, port, now);
    if has_key(s, mac2, vlan2) {
        let i = key_index(s, mac2, vlan2);
        lemma_lookup_entry(s, i);
        let idx = if has_key(s, mac, vlan) {
            let k = key_index(s, mac, vlan);
            if k == i {
                assert(!key_is(s[i], mac2, vlan2));
            }
            if i < k {
                i
            } else {
                i - 1
            }
        } else if s.len() >= cap {
            if i == 0 {
                assert(false);
            }
            i - 1
        } else {
            i
        };
        assert(t[idx] == s[i]);
        lemma_lookup_entry(t, idx);
    } else if has_key(t, mac2, vlan2) {
        let i = key_index(t, mac2, vlan2);
        if i < t.len() - 1 {
            assert(s.contains(t[i]));
            let j = choose|j: int| 0 <= j < s.len() && s[j] == t[i];
            assert(key_is(s[j], mac2, vlan2));
        }
    }
}

/// The entries after learning each of `macs` in turn on `vlan` and `port`.
pub open spec fn learn_each(
    s: Seq<ForwardingEntry>,
    cap: nat,
    macs: Seq<MacAddress>,
    vlan: VlanId,
    port: u16,
    now: u64,
) -> Seq<ForwardingEntry>
    decreases macs.len(),
{
    if macs.len() == 0 {
        s
    } else {
        learn_spec(learn_each(s, cap, macs.drop_last(), vlan, port, now), cap, macs.last(), vlan, port, now)
    }
}

/// Learning up to `cap` distinct addresses into an empty table keeps every
/// one of them, in the order learned.
proof fn lemma_learn_each_fits(cap: nat, macs: Seq<MacAddress>, vlan: VlanId, port: u16, now: u64)
    requires
        macs.len() <= cap,
        forall|i: int, j: int| 0 <= i < j < macs.len() ==> (#[trigger] macs[i]).0@ != (#[trigger] macs[j]).0@,
    ensures
        learn_each(Seq::empty(), cap, macs, vlan, port, now) == Seq::new(
            macs.len(),
            |i: int| ForwardingEntry { mac: macs[i], vlan, port, last_seen: now },
        ),
    decreases macs.len(),
{
    if macs.len() > 0 {
        let d = macs.drop_last();
        lemma_learn_each_fits(cap, d, vlan, port, now);
        let prev = learn_each(Seq::empty(), cap, d, vlan, port, now);
        if has_key(prev, macs.last(), vlan) {
            let k = key_index(prev, macs.last(), vlan);
            assert(macs[k].0@ != macs[macs.len() - 1].0@);
        }
        assert(learn_each(Seq::empty(), cap, macs, vlan, port, now) =~= Seq::new(
            macs.len(),
            |i: int| ForwardingEntry { mac: macs[i], vlan, port, last_seen: now },
        ));
    }
}

/// Learning `cap + 1` distinct addresses into an empty table of capacity
/// `cap` never fails: the table ends full, the first address learned (the
/// least recently used) is the one evicted, and every later one is found.
pub proof fn lemma_overfill_evicts_first(
    cap: nat,
    macs: Seq<MacAddress>,
    vlan: VlanId,
    port: u16,
    now: u64,
)
    requires
        0 < cap,
        macs.len() == cap + 1,
        forall|i: int, j: int| 0 <= i < j < macs.len() ==> (#[trigger] macs[i]).0@ != (#[trigger] macs[j]).0@,
    ensures
        learn_each(Seq::empty(), cap, macs, vlan, port, now).len() == cap,
        lookup_spec(learn_each(Seq::empty(), cap, macs, vlan, port, now), macs[0], vlan) == None::<u16>,
        forall|i: int|
            1 <= i < macs.len() ==> lookup_spec(
                learn_each(Seq::empty(), cap, macs, vlan, port, now),
                #[trigger] macs[i],
                vlan,
            ) == Some(port),
{
    let d = macs.drop_last();
    lemma_learn_each_fits(cap, d, vlan, port, now);
    let prev = learn_each(Seq::empty(), cap, d, vlan, port, now);
    assert(keys_unique(prev)) by {
        assert forall|a: int, b: int| 0 <= a < b < prev.len() implies !key_is(
            #[trigger] prev[a],
            prev[b].mac,
            #[trigger] prev[b].vlan,
        ) by {
            assert(d[a].0@ != d[b].0@);
        }
    }
    let last = macs.last();
    if has_key(prev, last, vlan) {
        let k = key_index(prev, last, vlan);
        assert(macs[k].0@ != macs[macs.len() - 1].0@);
    }
    lemma_capacity_evicts_lru(prev, cap, last, vlan, port, now);
    assert(prev[0].mac == macs[0]);
    assert forall|i: int| 1 <= i < macs.len() implies lookup_spec(
        learn_each(Seq::empty(), cap, macs, vlan, port, now),
        #[trigger] macs[i],
        vlan,
    ) == Some(port) by {
        if i < macs.len() - 1 {
            assert(prev[i].mac == macs[i]);
        }
    }
}

/// `e` is the entry of key (`mac`, `vlan`).
fn entry_has_key(e: &ForwardingEntry, mac: &MacAddress, vlan: VlanId) -> (r: bool)
    ensures
        r == key_is(*e, *mac, vlan),
{
    let a = &e.mac.0;
    let b = &mac.0;
    let same = a[0] == b[0] && a[1] == b[1] && a[2] == b[2] && a[3] == b[3] && a[4] == b[4] && a[5]
        == b[5];
    if same {
        assert(a@ =~= b@);
    }
    same && e.vlan.0 == vlan.0
}

/// A capacity-bounded forwarding table.
pub struct MacTable {
    entries: Vec<ForwardingEntry>,
    max_entries: usize,
}

impl View for MacTable {
    type V = Seq<ForwardingEntry>;

    /// The entries, from least to most recently learned.
    closed spec fn view(&self) -> Seq<ForwardingEntry> {
        self.entries@
    }
}

impl MacTable {
    /// The most entries the table holds.
    pub closed spec fn capacity(&self) -> nat {
        self.max_entries as nat
    }

    pub open spec fn wf(&self) -> bool {
        &&& keys_unique(self@)
        &&& self@.len() <= self.capacity()
        &&& 0 < self.capacity()
    }

    /// An empty table of `DEFAULT_MAX_ENTRIES` entries.
    pub fn new() -> (r: Self)
        ensures
            r.wf(),
            r@ == Seq::<ForwardingEntry>::empty(),
            r.capacity() == DEFAULT_MAX_ENTRIES,
    {
        Self::with_capacity(DEFAULT_MAX_ENTRIES)
    }

    /// An empty table of `max_entries` entries.
    pub fn with_capacity(max_entries: usize) -> (r: Self)
        requires
            0 < max_entries,
        ensures
            r.wf(),
            r@ == Seq::<ForwardingEntry>::empty(),
            r.capacity() == max_entries,
    {
        MacTable { entries: Vec::new(), max_entries }
    }

    /// Number of entries.
    pub fn len(&self) -> (r: usize)
        ensures
            r == self@.len(),
    {
        self.entries.len()
    }

    /// The table holds no entry.
    pub fn is_empty(&self) -> (r: bool)
        ensures
            r == (self@.len() == 0),
    {
        self.entries.len() == 0
    }

    /// The most entries the table holds.
    pub fn max_entries(&self) -> (r: usize)
        ensures
            r == self.capacity(),
    {
        self.max_entries
    }

    /// Position of the entry of key (`mac`, `vlan`), if any.
    fn find(&self, mac: &MacAddress, vlan: VlanId) -> (r: Option<usize>)
        requires
            self.wf(),
        ensures
            match r {
                Some(i) => i < self@.len() && key_is(self@[i as int], *mac, vlan) && i
                    == key_index(self@, *mac, vlan) && has_key(self@, *mac, vlan),
                None => !has_key(self@, *mac, vlan),
            },
    {
        let mut i: usize = 0;
        while i < self.entries.len()
            invariant
                self.wf(),
                0 <= i <= self@.len(),
                self@ == self.entries@,
                forall|j: int| 0 <= j < i ==> !key_is(#[trigger] self@[j], *mac, vlan),
            decreases self@.len() - i,
        {
            if entry_has_key(&self.entries[i], mac, vlan) {
                let ghost k = key_index(self@, *mac, vlan);
                assert(key_is(self@[k], *mac, vlan));
                assert(k == i) by {
                    if k < i {
                        assert(!key_is(self@[k], self@[i as int].mac, self@[i as int].vlan));
                    } else if k > i {
                        assert(!key_is(self@[i as int], self@[k].mac, self@[k].vlan));
                    }
                }
                return Some(i);
            }
            i = i + 1;
        }
        None
    }

    /// The port bound to (`mac`, `vlan`), if any.
    pub fn lookup(&self, mac: &MacAddress, vlan: VlanId) -> (r: Option<u16>)
        requires
            self.wf(),
        ensures
            r == lookup_spec(self@, *mac, vlan),
    {
        match self.find(mac, vlan) {
            Some(i) => Some(self.entries[i].port),
            None => None,
        }
    }

    /// Binds (`mac`, `vlan`) to `port` at time `now`, replacing an earlier
    /// binding of the key. Never fails: a full table evicts its least recently
    /// learned entry, which is returned.
    pub fn learn(&mut self, mac: &MacAddress, vlan: VlanId, port: u16, now: u64) -> (r: Option<ForwardingEntry>)
        requires
            old(self).wf(),
        ensures
            final(self).wf(),
            final(self).capacity() == old(self).capacity(),
            final(self)@ == learn_spec(old(self)@, old(self).capacity(), *mac, vlan, port, now),
            r == evicted_spec(old(self)@, old(self).capacity(), *mac, vlan),
            forall|k: int|
                0 <= k < final(self)@.len() ==> #[trigger] final(self)@[k] == (ForwardingEntry {
                    mac: *mac,
                    vlan,
                    port,
                    last_seen: now,
                }) || old(self)@.contains(final(self)@[k]),
    {
        let ghost s = self@;
        let e = ForwardingEntry { mac: *mac, vlan, port, last_seen: now };
        let mut evicted: Option<ForwardingEntry> = None;
        match self.find(mac, vlan) {
            Some(i) => {
                self.entries.remove(i);
            },
            None => {
                if self.entries.len() >= self.max_entries {
                    evicted = Some(self.entries.remove(0));
                    assert(self@ =~= s.subrange(1, s.len() as int));
                }
            },
        }
        self.entries.push(e);
        proof {
            lemma_learn_wf(s, self.capacity(), *mac, vlan, port, now);
        }
        assert(self@ =~= learn_spec(s, self.capacity(), *mac, vlan, port, now));
        evicted
    }

    /// Removes every entry idle for longer than `timeout` at time `now`, and
    /// returns how many it removed.
    pub fn age_sweep(&mut self, now: u64, timeout: u64) -> (r: usize)
        requires
            old(self).wf(),
        ensures
            final(self).wf(),
            final(self).capacity() == old(self).capacity(),
            final(self)@ == sweep_spec(old(self)@, now, timeout),
            r == old(self)@.len() - final(self)@.len(),
            forall|k: int|
                0 <= k < final(self)@.len() ==> old(self)@.contains(#[trigger] final(self)@[k]),
    {
        let ghost s = self@;
        let mut kept: Vec<ForwardingEntry> = Vec::new();
        let mut i: usize = 0;
        while i < self.entries.len()
            invariant
                0 <= i <= s.len(),
                self@ == s,
                self.entries@ == s,
                self.wf(),
                keys_unique(kept@),
                kept@ == sweep_spec(s.subrange(0, i as int), now, timeout),
                kept@.len() <= i,
                forall|k: int|
                    0 <= k < kept@.len() ==> exists|j: int| 0 <= j < i && #[trigger] kept@[k] == s[j],
            decreases s.len() - i,
        {
            let e = self.entries[i];
            let ghost pre = s.subrange(0, i as int);
            let ghost next = s.subrange(0, i + 1);
            assert(next.drop_last() =~= pre);
            assert(next.last() == e);
            let ghost old_kept = kept@;
            reveal(Seq::filter);
            if !(now > e.last_seen && now - e.last_seen > timeout) {
                assert(forall|k: int|
                    0 <= k < old_kept.len() ==> !key_is(#[trigger] old_kept[k], e.mac, e.vlan)) by {
                    assert forall|k: int| 0 <= k < old_kept.len() implies !key_is(#[trigger] old_kept[k], e.mac, e.vlan) by {
                        let j = choose|j: int| 0 <= j < i && #[trigger] old_kept[k] == s[j];
                        assert(!key_is(s[j], s[i as int].mac, s[i as int].vlan));
                    }
                }
                kept.push(e);
                assert(kept@ == sweep_spec(next, now, timeout));
                assert forall|a: int, b: int| 0 <= a < b < kept@.len() implies !key_is(
                    #[trigger] kept@[a],
                    kept@[b].mac,
                    #[trigger] kept@[b].vlan,
                ) by {
                    assert(kept@[a] == old_kept[a]);
                    if b < kept@.len() - 1 {
                        assert(kept@[b] == old_kept[b]);
                    }
                }
                assert(forall|k: int|
                    0 <= k < kept@.len() ==> exists|j: int| 0 <= j < i + 1 && #[trigger] kept@[k] == s[j]) by {
                    assert forall|k: int| 0 <= k < kept@.len() implies exists|j: int| 0 <= j < i + 1 && #[trigger] kept@[k] == s[j] by {
                        if k == kept@.len() - 1 {
                            assert(kept@[k] == s[i as int]);
                        } else {
                            assert(kept@[k] == old_kept[k]);
                        }
                    }
                }
            } else {
                assert(kept@ == sweep_spec(next, now, timeout));
            }
            i = i + 1;
        }
        assert(s.subrange(0, s.len() as int) =~= s);
        assert forall|k: int| 0 <= k < kept@.len() implies s.contains(#[trigger] kept@[k]) by {
            let j = choose|j: int| 0 <= j < s.len() && #[trigger] kept@[k] == s[j];
        }
        let removed = self.entries.len() - kept.len();
        self.entries = kept;
        removed
    }
}

impl Default for MacTable {
    fn default() -> (r: Self)
        ensures
            r.wf(),
            r@ == Seq::<ForwardingEntry>::empty(),
            r.capacity() == DEFAULT_MAX_ENTRIES,
    {
        Self::new()
    }
}

} // verus!
