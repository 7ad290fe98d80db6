use dataplane::frame::{MacAddress, VlanId};
use dataplane::table::{ForwardingEntry, MacTable, DEFAULT_MAX_ENTRIES};

fn mac(n: u8) -> MacAddress {
    MacAddress::new([2, 0, 0, 0, 0, n])
}

#[test]
fn learn_then_lookup_and_flap() {
    let mut t = MacTable::new();
    assert_eq!(t.max_entries(), DEFAULT_MAX_ENTRIES);
    assert_eq!(t.lookup(&mac(1), VlanId(5)), None);
    assert_eq!(t.learn(&mac(1), VlanId(5), 3, 100), None);
    assert_eq!(t.lookup(&mac(1), VlanId(5)), Some(3));
    assert_eq!(t.lookup(&mac(1), VlanId(6)), None);
    t.learn(&mac(1), VlanId(5), 7, 101);
    assert_eq!(t.lookup(&mac(1), VlanId(5)), Some(7));
    assert_eq!(t.len(), 1);
}

#[test]
fn age_sweep_removes_idle_entries() {
    let mut t = MacTable::with_capacity(16);
    t.learn(&mac(1), VlanId(1), 1, 1000);
    t.learn(&mac(2), VlanId(1), 2, 1200);
    assert_eq!(t.age_sweep(1000 + 300, 300), 0);
    assert_eq!(t.age_sweep(1000 + 300 + 1, 300), 1);
    assert_eq!(t.lookup(&mac(1), VlanId(1)), None);
    assert_eq!(t.lookup(&mac(2), VlanId(1)), Some(2));
    assert_eq!(t.len(), 1);
}

#[test]
fn capacity_evicts_least_recently_used() {
    let mut t = MacTable::with_capacity(3);
    for i in 0..3u8 {
        assert_eq!(t.learn(&mac(i), VlanId(1), i as u16, i as u64), None);
    }
    // refresh key 0, so key 1 is now the least recently used
    t.learn(&mac(0), VlanId(1), 0, 10);
    let evicted = t.learn(&mac(3), VlanId(1), 3, 11);
    assert_eq!(evicted, Some(ForwardingEntry::new(mac(1), VlanId(1), 1, 1)));
    assert_eq!(t.len(), 3);
    assert_eq!(t.lookup(&mac(1), VlanId(1)), None);
    assert_eq!(t.lookup(&mac(0), VlanId(1)), Some(0));
    assert_eq!(t.lookup(&mac(2), VlanId(1)), Some(2));
    assert_eq!(t.lookup(&mac(3), VlanId(1)), Some(3));
}

#[test]
fn max_plus_one_distinct_keys_evict_the_first() {
    let cap = 4usize;
    let mut t = MacTable::with_capacity(cap);
    for i in 0..=cap as u8 {
        t.learn(&mac(i), VlanId(9), i as u16, 50 + i as u64);
        assert_eq!(t.lookup(&mac(i), VlanId(9)), Some(i as u16));
    }
    assert_eq!(t.len(), cap);
    assert_eq!(t.lookup(&mac(0), VlanId(9)), None);
}

#[test]
fn same_mac_on_two_vlans_is_two_keys() {
    let mut t = MacTable::default();
    t.learn(&mac(1), VlanId(1), 1, 0);
    t.learn(&mac(1), VlanId(2), 2, 0);
    assert_eq!(t.lookup(&mac(1), VlanId(1)), Some(1));
    assert_eq!(t.lookup(&mac(1), VlanId(2)), Some(2));
    assert!(!t.is_empty());
}

#[test]
fn entry_display_names_fields() {
    let e = ForwardingEntry::new(mac(1), VlanId(1), 4, 9);
    let s = e.display();
    assert!(s.starts_with("ForwardingEntry"));
    assert!(s.contains("port: 4"));
}
