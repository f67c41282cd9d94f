use idunn::peers::{Peer, Peers, Timestamp};

#[test]
fn peer_basics() {
    let mut p = Peers::new();
    p.add("testaddr".to_string(), "testkey".to_string(), false);
    println!("peerlist: {:?}", p);
    p.add("testaddr2".to_string(), "testkey2".to_string(), true);
    println!("peerlist: {:?}", p);
}

#[test]
fn add_records_the_peer_under_its_address() {
    let mut p = Peers::new();
    p.add("testaddr".to_string(), "testkey".to_string(), false);
    p.add("testaddr2".to_string(), "testkey2".to_string(), true);
    assert_eq!(p.list().len(), 2);
    let a = p.get("testaddr").unwrap();
    assert_eq!(a.key_id(), "testkey");
    assert!(!a.offline());
    let b = p.get("testaddr2").unwrap();
    assert_eq!(b.key_id(), "testkey2");
    assert!(b.offline());
    assert!(p.get("elsewhere").is_none());
    let t = a.last_seen();
    assert!(t.nsec >= 0 && t.nsec < 1_000_000_000);
    assert!(t.sec > 1_000_000_000);
}

#[test]
fn add_replaces_the_peer_at_the_same_address() {
    let mut p = Peers::new();
    p.add("10.0.0.1:5432".to_string(), "old".to_string(), true);
    p.add("10.0.0.1:5432".to_string(), "new".to_string(), false);
    assert_eq!(p.list().len(), 1);
    let a = p.get("10.0.0.1:5432").unwrap();
    assert_eq!(a.key_id(), "new");
    assert!(!a.offline());
}

#[test]
fn peers_are_kept_in_byte_order_of_address() {
    let mut p = Peers::new();
    let t = Timestamp { sec: 7, nsec: 8 };
    for a in ["b", "a", "ab", "B", "\u{e9}", "z", "a"] {
        p.insert(Peer::new_with_time(a.to_string(), format!("k{}", a), t, false));
    }
    let order: Vec<&str> = p.list().iter().map(|x| x.address().as_str()).collect();
    assert_eq!(order, vec!["B", "a", "ab", "b", "z", "\u{e9}"]);
}

#[test]
fn new_with_time_keeps_what_it_is_given() {
    let t = Timestamp { sec: 1450000000, nsec: 123 };
    let p = Peer::new_with_time("host:1".to_string(), "ABCD".to_string(), t, true);
    assert_eq!(p.address(), "host:1");
    assert_eq!(p.key_id(), "ABCD");
    assert_eq!(p.last_seen(), t);
    assert!(p.offline());
}
