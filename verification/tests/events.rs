use wasabio::facade::Wasabio;
use wasabio::lock::LockRegistry;
use wasabio::bus::BusRegistry;
use wasabio::kv::{KvStore, KvChange};
use wasabio::tls::{TlsArena, TlsDecision};

#[test]
fn change_subscriber_sees_each_write_in_order() {
    let mut w = Wasabio::boot(1);
    let bus = w.buses.sab_bus_new();
    assert!(w.emitter.on("fs", "change", bus, false));
    assert_eq!(w.writeFileSync("/f", &b"one".to_vec(), 2), Some(()));
    assert_eq!(w.writeFileSync("/f", &b"two".to_vec(), 3), Some(()));
    let mut seen = Vec::new();
    loop {
        let m = w.buses.sab_bus_receive(bus);
        if m.is_empty() {
            break;
        }
        seen.push(m);
    }
    let changes: Vec<&String> = seen.iter().filter(|m| m.as_str() == "[\"/f\"]").collect();
    assert!(changes.len() >= 2);
    assert_eq!(w.store.read_file_sync("/f", 4).unwrap(), b"two".to_vec());
}

#[test]
fn once_subscription_fires_once() {
    let mut w = Wasabio::boot(1);
    let bus = w.buses.sab_bus_new();
    assert!(w.emitter.on("fs", "change", bus, true));
    assert_eq!(w.emitter.listener_count("fs", "change"), 1);
    assert_eq!(w.writeFileSync("/f", &b"a".to_vec(), 2), Some(()));
    assert_eq!(w.emitter.listener_count("fs", "change"), 0);
}

#[test]
fn emitter_listeners_and_off() {
    let mut w = Wasabio::boot(1);
    let b1 = w.buses.sab_bus_new();
    let b2 = w.buses.sab_bus_new();
    assert!(w.emitter.on("fs", "rename", b1, false));
    assert!(w.emitter.on("fs", "rename", b2, false));
    assert_eq!(w.emitter.listeners("fs", "rename"), vec![b1, b2]);
    w.emitter.off("fs", "rename", b1);
    assert_eq!(w.emitter.listeners("fs", "rename"), vec![b2]);
    w.emitter.set_max_listeners("fs", 1);
    assert!(!w.emitter.on("fs", "rename", b1, false));
}

#[test]
fn bus_delivers_in_order_and_recycles() {
    let mut buses = BusRegistry::new();
    let a = buses.sab_bus_new();
    let b = buses.sab_bus_new();
    buses.sab_bus_send(a, "first".to_string());
    buses.sab_bus_send(a, "second".to_string());
    buses.sab_bus_broadcast(a, &"wide".to_string());
    assert_eq!(buses.sab_bus_receive(a), "first".to_string());
    assert_eq!(buses.sab_bus_receive(a), "second".to_string());
    assert_eq!(buses.sab_bus_receive(a), "".to_string());
    assert_eq!(buses.sab_bus_receive(b), "wide".to_string());
    buses.sab_bus_free(a);
    let c = buses.sab_bus_new();
    assert_eq!(c, a);
}

#[test]
fn kv_store_round_trip() {
    let mut kv = KvStore::new();
    assert!(matches!(kv.sab_kv_set("k", "v1"), KvChange::Added));
    assert_eq!(kv.sab_kv_get("k"), Some("v1".to_string()));
    match kv.sab_kv_set("k", "v2") {
        KvChange::Replaced(old) => assert_eq!(old, "v1".to_string()),
        _ => panic!("expected a replacement"),
    }
    assert_eq!(kv.sab_kv_length(), 1);
    assert_eq!(kv.sab_kv_key(0), Some("k".to_string()));
    match kv.sab_kv_del("k") {
        KvChange::Removed(Some(old)) => assert_eq!(old, "v2".to_string()),
        _ => panic!("expected a removal with the old value"),
    }
    assert_eq!(kv.sab_kv_get("k"), None);
    kv.sab_kv_set("a", "1");
    kv.sab_kv_clear();
    assert_eq!(kv.sab_kv_length(), 0);
}

#[test]
fn locks_take_and_release() {
    let mut locks = LockRegistry::new();
    let l = locks.sab_lock_new();
    assert!(!locks.sab_lock_held(l));
    assert!(locks.sab_lock_try_acquire(l));
    assert!(locks.sab_lock_held(l));
    assert!(!locks.sab_lock_try_acquire(l));
    locks.sab_lock_release(l);
    assert!(!locks.sab_lock_held(l));
    locks.sab_lock_free(l);
    let l2 = locks.sab_lock_new();
    assert_eq!(l2, l);
}

#[test]
fn tls_table_reuses_matching_regions() {
    let mut tls = TlsArena::new();
    assert!(tls.check_counter(64));
    assert!(tls.check_counter(64));
    assert!(!tls.check_counter(65));
    match tls.lookup(1, 2, 128, 8) {
        TlsDecision::Allocate => {}
        TlsDecision::Reuse(_) => panic!("fresh table must allocate"),
    }
    tls.record(1, 2, 4096, 128, 8);
    match tls.lookup(1, 2, 128, 8) {
        TlsDecision::Reuse(base) => assert_eq!(base, 4096),
        TlsDecision::Allocate => panic!("recorded region must be reused"),
    }
}
