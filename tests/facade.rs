use bytes::Bytes;
use modular::error::{ModuleError, PatternError, RegistryError, SubscribeError};
use modular::events::EventsManager;
use modular::modular::{is_reserved_topic, Modular};

#[test]
fn reserved_topics_reach_nobody() {
    let mut m: Modular<u32> = Modular::new();
    let mut rx = m.subscribe(">").unwrap();
    let report = m.publish("$.sys.anything", &Bytes::from_static(b"x"));
    assert_eq!(report.offered, 0);
    assert_eq!(report.kept, vec![true]);
    assert!(rx.try_recv().is_err());
    assert_eq!(m.publish("app.x", &Bytes::from_static(b"y")).offered, 1);
    let (topic, data) = rx.try_recv().unwrap();
    assert_eq!(topic, "app.x");
    assert_eq!(&data[..], b"y");
}

#[test]
fn reserved_prefix_detection() {
    assert!(is_reserved_topic("$.sys.x"));
    assert!(is_reserved_topic("$.sys."));
    assert!(!is_reserved_topic("$.sys"));
    assert!(!is_reserved_topic("$.syz.x"));
    assert!(!is_reserved_topic("a.$.sys.x"));
}

#[test]
fn subscribe_rejects_bad_pattern() {
    let mut m: Modular<u32> = Modular::new();
    assert_eq!(
        m.subscribe("a..b").err(),
        Some(SubscribeError::InvalidPattern(PatternError { position: 2 }))
    );
    assert_eq!(m.publish("a.b", &Bytes::from_static(b"z")).offered, 0);
}

#[test]
fn closed_subscriber_is_dropped_without_blocking() {
    let mut m: Modular<u32> = Modular::new();
    let rx = m.subscribe("a.{}").unwrap();
    let mut keep = m.subscribe("a.>").unwrap();
    drop(rx);
    let first = m.publish("a.b", &Bytes::from_static(b"1"));
    assert_eq!(first.offered, 2);
    assert_eq!(first.kept, vec![false, true]);
    // the closed subscription is gone: only one queue is offered now
    assert_eq!(m.publish("a.c", &Bytes::from_static(b"2")).offered, 1);
    assert_eq!(keep.try_recv().unwrap().0, "a.b");
    assert_eq!(keep.try_recv().unwrap().0, "a.c");
}

#[test]
fn publish_keeps_order_per_subscription() {
    let mut m: Modular<u32> = Modular::new();
    let mut rx = m.subscribe("t.{}").unwrap();
    for i in 0..5u8 {
        m.publish("t.x", &Bytes::from(vec![i]));
    }
    for i in 0..5u8 {
        assert_eq!(rx.try_recv().unwrap().1[0], i);
    }
}

#[test]
fn facade_modules() {
    let mut m: Modular<u32> = Modular::new();
    assert!(m.can_register());
    assert_eq!(m.register_module("svc", 1), Ok(()));
    assert_eq!(m.register_module("svc", 2), Err(RegistryError::AlreadyExists));
    let h = m.get_module("svc").unwrap();
    assert!(matches!(m.resolve(&h), Ok(&1)));
    m.register_or_replace_module("svc", 5);
    assert!(matches!(m.resolve(&h), Ok(&5)));
    m.deregister_module("svc");
    assert!(matches!(m.resolve(&h), Err(ModuleError::Destroyed)));
    assert!(m.get_module("svc").is_none());
}

#[test]
fn defaults_start_empty() {
    let m: Modular<u32> = Modular::default();
    assert!(m.get_module("x").is_none());
    let e: EventsManager<u8> = EventsManager::default();
    assert_eq!(e.len(), 0);
    let r: modular::registry::ModulesRegistry<u8> = Default::default();
    assert!(r.get("x").is_none());
}
