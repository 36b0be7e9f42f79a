use modular::error::{ModuleError, RegistryError};
use modular::registry::{Admission, ModulesRegistry};
use modular::request::{ModuleRequest, ModuleResponse};

#[test]
fn register_twice_fails_and_keeps_first() {
    let mut r: ModulesRegistry<u32> = ModulesRegistry::new();
    assert_eq!(r.register("m", 1), Ok(()));
    assert_eq!(r.register("m", 2), Err(RegistryError::AlreadyExists));
    let h = r.get("m").unwrap();
    assert!(matches!(r.resolve(&h), Ok(&1)));
}

#[test]
fn replace_is_seen_by_earlier_handle() {
    let mut r: ModulesRegistry<u32> = ModulesRegistry::new();
    r.register("m", 1).unwrap();
    let h = r.get("m").unwrap();
    r.register_or_replace("m", 7);
    assert!(matches!(r.resolve(&h), Ok(&7)));
    assert_eq!(r.get("m"), Some(h));
}

#[test]
fn replace_on_free_name_registers() {
    let mut r: ModulesRegistry<u32> = ModulesRegistry::new();
    r.register_or_replace("n", 3);
    let h = r.get("n").unwrap();
    assert!(matches!(r.resolve(&h), Ok(&3)));
}

#[test]
fn remove_then_invoke_is_destroyed() {
    let mut r: ModulesRegistry<u32> = ModulesRegistry::new();
    r.register("m", 1).unwrap();
    let h = r.get("m").unwrap();
    r.remove("m");
    assert!(matches!(r.resolve(&h), Err(ModuleError::Destroyed)));
    assert_eq!(r.get("m"), None);
    // a new module under the same name does not revive the old handle
    r.register("m", 2).unwrap();
    assert!(matches!(r.resolve(&h), Err(ModuleError::Destroyed)));
    let h2 = r.get("m").unwrap();
    assert!(matches!(r.resolve(&h2), Ok(&2)));
    assert_ne!(h, h2);
}

#[test]
fn remove_missing_name_changes_nothing() {
    let mut r: ModulesRegistry<u32> = ModulesRegistry::new();
    r.register("a", 1).unwrap();
    r.remove("b");
    let h = r.get("a").unwrap();
    assert!(matches!(r.resolve(&h), Ok(&1)));
}

#[test]
fn several_modules_resolve_independently() {
    let mut r: ModulesRegistry<u32> = ModulesRegistry::new();
    r.register("a", 1).unwrap();
    r.register("b", 2).unwrap();
    r.register("c", 3).unwrap();
    let hb = r.get("b").unwrap();
    let hc = r.get("c").unwrap();
    r.remove("a");
    assert!(matches!(r.resolve(&hb), Ok(&2)));
    assert!(matches!(r.resolve(&hc), Ok(&3)));
    assert!(r.can_issue_slot());
}

#[test]
fn request_and_response_envelopes() {
    let r = ModuleRequest::new("do", vec![1u8, 2]);
    assert_eq!(r.action(), "do");
    assert_eq!(r.body(), &vec![1u8, 2]);
    let resp = ModuleResponse::new(5u32);
    assert_eq!(resp.data, 5);
}

#[test]
fn calls_to_one_module_are_serialized() {
    let mut r: ModulesRegistry<u32> = ModulesRegistry::new();
    r.register("a", 1).unwrap();
    r.register("b", 2).unwrap();
    let ha = r.get("a").unwrap();
    let hb = r.get("b").unwrap();
    assert_eq!(r.begin_call(&ha), Ok(Admission::Started));
    assert_eq!(r.begin_call(&ha), Ok(Admission::Busy));
    // another module is independent
    assert_eq!(r.begin_call(&hb), Ok(Admission::Started));
    // replacing the handler does not end the call in flight
    r.register_or_replace("a", 9);
    assert_eq!(r.begin_call(&ha), Ok(Admission::Busy));
    r.end_call(&ha);
    assert_eq!(r.begin_call(&ha), Ok(Admission::Started));
    r.remove("a");
    assert!(matches!(r.begin_call(&ha), Err(ModuleError::Destroyed)));
    r.end_call(&ha);
    r.end_call(&hb);
    assert_eq!(r.begin_call(&hb), Ok(Admission::Started));
}
