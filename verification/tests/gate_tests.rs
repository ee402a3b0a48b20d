use abac::attributes::InMemoryStorage;
use abac::env::Env;
use abac::expr::Expr;
use abac::mem::Memory;
use abac::parser::parse;
use abac::policy::Policy;
use abac::policy_access_control::{DenyReason, PolicyAccessControl};
use abac::types::{Action, Resource};

fn policy(text: &str) -> Policy {
    Policy::new(parse(text).unwrap().unwrap())
}

fn gate(env: Env) -> PolicyAccessControl {
    PolicyAccessControl::new(Resource::new("/foo"), Action::new("handle_message"), env)
}

#[test]
fn missing_policy_denies() {
    let g = gate(Env::new());
    let (allowed, reason) = g.is_authorized_with(None, true, Some(&vec![]));
    assert!(!allowed);
    assert_eq!(reason, Some(DenyReason::NoPolicy));
}

#[test]
fn constant_policy_answers_without_attributes() {
    let g = gate(Env::new());
    let deny = policy("false");
    let (allowed, reason) = g.is_authorized_with(Some(&deny), false, None);
    assert!(!allowed);
    assert_eq!(reason, Some(DenyReason::ConstantFalse));
    let allow = policy("true");
    let (allowed, reason) = g.is_authorized_with(Some(&allow), false, None);
    assert!(allowed);
    assert_eq!(reason, None);
}

#[test]
fn missing_identity_and_missing_attributes_deny() {
    let g = gate(Env::new());
    let p = policy("(= subject.role \"admin\")");
    let (allowed, reason) = g.is_authorized_with(Some(&p), false, Some(&vec![]));
    assert!(!allowed);
    assert_eq!(reason, Some(DenyReason::NoIdentity));
    let (allowed, reason) = g.is_authorized_with(Some(&p), true, None);
    assert!(!allowed);
    assert_eq!(reason, Some(DenyReason::NoAttributes));
}

#[test]
fn evaluation_failure_and_non_boolean_results_deny() {
    let g = gate(Env::new());
    let unbound = policy("(= subject.age 30)");
    let (allowed, reason) = g.is_authorized_with(Some(&unbound), true, Some(&vec![]));
    assert!(!allowed);
    assert!(matches!(reason, Some(DenyReason::EvalFailure(_))));

    let non_boolean = policy("\"yes\"");
    let (allowed, reason) = g.is_authorized_with(Some(&non_boolean), true, Some(&vec![]));
    assert!(!allowed);
    assert_eq!(reason, Some(DenyReason::NonBoolean));
}

#[test]
fn attributes_bind_under_the_subject_prefix() {
    let g = gate(Env::new());
    let p = policy("(= subject.role \"admin\")");
    let attrs = vec![("role".to_string(), b"admin".to_vec())];
    let (allowed, reason) = g.is_authorized_with(Some(&p), true, Some(&attrs));
    assert!(allowed);
    assert_eq!(reason, None);
}

#[test]
fn overwrite_off_keeps_the_base_binding() {
    let mut base = Env::new();
    base.put("subject.role", Expr::Str("admin".to_string()));
    let g = gate(base);
    let p = policy("(= subject.role \"admin\")");
    let attrs = vec![("role".to_string(), b"user".to_vec())];
    let (allowed, _) = g.is_authorized_with(Some(&p), true, Some(&attrs));
    assert!(allowed, "the base binding is authoritative with overwriting off");
}

#[test]
fn overwrite_on_lets_attributes_replace_the_base() {
    let mut base = Env::new();
    base.put("subject.role", Expr::Str("admin".to_string()));
    let mut g = gate(base);
    g.overwrite();
    let p = policy("(= subject.role \"user\")");
    let attrs = vec![("role".to_string(), b"user".to_vec())];
    let (allowed, _) = g.is_authorized_with(Some(&p), true, Some(&attrs));
    assert!(allowed, "with overwriting on the fetched attribute wins");
}

#[test]
fn request_environment_leaves_the_base_untouched() {
    let mut base = Env::new();
    base.put("resource.version", Expr::Str("1.0.0".to_string()));
    let g = gate(base);
    let attrs = vec![
        ("role".to_string(), b"user".to_vec()),
        ("name".to_string(), b"John".to_vec()),
    ];
    let per_request = g.request_environment(&attrs);
    assert!(per_request.contains("subject.role"));
    assert!(per_request.contains("subject.name"));
    // The same gate builds a fresh environment again: the base did not
    // absorb the per-request bindings.
    let again = g.request_environment(&vec![]);
    assert!(!again.contains("subject.role"));
    assert!(again.contains("resource.version"));
}

#[test]
fn bad_attribute_keys_and_values_are_skipped() {
    let g = gate(Env::new());
    let attrs = vec![
        ("has space".to_string(), b"x".to_vec()),
        ("bad-utf8".to_string(), vec![0xff, 0xfe]),
        ("role".to_string(), b"user".to_vec()),
    ];
    let e = g.request_environment(&attrs);
    assert!(!e.contains("subject.has space"));
    assert!(!e.contains("subject.bad-utf8"));
    assert!(e.contains("subject.role"));
}

#[test]
fn storage_failure_is_a_transient_deny() {
    let g = gate(Env::new());
    let failed = Err(abac::error::StorageError { cause: "disk unavailable".to_string() });
    let (allowed, reason) = g.is_authorized_after_lookup(failed, true, Some(&vec![]));
    assert!(!allowed);
    assert!(matches!(reason, Some(DenyReason::StorageFailure(_))));

    let found = Ok(Some(policy("true")));
    let (allowed, reason) = g.is_authorized_after_lookup(found, false, None);
    assert!(allowed);
    assert_eq!(reason, None);
}

#[test]
fn gate_composes_with_the_in_memory_store() {
    let mut store = Memory::new();
    let r = Resource::new("/foo");
    let a = Action::new("handle_message");
    store.set_policy(&r, &a, &policy("(= subject.name \"John\")"));
    let g = PolicyAccessControl::new(r, a, Env::new());
    let attrs = vec![("name".to_string(), b"John".to_vec())];
    let (allowed, _) = g.is_authorized_in_memory(&store, true, Some(&attrs));
    assert!(allowed);
    let wrong = vec![("name".to_string(), b"Jane".to_vec())];
    let (allowed, reason) = g.is_authorized_in_memory(&store, true, Some(&wrong));
    assert!(!allowed);
    assert_eq!(reason, Some(DenyReason::EvaluatedFalse));
}

#[test]
fn attribute_store_round_trip() {
    let mut store = InMemoryStorage::new();
    store.set("id1", "role", b"admin".to_vec());
    store.set("id1", "name", b"John".to_vec());
    store.set("id2", "role", b"user".to_vec());
    assert_eq!(store.get("id1", "role"), Some(b"admin".to_vec()));
    assert_eq!(store.get("id1", "missing"), None);
    let attrs = store.attributes_for("id1");
    assert_eq!(attrs.len(), 2);
    store.del("id1", "role");
    assert_eq!(store.get("id1", "role"), None);
    store.del("id1", "role");
}
