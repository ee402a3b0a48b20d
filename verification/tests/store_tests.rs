use abac::codec::{decode_policy, decode_policy_list, encode_policy, encode_policy_list};
use abac::policy::PolicyList;
use abac::expr::{eq_expr, Expr};
use abac::lmdb::policies_from_entries;
use abac::mem::Memory;
use abac::parser::parse;
use abac::policy::Policy;
use abac::types::{Action, Resource};

fn policy(text: &str) -> Policy {
    Policy::new(parse(text).unwrap().unwrap())
}

#[test]
fn get_returns_what_set_stored() {
    let mut store = Memory::new();
    let r = Resource::new("/foo");
    let a = Action::new("read");
    store.set_policy(&r, &a, &policy("(= a.b 1)"));
    let got = store.get_policy(&r, &a).unwrap();
    assert!(eq_expr(got.expression(), policy("(= a.b 1)").expression()));
    assert!(store.get_policy(&r, &Action::new("write")).is_none());
}

#[test]
fn set_twice_leaves_a_single_entry() {
    let mut store = Memory::new();
    let r = Resource::new("/foo");
    let a = Action::new("read");
    store.set_policy(&r, &a, &policy("true"));
    store.set_policy(&r, &a, &policy("true"));
    let listing = store.policies(&r);
    assert_eq!(listing.policies().len(), 1);
}

#[test]
fn set_overwrites_the_stored_policy() {
    let mut store = Memory::new();
    let r = Resource::new("/foo");
    let a = Action::new("read");
    store.set_policy(&r, &a, &policy("true"));
    store.set_policy(&r, &a, &policy("false"));
    let got = store.get_policy(&r, &a).unwrap();
    assert!(eq_expr(got.expression(), &Expr::Bool(false)));
}

#[test]
fn del_on_a_missing_key_is_a_quiet_no_op() {
    let mut store = Memory::new();
    let r = Resource::new("/foo");
    let a = Action::new("read");
    store.set_policy(&r, &a, &policy("true"));
    store.del_policy(&r, &Action::new("write"));
    store.del_policy(&Resource::new("/bar"), &a);
    assert!(store.get_policy(&r, &a).is_some());
    store.del_policy(&r, &a);
    assert!(store.get_policy(&r, &a).is_none());
    store.del_policy(&r, &a);
}

#[test]
fn prefix_scan_returns_only_the_exact_resource() {
    let mut store = Memory::new();
    store.set_policy(&Resource::new("/foo"), &Action::new("read"), &policy("true"));
    store.set_policy(&Resource::new("/foobar"), &Action::new("read"), &policy("false"));
    let listing = store.policies(&Resource::new("/foo"));
    assert_eq!(listing.policies().len(), 1);
    assert_eq!(listing.policies()[0].0.as_str(), "read");
    assert!(eq_expr(listing.policies()[0].1.expression(), &Expr::Bool(true)));
}

#[test]
fn listing_comes_in_action_order() {
    let mut store = Memory::new();
    let r = Resource::new("/foo");
    store.set_policy(&r, &Action::new("write"), &policy("false"));
    store.set_policy(&r, &Action::new("read"), &policy("true"));
    store.set_policy(&r, &Action::new("handle_message"), &policy("true"));
    let listing = store.policies(&r);
    let actions: Vec<&str> = listing.policies().iter().map(|(a, _)| a.as_str()).collect();
    assert_eq!(actions, vec!["handle_message", "read", "write"]);
}

#[test]
fn binary_round_trip_restores_the_policy() {
    let texts = [
        "true",
        "-42",
        r#""some … text""#,
        r#"(and (= resource.version "1.0.0") (member? "John" resource.admins))"#,
    ];
    for text in texts {
        let p = policy(text);
        let bytes = encode_policy(&p);
        let back = decode_policy(&bytes).unwrap();
        assert!(eq_expr(p.expression(), back.expression()), "round trip failed for {text}");
    }
    let seq_policy = Policy::new(Expr::Sequence(vec![Expr::Int(1), Expr::Bool(false)]));
    let bytes = encode_policy(&seq_policy);
    let back = decode_policy(&bytes).unwrap();
    assert!(eq_expr(seq_policy.expression(), back.expression()));
}

#[test]
fn listing_round_trip_restores_actions_and_policies() {
    let pairs = vec![
        (Action::new("handle_message"), policy("true")),
        (Action::new("read"), policy(r#"(= subject.role "admin")"#)),
        (Action::new("write"), policy("false")),
    ];
    let listing = PolicyList::new(pairs);
    let bytes = encode_policy_list(&listing);
    let back = decode_policy_list(&bytes).unwrap();
    assert_eq!(back.policies().len(), listing.policies().len());
    for (orig, got) in listing.policies().iter().zip(back.policies().iter()) {
        assert_eq!(orig.0.as_str(), got.0.as_str());
        assert!(eq_expr(orig.1.expression(), got.1.expression()));
    }

    let empty = PolicyList::new(Vec::new());
    let bytes = encode_policy_list(&empty);
    assert_eq!(decode_policy_list(&bytes).unwrap().policies().len(), 0);

    let mut bytes = encode_policy_list(&decode_policy_list(&encode_policy_list(
        &PolicyList::new(vec![(Action::new("a"), policy("1"))]),
    )).unwrap());
    bytes.pop();
    assert!(decode_policy_list(&bytes).is_none());
}

#[test]
fn truncated_or_garbled_records_do_not_decode() {
    let p = policy("(= a.b 1)");
    let mut bytes = encode_policy(&p);
    bytes.pop();
    assert!(decode_policy(&bytes).is_none());
    assert!(decode_policy(&vec![0xff, 0x00]).is_none());
}

#[test]
fn disk_scan_filter_stops_at_the_first_other_resource() {
    let entry = |key: &str, p: &Policy| (key.as_bytes().to_vec(), encode_policy(p));
    let t = policy("true");
    let f = policy("false");
    // Keys as a sorted scan from the prefix "/foo:" would return them.
    let entries = vec![
        entry("/foo:read", &t),
        entry("/foo:write", &f),
        entry("/foobar:read", &f),
    ];
    let pairs = policies_from_entries(&entries, &Resource::new("/foo")).unwrap();
    assert_eq!(pairs.len(), 2);
    assert_eq!(pairs[0].0.as_str(), "read");
    assert_eq!(pairs[1].0.as_str(), "write");

    // A malformed key without the delimiter is skipped, not fatal.
    let with_malformed = vec![
        (b"no-delimiter".to_vec(), b"junk".to_vec()),
        entry("/foo:read", &t),
    ];
    let pairs = policies_from_entries(&with_malformed, &Resource::new("/foo")).unwrap();
    assert_eq!(pairs.len(), 1);

    // A matching key whose value is not a policy record is an error.
    let with_bad_value = vec![(b"/foo:read".to_vec(), b"junk".to_vec())];
    assert!(policies_from_entries(&with_bad_value, &Resource::new("/foo")).is_err());
}
