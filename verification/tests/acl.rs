use mikura::{PropertyAcl, Props};

fn props(pairs: &[(&str, &str)]) -> Props {
    let mut p = Props::new();
    for (name, value) in pairs {
        p.insert((*name).to_string(), (*value).to_string());
    }
    p
}

#[test]
fn omit_denied_drops_only_the_denied_key() {
    let props = props(&[("order_id", "o1"), ("amount", "10")]);
    let open = PropertyAcl::allow_all().omit_denied("Shipment", props.clone());
    assert_eq!(open.get("amount").map(String::as_str), Some("10"));
    assert_eq!(open.get("order_id").map(String::as_str), Some("o1"));
    let redacted = PropertyAcl::deny_property("Shipment", "amount").omit_denied("Shipment", props);
    assert!(!redacted.contains_key("amount"));
    assert_eq!(redacted.get("order_id").map(String::as_str), Some("o1"));
    assert!(!redacted.contains_key("guessed"));
}

#[test]
fn interned_denies_are_kind_and_property_ids() {
    let acl = PropertyAcl::deny_property("Shipment", "amount");
    // "Shipment" is interned as 3 and "amount" as 7.
    let intern: Vec<String> = ["t0", "t1", "t2", "Shipment", "t4", "t5", "t6", "amount"]
        .iter()
        .map(|s| s.to_string())
        .collect();
    let denied = acl.interned_denies(&intern);
    assert_eq!(denied, vec![(3, 7)]);
    let any: Vec<String> = vec!["Shipment".into(), "amount".into()];
    assert!(PropertyAcl::allow_all().interned_denies(&any).is_empty());
    assert!(acl.interned_denies(&[]).is_empty());
}

#[test]
fn omit_owned_clones_only_allowed_pairs() {
    let intern: Vec<String> = vec![
        "Shipment".into(),
        "amount".into(),
        "10".into(),
        "order_id".into(),
        "o1".into(),
    ];
    let owned = [(1, 2), (3, 4)];
    let open = PropertyAcl::omit_owned(&intern, 0, &owned, &[]);
    assert_eq!(open.get("amount").map(String::as_str), Some("10"));
    assert_eq!(open.get("order_id").map(String::as_str), Some("o1"));
    let denied = [(0, 1)];
    let redacted = PropertyAcl::omit_owned(&intern, 0, &owned, &denied);
    assert!(!redacted.contains_key("amount"));
    assert_eq!(redacted.get("order_id").map(String::as_str), Some("o1"));
}

#[test]
fn check_refuses_only_denied_pairs() {
    let acl = PropertyAcl::deny_property("Shipment", "amount");
    assert!(acl.check("Shipment", "amount").is_err());
    assert!(acl.check("Shipment", "order_id").is_ok());
    assert!(acl.check("Order", "amount").is_ok());
}

#[test]
fn hidden_kinds_and_identities_are_not_visible() {
    let mut acl = PropertyAcl::allow_all();
    assert!(!acl.hides_objects());
    acl.insert_hide_kind("Customer");
    acl.insert_hide_identity("Order", "o1");
    assert!(acl.hides_objects());
    assert!(!acl.object_visible("Customer", "c1"));
    assert!(!acl.object_visible("Order", "o1"));
    assert!(acl.object_visible("Order", "o2"));
}
