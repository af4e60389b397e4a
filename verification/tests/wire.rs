use mikura::wire::{
    check_bearer_secret, check_request_limits, check_token, evaluate_request_from_wire, predicate_from_wire, request_bound_text, require_bearer_if_routable,
    restriction_from_wire, tokens_equal, wire_version,
};
use mikura::{Predicate, WireDeny, WireEvaluate, WireFilter, WireHop, WireIdentity, WirePredicate, WireRestriction, WireSort};

fn deny(kind: &str, property: &str) -> WireDeny {
    WireDeny {
        kind: kind.into(),
        property: property.into(),
    }
}

fn evaluate() -> WireEvaluate {
    WireEvaluate {
        root_kind: "incident".into(),
        hops: vec![WireHop {
            far_kind: "component".into(),
            join_property: "affects".into(),
            incoming: true,
            predicate: Some(WirePredicate::Eq {
                property: "tier".into(),
                value: "prod".into(),
            }),
        }],
        sum_kind: "component".into(),
        sum_property: "tier".into(),
        deny: Vec::new(),
        restriction: None,
        filter: None,
        predicate: None,
        object_bound: 8,
        sort: Some(WireSort {
            property: "priority".into(),
            descending: true,
        }),
        page_size: 2,
        cursor: Some("tok".into()),
    }
}

#[test]
fn wire_predicate_tree_converts_node_for_node() {
    let wire = WirePredicate::And {
        args: vec![
            WirePredicate::Eq {
                property: "open".into(),
                value: "true".into(),
            },
            WirePredicate::Not {
                arg: Box::new(WirePredicate::Or {
                    args: vec![
                        WirePredicate::Missing { property: "note".into() },
                        WirePredicate::Range {
                            property: "priority".into(),
                            min: Some("1".into()),
                            max: None,
                        },
                        WirePredicate::Neq {
                            property: "open".into(),
                            value: "false".into(),
                        },
                    ],
                }),
            },
        ],
    };
    let p = predicate_from_wire(&wire);
    match p {
        Predicate::And(args) => {
            assert_eq!(args.len(), 2);
            assert!(matches!(&args[0], Predicate::Eq { property, value } if property == "open" && value == "true"));
            match &args[1] {
                Predicate::Not(inner) => match inner.as_ref() {
                    Predicate::Or(ors) => {
                        assert_eq!(ors.len(), 3);
                        assert!(matches!(&ors[0], Predicate::Missing { property } if property == "note"));
                        assert!(matches!(&ors[1], Predicate::Range { property, min: Some(lo), max: None }
                            if property == "priority" && lo == "1"));
                        assert!(matches!(&ors[2], Predicate::Neq { property, value } if property == "open" && value == "false"));
                    }
                    other => panic!("expected or, got {other:?}"),
                },
                other => panic!("expected not, got {other:?}"),
            }
        }
        other => panic!("expected and, got {other:?}"),
    }
}

#[test]
fn deny_list_and_restriction_document_are_exclusive() {
    let restriction = Some(WireRestriction {
        deny_properties: vec![deny("incident", "note")],
        hide_kinds: vec!["component".into()],
        hide_identities: vec![WireIdentity {
            kind: "incident".into(),
            key: "inc-2".into(),
        }],
    });
    let err = restriction_from_wire(&vec![deny("incident", "name")], &restriction, "load").unwrap_err();
    assert_eq!(err, "host load accepts deny or restriction, not both");

    let acl = restriction_from_wire(&Vec::new(), &restriction, "load").unwrap();
    assert!(acl.check("incident", "note").is_err());
    assert!(acl.check("incident", "name").is_ok());
    assert!(!acl.object_visible("component", "svc-api"));
    assert!(!acl.object_visible("incident", "inc-2"));
    assert!(acl.object_visible("incident", "inc-1"));

    let only_deny = restriction_from_wire(&vec![deny("incident", "name")], &None, "load").unwrap();
    assert!(only_deny.check("incident", "name").is_err());
    assert!(only_deny.object_visible("component", "svc-api"));
}

#[test]
fn evaluate_request_converts_every_field() {
    let request = evaluate_request_from_wire(&evaluate()).unwrap();
    assert_eq!(request.root_kind, "incident");
    assert_eq!(request.hops.len(), 1);
    assert_eq!(request.hops[0].far_kind, "component");
    assert!(request.hops[0].incoming);
    assert!(matches!(&request.hops[0].predicate, Some(Predicate::Eq { property, .. }) if property == "tier"));
    assert_eq!(request.object_bound, 8);
    assert_eq!(request.page_size, 2);
    assert_eq!(request.cursor.as_deref(), Some("tok"));
    let sort = request.sort.expect("sort");
    assert_eq!(sort.property, "priority");
    assert!(sort.descending);
}

#[test]
fn evaluate_request_refusals_come_in_order() {
    let mut both = evaluate();
    both.deny = vec![deny("incident", "name")];
    both.restriction = Some(WireRestriction {
        deny_properties: Vec::new(),
        hide_kinds: Vec::new(),
        hide_identities: Vec::new(),
    });
    both.filter = Some(WireFilter {
        property: String::new(),
        value: "x".into(),
    });
    assert_eq!(
        evaluate_request_from_wire(&both).unwrap_err(),
        "host evaluate accepts deny or restriction, not both"
    );

    let mut empty_filter = evaluate();
    empty_filter.filter = Some(WireFilter {
        property: "name".into(),
        value: String::new(),
    });
    empty_filter.predicate = Some(WirePredicate::Missing { property: "note".into() });
    assert_eq!(
        evaluate_request_from_wire(&empty_filter).unwrap_err(),
        "evaluate filter requires non-empty property and value"
    );

    let mut filter_and_predicate = evaluate();
    filter_and_predicate.filter = Some(WireFilter {
        property: "name".into(),
        value: "disk full".into(),
    });
    filter_and_predicate.predicate = Some(WirePredicate::Missing { property: "note".into() });
    assert_eq!(
        evaluate_request_from_wire(&filter_and_predicate).unwrap_err(),
        "evaluate accepts filter or predicate, not both"
    );
}

#[test]
fn tokens_compare_every_byte() {
    assert!(tokens_equal("s3cret", "s3cret"));
    assert!(!tokens_equal("s3cret", "s3creT"));
    assert!(!tokens_equal("s3cret", "s3cre"));
    assert!(tokens_equal("", ""));
}

#[test]
fn bearer_is_checked_only_when_required() {
    assert!(check_token(&None, None).is_ok());
    assert!(check_token(&None, Some("anything")).is_ok());
    let bearer = Some("tok".to_string());
    assert!(check_token(&bearer, Some("tok")).is_ok());
    assert_eq!(check_token(&bearer, Some("bad")).unwrap_err(), "bearer required");
    assert_eq!(check_token(&bearer, None).unwrap_err(), "bearer required");
}

#[test]
fn wire_version_accepts_absent_or_one() {
    assert_eq!(wire_version(None), Ok(1));
    assert_eq!(wire_version(Some(Some(1))), Ok(1));
    assert_eq!(wire_version(Some(Some(2))).unwrap_err(), "unsupported host wire v 2");
    assert_eq!(wire_version(Some(None)).unwrap_err(), "host wire v must be an integer");
}

#[test]
fn request_bound_message_names_bound_and_bytes() {
    assert_eq!(request_bound_text(16, 17), "RequestBound { bound: 16, bytes: 17 }");
}

#[test]
fn routable_bind_needs_a_bearer() {
    assert!(require_bearer_if_routable(true, false, "refused").is_ok());
    assert!(require_bearer_if_routable(false, true, "refused").is_ok());
    assert_eq!(require_bearer_if_routable(false, false, "refused").unwrap_err(), "refused");
}

#[test]
fn request_limits_must_both_be_positive() {
    assert!(check_request_limits(1, 1).is_ok());
    assert_eq!(check_request_limits(0, 5).unwrap_err(), "request bound must be greater than zero");
    assert_eq!(check_request_limits(0, 0).unwrap_err(), "request bound must be greater than zero");
    assert_eq!(check_request_limits(64, 0).unwrap_err(), "request timeout must be greater than zero");
}

#[test]
fn bearer_secret_must_be_non_empty() {
    assert!(check_bearer_secret("s3cret").is_ok());
    assert_eq!(check_bearer_secret("").unwrap_err(), "clerk bearer must be non-empty");
}
