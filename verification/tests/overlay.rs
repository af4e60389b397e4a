use mikura::{OverlayPatch, Props, OVERLAY_KIND};

fn props(pairs: &[(&str, &str)]) -> Props {
    let mut p = Props::new();
    for (name, value) in pairs {
        p.insert((*name).to_string(), (*value).to_string());
    }
    p
}

#[test]
fn apply_overrides_and_clears() {
    let patch = OverlayPatch {
        kind: "incident".into(),
        key: "inc-1".into(),
        props: props(&[("note", "acked")]),
        cleared: vec!["tmp".into()],
        action_id: Some("act-inc-1-note".into()),
    };
    let merged = patch.apply(props(&[("name", "elevated latency"), ("tmp", "x")]));
    assert_eq!(merged.get("note").map(String::as_str), Some("acked"));
    assert_eq!(merged.get("name").map(String::as_str), Some("elevated latency"));
    assert!(!merged.contains_key("tmp"));
    let record = patch.to_record().unwrap();
    assert_eq!(record.key, "incident/inc-1");
    assert_eq!(OverlayPatch::from_record(&record).unwrap(), patch);
}

#[test]
fn overlay_record_is_reserved_kind_with_cleared_list() {
    let patch = OverlayPatch {
        kind: "incident".into(),
        key: "inc-1".into(),
        props: props(&[("note", "acked")]),
        cleared: vec!["tmp".into(), "old".into()],
        action_id: None,
    };
    let record = patch.to_record().unwrap();
    assert_eq!(record.kind, OVERLAY_KIND);
    assert_eq!(OverlayPatch::identity_key("incident", "inc-1"), "incident/inc-1");
    assert_eq!(OverlayPatch::from_record(&record).unwrap(), patch);
}

#[test]
fn overlay_key_must_be_kind_slash_key() {
    let patch = OverlayPatch {
        kind: "incident".into(),
        key: "inc-1".into(),
        props: props(&[("note", "acked")]),
        cleared: Vec::new(),
        action_id: None,
    };
    let mut record = patch.to_record().unwrap();
    record.key = "incident".into();
    assert!(OverlayPatch::from_record(&record).is_err());
}
