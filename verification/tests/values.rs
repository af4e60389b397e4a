use mikura::{ObjectRecord, PropertyAcl, PropertyType, Props, SchemaDescriptor, SchemaLink, Store, SyncPolicy};

fn incident_typed_schema() -> SchemaDescriptor {
    SchemaDescriptor {
        kind: "incident".into(),
        properties: vec![
            "affects".into(),
            "cost".into(),
            "name".into(),
            "open".into(),
            "opened_at".into(),
            "priority".into(),
        ],
        required: vec!["name".into()],
        links: vec![SchemaLink {
            name: "affects".into(),
            far_kind: "component".into(),
            outgoing: true,
        }],
        sums: Vec::new(),
        types: vec![
            ("cost".into(), PropertyType::Decimal { scale: 2 }),
            ("open".into(), PropertyType::Boolean),
            ("opened_at".into(), PropertyType::Timestamp),
            ("priority".into(), PropertyType::Integer),
        ],
    }
}

fn rec(kind: &str, key: &str, pairs: &[(&str, &str)]) -> ObjectRecord {
    let mut props = Props::new();
    for (name, value) in pairs {
        props.insert((*name).to_string(), (*value).to_string());
    }
    ObjectRecord {
        gen: 1,
        kind: kind.into(),
        key: key.into(),
        hidden: false,
        action_id: None,
        props,
    }
}

fn stored(ty: PropertyType, value: &str) -> Result<String, String> {
    ty.canonicalize_write(value)
}

#[test]
fn typed_scalars_are_stored_in_canonical_form() {
    let (mut store, _) = Store::create(SyncPolicy::Group(32));
    store
        .append(rec("incident", "legacy", &[("name", "old"), ("alias", "pre-schema")]))
        .unwrap();
    store.append(incident_typed_schema().to_record().unwrap()).unwrap();
    store
        .append(rec(
            "incident",
            "inc-1",
            &[
                ("name", "elevated latency"),
                ("affects", "svc-api"),
                ("open", "true"),
                ("priority", "9007199254740993"),
                ("opened_at", "2026-09-19T18:00:00+01:00"),
                ("cost", "1500.00"),
            ],
        ))
        .unwrap();

    let loaded = store.load("incident", "inc-1", &PropertyAcl::allow_all()).unwrap();
    assert_eq!(loaded.props.get("open").map(String::as_str), Some("true"));
    assert_eq!(loaded.props.get("priority").map(String::as_str), Some("9007199254740993"));
    assert_eq!(
        loaded.props.get("opened_at").map(String::as_str),
        Some("2026-09-19T17:00:00.000Z")
    );
    assert_eq!(loaded.props.get("cost").map(String::as_str), Some("1500.00"));

    let overflow = store
        .append(rec("incident", "inc-1", &[("name", "n"), ("priority", "9223372036854775808")]))
        .unwrap_err();
    assert!(overflow.contains("overflows i64") || overflow.contains("not canonical"), "{overflow}");
    let bad_bool = store
        .append(rec("incident", "inc-1", &[("name", "n"), ("open", "TRUE")]))
        .unwrap_err();
    assert!(bad_bool.contains("invalid boolean"), "{bad_bool}");
    let empty = store
        .append(rec("incident", "inc-1", &[("name", "n"), ("cost", "")]))
        .unwrap_err();
    assert!(empty.contains("decimal"), "{empty}");

    let denied = store
        .load("incident", "inc-1", &PropertyAcl::deny_property("incident", "cost"))
        .unwrap();
    assert!(!denied.props.contains_key("cost"));
    assert_eq!(denied.props.get("open").map(String::as_str), Some("true"));

    let historical = store.load("incident", "legacy", &PropertyAcl::allow_all()).unwrap();
    assert_eq!(historical.props.get("alias").map(String::as_str), Some("pre-schema"));
}

#[test]
fn timestamp_writes_move_to_utc_with_milliseconds() {
    assert_eq!(
        stored(PropertyType::Timestamp, "2026-09-19T18:00:00+01:00").unwrap(),
        "2026-09-19T17:00:00.000Z"
    );
    assert_eq!(
        stored(PropertyType::Timestamp, "2026-01-01T00:30:00+01:00").unwrap(),
        "2025-12-31T23:30:00.000Z"
    );
    assert_eq!(
        stored(PropertyType::Timestamp, "2024-02-28T23:00:00-01:30").unwrap(),
        "2024-02-29T00:30:00.000Z"
    );
    assert_eq!(
        stored(PropertyType::Timestamp, "2023-02-28T23:00:00-01:30").unwrap(),
        "2023-03-01T00:30:00.000Z"
    );
    assert_eq!(
        stored(PropertyType::Timestamp, "2026-09-19T17:00:00.123456Z").unwrap(),
        "2026-09-19T17:00:00.123Z"
    );
    assert_eq!(
        stored(PropertyType::Timestamp, "2026-09-19T17:00:00.5Z").unwrap(),
        "2026-09-19T17:00:00.500Z"
    );
    assert_eq!(
        stored(PropertyType::Timestamp, "2026-09-19T17:00:00Z").unwrap(),
        "2026-09-19T17:00:00.000Z"
    );
}

#[test]
fn stored_timestamp_is_written_unchanged() {
    let canonical = "2026-09-19T17:00:00.000Z";
    assert_eq!(stored(PropertyType::Timestamp, canonical).unwrap(), canonical);
    let again = stored(PropertyType::Timestamp, "2024-03-01T00:15:00.250+00:30").unwrap();
    assert_eq!(again, "2024-02-29T23:45:00.250Z");
    assert_eq!(stored(PropertyType::Timestamp, &again).unwrap(), again);
    assert!(PropertyType::Timestamp.parse_canonical(&again).is_ok());
}

#[test]
fn timestamp_writes_that_name_no_moment_fail() {
    for bad in [
        "2026-02-30T00:00:00Z",
        "2025-02-29T00:00:00Z",
        "2026-09-19 17:00:00Z",
        "2026-09-19T24:00:00Z",
        "2026-09-19T17:00:00",
        "2026-09-19T17:00:00+01",
        "2026-09-19T17:00:00+24:00",
        "2026-09-19T17:00:00.Z",
        "2026-09-19T17:00:00.1234567890Z",
        "0000-01-01T00:00:00+00:01",
        "9999-12-31T23:59:00-00:01",
        "",
    ] {
        let err = stored(PropertyType::Timestamp, bad).unwrap_err();
        assert!(err.contains("timestamp"), "{bad}: {err}");
    }
}

#[test]
fn only_the_stored_timestamp_form_is_canonical() {
    assert!(PropertyType::Timestamp.parse_canonical("2026-09-19T17:00:00.000Z").is_ok());
    for not_stored in ["2026-09-19T17:00:00Z", "2026-09-19T18:00:00.000+01:00", "2026-13-01T00:00:00.000Z"] {
        let err = PropertyType::Timestamp.parse_canonical(not_stored).unwrap_err();
        assert!(err.contains("not canonical"), "{err}");
    }
    assert_eq!(
        PropertyType::Timestamp
            .compare_canonical("2026-09-19T17:00:00.000Z", "2026-09-19T17:00:00.001Z")
            .unwrap(),
        mikura::Order::Less
    );
}
