use mikura::{
    ObjectRecord, PropertyType, Props, SchemaDescriptor, SchemaLink, SCHEMA_KIND, SCHEMA_LINKS,
    SCHEMA_PROPERTIES, SCHEMA_SUMS, SCHEMA_TYPES,
};

fn descriptor() -> SchemaDescriptor {
    SchemaDescriptor {
        kind: "incident".into(),
        properties: vec!["affects".into(), "name".into()],
        required: vec!["name".into()],
        links: vec![SchemaLink {
            name: "affects".into(),
            far_kind: "component".into(),
            outgoing: true,
        }],
        sums: Vec::new(),
        types: Vec::new(),
    }
}

fn instance(pairs: &[(&str, &str)]) -> ObjectRecord {
    let mut props = Props::new();
    for (name, value) in pairs {
        props.insert((*name).to_string(), (*value).to_string());
    }
    ObjectRecord {
        gen: 1,
        kind: "incident".into(),
        key: "inc-1".into(),
        hidden: false,
        action_id: None,
        props,
    }
}

#[test]
fn record_roundtrip_preserves_rules() {
    let schema = descriptor();
    let record = schema.to_record().unwrap();
    assert_eq!(record.kind, SCHEMA_KIND);
    assert_eq!(record.key, "incident");
    assert_eq!(
        record.props.get(SCHEMA_PROPERTIES).map(String::as_str),
        Some("affects,name")
    );
    assert_eq!(
        record.props.get(SCHEMA_LINKS).map(String::as_str),
        Some("affects:component:out:0..1")
    );
    assert_eq!(SchemaDescriptor::from_record(&record).unwrap(), schema);
}

#[test]
fn validate_rejects_unknown_missing_and_empty_link() {
    let schema = descriptor();
    schema
        .validate(&instance(&[("name", "elevated latency"), ("affects", "svc-api")]))
        .unwrap();
    let unknown = schema
        .validate(&instance(&[("name", "n"), ("note", "acked")]))
        .unwrap_err();
    assert!(unknown.contains("unknown property"), "{unknown}");
    let missing = schema.validate(&instance(&[("affects", "svc-api")])).unwrap_err();
    assert!(missing.contains("missing required"), "{missing}");
    let empty = schema
        .validate(&instance(&[("name", "n"), ("affects", "")]))
        .unwrap_err();
    assert!(empty.contains("non-empty key"), "{empty}");
}

#[test]
fn reserved_kind_and_unknown_schema_keys_fail() {
    let mut reserved = descriptor();
    reserved.kind = SCHEMA_KIND.into();
    assert!(reserved.to_record().unwrap_err().contains("reserved"));
    let mut record = descriptor().to_record().unwrap();
    record.props.insert("note".into(), "x".into());
    let err = SchemaDescriptor::from_record(&record).unwrap_err();
    assert!(err.contains("unknown schema property"), "{err}");
}

#[test]
fn sums_roundtrip_and_historical_rows_load() {
    let mut schema = descriptor();
    schema.properties = vec!["affects".into(), "amount".into(), "name".into()];
    schema.sums = vec!["amount".into()];
    let record = schema.to_record().unwrap();
    assert_eq!(record.props.get(SCHEMA_SUMS).map(String::as_str), Some("amount"));
    assert_eq!(SchemaDescriptor::from_record(&record).unwrap(), schema);

    let mut historical = descriptor().to_record().unwrap();
    historical.props.remove(SCHEMA_SUMS);
    let loaded = SchemaDescriptor::from_record(&historical).unwrap();
    assert!(loaded.sums.is_empty());

    schema.sums = vec!["missing".into()];
    let err = schema.to_record().unwrap_err();
    assert!(err.contains("sum property missing is not declared"), "{err}");
}

#[test]
fn types_roundtrip_and_historical_rows_load() {
    let mut schema = descriptor();
    schema.properties = vec!["affects".into(), "cost".into(), "name".into(), "open".into()];
    schema.types = vec![
        ("cost".into(), PropertyType::Decimal { scale: 2 }),
        ("open".into(), PropertyType::Boolean),
    ];
    let record = schema.to_record().unwrap();
    assert_eq!(
        record.props.get(SCHEMA_TYPES).map(String::as_str),
        Some("cost:decimal:2,open:boolean")
    );
    assert_eq!(SchemaDescriptor::from_record(&record).unwrap(), schema);

    let mut historical = descriptor().to_record().unwrap();
    historical.props.remove(SCHEMA_TYPES);
    let loaded = SchemaDescriptor::from_record(&historical).unwrap();
    assert!(loaded.types.is_empty());

    schema.types = vec![("missing".into(), PropertyType::Integer)];
    let err = schema.to_record().unwrap_err();
    assert!(err.contains("typed property missing is not declared"), "{err}");
}

#[test]
fn validate_rejects_non_canonical_scalars() {
    let mut schema = descriptor();
    schema.properties = vec!["affects".into(), "name".into(), "open".into()];
    schema.types = vec![("open".into(), PropertyType::Boolean)];
    schema
        .validate(&instance(&[("name", "n"), ("affects", "svc-api"), ("open", "true")]))
        .unwrap();
    let err = schema
        .validate(&instance(&[("name", "n"), ("affects", "svc-api"), ("open", "TRUE")]))
        .unwrap_err();
    assert!(err.contains("invalid boolean"), "{err}");
}

#[test]
fn property_type_defaults_to_string() {
    let mut schema = descriptor();
    schema.properties = vec!["affects".into(), "cost".into(), "name".into()];
    schema.types = vec![("cost".into(), PropertyType::Integer)];
    assert_eq!(schema.property_type("cost"), Some(PropertyType::Integer));
    assert_eq!(schema.property_type("name"), Some(PropertyType::String));
    assert_eq!(schema.property_type("nope"), None);
}
