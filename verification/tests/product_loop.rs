use mikura::{
    parse_superblock, read_log, Aggregate, ComputeError, EvaluateRequest, ExactMatch, Hop, LocalCompute, LogWrite,
    ObjectRecord, ObjectSet, PropertyAcl, Props, SchemaDescriptor, SchemaLink, Store, SyncPolicy, PAGE,
};

fn rec(kind: &str, key: &str, hidden: bool, pairs: &[(&str, &str)]) -> ObjectRecord {
    let mut props = Props::new();
    for (name, value) in pairs {
        props.insert((*name).to_string(), (*value).to_string());
    }
    ObjectRecord { gen: 1, kind: kind.into(), key: key.into(), hidden, action_id: None, props }
}

fn product_loop_schemas() -> (SchemaDescriptor, SchemaDescriptor) {
    (
        SchemaDescriptor {
            kind: "component".into(),
            properties: vec!["name".into(), "tier".into()],
            required: vec!["name".into(), "tier".into()],
            links: vec![SchemaLink { name: "affects".into(), far_kind: "incident".into(), outgoing: false }],
            sums: Vec::new(),
            types: Vec::new(),
        },
        SchemaDescriptor {
            kind: "incident".into(),
            properties: vec!["affects".into(), "name".into()],
            required: vec!["name".into()],
            links: vec![SchemaLink { name: "affects".into(), far_kind: "component".into(), outgoing: true }],
            sums: Vec::new(),
            types: Vec::new(),
        },
    )
}

fn product_loop_seed() -> Vec<ObjectRecord> {
    vec![
        rec("component", "svc-api", false, &[("name", "billing-api"), ("tier", "prod")]),
        rec("incident", "inc-1", false, &[("name", "elevated latency"), ("affects", "svc-api")]),
    ]
}

fn list_prod_components(bound: usize) -> EvaluateRequest {
    EvaluateRequest {
        root_kind: "component".into(),
        hops: vec![],
        sum_kind: "component".into(),
        sum_property: "tier".into(),
        aggregate: Aggregate::CountAndSum,
        acl: PropertyAcl::allow_all(),
        filter: Some(ExactMatch { property: "tier".into(), value: "prod".into() }),
        predicate: None,
        object_bound: bound,
        sort: None,
        page_size: 0,
        cursor: None,
    }
}

fn hop_incident_to_component(bound: usize) -> EvaluateRequest {
    EvaluateRequest {
        root_kind: "incident".into(),
        hops: vec![Hop { far_kind: "component".into(), join_property: "affects".into(), incoming: true, predicate: None }],
        sum_kind: "component".into(),
        sum_property: "tier".into(),
        aggregate: Aggregate::CountAndSum,
        acl: PropertyAcl::allow_all(),
        filter: None,
        predicate: None,
        object_bound: bound,
        sort: None,
        page_size: 0,
        cursor: None,
    }
}

/// A log file and its sidecar files, held in memory.
struct MemLog {
    bytes: Vec<u8>,
    checkpoint: Option<Vec<u8>>,
    delta: Option<Vec<u8>>,
}

impl MemLog {
    fn new() -> (MemLog, Store) {
        let (store, writes) = Store::create(SyncPolicy::Group(32));
        let mut log = MemLog { bytes: Vec::new(), checkpoint: None, delta: None };
        log.perform(writes);
        (log, store)
    }

    fn perform(&mut self, writes: Vec<LogWrite>) {
        for w in writes {
            match w {
                LogWrite::Page(page) => self.bytes.extend_from_slice(&page),
                LogWrite::Superblock(sb) => {
                    if self.bytes.len() < PAGE {
                        self.bytes.resize(PAGE, 0);
                    }
                    self.bytes[..PAGE].copy_from_slice(&sb);
                }
                LogWrite::Sync => {}
                LogWrite::Checkpoint(bytes) => self.checkpoint = Some(bytes),
                LogWrite::Delta(bytes) => self.delta = Some(bytes),
                LogWrite::DropDelta => self.delta = None,
            }
        }
    }

    fn append(&mut self, store: &mut Store, record: ObjectRecord) -> Result<(), String> {
        let writes = store.append(record)?;
        self.perform(writes);
        Ok(())
    }

    fn reopen(&mut self) -> Store {
        let committed = parse_superblock(&self.bytes[..PAGE]).unwrap();
        let records = read_log(&self.bytes).unwrap();
        let (store, writes) =
            Store::open_projection(SyncPolicy::Group(32), committed, self.checkpoint.clone(), self.delta.clone(), records)
                .unwrap();
        self.perform(writes);
        store
    }
}

#[test]
fn committed_schema_validates_writes_and_rebuilds() {
    let (mut log, mut store) = MemLog::new();
    log.append(&mut store, rec("component", "legacy", false, &[("alias", "pre-schema")])).unwrap();
    let (component_schema, incident_schema) = product_loop_schemas();
    log.append(&mut store, component_schema.to_record().unwrap()).unwrap();
    log.append(&mut store, incident_schema.to_record().unwrap()).unwrap();
    log.append(&mut store, rec("component", "svc-api", false, &[("name", "billing-api"), ("tier", "prod")])).unwrap();
    log.append(&mut store, rec("incident", "inc-1", false, &[("name", "elevated latency"), ("affects", "svc-api")]))
        .unwrap();

    let missing = log.append(&mut store, rec("component", "svc-web", false, &[("name", "web")])).unwrap_err();
    assert!(missing.contains("missing required"), "{missing}");
    let extra = log
        .append(&mut store, rec("incident", "inc-2", false, &[("name", "n"), ("affects", "svc-api"), ("note", "acked")]))
        .unwrap_err();
    assert!(extra.contains("unknown property"), "{extra}");
    assert!(store.load("component", "svc-web", &PropertyAcl::allow_all()).is_err());

    let historical = store.load("component", "legacy", &PropertyAcl::allow_all()).unwrap();
    assert_eq!(historical.props.get("alias").map(String::as_str), Some("pre-schema"));

    log.append(&mut store, rec("incident", "inc-1", true, &[])).unwrap();
    let hidden = store.load("incident", "inc-1", &PropertyAcl::allow_all()).unwrap();
    assert!(hidden.hidden);
    assert!(!store.joins().is_visible("incident", "inc-1"));

    log.append(&mut store, rec("incident", "inc-3", false, &[("name", "disk full"), ("affects", "svc-api")])).unwrap();
    let hopped = ObjectSet::new(LocalCompute).evaluate(&store, &hop_incident_to_component(0)).unwrap();
    assert_eq!(hopped.two_hop_count, 1);
    drop(store);

    let reopened = log.reopen();
    assert_eq!(reopened.schema("component").unwrap().unwrap().kind, "component");
    assert_eq!(
        reopened.load("component", "svc-api", &PropertyAcl::allow_all()).unwrap().props.get("name").map(String::as_str),
        Some("billing-api")
    );
    assert!(reopened.load("incident", "inc-1", &PropertyAcl::allow_all()).unwrap().hidden);
    drop(reopened);

    log.checkpoint = None;
    log.delta = None;
    let replayed = log.reopen();
    assert_eq!(replayed.schema("incident").unwrap().unwrap(), incident_schema);
    let rebuilt = replayed.load("component", "legacy", &PropertyAcl::allow_all()).unwrap();
    assert_eq!(rebuilt.props.get("alias").map(String::as_str), Some("pre-schema"));
}

#[test]
fn evaluate_returns_bounded_product_loop_objects() {
    let (mut log, mut store) = MemLog::new();
    for record in product_loop_seed() {
        log.append(&mut store, record).unwrap();
    }
    let oss = ObjectSet::new(LocalCompute);

    let listed = oss.evaluate(&store, &list_prod_components(8)).unwrap();
    assert_eq!(listed.two_hop_count, 1);
    assert_eq!(listed.objects.len(), 1);
    assert_eq!(listed.objects[0].kind, "component");
    assert_eq!(listed.objects[0].key, "svc-api");
    assert_eq!(listed.objects[0].props.get("tier").map(String::as_str), Some("prod"));

    let hopped = oss.evaluate(&store, &hop_incident_to_component(8)).unwrap();
    assert_eq!(hopped.objects.len(), 1);
    assert_eq!(hopped.objects[0].key, "svc-api");

    let count_only = oss.evaluate(&store, &list_prod_components(0)).unwrap();
    assert!(count_only.objects.is_empty());

    log.append(&mut store, rec("component", "svc-web", false, &[("name", "web"), ("tier", "prod")])).unwrap();
    let overflow = oss.evaluate(&store, &list_prod_components(1)).unwrap_err();
    assert!(matches!(overflow, ComputeError::ObjectBound { bound: 1, count: 2 }), "{overflow:?}");

    let mut denied = list_prod_components(8);
    denied.acl = PropertyAcl::deny_property("component", "name");
    let redacted = oss.evaluate(&store, &denied).unwrap();
    assert_eq!(redacted.objects.len(), 2);
    assert!(!redacted.objects[0].props.contains_key("name"));
    assert_eq!(redacted.objects[0].props.get("tier").map(String::as_str), Some("prod"));
    drop(store);

    let reopened = log.reopen();
    assert_eq!(oss.evaluate(&reopened, &hop_incident_to_component(8)).unwrap().objects[0].key, "svc-api");
    drop(reopened);
    log.checkpoint = None;
    log.delta = None;
    let replayed = log.reopen();
    assert_eq!(oss.evaluate(&replayed, &list_prod_components(8)).unwrap().objects.len(), 2);
}
