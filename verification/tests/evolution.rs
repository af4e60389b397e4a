use mikura::{
    parse_superblock, read_log, LogWrite, ObjectRecord, PropertyAcl, PropertyType, Props, SchemaDescriptor,
    SchemaLink, Store, SyncPolicy, PAGE,
};

fn rec(kind: &str, key: &str, hidden: bool, pairs: &[(&str, &str)]) -> ObjectRecord {
    let mut props = Props::new();
    for (name, value) in pairs {
        props.insert((*name).to_string(), (*value).to_string());
    }
    ObjectRecord { gen: 1, kind: kind.into(), key: key.into(), hidden, action_id: None, props }
}

fn link(name: &str, far_kind: &str, outgoing: bool) -> SchemaLink {
    SchemaLink { name: name.into(), far_kind: far_kind.into(), outgoing }
}

fn incident_schema() -> SchemaDescriptor {
    SchemaDescriptor {
        kind: "incident".into(),
        properties: vec!["affects".into(), "name".into(), "note".into()],
        required: vec!["name".into()],
        links: vec![link("affects", "component", true)],
        sums: Vec::new(),
        types: Vec::new(),
    }
}

/// The incident schema with typed `open` and `priority`, a `name` sum and an
/// incoming link; `priority` required when asked.
fn evolved_schema(priority_required: bool, with_note: bool) -> SchemaDescriptor {
    let mut properties = vec!["affects".to_string(), "name".to_string()];
    if with_note {
        properties.push("note".into());
    }
    properties.push("open".into());
    properties.push("priority".into());
    let mut required = vec!["name".to_string()];
    if priority_required {
        required.push("priority".into());
    }
    SchemaDescriptor {
        kind: "incident".into(),
        properties,
        required,
        links: vec![link("affects", "component", true), link("opened_by", "component", false)],
        sums: vec!["name".into()],
        types: vec![("open".into(), PropertyType::Boolean), ("priority".into(), PropertyType::Integer)],
    }
}

/// A log file and its sidecar files, held in memory.
struct MemLog {
    bytes: Vec<u8>,
    checkpoint: Option<Vec<u8>>,
    delta: Option<Vec<u8>>,
}

impl MemLog {
    fn new() -> (MemLog, Store) {
        let (store, writes) = Store::create(SyncPolicy::Group(32));
        let mut log = MemLog { bytes: Vec::new(), checkpoint: None, delta: None };
        log.perform(writes);
        (log, store)
    }

    fn perform(&mut self, writes: Vec<LogWrite>) {
        for w in writes {
            match w {
                LogWrite::Page(page) => self.bytes.extend_from_slice(&page),
                LogWrite::Superblock(sb) => {
                    if self.bytes.len() < PAGE {
                        self.bytes.resize(PAGE, 0);
                    }
                    self.bytes[..PAGE].copy_from_slice(&sb);
                }
                LogWrite::Sync => {}
                LogWrite::Checkpoint(bytes) => self.checkpoint = Some(bytes),
                LogWrite::Delta(bytes) => self.delta = Some(bytes),
                LogWrite::DropDelta => self.delta = None,
            }
        }
    }

    fn append(&mut self, store: &mut Store, record: ObjectRecord) -> Result<(), String> {
        let writes = store.append(record)?;
        self.perform(writes);
        Ok(())
    }

    fn reopen(&mut self) -> Store {
        let committed = parse_superblock(&self.bytes[..PAGE]).unwrap();
        let records = read_log(&self.bytes).unwrap();
        let (store, writes) =
            Store::open_projection(SyncPolicy::Group(32), committed, self.checkpoint.clone(), self.delta.clone(), records)
                .unwrap();
        self.perform(writes);
        store
    }
}

fn seed_incident(log: &mut MemLog, store: &mut Store) {
    log.append(store, incident_schema().to_record().unwrap()).unwrap();
    log.append(
        store,
        rec("incident", "inc-1", false, &[("name", "elevated latency"), ("affects", "svc-api"), ("note", "acked")]),
    )
    .unwrap();
}

#[test]
fn compatible_replacements_preserve_load_and_rebuild() {
    let (mut log, mut store) = MemLog::new();
    seed_incident(&mut log, &mut store);

    log.append(&mut store, evolved_schema(true, true).to_record().unwrap()).unwrap();
    let historical = store.load("incident", "inc-1", &PropertyAcl::allow_all()).unwrap();
    assert_eq!(historical.props.get("note").map(String::as_str), Some("acked"));
    assert!(!historical.props.contains_key("open"));
    let missing_required = log
        .append(&mut store, rec("incident", "inc-2", false, &[("name", "disk full"), ("affects", "svc-api")]))
        .unwrap_err();
    assert!(missing_required.contains("missing required"), "{missing_required}");

    log.append(&mut store, evolved_schema(false, true).to_record().unwrap()).unwrap();
    log.append(
        &mut store,
        rec("incident", "inc-2", false, &[("name", "disk full"), ("affects", "svc-api"), ("open", "true")]),
    )
    .unwrap();

    let shrunk = evolved_schema(false, false);
    log.append(&mut store, shrunk.to_record().unwrap()).unwrap();
    let still_stored = store.load("incident", "inc-1", &PropertyAcl::allow_all()).unwrap();
    assert_eq!(still_stored.props.get("note").map(String::as_str), Some("acked"));
    let unknown = log
        .append(
            &mut store,
            rec("incident", "inc-1", false, &[("name", "elevated latency"), ("affects", "svc-api"), ("note", "acked")]),
        )
        .unwrap_err();
    assert!(unknown.contains("unknown property"), "{unknown}");
    drop(store);

    let reopened = log.reopen();
    assert_eq!(reopened.schema("incident").unwrap().unwrap().properties, shrunk.properties);
    assert_eq!(
        reopened.load("incident", "inc-1", &PropertyAcl::allow_all()).unwrap().props.get("note").map(String::as_str),
        Some("acked")
    );
    drop(reopened);
    log.checkpoint = None;
    log.delta = None;
    let replayed = log.reopen();
    assert_eq!(replayed.schema("incident").unwrap().unwrap(), shrunk);
}

#[test]
fn incompatible_replacements_leave_previous_state() {
    let (mut log, mut store) = MemLog::new();
    let incident = SchemaDescriptor {
        kind: "incident".into(),
        properties: vec!["affects".into(), "name".into()],
        required: vec!["name".into()],
        links: vec![link("affects", "component", true)],
        sums: Vec::new(),
        types: Vec::new(),
    };
    log.append(&mut store, incident.to_record().unwrap()).unwrap();
    log.append(&mut store, rec("incident", "inc-1", false, &[("name", "elevated latency"), ("affects", "svc-api")]))
        .unwrap();

    let recast = SchemaDescriptor {
        kind: "incident".into(),
        properties: vec!["affects".into(), "name".into()],
        required: vec!["name".into()],
        links: vec![link("affects", "component", true)],
        sums: Vec::new(),
        types: vec![("name".into(), PropertyType::Integer)],
    };
    let recast_err = log.append(&mut store, recast.to_record().unwrap()).unwrap_err();
    assert!(recast_err.contains("cannot recast name"), "{recast_err}");

    let retarget = SchemaDescriptor {
        kind: "incident".into(),
        properties: vec!["affects".into(), "name".into()],
        required: vec!["name".into()],
        links: vec![link("affects", "service", true)],
        sums: Vec::new(),
        types: Vec::new(),
    };
    let link_err = log.append(&mut store, retarget.to_record().unwrap()).unwrap_err();
    assert!(link_err.contains("cannot retarget outgoing link affects"), "{link_err}");

    assert_eq!(store.schema("incident").unwrap().unwrap(), incident);
    assert_eq!(
        store.load("incident", "inc-1", &PropertyAcl::allow_all()).unwrap().props.get("name").map(String::as_str),
        Some("elevated latency")
    );
}
