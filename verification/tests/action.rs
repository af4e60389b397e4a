use mikura::{parse_superblock, read_log, Action, LogWrite, ObjectRecord, PropertyAcl, Props, Store, SyncPolicy, PAGE};

fn props(pairs: &[(&str, &str)]) -> Props {
    let mut p = Props::new();
    for (name, value) in pairs {
        p.insert((*name).to_string(), (*value).to_string());
    }
    p
}

fn rec(kind: &str, key: &str, hidden: bool, pairs: &[(&str, &str)]) -> ObjectRecord {
    ObjectRecord { gen: 1, kind: kind.into(), key: key.into(), hidden, action_id: None, props: props(pairs) }
}

fn fixture() -> Vec<ObjectRecord> {
    vec![
        rec("Customer", "c1", false, &[("region", "us")]),
        rec("Order", "o1", false, &[("customer_id", "c1")]),
        rec("Shipment", "s1", false, &[("order_id", "o1"), ("amount", "10")]),
    ]
}

fn shipment_amount(amount: &str) -> Props {
    props(&[("order_id", "o1"), ("amount", amount)])
}

/// A log file and its two sidecar files, held in memory.
struct MemLog {
    bytes: Vec<u8>,
    checkpoint: Option<Vec<u8>>,
    delta: Option<Vec<u8>>,
}

impl MemLog {
    fn with(records: Vec<ObjectRecord>) -> (MemLog, Store) {
        let (mut store, writes) = Store::create(SyncPolicy::Group(32));
        let mut log = MemLog { bytes: Vec::new(), checkpoint: None, delta: None };
        log.perform(writes);
        for r in records {
            log.perform(store.append(r).unwrap());
        }
        (log, store)
    }

    fn perform(&mut self, writes: Vec<LogWrite>) {
        for w in writes {
            match w {
                LogWrite::Page(page) => self.bytes.extend_from_slice(&page),
                LogWrite::Superblock(sb) => {
                    if self.bytes.len() < PAGE {
                        self.bytes.resize(PAGE, 0);
                    }
                    self.bytes[..PAGE].copy_from_slice(&sb);
                }
                LogWrite::Sync => {}
                LogWrite::Checkpoint(bytes) => self.checkpoint = Some(bytes),
                LogWrite::Delta(bytes) => self.delta = Some(bytes),
                LogWrite::DropDelta => self.delta = None,
            }
        }
    }

    fn reopen(&mut self) -> Store {
        let committed = parse_superblock(&self.bytes[..PAGE]).unwrap();
        let records = read_log(&self.bytes).unwrap();
        let (store, writes) =
            Store::open_projection(SyncPolicy::Group(32), committed, self.checkpoint.clone(), self.delta.clone(), records)
                .unwrap();
        self.perform(writes);
        store
    }
}

fn gen_of(store: &Store, kind: &str, key: &str) -> u64 {
    store.load(kind, key, &PropertyAcl::allow_all()).unwrap().gen
}

#[test]
fn apply_action_replays_matching_id_and_fails_closed_on_conflict() {
    let (mut log, mut store) = MemLog::with(fixture());
    let first = Action { id: "act-inc-1-note".into(), kind: "Shipment".into(), key: "s2".into(), props: shipment_amount("5") };
    log.perform(store.apply_action(first.clone()).unwrap());
    let committed = store.load("Shipment", "s2", &PropertyAcl::allow_all()).unwrap();
    assert_eq!(committed.action_id.as_deref(), Some("act-inc-1-note"));
    assert_eq!(committed.gen, 1);
    let fsync = store.log_fsync_count();
    let replay = store.apply_action(first.clone()).unwrap();
    assert!(replay.is_empty());
    let replayed = store.load("Shipment", "s2", &PropertyAcl::allow_all()).unwrap();
    assert_eq!(replayed.gen, committed.gen);
    assert_eq!(replayed.action_id.as_deref(), Some("act-inc-1-note"));
    assert_eq!(replayed.props.get("amount").map(String::as_str), Some("5"));
    assert_eq!(store.log_fsync_count(), fsync);

    let body_conflict = store
        .apply_action(Action { id: "act-inc-1-note".into(), kind: "Shipment".into(), key: "s2".into(), props: shipment_amount("9") })
        .unwrap_err();
    assert!(body_conflict.contains("body conflict"), "{body_conflict}");
    assert_eq!(gen_of(&store, "Shipment", "s2"), committed.gen);

    let other_identity = store
        .apply_action(Action { id: "act-inc-1-note".into(), kind: "Shipment".into(), key: "s1".into(), props: shipment_amount("5") })
        .unwrap_err();
    assert!(other_identity.contains("already committed"), "{other_identity}");

    log.perform(
        store
            .apply_action(Action { id: "act-s2-later".into(), kind: "Shipment".into(), key: "s2".into(), props: shipment_amount("7") })
            .unwrap(),
    );
    let later = store.load("Shipment", "s2", &PropertyAcl::allow_all()).unwrap();
    assert_eq!(later.action_id.as_deref(), Some("act-s2-later"));
    assert_eq!(later.gen, committed.gen + 1);
    let after_later = store.log_fsync_count();
    assert!(store.apply_action(first.clone()).unwrap().is_empty());
    let after_first_replay = store.load("Shipment", "s2", &PropertyAcl::allow_all()).unwrap();
    assert_eq!(after_first_replay.gen, later.gen);
    assert_eq!(after_first_replay.action_id.as_deref(), Some("act-s2-later"));
    assert_eq!(store.log_fsync_count(), after_later);
    drop(store);

    let mut reopened = log.reopen();
    let before = gen_of(&reopened, "Shipment", "s2");
    assert!(reopened.apply_action(first.clone()).unwrap().is_empty());
    let after_reopen = reopened.load("Shipment", "s2", &PropertyAcl::allow_all()).unwrap();
    assert_eq!(after_reopen.gen, before);
    assert_eq!(after_reopen.action_id.as_deref(), Some("act-s2-later"));
    drop(reopened);

    log.checkpoint = None;
    log.delta = None;
    let mut rebuilt = log.reopen();
    let before_rebuild = gen_of(&rebuilt, "Shipment", "s2");
    assert!(rebuilt.apply_action(first).unwrap().is_empty());
    assert_eq!(gen_of(&rebuilt, "Shipment", "s2"), before_rebuild);
}

#[test]
fn ingest_append_replays_matching_action_id_and_fails_closed_on_remap() {
    let (mut log, mut store) = MemLog::with(fixture());
    let mut first = rec("Shipment", "s2", false, &[("order_id", "o1"), ("amount", "5")]);
    first.action_id = Some("act-ingest-1".into());
    log.perform(store.append(first.clone()).unwrap());
    let committed = store.load("Shipment", "s2", &PropertyAcl::allow_all()).unwrap();
    assert_eq!(committed.action_id.as_deref(), Some("act-ingest-1"));

    assert!(store.append_uncommitted(first.clone()).unwrap().is_empty());
    let replayed = store.load("Shipment", "s2", &PropertyAcl::allow_all()).unwrap();
    assert_eq!(replayed.gen, committed.gen);
    assert_eq!(replayed.props.get("amount").map(String::as_str), Some("5"));

    let mut remapped = rec("Shipment", "s3", false, &[("order_id", "o1"), ("amount", "7")]);
    remapped.action_id = Some("act-ingest-1".into());
    let remap = store.append_uncommitted(remapped).unwrap_err();
    assert!(remap.contains("already committed"), "{remap}");
    assert!(store.load("Shipment", "s3", &PropertyAcl::allow_all()).is_err());

    let mut conflict = rec("Shipment", "s2", false, &[("order_id", "o1"), ("amount", "9")]);
    conflict.action_id = Some("act-ingest-1".into());
    let body = store.append_uncommitted(conflict).unwrap_err();
    assert!(body.contains("body conflict"), "{body}");
    assert_eq!(gen_of(&store, "Shipment", "s2"), committed.gen);

    let mut hide = first.clone();
    hide.hidden = true;
    log.perform(store.append(hide).unwrap());
    let hidden = store.load("Shipment", "s2", &PropertyAcl::allow_all()).unwrap();
    assert!(hidden.hidden);
    assert_eq!(hidden.action_id.as_deref(), Some("act-ingest-1"));
    drop(store);

    let mut reopened = log.reopen();
    let mut steal = rec("Shipment", "s4", false, &[("order_id", "o1"), ("amount", "1")]);
    steal.action_id = Some("act-ingest-1".into());
    let after_open = reopened.append_uncommitted(steal.clone()).unwrap_err();
    assert!(after_open.contains("already committed"), "{after_open}");
    drop(reopened);

    log.checkpoint = None;
    log.delta = None;
    let mut rebuilt = log.reopen();
    let after_rebuild = rebuilt.append_uncommitted(steal).unwrap_err();
    assert!(after_rebuild.contains("already committed"), "{after_rebuild}");
    assert!(rebuilt.append_uncommitted(first).unwrap().is_empty());
    assert_eq!(gen_of(&rebuilt, "Shipment", "s2"), hidden.gen);
}

#[test]
fn ingest_hide_copies_action_id_without_claiming_a_new_identity() {
    let (mut log, mut store) = MemLog::with(fixture());
    let mut first = rec("Shipment", "s2", false, &[("order_id", "o1"), ("amount", "5")]);
    first.action_id = Some("act-ingest-1".into());
    log.perform(store.append(first.clone()).unwrap());
    let mut hide = first.clone();
    hide.hidden = true;
    log.perform(store.append_uncommitted(hide).unwrap());
    log.perform(store.commit().unwrap());
    let hidden = store.load("Shipment", "s2", &PropertyAcl::allow_all()).unwrap();
    assert!(hidden.hidden);
    assert_eq!(hidden.action_id.as_deref(), Some("act-ingest-1"));
    let mut stolen = rec("Shipment", "s3", true, &[("order_id", "o1"), ("amount", "5")]);
    stolen.action_id = Some("act-ingest-1".into());
    let remap = store.append_uncommitted(stolen).unwrap_err();
    assert!(remap.contains("already committed"), "{remap}");
    assert!(store.load("Shipment", "s3", &PropertyAcl::allow_all()).is_err());
}

#[test]
fn action_conflict_messages_name_the_claim() {
    let (_log, mut store) = MemLog::with(fixture());
    let first = Action { id: "act-1".into(), kind: "Shipment".into(), key: "s2".into(), props: shipment_amount("5") };
    store.apply_action(first).unwrap();
    let other = store
        .apply_action(Action { id: "act-1".into(), kind: "Shipment".into(), key: "s9".into(), props: shipment_amount("5") })
        .unwrap_err();
    assert_eq!(other, "action id act-1 already committed for Shipment s2");
    let body = store
        .apply_action(Action { id: "act-1".into(), kind: "Shipment".into(), key: "s2".into(), props: shipment_amount("6") })
        .unwrap_err();
    assert_eq!(body, "action id act-1 body conflict");
}
