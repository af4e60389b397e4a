use mikura::logfmt::{seal_page, CRC_LEN, PAGE_HDR};
use mikura::{
    parse_superblock, read_log, Aggregate, EvaluateRequest, Hop, LocalCompute, LogWrite, ObjectRecord, ObjectSet,
    PageLog, PropertyAcl, Props, Store, SyncPolicy, PAGE,
};

fn rec(kind: &str, key: &str, hidden: bool, pairs: &[(&str, &str)]) -> ObjectRecord {
    let mut props = Props::new();
    for (name, value) in pairs {
        props.insert((*name).to_string(), (*value).to_string());
    }
    ObjectRecord { gen: 1, kind: kind.into(), key: key.into(), hidden, action_id: None, props }
}

fn fixture() -> Vec<ObjectRecord> {
    vec![
        rec("Customer", "c0", true, &[("region", "eu")]),
        rec("Customer", "c1", false, &[("region", "us")]),
        rec("Order", "o1", false, &[("customer_id", "c1")]),
        rec("Order", "o0", true, &[("customer_id", "c0")]),
        rec("Shipment", "s1", false, &[("order_id", "o1"), ("amount", "10")]),
        rec("Shipment", "s0", true, &[("order_id", "o0"), ("amount", "99")]),
    ]
}

fn fixture_request() -> EvaluateRequest {
    EvaluateRequest {
        root_kind: "Customer".into(),
        hops: vec![
            Hop { far_kind: "Order".into(), join_property: "customer_id".into(), incoming: false, predicate: None },
            Hop { far_kind: "Shipment".into(), join_property: "order_id".into(), incoming: false, predicate: None },
        ],
        sum_kind: "Shipment".into(),
        sum_property: "amount".into(),
        aggregate: Aggregate::CountAndSum,
        acl: PropertyAcl::allow_all(),
        filter: None,
        predicate: None,
        object_bound: 0,
        sort: None,
        page_size: 0,
        cursor: None,
    }
}

fn claimed(key: &str, id: &str, amount: &str) -> ObjectRecord {
    let mut record = rec("Shipment", key, false, &[("order_id", "o1"), ("amount", amount)]);
    record.action_id = Some(id.into());
    record
}

fn is_absent(store: &Store, kind: &str, key: &str) -> bool {
    store.load(kind, key, &PropertyAcl::allow_all()).is_err()
}

fn hops(store: &Store) -> (usize, i64) {
    let result = ObjectSet::new(LocalCompute).evaluate(store, &fixture_request()).unwrap();
    (result.two_hop_count, result.sum_amount)
}

/// A log file and its sidecar files, held in memory.
struct MemLog {
    bytes: Vec<u8>,
    checkpoint: Option<Vec<u8>>,
    delta: Option<Vec<u8>>,
    sync: SyncPolicy,
}

impl MemLog {
    fn new(sync: SyncPolicy) -> (MemLog, Store) {
        let (store, writes) = Store::create(sync);
        let mut log = MemLog { bytes: Vec::new(), checkpoint: None, delta: None, sync };
        log.perform(writes);
        (log, store)
    }

    fn perform(&mut self, writes: Vec<LogWrite>) {
        for w in writes {
            match w {
                LogWrite::Page(page) => self.bytes.extend_from_slice(&page),
                LogWrite::Superblock(sb) => {
                    if self.bytes.len() < PAGE {
                        self.bytes.resize(PAGE, 0);
                    }
                    self.bytes[..PAGE].copy_from_slice(&sb);
                }
                LogWrite::Sync => {}
                LogWrite::Checkpoint(bytes) => self.checkpoint = Some(bytes),
                LogWrite::Delta(bytes) => self.delta = Some(bytes),
                LogWrite::DropDelta => self.delta = None,
            }
        }
    }

    fn reopen(&mut self) -> Store {
        let committed = parse_superblock(&self.bytes[..PAGE]).unwrap();
        let records = read_log(&self.bytes).unwrap();
        let (store, writes) =
            Store::open_projection(self.sync, committed, self.checkpoint.clone(), self.delta.clone(), records).unwrap();
        self.perform(writes);
        store
    }
}

#[test]
fn append_batch_error_drops_the_whole_batch() {
    let (mut log, mut store) = MemLog::new(SyncPolicy::Group(32));
    for record in fixture() {
        log.perform(store.append(record).unwrap());
    }
    log.perform(store.append(claimed("s2", "act-1", "5")).unwrap());
    let before = hops(&store);
    let committed = store.snapshot_stamp().0;

    let batch = vec![rec("Shipment", "s7", false, &[("order_id", "o1")]), claimed("s8", "", "2")];
    let error = store.append_batch(batch).unwrap_err();
    assert!(error.contains("empty action id"), "{error}");
    assert!(is_absent(&store, "Shipment", "s7"));
    assert!(is_absent(&store, "Shipment", "s8"));
    assert_eq!(hops(&store), before);

    log.perform(store.commit().unwrap());
    assert_eq!(store.snapshot_stamp().0, committed);
    log.perform(store.append_batch(vec![claimed("s9", "act-2", "3")]).unwrap());
    assert!(!is_absent(&store, "Shipment", "s9"));
    drop(store);

    let reopened = log.reopen();
    assert!(is_absent(&reopened, "Shipment", "s7"));
    assert!(is_absent(&reopened, "Shipment", "s8"));
    assert!(!is_absent(&reopened, "Shipment", "s9"));
}

#[test]
fn append_batch_error_keeps_an_earlier_uncommitted_tail() {
    let (mut log, mut store) = MemLog::new(SyncPolicy::Group(32));
    for record in fixture() {
        log.perform(store.append(record).unwrap());
    }
    log.perform(store.append_uncommitted(rec("Shipment", "s6", false, &[("order_id", "o1")])).unwrap());
    let batch = vec![rec("Shipment", "s7", false, &[("order_id", "o1")]), claimed("s8", "", "2")];
    store.append_batch(batch).unwrap_err();
    assert!(!is_absent(&store, "Shipment", "s6"));
    assert!(is_absent(&store, "Shipment", "s7"));
    log.perform(store.commit().unwrap());
    drop(store);

    let reopened = log.reopen();
    assert!(!is_absent(&reopened, "Shipment", "s6"));
    assert!(is_absent(&reopened, "Shipment", "s7"));
}

#[test]
fn append_batch_never_group_commits_a_partial_batch() {
    let (mut log, mut store) = MemLog::new(SyncPolicy::Group(2));
    for record in fixture() {
        log.perform(store.append(record).unwrap());
    }
    let committed = store.snapshot_stamp().0;
    let payload = "x".repeat(1500);
    let mut batch: Vec<ObjectRecord> =
        (0..12).map(|i| rec("Item", &format!("k{i:02}"), false, &[("payload", &payload)])).collect();
    batch.push(claimed("s8", "", "2"));
    store.append_batch(batch).unwrap_err();
    assert_eq!(store.snapshot_stamp().0, committed);
    assert!(is_absent(&store, "Item", "k00"));
    drop(store);

    let reopened = log.reopen();
    assert!(is_absent(&reopened, "Item", "k00"));
    assert!(is_absent(&reopened, "Item", "k11"));
}

#[test]
fn append_batch_commits_a_valid_batch_once() {
    let (mut log, mut store) = MemLog::new(SyncPolicy::Group(2));
    let payload = "x".repeat(1500);
    let batch: Vec<ObjectRecord> =
        (0..12).map(|i| rec("Item", &format!("k{i:02}"), false, &[("payload", &payload)])).collect();
    log.perform(store.append_batch(batch).unwrap());
    let (written, committed) = (store.snapshot_stamp().1, store.snapshot_stamp().0);
    assert_eq!(written, committed);
    drop(store);

    let reopened = log.reopen();
    assert!(!is_absent(&reopened, "Item", "k00"));
    assert!(!is_absent(&reopened, "Item", "k11"));
}

fn one_record_log() -> Vec<u8> {
    let (mut writer, writes) = PageLog::create(SyncPolicy::NoSync);
    let mut log = MemLog { bytes: Vec::new(), checkpoint: None, delta: None, sync: SyncPolicy::NoSync };
    log.perform(writes);
    log.perform(writer.append_record(&rec("Customer", "c1", false, &[("region", "eu")])).unwrap());
    log.perform(writer.flush().unwrap());
    log.bytes
}

#[test]
fn orphan_page_is_not_authority() {
    let mut bytes = one_record_log();
    assert_eq!(read_log(&bytes).unwrap().len(), 1);
    let mut page = vec![0u8; PAGE];
    page[CRC_LEN..PAGE_HDR].copy_from_slice(&0u16.to_le_bytes());
    seal_page(&mut page);
    bytes.extend_from_slice(&page);
    assert_eq!(read_log(&bytes).unwrap().len(), 1);
}

#[test]
fn missing_committed_page_fails_closed() {
    let bytes = one_record_log();
    assert_eq!(read_log(&bytes).unwrap().len(), 1);
    assert!(bytes.len() >= PAGE * 2);
    let err = read_log(&bytes[..PAGE]).unwrap_err();
    assert!(err.contains("missing") || err.contains("committed"), "{err}");
}
