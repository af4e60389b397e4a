use mikura::{
    parse_superblock, read_log, AclError, Aggregate, ComputeError, EvaluateRequest, EvaluateResponse, ExactMatch, Hop,
    LocalCompute, LogWrite, ObjectRecord, ObjectSet, PropertyAcl, Props, Store, SyncPolicy, PAGE,
};

fn rec(kind: &str, key: &str, hidden: bool, pairs: &[(&str, &str)]) -> ObjectRecord {
    let mut props = Props::new();
    for (name, value) in pairs {
        props.insert((*name).to_string(), (*value).to_string());
    }
    ObjectRecord { gen: 1, kind: kind.into(), key: key.into(), hidden, action_id: None, props }
}

fn fixture() -> Vec<ObjectRecord> {
    vec![
        rec("Customer", "c0", true, &[("region", "eu")]),
        rec("Customer", "c1", false, &[("region", "us")]),
        rec("Order", "o1", false, &[("customer_id", "c1")]),
        rec("Order", "o0", true, &[("customer_id", "c0")]),
        rec("Shipment", "s1", false, &[("order_id", "o1"), ("amount", "10")]),
        rec("Shipment", "s0", true, &[("order_id", "o0"), ("amount", "99")]),
    ]
}

fn request(root: &str, hops: Vec<Hop>, sum_kind: &str, sum_property: &str, acl: PropertyAcl) -> EvaluateRequest {
    EvaluateRequest {
        root_kind: root.into(),
        hops,
        sum_kind: sum_kind.into(),
        sum_property: sum_property.into(),
        aggregate: Aggregate::CountAndSum,
        acl,
        filter: None,
        predicate: None,
        object_bound: 0,
        sort: None,
        page_size: 0,
        cursor: None,
    }
}

fn hop(far_kind: &str, join_property: &str, incoming: bool) -> Hop {
    Hop { far_kind: far_kind.into(), join_property: join_property.into(), incoming, predicate: None }
}

fn fixture_request() -> EvaluateRequest {
    request(
        "Customer",
        vec![hop("Order", "customer_id", false), hop("Shipment", "order_id", false)],
        "Shipment",
        "amount",
        PropertyAcl::allow_all(),
    )
}

fn same_answer(a: &EvaluateResponse, b: &EvaluateResponse) -> bool {
    a.two_hop_count == b.two_hop_count && a.sum_amount == b.sum_amount && a.objects == b.objects && a.cursor == b.cursor
}

/// A log file and its sidecar files, held in memory.
struct MemLog {
    bytes: Vec<u8>,
    checkpoint: Option<Vec<u8>>,
    delta: Option<Vec<u8>>,
}

impl MemLog {
    fn with(records: Vec<ObjectRecord>) -> (MemLog, Store) {
        let (mut store, writes) = Store::create(SyncPolicy::Group(32));
        let mut log = MemLog { bytes: Vec::new(), checkpoint: None, delta: None };
        log.perform(writes);
        for record in records {
            log.perform(store.append(record).unwrap());
        }
        (log, store)
    }

    fn perform(&mut self, writes: Vec<LogWrite>) {
        for w in writes {
            match w {
                LogWrite::Page(page) => self.bytes.extend_from_slice(&page),
                LogWrite::Superblock(sb) => {
                    if self.bytes.len() < PAGE {
                        self.bytes.resize(PAGE, 0);
                    }
                    self.bytes[..PAGE].copy_from_slice(&sb);
                }
                LogWrite::Sync => {}
                LogWrite::Checkpoint(bytes) => self.checkpoint = Some(bytes),
                LogWrite::Delta(bytes) => self.delta = Some(bytes),
                LogWrite::DropDelta => self.delta = None,
            }
        }
    }

    fn reopen(&mut self) -> Store {
        let committed = parse_superblock(&self.bytes[..PAGE]).unwrap();
        let records = read_log(&self.bytes).unwrap();
        let (store, writes) =
            Store::open_projection(SyncPolicy::Group(32), committed, self.checkpoint.clone(), self.delta.clone(), records)
                .unwrap();
        self.perform(writes);
        store
    }
}

#[test]
fn incoming_hop_follows_join_property() {
    let (mut log, store) = MemLog::with(fixture());
    let oss = ObjectSet::new(LocalCompute);
    let outgoing = oss.evaluate(&store, &fixture_request()).unwrap();
    assert_eq!(outgoing.two_hop_count, 1);
    assert_eq!(outgoing.sum_amount, 10);
    let from_customer = request(
        "Customer",
        vec![hop("Order", "customer_id", false)],
        "Order",
        "customer_id",
        PropertyAcl::allow_all(),
    );
    assert_eq!(oss.evaluate(&store, &from_customer).unwrap().two_hop_count, 1);
    let incoming = request(
        "Order",
        vec![hop("Customer", "customer_id", true)],
        "Customer",
        "region",
        PropertyAcl::allow_all(),
    );
    let response = oss.evaluate(&store, &incoming).unwrap();
    assert_eq!(response.two_hop_count, 1);
    assert!(!store.joins().is_visible("Order", "o0"));
    assert!(!store.joins().is_visible("Customer", "c0"));
    let denied = request(
        "Order",
        vec![hop("Customer", "customer_id", true)],
        "Customer",
        "region",
        PropertyAcl::deny_property("Customer", "region"),
    );
    assert!(matches!(oss.evaluate(&store, &denied), Err(ComputeError::Acl(AclError::Denied { .. }))));
    drop(store);

    let reopened = log.reopen();
    assert_eq!(oss.evaluate(&reopened, &incoming).unwrap().two_hop_count, 1);
    drop(reopened);
    log.checkpoint = None;
    log.delta = None;
    let replayed = log.reopen();
    assert_eq!(oss.evaluate(&replayed, &incoming).unwrap().two_hop_count, 1);
}

#[test]
fn exact_match_filter_restricts_roots() {
    let (mut log, store) = MemLog::with(vec![
        rec("Customer", "c0", true, &[("region", "eu")]),
        rec("Customer", "c1", false, &[("region", "us")]),
        rec("Customer", "c2", false, &[("region", "eu")]),
        rec("Order", "o1", false, &[("customer_id", "c1")]),
        rec("Order", "o2", false, &[("customer_id", "c2")]),
        rec("Shipment", "s1", false, &[("order_id", "o1"), ("amount", "10")]),
        rec("Shipment", "s2", false, &[("order_id", "o2"), ("amount", "7")]),
    ]);
    let oss = ObjectSet::new(LocalCompute);
    let unfiltered = oss.evaluate(&store, &fixture_request()).unwrap();
    assert_eq!(unfiltered.two_hop_count, 2);
    assert_eq!(unfiltered.sum_amount, 17);

    let mut us = fixture_request();
    us.filter = Some(ExactMatch { property: "region".into(), value: "us".into() });
    let us_resp = oss.evaluate(&store, &us).unwrap();
    assert_eq!(us_resp.two_hop_count, 1);
    assert_eq!(us_resp.sum_amount, 10);

    let mut eu = fixture_request();
    eu.filter = Some(ExactMatch { property: "region".into(), value: "eu".into() });
    let eu_resp = oss.evaluate(&store, &eu).unwrap();
    assert_eq!(eu_resp.two_hop_count, 1);
    assert_eq!(eu_resp.sum_amount, 7);
    assert!(!store.joins().is_visible("Customer", "c0"));

    let mut miss = fixture_request();
    miss.filter = Some(ExactMatch { property: "region".into(), value: "ap".into() });
    let empty = oss.evaluate(&store, &miss).unwrap();
    assert_eq!(empty.two_hop_count, 0);
    assert_eq!(empty.sum_amount, 0);

    let mut denied = fixture_request();
    denied.filter = Some(ExactMatch { property: "region".into(), value: "us".into() });
    denied.acl = PropertyAcl::deny_property("Customer", "region");
    assert!(matches!(oss.evaluate(&store, &denied), Err(ComputeError::Acl(AclError::Denied { .. }))));

    drop(store);
    let reopened = log.reopen();
    assert!(same_answer(&oss.evaluate(&reopened, &us).unwrap(), &us_resp));
    assert!(!reopened.joins().is_visible("Customer", "c0"));
    drop(reopened);
    log.checkpoint = None;
    log.delta = None;
    let replayed = log.reopen();
    assert!(same_answer(&oss.evaluate(&replayed, &us).unwrap(), &us_resp));
}

#[test]
fn exact_match_filter_uses_by_prop_among_many_roots() {
    let mut records = vec![
        rec("Customer", "keep", false, &[("region", "us")]),
        rec("Order", "o1", false, &[("customer_id", "keep")]),
        rec("Shipment", "s1", false, &[("order_id", "o1"), ("amount", "4")]),
    ];
    for i in 0..64 {
        records.push(rec("Customer", &format!("other-{i}"), false, &[("region", "eu")]));
    }
    let (_log, store) = MemLog::with(records);
    let mut request = fixture_request();
    request.filter = Some(ExactMatch { property: "region".into(), value: "us".into() });
    let response = ObjectSet::new(LocalCompute).evaluate(&store, &request).unwrap();
    assert_eq!(response.two_hop_count, 1);
    assert_eq!(response.sum_amount, 4);
}

#[test]
fn hop_fan_out_sums_every_leaf_path() {
    let (_log, store) = MemLog::with(vec![
        rec("Customer", "c1", false, &[("region", "us")]),
        rec("Order", "o1", false, &[("customer_id", "c1")]),
        rec("Shipment", "s1", false, &[("order_id", "o1"), ("amount", "10")]),
        rec("Shipment", "s2", false, &[("order_id", "o1"), ("amount", "7")]),
    ]);
    let response = ObjectSet::new(LocalCompute).evaluate(&store, &fixture_request()).unwrap();
    assert_eq!(response.two_hop_count, 1);
    assert_eq!(response.sum_amount, 17);
}

#[test]
fn hop_diamond_counts_distinct_roots_once() {
    let (_log, store) = MemLog::with(vec![
        rec("Customer", "c1", false, &[("region", "us")]),
        rec("Order", "o1", false, &[("customer_id", "c1")]),
        rec("Order", "o2", false, &[("customer_id", "c1")]),
        rec("Shipment", "s1", false, &[("order_id", "o1"), ("amount", "10")]),
        rec("Shipment", "s2", false, &[("order_id", "o2"), ("amount", "3")]),
    ]);
    let response = ObjectSet::new(LocalCompute).evaluate(&store, &fixture_request()).unwrap();
    assert_eq!(response.two_hop_count, 1);
    assert_eq!(response.sum_amount, 13);
}

#[test]
fn hidden_keys_absent_from_join_maps_after_reopen() {
    let (mut log, store) = MemLog::with(fixture());
    assert!(!store.joins().is_visible("Customer", "c0"));
    assert!(store.joins().is_visible("Customer", "c1"));
    drop(store);
    let reopened = log.reopen();
    assert!(!reopened.joins().is_visible("Customer", "c0"));
    assert!(!reopened.joins().is_visible("Shipment", "s0"));
    assert!(reopened.joins().is_visible("Shipment", "s1"));
    assert_eq!(reopened.joins().prop("Shipment", "s0", "amount"), None);
    assert_eq!(reopened.joins().prop("Shipment", "s1", "amount"), Some("10"));
}

#[test]
fn single_record_append_is_durable_across_reopen() {
    let (mut log, store) = MemLog::with(vec![rec("Customer", "c1", false, &[("region", "us")])]);
    drop(store);
    let reopened = log.reopen();
    assert!(reopened.joins().is_visible("Customer", "c1"));
    assert_eq!(reopened.joins().prop("Customer", "c1", "region"), Some("us"));
    drop(reopened);
    log.checkpoint = None;
    let replayed = log.reopen();
    assert_eq!(replayed.joins().prop("Customer", "c1", "region"), Some("us"));
}

#[test]
fn corrupt_join_sidecar_fails_closed() {
    let (log, store) = MemLog::with(fixture());
    drop(store);
    let good = log.checkpoint.clone().unwrap();
    let mut corrupt = good.clone();
    let last = corrupt.len() - 1;
    corrupt[last] ^= 0xff;
    let committed = parse_superblock(&log.bytes[..PAGE]).unwrap();
    let records = read_log(&log.bytes).unwrap();
    let err = match Store::open_projection(SyncPolicy::Group(32), committed, Some(corrupt), None, records) {
        Err(err) => err,
        Ok(_) => panic!("a corrupt checkpoint should fail closed"),
    };
    assert_eq!(err, "join checksum mismatch");

    let mut short = good;
    short.truncate(6);
    let records = read_log(&log.bytes).unwrap();
    let err = match Store::open_projection(SyncPolicy::Group(32), committed, Some(short), None, records) {
        Err(err) => err,
        Ok(_) => panic!("a short checkpoint should fail closed"),
    };
    assert_eq!(err, "join sidecar too short");

    let records = read_log(&log.bytes).unwrap();
    let (store, writes) =
        Store::open_projection(SyncPolicy::Group(32), committed, None, None, records).unwrap();
    assert!(matches!(writes.first(), Some(LogWrite::Checkpoint(_))), "a missing sidecar is rebuilt from the log");
    let response = ObjectSet::new(LocalCompute).evaluate(&store, &fixture_request()).unwrap();
    assert_eq!(response.two_hop_count, 1);
    assert_eq!(response.sum_amount, 10);
}
