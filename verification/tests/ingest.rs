use mikura::{
    merge_source_and_edits, parse_superblock, read_log, snapshot_changelog, Action, AclError, Aggregate,
    BatchIngest, ChangelogIngest, ComputeError, EvaluateRequest, Hop, LocalCompute, LogWrite, MergeIngest,
    ObjectRecord, ObjectSet, PropertyAcl, Props, Store, StreamIngest, SyncPolicy, PAGE,
};

fn rec(kind: &str, key: &str, hidden: bool, pairs: &[(&str, &str)]) -> ObjectRecord {
    let mut props = Props::new();
    for (name, value) in pairs {
        props.insert((*name).to_string(), (*value).to_string());
    }
    ObjectRecord {
        gen: 1,
        kind: kind.into(),
        key: key.into(),
        hidden,
        action_id: None,
        props,
    }
}

fn fixture() -> Vec<ObjectRecord> {
    vec![
        rec("Customer", "c0", true, &[("region", "eu")]),
        rec("Customer", "c1", false, &[("region", "us")]),
        rec("Order", "o1", false, &[("customer_id", "c1")]),
        rec("Order", "o0", true, &[("customer_id", "c0")]),
        rec("Shipment", "s1", false, &[("order_id", "o1"), ("amount", "10")]),
        rec("Shipment", "s0", true, &[("order_id", "o0"), ("amount", "99")]),
    ]
}

fn fixture_request() -> EvaluateRequest {
    EvaluateRequest {
        root_kind: "Customer".into(),
        hops: vec![
            Hop {
                far_kind: "Order".into(),
                join_property: "customer_id".into(),
                incoming: false,
                predicate: None,
            },
            Hop {
                far_kind: "Shipment".into(),
                join_property: "order_id".into(),
                incoming: false,
                predicate: None,
            },
        ],
        sum_kind: "Shipment".into(),
        sum_property: "amount".into(),
        aggregate: Aggregate::CountAndSum,
        acl: PropertyAcl::allow_all(),
        filter: None,
        predicate: None,
        object_bound: 0,
        sort: None,
        page_size: 0,
        cursor: None,
    }
}

fn shipment_request() -> EvaluateRequest {
    EvaluateRequest {
        root_kind: "Shipment".into(),
        hops: vec![],
        sum_kind: "Shipment".into(),
        sum_property: "amount".into(),
        aggregate: Aggregate::CountAndSum,
        acl: PropertyAcl::allow_all(),
        filter: None,
        predicate: None,
        object_bound: 0,
        sort: None,
        page_size: 0,
        cursor: None,
    }
}

/// A log file held in memory: the steps a store returns are performed on it.
struct MemLog {
    bytes: Vec<u8>,
    checkpoint: Option<Vec<u8>>,
    delta: Option<Vec<u8>>,
}

impl MemLog {
    fn new() -> (MemLog, Store) {
        let (store, writes) = Store::create(SyncPolicy::Group(32));
        let mut log = MemLog { bytes: Vec::new(), checkpoint: None, delta: None };
        log.perform(writes);
        (log, store)
    }

    fn perform(&mut self, writes: Vec<LogWrite>) {
        for w in writes {
            match w {
                LogWrite::Page(page) => self.bytes.extend_from_slice(&page),
                LogWrite::Superblock(sb) => {
                    if self.bytes.len() < PAGE {
                        self.bytes.resize(PAGE, 0);
                    }
                    self.bytes[..PAGE].copy_from_slice(&sb);
                }
                LogWrite::Sync => {}
                LogWrite::Checkpoint(bytes) => self.checkpoint = Some(bytes),
                LogWrite::Delta(bytes) => self.delta = Some(bytes),
                LogWrite::DropDelta => self.delta = None,
            }
        }
    }

    fn reopen(&mut self) -> Store {
        let committed = parse_superblock(&self.bytes[..PAGE]).unwrap();
        let records = read_log(&self.bytes).unwrap();
        let (store, writes) =
            Store::open_projection(SyncPolicy::Group(32), committed, self.checkpoint.clone(), self.delta.clone(), records)
                .unwrap();
        self.perform(writes);
        store
    }
}

fn assert_same_identity(live: &Store, reopened: &Store, records: &[ObjectRecord]) {
    for record in records {
        assert_eq!(live.joins().is_visible(&record.kind, &record.key), !record.hidden);
        assert_eq!(reopened.joins().is_visible(&record.kind, &record.key), !record.hidden);
        if !record.hidden {
            for (name, value) in record.props.entries() {
                assert_eq!(live.joins().prop(&record.kind, &record.key, name), Some(value.as_str()));
                assert_eq!(reopened.joins().prop(&record.kind, &record.key, name), Some(value.as_str()));
            }
        }
    }
}

#[test]
fn batch_ingest_evaluate_rebuild_matches_live() {
    let (mut log, mut store) = MemLog::new();
    log.perform(BatchIngest::run(&mut store, fixture()).unwrap());
    let oss = ObjectSet::new(LocalCompute);
    let visible = oss.evaluate(&store, &fixture_request()).unwrap();
    assert_eq!(visible.two_hop_count, 1);
    assert_eq!(visible.sum_amount, 10);

    let mut props = Props::new();
    props.insert("order_id".into(), "o1".into());
    props.insert("amount".into(), "5".into());
    let writes = store
        .apply_action(Action {
            id: "act-s2".into(),
            kind: "Shipment".into(),
            key: "s2".into(),
            props,
        })
        .unwrap();
    log.perform(writes);
    let after = oss.evaluate(&store, &fixture_request()).unwrap();
    assert_eq!(after.sum_amount, 15);

    let reopened = log.reopen();
    let from_log = oss.evaluate(&reopened, &fixture_request()).unwrap();
    assert_eq!(from_log.two_hop_count, after.two_hop_count);
    assert_eq!(from_log.sum_amount, after.sum_amount);
}

fn page_filling_records(n: usize) -> Vec<ObjectRecord> {
    (0..n)
        .map(|i| {
            rec(
                "Item",
                &format!("k{i:04}"),
                false,
                &[("payload", "xxxxxxxxxxxxxxxxxxxxxxxxxxxxxxxx")],
            )
        })
        .collect()
}

#[test]
fn batch_ingest_group_commits_fewer_fsyncs_than_one_per_record() {
    let records = page_filling_records(400);
    let (mut log, mut batched) = MemLog::new();
    let before_batch = batched.log_fsync_count();
    log.perform(BatchIngest::run(&mut batched, records.clone()).unwrap());
    let batch_fsyncs = batched.log_fsync_count() - before_batch;

    let (mut one_log, mut one) = MemLog::new();
    let before_one = one.log_fsync_count();
    for record in records {
        one_log.perform(one.append(record).unwrap());
    }
    let one_fsyncs = one.log_fsync_count() - before_one;
    assert!(
        batch_fsyncs < one_fsyncs,
        "batch fsyncs {batch_fsyncs} should be fewer than one-per-record {one_fsyncs}"
    );
    assert!(
        batch_fsyncs < 16,
        "400 records under Group(32) should not fsync per record, got {batch_fsyncs}"
    );

    let oss = ObjectSet::new(LocalCompute);
    let req = EvaluateRequest {
        root_kind: "Item".into(),
        hops: vec![],
        sum_kind: "Item".into(),
        sum_property: "n".into(),
        aggregate: Aggregate::CountAndSum,
        acl: PropertyAcl::allow_all(),
        filter: None,
        predicate: None,
        object_bound: 0,
        sort: None,
        page_size: 0,
        cursor: None,
    };
    let live = oss.evaluate(&one, &req).unwrap();
    assert_eq!(live.two_hop_count, 400);
    let reopened = log.reopen();
    let from_batch = oss.evaluate(&reopened, &req).unwrap();
    assert_eq!(from_batch.two_hop_count, 400);
}

#[test]
fn batch_ingest_refusal_leaves_store_unchanged() {
    let (_log, mut store) = MemLog::new();
    let mut records = fixture();
    let mut bad = rec("Shipment", "s9", false, &[("amount", "1")]);
    bad.action_id = Some(String::new());
    records.push(bad);
    assert!(BatchIngest::run(&mut store, records).is_err());
    assert!(!store.joins().is_visible("Customer", "c1"));
    assert!(!store.joins().is_visible("Shipment", "s1"));
}

#[test]
fn changelog_identical_snapshots_emit_nothing() {
    let snapshot = vec![
        rec("Shipment", "s1", false, &[("amount", "10")]),
        rec("Shipment", "s2", true, &[("amount", "99")]),
    ];
    assert!(snapshot_changelog(snapshot.clone(), snapshot).is_empty());
}

#[test]
fn changelog_new_key_emits_visible_record() {
    let records = snapshot_changelog(Vec::new(), vec![rec("Shipment", "s1", false, &[("amount", "10")])]);
    assert_eq!(records.len(), 1);
    assert_eq!(records[0].key, "s1");
    assert!(!records[0].hidden);
    assert_eq!(records[0].props.get("amount").map(String::as_str), Some("10"));
}

#[test]
fn changelog_deleted_key_emits_hide() {
    let records = snapshot_changelog(vec![rec("Shipment", "s1", false, &[("amount", "10")])], Vec::new());
    assert_eq!(records.len(), 1);
    assert_eq!(records[0].key, "s1");
    assert!(records[0].hidden);
    assert_eq!(records[0].props.get("amount").map(String::as_str), Some("10"));
}

#[test]
fn changelog_changed_action_id_emits_current_payload() {
    let mut previous = rec("Shipment", "s1", false, &[("amount", "10")]);
    previous.action_id = Some("act-a".into());
    let mut current = rec("Shipment", "s1", false, &[("amount", "10")]);
    current.action_id = Some("act-b".into());
    let records = snapshot_changelog(vec![previous], vec![current]);
    assert_eq!(records.len(), 1);
    assert_eq!(records[0].action_id.as_deref(), Some("act-b"));
    assert_eq!(records[0].props.get("amount").map(String::as_str), Some("10"));
}

#[test]
fn changelog_changed_prop_emits_current_payload() {
    let records = snapshot_changelog(
        vec![rec("Shipment", "s1", false, &[("amount", "10")])],
        vec![rec("Shipment", "s1", false, &[("amount", "5")])],
    );
    assert_eq!(records.len(), 1);
    assert!(!records[0].hidden);
    assert_eq!(records[0].props.get("amount").map(String::as_str), Some("5"));
}

#[test]
fn changelog_orders_by_kind_then_key_and_skips_hidden_removals() {
    let previous = vec![
        rec("Shipment", "s2", false, &[("amount", "1")]),
        rec("Order", "o9", true, &[("customer_id", "c1")]),
        rec("Shipment", "s1", false, &[("amount", "2")]),
    ];
    let current = vec![
        rec("Shipment", "s3", false, &[("amount", "3")]),
        rec("Customer", "c1", false, &[("region", "us")]),
        rec("Shipment", "s1", false, &[("amount", "2")]),
        rec("Shipment", "s3", false, &[("amount", "4")]),
    ];
    let records = snapshot_changelog(previous, current);
    let ids: Vec<(String, String, bool)> =
        records.iter().map(|r| (r.kind.clone(), r.key.clone(), r.hidden)).collect();
    assert_eq!(
        ids,
        vec![
            ("Customer".to_string(), "c1".to_string(), false),
            ("Shipment".to_string(), "s2".to_string(), true),
            ("Shipment".to_string(), "s3".to_string(), false),
        ]
    );
    assert_eq!(records[2].props.get("amount").map(String::as_str), Some("4"));
}

#[test]
fn changelog_into_merge_matches_new_snapshot_plus_edits() {
    let previous = vec![
        rec("Shipment", "s1", false, &[("order_id", "o1"), ("amount", "10")]),
        rec("Shipment", "s2", false, &[("order_id", "o1"), ("amount", "3")]),
    ];
    let current = vec![
        rec("Shipment", "s1", false, &[("order_id", "o1"), ("amount", "8")]),
        rec("Shipment", "s3", false, &[("order_id", "o1"), ("amount", "4")]),
    ];
    let edits = vec![rec("Shipment", "s3", false, &[("order_id", "o1"), ("amount", "7")])];
    let changelog = snapshot_changelog(previous.clone(), current.clone());
    assert_eq!(changelog.len(), 3);

    let (mut log, mut store) = MemLog::new();
    log.perform(BatchIngest::run(&mut store, previous).unwrap());
    log.perform(MergeIngest::run(&mut store, changelog, edits.clone()).unwrap());

    let expected = merge_source_and_edits(current, edits);
    let oss = ObjectSet::new(LocalCompute);
    let live = oss.evaluate(&store, &shipment_request()).unwrap();
    assert_eq!(live.two_hop_count, 2);
    assert_eq!(live.sum_amount, 15);
    let reopened = log.reopen();
    let from_log = oss.evaluate(&reopened, &shipment_request()).unwrap();
    assert_eq!(from_log.two_hop_count, live.two_hop_count);
    assert_eq!(from_log.sum_amount, live.sum_amount);
    assert_same_identity(&store, &reopened, &expected);
    assert!(!reopened.joins().is_visible("Shipment", "s2"));
}

#[test]
fn changelog_empty_diff_does_not_append() {
    let snapshot = vec![rec("Shipment", "s1", false, &[("amount", "10")])];
    let (mut log, mut store) = MemLog::new();
    log.perform(BatchIngest::run(&mut store, snapshot.clone()).unwrap());
    let writes = ChangelogIngest::run(&mut store, snapshot.clone(), snapshot).unwrap();
    assert!(writes.is_empty());
    assert!(store.joins().is_visible("Shipment", "s1"));
    let reopened = log.reopen();
    assert!(reopened.joins().is_visible("Shipment", "s1"));
}

#[test]
fn merge_source_only_keeps_source_records() {
    let source = vec![
        rec("Shipment", "s1", false, &[("amount", "10")]),
        rec("Shipment", "s2", true, &[("amount", "99")]),
    ];
    let merged = merge_source_and_edits(source.clone(), Vec::new());
    assert_eq!(merged, source);
}

#[test]
fn merge_edits_only_keeps_edit_records() {
    let edits = vec![rec("Shipment", "s1", false, &[("amount", "5")])];
    let merged = merge_source_and_edits(Vec::new(), edits.clone());
    assert_eq!(merged, edits);
}

#[test]
fn merge_same_key_edit_wins() {
    let source = vec![rec("Shipment", "s1", false, &[("order_id", "o1"), ("amount", "10")])];
    let edits = vec![rec("Shipment", "s1", false, &[("order_id", "o1"), ("amount", "5")])];
    let merged = merge_source_and_edits(source, edits);
    assert_eq!(merged.len(), 1);
    assert_eq!(merged[0].props.get("amount").map(String::as_str), Some("5"));
    assert!(!merged[0].hidden);
}

#[test]
fn merge_hidden_source_visible_edit_unhides() {
    let source = vec![rec("Shipment", "s1", true, &[("amount", "10")])];
    let edits = vec![rec("Shipment", "s1", false, &[("amount", "7")])];
    let merged = merge_source_and_edits(source, edits);
    assert_eq!(merged.len(), 1);
    assert!(!merged[0].hidden);
    assert_eq!(merged[0].props.get("amount").map(String::as_str), Some("7"));
}

#[test]
fn merge_visible_source_hidden_edit_hides() {
    let source = vec![rec("Shipment", "s1", false, &[("amount", "10")])];
    let edits = vec![rec("Shipment", "s1", true, &[("amount", "10")])];
    let merged = merge_source_and_edits(source, edits);
    assert_eq!(merged.len(), 1);
    assert!(merged[0].hidden);
}

#[test]
fn merge_keeps_first_appearance_order_and_last_record() {
    let source = vec![
        rec("Shipment", "s2", false, &[("amount", "1")]),
        rec("Shipment", "s1", false, &[("amount", "2")]),
        rec("Shipment", "s2", false, &[("amount", "3")]),
    ];
    let edits = vec![
        rec("Shipment", "s3", false, &[("amount", "4")]),
        rec("Shipment", "s1", true, &[("amount", "5")]),
    ];
    let merged = merge_source_and_edits(source, edits);
    let keys: Vec<&str> = merged.iter().map(|r| r.key.as_str()).collect();
    assert_eq!(keys, vec!["s2", "s1", "s3"]);
    assert_eq!(merged[0].props.get("amount").map(String::as_str), Some("3"));
    assert!(merged[1].hidden);
    assert_eq!(merged[1].props.get("amount").map(String::as_str), Some("5"));
}

#[test]
fn merge_then_append_matches_sequential_merged_set() {
    let source = vec![
        rec("Shipment", "s1", false, &[("order_id", "o1"), ("amount", "10")]),
        rec("Shipment", "s2", false, &[("order_id", "o1"), ("amount", "3")]),
        rec("Shipment", "s3", true, &[("order_id", "o1"), ("amount", "99")]),
    ];
    let edits = vec![
        rec("Shipment", "s1", false, &[("order_id", "o1"), ("amount", "5")]),
        rec("Shipment", "s3", false, &[("order_id", "o1"), ("amount", "4")]),
        rec("Shipment", "s4", true, &[("order_id", "o1"), ("amount", "8")]),
    ];
    let merged = merge_source_and_edits(source.clone(), edits.clone());

    let (_merge_log, mut merged_store) = MemLog::new();
    MergeIngest::run(&mut merged_store, source, edits).unwrap();

    let (_seq_log, mut sequential) = MemLog::new();
    for record in merged {
        sequential.append(record).unwrap();
    }

    let oss = ObjectSet::new(LocalCompute);
    let req = shipment_request();
    let from_merge = oss.evaluate(&merged_store, &req).unwrap();
    let from_seq = oss.evaluate(&sequential, &req).unwrap();
    assert_eq!(from_merge.two_hop_count, from_seq.two_hop_count);
    assert_eq!(from_merge.sum_amount, from_seq.sum_amount);
    assert_eq!(from_merge.two_hop_count, 3);
    assert_eq!(from_merge.sum_amount, 12);
}

#[test]
fn stream_flush_appends_pending_records() {
    let (mut log, mut store) = MemLog::new();
    log.perform(BatchIngest::run(&mut store, fixture()).unwrap());
    let mut stream = StreamIngest::new(8).unwrap();
    log.perform(
        stream
            .push(&mut store, rec("Shipment", "s3", false, &[("order_id", "o1"), ("amount", "7")]))
            .unwrap(),
    );
    let oss = ObjectSet::new(LocalCompute);
    let live = oss.evaluate(&store, &fixture_request()).unwrap();
    assert_eq!(live.sum_amount, 17);
    log.perform(stream.flush(&mut store).unwrap());
    let streamed = oss.evaluate(&store, &fixture_request()).unwrap();
    assert_eq!(streamed.sum_amount, 17);
}

#[test]
fn stream_bound_n_plus_one_fails_closed_without_drop() {
    let (mut log, mut store) = MemLog::new();
    log.perform(BatchIngest::run(&mut store, fixture()).unwrap());
    let mut stream = StreamIngest::new(2).unwrap();
    log.perform(
        stream
            .push(&mut store, rec("Shipment", "s3", false, &[("order_id", "o1"), ("amount", "1")]))
            .unwrap(),
    );
    log.perform(
        stream
            .push(&mut store, rec("Shipment", "s4", false, &[("order_id", "o1"), ("amount", "2")]))
            .unwrap(),
    );
    let overflow = rec("Shipment", "s5", false, &[("order_id", "o1"), ("amount", "99")]);
    let err = stream.push(&mut store, overflow).unwrap_err();
    assert!(err.contains("bound 2 exceeded"), "expected fail-closed bound error, got {err}");
    let oss = ObjectSet::new(LocalCompute);
    let live = oss.evaluate(&store, &fixture_request()).unwrap();
    assert_eq!(live.sum_amount, 13);
    log.perform(stream.flush(&mut store).unwrap());
    let reopened = log.reopen();
    let committed = oss.evaluate(&reopened, &fixture_request()).unwrap();
    assert_eq!(committed.sum_amount, 13);
}

#[test]
fn stream_unflushed_records_are_not_on_rebuild() {
    let (mut log, mut store) = MemLog::new();
    log.perform(BatchIngest::run(&mut store, fixture()).unwrap());
    let mut stream = StreamIngest::new(4).unwrap();
    log.perform(
        stream
            .push(&mut store, rec("Shipment", "s3", false, &[("order_id", "o1"), ("amount", "7")]))
            .unwrap(),
    );
    drop(store);
    let reopened = log.reopen();
    let oss = ObjectSet::new(LocalCompute);
    let from_log = oss.evaluate(&reopened, &fixture_request()).unwrap();
    assert_eq!(from_log.sum_amount, 10);
}

#[test]
fn stream_flush_survives_reopen() {
    let (mut log, mut store) = MemLog::new();
    log.perform(BatchIngest::run(&mut store, fixture()).unwrap());
    let mut stream = StreamIngest::new(4).unwrap();
    log.perform(
        stream
            .push(&mut store, rec("Shipment", "s3", false, &[("order_id", "o1"), ("amount", "7")]))
            .unwrap(),
    );
    log.perform(stream.flush(&mut store).unwrap());
    drop(store);
    let reopened = log.reopen();
    let oss = ObjectSet::new(LocalCompute);
    let from_log = oss.evaluate(&reopened, &fixture_request()).unwrap();
    assert_eq!(from_log.sum_amount, 17);
}

#[test]
fn stream_hidden_records_excluded_and_acl_fails_closed() {
    let (mut log, mut store) = MemLog::new();
    log.perform(BatchIngest::run(&mut store, fixture()).unwrap());
    let mut stream = StreamIngest::new(4).unwrap();
    log.perform(
        stream
            .push(&mut store, rec("Shipment", "s_hidden", true, &[("order_id", "o1"), ("amount", "50")]))
            .unwrap(),
    );
    log.perform(stream.flush(&mut store).unwrap());
    let oss = ObjectSet::new(LocalCompute);
    let visible = oss.evaluate(&store, &fixture_request()).unwrap();
    assert_eq!(visible.sum_amount, 10);
    let mut denied = fixture_request();
    denied.acl = PropertyAcl::deny_property("Shipment", "amount");
    let err = oss.evaluate(&store, &denied).unwrap_err();
    assert!(matches!(err, ComputeError::Acl(AclError::Denied { .. })));
}

#[test]
fn stream_bound_zero_is_refused() {
    let err = StreamIngest::new(0).unwrap_err();
    assert_eq!(err, "stream ingest bound must be greater than 0");
    let stream = StreamIngest::new(3).unwrap();
    assert_eq!(stream.bound(), 3);
    assert_eq!(stream.uncommitted(), 0);
}

#[test]
fn stream_bound_message_names_the_bound_and_flush_resets() {
    let (_log, mut store) = MemLog::new();
    let mut stream = StreamIngest::new(1).unwrap();
    stream.push(&mut store, rec("Shipment", "s1", false, &[("amount", "1")])).unwrap();
    assert_eq!(stream.uncommitted(), 1);
    let err = stream.push(&mut store, rec("Shipment", "s2", false, &[("amount", "2")])).unwrap_err();
    assert_eq!(err, "stream ingest bound 1 exceeded; flush before pushing more");
    assert!(!store.joins().is_visible("Shipment", "s2"));
    stream.flush(&mut store).unwrap();
    assert_eq!(stream.uncommitted(), 0);
    stream.push(&mut store, rec("Shipment", "s2", false, &[("amount", "2")])).unwrap();
    assert!(store.joins().is_visible("Shipment", "s2"));
}
