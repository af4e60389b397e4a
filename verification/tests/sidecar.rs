use mikura::sidecar::{
    decode_checkpoint, decode_delta, encode_checkpoint, encode_delta, frame_checksummed, read_checksummed, SidecarRow,
};
use mikura::{
    parse_superblock, read_log, Aggregate, EvaluateRequest, Hop, LocalCompute, LogWrite, ObjectRecord, ObjectSet,
    PropertyAcl, Props, Store, SyncPolicy, PAGE,
};

fn rec(kind: &str, key: &str, hidden: bool, pairs: &[(&str, &str)]) -> ObjectRecord {
    let mut props = Props::new();
    for (name, value) in pairs {
        props.insert((*name).to_string(), (*value).to_string());
    }
    ObjectRecord {
        gen: 1,
        kind: kind.into(),
        key: key.into(),
        hidden,
        action_id: None,
        props,
    }
}

fn generic_records() -> Vec<ObjectRecord> {
    vec![
        rec("Customer", "c0", true, &[("region", "eu")]),
        rec("Customer", "c1", false, &[("region", "us")]),
        rec("Order", "o1", false, &[("customer_id", "c1")]),
        rec("Order", "o0", true, &[("customer_id", "c0")]),
        rec("Shipment", "s1", false, &[("order_id", "o1"), ("amount", "10")]),
        rec("Shipment", "s0", true, &[("order_id", "o0"), ("amount", "99")]),
        rec("Asset", "a1", false, &[("owner_id", "c1"), ("mass", "4")]),
        rec("Asset", "a0", true, &[("owner_id", "c0"), ("mass", "99")]),
    ]
}

fn fixture_request() -> EvaluateRequest {
    EvaluateRequest {
        root_kind: "Customer".into(),
        hops: vec![
            Hop {
                far_kind: "Order".into(),
                join_property: "customer_id".into(),
                incoming: false,
                predicate: None,
            },
            Hop {
                far_kind: "Shipment".into(),
                join_property: "order_id".into(),
                incoming: false,
                predicate: None,
            },
        ],
        sum_kind: "Shipment".into(),
        sum_property: "amount".into(),
        aggregate: Aggregate::CountAndSum,
        acl: PropertyAcl::allow_all(),
        filter: None,
        predicate: None,
        object_bound: 0,
        sort: None,
        page_size: 0,
        cursor: None,
    }
}

/// A log file and its two sidecar files, held in memory.
struct MemLog {
    bytes: Vec<u8>,
    checkpoint: Option<Vec<u8>>,
    delta: Option<Vec<u8>>,
}

impl MemLog {
    fn new() -> (MemLog, Store) {
        let (store, writes) = Store::create(SyncPolicy::Group(32));
        let mut log = MemLog { bytes: Vec::new(), checkpoint: None, delta: None };
        log.perform(writes);
        (log, store)
    }

    fn perform(&mut self, writes: Vec<LogWrite>) {
        for w in writes {
            match w {
                LogWrite::Page(page) => self.bytes.extend_from_slice(&page),
                LogWrite::Superblock(sb) => {
                    if self.bytes.len() < PAGE {
                        self.bytes.resize(PAGE, 0);
                    }
                    self.bytes[..PAGE].copy_from_slice(&sb);
                }
                LogWrite::Sync => {}
                LogWrite::Checkpoint(bytes) => self.checkpoint = Some(bytes),
                LogWrite::Delta(bytes) => self.delta = Some(bytes),
                LogWrite::DropDelta => self.delta = None,
            }
        }
    }

    fn reopen(&mut self) -> Store {
        let committed = parse_superblock(&self.bytes[..PAGE]).unwrap();
        let records = read_log(&self.bytes).unwrap();
        let (store, writes) =
            Store::open_projection(SyncPolicy::Group(32), committed, self.checkpoint.clone(), self.delta.clone(), records)
                .unwrap();
        self.perform(writes);
        store
    }
}

#[test]
fn batch_commit_writes_delta_not_full_sidecar() {
    let (mut log, mut store) = MemLog::new();
    for record in generic_records() {
        log.perform(store.append_uncommitted(record).unwrap());
    }
    log.perform(store.commit().unwrap());
    let checkpoint = log.checkpoint.as_ref().expect("first commit writes a checkpoint").len();
    assert!(log.delta.is_none());
    log.perform(store.append(rec("Shipment", "s2", false, &[("order_id", "o1"), ("amount", "5")])).unwrap());
    let after = log.checkpoint.as_ref().unwrap().len();
    assert_eq!(after, checkpoint, "checkpoint should not be rewritten");
    let delta = log.delta.as_ref().expect("dirty commit should write a delta").len();
    assert!(delta < checkpoint, "delta should be smaller than the checkpoint");
    drop(store);
    let reopened = log.reopen();
    let oss = ObjectSet::new(LocalCompute);
    let response = oss.evaluate(&reopened, &fixture_request()).unwrap();
    assert_eq!(response.two_hop_count, 1);
    assert_eq!(response.sum_amount, 15);
}

#[test]
fn small_batch_commits_keep_delta_and_dual_read() {
    let (mut log, mut store) = MemLog::new();
    for i in 0..16 {
        let key = format!("k{i}");
        let n = i.to_string();
        log.perform(store.append_uncommitted(rec("Item", &key, false, &[("n", &n)])).unwrap());
    }
    log.perform(store.commit().unwrap());
    let checkpoint = log.checkpoint.as_ref().unwrap().clone();
    assert!(log.delta.is_none());

    let mut next = 16usize;
    let mut prev_delta = 0usize;
    // Each round leaves at most a quarter of the identities written since
    // the checkpoint, so none compacts.
    for (round, batch) in [1usize, 2, 1].into_iter().enumerate() {
        for j in 0..batch {
            let i = next + j;
            let key = format!("k{i}");
            let n = i.to_string();
            log.perform(store.append_uncommitted(rec("Item", &key, false, &[("n", &n)])).unwrap());
        }
        log.perform(store.commit().unwrap());
        next += batch;
        assert_eq!(log.checkpoint.as_ref().unwrap(), &checkpoint, "round {round}: checkpoint rewritten");
        let delta_len = log.delta.as_ref().expect("later commits persist a delta").len();
        let grew = delta_len.saturating_sub(prev_delta);
        assert!(grew < checkpoint.len(), "round {round}: persist must write the dirty set");
        prev_delta = delta_len;
    }
    drop(store);

    let mut corrupt = log.delta.clone().unwrap();
    corrupt.extend_from_slice(&[0xff, 0x00, 0x01]);
    log.delta = Some(corrupt);
    let reopened = log.reopen();
    for i in 0..next {
        let want = i.to_string();
        let loaded = reopened.load("Item", &format!("k{i}"), &PropertyAcl::allow_all()).unwrap();
        assert_eq!(loaded.props.get("n").map(String::as_str), Some(want.as_str()));
    }
    drop(reopened);

    log.checkpoint = None;
    log.delta = None;
    let replayed = log.reopen();
    for i in 0..next {
        let want = i.to_string();
        let loaded = replayed.load("Item", &format!("k{i}"), &PropertyAcl::allow_all()).unwrap();
        assert_eq!(loaded.props.get("n").map(String::as_str), Some(want.as_str()));
    }
}

#[test]
fn more_than_a_quarter_written_compacts_into_a_new_checkpoint() {
    let (mut log, mut store) = MemLog::new();
    for i in 0..8 {
        log.perform(store.append_uncommitted(rec("Item", &format!("k{i}"), false, &[("n", "1")])).unwrap());
    }
    log.perform(store.commit().unwrap());
    let first = log.checkpoint.clone().unwrap();
    for i in 8..10 {
        log.perform(store.append_uncommitted(rec("Item", &format!("k{i}"), false, &[("n", "1")])).unwrap());
    }
    log.perform(store.commit().unwrap());
    assert_eq!(log.checkpoint.as_ref().unwrap(), &first, "two of ten written: delta");
    assert!(log.delta.is_some());
    log.perform(store.append_uncommitted(rec("Item", "k10", false, &[("n", "1")])).unwrap());
    log.perform(store.commit().unwrap());
    assert_ne!(log.checkpoint.as_ref().unwrap(), &first, "three of eleven written: checkpoint");
    assert!(log.delta.is_none());
}

#[test]
fn sidecar_reopen_serves_without_replay_writes() {
    let (mut log, mut store) = MemLog::new();
    for record in generic_records() {
        log.perform(store.append(record).unwrap());
    }
    drop(store);
    let committed = parse_superblock(&log.bytes[..PAGE]).unwrap();
    let records = read_log(&log.bytes).unwrap();
    let (store, writes) =
        Store::open_projection(SyncPolicy::Group(32), committed, log.checkpoint.clone(), log.delta.clone(), records)
            .unwrap();
    assert!(writes.is_empty(), "a current sidecar serves the reopen");
    assert!(store.joins().is_visible("Shipment", "s1"));
    assert!(!store.joins().is_visible("Shipment", "s0"));
    assert_eq!(store.joins().prop("Asset", "a1", "mass"), Some("4"));
}

#[test]
fn stale_or_missing_checkpoint_replays_and_rewrites() {
    let (mut log, mut store) = MemLog::new();
    for record in generic_records() {
        log.perform(store.append(record).unwrap());
    }
    let stale = log.checkpoint.clone();
    log.perform(store.append(rec("Shipment", "s2", false, &[("order_id", "o1"), ("amount", "5")])).unwrap());
    drop(store);
    log.checkpoint = stale;
    log.delta = None;
    let committed = parse_superblock(&log.bytes[..PAGE]).unwrap();
    let records = read_log(&log.bytes).unwrap();
    let (store, writes) =
        Store::open_projection(SyncPolicy::Group(32), committed, log.checkpoint.clone(), None, records).unwrap();
    assert!(matches!(writes.first(), Some(LogWrite::Checkpoint(_))));
    let oss = ObjectSet::new(LocalCompute);
    assert_eq!(oss.evaluate(&store, &fixture_request()).unwrap().sum_amount, 15);

    let records = read_log(&log.bytes).unwrap();
    let (_, writes) =
        Store::open_projection(SyncPolicy::Group(32), committed, None, Some(vec![1, 2, 3]), records).unwrap();
    assert!(matches!(writes.first(), Some(LogWrite::DropDelta)));
}

fn row(kind: &str, key: &str, gen: u64, hidden: bool, props: &[(&str, &str)]) -> SidecarRow {
    SidecarRow {
        kind: kind.into(),
        key: key.into(),
        gen,
        hidden,
        action_id: None,
        props: props.iter().map(|(a, b)| (a.to_string(), b.to_string())).collect(),
    }
}

fn same_rows(a: &[SidecarRow], b: &[SidecarRow]) -> bool {
    a.len() == b.len()
        && a.iter().zip(b.iter()).all(|(x, y)| {
            x.kind == y.kind
                && x.key == y.key
                && x.gen == y.gen
                && x.hidden == y.hidden
                && x.action_id == y.action_id
                && x.props == y.props
        })
}

#[test]
fn delta_bytes_read_back() {
    let mut acted = row("Order", "o1", 4, false, &[("customer_id", "c1")]);
    acted.action_id = Some("act-o1".into());
    let rows = vec![
        row("Shipment", "s1", 3, false, &[("amount", "10"), ("order_id", "o1")]),
        row("Order", "o0", 2, true, &[("customer_id", "c0")]),
        acted,
    ];
    let body = encode_delta(7, &rows).unwrap();
    assert_eq!(&body[..8], b"MKJOIN4D");
    let (pages, back) = decode_delta(&body).unwrap();
    assert_eq!(pages, 7);
    assert!(same_rows(&rows, &back));
    let mut trailing = body.clone();
    trailing.push(0);
    assert_eq!(decode_delta(&trailing).unwrap_err(), "trailing join bytes");
    let mut magic = body;
    magic[0] = b'X';
    assert_eq!(decode_delta(&magic).unwrap_err(), "bad join magic");
}

#[test]
fn checkpoint_bytes_read_back_through_the_intern_table() {
    let mut hidden = row("Order", "o0", 2, true, &[("customer_id", "c0")]);
    hidden.action_id = Some("act-hide".into());
    let rows = vec![
        row("Shipment", "s1", 3, false, &[("amount", "10"), ("order_id", "o1")]),
        row("Shipment", "s2", 1, false, &[("amount", "10"), ("order_id", "o1")]),
        hidden,
    ];
    let body = encode_checkpoint(9, &rows).unwrap();
    assert_eq!(&body[..8], b"MKJOIN04");
    let (pages, back) = decode_checkpoint(&body).unwrap();
    assert_eq!(pages, 9);
    let expected: Vec<SidecarRow> = rows.iter().map(|r| r.clone_row()).collect();
    assert!(same_rows(&expected, &back));
}

#[test]
fn checksummed_files_refuse_short_and_corrupt_bytes() {
    let body = encode_delta(1, &Vec::new()).unwrap();
    let framed = frame_checksummed(&body);
    assert_eq!(read_checksummed(&framed).unwrap(), body);
    let mut corrupt = framed.clone();
    corrupt[3] ^= 1;
    assert_eq!(read_checksummed(&corrupt).unwrap_err(), "join checksum mismatch");
    assert_eq!(read_checksummed(&framed[..8]).unwrap_err(), "join sidecar too short");
}

trait CloneRow {
    fn clone_row(&self) -> SidecarRow;
}

impl CloneRow for SidecarRow {
    fn clone_row(&self) -> SidecarRow {
        SidecarRow {
            kind: self.kind.clone(),
            key: self.key.clone(),
            gen: self.gen,
            hidden: self.hidden,
            action_id: self.action_id.clone(),
            props: self.props.clone(),
        }
    }
}

fn fixture() -> Vec<ObjectRecord> {
    vec![
        rec("Customer", "c0", true, &[("region", "eu")]),
        rec("Customer", "c1", false, &[("region", "us")]),
        rec("Order", "o1", false, &[("customer_id", "c1")]),
        rec("Order", "o0", true, &[("customer_id", "c0")]),
        rec("Shipment", "s1", false, &[("order_id", "o1"), ("amount", "10")]),
        rec("Shipment", "s0", true, &[("order_id", "o0"), ("amount", "99")]),
    ]
}

#[test]
fn load_current_object_after_reopen() {
    let (mut log, mut store) = MemLog::new();
    for record in fixture() {
        log.perform(store.append(record).unwrap());
    }
    let live_visible = store.load("Customer", "c1", &PropertyAcl::allow_all()).unwrap();
    let live_hidden = store.load("Customer", "c0", &PropertyAcl::allow_all()).unwrap();
    assert_eq!(live_visible.gen, 1);
    assert!(!live_visible.hidden);
    assert_eq!(live_visible.props.get("region").map(String::as_str), Some("us"));
    assert_eq!(live_hidden.gen, 1);
    assert!(live_hidden.hidden);
    assert_eq!(live_hidden.props.get("region").map(String::as_str), Some("eu"));
    assert!(!store.joins().is_visible("Customer", "c0"));
    let missing = store.load("Customer", "missing", &PropertyAcl::allow_all()).unwrap_err();
    assert!(missing.contains("unknown identity"), "{missing}");
    drop(store);

    let reopened = log.reopen();
    assert_eq!(reopened.load("Customer", "c1", &PropertyAcl::allow_all()).unwrap(), live_visible);
    assert_eq!(reopened.load("Customer", "c0", &PropertyAcl::allow_all()).unwrap(), live_hidden);
    assert!(!reopened.joins().is_visible("Customer", "c0"));
    drop(reopened);

    let mut store = log.reopen();
    log.perform(store.append(rec("Customer", "c1", false, &[("region", "ap")])).unwrap());
    drop(store);
    let updated = log.reopen();
    let latest = updated.load("Customer", "c1", &PropertyAcl::allow_all()).unwrap();
    assert_eq!(latest.gen, 2);
    assert_eq!(latest.props.get("region").map(String::as_str), Some("ap"));

    log.checkpoint = None;
    log.delta = None;
    let replayed = log.reopen();
    assert_eq!(replayed.load("Customer", "c1", &PropertyAcl::allow_all()).unwrap(), latest);
    assert_eq!(replayed.load("Customer", "c0", &PropertyAcl::allow_all()).unwrap(), live_hidden);
}

#[test]
fn load_omits_denied_properties() {
    let (mut log, mut store) = MemLog::new();
    for record in fixture() {
        log.perform(store.append(record).unwrap());
    }
    let allow = PropertyAcl::allow_all();
    let live = store.load("Shipment", "s1", &allow).unwrap();
    assert_eq!(live.props.get("amount").map(String::as_str), Some("10"));
    assert_eq!(live.props.get("order_id").map(String::as_str), Some("o1"));

    let deny_unknown = PropertyAcl::deny_property("Shipment", "not_a_column");
    assert!(store.load("Shipment", "s1", &deny_unknown).unwrap().props.same(&live.props));

    let deny_amount = PropertyAcl::deny_property("Shipment", "amount");
    let redacted = store.load("Shipment", "s1", &deny_amount).unwrap();
    assert!(!redacted.props.contains_key("amount"));
    assert_eq!(redacted.props.get("order_id").map(String::as_str), Some("o1"));

    let hidden = store
        .load("Customer", "c0", &PropertyAcl::deny_property("Customer", "region"))
        .unwrap();
    assert!(hidden.hidden);
    assert!(!hidden.props.contains_key("region"));
    drop(store);

    let reopened = log.reopen();
    let after_open = reopened.load("Shipment", "s1", &deny_amount).unwrap();
    assert!(!after_open.props.contains_key("amount"));
    assert_eq!(after_open.props.get("order_id").map(String::as_str), Some("o1"));
    assert!(reopened.load("Shipment", "s1", &allow).unwrap().props.same(&live.props));
}

#[test]
fn action_ids_survive_sidecar_reopen_and_replay() {
    let (mut log, mut store) = MemLog::new();
    for record in fixture() {
        log.perform(store.append(record).unwrap());
    }
    let mut props = Props::new();
    props.insert("order_id".into(), "o1".into());
    props.insert("amount".into(), "5".into());
    log.perform(
        store
            .apply_action(mikura::Action { id: "act-s2".into(), kind: "Shipment".into(), key: "s2".into(), props })
            .unwrap(),
    );
    let mut hidden_action = rec("Customer", "c0", true, &[("region", "eu")]);
    hidden_action.action_id = Some("act-hide".into());
    log.perform(store.append(hidden_action).unwrap());
    assert_eq!(
        store.load("Customer", "c0", &PropertyAcl::allow_all()).unwrap().action_id.as_deref(),
        Some("act-hide")
    );
    drop(store);

    let reopened = log.reopen();
    assert_eq!(
        reopened.load("Shipment", "s2", &PropertyAcl::allow_all()).unwrap().action_id.as_deref(),
        Some("act-s2")
    );
    assert_eq!(
        reopened.load("Customer", "c0", &PropertyAcl::allow_all()).unwrap().action_id.as_deref(),
        Some("act-hide")
    );
    assert_eq!(reopened.load("Customer", "c1", &PropertyAcl::allow_all()).unwrap().action_id, None);
    let oss = ObjectSet::new(LocalCompute);
    let hops = oss.evaluate(&reopened, &fixture_request()).unwrap();
    assert_eq!(hops.two_hop_count, 1);
    assert_eq!(hops.sum_amount, 15);
    drop(reopened);

    log.checkpoint = None;
    log.delta = None;
    let replayed = log.reopen();
    assert_eq!(
        replayed.load("Shipment", "s2", &PropertyAcl::allow_all()).unwrap().action_id.as_deref(),
        Some("act-s2")
    );
    assert_eq!(
        replayed.load("Customer", "c0", &PropertyAcl::allow_all()).unwrap().action_id.as_deref(),
        Some("act-hide")
    );
}

#[test]
fn a_load_the_request_hides_is_unknown() {
    let (mut log, mut store) = MemLog::new();
    for record in fixture() {
        log.perform(store.append(record).unwrap());
    }
    let mut hidden = PropertyAcl::allow_all();
    hidden.insert_hide_identity("Customer", "c1");
    let missing = store.load("Customer", "c1", &hidden).unwrap_err();
    assert!(missing.contains("unknown identity"), "{missing}");
    assert!(store.load("Customer", "c1", &PropertyAcl::allow_all()).is_ok());
}

/// Rewrite the magic of a checkpoint file and fix up its checksum.
fn with_magic(file: &[u8], magic: &[u8; 8]) -> Vec<u8> {
    let mut bytes = file.to_vec();
    let crc_at = bytes.len() - 4;
    bytes[..8].copy_from_slice(magic);
    let crc = crc32fast::hash(&bytes[..crc_at]);
    bytes[crc_at..].copy_from_slice(&crc.to_le_bytes());
    bytes
}

fn open_with_checkpoint(log: &MemLog, checkpoint: Option<Vec<u8>>) -> Result<Store, String> {
    let committed = parse_superblock(&log.bytes[..PAGE]).unwrap();
    let records = read_log(&log.bytes).unwrap();
    Store::open_projection(SyncPolicy::Group(32), committed, checkpoint, log.delta.clone(), records).map(|(s, _)| s)
}

fn old_magics_fail_closed(magics: &[&[u8; 8]]) {
    let (mut log, mut store) = MemLog::new();
    for record in fixture() {
        log.perform(store.append(record).unwrap());
    }
    drop(store);
    let current = log.checkpoint.clone().unwrap();
    for magic in magics {
        let err = match open_with_checkpoint(&log, Some(with_magic(&current, magic))) {
            Err(err) => err,
            Ok(_) => panic!("old magic should fail closed"),
        };
        assert!(err.contains("magic") || err.contains("checksum"), "{err}");
    }
    let mut corrupt = current.clone();
    let last = corrupt.len() - 1;
    corrupt[last] ^= 0xff;
    let err = match open_with_checkpoint(&log, Some(corrupt)) {
        Err(err) => err,
        Ok(_) => panic!("a corrupt checkpoint should fail closed"),
    };
    assert!(err.contains("checksum"), "{err}");
    let recovered = open_with_checkpoint(&log, None).unwrap();
    assert!(recovered.joins().is_visible("Customer", "c1"));
}

#[test]
fn persist_old_join_sidecar_magic_fails_closed() {
    old_magics_fail_closed(&[b"MKJOIN01", b"MKJOIN02"]);
}

#[test]
fn crate_tests_old_join_sidecar_magic_fails_closed() {
    old_magics_fail_closed(&[b"MKJOIN01", b"MKJOIN02"]);
}

#[test]
fn old_mkjoin03_sidecar_fails_closed() {
    old_magics_fail_closed(&[b"MKJOIN03"]);
}

#[test]
fn a_short_checkpoint_fails_closed() {
    let (mut log, mut store) = MemLog::new();
    for record in fixture() {
        log.perform(store.append(record).unwrap());
    }
    drop(store);
    let err = match open_with_checkpoint(&log, Some(vec![1, 2, 3, 4])) {
        Err(err) => err,
        Ok(_) => panic!("a short checkpoint should fail closed"),
    };
    assert_eq!(err, "join sidecar too short");
}

#[test]
fn checkpoint_refusals_name_their_cause() {
    let (mut log, mut store) = MemLog::new();
    for record in fixture() {
        log.perform(store.append(record).unwrap());
    }
    drop(store);
    let current = log.checkpoint.clone().unwrap();

    let mut corrupt = current.clone();
    corrupt[9] ^= 0x01;
    let err = open_with_checkpoint(&log, Some(corrupt)).err().unwrap();
    assert_eq!(err, "join checksum mismatch");

    let err = open_with_checkpoint(&log, Some(with_magic(&current, b"MKJOIN02"))).err().unwrap();
    assert_eq!(err, "bad join magic");

    let mut body = read_checksummed(&current).unwrap();
    body.extend_from_slice(&[0, 1, 2]);
    let err = open_with_checkpoint(&log, Some(frame_checksummed(&body))).err().unwrap();
    assert_eq!(err, "trailing join bytes");

    let err = open_with_checkpoint(&log, Some(vec![0; 11])).err().unwrap();
    assert_eq!(err, "join sidecar too short");
}
