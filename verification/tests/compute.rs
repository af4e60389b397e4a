use mikura::{
    parse_superblock, read_log, AclError, Aggregate, ComputeError, EvaluateRequest, EvaluateResponse, ExactMatch,
    Hop, LocalCompute, LogWrite, ObjectRecord, ObjectSet, Predicate, PropertyAcl, PropertyType, Props,
    SchemaDescriptor, SchemaLink, Sort, SparkCompute, Store, SyncPolicy, PAGE,
};

fn rec(kind: &str, key: &str, hidden: bool, pairs: &[(&str, &str)]) -> ObjectRecord {
    let mut props = Props::new();
    for (name, value) in pairs {
        props.insert((*name).to_string(), (*value).to_string());
    }
    ObjectRecord {
        gen: 1,
        kind: kind.into(),
        key: key.into(),
        hidden,
        action_id: None,
        props,
    }
}

/// A log file held in memory: the steps a store returns are performed on it.
struct MemLog {
    bytes: Vec<u8>,
    checkpoint: Option<Vec<u8>>,
    delta: Option<Vec<u8>>,
}

impl MemLog {
    fn new() -> (MemLog, Store) {
        let (store, writes) = Store::create(SyncPolicy::Group(32));
        let mut log = MemLog { bytes: Vec::new(), checkpoint: None, delta: None };
        log.perform(writes);
        (log, store)
    }

    fn perform(&mut self, writes: Vec<LogWrite>) {
        for w in writes {
            match w {
                LogWrite::Page(page) => self.bytes.extend_from_slice(&page),
                LogWrite::Superblock(sb) => {
                    if self.bytes.len() < PAGE {
                        self.bytes.resize(PAGE, 0);
                    }
                    self.bytes[..PAGE].copy_from_slice(&sb);
                }
                LogWrite::Sync => {}
                LogWrite::Checkpoint(bytes) => self.checkpoint = Some(bytes),
                LogWrite::Delta(bytes) => self.delta = Some(bytes),
                LogWrite::DropDelta => self.delta = None,
            }
        }
    }

    fn append_all(&mut self, store: &mut Store, records: Vec<ObjectRecord>) {
        for record in records {
            let writes = store.append(record).unwrap();
            self.perform(writes);
        }
    }

    fn reopen(&mut self) -> Store {
        let committed = parse_superblock(&self.bytes[..PAGE]).unwrap();
        let records = read_log(&self.bytes).unwrap();
        let (store, writes) =
            Store::open_projection(SyncPolicy::Group(32), committed, self.checkpoint.clone(), self.delta.clone(), records)
                .unwrap();
        self.perform(writes);
        store
    }
}

fn component_schema() -> SchemaDescriptor {
    SchemaDescriptor {
        kind: "component".into(),
        properties: vec!["name".into(), "tier".into()],
        required: vec!["name".into(), "tier".into()],
        links: Vec::new(),
        sums: Vec::new(),
        types: Vec::new(),
    }
}

fn incident_schema() -> SchemaDescriptor {
    SchemaDescriptor {
        kind: "incident".into(),
        properties: vec![
            "affects".into(),
            "name".into(),
            "note".into(),
            "open".into(),
            "priority".into(),
        ],
        required: vec!["name".into()],
        links: vec![SchemaLink {
            name: "affects".into(),
            far_kind: "component".into(),
            outgoing: true,
        }],
        sums: Vec::new(),
        types: vec![
            ("open".into(), PropertyType::Boolean),
            ("priority".into(), PropertyType::Integer),
        ],
    }
}

fn proposed_fixture() -> Vec<ObjectRecord> {
    vec![
        rec("component", "svc-api", false, &[("name", "billing-api"), ("tier", "prod")]),
        rec("component", "svc-web", false, &[("name", "web"), ("tier", "prod")]),
        rec("component", "svc-batch", false, &[("name", "batch"), ("tier", "staging")]),
        rec(
            "incident",
            "inc-1",
            false,
            &[("name", "elevated latency"), ("affects", "svc-api"), ("open", "true"), ("priority", "2")],
        ),
        rec(
            "incident",
            "inc-2",
            false,
            &[
                ("name", "disk full"),
                ("affects", "svc-api"),
                ("open", "false"),
                ("priority", "3"),
                ("note", "pager"),
            ],
        ),
        rec(
            "incident",
            "inc-3",
            false,
            &[("name", "job delay"), ("affects", "svc-batch"), ("open", "true"), ("priority", "1")],
        ),
    ]
}

fn seed() -> (MemLog, Store) {
    let (mut log, mut store) = MemLog::new();
    let schemas = vec![component_schema().to_record().unwrap(), incident_schema().to_record().unwrap()];
    log.append_all(&mut store, schemas);
    log.append_all(&mut store, proposed_fixture());
    (log, store)
}

fn list_incidents(predicate: Predicate, bound: usize) -> EvaluateRequest {
    EvaluateRequest {
        root_kind: "incident".into(),
        hops: vec![],
        sum_kind: "incident".into(),
        sum_property: "priority".into(),
        aggregate: Aggregate::CountAndSum,
        acl: PropertyAcl::allow_all(),
        filter: None,
        predicate: Some(predicate),
        object_bound: bound,
        sort: None,
        page_size: 0,
        cursor: None,
    }
}

fn sorted_keys(response: &EvaluateResponse) -> Vec<&str> {
    let mut keys: Vec<&str> = response.objects.iter().map(|row| row.key.as_str()).collect();
    keys.sort();
    keys
}

fn keys(response: &EvaluateResponse) -> Vec<&str> {
    response.objects.iter().map(|row| row.key.as_str()).collect()
}

fn hop_then_filter() -> EvaluateRequest {
    EvaluateRequest {
        root_kind: "incident".into(),
        hops: vec![Hop {
            far_kind: "component".into(),
            join_property: "affects".into(),
            incoming: true,
            predicate: Some(Predicate::eq("tier", "prod")),
        }],
        sum_kind: "component".into(),
        sum_property: "tier".into(),
        aggregate: Aggregate::CountAndSum,
        acl: PropertyAcl::allow_all(),
        filter: None,
        predicate: None,
        object_bound: 8,
        sort: None,
        page_size: 0,
        cursor: None,
    }
}

#[test]
fn composed_predicates_filter_then_hop_and_rebuild() {
    let (mut log, store) = seed();
    let oss = ObjectSet::new(LocalCompute);

    let open = oss.evaluate(&store, &list_incidents(Predicate::eq("open", "true"), 8)).unwrap();
    assert_eq!(sorted_keys(&open), ["inc-1", "inc-3"]);

    let range = oss
        .evaluate(&store, &list_incidents(Predicate::range("priority", Some("2"), Some("3")), 8))
        .unwrap();
    assert_eq!(sorted_keys(&range), ["inc-1", "inc-2"]);

    let missing = oss.evaluate(&store, &list_incidents(Predicate::missing("note"), 8)).unwrap();
    assert_eq!(sorted_keys(&missing), ["inc-1", "inc-3"]);

    let composed = oss
        .evaluate(
            &store,
            &list_incidents(
                Predicate::and(vec![Predicate::eq("open", "true"), Predicate::neq("priority", "1")]),
                8,
            ),
        )
        .unwrap();
    assert_eq!(sorted_keys(&composed), ["inc-1"]);

    let negated = oss
        .evaluate(&store, &list_incidents(Predicate::eq("open", "true").negate(), 8))
        .unwrap();
    assert_eq!(sorted_keys(&negated), ["inc-2"]);

    let filter_then_hop = EvaluateRequest {
        root_kind: "incident".into(),
        hops: vec![Hop {
            far_kind: "component".into(),
            join_property: "affects".into(),
            incoming: true,
            predicate: None,
        }],
        sum_kind: "component".into(),
        sum_property: "tier".into(),
        aggregate: Aggregate::CountAndSum,
        acl: PropertyAcl::allow_all(),
        filter: None,
        predicate: Some(Predicate::eq("open", "true")),
        object_bound: 8,
        sort: None,
        page_size: 0,
        cursor: None,
    };
    let hopped = oss.evaluate(&store, &filter_then_hop).unwrap();
    assert_eq!(sorted_keys(&hopped), ["svc-api", "svc-batch"]);

    let filtered = oss.evaluate(&store, &hop_then_filter()).unwrap();
    assert_eq!(sorted_keys(&filtered), ["svc-api"]);
    assert_eq!(filtered.two_hop_count, 2);

    let integer_is_not_string = oss.evaluate(&store, &list_incidents(Predicate::eq("priority", "01"), 8));
    assert!(
        matches!(integer_is_not_string, Err(ComputeError::Predicate(_))),
        "{integer_is_not_string:?}"
    );

    let denied = EvaluateRequest {
        acl: PropertyAcl::deny_property("incident", "open"),
        ..list_incidents(Predicate::eq("open", "true"), 8)
    };
    assert!(matches!(oss.evaluate(&store, &denied), Err(ComputeError::Acl(AclError::Denied { .. }))));

    let boolean_range = oss.evaluate(
        &store,
        &list_incidents(Predicate::range("open", Some("false"), Some("true")), 8),
    );
    assert!(matches!(boolean_range, Err(ComputeError::Predicate(_))), "{boolean_range:?}");

    let both = EvaluateRequest {
        filter: Some(ExactMatch {
            property: "name".into(),
            value: "disk full".into(),
        }),
        ..list_incidents(Predicate::eq("open", "true"), 8)
    };
    assert!(matches!(oss.evaluate(&store, &both), Err(ComputeError::Predicate(_))));

    drop(store);
    let replayed = log.reopen();
    assert_eq!(
        sorted_keys(&oss.evaluate(&replayed, &list_incidents(Predicate::eq("open", "true"), 8)).unwrap()),
        ["inc-1", "inc-3"]
    );
    assert_eq!(sorted_keys(&oss.evaluate(&replayed, &hop_then_filter()).unwrap()), ["svc-api"]);
}

fn page_incidents(sort: Sort, page_size: usize, cursor: Option<String>) -> EvaluateRequest {
    EvaluateRequest {
        root_kind: "incident".into(),
        hops: vec![],
        sum_kind: "incident".into(),
        sum_property: "priority".into(),
        aggregate: Aggregate::CountAndSum,
        acl: PropertyAcl::allow_all(),
        filter: None,
        predicate: None,
        object_bound: 8,
        sort: Some(sort),
        page_size,
        cursor,
    }
}

#[test]
fn ordered_pages_bind_snapshot_and_fail_closed() {
    let (mut log, mut store) = seed();
    let oss = ObjectSet::new(LocalCompute);

    let ordered = oss.evaluate(&store, &page_incidents(Sort::ascending("priority"), 0, None)).unwrap();
    assert_eq!(keys(&ordered), ["inc-3", "inc-1", "inc-2"]);
    assert_eq!(ordered.two_hop_count, 3);
    assert!(ordered.cursor.is_none());

    let ties = oss.evaluate(&store, &page_incidents(Sort::ascending("open"), 0, None)).unwrap();
    assert_eq!(keys(&ties), ["inc-2", "inc-1", "inc-3"]);

    let missing_last = oss.evaluate(&store, &page_incidents(Sort::ascending("note"), 0, None)).unwrap();
    assert_eq!(keys(&missing_last), ["inc-2", "inc-1", "inc-3"]);

    let desc = Sort {
        property: "priority".into(),
        descending: true,
    };
    let descending = oss.evaluate(&store, &page_incidents(desc, 0, None)).unwrap();
    assert_eq!(keys(&descending), ["inc-2", "inc-1", "inc-3"]);

    let note_desc = Sort {
        property: "note".into(),
        descending: true,
    };
    let missing_last_desc = oss.evaluate(&store, &page_incidents(note_desc, 0, None)).unwrap();
    assert_eq!(keys(&missing_last_desc), ["inc-2", "inc-1", "inc-3"]);

    let page1 = oss.evaluate(&store, &page_incidents(Sort::ascending("priority"), 1, None)).unwrap();
    assert_eq!(keys(&page1), ["inc-3"]);
    assert_eq!(page1.two_hop_count, 3);
    let cursor1 = page1.cursor.clone().expect("page one continues");

    let page2 = oss
        .evaluate(&store, &page_incidents(Sort::ascending("priority"), 1, Some(cursor1.clone())))
        .unwrap();
    assert_eq!(keys(&page2), ["inc-1"]);
    let cursor2 = page2.cursor.clone().expect("page two continues");

    let page3 = oss
        .evaluate(&store, &page_incidents(Sort::ascending("priority"), 1, Some(cursor2.clone())))
        .unwrap();
    assert_eq!(keys(&page3), ["inc-2"]);
    assert!(page3.cursor.is_none());

    let empty = oss.evaluate(&store, &page_incidents(Sort::ascending("priority"), 8, None)).unwrap();
    assert_eq!(keys(&empty), ["inc-3", "inc-1", "inc-2"]);
    assert!(empty.cursor.is_none());

    let overflow = oss.evaluate(
        &store,
        &EvaluateRequest {
            object_bound: 1,
            ..page_incidents(Sort::ascending("priority"), 1, None)
        },
    );
    assert!(
        matches!(overflow, Err(ComputeError::ObjectBound { bound: 1, count: 3 })),
        "{overflow:?}"
    );

    let denied = EvaluateRequest {
        acl: PropertyAcl::deny_property("incident", "priority"),
        ..page_incidents(Sort::ascending("priority"), 1, None)
    };
    assert!(matches!(oss.evaluate(&store, &denied), Err(ComputeError::Acl(AclError::Denied { .. }))));

    let no_sort = oss.evaluate(
        &store,
        &EvaluateRequest {
            sort: None,
            page_size: 1,
            ..page_incidents(Sort::ascending("priority"), 1, None)
        },
    );
    assert!(matches!(no_sort, Err(ComputeError::Page(_))), "{no_sort:?}");

    let bad_token = oss.evaluate(&store, &page_incidents(Sort::ascending("priority"), 1, Some("x".into())));
    assert!(matches!(bad_token, Err(ComputeError::Page(_))), "{bad_token:?}");

    let other_query = oss.evaluate(
        &store,
        &EvaluateRequest {
            predicate: Some(Predicate::eq("open", "true")),
            ..page_incidents(Sort::ascending("priority"), 1, Some(cursor1.clone()))
        },
    );
    assert!(matches!(other_query, Err(ComputeError::Page(_))), "{other_query:?}");

    let other_acl = oss.evaluate(
        &store,
        &EvaluateRequest {
            acl: PropertyAcl::deny_property("incident", "name"),
            ..page_incidents(Sort::ascending("priority"), 1, Some(cursor1.clone()))
        },
    );
    assert!(matches!(other_acl, Err(ComputeError::Page(_))), "{other_acl:?}");

    let writes = store
        .append_uncommitted(rec(
            "incident",
            "inc-stream",
            false,
            &[("name", "streamed"), ("affects", "svc-web"), ("open", "true"), ("priority", "4")],
        ))
        .unwrap();
    log.perform(writes);
    let after_uncommitted =
        oss.evaluate(&store, &page_incidents(Sort::ascending("priority"), 1, Some(cursor1.clone())));
    assert!(matches!(after_uncommitted, Err(ComputeError::Page(_))), "{after_uncommitted:?}");
    log.perform(store.commit().unwrap());

    log.append_all(
        &mut store,
        vec![rec(
            "incident",
            "inc-4",
            false,
            &[("name", "new"), ("affects", "svc-web"), ("open", "true"), ("priority", "0")],
        )],
    );
    let after_write = oss.evaluate(&store, &page_incidents(Sort::ascending("priority"), 1, Some(cursor1.clone())));
    assert!(matches!(after_write, Err(ComputeError::Page(_))), "{after_write:?}");

    let fresh = oss.evaluate(&store, &page_incidents(Sort::ascending("priority"), 1, None)).unwrap();
    assert_eq!(keys(&fresh), ["inc-4"]);
    let fresh_cursor = fresh.cursor.clone().expect("fresh page continues");
    drop(store);

    let reopened = log.reopen();
    let continued = oss
        .evaluate(&reopened, &page_incidents(Sort::ascending("priority"), 1, Some(fresh_cursor)))
        .unwrap();
    assert_eq!(keys(&continued), ["inc-3"]);
}

#[test]
fn spark_backend_refuses() {
    let (_log, store) = seed();
    let oss = ObjectSet::new(SparkCompute);
    let err = oss.evaluate(&store, &list_incidents(Predicate::eq("open", "true"), 8)).unwrap_err();
    assert!(matches!(err, ComputeError::UnsupportedBackend { ref name } if name == "spark"), "{err:?}");
}

#[test]
fn predicate_properties_in_order_of_appearance() {
    let p = Predicate::and(vec![
        Predicate::eq("open", "true"),
        Predicate::or(vec![Predicate::missing("note"), Predicate::range("priority", Some("1"), None)]),
        Predicate::neq("open", "false").negate(),
    ]);
    assert_eq!(p.properties(), vec!["open".to_string(), "note".to_string(), "priority".to_string(), "open".to_string()]);
}

#[test]
fn empty_and_is_refused_as_shape() {
    let (_log, store) = seed();
    let oss = ObjectSet::new(LocalCompute);
    let err = oss.evaluate(&store, &list_incidents(Predicate::and(Vec::new()), 8)).unwrap_err();
    assert!(matches!(err, ComputeError::Predicate(_)), "{err:?}");
}
