use iterdns::db::{Query, RecordDB};
use iterdns::dns::{query_record, Message, QueryOutcome, ResolverError};
use iterdns::entry::{REntry, RServer};
use iterdns::name::Name;
use iterdns::record::{IpAddr, RData, Record, RecordType};

fn name(text: &str) -> Name {
    let labels: Vec<Vec<u8>> = text
        .split('.')
        .filter(|l| !l.is_empty())
        .map(|l| l.as_bytes().to_vec())
        .collect();
    Name::from_labels(labels).unwrap()
}

fn record(owner: &str, rdata: RData) -> Record {
    Record { name: name(owner), rdata }
}

fn entries(entry: &REntry) -> Vec<RData> {
    match entry {
        REntry::Entries(items) => items.clone(),
        _ => panic!("the entry holds no data"),
    }
}

fn probe(q: &Query) -> (Name, RecordType, IpAddr, Option<Name>) {
    (q.name.clone(), q.rtype, q.server, q.zone.clone())
}

fn queue(db: &RecordDB) -> Vec<(Name, RecordType, IpAddr, Option<Name>)> {
    db.query_queue().iter().map(probe).collect()
}

/// A zone `example.` with two name servers, the first with two addresses.
fn seeded() -> RecordDB {
    let mut db = RecordDB::new();
    let hint = IpAddr::V4(1);
    db.add_record(&record("example.", RData::NS(name("ns1.example."))), hint);
    db.add_record(&record("example.", RData::NS(name("ns2.example."))), hint);
    db.add_record(&record("ns1.example.", RData::A(0x0a00_0001)), hint);
    db.add_record(&record("ns1.example.", RData::A(0x0a00_0002)), hint);
    db.add_record(&record("ns1.example.", RData::AAAA(0x99)), hint);
    db.add_record(&record("ns2.example.", RData::A(0x0a00_0003)), hint);
    db
}

#[test]
fn generate_queries_asks_every_address_of_every_name_server() {
    let mut db = seeded();
    db.add_target(&name("www.example."), RecordType::A, &name("example."));
    let before = db.change_num();
    db.generate_queries();
    let zone = Some(name("example."));
    assert_eq!(
        queue(&db),
        vec![
            (name("www.example."), RecordType::A, IpAddr::V4(0x0a00_0001), zone.clone()),
            (name("www.example."), RecordType::A, IpAddr::V4(0x0a00_0002), zone.clone()),
            (name("www.example."), RecordType::A, IpAddr::V4(0x0a00_0003), zone.clone()),
        ]
    );
    // once for each probe that joined the queue
    assert_eq!(db.change_num(), before + 3);
}

#[test]
fn generate_queries_passes_over_servers_that_said_something() {
    let mut db = seeded();
    db.add_target(&name("www.example."), RecordType::A, &name("example."));
    db.add_rentry(&name("www.example."), REntry::TimeOut, IpAddr::V4(0x0a00_0001));
    db.add_record(&record("www.example.", RData::TXT(vec![1])), IpAddr::V4(0x0a00_0003));
    db.generate_queries();
    assert_eq!(
        queue(&db),
        vec![(
            name("www.example."),
            RecordType::A,
            IpAddr::V4(0x0a00_0002),
            Some(name("example."))
        )]
    );
}

#[test]
fn generate_queries_twice_queues_nothing_more() {
    let mut db = seeded();
    db.add_target(&name("www.example."), RecordType::A, &name("example."));
    db.generate_queries();
    let first = queue(&db);
    let counter = db.change_num();
    db.generate_queries();
    assert_eq!(queue(&db), first);
    assert_eq!(db.change_num(), counter);
}

#[test]
fn generate_queries_queues_a_question_for_a_server_once() {
    let mut db = seeded();
    // a second zone served by the same name server
    db.add_record(&record("other.", RData::NS(name("ns2.example."))), IpAddr::V4(1));
    db.add_target(&name("www.example."), RecordType::A, &name("other."));
    db.add_target(&name("www.example."), RecordType::A, &name("example."));
    db.add_target(&name("www.example."), RecordType::AAAA, &name("other."));
    let before = db.change_num();
    db.generate_queries();
    assert_eq!(
        queue(&db),
        vec![
            (name("www.example."), RecordType::A, IpAddr::V4(0x0a00_0003), Some(name("other."))),
            (name("www.example."), RecordType::A, IpAddr::V4(0x0a00_0001), Some(name("example."))),
            (name("www.example."), RecordType::A, IpAddr::V4(0x0a00_0002), Some(name("example."))),
            (name("www.example."), RecordType::AAAA, IpAddr::V4(0x0a00_0003), Some(name("other."))),
        ]
    );
    assert_eq!(db.change_num(), before + 4);
}

#[test]
fn generate_queries_without_targets_or_records_does_nothing() {
    let mut db = seeded();
    db.generate_queries();
    assert!(db.query_queue().is_empty());
    let mut db = RecordDB::new();
    db.add_answer_target(&name("www.example."), RecordType::A);
    db.generate_queries();
    assert!(db.query_queue().is_empty());
    assert_eq!(db.change_num(), 1);
}

#[test]
fn generate_queries_passes_over_name_servers_without_an_address() {
    let mut db = RecordDB::new();
    db.add_record(&record("example.", RData::NS(name("ns1.elsewhere."))), IpAddr::V4(1));
    db.add_record(&record("ns1.elsewhere.", RData::AAAA(5)), IpAddr::V4(1));
    db.add_target(&name("www.example."), RecordType::A, &name("example."));
    let before = db.change_num();
    db.generate_queries();
    assert!(db.query_queue().is_empty());
    assert_eq!(db.change_num(), before);
    // and the loop does not wait for what cannot be asked
    assert!(db.action_loop(None).is_none());
    assert_eq!(db.change_num(), before);
}

#[test]
fn generate_queries_only_reads_records_and_targets() {
    let mut db = seeded();
    db.add_answer_target(&name("www.example."), RecordType::A);
    db.add_target(&name("www.example."), RecordType::A, &name("example."));
    let slots = db.slots().len();
    db.generate_queries();
    assert_eq!(db.slots().len(), slots);
    assert_eq!(db.targets().len(), 2);
    assert_eq!(db.answer_targets().len(), 1);
    assert!(db.delegations().is_empty());
}

#[test]
fn perform_queries_hands_out_the_probes_first_in_first_out() {
    let mut db = seeded();
    db.add_target(&name("www.example."), RecordType::A, &name("example."));
    db.generate_queries();
    let counter = db.change_num();
    let first = db.perform_queries(None).unwrap();
    assert_eq!(first.server, IpAddr::V4(0x0a00_0001));
    let second = db.perform_queries(None).unwrap();
    assert_eq!(second.server, IpAddr::V4(0x0a00_0002));
    let third = db.perform_queries(None).unwrap();
    assert_eq!(third.server, IpAddr::V4(0x0a00_0003));
    assert!(db.perform_queries(None).is_none());
    assert!(db.query_queue().is_empty());
    assert_eq!(db.change_num(), counter);
}

#[test]
fn perform_queries_folds_the_outcome_in_before_the_next_probe() {
    let mut db = seeded();
    db.add_target(&name("www.example."), RecordType::A, &name("example."));
    db.generate_queries();
    let first = db.perform_queries(None).unwrap();
    let second = db.perform_queries(Some((first, QueryOutcome::Timeout))).unwrap();
    assert_eq!(second.server, IpAddr::V4(0x0a00_0002));
    let records = db.get_records(&name("www.example."));
    assert_eq!(records.len(), 1);
    assert_eq!(records[0].0, RServer::V4(0x0a00_0001));
    assert!(matches!(records[0].1, REntry::TimeOut));
}

#[test]
fn query_record_time_out_is_recorded() {
    let mut db = RecordDB::new();
    let r = query_record(
        &mut db,
        IpAddr::V4(9),
        name("www.example."),
        RecordType::A,
        None,
        QueryOutcome::Timeout,
    );
    assert!(r.is_ok());
    let records = db.get_records(&name("www.example."));
    assert_eq!(records.len(), 1);
    assert_eq!(records[0].0, RServer::V4(9));
    assert!(matches!(records[0].1, REntry::TimeOut));
    assert_eq!(db.change_num(), 1);
}

#[test]
fn generate_queries_passes_over_probes_that_failed() {
    let mut db = seeded();
    db.add_target(&name("www.example."), RecordType::A, &name("example."));
    db.add_failure(Query {
        name: name("www.example."),
        rtype: RecordType::A,
        server: IpAddr::V4(0x0a00_0002),
        zone: None,
    });
    // another question for the same server is not barred
    db.add_failure(Query {
        name: name("www.example."),
        rtype: RecordType::AAAA,
        server: IpAddr::V4(0x0a00_0003),
        zone: None,
    });
    let before = db.change_num();
    db.generate_queries();
    let zone = Some(name("example."));
    assert_eq!(
        queue(&db),
        vec![
            (name("www.example."), RecordType::A, IpAddr::V4(0x0a00_0001), zone.clone()),
            (name("www.example."), RecordType::A, IpAddr::V4(0x0a00_0003), zone.clone()),
        ]
    );
    assert_eq!(db.change_num(), before + 2);
}

#[test]
fn add_failure_remembers_each_probe_once() {
    let mut db = RecordDB::new();
    let failure = |zone: Option<Name>| Query {
        name: name("www.example."),
        rtype: RecordType::A,
        server: IpAddr::V4(7),
        zone,
    };
    db.add_failure(failure(None));
    db.add_failure(failure(Some(name("example."))));
    assert_eq!(db.failed().len(), 1);
    assert_eq!(db.failed()[0].zone, None);
    assert_eq!(db.change_num(), 0);
    assert!(db.slots().is_empty());
}

#[test]
fn query_record_failure_is_given_back_and_changes_no_record() {
    let mut db = seeded();
    let slots = db.slots().len();
    let counter = db.change_num();
    let r = query_record(
        &mut db,
        IpAddr::V4(9),
        name("www.example."),
        RecordType::A,
        Some(name("example.")),
        QueryOutcome::Failed(String::from("network unreachable")),
    );
    match r {
        Err(ResolverError::Transport(text)) => assert_eq!(text, "network unreachable"),
        Ok(()) => panic!("the failure was swallowed"),
    }
    assert_eq!(db.slots().len(), slots);
    assert_eq!(db.change_num(), counter);
    assert!(db.get_records(&name("www.example.")).is_empty());
    assert!(db.targets().is_empty());
    assert!(db.delegations().is_empty());
    // but for the memory of the failed probe
    assert_eq!(db.failed().len(), 1);
    assert_eq!(db.failed()[0].name, name("www.example."));
    assert_eq!(db.failed()[0].rtype, RecordType::A);
    assert_eq!(db.failed()[0].server, IpAddr::V4(9));
    assert_eq!(db.failed()[0].zone, Some(name("example.")));
}

#[test]
fn query_record_answer_is_stored_without_a_denial() {
    let mut db = RecordDB::new();
    let response = QueryOutcome::Response(vec![Message {
        answers: vec![record("www.example.", RData::A(1)), record("www.example.", RData::A(2))],
        additionals: vec![],
        name_servers: vec![],
    }]);
    let r = query_record(
        &mut db,
        IpAddr::V4(9),
        name("www.example."),
        RecordType::A,
        Some(name("example.")),
        response,
    );
    assert!(r.is_ok());
    let records = db.get_records(&name("www.example."));
    assert_eq!(records.len(), 1);
    assert_eq!(entries(&records[0].1), vec![RData::A(1), RData::A(2)]);
    assert_eq!(db.change_num(), 2);
}

#[test]
fn query_record_empty_response_is_a_denial() {
    let mut db = RecordDB::new();
    let response = QueryOutcome::Response(vec![Message {
        answers: vec![],
        additionals: vec![],
        name_servers: vec![],
    }]);
    query_record(&mut db, IpAddr::V4(9), name("nosuch.example."), RecordType::A, None, response)
        .unwrap();
    let records = db.get_records(&name("nosuch.example."));
    assert_eq!(records.len(), 1);
    assert!(matches!(records[0].1, REntry::NoEntry));
    assert!(db.get_record_set(&name("nosuch.example."), RecordType::A).is_empty());
    // a response without any message is one too
    let mut db = RecordDB::new();
    query_record(
        &mut db,
        IpAddr::V4(9),
        name("nosuch.example."),
        RecordType::A,
        None,
        QueryOutcome::Response(vec![]),
    )
    .unwrap();
    assert!(matches!(db.get_records(&name("nosuch.example."))[0].1, REntry::NoEntry));
    assert_eq!(db.change_num(), 1);
}

#[test]
fn query_record_delegation_is_noted_and_followed() {
    let mut db = RecordDB::new();
    db.add_answer_target(&name("google.com."), RecordType::A);
    let response = QueryOutcome::Response(vec![Message {
        answers: vec![],
        additionals: vec![record("a.gtld-servers.net.", RData::A(0xc005_061e))],
        name_servers: vec![
            record("com.", RData::NS(name("a.gtld-servers.net."))),
            record("com.", RData::SOA(vec![1, 2, 3])),
        ],
    }]);
    query_record(
        &mut db,
        IpAddr::V4(9),
        name("google.com."),
        RecordType::A,
        Some(Name::root()),
        response,
    )
    .unwrap();
    // glue and authority are stored under the server that gave them
    assert_eq!(
        db.get_record_set(&name("a.gtld-servers.net."), RecordType::A),
        vec![RData::A(0xc005_061e)]
    );
    assert_eq!(
        db.get_record_set(&name("com."), RecordType::NS),
        vec![RData::NS(name("a.gtld-servers.net."))]
    );
    assert_eq!(db.get_record_set(&name("com."), RecordType::SOA), vec![RData::SOA(vec![1, 2, 3])]);
    // the delegation is noted for the name server only
    assert_eq!(db.delegations().len(), 1);
    let d = &db.delegations()[0];
    assert_eq!(d.name, name("google.com."));
    assert_eq!(d.zone, Name::root());
    assert_eq!(d.auth_zone, name("com."));
    assert_eq!(d.auth_ns, name("a.gtld-servers.net."));
    // the question is now a target for the delegated zone as well
    assert_eq!(db.targets().len(), 2);
    assert_eq!(db.targets()[1].name, name("google.com."));
    assert_eq!(db.targets()[1].rtype, RecordType::A);
    assert_eq!(db.targets()[1].zone, name("com."));
    // and the server itself had no answer
    assert!(matches!(db.get_records(&name("google.com."))[0].1, REntry::NoEntry));
    // one for the question, three records, one delegation, one target, one denial
    assert_eq!(db.change_num(), 7);
}

#[test]
fn query_record_without_zone_notes_no_delegation() {
    let mut db = RecordDB::new();
    let response = QueryOutcome::Response(vec![Message {
        answers: vec![],
        additionals: vec![],
        name_servers: vec![record("com.", RData::NS(name("a.gtld-servers.net.")))],
    }]);
    query_record(&mut db, IpAddr::V4(9), name("google.com."), RecordType::A, None, response)
        .unwrap();
    assert!(db.delegations().is_empty());
    // nor a target, as the question is not one of the caller's
    assert!(db.targets().is_empty());
    assert_eq!(db.get_record_set(&name("com."), RecordType::NS).len(), 1);
}

#[test]
fn query_record_reads_every_message() {
    let mut db = RecordDB::new();
    let response = QueryOutcome::Response(vec![
        Message {
            answers: vec![],
            additionals: vec![record("x.", RData::A(1))],
            name_servers: vec![],
        },
        Message {
            answers: vec![record("y.", RData::A(2))],
            additionals: vec![],
            name_servers: vec![],
        },
    ]);
    query_record(&mut db, IpAddr::V4(9), name("y."), RecordType::A, None, response).unwrap();
    assert_eq!(db.get_record_set(&name("x."), RecordType::A), vec![RData::A(1)]);
    assert_eq!(db.get_record_set(&name("y."), RecordType::A), vec![RData::A(2)]);
    // an answer in any message is an answer
    assert_eq!(db.get_records(&name("y.")).len(), 1);
    assert_eq!(db.change_num(), 2);
}

fn delegation_response() -> QueryOutcome {
    QueryOutcome::Response(vec![Message {
        answers: vec![record("google.com.", RData::A(7)), record("google.com.", RData::A(7))],
        additionals: vec![record("ns1.google.com.", RData::A(8))],
        name_servers: vec![
            record("google.com.", RData::NS(name("ns1.google.com."))),
            record("google.com.", RData::Unknown(4242, vec![1])),
        ],
    }])
}

#[test]
fn folding_a_response_in_again_changes_no_record_set() {
    let mut db = RecordDB::new();
    db.add_answer_target(&name("google.com."), RecordType::A);
    db.add_rentry(&name("ns1.google.com."), REntry::TimeOut, IpAddr::V4(9));
    let ask = |db: &mut RecordDB| {
        query_record(
            db,
            IpAddr::V4(9),
            name("google.com."),
            RecordType::A,
            Some(name("com.")),
            delegation_response(),
        )
        .unwrap()
    };
    ask(&mut db);
    let reads = |db: &RecordDB| {
        let mut all = Vec::new();
        for owner in ["google.com.", "ns1.google.com.", "com."] {
            for rtype in [RecordType::A, RecordType::NS, RecordType::Unknown(4242)] {
                all.push(db.get_record_set(&name(owner), rtype));
            }
        }
        all
    };
    let once = reads(&db);
    assert_eq!(once[0], vec![RData::A(7)]);
    assert_eq!(once[1], vec![RData::NS(name("ns1.google.com."))]);
    assert_eq!(once[3], vec![RData::A(8)]);
    let targets = db.targets().len();
    let delegations = db.delegations().len();
    ask(&mut db);
    assert_eq!(reads(&db), once);
    // the sets of targets and delegations do not grow either
    assert_eq!(db.targets().len(), targets);
    assert_eq!(db.delegations().len(), delegations);
    // while the store keeps the repeats
    assert_eq!(entries(&db.get_records(&name("google.com."))[0].1).len(), 8);
}

#[test]
fn folding_a_time_out_or_a_denial_in_again_changes_no_slot() {
    let mut db = RecordDB::new();
    for _ in 0..2 {
        query_record(&mut db, IpAddr::V4(1), name("a."), RecordType::A, None, QueryOutcome::Timeout)
            .unwrap();
        query_record(
            &mut db,
            IpAddr::V4(2),
            name("a."),
            RecordType::A,
            None,
            QueryOutcome::Response(vec![]),
        )
        .unwrap();
        let records = db.get_records(&name("a."));
        assert_eq!(records.len(), 2);
        assert!(matches!(records[0].1, REntry::TimeOut));
        assert!(matches!(records[1].1, REntry::NoEntry));
    }
}
