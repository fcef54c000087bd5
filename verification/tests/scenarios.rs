use iterdns::db::{Query, RecordDB};
use iterdns::dns::{root_hints, Message, QueryOutcome};
use iterdns::entry::{REntry, RServer};
use iterdns::name::Name;
use iterdns::record::{IpAddr, RData, Record, RecordType};

fn name(text: &str) -> Name {
    let labels: Vec<Vec<u8>> = text
        .split('.')
        .filter(|l| !l.is_empty())
        .map(|l| l.as_bytes().to_vec())
        .collect();
    Name::from_labels(labels).unwrap()
}

fn record(owner: &str, rdata: RData) -> Record {
    Record { name: name(owner), rdata }
}

const COM_SERVER: u32 = 0xc005_061e;
const GOOGLE_SERVER: u32 = 0xd8ef_200a;
const GOOGLE_ADDRESS: u32 = 0x8efa_0001;
const A_ROOT: u32 = 0xc629_0004;

fn is_root_server(ip: IpAddr) -> bool {
    root_hints().iter().any(|hint| hint.1 == ip)
}

fn referral(zone: &str, ns: &str, glue: u32) -> QueryOutcome {
    QueryOutcome::Response(vec![Message {
        answers: vec![],
        additionals: vec![record(ns, RData::A(glue))],
        name_servers: vec![record(zone, RData::NS(name(ns)))],
    }])
}

fn empty_response() -> QueryOutcome {
    QueryOutcome::Response(vec![Message {
        answers: vec![],
        additionals: vec![],
        name_servers: vec![],
    }])
}

/// A small world: the roots delegate `com.`, `com.` delegates
/// `google.com.`, and the name server of `google.com.` knows its address.
fn world(q: &Query) -> QueryOutcome {
    if is_root_server(q.server) {
        if name("com.").zone_of(&q.name) {
            referral("com.", "a.gtld-servers.net.", COM_SERVER)
        } else {
            empty_response()
        }
    } else if q.server == IpAddr::V4(COM_SERVER) {
        referral("google.com.", "ns1.google.com.", GOOGLE_SERVER)
    } else if q.server == IpAddr::V4(GOOGLE_SERVER) {
        QueryOutcome::Response(vec![Message {
            answers: vec![record("google.com.", RData::A(GOOGLE_ADDRESS))],
            additionals: vec![],
            name_servers: vec![],
        }])
    } else {
        QueryOutcome::Failed(String::from("no such server"))
    }
}

/// Runs the action loop against a transport; gives the probes it sent.
fn drive(db: &mut RecordDB, transport: &dyn Fn(&Query) -> QueryOutcome) -> Vec<(Name, IpAddr)> {
    let mut sent = Vec::new();
    let mut next = db.action_loop(None);
    while let Some(q) = next {
        assert!(sent.len() < 1000, "the loop does not end");
        sent.push((q.name.clone(), q.server));
        let outcome = transport(&q);
        next = db.action_loop(Some((q, outcome)));
    }
    sent
}

#[test]
fn unseeded_store_ends_at_once() {
    let mut db = RecordDB::new();
    let sent = drive(&mut db, &world);
    assert!(sent.is_empty());
    assert_eq!(db.change_num(), 0);
    // a question alone does not help: there is nobody to ask
    db.add_answer_target(&name("google.com."), RecordType::A);
    let sent = drive(&mut db, &world);
    assert!(sent.is_empty());
    assert_eq!(db.change_num(), 1);
    assert!(db.slots().is_empty());
}

#[test]
fn bootstrap_only() {
    let mut db = RecordDB::new();
    db.add_root_hints(root_hints());
    let sent = drive(&mut db, &world);
    assert!(sent.is_empty());
    assert_eq!(db.get_record_set(&Name::root(), RecordType::NS).len(), 13);
    assert_eq!(db.change_num(), 0);
}

#[test]
fn single_level_resolution() {
    let mut db = RecordDB::new();
    db.add_root_hints(root_hints());
    db.add_answer_target(&name("google.com."), RecordType::A);
    let sent = drive(&mut db, &world);
    assert_eq!(
        db.get_record_set(&name("google.com."), RecordType::A),
        vec![RData::A(GOOGLE_ADDRESS)]
    );
    // the thirteen roots, then the server of com., then that of google.com.
    assert_eq!(sent.len(), 15);
    assert!(sent[..13].iter().all(|p| is_root_server(p.1)));
    assert_eq!(sent[0].1, IpAddr::V4(A_ROOT));
    assert_eq!(sent[13].1, IpAddr::V4(COM_SERVER));
    assert_eq!(sent[14].1, IpAddr::V4(GOOGLE_SERVER));
    assert!(sent.iter().all(|p| p.0 == name("google.com.")));
    // the ledger shows the walk
    let has = |zone: &Name, auth_zone: &Name| {
        db.delegations()
            .iter()
            .any(|d| d.name == name("google.com.") && &d.zone == zone && &d.auth_zone == auth_zone)
    };
    assert!(has(&Name::root(), &name("com.")));
    assert!(has(&name("com."), &name("google.com.")));
    assert_eq!(db.delegations().len(), 2);
    // and so do the targets
    let zones: Vec<Name> = db.targets().iter().map(|t| t.zone.clone()).collect();
    assert_eq!(zones, vec![Name::root(), name("com."), name("google.com.")]);
    assert!(db.query_queue().is_empty());
}

#[test]
fn timeout_absorption() {
    let mut db = RecordDB::new();
    db.add_root_hints(root_hints());
    db.add_answer_target(&name("google.com."), RecordType::A);
    let flaky = |q: &Query| {
        if q.server == IpAddr::V4(A_ROOT) {
            QueryOutcome::Timeout
        } else {
            world(q)
        }
    };
    let sent = drive(&mut db, &flaky);
    assert_eq!(sent.len(), 15);
    let records = db.get_records(&name("google.com."));
    let slot = records.iter().find(|r| r.0 == RServer::V4(A_ROOT)).unwrap();
    assert!(matches!(slot.1, REntry::TimeOut));
    // the other roots answered, with nothing for the name itself
    assert_eq!(records.iter().filter(|r| matches!(r.1, REntry::NoEntry)).count(), 12);
    // the server of com. gave the delegation, that of google.com. the answer
    assert_eq!(records.len(), 15);
    assert_eq!(
        db.get_record_set(&name("google.com."), RecordType::A),
        vec![RData::A(GOOGLE_ADDRESS)]
    );
}

#[test]
fn all_servers_time_out() {
    let mut db = RecordDB::new();
    db.add_root_hints(root_hints());
    db.add_answer_target(&name("google.com."), RecordType::A);
    let dead = |_: &Query| QueryOutcome::Timeout;
    let sent = drive(&mut db, &dead);
    assert_eq!(sent.len(), 13);
    let records = db.get_records(&name("google.com."));
    assert_eq!(records.len(), 13);
    assert!(records.iter().all(|r| matches!(r.1, REntry::TimeOut)));
    assert!(db.get_record_set(&name("google.com."), RecordType::A).is_empty());
}

#[test]
fn nxdomain() {
    let mut db = RecordDB::new();
    db.add_root_hints(root_hints());
    db.add_answer_target(&name("nosuch.example."), RecordType::A);
    let sent = drive(&mut db, &world);
    assert_eq!(sent.len(), 13);
    let records = db.get_records(&name("nosuch.example."));
    assert_eq!(records.len(), 13);
    assert!(records.iter().all(|r| matches!(r.1, REntry::NoEntry)));
    assert!(db.get_record_set(&name("nosuch.example."), RecordType::A).is_empty());
    assert!(db.delegations().is_empty());
    assert_eq!(db.targets().len(), 1);
}

#[test]
fn closest_domain() {
    let mut db = RecordDB::new();
    let server = IpAddr::V4(1);
    db.add_record(&record(".", RData::NS(name("a.root-servers.net."))), server);
    db.add_record(&record("com.", RData::NS(name("a.gtld-servers.net."))), server);
    db.add_record(&record("google.com.", RData::NS(name("ns1.google.com."))), server);
    assert_eq!(db.find_closest_domain(&name("mail.google.com.")), name("google.com."));
}

#[test]
fn closest_domain_after_resolution() {
    let mut db = RecordDB::new();
    db.add_root_hints(root_hints());
    db.add_answer_target(&name("google.com."), RecordType::A);
    drive(&mut db, &world);
    assert_eq!(db.find_closest_domain(&name("mail.google.com.")), name("google.com."));
    assert_eq!(db.find_closest_domain(&name("example.com.")), name("com."));
    assert_eq!(db.find_closest_domain(&name("example.org.")), Name::root());
}

#[test]
fn fixed_point() {
    let mut db = RecordDB::new();
    db.add_root_hints(root_hints());
    db.add_answer_target(&name("google.com."), RecordType::A);
    let sent = drive(&mut db, &world);
    assert!(!sent.is_empty());
    let counter = db.change_num();
    let slots = db.slots().len();
    let sent = drive(&mut db, &world);
    assert!(sent.is_empty());
    assert_eq!(db.change_num(), counter);
    assert_eq!(db.slots().len(), slots);
}

#[test]
fn failed_exchange_is_fatal_for_its_probe_only() {
    let mut db = RecordDB::new();
    db.add_root_hints(root_hints());
    db.add_answer_target(&name("google.com."), RecordType::A);
    let broken = |q: &Query| {
        if q.server == IpAddr::V4(A_ROOT) {
            QueryOutcome::Failed(String::from("malformed reply"))
        } else {
            world(q)
        }
    };
    let sent = drive(&mut db, &broken);
    // the probe that failed is sent once and never again
    assert_eq!(sent.len(), 15);
    assert_eq!(sent.iter().filter(|p| p.1 == IpAddr::V4(A_ROOT)).count(), 1);
    assert!(db.get_records(&name("google.com.")).iter().all(|r| r.0 != RServer::V4(A_ROOT)));
    assert_eq!(db.failed().len(), 1);
    assert_eq!(db.failed()[0].name, name("google.com."));
    assert_eq!(db.failed()[0].rtype, RecordType::A);
    assert_eq!(db.failed()[0].server, IpAddr::V4(A_ROOT));
    assert_eq!(
        db.get_record_set(&name("google.com."), RecordType::A),
        vec![RData::A(GOOGLE_ADDRESS)]
    );
    // and the loop is at its fixed point
    assert!(drive(&mut db, &broken).is_empty());
}

#[test]
fn all_exchanges_fail() {
    let mut db = RecordDB::new();
    db.add_root_hints(root_hints());
    db.add_answer_target(&name("google.com."), RecordType::A);
    let broken = |_: &Query| QueryOutcome::Failed(String::from("network unreachable"));
    let sent = drive(&mut db, &broken);
    assert_eq!(sent.len(), 13);
    assert_eq!(db.failed().len(), 13);
    assert!(db.get_records(&name("google.com.")).is_empty());
    assert!(db.query_queue().is_empty());
}

#[test]
fn timed_out_server_is_not_asked_again() {
    let mut db = RecordDB::new();
    db.add_root_hints(root_hints());
    db.add_answer_target(&name("google.com."), RecordType::A);
    let flaky = |q: &Query| {
        if q.server == IpAddr::V4(A_ROOT) {
            QueryOutcome::Timeout
        } else {
            world(q)
        }
    };
    let sent = drive(&mut db, &flaky);
    assert_eq!(sent.iter().filter(|p| p.1 == IpAddr::V4(A_ROOT)).count(), 1);
    // the same answer as without the time-out
    let mut plain = RecordDB::new();
    plain.add_root_hints(root_hints());
    plain.add_answer_target(&name("google.com."), RecordType::A);
    drive(&mut plain, &world);
    assert_eq!(
        db.get_record_set(&name("google.com."), RecordType::A),
        plain.get_record_set(&name("google.com."), RecordType::A)
    );
}

#[test]
fn two_questions_share_the_walk() {
    let mut db = RecordDB::new();
    db.add_root_hints(root_hints());
    db.add_answer_target(&name("google.com."), RecordType::A);
    db.add_answer_target(&name("google.com."), RecordType::AAAA);
    let sent = drive(&mut db, &world);
    // both questions go to every server
    assert_eq!(sent.len(), 30);
    assert_eq!(db.targets().len(), 6);
    assert_eq!(
        db.get_record_set(&name("google.com."), RecordType::A),
        vec![RData::A(GOOGLE_ADDRESS)]
    );
}
