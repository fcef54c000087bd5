//! What comes back from a probe and how it is folded into the database, and
//! the root hints that start a resolution.

use vstd::prelude::*;
use crate::db::{hint_views, Query, RecordDB};
use crate::entry::REntry;
use crate::model::{has_answer, views, MessageView, OutcomeView};
use crate::name::{acceptable, label_seqs, normalized, wire_len, Name};
use crate::record::{v4_bits, v6_bits, IpAddr, Record, RecordType, RecordView};

verus! {

/// One message of a response, section by section.
#[derive(Debug)]
pub struct Message {
    pub answers: Vec<Record>,
    pub additionals: Vec<Record>,
    pub name_servers: Vec<Record>,
}

impl View for Message {
    type V = MessageView;

    open spec fn view(&self) -> MessageView {
        MessageView {
            answers: views(self.answers@),
            additionals: views(self.additionals@),
            name_servers: views(self.name_servers@),
        }
    }
}

/// How a probe ended.
#[derive(Debug)]
pub enum QueryOutcome {
    /// The server answered with these messages.
    Response(Vec<Message>),
    /// The server did not answer in time.
    Timeout,
    /// The exchange failed otherwise; the text says how.
    Failed(String),
}

impl View for QueryOutcome {
    type V = OutcomeView;

    open spec fn view(&self) -> OutcomeView {
        match self {
            QueryOutcome::Response(messages) => OutcomeView::Response(views(messages@)),
            QueryOutcome::Timeout => OutcomeView::Timeout,
            QueryOutcome::Failed(text) => OutcomeView::Failed(text@),
        }
    }
}

/// Why a probe's outcome was not folded into the database.
#[derive(Debug)]
pub enum ResolverError {
    /// The exchange with the server failed other than by a time-out.
    Transport(String),
}

/// The zone as a value.
pub open spec fn zone_view(zone: Option<Name>) -> Option<Seq<Seq<u8>>> {
    match zone {
        Some(zone) => Some(zone@),
        None => None,
    }
}

/// Folds the records into the database as given by the server at
/// `server_ip`.
fn add_records(record_db: &mut RecordDB, records: &Vec<Record>, server_ip: IpAddr)
    requires
        old(record_db)@.wf(),
    ensures
        final(record_db)@ == old(record_db)@.add_records(views(records@), server_ip),
        final(record_db)@.wf(),
{
    let ghost start = record_db@;
    let ghost all = views(records@);
    let mut i: usize = 0;
    assert(all.take(0) =~= Seq::<RecordView>::empty());
    while i < records.len()
        invariant
            i <= records.len(),
            all == views(records@),
            record_db@ == start.add_records(all.take(i as int), server_ip),
            record_db@.wf(),
        decreases records.len() - i,
    {
        assert(all[i as int] == records@[i as int]@);
        assert(all.take(i + 1).drop_last() =~= all.take(i as int));
        record_db.add_record(&records[i], server_ip);
        i += 1;
    }
    assert(all.take(i as int) =~= all);
}

/// Folds the authority section of an answer into the database.
fn add_authorities(
    record_db: &mut RecordDB,
    records: &Vec<Record>,
    server_ip: IpAddr,
    name: &Name,
    record_type: RecordType,
    zone: &Option<Name>,
)
    requires
        old(record_db)@.wf(),
    ensures
        final(record_db)@ == old(record_db)@.add_authorities(
            views(records@),
            server_ip,
            name@,
            record_type,
            zone_view(*zone),
        ),
        final(record_db)@.wf(),
{
    let ghost start = record_db@;
    let ghost all = views(records@);
    let mut i: usize = 0;
    assert(all.take(0) =~= Seq::<RecordView>::empty());
    while i < records.len()
        invariant
            i <= records.len(),
            all == views(records@),
            record_db@ == start.add_authorities(
                all.take(i as int),
                server_ip,
                name@,
                record_type,
                zone_view(*zone),
            ),
            record_db@.wf(),
        decreases records.len() - i,
    {
        let rec = &records[i];
        assert(all[i as int] == rec@);
        assert(all.take(i + 1).drop_last() =~= all.take(i as int));
        record_db.add_record(rec, server_ip);
        if let Some(ns) = rec.rdata().as_ns() {
            if let Some(zone) = zone {
                record_db.add_delegation(name, zone, rec.name(), ns);
            }
        }
        if record_db.is_answer_target(name, record_type) {
            record_db.add_target(name, record_type, rec.name());
        }
        i += 1;
    }
    assert(all.take(i as int) =~= all);
}

/// Folds the outcome of a probe into the database: of the probe that asked
/// the server at `server_ip` for `record_type` of `name`, on behalf of
/// `zone`.
///
/// A time-out is recorded as such for the server. A response is folded in
/// whole: the answers and the additional records of each message are
/// stored, and so is each record of the authority section, which also
/// notes the delegation it stands for and, where the question is one of
/// the caller's, makes the question a target for the zone that owns the
/// record. A response without any answer records the server as having
/// none. An exchange that failed otherwise is given back as the error: it
/// changes no record, target, delegation or counter, and its probe is
/// remembered as failed, so that it is not sent again.
pub fn query_record(
    record_db: &mut RecordDB,
    server_ip: IpAddr,
    name: Name,
    record_type: RecordType,
    zone: Option<Name>,
    outcome: QueryOutcome,
) -> (r: Result<(), ResolverError>)
    requires
        old(record_db)@.wf(),
    ensures
        final(record_db)@ == old(record_db)@.ingest(
            server_ip,
            name@,
            record_type,
            zone_view(zone),
            outcome@,
        ),
        final(record_db)@.wf(),
        match r {
            Ok(_) => !(outcome@ is Failed),
            Err(ResolverError::Transport(text)) => outcome@ == OutcomeView::Failed(text@),
        },
{
    let messages = match outcome {
        QueryOutcome::Timeout => {
            record_db.add_rentry(&name, REntry::TimeOut, server_ip);
            return Ok(());
        },
        QueryOutcome::Failed(text) => {
            record_db.add_failure(Query { name, rtype: record_type, server: server_ip, zone });
            return Err(ResolverError::Transport(text));
        },
        QueryOutcome::Response(messages) => messages,
    };
    let ghost start = record_db@;
    let ghost all = views(messages@);
    let mut answered = false;
    let mut i: usize = 0;
    assert(all.take(0) =~= Seq::<MessageView>::empty());
    while i < messages.len()
        invariant
            i <= messages.len(),
            all == views(messages@),
            record_db@ == start.add_messages(
                all.take(i as int),
                server_ip,
                name@,
                record_type,
                zone_view(zone),
            ),
            record_db@.wf(),
            answered == has_answer(all.take(i as int)),
        decreases messages.len() - i,
    {
        let msg = &messages[i];
        assert(all[i as int] == msg@);
        assert(all.take(i + 1).drop_last() =~= all.take(i as int));
        proof {
            lemma_has_answer_step(all.take(i + 1));
        }
        add_records(record_db, &msg.answers, server_ip);
        if msg.answers.len() > 0 {
            answered = true;
        }
        add_records(record_db, &msg.additionals, server_ip);
        add_authorities(record_db, &msg.name_servers, server_ip, &name, record_type, &zone);
        i += 1;
    }
    assert(all.take(i as int) =~= all);
    if !answered {
        record_db.add_rentry(&name, REntry::NoEntry, server_ip);
    }
    Ok(())
}

/// Messages hold an answer when the last one does or those before it do.
proof fn lemma_has_answer_step(messages: Seq<MessageView>)
    requires
        messages.len() > 0,
    ensures
        has_answer(messages) <==> has_answer(messages.drop_last()) || messages.last().answers.len()
            > 0,
{
    let front = messages.drop_last();
    if has_answer(messages) {
        let i = choose|i: int|
            0 <= i < messages.len() && (#[trigger] messages[i]).answers.len() > 0;
        if i < front.len() {
            assert(front[i].answers.len() > 0);
        }
    }
    if has_answer(front) {
        let i = choose|i: int| 0 <= i < front.len() && (#[trigger] front[i]).answers.len() > 0;
        assert(messages[i].answers.len() > 0);
    }
    if messages.last().answers.len() > 0 {
        assert(messages[messages.len() - 1].answers.len() > 0);
    }
}

/// The label `root-servers`.
pub open spec fn root_servers_label() -> Seq<u8> {
    seq![0x72, 0x6f, 0x6f, 0x74, 0x2d, 0x73, 0x65, 0x72, 0x76, 0x65, 0x72, 0x73]
}

/// The label `net`.
pub open spec fn net_label() -> Seq<u8> {
    seq![0x6e, 0x65, 0x74]
}

/// The name `<letter>.root-servers.net.`; `letter` is a lower-case ASCII
/// letter.
pub open spec fn root_server(letter: u8) -> Seq<Seq<u8>> {
    seq![seq![letter], root_servers_label(), net_label()]
}

/// The IPv4 address `a.b.c.d`.
pub open spec fn ipv4(a: u8, b: u8, c: u8, d: u8) -> IpAddr {
    IpAddr::V4(v4_bits(a, b, c, d) as u32)
}

/// The IPv6 address `a:b:c:d:e:f:g:h`.
pub open spec fn ipv6(a: u16, b: u16, c: u16, d: u16, e: u16, f: u16, g: u16, h: u16) -> IpAddr {
    IpAddr::V6(v6_bits(a, b, c, d, e, f, g, h) as u128)
}

/// The root hints: the thirteen root servers `a` to `m`, each with its IPv4
/// and its IPv6 address.
pub open spec fn root_hint_table() -> Seq<(Seq<Seq<u8>>, IpAddr)> {
    seq![
        (root_server(0x61), ipv4(198, 41, 0, 4)),
        (root_server(0x61), ipv6(0x2001, 0x503, 0xba3e, 0, 0, 0, 0x2, 0x30)),
        (root_server(0x62), ipv4(170, 247, 170, 2)),
        (root_server(0x62), ipv6(0x2801, 0x1b8, 0x10, 0, 0, 0, 0, 0xb)),
        (root_server(0x63), ipv4(192, 33, 4, 12)),
        (root_server(0x63), ipv6(0x2001, 0x500, 0x2, 0, 0, 0, 0, 0xc)),
        (root_server(0x64), ipv4(199, 7, 91, 13)),
        (root_server(0x64), ipv6(0x2001, 0x500, 0x2d, 0, 0, 0, 0, 0xd)),
        (root_server(0x65), ipv4(192, 203, 230, 10)),
        (root_server(0x65), ipv6(0x2001, 0x500, 0xa8, 0, 0, 0, 0, 0xe)),
        (root_server(0x66), ipv4(192, 5, 5, 241)),
        (root_server(0x66), ipv6(0x2001, 0x500, 0x2f, 0, 0, 0, 0, 0xf)),
        (root_server(0x67), ipv4(192, 112, 36, 4)),
        (root_server(0x67), ipv6(0x2001, 0x500, 0x12, 0, 0, 0, 0, 0xd0d)),
        (root_server(0x68), ipv4(198, 97, 190, 53)),
        (root_server(0x68), ipv6(0x2001, 0x500, 0x1, 0, 0, 0, 0, 0x53)),
        (root_server(0x69), ipv4(192, 36, 148, 17)),
        (root_server(0x69), ipv6(0x2001, 0x7fe, 0, 0, 0, 0, 0, 0x53)),
        (root_server(0x6a), ipv4(192, 58, 128, 30)),
        (root_server(0x6a), ipv6(0x2001, 0x503, 0xc27, 0, 0, 0, 0x2, 0x30)),
        (root_server(0x6b), ipv4(193, 0, 14, 129)),
        (root_server(0x6b), ipv6(0x2001, 0x7fd, 0, 0, 0, 0, 0, 0x1)),
        (root_server(0x6c), ipv4(199, 7, 83, 42)),
        (root_server(0x6c), ipv6(0x2001, 0x500, 0x9f, 0, 0, 0, 0, 0x42)),
        (root_server(0x6d), ipv4(202, 12, 27, 33)),
        (root_server(0x6d), ipv6(0x2001, 0xdc3, 0, 0, 0, 0, 0, 0x35)),
    ]
}

/// The name of the root server with the given letter.
fn root_server_name(letter: u8) -> (r: Name)
    requires
        0x61 <= letter <= 0x7a,
    ensures
        r@ == root_server(letter),
{
    let first: Vec<u8> = vec![letter];
    let second: Vec<u8> = vec![
        0x72, 0x6f, 0x6f, 0x74, 0x2d, 0x73, 0x65, 0x72, 0x76, 0x65, 0x72, 0x73,
    ];
    let third: Vec<u8> = vec![0x6e, 0x65, 0x74];
    let labels: Vec<Vec<u8>> = vec![first, second, third];
    let ghost given = label_seqs(labels);
    assert(first@ =~= seq![letter]);
    assert(second@ =~= root_servers_label());
    assert(third@ =~= net_label());
    assert(given.len() == 3 && given[0] == first@ && given[1] == second@ && given[2] == third@);
    assert(given =~= root_server(letter));
    assert(acceptable(given)) by {
        reveal_with_fuel(wire_len, 4);
    }
    assert(normalized(given) =~= given) by {
        assert forall|i: int| 0 <= i < given.len() implies #[trigger] normalized(given)[i]
            =~= given[i] by {}
    }
    Name::from_labels(labels).unwrap()
}

/// Adds the two hints of one root server.
fn push_root_server(hints: &mut Vec<(Name, IpAddr)>, letter: u8, v4: IpAddr, v6: IpAddr)
    requires
        0x61 <= letter <= 0x7a,
    ensures
        hint_views(final(hints)@) == hint_views(old(hints)@).push((root_server(letter), v4)).push(
            (root_server(letter), v6),
        ),
{
    let ghost before = hint_views(hints@);
    hints.push((root_server_name(letter), v4));
    hints.push((root_server_name(letter), v6));
    assert(hint_views(hints@) =~= before.push((root_server(letter), v4)).push(
        (root_server(letter), v6),
    ));
}

/// The root hints: the thirteen root servers, each with its IPv4 and its
/// IPv6 address, in the order of their letters.
pub fn root_hints() -> (r: Vec<(Name, IpAddr)>)
    ensures
        hint_views(r@) == root_hint_table(),
{
    let mut hints: Vec<(Name, IpAddr)> = Vec::new();
    push_root_server(
        &mut hints,
        0x61,
        IpAddr::v4(198, 41, 0, 4),
        IpAddr::v6(0x2001, 0x503, 0xba3e, 0, 0, 0, 0x2, 0x30),
    );
    push_root_server(
        &mut hints,
        0x62,
        IpAddr::v4(170, 247, 170, 2),
        IpAddr::v6(0x2801, 0x1b8, 0x10, 0, 0, 0, 0, 0xb),
    );
    push_root_server(
        &mut hints,
        0x63,
        IpAddr::v4(192, 33, 4, 12),
        IpAddr::v6(0x2001, 0x500, 0x2, 0, 0, 0, 0, 0xc),
    );
    push_root_server(
        &mut hints,
        0x64,
        IpAddr::v4(199, 7, 91, 13),
        IpAddr::v6(0x2001, 0x500, 0x2d, 0, 0, 0, 0, 0xd),
    );
    push_root_server(
        &mut hints,
        0x65,
        IpAddr::v4(192, 203, 230, 10),
        IpAddr::v6(0x2001, 0x500, 0xa8, 0, 0, 0, 0, 0xe),
    );
    push_root_server(
        &mut hints,
        0x66,
        IpAddr::v4(192, 5, 5, 241),
        IpAddr::v6(0x2001, 0x500, 0x2f, 0, 0, 0, 0, 0xf),
    );
    push_root_server(
        &mut hints,
        0x67,
        IpAddr::v4(192, 112, 36, 4),
        IpAddr::v6(0x2001, 0x500, 0x12, 0, 0, 0, 0, 0xd0d),
    );
    push_root_server(
        &mut hints,
        0x68,
        IpAddr::v4(198, 97, 190, 53),
        IpAddr::v6(0x2001, 0x500, 0x1, 0, 0, 0, 0, 0x53),
    );
    push_root_server(
        &mut hints,
        0x69,
        IpAddr::v4(192, 36, 148, 17),
        IpAddr::v6(0x2001, 0x7fe, 0, 0, 0, 0, 0, 0x53),
    );
    push_root_server(
        &mut hints,
        0x6a,
        IpAddr::v4(192, 58, 128, 30),
        IpAddr::v6(0x2001, 0x503, 0xc27, 0, 0, 0, 0x2, 0x30),
    );
    push_root_server(
        &mut hints,
        0x6b,
        IpAddr::v4(193, 0, 14, 129),
        IpAddr::v6(0x2001, 0x7fd, 0, 0, 0, 0, 0, 0x1),
    );
    push_root_server(
        &mut hints,
        0x6c,
        IpAddr::v4(199, 7, 83, 42),
        IpAddr::v6(0x2001, 0x500, 0x9f, 0, 0, 0, 0, 0x42),
    );
    push_root_server(
        &mut hints,
        0x6d,
        IpAddr::v4(202, 12, 27, 33),
        IpAddr::v6(0x2001, 0xdc3, 0, 0, 0, 0, 0, 0x35),
    );
    assert(hint_views(hints@) =~= root_hint_table());
    hints
}

} // verus!
