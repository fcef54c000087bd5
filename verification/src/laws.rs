//! What holds of the database whatever is done to it.

use vstd::prelude::*;
use crate::entry::{server_of, REntryView, RServer};
use crate::model::{
    closest_zone, entries_of, has_answer, has_slot, hint_rdata, insertion_point, is_queued, key_lt,
    lemma_closest_depth, lemma_distinct_of_type, lemma_enqueue_all, lemma_key_lt_irreflexive,
    lemma_key_lt_transitive, lemma_push_keeps, lemma_slot_entry_at, lemma_slot_entry_drop_last,
    lemma_slot_position, lemma_upsert_entry, lemma_upsert_sorted, lemma_upsert_sound, planned,
    probes_for, probes_to, probes_via, record_set, root_name, same_probe, slot_entry, sorted,
    sound_slot, upsert, wanted, AnswerTargetView, DelegationView, MessageView, NameView,
    OutcomeView, QueryView, RecordDBView, SlotView, TargetView,
};
use crate::name::is_zone_of;
use crate::reingest::{covers_message, holds, lemma_messages_covered, lemma_upsert_keeps};
use crate::record::{IpAddr, RDataView, RecordType, RecordView};

verus! {

/// One use of the database's interface, with its arguments.
pub enum Op {
    AddRootHints(Seq<(NameView, IpAddr)>),
    AddRecord(RecordView, IpAddr),
    /// `add_rentry` with `TimeOut`.
    AddTimeOut(NameView, IpAddr),
    /// `add_rentry` with `NoEntry`.
    AddNoEntry(NameView, IpAddr),
    AddDelegation(DelegationView),
    AddAnswerTarget(NameView, RecordType),
    AddTarget(TargetView),
    GenerateQueries,
    QueryRecord(IpAddr, NameView, RecordType, Option<NameView>, OutcomeView),
    PerformQueries(Option<(QueryView, OutcomeView)>),
    ActionLoop(Option<(QueryView, OutcomeView)>),
}

/// The database after the operation.
pub open spec fn apply(db: RecordDBView, op: Op) -> RecordDBView {
    match op {
        Op::AddRootHints(hints) => db.add_root_hints(hints),
        Op::AddRecord(record, ip) => db.add_record(record, ip),
        Op::AddTimeOut(name, ip) => db.add_rentry(name, REntryView::TimeOut, ip),
        Op::AddNoEntry(name, ip) => db.add_rentry(name, REntryView::NoEntry, ip),
        Op::AddDelegation(delegation) => db.add_delegation(delegation),
        Op::AddAnswerTarget(name, rtype) => db.add_answer_target(name, rtype),
        Op::AddTarget(target) => db.add_target(target),
        Op::GenerateQueries => db.generate_queries(),
        Op::QueryRecord(ip, name, rtype, zone, outcome) => db.ingest(
            ip,
            name,
            rtype,
            zone,
            outcome,
        ),
        Op::PerformQueries(answered) => db.perform_queries(answered).0,
        Op::ActionLoop(answered) => db.action_loop(answered).0,
    }
}

/// The database that the operations make of an empty one.
pub open spec fn run(ops: Seq<Op>) -> RecordDBView
    decreases ops.len(),
{
    if ops.len() == 0 {
        RecordDBView::empty()
    } else {
        apply(run(ops.drop_last()), ops.last())
    }
}

/// A sequence without repeats stays so when an item that it lacks joins it.
pub proof fn lemma_push_distinct<T>(items: Seq<T>, item: T)
    requires
        items.no_duplicates(),
        !items.contains(item),
    ensures
        items.push(item).no_duplicates(),
{
    let after = items.push(item);
    assert forall|i: int, j: int|
        0 <= i < after.len() && 0 <= j < after.len() && i != j implies after[i] != after[j] by {
        if i < items.len() && j < items.len() {
            assert(items[i] != items[j]);
        } else if i < items.len() {
            assert(items.contains(after[i]));
        } else if j < items.len() {
            assert(items.contains(after[j]));
        }
    }
}

/// Folding an observation into the record store keeps the invariant, as
/// long as data is one piece or more and nothing but data goes under
/// `Hint`.
pub proof fn lemma_fold_keeps_invariant(
    db: RecordDBView,
    name: NameView,
    server: RServer,
    received: REntryView,
)
    requires
        db.wf(),
        sound_slot(SlotView { name, server, entry: received }),
    ensures
        db.with_slots(upsert(db.slots, name, server, received)).wf(),
{
    lemma_upsert_sorted(db.slots, name, server, received);
    lemma_upsert_sound(db.slots, name, server, received);
}

proof fn lemma_root_hints(db: RecordDBView, hints: Seq<(NameView, IpAddr)>)
    requires
        db.wf(),
    ensures
        db.add_root_hints(hints).wf(),
        db.add_root_hints(hints).change_num == db.change_num,
    decreases hints.len(),
{
    if hints.len() > 0 {
        lemma_root_hints(db, hints.drop_last());
        let before = db.add_root_hints(hints.drop_last());
        let name = hints.last().0;
        let received = REntryView::Entries(seq![hint_rdata(hints.last().1)]);
        lemma_fold_keeps_invariant(before, name, RServer::Hint, received);
        let middle = before.with_slots(upsert(before.slots, name, RServer::Hint, received));
        lemma_fold_keeps_invariant(
            middle,
            root_name(),
            RServer::Hint,
            REntryView::Entries(seq![RDataView::NS(name)]),
        );
    }
}

proof fn lemma_delegation(db: RecordDBView, delegation: DelegationView)
    requires
        db.wf(),
    ensures
        db.add_delegation(delegation).wf(),
{
    if !db.delegations.contains(delegation) {
        lemma_push_distinct(db.delegations, delegation);
    }
}

proof fn lemma_target(db: RecordDBView, target: TargetView)
    requires
        db.wf(),
    ensures
        db.add_target(target).wf(),
{
    lemma_push_keeps(db, target);
}

proof fn lemma_answer_target(db: RecordDBView, name: NameView, rtype: RecordType)
    requires
        db.wf(),
    ensures
        db.add_answer_target(name, rtype).wf(),
        db.add_answer_target(name, rtype).answer_targets.contains(AnswerTargetView { name, rtype }),
        db.add_answer_target(name, rtype).targets.contains(
            TargetView { name, rtype, zone: root_name() },
        ),
{
    let answer = AnswerTargetView { name, rtype };
    let target = TargetView { name, rtype, zone: root_name() };
    let after = db.add_answer_target(name, rtype);
    lemma_push_keeps(db, target);
    if !db.targets.contains(target) {
        assert(after.targets[after.targets.len() - 1] == target);
    }
    if !db.answer_targets.contains(answer) {
        lemma_push_distinct(db.answer_targets, answer);
        assert(after.answer_targets[after.answer_targets.len() - 1] == answer);
    }
    assert forall|i: int| 0 <= i < after.answer_targets.len() implies after.targets.contains(
        TargetView {
            name: (#[trigger] after.answer_targets[i]).name,
            rtype: after.answer_targets[i].rtype,
            zone: root_name(),
        },
    ) by {
        if i < db.answer_targets.len() {
            assert(after.answer_targets[i] == db.answer_targets[i]);
        }
    }
}

proof fn lemma_records(db: RecordDBView, records: Seq<RecordView>, ip: IpAddr)
    requires
        db.wf(),
    ensures
        db.add_records(records, ip).wf(),
        db.add_records(records, ip).change_num >= db.change_num,
    decreases records.len(),
{
    if records.len() > 0 {
        lemma_records(db, records.drop_last(), ip);
        lemma_fold_keeps_invariant(
            db.add_records(records.drop_last(), ip),
            records.last().name,
            server_of(ip),
            REntryView::Entries(seq![records.last().rdata]),
        );
    }
}

proof fn lemma_authority(
    db: RecordDBView,
    record: RecordView,
    ip: IpAddr,
    name: NameView,
    rtype: RecordType,
    zone: Option<NameView>,
)
    requires
        db.wf(),
    ensures
        db.add_authority(record, ip, name, rtype, zone).wf(),
        db.add_authority(record, ip, name, rtype, zone).change_num >= db.change_num,
{
    lemma_fold_keeps_invariant(
        db,
        record.name,
        server_of(ip),
        REntryView::Entries(seq![record.rdata]),
    );
    let stored = db.add_record(record, ip);
    let noted = match (record.rdata.ns_target(), zone) {
        (Some(auth_ns), Some(zone)) => stored.add_delegation(
            DelegationView { name, zone, auth_zone: record.name, auth_ns },
        ),
        _ => stored,
    };
    if record.rdata.ns_target() is Some && zone is Some {
        lemma_delegation(
            stored,
            DelegationView {
                name,
                zone: zone->0,
                auth_zone: record.name,
                auth_ns: record.rdata.ns_target()->0,
            },
        );
    }
    lemma_target(noted, TargetView { name, rtype, zone: record.name });
}

proof fn lemma_authorities(
    db: RecordDBView,
    records: Seq<RecordView>,
    ip: IpAddr,
    name: NameView,
    rtype: RecordType,
    zone: Option<NameView>,
)
    requires
        db.wf(),
    ensures
        db.add_authorities(records, ip, name, rtype, zone).wf(),
        db.add_authorities(records, ip, name, rtype, zone).change_num >= db.change_num,
    decreases records.len(),
{
    if records.len() > 0 {
        lemma_authorities(db, records.drop_last(), ip, name, rtype, zone);
        lemma_authority(
            db.add_authorities(records.drop_last(), ip, name, rtype, zone),
            records.last(),
            ip,
            name,
            rtype,
            zone,
        );
    }
}

proof fn lemma_messages(
    db: RecordDBView,
    messages: Seq<MessageView>,
    ip: IpAddr,
    name: NameView,
    rtype: RecordType,
    zone: Option<NameView>,
)
    requires
        db.wf(),
    ensures
        db.add_messages(messages, ip, name, rtype, zone).wf(),
        db.add_messages(messages, ip, name, rtype, zone).change_num >= db.change_num,
    decreases messages.len(),
{
    if messages.len() > 0 {
        lemma_messages(db, messages.drop_last(), ip, name, rtype, zone);
        let before = db.add_messages(messages.drop_last(), ip, name, rtype, zone);
        let message = messages.last();
        lemma_records(before, message.answers, ip);
        let answered = before.add_records(message.answers, ip);
        lemma_records(answered, message.additionals, ip);
        lemma_authorities(
            answered.add_records(message.additionals, ip),
            message.name_servers,
            ip,
            name,
            rtype,
            zone,
        );
    }
}

proof fn lemma_ingest(
    db: RecordDBView,
    ip: IpAddr,
    name: NameView,
    rtype: RecordType,
    zone: Option<NameView>,
    outcome: OutcomeView,
)
    requires
        db.wf(),
    ensures
        db.ingest(ip, name, rtype, zone, outcome).wf(),
        db.ingest(ip, name, rtype, zone, outcome).change_num >= db.change_num,
{
    match outcome {
        OutcomeView::Timeout => {
            lemma_fold_keeps_invariant(db, name, server_of(ip), REntryView::TimeOut);
        },
        OutcomeView::Failed(_) => {},
        OutcomeView::Response(messages) => {
            lemma_messages(db, messages, ip, name, rtype, zone);
            lemma_fold_keeps_invariant(
                db.add_messages(messages, ip, name, rtype, zone),
                name,
                server_of(ip),
                REntryView::NoEntry,
            );
        },
    }
}

proof fn lemma_answered(db: RecordDBView, answered: Option<(QueryView, OutcomeView)>)
    requires
        db.wf(),
    ensures
        db.answered(answered).wf(),
        db.answered(answered).change_num >= db.change_num,
{
    if let Some((probe, outcome)) = answered {
        lemma_ingest(db, probe.server, probe.name, probe.rtype, probe.zone, outcome);
    }
}

/// Every operation keeps the invariant of the database.
pub proof fn lemma_step_keeps_invariant(db: RecordDBView, op: Op)
    requires
        db.wf(),
    ensures
        apply(db, op).wf(),
{
    match op {
        Op::AddRootHints(hints) => {
            lemma_root_hints(db, hints);
        },
        Op::AddRecord(record, ip) => {
            lemma_fold_keeps_invariant(
                db,
                record.name,
                server_of(ip),
                REntryView::Entries(seq![record.rdata]),
            );
        },
        Op::AddTimeOut(name, ip) => {
            lemma_fold_keeps_invariant(db, name, server_of(ip), REntryView::TimeOut);
        },
        Op::AddNoEntry(name, ip) => {
            lemma_fold_keeps_invariant(db, name, server_of(ip), REntryView::NoEntry);
        },
        Op::AddDelegation(delegation) => {
            lemma_delegation(db, delegation);
        },
        Op::AddAnswerTarget(name, rtype) => {
            lemma_answer_target(db, name, rtype);
        },
        Op::AddTarget(target) => {
            lemma_target(db, target);
        },
        Op::GenerateQueries => {
            lemma_enqueue_all(db, planned(db.slots, db.targets));
        },
        Op::QueryRecord(ip, name, rtype, zone, outcome) => {
            lemma_ingest(db, ip, name, rtype, zone, outcome);
        },
        Op::PerformQueries(answered) => {
            lemma_answered(db, answered);
        },
        Op::ActionLoop(answered) => {
            lemma_answered(db, answered);
            let folded = db.answered(answered);
            lemma_enqueue_all(folded, planned(folded.slots, folded.targets));
        },
    }
}

/// No operation lets the change counter go back.
pub proof fn lemma_counter_never_goes_back(db: RecordDBView, op: Op)
    requires
        db.wf(),
    ensures
        apply(db, op).change_num >= db.change_num,
{
    match op {
        Op::AddRootHints(hints) => {
            lemma_root_hints(db, hints);
        },
        Op::QueryRecord(ip, name, rtype, zone, outcome) => {
            lemma_ingest(db, ip, name, rtype, zone, outcome);
        },
        Op::PerformQueries(answered) => {
            lemma_answered(db, answered);
        },
        Op::ActionLoop(answered) => {
            lemma_answered(db, answered);
            let folded = db.answered(answered);
            lemma_enqueue_all(folded, planned(folded.slots, folded.targets));
        },
        Op::GenerateQueries => {
            lemma_enqueue_all(db, planned(db.slots, db.targets));
        },
        _ => {},
    }
}

/// Whatever operations have made a database of an empty one, its invariant
/// holds: every slot under `Hint` holds data, one piece or more, and every
/// question of the caller is a target with the root as its zone.
pub proof fn lemma_reachable(ops: Seq<Op>)
    ensures
        run(ops).wf(),
        forall|i: int|
            0 <= i < run(ops).slots.len() && (#[trigger] run(ops).slots[i]).server is Hint ==> (
            match run(ops).slots[i].entry {
                REntryView::Entries(items) => items.len() > 0,
                _ => false,
            }),
        forall|name: NameView, rtype: RecordType| #[trigger]
            run(ops).is_answer_target(name, rtype) ==> run(ops).targets.contains(
                TargetView { name, rtype, zone: root_name() },
            ),
    decreases ops.len(),
{
    if ops.len() > 0 {
        lemma_reachable(ops.drop_last());
        lemma_step_keeps_invariant(run(ops.drop_last()), ops.last());
    }
    let db = run(ops);
    assert forall|i: int|
        0 <= i < db.slots.len() && (#[trigger] db.slots[i]).server is Hint implies (
    match db.slots[i].entry {
        REntryView::Entries(items) => items.len() > 0,
        _ => false,
    }) by {
        assert(sound_slot(db.slots[i]));
    }
    assert forall|name: NameView, rtype: RecordType| #[trigger]
        db.is_answer_target(name, rtype) implies db.targets.contains(
        TargetView { name, rtype, zone: root_name() },
    ) by {
        let answer = AnswerTargetView { name, rtype };
        let i = choose|i: int| 0 <= i < db.answer_targets.len() && db.answer_targets[i] == answer;
        assert(db.answer_targets[i].name == name);
    }
}

/// The change counter never goes back: what it is after some operations,
/// it is at least after more.
pub proof fn lemma_counter_monotone(ops: Seq<Op>, n: int)
    requires
        0 <= n <= ops.len(),
    ensures
        run(ops.take(n)).change_num <= run(ops).change_num,
    decreases ops.len(),
{
    if n < ops.len() {
        lemma_counter_monotone(ops.drop_last(), n);
        assert(ops.drop_last().take(n) =~= ops.take(n));
        lemma_reachable(ops.drop_last());
        lemma_counter_never_goes_back(run(ops.drop_last()), ops.last());
    } else {
        assert(ops.take(n) =~= ops);
    }
}

/// A record set holds data of the type asked for and of no other, each
/// piece once; and it holds a piece exactly when some server gave it for
/// the name and its type is in the closed set.
pub proof fn lemma_record_set(slots: Seq<SlotView>, name: NameView, rtype: RecordType)
    ensures
        record_set(slots, name, rtype).no_duplicates(),
        forall|i: int|
            0 <= i < record_set(slots, name, rtype).len() ==> (#[trigger] record_set(
                slots,
                name,
                rtype,
            )[i]).record_type() == rtype,
        forall|x: RDataView| #[trigger]
            record_set(slots, name, rtype).contains(x) <==> entries_of(slots, name).contains(x)
                && wanted(x, rtype),
{
    lemma_distinct_of_type(entries_of(slots, name), rtype);
    let set = record_set(slots, name, rtype);
    assert forall|i: int| 0 <= i < set.len() implies (#[trigger] set[i]).record_type()
        == rtype by {
        assert(set.contains(set[i]));
    }
}

/// The data under a name is what the slots of that name hold.
pub proof fn lemma_entries_of(slots: Seq<SlotView>, name: NameView, x: RDataView)
    ensures
        entries_of(slots, name).contains(x) <==> exists|i: int|
            0 <= i < slots.len() && (#[trigger] slots[i]).name == name && (match slots[i].entry {
                REntryView::Entries(items) => items.contains(x),
                _ => false,
            }),
    decreases slots.len(),
{
    if slots.len() > 0 {
        let front = slots.drop_last();
        let last = slots.last();
        lemma_entries_of(front, name, x);
        let all = entries_of(slots, name);
        let rest = entries_of(front, name);
        let here = last.name == name && (match last.entry {
            REntryView::Entries(items) => items.contains(x),
            _ => false,
        });
        if all.contains(x) {
            let k = choose|k: int| 0 <= k < all.len() && all[k] == x;
            if k < rest.len() {
                assert(rest[k] == x);
                assert(rest.contains(x));
                let i = choose|i: int|
                    0 <= i < front.len() && (#[trigger] front[i]).name == name && (
                    match front[i].entry {
                        REntryView::Entries(items) => items.contains(x),
                        _ => false,
                    });
                assert(slots[i] == front[i]);
            } else {
                assert(last.entry is Entries && last.name == name);
                assert(last.entry->Entries_0[k - rest.len()] == x);
                assert(slots[slots.len() - 1] == last);
            }
        }
        if exists|i: int|
            0 <= i < slots.len() && (#[trigger] slots[i]).name == name && (match slots[i].entry {
                REntryView::Entries(items) => items.contains(x),
                _ => false,
            }) {
            let i = choose|i: int|
                0 <= i < slots.len() && (#[trigger] slots[i]).name == name && (
                match slots[i].entry {
                    REntryView::Entries(items) => items.contains(x),
                    _ => false,
                });
            if i < front.len() {
                assert(front[i] == slots[i]);
                assert(rest.contains(x));
                let k = choose|k: int| 0 <= k < rest.len() && rest[k] == x;
                assert(all[k] == x);
            } else {
                let items = last.entry->Entries_0;
                let k = choose|k: int| 0 <= k < items.len() && items[k] == x;
                assert(all[rest.len() + k] == x);
            }
        }
    }
}

/// The closest enclosing zone of a name is the name or an ancestor of it,
/// no stored name that is one is longer, and it is a stored name or the
/// root.
pub proof fn lemma_closest_zone(slots: Seq<SlotView>, name: NameView)
    ensures
        is_zone_of(closest_zone(slots, name), name),
        forall|i: int|
            0 <= i < slots.len() && is_zone_of(#[trigger] slots[i].name, name)
                ==> slots[i].name.len() <= closest_zone(slots, name).len(),
        closest_zone(slots, name) == root_name() || exists|i: int|
            0 <= i < slots.len() && #[trigger] slots[i].name == closest_zone(slots, name),
{
    lemma_closest_depth(slots, name);
    let zone = closest_zone(slots, name);
    if zone.len() > 0 {
        let i = choose|i: int|
            0 <= i < slots.len() && is_zone_of(#[trigger] slots[i].name, name)
                && slots[i].name.len() == zone.len();
        assert(slots[i].name =~= zone);
    } else {
        assert(zone =~= root_name());
    }
}

/// Asking the same question twice is asking it once: the second call
/// changes nothing, the change counter included.
pub proof fn lemma_add_answer_target_twice(db: RecordDBView, name: NameView, rtype: RecordType)
    requires
        db.wf(),
    ensures
        db.add_answer_target(name, rtype).add_answer_target(name, rtype) == db.add_answer_target(
            name,
            rtype,
        ),
{
    lemma_answer_target(db, name, rtype);
}

/// Registering the same target twice is registering it once.
pub proof fn lemma_add_target_twice(db: RecordDBView, target: TargetView)
    ensures
        db.add_target(target).add_target(target) == db.add_target(target),
{
    if !db.targets.contains(target) {
        let after = db.targets.push(target);
        assert(after[after.len() - 1] == target);
    }
}

/// A target whose zone has no known name server asks for no probe.
pub proof fn lemma_no_servers_no_probes(slots: Seq<SlotView>, target: TargetView)
    requires
        record_set(slots, target.zone, RecordType::NS).len() == 0,
    ensures
        probes_for(slots, target) == Seq::<QueryView>::empty(),
{
}

/// A store without records plans nothing, whatever its targets.
pub proof fn lemma_unseeded_plans_nothing(targets: Seq<TargetView>)
    ensures
        planned(Seq::<SlotView>::empty(), targets) == Seq::<QueryView>::empty(),
    decreases targets.len(),
{
    if targets.len() > 0 {
        lemma_unseeded_plans_nothing(targets.drop_last());
        lemma_no_servers_no_probes(Seq::<SlotView>::empty(), targets.last());
    }
}

/// The action loop over a database without records and without waiting
/// probes ends at its first step: no probe is handed out, and the database
/// is as before.
pub proof fn lemma_unseeded_loop_ends(db: RecordDBView)
    requires
        db.slots.len() == 0,
        db.queue.len() == 0,
    ensures
        db.action_loop(None) == (db, None::<QueryView>),
{
    assert(db.slots =~= Seq::<SlotView>::empty());
    lemma_unseeded_plans_nothing(db.targets);
}

/// Name servers without a known IPv4 address give no probe.
pub proof fn lemma_no_glue_no_probes_via(
    slots: Seq<SlotView>,
    target: TargetView,
    servers: Seq<RDataView>,
)
    requires
        forall|i: int|
            0 <= i < servers.len() ==> (match (#[trigger] servers[i]).ns_target() {
                Some(host) => record_set(slots, host, RecordType::A).len() == 0,
                None => true,
            }),
    ensures
        probes_via(slots, target, servers) == Seq::<QueryView>::empty(),
    decreases servers.len(),
{
    if servers.len() > 0 {
        let front = servers.drop_last();
        assert forall|i: int| 0 <= i < front.len() implies (match (
        #[trigger] front[i]).ns_target() {
            Some(host) => record_set(slots, host, RecordType::A).len() == 0,
            None => true,
        }) by {
            assert(front[i] == servers[i]);
        }
        lemma_no_glue_no_probes_via(slots, target, front);
        assert(servers[servers.len() - 1] == servers.last());
    }
}

/// A target whose zone has name servers, none of them with a known IPv4
/// address, asks for no probe: the planner passes it over.
pub proof fn lemma_no_glue_no_probes(slots: Seq<SlotView>, target: TargetView)
    requires
        forall|i: int|
            0 <= i < record_set(slots, target.zone, RecordType::NS).len() ==> (match (
            #[trigger] record_set(slots, target.zone, RecordType::NS)[i]).ns_target() {
                Some(host) => record_set(slots, host, RecordType::A).len() == 0,
                None => true,
            }),
    ensures
        probes_for(slots, target) == Seq::<QueryView>::empty(),
{
    lemma_no_glue_no_probes_via(slots, target, record_set(slots, target.zone, RecordType::NS));
}

/// Targets that ask for no probe plan nothing.
pub proof fn lemma_nothing_to_plan(slots: Seq<SlotView>, targets: Seq<TargetView>)
    requires
        forall|i: int|
            0 <= i < targets.len() ==> probes_for(slots, #[trigger] targets[i]) == Seq::<
                QueryView,
            >::empty(),
    ensures
        planned(slots, targets) == Seq::<QueryView>::empty(),
    decreases targets.len(),
{
    if targets.len() > 0 {
        let front = targets.drop_last();
        assert forall|i: int| 0 <= i < front.len() implies probes_for(slots, #[trigger] front[i])
            == Seq::<QueryView>::empty() by {
            assert(front[i] == targets[i]);
        }
        lemma_nothing_to_plan(slots, front);
        assert(targets[targets.len() - 1] == targets.last());
    }
}

/// Where no target asks for a probe and none waits, the action loop ends
/// at its first step: nothing blocks on what cannot be asked yet.
pub proof fn lemma_loop_ends_without_probes(db: RecordDBView)
    requires
        db.queue.len() == 0,
        forall|i: int|
            0 <= i < db.targets.len() ==> probes_for(db.slots, #[trigger] db.targets[i]) == Seq::<
                QueryView,
            >::empty(),
    ensures
        db.action_loop(None) == (db, None::<QueryView>),
{
    lemma_nothing_to_plan(db.slots, db.targets);
}

/// Handing over probes that are all barred changes nothing.
pub proof fn lemma_enqueue_barred(db: RecordDBView, probes: Seq<QueryView>)
    requires
        forall|i: int| 0 <= i < probes.len() ==> db.is_barred(#[trigger] probes[i]),
    ensures
        db.enqueue_all(probes) == db,
    decreases probes.len(),
{
    if probes.len() > 0 {
        let front = probes.drop_last();
        assert forall|i: int| 0 <= i < front.len() implies db.is_barred(#[trigger] front[i]) by {
            assert(front[i] == probes[i]);
        }
        lemma_enqueue_barred(db, front);
        assert(probes[probes.len() - 1] == probes.last());
    }
}

/// Two planning passes with nothing folded in between: the second queues
/// nothing and leaves the change counter where it was.
pub proof fn lemma_replanning_adds_nothing(db: RecordDBView)
    requires
        db.wf(),
    ensures
        db.generate_queries().generate_queries() == db.generate_queries(),
{
    let plan = planned(db.slots, db.targets);
    lemma_enqueue_all(db, plan);
    lemma_enqueue_barred(db.generate_queries(), plan);
}

/// A planning pass leaves the counter where it was exactly when it queues
/// nothing, and then it changes nothing at all.
pub proof fn lemma_stable_counter(db: RecordDBView)
    requires
        db.wf(),
    ensures
        db.generate_queries().change_num == db.change_num <==> db.generate_queries() == db,
{
    lemma_enqueue_all(db, planned(db.slots, db.targets));
    let after = db.generate_queries();
    if after.queue.len() == db.queue.len() {
        assert(after.queue.take(db.queue.len() as int) =~= after.queue);
    }
}

/// Once the action loop has ended, the database is at a fixed point: no
/// probe waits, and a new loop ends at its first step, hands out no probe
/// and changes nothing.
pub proof fn lemma_fixed_point(db: RecordDBView, answered: Option<(QueryView, OutcomeView)>)
    requires
        db.wf(),
        db.action_loop(answered).1 is None,
    ensures
        db.action_loop(answered).0.queue.len() == 0,
        db.action_loop(answered).0.action_loop(None) == (
            db.action_loop(answered).0,
            None::<QueryView>,
        ),
{
    let folded = db.answered(answered);
    lemma_answered(db, answered);
    if folded.queue.len() == 0 {
        lemma_stable_counter(folded);
        lemma_enqueue_all(folded, planned(folded.slots, folded.targets));
        let done = db.action_loop(answered).0;
        assert(done == folded);
        assert(done.answered(None) == folded);
    } else {
        assert(folded.next_probe() is Some);
    }
}

/// A probe whose exchange has failed is not queued again: no planning pass
/// brings it, or one with its question for its server, into the queue.
pub proof fn lemma_failed_stay_out(db: RecordDBView, probes: Seq<QueryView>, probe: QueryView)
    requires
        is_queued(db.failed, probe),
        !is_queued(db.queue, probe),
    ensures
        !is_queued(db.enqueue_all(probes).queue, probe),
        db.enqueue_all(probes).failed == db.failed,
    decreases probes.len(),
{
    if probes.len() > 0 {
        let front = probes.drop_last();
        let last = probes.last();
        let mid = db.enqueue_all(front);
        let after = db.enqueue_all(probes);
        lemma_failed_stay_out(db, front, probe);
        if !mid.is_barred(last) {
            let j = choose|j: int| 0 <= j < db.failed.len() && same_probe(
                #[trigger] db.failed[j],
                probe,
            );
            if same_probe(last, probe) {
                assert(same_probe(mid.failed[j], last));
            }
            if is_queued(after.queue, probe) {
                let k = choose|k: int| 0 <= k < after.queue.len() && same_probe(
                    #[trigger] after.queue[k],
                    probe,
                );
                if k < mid.queue.len() {
                    assert(same_probe(mid.queue[k], probe));
                }
            }
        }
    }
}

/// After an exchange has failed, its probe is remembered as failed, and
/// records, targets, ledger, queue and counter are as before.
pub proof fn lemma_failure_is_remembered(
    db: RecordDBView,
    ip: IpAddr,
    name: NameView,
    rtype: RecordType,
    zone: Option<NameView>,
    text: Seq<char>,
)
    ensures
        is_queued(
            db.ingest(ip, name, rtype, zone, OutcomeView::Failed(text)).failed,
            QueryView { name, rtype, server: ip, zone },
        ),
        db.ingest(ip, name, rtype, zone, OutcomeView::Failed(text)).with_failed(db.failed) == db,
{
    let probe = QueryView { name, rtype, server: ip, zone };
    let after = db.note_failure(probe);
    if !is_queued(db.failed, probe) {
        assert(same_probe(after.failed[after.failed.len() - 1], probe));
    }
}

/// Whether the operation only seeds the database: it is none of planning,
/// folding an outcome in, or a step of draining or of the loop.
pub open spec fn is_seeding(op: Op) -> bool {
    match op {
        Op::GenerateQueries => false,
        Op::QueryRecord(_, _, _, _, _) => false,
        Op::PerformQueries(_) => false,
        Op::ActionLoop(_) => false,
        _ => true,
    }
}

/// A database that has only been seeded has no probe waiting.
pub proof fn lemma_seeded_queue_is_empty(ops: Seq<Op>)
    requires
        forall|i: int| 0 <= i < ops.len() ==> is_seeding(#[trigger] ops[i]),
    ensures
        run(ops).queue.len() == 0,
        run(ops).failed.len() == 0,
    decreases ops.len(),
{
    if ops.len() > 0 {
        let front = ops.drop_last();
        assert forall|i: int| 0 <= i < front.len() implies is_seeding(#[trigger] front[i]) by {
            assert(front[i] == ops[i]);
        }
        lemma_seeded_queue_is_empty(front);
        assert(ops[ops.len() - 1] == ops.last());
        lemma_seeding_keeps_queue(run(front), ops.last());
    }
}

proof fn lemma_seeding_keeps_queue(db: RecordDBView, op: Op)
    requires
        is_seeding(op),
    ensures
        apply(db, op).queue == db.queue,
        apply(db, op).failed == db.failed,
{
    if let Op::AddRootHints(hints) = op {
        lemma_root_hints_keep_queue(db, hints);
    }
}

proof fn lemma_root_hints_keep_queue(db: RecordDBView, hints: Seq<(NameView, IpAddr)>)
    ensures
        db.add_root_hints(hints).queue == db.queue,
        db.add_root_hints(hints).failed == db.failed,
    decreases hints.len(),
{
    if hints.len() > 0 {
        lemma_root_hints_keep_queue(db, hints.drop_last());
    }
}

/// The record store is canonical: two stores that hold the same under every
/// name and server are the same, in whatever order what they hold came in.
pub proof fn lemma_store_is_canonical(a: Seq<SlotView>, b: Seq<SlotView>)
    requires
        sorted(a),
        sorted(b),
        forall|name: NameView, server: RServer| #[trigger]
            slot_entry(a, name, server) == slot_entry(b, name, server),
    ensures
        a == b,
    decreases a.len(),
{
    if a.len() == 0 {
        if b.len() > 0 {
            lemma_slot_entry_at(b, 0);
            assert(slot_entry(a, b[0].name, b[0].server) is Some);
        }
        assert(a =~= b);
    } else if b.len() == 0 {
        lemma_slot_entry_at(a, 0);
        assert(slot_entry(a, a[0].name, a[0].server) is Some);
    } else {
        let na = a.len() - 1;
        let nb = b.len() - 1;
        let la = a.last();
        let lb = b.last();
        lemma_slot_entry_at(a, na);
        lemma_slot_entry_at(b, nb);
        assert(slot_entry(a, la.name, la.server) == slot_entry(b, la.name, la.server));
        assert(slot_entry(a, lb.name, lb.server) == slot_entry(b, lb.name, lb.server));
        lemma_slot_position(b, la.name, la.server);
        lemma_slot_position(a, lb.name, lb.server);
        let j = insertion_point(b, la.name, la.server) as int;
        let i = insertion_point(a, lb.name, lb.server) as int;
        lemma_key_lt_irreflexive(la.name, la.server);
        if j < nb {
            assert(key_lt(b[j].name, b[j].server, b[nb].name, b[nb].server));
            if i < na {
                assert(key_lt(a[i].name, a[i].server, a[na].name, a[na].server));
                lemma_key_lt_transitive(
                    la.name,
                    la.server,
                    lb.name,
                    lb.server,
                    la.name,
                    la.server,
                );
            }
        }
        assert(lb == la);
        assert forall|name: NameView, server: RServer| #[trigger]
            slot_entry(a.drop_last(), name, server) == slot_entry(b.drop_last(), name, server) by {
            lemma_slot_entry_drop_last(a, name, server);
            lemma_slot_entry_drop_last(b, name, server);
            assert(slot_entry(a, name, server) == slot_entry(b, name, server));
        }
        lemma_slot_entry_drop_last(a, la.name, la.server);
        lemma_slot_entry_drop_last(b, la.name, la.server);
        lemma_store_is_canonical(a.drop_last(), b.drop_last());
        assert(a =~= a.drop_last().push(la));
        assert(b =~= b.drop_last().push(lb));
    }
}

/// Folding into two different slots gives the same store in either order.
pub proof fn lemma_folds_commute(
    slots: Seq<SlotView>,
    name1: NameView,
    server1: RServer,
    received1: REntryView,
    name2: NameView,
    server2: RServer,
    received2: REntryView,
)
    requires
        sorted(slots),
        name1 != name2 || server1 != server2,
    ensures
        upsert(upsert(slots, name1, server1, received1), name2, server2, received2) == upsert(
            upsert(slots, name2, server2, received2),
            name1,
            server1,
            received1,
        ),
{
    let first = upsert(slots, name1, server1, received1);
    let second = upsert(slots, name2, server2, received2);
    let a = upsert(first, name2, server2, received2);
    let b = upsert(second, name1, server1, received1);
    lemma_upsert_sorted(slots, name1, server1, received1);
    lemma_upsert_sorted(slots, name2, server2, received2);
    lemma_upsert_sorted(first, name2, server2, received2);
    lemma_upsert_sorted(second, name1, server1, received1);
    assert forall|name: NameView, server: RServer| #[trigger]
        slot_entry(a, name, server) == slot_entry(b, name, server) by {
        lemma_upsert_entry(slots, name1, server1, received1, name, server);
        lemma_upsert_entry(slots, name2, server2, received2, name, server);
        lemma_upsert_entry(first, name2, server2, received2, name, server);
        lemma_upsert_entry(second, name1, server1, received1, name, server);
        lemma_upsert_entry(slots, name1, server1, received1, name2, server2);
        lemma_upsert_entry(slots, name2, server2, received2, name1, server1);
    }
    lemma_store_is_canonical(a, b);
}

/// Whether the probe puts the question of `target` to a server, on behalf
/// of the target's zone, from which the store has nothing about the
/// target's name.
pub open spec fn closes_gap(slots: Seq<SlotView>, target: TargetView, probe: QueryView) -> bool {
    &&& probe.name == target.name
    &&& probe.rtype == target.rtype
    &&& probe.zone == Some(target.zone)
    &&& !has_slot(slots, probe.name, server_of(probe.server))
}

/// Every probe to the servers at some addresses closes a gap of the target.
pub proof fn lemma_probes_to_close_gaps(
    slots: Seq<SlotView>,
    target: TargetView,
    addresses: Seq<RDataView>,
)
    ensures
        forall|k: int|
            0 <= k < probes_to(slots, target, addresses).len() ==> closes_gap(
                slots,
                target,
                #[trigger] probes_to(slots, target, addresses)[k],
            ),
    decreases addresses.len(),
{
    if addresses.len() > 0 {
        lemma_probes_to_close_gaps(slots, target, addresses.drop_last());
        let rest = probes_to(slots, target, addresses.drop_last());
        let all = probes_to(slots, target, addresses);
        assert forall|k: int| 0 <= k < all.len() implies closes_gap(
            slots,
            target,
            #[trigger] all[k],
        ) by {
            if k < rest.len() {
                assert(all[k] == rest[k]);
            }
        }
    }
}

/// Every probe by way of some name servers closes a gap of the target.
pub proof fn lemma_probes_via_close_gaps(
    slots: Seq<SlotView>,
    target: TargetView,
    servers: Seq<RDataView>,
)
    ensures
        forall|k: int|
            0 <= k < probes_via(slots, target, servers).len() ==> closes_gap(
                slots,
                target,
                #[trigger] probes_via(slots, target, servers)[k],
            ),
    decreases servers.len(),
{
    if servers.len() > 0 {
        lemma_probes_via_close_gaps(slots, target, servers.drop_last());
        let rest = probes_via(slots, target, servers.drop_last());
        let all = probes_via(slots, target, servers);
        if let Some(host) = servers.last().ns_target() {
            let more = probes_to(slots, target, record_set(slots, host, RecordType::A));
            lemma_probes_to_close_gaps(slots, target, record_set(slots, host, RecordType::A));
            assert forall|k: int| 0 <= k < all.len() implies closes_gap(
                slots,
                target,
                #[trigger] all[k],
            ) by {
                if k < rest.len() {
                    assert(all[k] == rest[k]);
                } else {
                    assert(all[k] == more[k - rest.len()]);
                }
            }
        }
    }
}

/// The planner asks only for what is missing: every probe that it plans
/// closes a gap of one of the targets.
pub proof fn lemma_planned_close_gaps(slots: Seq<SlotView>, targets: Seq<TargetView>, k: int)
    requires
        0 <= k < planned(slots, targets).len(),
    ensures
        exists|i: int|
            0 <= i < targets.len() && closes_gap(
                slots,
                #[trigger] targets[i],
                planned(slots, targets)[k],
            ),
    decreases targets.len(),
{
    let front = targets.drop_last();
    let before = planned(slots, front);
    if k < before.len() {
        lemma_planned_close_gaps(slots, front, k);
        let i = choose|i: int|
            0 <= i < front.len() && closes_gap(slots, #[trigger] front[i], before[k]);
        assert(targets[i] == front[i]);
    } else {
        lemma_probes_via_close_gaps(
            slots,
            targets.last(),
            record_set(slots, targets.last().zone, RecordType::NS),
        );
        assert(planned(slots, targets)[k] == probes_for(slots, targets.last())[k - before.len()]);
        assert(targets[targets.len() - 1] == targets.last());
    }
}

/// Whether the outcome of a probe for `name` leaves something about `name`
/// in the store: it is a time-out, or a response without any answer, or a
/// response with an answer that `name` owns.
pub open spec fn says_something(outcome: OutcomeView, name: NameView) -> bool {
    match outcome {
        OutcomeView::Timeout => true,
        OutcomeView::Failed(_) => false,
        OutcomeView::Response(messages) => !has_answer(messages) || exists|m: int, k: int|
            0 <= m < messages.len() && 0 <= k < (#[trigger] messages[m]).answers.len()
                && (#[trigger] messages[m].answers[k]).name == name,
    }
}

/// An outcome that says something about the name closes the gap that its
/// probe was sent for: the server has a slot under the name afterwards, so
/// that no later planning pass asks it again.
pub proof fn lemma_outcome_closes_gap(
    db: RecordDBView,
    ip: IpAddr,
    name: NameView,
    rtype: RecordType,
    zone: Option<NameView>,
    outcome: OutcomeView,
)
    requires
        db.wf(),
        says_something(outcome, name),
    ensures
        has_slot(db.ingest(ip, name, rtype, zone, outcome).slots, name, server_of(ip)),
{
    let server = server_of(ip);
    match outcome {
        OutcomeView::Timeout => {
            lemma_upsert_keeps(db.slots, name, server, REntryView::TimeOut);
        },
        OutcomeView::Failed(_) => {},
        OutcomeView::Response(messages) => {
            lemma_messages_covered(db, messages, ip, name, rtype, zone);
            let folded = db.add_messages(messages, ip, name, rtype, zone);
            if !has_answer(messages) {
                lemma_upsert_keeps(folded.slots, name, server, REntryView::NoEntry);
            } else {
                let (m, k) = choose|m: int, k: int|
                    0 <= m < messages.len() && 0 <= k < (#[trigger] messages[m]).answers.len()
                        && (#[trigger] messages[m].answers[k]).name == name;
                assert(covers_message(folded.slots, messages[m], ip));
                assert(holds(folded.slots, name, server, messages[m].answers[k].rdata));
            }
        },
    }
}

/// A database that has only been seeded, with targets whose zones have no
/// name server with a known IPv4 address, does not block: the action loop
/// ends at its first step, hands out no probe and changes nothing.
pub proof fn lemma_seeded_loop_without_glue(ops: Seq<Op>)
    requires
        forall|i: int| 0 <= i < ops.len() ==> is_seeding(#[trigger] ops[i]),
        forall|i: int|
            0 <= i < run(ops).targets.len() ==> probes_for(
                run(ops).slots,
                #[trigger] run(ops).targets[i],
            ) == Seq::<QueryView>::empty(),
    ensures
        run(ops).action_loop(None) == (run(ops), None::<QueryView>),
{
    lemma_seeded_queue_is_empty(ops);
    lemma_loop_ends_without_probes(run(ops));
}

/// A server whose outcome said something about a name is not asked about
/// that name again: no later planning pass plans a probe for it, whatever
/// the targets.
pub proof fn lemma_answered_is_not_asked_again(
    db: RecordDBView,
    ip: IpAddr,
    name: NameView,
    rtype: RecordType,
    zone: Option<NameView>,
    outcome: OutcomeView,
    targets: Seq<TargetView>,
    k: int,
)
    requires
        db.wf(),
        says_something(outcome, name),
        0 <= k < planned(db.ingest(ip, name, rtype, zone, outcome).slots, targets).len(),
    ensures
        ({
            let probe = planned(db.ingest(ip, name, rtype, zone, outcome).slots, targets)[k];
            !(probe.name == name && probe.server == ip)
        }),
{
    let slots = db.ingest(ip, name, rtype, zone, outcome).slots;
    lemma_outcome_closes_gap(db, ip, name, rtype, zone, outcome);
    lemma_planned_close_gaps(slots, targets, k);
}

} // verus!
