//! The record database: what every server has said about every name, the
//! questions still to be answered, and the probes that would answer them.

use std::collections::VecDeque;
use vstd::prelude::*;
use crate::dns::{query_record, zone_view, QueryOutcome};
pub use crate::entry::{REntry, RServer};
pub use crate::rdata_hash::RDataHash;
use crate::entry::{merge, rdata_views, server_lt, server_of, REntryView};
use crate::model::{
    closest_depth, closest_zone, distinct_of_type, entries_of, has_slot, insertion_point,
    is_queued, key_lt, lemma_closest_depth, lemma_distinct_of_type, lemma_enqueue_all,
    lemma_insertion_point, lemma_key_lt_transitive, lemma_names_of, lemma_push_keeps,
    lemma_records_ascending, lemma_slot_position, lemma_upsert_entry, lemma_upsert_sorted,
    lemma_upsert_sound, names_of, planned, probes_for, probes_to, probes_via, record_set,
    records_of, root_name, same_probe, slot_entry, sorted, upsert, views, AnswerTargetView,
    DelegationView, OutcomeView, QueryView, RecordDBView, SlotView, TargetView,
};
use crate::name::{is_zone_of, lemma_name_lt_irreflexive, lemma_name_lt_transitive, name_lt, Name};
use crate::order::Rank;
use crate::record::{IpAddr, RData, RDataView, Record, RecordType};

verus! {

/// One slot of the record store.
#[derive(Debug)]
pub struct Slot {
    pub name: Name,
    pub server: RServer,
    pub entry: REntry,
}

impl View for Slot {
    type V = SlotView;

    open spec fn view(&self) -> SlotView {
        SlotView { name: self.name@, server: self.server, entry: self.entry@ }
    }
}

/// A question that the caller wants answered.
#[derive(Debug)]
pub struct AnswerTarget {
    pub name: Name,
    pub rtype: RecordType,
}

impl View for AnswerTarget {
    type V = AnswerTargetView;

    open spec fn view(&self) -> AnswerTargetView {
        AnswerTargetView { name: self.name@, rtype: self.rtype }
    }
}

/// A question to put to every name server of a zone.
#[derive(Debug)]
pub struct Target {
    pub name: Name,
    pub rtype: RecordType,
    pub zone: Name,
}

impl View for Target {
    type V = TargetView;

    open spec fn view(&self) -> TargetView {
        TargetView { name: self.name@, rtype: self.rtype, zone: self.zone@ }
    }
}

/// An observed delegation.
#[derive(Debug)]
pub struct Delegation {
    pub name: Name,
    pub zone: Name,
    pub auth_zone: Name,
    pub auth_ns: Name,
}

impl View for Delegation {
    type V = DelegationView;

    open spec fn view(&self) -> DelegationView {
        DelegationView {
            name: self.name@,
            zone: self.zone@,
            auth_zone: self.auth_zone@,
            auth_ns: self.auth_ns@,
        }
    }
}

/// A probe: a question for one server.
#[derive(Debug)]
pub struct Query {
    pub name: Name,
    pub rtype: RecordType,
    pub server: IpAddr,
    pub zone: Option<Name>,
}

impl View for Query {
    type V = QueryView;

    open spec fn view(&self) -> QueryView {
        QueryView {
            name: self.name@,
            rtype: self.rtype,
            server: self.server,
            zone: match self.zone {
                Some(zone) => Some(zone@),
                None => None,
            },
        }
    }
}

/// The record database.
#[derive(Debug)]
pub struct RecordDB {
    delegations: Vec<Delegation>,
    slots: Vec<Slot>,
    answer_targets: Vec<AnswerTarget>,
    targets: Vec<Target>,
    query_queue: VecDeque<Query>,
    failed: Vec<Query>,
    change_num: u64,
}

impl View for RecordDB {
    type V = RecordDBView;

    closed spec fn view(&self) -> RecordDBView {
        RecordDBView {
            slots: views(self.slots@),
            delegations: views(self.delegations@),
            answer_targets: views(self.answer_targets@),
            targets: views(self.targets@),
            queue: views(self.query_queue@),
            failed: views(self.failed@),
            change_num: self.change_num as nat,
        }
    }
}

/// A probe with its outcome, as values.
pub open spec fn answered_view(answered: Option<(Query, QueryOutcome)>) -> Option<
    (QueryView, OutcomeView),
> {
    match answered {
        Some((probe, outcome)) => Some((probe@, outcome@)),
        None => None,
    }
}

/// A probe, as a value.
pub open spec fn probe_view(probe: Option<Query>) -> Option<QueryView> {
    match probe {
        Some(probe) => Some(probe@),
        None => None,
    }
}

/// The values of root hints.
pub open spec fn hint_views(hints: Seq<(Name, IpAddr)>) -> Seq<(Seq<Seq<u8>>, IpAddr)> {
    Seq::new(hints.len(), |i: int| (hints[i].0@, hints[i].1))
}

/// An entry that holds one piece of data.
fn single(rdata: RData) -> (r: REntry)
    ensures
        r@ == REntryView::Entries(seq![rdata@]),
{
    let mut items: Vec<RData> = Vec::new();
    items.push(rdata);
    assert(rdata_views(items@) =~= seq![rdata@]);
    REntry::Entries(items)
}

/// The values of `(server, entry)` pairs.
pub open spec fn pair_views(pairs: Seq<(RServer, REntry)>) -> Seq<(RServer, REntryView)> {
    Seq::new(pairs.len(), |i: int| (pairs[i].0, pairs[i].1@))
}

fn compare_key(slot: &Slot, name: &Name, server: RServer) -> (r: Rank)
    ensures
        r == Rank::Below <==> key_lt(slot@.name, slot@.server, name@, server),
        r == Rank::Same <==> (slot@.name == name@ && slot@.server == server),
        r == Rank::Above <==> key_lt(name@, server, slot@.name, slot@.server),
{
    proof {
        lemma_name_lt_irreflexive(name@);
        if name_lt(slot@.name, name@) && name_lt(name@, slot@.name) {
            lemma_name_lt_transitive(slot@.name, name@, slot@.name);
            lemma_name_lt_irreflexive(slot@.name);
        }
    }
    match slot.name.compare(name) {
        Rank::Below => Rank::Below,
        Rank::Above => Rank::Above,
        Rank::Same => slot.server.compare(&server),
    }
}

impl RecordDB {
    /// An empty database.
    pub fn new() -> (db: RecordDB)
        ensures
            db@ == RecordDBView::empty(),
            db@.wf(),
    {
        let db = RecordDB {
            delegations: Vec::new(),
            slots: Vec::new(),
            answer_targets: Vec::new(),
            targets: Vec::new(),
            query_queue: VecDeque::new(),
            failed: Vec::new(),
            change_num: 0,
        };
        assert(db@.slots =~= Seq::empty());
        assert(db@.delegations =~= Seq::empty());
        assert(db@.answer_targets =~= Seq::empty());
        assert(db@.targets =~= Seq::empty());
        assert(db@.queue =~= Seq::empty());
        assert(db@.failed =~= Seq::empty());
        db
    }

    /// The change counter: it moves with every change to the database and
    /// never goes back. It counts up to `u64::MAX` and stays there.
    pub fn change_num(&self) -> (n: u64)
        ensures
            n == self@.change_num,
    {
        self.change_num
    }

    /// Counts a change.
    fn bump(&mut self)
        ensures
            final(self)@ == old(self)@.bumped(1),
    {
        self.change_num = self.change_num.saturating_add(1);
    }

    /// Where the key `(name, server)` stands or would stand among the
    /// slots, and whether it is there.
    fn locate(&self, name: &Name, server: RServer) -> (r: (usize, bool))
        requires
            sorted(self@.slots),
        ensures
            r.0 == insertion_point(self@.slots, name@, server),
            r.0 <= self@.slots.len(),
            r.1 == has_slot(self@.slots, name@, server),
            r.1 ==> r.0 < self@.slots.len() && self@.slots[r.0 as int].name == name@
                && self@.slots[r.0 as int].server == server,
    {
        let ghost slots = self@.slots;
        let mut lo: usize = 0;
        let mut hi: usize = self.slots.len();
        while lo < hi
            invariant
                lo <= hi <= self.slots.len(),
                slots == self@.slots,
                slots.len() == self.slots.len(),
                sorted(slots),
                forall|j: int|
                    0 <= j < lo ==> key_lt(
                        #[trigger] slots[j].name,
                        slots[j].server,
                        name@,
                        server,
                    ),
                forall|j: int|
                    hi <= j < slots.len() ==> !key_lt(
                        #[trigger] slots[j].name,
                        slots[j].server,
                        name@,
                        server,
                    ),
            decreases hi - lo,
        {
            let mid = lo + (hi - lo) / 2;
            let c = compare_key(&self.slots[mid], name, server);
            assert(slots[mid as int] == self.slots[mid as int]@);
            match c {
                Rank::Below => {
                    assert forall|j: int| 0 <= j < mid + 1 implies key_lt(
                        #[trigger] slots[j].name,
                        slots[j].server,
                        name@,
                        server,
                    ) by {
                        if j < mid {
                            lemma_key_lt_transitive(
                                slots[j].name,
                                slots[j].server,
                                slots[mid as int].name,
                                slots[mid as int].server,
                                name@,
                                server,
                            );
                        }
                    }
                    lo = mid + 1;
                },
                _ => {
                    assert forall|j: int| mid <= j < slots.len() implies !key_lt(
                        #[trigger] slots[j].name,
                        slots[j].server,
                        name@,
                        server,
                    ) by {
                        if j > mid && key_lt(slots[j].name, slots[j].server, name@, server) {
                            lemma_key_lt_transitive(
                                slots[mid as int].name,
                                slots[mid as int].server,
                                slots[j].name,
                                slots[j].server,
                                name@,
                                server,
                            );
                        }
                    }
                    hi = mid;
                },
            }
        }
        proof {
            lemma_insertion_point(slots, name@, server, lo as int);
            lemma_slot_position(slots, name@, server);
        }
        if lo < self.slots.len() {
            let c = compare_key(&self.slots[lo], name, server);
            assert(slots[lo as int] == self.slots[lo as int]@);
            (lo, matches!(c, Rank::Same))
        } else {
            (lo, false)
        }
    }

    /// Folds `received` into the slot of `server` under `name`.
    fn fold_in(&mut self, name: &Name, server: RServer, received: REntry)
        requires
            sorted(old(self)@.slots),
        ensures
            final(self)@ == old(self)@.with_slots(
                upsert(old(self)@.slots, name@, server, received@),
            ),
            sorted(final(self)@.slots),
            slot_entry(final(self)@.slots, name@, server) == Some(
                merge(slot_entry(old(self)@.slots, name@, server), received@),
            ),
    {
        let ghost before = self@.slots;
        let (i, found) = self.locate(name, server);
        proof {
            lemma_upsert_sorted(before, name@, server, received@);
            lemma_upsert_entry(before, name@, server, received@, name@, server);
            lemma_slot_position(before, name@, server);
        }
        if found {
            let mut entry = REntry::NoEntry;
            core::mem::swap(&mut self.slots[i].entry, &mut entry);
            self.slots[i].entry = REntry::merge(Some(entry), received);
            assert(self@.slots =~= upsert(before, name@, server, received@));
        } else {
            let entry = REntry::merge(None, received);
            self.slots.insert(i, Slot { name: name.clone(), server, entry });
            assert(self@.slots =~= upsert(before, name@, server, received@));
        }
    }

    /// Adds a record that the server at `server_ip` gave: its data joins
    /// what that server has given for the record's name, replacing a
    /// time-out or a denial.
    pub fn add_record(&mut self, record: &Record, server_ip: IpAddr)
        requires
            old(self)@.wf(),
        ensures
            final(self)@ == old(self)@.add_record(record@, server_ip),
            final(self)@.wf(),
    {
        let received = single(record.rdata.clone());
        let ghost before = self@;
        self.fold_in(&record.name, RServer::from(server_ip), received);
        self.bump();
        proof {
            lemma_upsert_sound(before.slots, record@.name, server_of(server_ip), received@);
        }
    }

    /// Records that the server at `server_ip` timed out on `name` or had
    /// nothing for it; `rentry` is `TimeOut` or `NoEntry`. Data that the
    /// server gave before stays; a denial outlives a time-out.
    pub fn add_rentry(&mut self, name: &Name, rentry: REntry, server_ip: IpAddr)
        requires
            old(self)@.wf(),
            rentry@ is TimeOut || rentry@ is NoEntry,
        ensures
            final(self)@ == old(self)@.add_rentry(name@, rentry@, server_ip),
            final(self)@.wf(),
    {
        let ghost before = self@;
        self.fold_in(name, RServer::from(server_ip), rentry);
        self.bump();
        proof {
            lemma_upsert_sound(before.slots, name@, server_of(server_ip), rentry@);
        }
    }

    /// What each server is known to have said about `name`, in ascending
    /// order of the servers; empty when nothing is known.
    pub fn get_records(&self, name: &Name) -> (r: Vec<(RServer, REntry)>)
        ensures
            pair_views(r@) == records_of(self@.slots, name@),
            self@.wf() ==> forall|i: int, j: int|
                0 <= i < j < r@.len() ==> server_lt((#[trigger] r@[i]).0, (#[trigger] r@[j]).0),
    {
        let ghost slots = self@.slots;
        let mut out: Vec<(RServer, REntry)> = Vec::new();
        let mut i: usize = 0;
        assert(slots.take(0) =~= Seq::<SlotView>::empty());
        assert(pair_views(out@) =~= Seq::<(RServer, REntryView)>::empty());
        while i < self.slots.len()
            invariant
                i <= self.slots.len(),
                slots == self@.slots,
                slots.len() == self.slots.len(),
                pair_views(out@) == records_of(slots.take(i as int), name@),
            decreases self.slots.len() - i,
        {
            let slot = &self.slots[i];
            assert(slots[i as int] == slot@);
            assert(slots.take(i + 1).drop_last() =~= slots.take(i as int));
            if slot.name.same(name) {
                let ghost prev = pair_views(out@);
                out.push((slot.server, slot.entry.clone()));
                assert(pair_views(out@) =~= prev.push((slot@.server, slot@.entry)));
            }
            i += 1;
        }
        assert(slots.take(i as int) =~= slots);
        proof {
            if self@.wf() {
                lemma_records_ascending(slots, name@);
                assert forall|i: int, j: int| 0 <= i < j < out@.len() implies server_lt(
                    (#[trigger] out@[i]).0,
                    (#[trigger] out@[j]).0,
                ) by {
                    assert(pair_views(out@)[i].0 == out@[i].0);
                    assert(pair_views(out@)[j].0 == out@[j].0);
                }
            }
        }
        out
    }

    /// Injects root hints: for each, the address of the name as data under
    /// `Hint` at that name, and the name as a name server under `Hint` at
    /// the root.
    pub fn add_root_hints(&mut self, hints: Vec<(Name, IpAddr)>)
        requires
            old(self)@.wf(),
        ensures
            final(self)@ == old(self)@.add_root_hints(hint_views(hints@)),
            final(self)@.wf(),
    {
        let ghost start = self@;
        let ghost all = hint_views(hints@);
        let root = Name::root();
        let mut i: usize = 0;
        assert(all.take(0) =~= Seq::<(Seq<Seq<u8>>, IpAddr)>::empty());
        while i < hints.len()
            invariant
                i <= hints.len(),
                all == hint_views(hints@),
                root@ == root_name(),
                start.wf(),
                self@ == start.add_root_hints(all.take(i as int)),
                self@.wf(),
            decreases hints.len() - i,
        {
            let name = &hints[i].0;
            let ip = hints[i].1;
            assert(all[i as int] == (name@, ip));
            assert(all.take(i + 1).drop_last() =~= all.take(i as int));
            let ghost before = self@;
            let address = match ip {
                IpAddr::V4(addr) => RData::A(addr),
                IpAddr::V6(addr) => RData::AAAA(addr),
            };
            let received = single(address);
            proof {
                lemma_upsert_sound(before.slots, name@, RServer::Hint, received@);
            }
            self.fold_in(name, RServer::Hint, received);
            let ghost middle = self@;
            let received = single(RData::NS(name.clone()));
            proof {
                lemma_upsert_sound(middle.slots, root@, RServer::Hint, received@);
            }
            self.fold_in(&root, RServer::Hint, received);
            assert(self@ == before.add_root_hint(name@, ip));
            i += 1;
        }
        assert(all.take(i as int) =~= all);
    }

    /// Notes a delegation: when `name` was asked of a server of `zone`, the
    /// answer named `auth_ns` as a name server of `auth_zone`. The records
    /// are not touched.
    pub fn add_delegation(&mut self, name: &Name, zone: &Name, auth_zone: &Name, auth_ns: &Name)
        requires
            old(self)@.wf(),
        ensures
            final(self)@ == old(self)@.add_delegation(
                DelegationView {
                    name: name@,
                    zone: zone@,
                    auth_zone: auth_zone@,
                    auth_ns: auth_ns@,
                },
            ),
            final(self)@.wf(),
    {
        let ghost sought = DelegationView {
            name: name@,
            zone: zone@,
            auth_zone: auth_zone@,
            auth_ns: auth_ns@,
        };
        let ghost before = self@.delegations;
        let mut known = false;
        let mut i: usize = 0;
        while i < self.delegations.len() && !known
            invariant
                i <= self.delegations.len(),
                before == self@.delegations,
                before.len() == self.delegations.len(),
                sought == (DelegationView {
                    name: name@,
                    zone: zone@,
                    auth_zone: auth_zone@,
                    auth_ns: auth_ns@,
                }),
                known ==> before.contains(sought),
                !known ==> forall|j: int| 0 <= j < i ==> before[j] != sought,
            decreases self.delegations.len() - i + if known { 0int } else { 1int },
        {
            let d = &self.delegations[i];
            assert(before[i as int] == d@);
            if d.name.same(name) && d.zone.same(zone) && d.auth_zone.same(auth_zone)
                && d.auth_ns.same(auth_ns) {
                known = true;
            } else {
                i += 1;
            }
        }
        if !known {
            self.delegations.push(
                Delegation {
                    name: name.clone(),
                    zone: zone.clone(),
                    auth_zone: auth_zone.clone(),
                    auth_ns: auth_ns.clone(),
                },
            );
            assert(self@.delegations =~= before.push(sought));
        }
        self.bump();
    }

    /// Whether the question is among the targets.
    fn has_target(&self, name: &Name, rtype: RecordType, zone: &Name) -> (r: bool)
        ensures
            r == self@.targets.contains(TargetView { name: name@, rtype, zone: zone@ }),
    {
        let ghost sought = TargetView { name: name@, rtype, zone: zone@ };
        let ghost targets = self@.targets;
        let mut i: usize = 0;
        while i < self.targets.len()
            invariant
                i <= self.targets.len(),
                targets == self@.targets,
                targets.len() == self.targets.len(),
                sought == (TargetView { name: name@, rtype, zone: zone@ }),
                forall|j: int| 0 <= j < i ==> targets[j] != sought,
            decreases self.targets.len() - i,
        {
            let t = &self.targets[i];
            assert(targets[i as int] == t@);
            if t.rtype == rtype && t.name.same(name) && t.zone.same(zone) {
                return true;
            }
            i += 1;
        }
        false
    }

    /// Registers `rtype` of `name` as a question to put to the name
    /// servers of `zone`. Nothing changes when it is registered already.
    pub fn add_target(&mut self, name: &Name, rtype: RecordType, zone: &Name)
        requires
            old(self)@.wf(),
        ensures
            final(self)@ == old(self)@.add_target(TargetView { name: name@, rtype, zone: zone@ }),
            final(self)@.wf(),
    {
        let ghost before = self@;
        let ghost target = TargetView { name: name@, rtype, zone: zone@ };
        if !self.has_target(name, rtype, zone) {
            self.targets.push(Target { name: name.clone(), rtype, zone: zone.clone() });
            self.bump();
            assert(self@.targets =~= before.targets.push(target));
            proof {
                lemma_push_keeps(before, target);
            }
        }
    }

    /// Registers `rtype` of `name` as a question of the caller, with the
    /// root as the zone to start from. Nothing changes when both are
    /// registered already; the counter moves once otherwise.
    pub fn add_answer_target(&mut self, name: &Name, rtype: RecordType)
        requires
            old(self)@.wf(),
        ensures
            final(self)@ == old(self)@.add_answer_target(name@, rtype),
            final(self)@.wf(),
    {
        let ghost before = self@;
        let ghost answer = AnswerTargetView { name: name@, rtype };
        let ghost target = TargetView { name: name@, rtype, zone: root_name() };
        let root = Name::root();
        let mut grew = false;
        if !self.has_target(name, rtype, &root) {
            self.targets.push(Target { name: name.clone(), rtype, zone: root });
            assert(self@.targets =~= before.targets.push(target));
            grew = true;
        }
        proof {
            lemma_push_keeps(before, target);
        }
        let ghost middle = self@;
        assert(middle.targets.contains(target)) by {
            if !before.targets.contains(target) {
                assert(middle.targets[middle.targets.len() - 1] == target);
            }
        }
        if !self.is_answer_target(name, rtype) {
            self.answer_targets.push(AnswerTarget { name: name.clone(), rtype });
            assert(self@.answer_targets =~= before.answer_targets.push(answer));
            grew = true;
        }
        if grew {
            self.bump();
        }
    }

    /// Whether the caller has asked for `rtype` of `name`.
    pub fn is_answer_target(&self, name: &Name, rtype: RecordType) -> (r: bool)
        ensures
            r == self@.is_answer_target(name@, rtype),
    {
        let ghost sought = AnswerTargetView { name: name@, rtype };
        let ghost answers = self@.answer_targets;
        let mut i: usize = 0;
        while i < self.answer_targets.len()
            invariant
                i <= self.answer_targets.len(),
                answers == self@.answer_targets,
                answers.len() == self.answer_targets.len(),
                sought == (AnswerTargetView { name: name@, rtype }),
                forall|j: int| 0 <= j < i ==> answers[j] != sought,
            decreases self.answer_targets.len() - i,
        {
            let t = &self.answer_targets[i];
            assert(answers[i as int] == t@);
            if t.rtype == rtype && t.name.same(name) {
                return true;
            }
            i += 1;
        }
        false
    }

    /// The record set of `name` for `rtype`: the data of that type that any
    /// server or hint gave for the name, each piece once, in the order of
    /// the servers and of arrival. Data of a type outside the closed set is
    /// never part of it.
    pub fn get_record_set(&self, name: &Name, rtype: RecordType) -> (r: Vec<RData>)
        ensures
            views(r@) == record_set(self@.slots, name@, rtype),
            views(r@).no_duplicates(),
            forall|i: int| 0 <= i < r@.len() ==> (#[trigger] r@[i])@.record_type() == rtype,
    {
        let ghost slots = self@.slots;
        let mut found: Vec<RDataHash> = Vec::new();
        let mut i: usize = 0;
        assert(slots.take(0) =~= Seq::<SlotView>::empty());
        assert(views(found@) =~= Seq::<RDataView>::empty());
        while i < self.slots.len()
            invariant
                i <= self.slots.len(),
                slots == self@.slots,
                slots.len() == self.slots.len(),
                views(found@) == distinct_of_type(entries_of(slots.take(i as int), name@), rtype),
            decreases self.slots.len() - i,
        {
            let slot = &self.slots[i];
            assert(slots[i as int] == slot@);
            assert(slots.take(i + 1).drop_last() =~= slots.take(i as int));
            let ghost sofar = entries_of(slots.take(i as int), name@);
            if slot.name.same(name) {
                if let REntry::Entries(items) = &slot.entry {
                    let ghost all = rdata_views(items@);
                    let mut j: usize = 0;
                    assert(sofar + all.take(0) =~= sofar);
                    while j < items.len()
                        invariant
                            j <= items.len(),
                            all == rdata_views(items@),
                            views(found@) == distinct_of_type(sofar + all.take(j as int), rtype),
                        decreases items.len() - j,
                    {
                        let item = &items[j];
                        assert(all[j as int] == item@);
                        assert((sofar + all.take(j + 1)).drop_last() =~= sofar + all.take(
                            j as int,
                        ));
                        if item.to_record_type() == rtype {
                            if let Some(key) = RDataHash::new(item.clone()) {
                                if !holds(&found, &key) {
                                    let ghost prev = views(found@);
                                    found.push(key);
                                    assert(views(found@) =~= prev.push(item@));
                                }
                            }
                        }
                        j += 1;
                    }
                    assert(all.take(j as int) =~= all);
                }
            }
            i += 1;
        }
        assert(slots.take(i as int) =~= slots);
        proof {
            lemma_distinct_of_type(entries_of(slots, name@), rtype);
        }
        let ghost keys = views(found@);
        let mut out: Vec<RData> = Vec::new();
        assert(views(out@) =~= keys.take(0));
        for key in it: found
            invariant
                keys == views(it.seq()),
                views(out@) == keys.take(it.index() as int),
        {
            let ghost prev = views(out@);
            out.push(key.into_rdata());
            assert(views(out@) =~= prev.push(keys[it.index() as int]));
            assert(keys.take(it.index() + 1) =~= prev.push(keys[it.index() as int]));
        }
        assert(keys.take(keys.len() as int) =~= keys);
        assert forall|i: int| 0 <= i < out@.len() implies (#[trigger] out@[i])@.record_type()
            == rtype by {
            assert(views(out@)[i] == out@[i]@);
            assert(views(out@).contains(out@[i]@));
        }
        out
    }

    /// The closest enclosing zone of `name` that the store knows: the
    /// longest stored name that is `name` or an ancestor of it, or the root
    /// when there is none.
    pub fn find_closest_domain(&self, name: &Name) -> (r: Name)
        ensures
            r@ == closest_zone(self@.slots, name@),
            is_zone_of(r@, name@),
            forall|i: int|
                0 <= i < self@.slots.len() && is_zone_of(#[trigger] self@.slots[i].name, name@)
                    ==> self@.slots[i].name.len() <= r@.len(),
            r@.len() == 0 || exists|i: int|
                0 <= i < self@.slots.len() && #[trigger] self@.slots[i].name == r@,
    {
        let ghost slots = self@.slots;
        let mut best: Option<usize> = None;
        let mut depth: usize = 0;
        let mut i: usize = 0;
        assert(slots.take(0) =~= Seq::<SlotView>::empty());
        while i < self.slots.len()
            invariant
                i <= self.slots.len(),
                slots == self@.slots,
                slots.len() == self.slots.len(),
                depth == closest_depth(slots.take(i as int), name@),
                match best {
                    Some(b) => b < i && is_zone_of(slots[b as int].name, name@)
                        && slots[b as int].name.len() == depth,
                    None => depth == 0,
                },
            decreases self.slots.len() - i,
        {
            let slot = &self.slots[i];
            assert(slots[i as int] == slot@);
            assert(slots.take(i + 1).drop_last() =~= slots.take(i as int));
            if slot.name.zone_of(name) && slot.name.num_labels() > depth {
                best = Some(i);
                depth = slot.name.num_labels();
            }
            i += 1;
        }
        assert(slots.take(i as int) =~= slots);
        proof {
            lemma_closest_depth(slots, name@);
        }
        match best {
            Some(b) => {
                let r = self.slots[b].name.clone();
                assert(slots[b as int] == self.slots[b as int]@);
                r
            },
            None => {
                let r = Name::root();
                assert(r@ =~= closest_zone(slots, name@));
                r
            },
        }
    }

    /// The probes that `target` asks for.
    fn probes_for(&self, target: &Target) -> (r: Vec<Query>)
        requires
            sorted(self@.slots),
        ensures
            views(r@) == probes_for(self@.slots, target@),
    {
        let ghost slots = self@.slots;
        let zone_ns = self.get_record_set(&target.zone, RecordType::NS);
        let ghost servers = views(zone_ns@);
        let mut out: Vec<Query> = Vec::new();
        let mut i: usize = 0;
        assert(views(out@) =~= probes_via(slots, target@, servers.take(0)));
        while i < zone_ns.len()
            invariant
                i <= zone_ns.len(),
                slots == self@.slots,
                sorted(slots),
                servers == views(zone_ns@),
                views(out@) == probes_via(slots, target@, servers.take(i as int)),
            decreases zone_ns.len() - i,
        {
            assert(servers[i as int] == zone_ns@[i as int]@);
            assert(servers.take(i + 1).drop_last() =~= servers.take(i as int));
            if let Some(host) = zone_ns[i].as_ns() {
                let ns_ips = self.get_record_set(host, RecordType::A);
                let ghost addresses = views(ns_ips@);
                let ghost sofar = views(out@);
                let mut j: usize = 0;
                assert(sofar + probes_to(slots, target@, addresses.take(0)) =~= sofar);
                while j < ns_ips.len()
                    invariant
                        j <= ns_ips.len(),
                        slots == self@.slots,
                        sorted(slots),
                        addresses == views(ns_ips@),
                        views(out@) == sofar + probes_to(slots, target@, addresses.take(j as int)),
                    decreases ns_ips.len() - j,
                {
                    assert(addresses[j as int] == ns_ips@[j as int]@);
                    assert(addresses.take(j + 1).drop_last() =~= addresses.take(j as int));
                    if let Some(ip) = ns_ips[j].to_ip_addr() {
                        let (_, known) = self.locate(&target.name, RServer::from(ip));
                        if !known {
                            let ghost prev = views(out@);
                            let probe = Query {
                                name: target.name.clone(),
                                rtype: target.rtype,
                                server: ip,
                                zone: Some(target.zone.clone()),
                            };
                            out.push(probe);
                            assert(views(out@) =~= prev.push(probe@));
                        }
                    }
                    j += 1;
                }
                assert(addresses.take(j as int) =~= addresses);
            }
            i += 1;
        }
        assert(servers.take(i as int) =~= servers);
        out
    }

    /// Whether the question of `probe` already waits for its server.
    fn is_queued(&self, probe: &Query) -> (r: bool)
        ensures
            r == is_queued(self@.queue, probe@),
    {
        let ghost queue = self@.queue;
        let mut i: usize = 0;
        while i < self.query_queue.len()
            invariant
                i <= self.query_queue.len(),
                queue == self@.queue,
                queue.len() == self.query_queue.len(),
                forall|j: int| 0 <= j < i ==> !same_probe(#[trigger] queue[j], probe@),
            decreases self.query_queue.len() - i,
        {
            let q = &self.query_queue[i];
            assert(queue[i as int] == q@);
            if q.rtype == probe.rtype && q.server == probe.server && q.name.same(&probe.name) {
                return true;
            }
            i += 1;
        }
        false
    }

    /// Plans: for every target, for every name server of its zone, for
    /// every known IPv4 address of that name server from which the store
    /// has nothing about the target's name, a probe joins the queue. A
    /// probe is kept out when the same question already waits for that
    /// server, when the exchange of such a probe has failed before, or when
    /// the change counter has reached its limit. The counter moves once for
    /// each probe that joins. The records and targets are only read.
    pub fn generate_queries(&mut self)
        requires
            old(self)@.wf(),
        ensures
            final(self)@ == old(self)@.generate_queries(),
            final(self)@.wf(),
    {
        let ghost start = self@;
        let mut i: usize = 0;
        assert(start.targets.take(0) =~= Seq::<TargetView>::empty());
        while i < self.targets.len()
            invariant
                i <= self.targets.len(),
                start.wf(),
                start.targets.len() == self.targets.len(),
                self@ == start.enqueue_all(planned(start.slots, start.targets.take(i as int))),
            decreases self.targets.len() - i,
        {
            let ghost done = planned(start.slots, start.targets.take(i as int));
            proof {
                lemma_enqueue_all(start, done);
            }
            let probes = self.probes_for(&self.targets[i]);
            let ghost fresh = views(probes@);
            assert(start.targets[i as int] == self.targets[i as int]@);
            assert(start.targets.take(i + 1).drop_last() =~= start.targets.take(i as int));
            assert(planned(start.slots, start.targets.take(i + 1)) == done + fresh);
            assert(done + fresh.take(0) =~= done);
            for probe in it: probes
                invariant
                    start.wf(),
                    fresh == views(it.seq()),
                    start.targets.len() == self.targets.len(),
                    self@ == start.enqueue_all(done + fresh.take(it.index() as int)),
            {
                let ghost k = it.index() as int;
                let ghost before = self@;
                assert((done + fresh.take(k + 1)).drop_last() =~= done + fresh.take(k));
                assert(fresh[k] == probe@);
                proof {
                    lemma_enqueue_all(start, done + fresh.take(k));
                }
                if self.change_num < u64::MAX && !self.is_queued(&probe) && !self.has_failed(
                    &probe,
                ) {
                    self.query_queue.push_back(probe);
                    self.change_num = self.change_num + 1;
                    assert(self@.queue =~= before.queue.push(fresh[k]));
                }
                assert(self@ == before.enqueue(fresh[k]));
            }
            assert(fresh.take(fresh.len() as int) =~= fresh);
            i += 1;
        }
        assert(start.targets.take(i as int) =~= start.targets);
        proof {
            lemma_enqueue_all(start, planned(start.slots, start.targets));
        }
    }

    /// Whether the exchange of a probe with the question and the server of
    /// `probe` has failed before.
    fn has_failed(&self, probe: &Query) -> (r: bool)
        ensures
            r == is_queued(self@.failed, probe@),
    {
        let ghost failed = self@.failed;
        let mut i: usize = 0;
        while i < self.failed.len()
            invariant
                i <= self.failed.len(),
                failed == self@.failed,
                failed.len() == self.failed.len(),
                forall|j: int| 0 <= j < i ==> !same_probe(#[trigger] failed[j], probe@),
            decreases self.failed.len() - i,
        {
            let q = &self.failed[i];
            assert(failed[i as int] == q@);
            if q.rtype == probe.rtype && q.server == probe.server && q.name.same(&probe.name) {
                return true;
            }
            i += 1;
        }
        false
    }

    /// Remembers that the exchange of `probe` failed, so that the probe is
    /// not sent again. Records, targets, ledger, queue and counter stay as
    /// they are.
    pub fn add_failure(&mut self, probe: Query)
        requires
            old(self)@.wf(),
        ensures
            final(self)@ == old(self)@.note_failure(probe@),
            final(self)@.wf(),
    {
        let ghost before = self@.failed;
        if !self.has_failed(&probe) {
            self.failed.push(probe);
            assert(self@.failed =~= before.push(probe@));
        }
    }

    /// Folds in the outcome of the probe that was sent last, if any. An
    /// exchange that failed is fatal for its probe alone: the probe is
    /// remembered as failed and the loop goes on.
    fn answer(&mut self, answered: Option<(Query, QueryOutcome)>)
        requires
            old(self)@.wf(),
        ensures
            final(self)@ == old(self)@.answered(answered_view(answered)),
            final(self)@.wf(),
    {
        if let Some((probe, outcome)) = answered {
            assert(probe@.zone == zone_view(probe.zone));
            let _ = query_record(self, probe.server, probe.name, probe.rtype, probe.zone, outcome);
        }
    }

    /// Takes the next probe off the queue.
    fn take_next(&mut self) -> (r: Option<Query>)
        requires
            old(self)@.wf(),
        ensures
            final(self)@ == old(self)@.without_next(),
            probe_view(r) == old(self)@.next_probe(),
            final(self)@.wf(),
    {
        let ghost before = self@;
        let r = self.query_queue.pop_front();
        assert(self@.queue =~= before.without_next().queue);
        r
    }

    /// One step of draining the queue. The outcome of the probe that was
    /// sent last, if any, is folded in; then the next probe leaves the
    /// queue and is handed out to be sent. `None` says that the queue is
    /// drained.
    pub fn perform_queries(&mut self, answered: Option<(Query, QueryOutcome)>) -> (r: Option<Query>)
        requires
            old(self)@.wf(),
        ensures
            (final(self)@, probe_view(r)) == old(self)@.perform_queries(answered_view(answered)),
            final(self)@.wf(),
    {
        self.answer(answered);
        self.take_next()
    }

    /// One step of the action loop. The outcome of the probe that was sent
    /// last, if any, is folded in. If a probe waits, it leaves the queue
    /// and is handed out to be sent. If none waits, a planning pass is
    /// made, and the first probe it queued is handed out. `None` says that
    /// the loop has reached its fixed point: the queue is drained and the
    /// planning pass has left the change counter where it was.
    pub fn action_loop(&mut self, answered: Option<(Query, QueryOutcome)>) -> (r: Option<Query>)
        requires
            old(self)@.wf(),
        ensures
            (final(self)@, probe_view(r)) == old(self)@.action_loop(answered_view(answered)),
            final(self)@.wf(),
            r is None <==> ({
                let folded = old(self)@.answered(answered_view(answered));
                folded.queue.len() == 0 && folded.generate_queries().change_num
                    == folded.change_num
            }),
    {
        self.answer(answered);
        if self.query_queue.len() > 0 {
            return self.take_next();
        }
        let change_num = self.change_num;
        proof {
            lemma_enqueue_all(self@, planned(self@.slots, self@.targets));
        }
        self.generate_queries();
        if change_num == self.change_num {
            // stable across the pass
            return None;
        }
        self.take_next()
    }

    /// The names that the store knows, each once, in ascending order.
    pub fn names(&self) -> (r: Vec<Name>)
        ensures
            views(r@) == names_of(self@.slots),
            self@.wf() ==> forall|i: int, j: int|
                0 <= i < j < r@.len() ==> name_lt((#[trigger] r@[i])@, (#[trigger] r@[j])@),
    {
        let ghost slots = self@.slots;
        let mut out: Vec<Name> = Vec::new();
        let mut i: usize = 0;
        assert(slots.take(0) =~= Seq::<SlotView>::empty());
        assert(views(out@) =~= Seq::<Seq<Seq<u8>>>::empty());
        while i < self.slots.len()
            invariant
                i <= self.slots.len(),
                slots == self@.slots,
                slots.len() == self.slots.len(),
                views(out@) == names_of(slots.take(i as int)),
            decreases self.slots.len() - i,
        {
            let slot = &self.slots[i];
            assert(slots[i as int] == slot@);
            assert(slots.take(i + 1).drop_last() =~= slots.take(i as int));
            if i == 0 || !self.slots[i - 1].name.same(&slot.name) {
                let ghost prev = views(out@);
                out.push(slot.name.clone());
                assert(views(out@) =~= prev.push(slot@.name));
            } else {
                assert(slots[i - 1] == self.slots[i - 1]@);
            }
            i += 1;
        }
        assert(slots.take(i as int) =~= slots);
        proof {
            if self@.wf() {
                lemma_names_of(slots);
                assert forall|i: int, j: int| 0 <= i < j < out@.len() implies name_lt(
                    (#[trigger] out@[i])@,
                    (#[trigger] out@[j])@,
                ) by {
                    assert(views(out@)[i] == out@[i]@);
                    assert(views(out@)[j] == out@[j]@);
                }
            }
        }
        out
    }

    /// The slots of the record store, in ascending order of name and
    /// server.
    pub fn slots(&self) -> (r: &Vec<Slot>)
        ensures
            views(r@) == self@.slots,
    {
        &self.slots
    }

    /// The delegation ledger.
    pub fn delegations(&self) -> (r: &Vec<Delegation>)
        ensures
            views(r@) == self@.delegations,
    {
        &self.delegations
    }

    /// The questions of the caller.
    pub fn answer_targets(&self) -> (r: &Vec<AnswerTarget>)
        ensures
            views(r@) == self@.answer_targets,
    {
        &self.answer_targets
    }

    /// The questions to put to zones.
    pub fn targets(&self) -> (r: &Vec<Target>)
        ensures
            views(r@) == self@.targets,
    {
        &self.targets
    }

    /// The probes whose exchange failed.
    pub fn failed(&self) -> (r: &Vec<Query>)
        ensures
            views(r@) == self@.failed,
    {
        &self.failed
    }

    /// The probes that wait to be sent, the next one first.
    pub fn query_queue(&self) -> (r: &VecDeque<Query>)
        ensures
            views(r@) == self@.queue,
    {
        &self.query_queue
    }
}

/// Whether the set holds the data.
fn holds(found: &Vec<RDataHash>, key: &RDataHash) -> (r: bool)
    ensures
        r == views(found@).contains(key@),
{
    let ghost all = views(found@);
    let mut i: usize = 0;
    while i < found.len()
        invariant
            i <= found.len(),
            all == views(found@),
            forall|j: int| 0 <= j < i ==> all[j] != key@,
        decreases found.len() - i,
    {
        if found[i].same(key) {
            assert(all[i as int] == key@);
            return true;
        }
        i += 1;
    }
    false
}

} // verus!
