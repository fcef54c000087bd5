//! The store as a mathematical value, and what each operation makes of it.

use vstd::prelude::*;
use crate::entry::{merge, server_lt, server_of, REntryView, RServer};
use crate::name::{
    is_zone_of, lemma_name_lt_irreflexive, lemma_name_lt_total, lemma_name_lt_transitive, name_lt,
};
use crate::record::{IpAddr, RDataView, RecordType, RecordView};

verus! {

/// A name as a mathematical value: its labels, the leftmost first.
pub type NameView = Seq<Seq<u8>>;

/// The values that a sequence of items holds.
pub open spec fn views<T: View>(items: Seq<T>) -> Seq<T::V> {
    Seq::new(items.len(), |i: int| items[i]@)
}

/// The root, as a value.
pub open spec fn root_name() -> NameView {
    Seq::empty()
}

/// One slot of the record store: what `server` said about `name`.
pub struct SlotView {
    pub name: NameView,
    pub server: RServer,
    pub entry: REntryView,
}

/// A question that the caller wants answered.
pub struct AnswerTargetView {
    pub name: NameView,
    pub rtype: RecordType,
}

/// A question to put to every name server of a zone.
pub struct TargetView {
    pub name: NameView,
    pub rtype: RecordType,
    pub zone: NameView,
}

/// An observed delegation: when `name` was asked of a server of `zone`, the
/// answer named `auth_ns` as a name server of `auth_zone`.
pub struct DelegationView {
    pub name: NameView,
    pub zone: NameView,
    pub auth_zone: NameView,
    pub auth_ns: NameView,
}

/// A probe: a question for one server, with the zone on whose behalf it is
/// asked.
pub struct QueryView {
    pub name: NameView,
    pub rtype: RecordType,
    pub server: IpAddr,
    pub zone: Option<NameView>,
}

/// The order of slot keys: by name, then by server.
pub open spec fn key_lt(n1: NameView, s1: RServer, n2: NameView, s2: RServer) -> bool {
    name_lt(n1, n2) || (n1 == n2 && server_lt(s1, s2))
}

/// Whether the slots stand in strictly ascending order of their keys, which
/// also means that no key occurs twice.
pub open spec fn sorted(slots: Seq<SlotView>) -> bool {
    forall|i: int, j: int|
        0 <= i < j < slots.len() ==> key_lt(
            #[trigger] slots[i].name,
            slots[i].server,
            #[trigger] slots[j].name,
            slots[j].server,
        )
}

pub proof fn lemma_key_lt_irreflexive(n: NameView, s: RServer)
    ensures
        !key_lt(n, s, n, s),
{
    lemma_name_lt_irreflexive(n);
}

pub proof fn lemma_key_lt_transitive(
    n1: NameView,
    s1: RServer,
    n2: NameView,
    s2: RServer,
    n3: NameView,
    s3: RServer,
)
    requires
        key_lt(n1, s1, n2, s2),
        key_lt(n2, s2, n3, s3),
    ensures
        key_lt(n1, s1, n3, s3),
{
    if name_lt(n1, n2) && name_lt(n2, n3) {
        lemma_name_lt_transitive(n1, n2, n3);
    }
}

pub proof fn lemma_key_lt_total(n1: NameView, s1: RServer, n2: NameView, s2: RServer)
    ensures
        key_lt(n1, s1, n2, s2) || (n1 == n2 && s1 == s2) || key_lt(n2, s2, n1, s1),
{
    lemma_name_lt_total(n1, n2);
}

/// The number of slots whose key sorts before `(name, server)`: where the
/// key stands, or would stand, in a sorted store.
pub open spec fn insertion_point(slots: Seq<SlotView>, name: NameView, server: RServer) -> nat
    decreases slots.len(),
{
    if slots.len() == 0 {
        0
    } else {
        let rest = insertion_point(slots.drop_last(), name, server);
        if key_lt(slots.last().name, slots.last().server, name, server) {
            rest + 1
        } else {
            rest
        }
    }
}

/// Whether the store has a slot for `server` under `name`.
pub open spec fn has_slot(slots: Seq<SlotView>, name: NameView, server: RServer) -> bool {
    exists|i: int|
        0 <= i < slots.len() && #[trigger] slots[i].name == name && slots[i].server == server
}

/// What `server` is known to have said about `name`, if anything.
pub open spec fn slot_entry(slots: Seq<SlotView>, name: NameView, server: RServer) -> Option<
    REntryView,
> {
    if has_slot(slots, name, server) {
        let i = choose|i: int|
            0 <= i < slots.len() && #[trigger] slots[i].name == name && slots[i].server == server;
        Some(slots[i].entry)
    } else {
        None
    }
}

/// The slots after `received` has been folded into the slot of `server`
/// under `name` by the promotion rule; the slot is made where there was
/// none.
pub open spec fn upsert(
    slots: Seq<SlotView>,
    name: NameView,
    server: RServer,
    received: REntryView,
) -> Seq<SlotView> {
    let i = insertion_point(slots, name, server) as int;
    if i < slots.len() && slots[i].name == name && slots[i].server == server {
        slots.update(i, SlotView { name, server, entry: merge(Some(slots[i].entry), received) })
    } else {
        slots.insert(i, SlotView { name, server, entry: merge(None, received) })
    }
}

/// In a sorted store the insertion point of a key is the one position
/// with only smaller keys before it and none at or after it.
pub proof fn lemma_insertion_point(slots: Seq<SlotView>, name: NameView, server: RServer, i: int)
    requires
        sorted(slots),
        0 <= i <= slots.len(),
        forall|j: int|
            0 <= j < i ==> key_lt(#[trigger] slots[j].name, slots[j].server, name, server),
        i < slots.len() ==> !key_lt(slots[i].name, slots[i].server, name, server),
    ensures
        insertion_point(slots, name, server) == i,
    decreases slots.len(),
{
    if slots.len() > 0 {
        let rest = slots.drop_last();
        let last = slots.last();
        if i == slots.len() {
            lemma_insertion_point(rest, name, server, i - 1);
        } else {
            if i < slots.len() - 1 && key_lt(last.name, last.server, name, server) {
                lemma_key_lt_transitive(
                    slots[i].name,
                    slots[i].server,
                    last.name,
                    last.server,
                    name,
                    server,
                );
            }
            lemma_insertion_point(rest, name, server, i);
        }
    }
}

/// The insertion point of a key lies within the store, keys before it are
/// smaller, and keys from it on are not.
pub proof fn lemma_insertion_point_splits(slots: Seq<SlotView>, name: NameView, server: RServer)
    requires
        sorted(slots),
    ensures
        insertion_point(slots, name, server) <= slots.len(),
        forall|j: int|
            0 <= j < insertion_point(slots, name, server) ==> key_lt(
                #[trigger] slots[j].name,
                slots[j].server,
                name,
                server,
            ),
        forall|j: int|
            insertion_point(slots, name, server) <= j < slots.len() ==> !key_lt(
                #[trigger] slots[j].name,
                slots[j].server,
                name,
                server,
            ),
    decreases slots.len(),
{
    if slots.len() > 0 {
        let rest = slots.drop_last();
        let last = slots.last();
        lemma_insertion_point_splits(rest, name, server);
        let p = insertion_point(rest, name, server) as int;
        if key_lt(last.name, last.server, name, server) {
            assert forall|j: int| 0 <= j < slots.len() implies key_lt(
                #[trigger] slots[j].name,
                slots[j].server,
                name,
                server,
            ) by {
                if j < slots.len() - 1 {
                    lemma_key_lt_transitive(
                        slots[j].name,
                        slots[j].server,
                        last.name,
                        last.server,
                        name,
                        server,
                    );
                }
            }
            if p < rest.len() {
                assert(!key_lt(rest[p].name, rest[p].server, name, server));
                assert(false);
            }
        } else {
            assert forall|j: int| p <= j < slots.len() implies !key_lt(
                #[trigger] slots[j].name,
                slots[j].server,
                name,
                server,
            ) by {
                if j < slots.len() - 1 {
                    assert(!key_lt(rest[j].name, rest[j].server, name, server));
                }
            }
            assert forall|j: int| 0 <= j < p implies key_lt(
                #[trigger] slots[j].name,
                slots[j].server,
                name,
                server,
            ) by {
                assert(key_lt(rest[j].name, rest[j].server, name, server));
            }
        }
    }
}

/// A key that the store holds stands at its insertion point, and nowhere
/// else.
pub proof fn lemma_slot_position(slots: Seq<SlotView>, name: NameView, server: RServer)
    requires
        sorted(slots),
    ensures
        has_slot(slots, name, server) <==> ({
            let i = insertion_point(slots, name, server) as int;
            i < slots.len() && slots[i].name == name && slots[i].server == server
        }),
        has_slot(slots, name, server) ==> slot_entry(slots, name, server) == Some(
            slots[insertion_point(slots, name, server) as int].entry,
        ),
        forall|j: int|
            0 <= j < slots.len() && #[trigger] slots[j].name == name && slots[j].server == server
                ==> j == insertion_point(slots, name, server),
{
    lemma_insertion_point_splits(slots, name, server);
    let p = insertion_point(slots, name, server) as int;
    assert forall|j: int|
        0 <= j < slots.len() && #[trigger] slots[j].name == name && slots[j].server
            == server implies j == p by {
        lemma_key_lt_irreflexive(name, server);
        if j > p {
            // slots[p] sorts before slots[j], whose key is the one sought
            assert(key_lt(slots[p].name, slots[p].server, slots[j].name, slots[j].server));
        }
    }
    if p < slots.len() && slots[p].name == name && slots[p].server == server {
        assert(has_slot(slots, name, server));
    }
}

/// Folding into a sorted store leaves it sorted.
pub proof fn lemma_upsert_sorted(
    slots: Seq<SlotView>,
    name: NameView,
    server: RServer,
    received: REntryView,
)
    requires
        sorted(slots),
    ensures
        sorted(upsert(slots, name, server, received)),
{
    lemma_insertion_point_splits(slots, name, server);
    let p = insertion_point(slots, name, server) as int;
    let after = upsert(slots, name, server, received);
    if p < slots.len() && slots[p].name == name && slots[p].server == server {
        assert forall|i: int, j: int| 0 <= i < j < after.len() implies key_lt(
            #[trigger] after[i].name,
            after[i].server,
            #[trigger] after[j].name,
            after[j].server,
        ) by {
            assert(key_lt(slots[i].name, slots[i].server, slots[j].name, slots[j].server));
        }
    } else {
        assert forall|i: int, j: int| 0 <= i < j < after.len() implies key_lt(
            #[trigger] after[i].name,
            after[i].server,
            #[trigger] after[j].name,
            after[j].server,
        ) by {
            if j < p {
                assert(key_lt(slots[i].name, slots[i].server, slots[j].name, slots[j].server));
            } else if j == p {
                assert(key_lt(slots[i].name, slots[i].server, name, server));
            } else if i == p {
                let q = j - 1;
                assert(!key_lt(slots[q].name, slots[q].server, name, server));
                lemma_key_lt_total(slots[q].name, slots[q].server, name, server);
                if slots[q].name == name && slots[q].server == server {
                    if q > p {
                        assert(key_lt(
                            slots[p].name,
                            slots[p].server,
                            slots[q].name,
                            slots[q].server,
                        ));
                    }
                }
            } else if i < p {
                let q = j - 1;
                assert(key_lt(slots[i].name, slots[i].server, slots[q].name, slots[q].server));
            } else {
                let q = j - 1;
                let r = i - 1;
                assert(key_lt(slots[r].name, slots[r].server, slots[q].name, slots[q].server));
            }
        }
    }
}

/// In a sorted store the slot at a position is the one that its key finds.
pub proof fn lemma_slot_entry_at(slots: Seq<SlotView>, i: int)
    requires
        sorted(slots),
        0 <= i < slots.len(),
    ensures
        has_slot(slots, slots[i].name, slots[i].server),
        slot_entry(slots, slots[i].name, slots[i].server) == Some(slots[i].entry),
{
    let name = slots[i].name;
    let server = slots[i].server;
    assert(has_slot(slots, name, server));
    let c = choose|c: int|
        0 <= c < slots.len() && #[trigger] slots[c].name == name && slots[c].server == server;
    lemma_key_lt_irreflexive(name, server);
    if c < i {
        assert(key_lt(slots[c].name, slots[c].server, slots[i].name, slots[i].server));
    } else if i < c {
        assert(key_lt(slots[i].name, slots[i].server, slots[c].name, slots[c].server));
    }
}

/// Folding into a store changes the one slot it names, by the promotion
/// rule, and no other.
pub proof fn lemma_upsert_entry(
    slots: Seq<SlotView>,
    name: NameView,
    server: RServer,
    received: REntryView,
    n: NameView,
    s: RServer,
)
    requires
        sorted(slots),
    ensures
        slot_entry(upsert(slots, name, server, received), n, s) == if n == name && s == server {
            Some(merge(slot_entry(slots, name, server), received))
        } else {
            slot_entry(slots, n, s)
        },
        has_slot(upsert(slots, name, server, received), n, s) <==> (n == name && s == server)
            || has_slot(slots, n, s),
{
    let after = upsert(slots, name, server, received);
    lemma_upsert_sorted(slots, name, server, received);
    lemma_slot_position(slots, name, server);
    let p = insertion_point(slots, name, server) as int;
    let found = p < slots.len() && slots[p].name == name && slots[p].server == server;
    assert(0 <= p <= slots.len()) by {
        lemma_insertion_point_splits(slots, name, server);
    }
    if n == name && s == server {
        assert(after[p].name == name && after[p].server == server);
        lemma_slot_entry_at(after, p);
        if found {
            lemma_slot_entry_at(slots, p);
        }
    } else if has_slot(slots, n, s) {
        let q = choose|q: int|
            0 <= q < slots.len() && #[trigger] slots[q].name == n && slots[q].server == s;
        lemma_slot_entry_at(slots, q);
        let q2 = if found || q < p {
            q
        } else {
            q + 1
        };
        assert(after[q2] == slots[q]);
        lemma_slot_entry_at(after, q2);
    } else if has_slot(after, n, s) {
        let q2 = choose|q: int|
            0 <= q < after.len() && #[trigger] after[q].name == n && after[q].server == s;
        let q = if found || q2 < p {
            q2
        } else {
            q2 - 1
        };
        assert(q2 != p);
        assert(slots[q].name == n && slots[q].server == s);
        assert(false);
    }
}

/// The change counter after `n` more changes: it counts up to `u64::MAX`
/// and stays there, so that it never goes back.
pub open spec fn bump(counter: nat, n: nat) -> nat {
    if counter + n <= u64::MAX {
        counter + n
    } else {
        u64::MAX as nat
    }
}

/// The data that a root hint for `ip` injects.
pub open spec fn hint_rdata(ip: IpAddr) -> RDataView {
    match ip {
        IpAddr::V4(addr) => RDataView::A(addr),
        IpAddr::V6(addr) => RDataView::AAAA(addr),
    }
}

/// Whether the slot is in one of the states that a slot can be in: data is
/// one piece or more, and under `Hint` there is nothing but data.
pub open spec fn sound_slot(slot: SlotView) -> bool {
    match slot.entry {
        REntryView::Entries(items) => items.len() > 0,
        _ => !(slot.server is Hint),
    }
}

/// Whether every slot is in one of the states that a slot can be in.
pub open spec fn sound(slots: Seq<SlotView>) -> bool {
    forall|i: int| 0 <= i < slots.len() ==> sound_slot(#[trigger] slots[i])
}

/// The store as a mathematical value.
pub struct RecordDBView {
    /// The record store, in ascending order of name and server.
    pub slots: Seq<SlotView>,
    /// The delegation ledger, each delegation once, in order of first
    /// observation.
    pub delegations: Seq<DelegationView>,
    /// The caller's questions, each once, in order of arrival.
    pub answer_targets: Seq<AnswerTargetView>,
    /// The questions to put to zones, each once, in order of arrival.
    pub targets: Seq<TargetView>,
    /// The probes that wait to be sent, the next one first.
    pub queue: Seq<QueryView>,
    /// The probes whose exchange failed, in the order of failing. They are
    /// not sent again.
    pub failed: Seq<QueryView>,
    /// The change counter.
    pub change_num: nat,
}

impl RecordDBView {
    /// The invariant of the store.
    pub open spec fn wf(self) -> bool {
        &&& self.change_num <= u64::MAX
        &&& sorted(self.slots)
        &&& sound(self.slots)
        &&& self.delegations.no_duplicates()
        &&& self.answer_targets.no_duplicates()
        &&& self.targets.no_duplicates()
        &&& forall|i: int|
            0 <= i < self.answer_targets.len() ==> self.targets.contains(
                TargetView {
                    name: (#[trigger] self.answer_targets[i]).name,
                    rtype: self.answer_targets[i].rtype,
                    zone: root_name(),
                },
            )
    }

    /// The store that holds nothing.
    pub open spec fn empty() -> RecordDBView {
        RecordDBView {
            slots: Seq::empty(),
            delegations: Seq::empty(),
            answer_targets: Seq::empty(),
            targets: Seq::empty(),
            queue: Seq::empty(),
            failed: Seq::empty(),
            change_num: 0,
        }
    }

    /// The store with other slots.
    pub open spec fn with_slots(self, slots: Seq<SlotView>) -> RecordDBView {
        RecordDBView {
            slots,
            delegations: self.delegations,
            answer_targets: self.answer_targets,
            targets: self.targets,
            queue: self.queue,
            failed: self.failed,
            change_num: self.change_num,
        }
    }

    /// The store after `n` more changes have been counted.
    pub open spec fn bumped(self, n: nat) -> RecordDBView {
        RecordDBView {
            slots: self.slots,
            delegations: self.delegations,
            answer_targets: self.answer_targets,
            targets: self.targets,
            queue: self.queue,
            failed: self.failed,
            change_num: bump(self.change_num, n),
        }
    }

    /// After one root hint: the address of `name` stands under `Hint` at
    /// `name`, and `name` as a name server under `Hint` at the root.
    pub open spec fn add_root_hint(self, name: NameView, ip: IpAddr) -> RecordDBView {
        let with_address = upsert(
            self.slots,
            name,
            RServer::Hint,
            REntryView::Entries(seq![hint_rdata(ip)]),
        );
        self.with_slots(
            upsert(
                with_address,
                root_name(),
                RServer::Hint,
                REntryView::Entries(seq![RDataView::NS(name)]),
            ),
        )
    }

    /// After the root hints, taken in their order.
    pub open spec fn add_root_hints(self, hints: Seq<(NameView, IpAddr)>) -> RecordDBView
        decreases hints.len(),
    {
        if hints.len() == 0 {
            self
        } else {
            self.add_root_hints(hints.drop_last()).add_root_hint(hints.last().0, hints.last().1)
        }
    }

    /// After a record that the server at `ip` gave.
    pub open spec fn add_record(self, record: RecordView, ip: IpAddr) -> RecordDBView {
        self.with_slots(
            upsert(
                self.slots,
                record.name,
                server_of(ip),
                REntryView::Entries(seq![record.rdata]),
            ),
        ).bumped(1)
    }

    /// After the observation `rentry` of the server at `ip` about `name`.
    pub open spec fn add_rentry(
        self,
        name: NameView,
        rentry: REntryView,
        ip: IpAddr,
    ) -> RecordDBView {
        self.with_slots(upsert(self.slots, name, server_of(ip), rentry)).bumped(1)
    }

    /// After a delegation has been observed.
    pub open spec fn add_delegation(self, delegation: DelegationView) -> RecordDBView {
        RecordDBView {
            slots: self.slots,
            delegations: if self.delegations.contains(delegation) {
                self.delegations
            } else {
                self.delegations.push(delegation)
            },
            answer_targets: self.answer_targets,
            targets: self.targets,
            queue: self.queue,
            failed: self.failed,
            change_num: bump(self.change_num, 1),
        }
    }

    /// After a question for a zone has been registered; nothing changes
    /// when the store has it already.
    pub open spec fn add_target(self, target: TargetView) -> RecordDBView {
        if self.targets.contains(target) {
            self
        } else {
            RecordDBView {
                slots: self.slots,
                delegations: self.delegations,
                answer_targets: self.answer_targets,
                targets: self.targets.push(target),
                queue: self.queue,
                failed: self.failed,
                change_num: bump(self.change_num, 1),
            }
        }
    }

    /// After the caller has asked for `rtype` of `name`: the question is
    /// registered, and so is the question for the root zone that starts its
    /// resolution. The counter moves once if either is new.
    pub open spec fn add_answer_target(self, name: NameView, rtype: RecordType) -> RecordDBView {
        let answer = AnswerTargetView { name, rtype };
        let target = TargetView { name, rtype, zone: root_name() };
        let grew = !self.answer_targets.contains(answer) || !self.targets.contains(target);
        RecordDBView {
            slots: self.slots,
            delegations: self.delegations,
            answer_targets: if self.answer_targets.contains(answer) {
                self.answer_targets
            } else {
                self.answer_targets.push(answer)
            },
            targets: if self.targets.contains(target) {
                self.targets
            } else {
                self.targets.push(target)
            },
            queue: self.queue,
            failed: self.failed,
            change_num: if grew {
                bump(self.change_num, 1)
            } else {
                self.change_num
            },
        }
    }

    /// Whether the caller has asked for `rtype` of `name`.
    pub open spec fn is_answer_target(self, name: NameView, rtype: RecordType) -> bool {
        self.answer_targets.contains(AnswerTargetView { name, rtype })
    }
}

/// What each server is known to have said about `name`, in ascending order
/// of the servers.
pub open spec fn records_of(slots: Seq<SlotView>, name: NameView) -> Seq<(RServer, REntryView)>
    decreases slots.len(),
{
    if slots.len() == 0 {
        Seq::empty()
    } else {
        let rest = records_of(slots.drop_last(), name);
        if slots.last().name == name {
            rest.push((slots.last().server, slots.last().entry))
        } else {
            rest
        }
    }
}

/// All the data that servers gave for `name`, server by server in the
/// order of the slots, and for each server in the order of arrival.
pub open spec fn entries_of(slots: Seq<SlotView>, name: NameView) -> Seq<RDataView>
    decreases slots.len(),
{
    if slots.len() == 0 {
        Seq::empty()
    } else {
        let rest = entries_of(slots.drop_last(), name);
        match slots.last().entry {
            REntryView::Entries(items) => if slots.last().name == name {
                rest + items
            } else {
                rest
            },
            _ => rest,
        }
    }
}

/// Whether a deduplicated read for `rtype` takes the data: it is of that
/// type, and the type is in the closed set.
pub open spec fn wanted(rdata: RDataView, rtype: RecordType) -> bool {
    rdata.record_type() == rtype && rdata.is_known()
}

/// The data of type `rtype` among `items`, each piece once, in the order of
/// first occurrence.
pub open spec fn distinct_of_type(items: Seq<RDataView>, rtype: RecordType) -> Seq<RDataView>
    decreases items.len(),
{
    if items.len() == 0 {
        Seq::empty()
    } else {
        let rest = distinct_of_type(items.drop_last(), rtype);
        if wanted(items.last(), rtype) && !rest.contains(items.last()) {
            rest.push(items.last())
        } else {
            rest
        }
    }
}

/// The record set of `name` for `rtype`: what any server gave, each piece
/// once.
pub open spec fn record_set(slots: Seq<SlotView>, name: NameView, rtype: RecordType) -> Seq<
    RDataView,
> {
    distinct_of_type(entries_of(slots, name), rtype)
}

/// A deduplicated read holds data of the type asked for and no other, each
/// piece once, and every such piece among the items.
pub proof fn lemma_distinct_of_type(items: Seq<RDataView>, rtype: RecordType)
    ensures
        distinct_of_type(items, rtype).no_duplicates(),
        forall|x: RDataView| #[trigger]
            distinct_of_type(items, rtype).contains(x) <==> items.contains(x) && wanted(x, rtype),
    decreases items.len(),
{
    let out = distinct_of_type(items, rtype);
    if items.len() > 0 {
        let front = items.drop_last();
        let rest = distinct_of_type(front, rtype);
        lemma_distinct_of_type(front, rtype);
        assert forall|x: RDataView| #[trigger] out.contains(x) <==> items.contains(x) && wanted(
            x,
            rtype,
        ) by {
            if out.contains(x) {
                let k = choose|k: int| 0 <= k < out.len() && out[k] == x;
                if k < rest.len() {
                    assert(rest[k] == x);
                    assert(rest.contains(x));
                    let m = choose|m: int| 0 <= m < front.len() && front[m] == x;
                    assert(items[m] == x);
                } else {
                    assert(items[items.len() - 1] == x);
                }
            }
            if items.contains(x) && wanted(x, rtype) {
                let m = choose|m: int| 0 <= m < items.len() && items[m] == x;
                if m < front.len() {
                    assert(front[m] == x);
                    assert(front.contains(x));
                    assert(rest.contains(x));
                    let k = choose|k: int| 0 <= k < rest.len() && rest[k] == x;
                    assert(out[k] == x);
                } else if rest.contains(x) {
                    let k = choose|k: int| 0 <= k < rest.len() && rest[k] == x;
                    assert(out[k] == x);
                } else {
                    assert(out[out.len() - 1] == x);
                }
            }
        }
        assert forall|i: int, j: int|
            0 <= i < out.len() && 0 <= j < out.len() && i != j implies out[i] != out[j] by {
            if i < rest.len() && j < rest.len() {
                assert(rest[i] != rest[j]);
            } else if i < rest.len() {
                assert(rest[i] == out[i]);
                assert(rest.contains(out[i]));
            } else if j < rest.len() {
                assert(rest[j] == out[j]);
                assert(rest.contains(out[j]));
            }
        }
    }
}

/// The number of labels of the longest stored name that is `name` or an
/// ancestor of it; 0 when there is none.
pub open spec fn closest_depth(slots: Seq<SlotView>, name: NameView) -> nat
    decreases slots.len(),
{
    if slots.len() == 0 {
        0
    } else {
        let rest = closest_depth(slots.drop_last(), name);
        let candidate = slots.last().name;
        if is_zone_of(candidate, name) && candidate.len() > rest {
            candidate.len()
        } else {
            rest
        }
    }
}

/// The closest enclosing zone of `name` that the store knows: the longest
/// stored name that is `name` or an ancestor of it, or the root.
pub open spec fn closest_zone(slots: Seq<SlotView>, name: NameView) -> NameView {
    name.subrange(name.len() - closest_depth(slots, name), name.len() as int)
}

/// The closest depth is that of a stored zone of the name, unless it is 0,
/// and no stored zone of the name is deeper.
pub proof fn lemma_closest_depth(slots: Seq<SlotView>, name: NameView)
    ensures
        closest_depth(slots, name) <= name.len(),
        forall|i: int|
            0 <= i < slots.len() && is_zone_of(#[trigger] slots[i].name, name)
                ==> slots[i].name.len() <= closest_depth(slots, name),
        closest_depth(slots, name) == 0 || exists|i: int|
            0 <= i < slots.len() && is_zone_of(#[trigger] slots[i].name, name)
                && slots[i].name.len() == closest_depth(slots, name),
    decreases slots.len(),
{
    if slots.len() > 0 {
        let front = slots.drop_last();
        lemma_closest_depth(front, name);
        let rest = closest_depth(front, name);
        let candidate = slots.last().name;
        assert forall|i: int|
            0 <= i < slots.len() && is_zone_of(
                #[trigger] slots[i].name,
                name,
            ) implies slots[i].name.len() <= closest_depth(slots, name) by {
            if i < front.len() {
                assert(front[i].name == slots[i].name);
            }
        }
        if is_zone_of(candidate, name) && candidate.len() > rest {
            assert(slots[slots.len() - 1].name == candidate);
        } else if rest != 0 {
            let i = choose|i: int|
                0 <= i < front.len() && is_zone_of(#[trigger] front[i].name, name)
                    && front[i].name.len() == rest;
            assert(slots[i].name == front[i].name);
        }
    }
}

/// Whether two probes put the same question to the same server.
pub open spec fn same_probe(a: QueryView, b: QueryView) -> bool {
    a.name == b.name && a.rtype == b.rtype && a.server == b.server
}

/// Whether the queue holds a probe that puts the question of `probe` to the
/// server of `probe`.
pub open spec fn is_queued(queue: Seq<QueryView>, probe: QueryView) -> bool {
    exists|i: int| 0 <= i < queue.len() && same_probe(#[trigger] queue[i], probe)
}

/// The probes that put `target` to the servers at `addresses`: one for
/// each address from which the store has nothing about the target's name.
pub open spec fn probes_to(
    slots: Seq<SlotView>,
    target: TargetView,
    addresses: Seq<RDataView>,
) -> Seq<QueryView>
    decreases addresses.len(),
{
    if addresses.len() == 0 {
        Seq::empty()
    } else {
        let rest = probes_to(slots, target, addresses.drop_last());
        match addresses.last().ip_addr() {
            Some(ip) => if has_slot(slots, target.name, server_of(ip)) {
                rest
            } else {
                rest.push(
                    QueryView {
                        name: target.name,
                        rtype: target.rtype,
                        server: ip,
                        zone: Some(target.zone),
                    },
                )
            },
            None => rest,
        }
    }
}

/// The probes that put `target` to the name servers that `servers` names,
/// at the IPv4 addresses that the store knows for each. A name server
/// without a known address gives none.
pub open spec fn probes_via(
    slots: Seq<SlotView>,
    target: TargetView,
    servers: Seq<RDataView>,
) -> Seq<QueryView>
    decreases servers.len(),
{
    if servers.len() == 0 {
        Seq::empty()
    } else {
        let rest = probes_via(slots, target, servers.drop_last());
        match servers.last().ns_target() {
            Some(host) => rest + probes_to(slots, target, record_set(slots, host, RecordType::A)),
            None => rest,
        }
    }
}

/// The probes that `target` asks for: its question for every name server
/// of its zone from which the store has nothing about its name.
pub open spec fn probes_for(slots: Seq<SlotView>, target: TargetView) -> Seq<QueryView> {
    probes_via(slots, target, record_set(slots, target.zone, RecordType::NS))
}

/// The probes that the targets ask for, target by target.
pub open spec fn planned(slots: Seq<SlotView>, targets: Seq<TargetView>) -> Seq<QueryView>
    decreases targets.len(),
{
    if targets.len() == 0 {
        Seq::empty()
    } else {
        planned(slots, targets.drop_last()) + probes_for(slots, targets.last())
    }
}

impl RecordDBView {
    /// The store with another queue.
    pub open spec fn with_queue(self, queue: Seq<QueryView>) -> RecordDBView {
        RecordDBView {
            slots: self.slots,
            delegations: self.delegations,
            answer_targets: self.answer_targets,
            targets: self.targets,
            queue,
            failed: self.failed,
            change_num: self.change_num,
        }
    }

    /// Whether `probe` is kept from the queue: its question already waits
    /// for its server, or the exchange of such a probe has failed, or the
    /// change counter has no room to count it.
    pub open spec fn is_barred(self, probe: QueryView) -> bool {
        is_queued(self.queue, probe) || is_queued(self.failed, probe) || self.change_num
            >= u64::MAX
    }

    /// After `probe` has been handed to the queue: it joins the end and is
    /// counted as a change, unless it is barred.
    pub open spec fn enqueue(self, probe: QueryView) -> RecordDBView {
        if self.is_barred(probe) {
            self
        } else {
            self.with_queue(self.queue.push(probe)).bumped(1)
        }
    }

    /// After the probes have been handed to the queue in their order.
    pub open spec fn enqueue_all(self, probes: Seq<QueryView>) -> RecordDBView
        decreases probes.len(),
    {
        if probes.len() == 0 {
            self
        } else {
            self.enqueue_all(probes.drop_last()).enqueue(probes.last())
        }
    }

    /// After a planning pass: the probes that the targets ask for have been
    /// handed to the queue, and the counter has moved once for each probe
    /// that joined it.
    pub open spec fn generate_queries(self) -> RecordDBView {
        self.enqueue_all(planned(self.slots, self.targets))
    }

    /// The store with another memory of failed probes.
    pub open spec fn with_failed(self, failed: Seq<QueryView>) -> RecordDBView {
        RecordDBView {
            slots: self.slots,
            delegations: self.delegations,
            answer_targets: self.answer_targets,
            targets: self.targets,
            queue: self.queue,
            failed,
            change_num: self.change_num,
        }
    }

    /// After the exchange of `probe` has failed: the probe is remembered,
    /// once, so that it is not sent again. Nothing else changes.
    pub open spec fn note_failure(self, probe: QueryView) -> RecordDBView {
        RecordDBView {
            slots: self.slots,
            delegations: self.delegations,
            answer_targets: self.answer_targets,
            targets: self.targets,
            queue: self.queue,
            failed: if is_queued(self.failed, probe) {
                self.failed
            } else {
                self.failed.push(probe)
            },
            change_num: self.change_num,
        }
    }
}

/// Handing probes to the queue touches the queue and the counter only:
/// what the queue held stays in place, the counter moves once for each
/// probe that joined, and every probe handed over is barred afterwards.
pub proof fn lemma_enqueue_all(db: RecordDBView, probes: Seq<QueryView>)
    requires
        db.change_num <= u64::MAX,
    ensures
        db.enqueue_all(probes) == db.with_queue(db.enqueue_all(probes).queue).bumped(
            (db.enqueue_all(probes).queue.len() - db.queue.len()) as nat,
        ),
        db.queue.len() <= db.enqueue_all(probes).queue.len(),
        db.enqueue_all(probes).queue.take(db.queue.len() as int) == db.queue,
        db.enqueue_all(probes).change_num == db.change_num + db.enqueue_all(probes).queue.len()
            - db.queue.len(),
        db.enqueue_all(probes).change_num <= u64::MAX,
        forall|p: QueryView| db.is_barred(p) ==> #[trigger] db.enqueue_all(probes).is_barred(p),
        forall|i: int|
            0 <= i < probes.len() ==> db.enqueue_all(probes).is_barred(#[trigger] probes[i]),
    decreases probes.len(),
{
    let after = db.enqueue_all(probes);
    if probes.len() == 0 {
        assert(db.queue.take(db.queue.len() as int) =~= db.queue);
    } else {
        let front = probes.drop_last();
        let last = probes.last();
        let mid = db.enqueue_all(front);
        lemma_enqueue_all(db, front);
        assert(after.queue.take(db.queue.len() as int) =~= mid.queue.take(db.queue.len() as int));
        assert forall|p: QueryView| mid.is_barred(p) implies after.is_barred(p) by {
            if is_queued(mid.queue, p) {
                let k = choose|k: int| 0 <= k < mid.queue.len() && same_probe(
                    #[trigger] mid.queue[k],
                    p,
                );
                assert(same_probe(after.queue[k], p));
            }
        }
        assert forall|p: QueryView| db.is_barred(p) implies #[trigger] after.is_barred(p) by {
            assert(mid.is_barred(p));
        }
        assert forall|i: int| 0 <= i < probes.len() implies after.is_barred(
            #[trigger] probes[i],
        ) by {
            if i < front.len() {
                assert(front[i] == probes[i]);
                assert(mid.is_barred(front[i]));
            } else if !mid.is_barred(last) {
                assert(same_probe(after.queue[after.queue.len() - 1], last));
            }
        }
    }
}

/// One message of a response, section by section.
pub struct MessageView {
    pub answers: Seq<RecordView>,
    pub additionals: Seq<RecordView>,
    pub name_servers: Seq<RecordView>,
}

/// How a probe ended.
pub enum OutcomeView {
    /// The server answered with these messages.
    Response(Seq<MessageView>),
    /// The server did not answer in time.
    Timeout,
    /// The exchange failed otherwise; the text says how.
    Failed(Seq<char>),
}

/// Whether any of the messages has a record in its answer section.
pub open spec fn has_answer(messages: Seq<MessageView>) -> bool {
    exists|i: int| 0 <= i < messages.len() && (#[trigger] messages[i]).answers.len() > 0
}

impl RecordDBView {
    /// After the records, in their order, that the server at `ip` gave.
    pub open spec fn add_records(self, records: Seq<RecordView>, ip: IpAddr) -> RecordDBView
        decreases records.len(),
    {
        if records.len() == 0 {
            self
        } else {
            self.add_records(records.drop_last(), ip).add_record(records.last(), ip)
        }
    }

    /// After a record of the authority section of an answer to the probe
    /// for `rtype` of `name`: the record is stored; if it names a name
    /// server and the probe was sent on behalf of a zone, the delegation is
    /// noted; and if the probe's question is one of the caller's, the
    /// question becomes a target for the zone that owns the record.
    pub open spec fn add_authority(
        self,
        record: RecordView,
        ip: IpAddr,
        name: NameView,
        rtype: RecordType,
        zone: Option<NameView>,
    ) -> RecordDBView {
        let stored = self.add_record(record, ip);
        let noted = match (record.rdata.ns_target(), zone) {
            (Some(auth_ns), Some(zone)) => stored.add_delegation(
                DelegationView { name, zone, auth_zone: record.name, auth_ns },
            ),
            _ => stored,
        };
        if noted.is_answer_target(name, rtype) {
            noted.add_target(TargetView { name, rtype, zone: record.name })
        } else {
            noted
        }
    }

    /// After the records of an authority section, in their order.
    pub open spec fn add_authorities(
        self,
        records: Seq<RecordView>,
        ip: IpAddr,
        name: NameView,
        rtype: RecordType,
        zone: Option<NameView>,
    ) -> RecordDBView
        decreases records.len(),
    {
        if records.len() == 0 {
            self
        } else {
            self.add_authorities(records.drop_last(), ip, name, rtype, zone).add_authority(
                records.last(),
                ip,
                name,
                rtype,
                zone,
            )
        }
    }

    /// After a message: its answers, then its additional records, then its
    /// authority section.
    pub open spec fn add_message(
        self,
        message: MessageView,
        ip: IpAddr,
        name: NameView,
        rtype: RecordType,
        zone: Option<NameView>,
    ) -> RecordDBView {
        self.add_records(message.answers, ip).add_records(message.additionals, ip).add_authorities(
            message.name_servers,
            ip,
            name,
            rtype,
            zone,
        )
    }

    /// After the messages of a response, in their order.
    pub open spec fn add_messages(
        self,
        messages: Seq<MessageView>,
        ip: IpAddr,
        name: NameView,
        rtype: RecordType,
        zone: Option<NameView>,
    ) -> RecordDBView
        decreases messages.len(),
    {
        if messages.len() == 0 {
            self
        } else {
            self.add_messages(messages.drop_last(), ip, name, rtype, zone).add_message(
                messages.last(),
                ip,
                name,
                rtype,
                zone,
            )
        }
    }

    /// After the outcome of the probe that asked the server at `ip` for
    /// `rtype` of `name` on behalf of `zone`. A time-out is recorded as
    /// such. A response is folded in whole, and where none of its messages
    /// held an answer the server is recorded as having none. A failed
    /// exchange leaves records, targets, ledger and counter as they were;
    /// its probe is remembered as failed.
    pub open spec fn ingest(
        self,
        ip: IpAddr,
        name: NameView,
        rtype: RecordType,
        zone: Option<NameView>,
        outcome: OutcomeView,
    ) -> RecordDBView {
        match outcome {
            OutcomeView::Timeout => self.add_rentry(name, REntryView::TimeOut, ip),
            OutcomeView::Failed(_) => self.note_failure(
                QueryView { name, rtype, server: ip, zone },
            ),
            OutcomeView::Response(messages) => {
                let folded = self.add_messages(messages, ip, name, rtype, zone);
                if has_answer(messages) {
                    folded
                } else {
                    folded.add_rentry(name, REntryView::NoEntry, ip)
                }
            },
        }
    }
}

impl RecordDBView {
    /// After the outcome of a probe, if there is one, has been folded in.
    pub open spec fn answered(self, answered: Option<(QueryView, OutcomeView)>) -> RecordDBView {
        match answered {
            Some((probe, outcome)) => self.ingest(
                probe.server,
                probe.name,
                probe.rtype,
                probe.zone,
                outcome,
            ),
            None => self,
        }
    }

    /// The probe to send next, if any waits.
    pub open spec fn next_probe(self) -> Option<QueryView> {
        if self.queue.len() > 0 {
            Some(self.queue[0])
        } else {
            None
        }
    }

    /// The store once the next probe has left the queue.
    pub open spec fn without_next(self) -> RecordDBView {
        if self.queue.len() > 0 {
            self.with_queue(self.queue.skip(1))
        } else {
            self
        }
    }

    /// One step of draining the queue: the outcome of the probe sent last is
    /// folded in, and the next probe leaves the queue to be sent.
    pub open spec fn perform_queries(self, answered: Option<(QueryView, OutcomeView)>) -> (
        RecordDBView,
        Option<QueryView>,
    ) {
        let folded = self.answered(answered);
        (folded.without_next(), folded.next_probe())
    }

    /// One step of the action loop: the outcome of the probe sent last is
    /// folded in; the next probe leaves the queue to be sent; and when none
    /// waits, a planning pass is made first. No probe comes back exactly
    /// when the queue is drained and the planning pass leaves the counter
    /// where it was: the fixed point.
    pub open spec fn action_loop(self, answered: Option<(QueryView, OutcomeView)>) -> (
        RecordDBView,
        Option<QueryView>,
    ) {
        let folded = self.answered(answered);
        if folded.queue.len() > 0 {
            (folded.without_next(), folded.next_probe())
        } else {
            let replanned = folded.generate_queries();
            if replanned.change_num == folded.change_num {
                (replanned, None)
            } else {
                (replanned.without_next(), replanned.next_probe())
            }
        }
    }
}

/// Folding one piece of data or more, or under a server other than `Hint`
/// a time-out or a denial, into a store leaves every slot in one of the
/// states that a slot can be in.
pub proof fn lemma_upsert_sound(
    slots: Seq<SlotView>,
    name: NameView,
    server: RServer,
    received: REntryView,
)
    requires
        sorted(slots),
        sound(slots),
        sound_slot(SlotView { name, server, entry: received }),
    ensures
        sound(upsert(slots, name, server, received)),
{
    let after = upsert(slots, name, server, received);
    lemma_insertion_point_splits(slots, name, server);
    let p = insertion_point(slots, name, server) as int;
    assert forall|i: int| 0 <= i < after.len() implies sound_slot(#[trigger] after[i]) by {
        if p < slots.len() && slots[p].name == name && slots[p].server == server {
            assert(sound_slot(slots[i]));
        } else {
            if i < p {
                assert(after[i] == slots[i]);
            } else if i > p {
                assert(after[i] == slots[i - 1]);
            }
        }
    }
}

/// A new target leaves the store well formed.
pub proof fn lemma_push_keeps(before: RecordDBView, target: TargetView)
    requires
        before.wf(),
    ensures
        !before.targets.contains(target) ==> before.targets.push(target).no_duplicates(),
        forall|t: TargetView|
            before.targets.contains(t) ==> #[trigger] before.targets.push(target).contains(t),
{
    let after = before.targets.push(target);
    assert forall|t: TargetView| before.targets.contains(t) implies #[trigger] after.contains(
        t,
    ) by {
        let k = choose|k: int| 0 <= k < before.targets.len() && before.targets[k] == t;
        assert(after[k] == t);
    }
    if !before.targets.contains(target) {
        assert forall|i: int, j: int|
            0 <= i < after.len() && 0 <= j < after.len() && i != j implies after[i] != after[j] by {
            if i < before.targets.len() && j < before.targets.len() {
                assert(before.targets[i] != before.targets[j]);
            } else if i < before.targets.len() {
                assert(before.targets.contains(after[i]));
            } else if j < before.targets.len() {
                assert(before.targets.contains(after[j]));
            }
        }
    }
}

/// The names that the store knows, each once, in the order of the slots.
pub open spec fn names_of(slots: Seq<SlotView>) -> Seq<NameView>
    decreases slots.len(),
{
    if slots.len() == 0 {
        Seq::empty()
    } else {
        let rest = names_of(slots.drop_last());
        if slots.len() >= 2 && slots[slots.len() - 2].name == slots.last().name {
            rest
        } else {
            rest.push(slots.last().name)
        }
    }
}

/// Whether the store has a slot under `name`.
pub open spec fn knows_name(slots: Seq<SlotView>, name: NameView) -> bool {
    exists|i: int| 0 <= i < slots.len() && #[trigger] slots[i].name == name
}

/// The names of a sorted store end with the name of its last slot, stand in
/// ascending order, and are the names of its slots.
pub proof fn lemma_names_of(slots: Seq<SlotView>)
    requires
        sorted(slots),
    ensures
        slots.len() > 0 ==> names_of(slots).len() > 0 && names_of(slots).last()
            == slots.last().name,
        slots.len() == 0 ==> names_of(slots).len() == 0,
        forall|i: int, j: int|
            0 <= i < j < names_of(slots).len() ==> name_lt(
                #[trigger] names_of(slots)[i],
                #[trigger] names_of(slots)[j],
            ),
        forall|i: int| 0 <= i < slots.len() ==> names_of(slots).contains(#[trigger] slots[i].name),
        forall|k: int|
            0 <= k < names_of(slots).len() ==> knows_name(slots, #[trigger] names_of(slots)[k]),
    decreases slots.len(),
{
    if slots.len() > 0 {
        let front = slots.drop_last();
        let last = slots.last();
        let n = slots.len() - 1;
        assert forall|i: int, j: int| 0 <= i < j < front.len() implies key_lt(
            #[trigger] front[i].name,
            front[i].server,
            #[trigger] front[j].name,
            front[j].server,
        ) by {
            assert(key_lt(slots[i].name, slots[i].server, slots[j].name, slots[j].server));
        }
        lemma_names_of(front);
        let rest = names_of(front);
        let all = names_of(slots);
        let repeat = slots.len() >= 2 && slots[n - 1].name == last.name;
        if slots.len() >= 2 {
            assert(front.last() == slots[n - 1]);
            assert(key_lt(slots[n - 1].name, slots[n - 1].server, slots[n].name, slots[n].server));
        }
        assert forall|i: int, j: int| 0 <= i < j < all.len() implies name_lt(
            #[trigger] all[i],
            #[trigger] all[j],
        ) by {
            if j < rest.len() {
                assert(name_lt(rest[i], rest[j]));
            } else {
                // the new name sorts after the last of the others, and so after all
                assert(!repeat);
                assert(all[j] == last.name);
                assert(name_lt(rest.last(), last.name));
                if i < rest.len() - 1 {
                    assert(name_lt(rest[i], rest[rest.len() - 1]));
                    lemma_name_lt_transitive(rest[i], rest.last(), last.name);
                }
            }
        }
        assert forall|i: int| 0 <= i < slots.len() implies all.contains(
            #[trigger] slots[i].name,
        ) by {
            if i < n {
                assert(front[i] == slots[i]);
                assert(rest.contains(front[i].name));
                let k = choose|k: int| 0 <= k < rest.len() && rest[k] == front[i].name;
                assert(all[k] == slots[i].name);
            } else {
                assert(all[all.len() - 1] == last.name);
            }
        }
        assert forall|k: int| 0 <= k < all.len() implies knows_name(slots, #[trigger] all[k]) by {
            if k < rest.len() {
                assert(knows_name(front, rest[k]));
                let i = choose|i: int| 0 <= i < front.len() && #[trigger] front[i].name == rest[k];
                assert(slots[i].name == all[k]);
            } else {
                assert(slots[n].name == all[k]);
            }
        }
    }
}

/// What the slots before the last hold is what the store holds, but for
/// the last slot.
pub proof fn lemma_slot_entry_drop_last(slots: Seq<SlotView>, name: NameView, server: RServer)
    requires
        sorted(slots),
        slots.len() > 0,
    ensures
        sorted(slots.drop_last()),
        slot_entry(slots.drop_last(), name, server) == if name == slots.last().name && server
            == slots.last().server {
            None
        } else {
            slot_entry(slots, name, server)
        },
{
    let front = slots.drop_last();
    let last = slots.last();
    let n = slots.len() - 1;
    assert forall|i: int, j: int| 0 <= i < j < front.len() implies key_lt(
        #[trigger] front[i].name,
        front[i].server,
        #[trigger] front[j].name,
        front[j].server,
    ) by {
        assert(key_lt(slots[i].name, slots[i].server, slots[j].name, slots[j].server));
    }
    if has_slot(front, name, server) {
        let i = choose|i: int|
            0 <= i < front.len() && #[trigger] front[i].name == name && front[i].server == server;
        lemma_slot_entry_at(front, i);
        lemma_slot_entry_at(slots, i);
        assert(key_lt(slots[i].name, slots[i].server, slots[n].name, slots[n].server));
        lemma_key_lt_irreflexive(name, server);
    } else if has_slot(slots, name, server) {
        let i = choose|i: int|
            0 <= i < slots.len() && #[trigger] slots[i].name == name && slots[i].server == server;
        if i < n {
            assert(front[i].name == name && front[i].server == server);
        }
    }
}

/// What is read under a name is what the slots of that name hold: a server
/// stands with an entry in the read exactly when its slot holds that entry.
pub proof fn lemma_records_of(
    slots: Seq<SlotView>,
    name: NameView,
    server: RServer,
    entry: REntryView,
)
    requires
        sorted(slots),
    ensures
        records_of(slots, name).contains((server, entry)) <==> slot_entry(slots, name, server)
            == Some(entry),
    decreases slots.len(),
{
    if slots.len() > 0 {
        let front = slots.drop_last();
        let last = slots.last();
        let rest = records_of(front, name);
        let all = records_of(slots, name);
        lemma_slot_entry_drop_last(slots, name, server);
        lemma_records_of(front, name, server, entry);
        lemma_slot_entry_at(slots, slots.len() - 1);
        if last.name == name {
            assert(all == rest.push((last.server, last.entry)));
            if all.contains((server, entry)) {
                let k = choose|k: int| 0 <= k < all.len() && all[k] == (server, entry);
                if k < rest.len() {
                    assert(rest[k] == (server, entry));
                }
            }
            if rest.contains((server, entry)) {
                let k = choose|k: int| 0 <= k < rest.len() && rest[k] == (server, entry);
                assert(all[k] == (server, entry));
            }
            if server == last.server && entry == last.entry {
                assert(all[all.len() - 1] == (server, entry));
            }
        }
    }
}

/// What is read under a name stands in ascending order of the servers, so
/// that no server occurs twice.
pub proof fn lemma_records_ascending(slots: Seq<SlotView>, name: NameView)
    requires
        sorted(slots),
    ensures
        forall|i: int, j: int|
            0 <= i < j < records_of(slots, name).len() ==> server_lt(
                (#[trigger] records_of(slots, name)[i]).0,
                (#[trigger] records_of(slots, name)[j]).0,
            ),
    decreases slots.len(),
{
    if slots.len() > 0 {
        let front = slots.drop_last();
        let last = slots.last();
        let n = slots.len() - 1;
        let rest = records_of(front, name);
        let all = records_of(slots, name);
        lemma_slot_entry_drop_last(slots, name, last.server);
        lemma_records_ascending(front, name);
        if last.name == name {
            assert forall|i: int, j: int| 0 <= i < j < all.len() implies server_lt(
                (#[trigger] all[i]).0,
                (#[trigger] all[j]).0,
            ) by {
                if j < rest.len() {
                    assert(server_lt(rest[i].0, rest[j].0));
                } else {
                    // the slot behind `all[i]` stands before the last slot
                    assert(rest.contains(rest[i]));
                    lemma_records_of(front, name, rest[i].0, rest[i].1);
                    assert(has_slot(front, name, rest[i].0));
                    let q = choose|q: int|
                        0 <= q < front.len() && #[trigger] front[q].name == name
                            && front[q].server == rest[i].0;
                    assert(key_lt(slots[q].name, slots[q].server, slots[n].name, slots[n].server));
                    lemma_name_lt_irreflexive(name);
                }
            }
        }
    }
}

} // verus!
