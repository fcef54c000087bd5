//! Folding the same response in twice: what a read gives is as after the
//! first time.

use vstd::prelude::*;
use crate::entry::{merge, server_of, REntryView, RServer};
use crate::model::{
    distinct_of_type, entries_of, has_answer, has_slot, insertion_point, key_lt,
    lemma_insertion_point, lemma_insertion_point_splits, lemma_slot_position, lemma_upsert_entry,
    lemma_upsert_sorted, record_set, slot_entry, sorted, upsert, wanted, MessageView, NameView,
    OutcomeView, RecordDBView, SlotView,
};
use crate::record::{IpAddr, RDataView, RecordType, RecordView};

verus! {

/// A deduplicated read that has given `seen`, after it has gone on over
/// `items`.
pub open spec fn absorb(seen: Seq<RDataView>, items: Seq<RDataView>, rtype: RecordType) -> Seq<
    RDataView,
>
    decreases items.len(),
{
    if items.len() == 0 {
        seen
    } else {
        let rest = absorb(seen, items.drop_last(), rtype);
        if wanted(items.last(), rtype) && !rest.contains(items.last()) {
            rest.push(items.last())
        } else {
            rest
        }
    }
}

/// A deduplicated read of two runs of items reads the first and goes on
/// over the second.
pub proof fn lemma_distinct_of_concat(a: Seq<RDataView>, b: Seq<RDataView>, rtype: RecordType)
    ensures
        distinct_of_type(a + b, rtype) == absorb(distinct_of_type(a, rtype), b, rtype),
    decreases b.len(),
{
    if b.len() == 0 {
        assert(a + b =~= a);
    } else {
        lemma_distinct_of_concat(a, b.drop_last(), rtype);
        assert((a + b).drop_last() =~= a + b.drop_last());
    }
}

/// Going on over two runs of items is going on over the first, then over
/// the second.
pub proof fn lemma_absorb_concat(
    seen: Seq<RDataView>,
    a: Seq<RDataView>,
    b: Seq<RDataView>,
    rtype: RecordType,
)
    ensures
        absorb(seen, a + b, rtype) == absorb(absorb(seen, a, rtype), b, rtype),
    decreases b.len(),
{
    if b.len() == 0 {
        assert(a + b =~= a);
    } else {
        lemma_absorb_concat(seen, a, b.drop_last(), rtype);
        assert((a + b).drop_last() =~= a + b.drop_last());
    }
}

/// A read keeps what it has given, and has given every item of the type
/// asked for that it went over.
pub proof fn lemma_absorb_holds(seen: Seq<RDataView>, items: Seq<RDataView>, rtype: RecordType)
    ensures
        forall|x: RDataView| seen.contains(x) ==> #[trigger] absorb(seen, items, rtype).contains(x),
        forall|k: int|
            0 <= k < items.len() && wanted(#[trigger] items[k], rtype) ==> absorb(
                seen,
                items,
                rtype,
            ).contains(items[k]),
    decreases items.len(),
{
    let out = absorb(seen, items, rtype);
    if items.len() > 0 {
        let front = items.drop_last();
        let rest = absorb(seen, front, rtype);
        lemma_absorb_holds(seen, front, rtype);
        assert forall|x: RDataView| rest.contains(x) implies out.contains(x) by {
            let k = choose|k: int| 0 <= k < rest.len() && rest[k] == x;
            assert(out[k] == x);
        }
        assert forall|x: RDataView| seen.contains(x) implies #[trigger] out.contains(x) by {
            assert(rest.contains(x));
        }
        assert forall|k: int|
            0 <= k < items.len() && wanted(#[trigger] items[k], rtype) implies out.contains(
            items[k],
        ) by {
            if k < front.len() {
                assert(front[k] == items[k]);
                assert(rest.contains(front[k]));
            } else if !rest.contains(items.last()) {
                assert(out[out.len() - 1] == items[k]);
            }
        }
    }
}

/// Going on over items that the read has given already gives nothing new.
pub proof fn lemma_absorb_known(seen: Seq<RDataView>, items: Seq<RDataView>, rtype: RecordType)
    requires
        forall|k: int|
            0 <= k < items.len() && wanted(#[trigger] items[k], rtype) ==> seen.contains(items[k]),
    ensures
        absorb(seen, items, rtype) == seen,
    decreases items.len(),
{
    if items.len() > 0 {
        let front = items.drop_last();
        assert forall|k: int|
            0 <= k < front.len() && wanted(#[trigger] front[k], rtype) implies seen.contains(
            front[k],
        ) by {
            assert(front[k] == items[k]);
        }
        lemma_absorb_known(seen, front, rtype);
        assert(items[items.len() - 1] == items.last());
    }
}

/// Whether the entry `later` is `earlier` but for repeats: both hold no
/// data, or `later` holds the data of `earlier` followed by pieces that
/// `earlier` holds too.
pub open spec fn repeats(earlier: REntryView, later: REntryView) -> bool {
    match (earlier, later) {
        (REntryView::Entries(x), REntryView::Entries(z)) => {
            &&& x.len() <= z.len()
            &&& z.take(x.len() as int) == x
            &&& forall|k: int| x.len() <= k < z.len() ==> x.contains(#[trigger] z[k])
        },
        (REntryView::Entries(_), _) => false,
        (_, REntryView::Entries(_)) => false,
        _ => true,
    }
}

/// Whether the store `later` is `earlier` but for repeats: the same keys in
/// the same places, each entry the earlier one but for repeats.
pub open spec fn echoes(earlier: Seq<SlotView>, later: Seq<SlotView>) -> bool {
    &&& earlier.len() == later.len()
    &&& forall|i: int|
        0 <= i < earlier.len() ==> (#[trigger] earlier[i]).name == later[i].name
            && earlier[i].server == later[i].server && repeats(earlier[i].entry, later[i].entry)
}

/// Repeats do not show in a read.
pub proof fn lemma_echo_reads_the_same(
    earlier: Seq<SlotView>,
    later: Seq<SlotView>,
    name: NameView,
    rtype: RecordType,
)
    requires
        echoes(earlier, later),
    ensures
        record_set(later, name, rtype) == record_set(earlier, name, rtype),
    decreases earlier.len(),
{
    if earlier.len() > 0 {
        let e_front = earlier.drop_last();
        let l_front = later.drop_last();
        assert forall|i: int| 0 <= i < e_front.len() implies (#[trigger] e_front[i]).name
            == l_front[i].name && e_front[i].server == l_front[i].server && repeats(
            e_front[i].entry,
            l_front[i].entry,
        ) by {
            assert(earlier[i] == e_front[i]);
        }
        lemma_echo_reads_the_same(e_front, l_front, name, rtype);
        let e_last = earlier.last();
        let l_last = later.last();
        assert(earlier[earlier.len() - 1] == e_last);
        let e_rest = entries_of(e_front, name);
        let l_rest = entries_of(l_front, name);
        let seen = distinct_of_type(e_rest, rtype);
        if e_last.name == name && e_last.entry is Entries {
            let x = e_last.entry->Entries_0;
            let z = l_last.entry->Entries_0;
            let y = z.skip(x.len() as int);
            assert(z =~= x + y);
            lemma_distinct_of_concat(e_rest, x, rtype);
            lemma_distinct_of_concat(l_rest, z, rtype);
            lemma_absorb_concat(seen, x, y, rtype);
            lemma_absorb_holds(seen, x, rtype);
            let mid = absorb(seen, x, rtype);
            assert forall|k: int|
                0 <= k < y.len() && wanted(#[trigger] y[k], rtype) implies mid.contains(y[k]) by {
                assert(y[k] == z[x.len() + k]);
                assert(x.contains(z[x.len() + k]));
                let m = choose|m: int| 0 <= m < x.len() && x[m] == y[k];
                assert(wanted(x[m], rtype));
            }
            lemma_absorb_known(mid, y, rtype);
        }
    }
}

/// Whether the store holds the piece of data `rdata` as given by `server`
/// for `name`.
pub open spec fn holds(
    slots: Seq<SlotView>,
    name: NameView,
    server: RServer,
    rdata: RDataView,
) -> bool {
    match slot_entry(slots, name, server) {
        Some(REntryView::Entries(items)) => items.contains(rdata),
        _ => false,
    }
}

/// Whether the store `later` has every slot of `earlier` and holds every
/// piece of data that `earlier` holds.
pub open spec fn keeps(earlier: Seq<SlotView>, later: Seq<SlotView>) -> bool {
    &&& forall|name: NameView, server: RServer| #[trigger]
        has_slot(earlier, name, server) ==> has_slot(later, name, server)
    &&& forall|name: NameView, server: RServer, rdata: RDataView| #[trigger]
        holds(earlier, name, server, rdata) ==> holds(later, name, server, rdata)
}

/// Whether the store holds each of the records as given by the server at
/// `ip`.
pub open spec fn covers(slots: Seq<SlotView>, records: Seq<RecordView>, ip: IpAddr) -> bool {
    forall|k: int|
        0 <= k < records.len() ==> holds(
            slots,
            (#[trigger] records[k]).name,
            server_of(ip),
            records[k].rdata,
        )
}

/// Whether the store holds every record of the message.
pub open spec fn covers_message(slots: Seq<SlotView>, message: MessageView, ip: IpAddr) -> bool {
    &&& covers(slots, message.answers, ip)
    &&& covers(slots, message.additionals, ip)
    &&& covers(slots, message.name_servers, ip)
}

/// Whether the store holds every record of the messages.
pub open spec fn covers_messages(
    slots: Seq<SlotView>,
    messages: Seq<MessageView>,
    ip: IpAddr,
) -> bool {
    forall|m: int| 0 <= m < messages.len() ==> covers_message(slots, #[trigger] messages[m], ip)
}

/// Folding into a store loses no slot and no data, and the slot that was
/// folded into is there afterwards.
pub proof fn lemma_upsert_keeps(
    slots: Seq<SlotView>,
    name: NameView,
    server: RServer,
    received: REntryView,
)
    requires
        sorted(slots),
    ensures
        keeps(slots, upsert(slots, name, server, received)),
        sorted(upsert(slots, name, server, received)),
        has_slot(upsert(slots, name, server, received), name, server),
        received matches REntryView::Entries(items) ==> forall|k: int|
            0 <= k < items.len() ==> holds(
                upsert(slots, name, server, received),
                name,
                server,
                #[trigger] items[k],
            ),
{
    let after = upsert(slots, name, server, received);
    lemma_upsert_sorted(slots, name, server, received);
    lemma_upsert_entry(slots, name, server, received, name, server);
    assert forall|n: NameView, s: RServer| #[trigger] has_slot(slots, n, s) implies has_slot(
        after,
        n,
        s,
    ) by {
        lemma_upsert_entry(slots, name, server, received, n, s);
    }
    assert forall|n: NameView, s: RServer, rdata: RDataView| #[trigger]
        holds(slots, n, s, rdata) implies holds(after, n, s, rdata) by {
        lemma_upsert_entry(slots, name, server, received, n, s);
        if n == name && s == server {
            let items = slot_entry(slots, n, s)->0->Entries_0;
            let k = choose|k: int| 0 <= k < items.len() && items[k] == rdata;
            match received {
                REntryView::Entries(more) => {
                    assert((items + more)[k] == rdata);
                },
                _ => {},
            }
        }
    }
    if let REntryView::Entries(items) = received {
        assert forall|k: int| 0 <= k < items.len() implies holds(
            after,
            name,
            server,
            #[trigger] items[k],
        ) by {
            match slot_entry(slots, name, server) {
                Some(REntryView::Entries(old)) => {
                    assert((old + items)[old.len() + k] == items[k]);
                },
                _ => {},
            }
        }
    }
}

/// What is the earlier store but for repeats is sorted as it is, and finds
/// each key in the same place.
pub proof fn lemma_echo_sorted(earlier: Seq<SlotView>, later: Seq<SlotView>)
    requires
        sorted(earlier),
        echoes(earlier, later),
    ensures
        sorted(later),
        forall|name: NameView, server: RServer| #[trigger]
            insertion_point(later, name, server) == insertion_point(earlier, name, server),
{
    assert forall|i: int, j: int| 0 <= i < j < later.len() implies key_lt(
        #[trigger] later[i].name,
        later[i].server,
        #[trigger] later[j].name,
        later[j].server,
    ) by {
        assert(key_lt(earlier[i].name, earlier[i].server, earlier[j].name, earlier[j].server));
    }
    assert forall|name: NameView, server: RServer| #[trigger]
        insertion_point(later, name, server) == insertion_point(earlier, name, server) by {
        lemma_insertion_point_splits(earlier, name, server);
        let p = insertion_point(earlier, name, server) as int;
        assert forall|j: int| 0 <= j < p implies key_lt(
            #[trigger] later[j].name,
            later[j].server,
            name,
            server,
        ) by {
            assert(key_lt(earlier[j].name, earlier[j].server, name, server));
        }
        if p < later.len() {
            assert(!key_lt(earlier[p].name, earlier[p].server, name, server));
        }
        lemma_insertion_point(later, name, server, p);
    }
}

/// Folding into a store, again, a piece of data that it held before the
/// repeats, or a time-out or denial for a slot that it had, leaves it the
/// earlier store but for repeats.
pub proof fn lemma_upsert_echoes(
    earlier: Seq<SlotView>,
    later: Seq<SlotView>,
    name: NameView,
    server: RServer,
    received: REntryView,
)
    requires
        sorted(earlier),
        echoes(earlier, later),
        has_slot(earlier, name, server),
        received matches REntryView::Entries(items) ==> items.len() > 0 && forall|k: int|
            0 <= k < items.len() ==> holds(earlier, name, server, #[trigger] items[k]),
    ensures
        echoes(earlier, upsert(later, name, server, received)),
{
    lemma_echo_sorted(earlier, later);
    lemma_slot_position(earlier, name, server);
    let p = insertion_point(earlier, name, server) as int;
    assert(insertion_point(later, name, server) == p);
    let after = upsert(later, name, server, received);
    assert(earlier[p].name == later[p].name && earlier[p].server == later[p].server && repeats(
        earlier[p].entry,
        later[p].entry,
    ));
    assert(after == later.update(
        p,
        SlotView { name, server, entry: merge(Some(later[p].entry), received) },
    ));
    assert forall|i: int| 0 <= i < earlier.len() implies (#[trigger] earlier[i]).name
        == after[i].name && earlier[i].server == after[i].server && repeats(
        earlier[i].entry,
        after[i].entry,
    ) by {
        assert(earlier[i].name == later[i].name && earlier[i].server == later[i].server
            && repeats(earlier[i].entry, later[i].entry));
        if i == p {
            match (earlier[p].entry, later[p].entry, received) {
                (REntryView::Entries(x), REntryView::Entries(z), REntryView::Entries(more)) => {
                    let grown = z + more;
                    assert(grown.take(x.len() as int) =~= z.take(x.len() as int));
                    assert forall|k: int| x.len() <= k < grown.len() implies x.contains(
                        #[trigger] grown[k],
                    ) by {
                        if k >= z.len() {
                            assert(grown[k] == more[k - z.len()]);
                            assert(holds(earlier, name, server, more[k - z.len()]));
                        } else {
                            assert(grown[k] == z[k]);
                        }
                    }
                },
                (_, _, REntryView::Entries(more)) => {
                    // the earlier slot holds data whenever data is folded in again
                    assert(holds(earlier, name, server, more[0]));
                    assert(slot_entry(earlier, name, server) == Some(earlier[p].entry));
                    assert(false);
                },
                _ => {},
            }
        }
    }
}

/// A store is itself but for repeats.
pub proof fn lemma_echoes_itself(slots: Seq<SlotView>)
    ensures
        echoes(slots, slots),
{
    assert forall|i: int| 0 <= i < slots.len() implies repeats(
        (#[trigger] slots[i]).entry,
        slots[i].entry,
    ) by {
        if let REntryView::Entries(x) = slots[i].entry {
            assert(x.take(x.len() as int) =~= x);
        }
    }
}

/// What a store keeps, a store that keeps that store's keeps too.
pub proof fn lemma_keeps_on(a: Seq<SlotView>, b: Seq<SlotView>, c: Seq<SlotView>)
    requires
        keeps(a, b),
        keeps(b, c),
    ensures
        keeps(a, c),
{
    assert forall|name: NameView, server: RServer| #[trigger]
        has_slot(a, name, server) implies has_slot(c, name, server) by {
        assert(has_slot(b, name, server));
    }
    assert forall|name: NameView, server: RServer, rdata: RDataView| #[trigger]
        holds(a, name, server, rdata) implies holds(c, name, server, rdata) by {
        assert(holds(b, name, server, rdata));
    }
}

/// Records that a store holds, a store that keeps it holds too.
pub proof fn lemma_covers_on(
    a: Seq<SlotView>,
    b: Seq<SlotView>,
    records: Seq<RecordView>,
    ip: IpAddr,
)
    requires
        keeps(a, b),
        covers(a, records, ip),
    ensures
        covers(b, records, ip),
{
    assert forall|k: int| 0 <= k < records.len() implies holds(
        b,
        (#[trigger] records[k]).name,
        server_of(ip),
        records[k].rdata,
    ) by {
        assert(holds(a, records[k].name, server_of(ip), records[k].rdata));
    }
}

/// After records have been added, the store holds them, and has lost
/// nothing.
pub proof fn lemma_records_covered(db: RecordDBView, records: Seq<RecordView>, ip: IpAddr)
    requires
        sorted(db.slots),
    ensures
        sorted(db.add_records(records, ip).slots),
        keeps(db.slots, db.add_records(records, ip).slots),
        covers(db.add_records(records, ip).slots, records, ip),
    decreases records.len(),
{
    if records.len() > 0 {
        let front = records.drop_last();
        let last = records.last();
        lemma_records_covered(db, front, ip);
        let before = db.add_records(front, ip).slots;
        let received = REntryView::Entries(seq![last.rdata]);
        lemma_upsert_keeps(before, last.name, server_of(ip), received);
        let after = db.add_records(records, ip).slots;
        assert(after == upsert(before, last.name, server_of(ip), received));
        lemma_keeps_on(db.slots, before, after);
        lemma_covers_on(before, after, front, ip);
        assert forall|k: int| 0 <= k < records.len() implies holds(
            after,
            (#[trigger] records[k]).name,
            server_of(ip),
            records[k].rdata,
        ) by {
            if k < front.len() {
                assert(front[k] == records[k]);
            } else {
                assert(seq![last.rdata][0] == last.rdata);
            }
        }
    }
}

/// After an authority section has been folded in, the store holds its
/// records, and has lost nothing.
pub proof fn lemma_authorities_covered(
    db: RecordDBView,
    records: Seq<RecordView>,
    ip: IpAddr,
    name: NameView,
    rtype: RecordType,
    zone: Option<NameView>,
)
    requires
        sorted(db.slots),
    ensures
        sorted(db.add_authorities(records, ip, name, rtype, zone).slots),
        keeps(db.slots, db.add_authorities(records, ip, name, rtype, zone).slots),
        covers(db.add_authorities(records, ip, name, rtype, zone).slots, records, ip),
    decreases records.len(),
{
    if records.len() > 0 {
        let front = records.drop_last();
        let last = records.last();
        lemma_authorities_covered(db, front, ip, name, rtype, zone);
        let before = db.add_authorities(front, ip, name, rtype, zone).slots;
        let received = REntryView::Entries(seq![last.rdata]);
        lemma_upsert_keeps(before, last.name, server_of(ip), received);
        let after = db.add_authorities(records, ip, name, rtype, zone).slots;
        assert(after == upsert(before, last.name, server_of(ip), received));
        lemma_keeps_on(db.slots, before, after);
        lemma_covers_on(before, after, front, ip);
        assert forall|k: int| 0 <= k < records.len() implies holds(
            after,
            (#[trigger] records[k]).name,
            server_of(ip),
            records[k].rdata,
        ) by {
            if k < front.len() {
                assert(front[k] == records[k]);
            } else {
                assert(seq![last.rdata][0] == last.rdata);
            }
        }
    } else {
        assert(keeps(db.slots, db.slots));
    }
}

/// After messages have been folded in, the store holds their records, and
/// has lost nothing.
pub proof fn lemma_messages_covered(
    db: RecordDBView,
    messages: Seq<MessageView>,
    ip: IpAddr,
    name: NameView,
    rtype: RecordType,
    zone: Option<NameView>,
)
    requires
        sorted(db.slots),
    ensures
        sorted(db.add_messages(messages, ip, name, rtype, zone).slots),
        keeps(db.slots, db.add_messages(messages, ip, name, rtype, zone).slots),
        covers_messages(db.add_messages(messages, ip, name, rtype, zone).slots, messages, ip),
    decreases messages.len(),
{
    if messages.len() > 0 {
        let front = messages.drop_last();
        let last = messages.last();
        lemma_messages_covered(db, front, ip, name, rtype, zone);
        let begun = db.add_messages(front, ip, name, rtype, zone);
        lemma_records_covered(begun, last.answers, ip);
        let answered = begun.add_records(last.answers, ip);
        lemma_records_covered(answered, last.additionals, ip);
        let glued = answered.add_records(last.additionals, ip);
        lemma_authorities_covered(glued, last.name_servers, ip, name, rtype, zone);
        let done = glued.add_authorities(last.name_servers, ip, name, rtype, zone);
        assert(done == db.add_messages(messages, ip, name, rtype, zone));
        lemma_keeps_on(answered.slots, glued.slots, done.slots);
        lemma_keeps_on(begun.slots, answered.slots, done.slots);
        lemma_keeps_on(db.slots, begun.slots, done.slots);
        lemma_covers_on(answered.slots, done.slots, last.answers, ip);
        lemma_covers_on(glued.slots, done.slots, last.additionals, ip);
        assert forall|m: int| 0 <= m < messages.len() implies covers_message(
            done.slots,
            #[trigger] messages[m],
            ip,
        ) by {
            if m < front.len() {
                assert(front[m] == messages[m]);
                assert(covers_message(begun.slots, front[m], ip));
                lemma_covers_on(begun.slots, done.slots, front[m].answers, ip);
                lemma_covers_on(begun.slots, done.slots, front[m].additionals, ip);
                lemma_covers_on(begun.slots, done.slots, front[m].name_servers, ip);
            }
        }
    } else {
        assert(keeps(db.slots, db.slots));
    }
}

/// Adding records that the store held before the repeats leaves it that
/// store but for repeats.
pub proof fn lemma_records_echo(
    earlier: Seq<SlotView>,
    db: RecordDBView,
    records: Seq<RecordView>,
    ip: IpAddr,
)
    requires
        sorted(earlier),
        echoes(earlier, db.slots),
        covers(earlier, records, ip),
    ensures
        echoes(earlier, db.add_records(records, ip).slots),
    decreases records.len(),
{
    if records.len() > 0 {
        let front = records.drop_last();
        let last = records.last();
        assert forall|k: int| 0 <= k < front.len() implies holds(
            earlier,
            (#[trigger] front[k]).name,
            server_of(ip),
            front[k].rdata,
        ) by {
            assert(front[k] == records[k]);
        }
        lemma_records_echo(earlier, db, front, ip);
        assert(records[records.len() - 1] == last);
        assert(holds(earlier, last.name, server_of(ip), last.rdata));
        assert(seq![last.rdata][0] == last.rdata);
        lemma_upsert_echoes(
            earlier,
            db.add_records(front, ip).slots,
            last.name,
            server_of(ip),
            REntryView::Entries(seq![last.rdata]),
        );
    }
}

/// Folding in an authority section whose records the store held before the
/// repeats leaves it that store but for repeats.
pub proof fn lemma_authorities_echo(
    earlier: Seq<SlotView>,
    db: RecordDBView,
    records: Seq<RecordView>,
    ip: IpAddr,
    name: NameView,
    rtype: RecordType,
    zone: Option<NameView>,
)
    requires
        sorted(earlier),
        echoes(earlier, db.slots),
        covers(earlier, records, ip),
    ensures
        echoes(earlier, db.add_authorities(records, ip, name, rtype, zone).slots),
    decreases records.len(),
{
    if records.len() > 0 {
        let front = records.drop_last();
        let last = records.last();
        assert forall|k: int| 0 <= k < front.len() implies holds(
            earlier,
            (#[trigger] front[k]).name,
            server_of(ip),
            front[k].rdata,
        ) by {
            assert(front[k] == records[k]);
        }
        lemma_authorities_echo(earlier, db, front, ip, name, rtype, zone);
        assert(records[records.len() - 1] == last);
        assert(holds(earlier, last.name, server_of(ip), last.rdata));
        assert(seq![last.rdata][0] == last.rdata);
        let before = db.add_authorities(front, ip, name, rtype, zone).slots;
        let received = REntryView::Entries(seq![last.rdata]);
        lemma_upsert_echoes(earlier, before, last.name, server_of(ip), received);
        assert(db.add_authorities(records, ip, name, rtype, zone).slots == upsert(
            before,
            last.name,
            server_of(ip),
            received,
        ));
    }
}

/// Folding in messages whose records the store held before the repeats
/// leaves it that store but for repeats.
pub proof fn lemma_messages_echo(
    earlier: Seq<SlotView>,
    db: RecordDBView,
    messages: Seq<MessageView>,
    ip: IpAddr,
    name: NameView,
    rtype: RecordType,
    zone: Option<NameView>,
)
    requires
        sorted(earlier),
        echoes(earlier, db.slots),
        covers_messages(earlier, messages, ip),
    ensures
        echoes(earlier, db.add_messages(messages, ip, name, rtype, zone).slots),
    decreases messages.len(),
{
    if messages.len() > 0 {
        let front = messages.drop_last();
        let last = messages.last();
        assert forall|m: int| 0 <= m < front.len() implies covers_message(
            earlier,
            #[trigger] front[m],
            ip,
        ) by {
            assert(front[m] == messages[m]);
        }
        lemma_messages_echo(earlier, db, front, ip, name, rtype, zone);
        assert(messages[messages.len() - 1] == last);
        assert(covers_message(earlier, last, ip));
        let begun = db.add_messages(front, ip, name, rtype, zone);
        lemma_records_echo(earlier, begun, last.answers, ip);
        let answered = begun.add_records(last.answers, ip);
        lemma_records_echo(earlier, answered, last.additionals, ip);
        let glued = answered.add_records(last.additionals, ip);
        lemma_authorities_echo(earlier, glued, last.name_servers, ip, name, rtype, zone);
    }
}

/// Folding the same outcome of the same probe in a second time changes no
/// record set: what a read gives for any name and type is what it gave
/// after the first time.
pub proof fn lemma_reingest_reads_the_same(
    db: RecordDBView,
    ip: IpAddr,
    name: NameView,
    rtype: RecordType,
    zone: Option<NameView>,
    outcome: OutcomeView,
    read_name: NameView,
    read_type: RecordType,
)
    requires
        db.wf(),
    ensures
        record_set(
            db.ingest(ip, name, rtype, zone, outcome).ingest(ip, name, rtype, zone, outcome).slots,
            read_name,
            read_type,
        ) == record_set(db.ingest(ip, name, rtype, zone, outcome).slots, read_name, read_type),
{
    let once = db.ingest(ip, name, rtype, zone, outcome);
    let twice = once.ingest(ip, name, rtype, zone, outcome);
    let server = server_of(ip);
    match outcome {
        OutcomeView::Failed(_) => {},
        OutcomeView::Timeout => {
            lemma_upsert_keeps(db.slots, name, server, REntryView::TimeOut);
            lemma_echoes_itself(once.slots);
            lemma_upsert_echoes(once.slots, once.slots, name, server, REntryView::TimeOut);
            lemma_echo_reads_the_same(once.slots, twice.slots, read_name, read_type);
        },
        OutcomeView::Response(messages) => {
            lemma_messages_covered(db, messages, ip, name, rtype, zone);
            let folded = db.add_messages(messages, ip, name, rtype, zone);
            if !has_answer(messages) {
                lemma_upsert_keeps(folded.slots, name, server, REntryView::NoEntry);
                assert forall|m: int| 0 <= m < messages.len() implies covers_message(
                    once.slots,
                    #[trigger] messages[m],
                    ip,
                ) by {
                    assert(covers_message(folded.slots, messages[m], ip));
                    lemma_covers_on(folded.slots, once.slots, messages[m].answers, ip);
                    lemma_covers_on(folded.slots, once.slots, messages[m].additionals, ip);
                    lemma_covers_on(folded.slots, once.slots, messages[m].name_servers, ip);
                }
            }
            lemma_echoes_itself(once.slots);
            lemma_messages_echo(once.slots, once, messages, ip, name, rtype, zone);
            let again = once.add_messages(messages, ip, name, rtype, zone);
            if !has_answer(messages) {
                lemma_upsert_echoes(once.slots, again.slots, name, server, REntryView::NoEntry);
            }
            lemma_echo_reads_the_same(once.slots, twice.slots, read_name, read_type);
        },
    }
}

} // verus!
