//! Who said what: the identity of the server behind an observation, and the
//! state of one name at one server.

use vstd::prelude::*;
use vstd::std_specs::convert::FromSpecImpl;
use crate::order::{rank_of, Rank};
use crate::record::{IpAddr, RData, RDataView};

verus! {

/// The source of an observation: the server that gave it, by address, or
/// the bootstrap data.
#[derive(Clone, Copy, Debug, PartialEq, Eq, PartialOrd, Ord, Structural)]
pub enum RServer {
    V4(u32),
    V6(u128),
    /// Marks what was injected as a root hint.
    Hint,
}

/// The server identity of an address; never `Hint`.
pub open spec fn server_of(ip: IpAddr) -> RServer {
    match ip {
        IpAddr::V4(addr) => RServer::V4(addr),
        IpAddr::V6(addr) => RServer::V6(addr),
    }
}

impl From<IpAddr> for RServer {
    fn from(ip: IpAddr) -> (r: RServer) {
        match ip {
            IpAddr::V4(addr) => RServer::V4(addr),
            IpAddr::V6(addr) => RServer::V6(addr),
        }
    }
}

impl FromSpecImpl<IpAddr> for RServer {
    open spec fn obeys_from_spec() -> bool {
        true
    }

    open spec fn from_spec(ip: IpAddr) -> RServer {
        server_of(ip)
    }
}

/// The order of server identities: IPv4 addresses by number, then IPv6
/// addresses by number, then `Hint`.
pub open spec fn server_lt(a: RServer, b: RServer) -> bool {
    match (a, b) {
        (RServer::V4(x), RServer::V4(y)) => x < y,
        (RServer::V4(_), _) => true,
        (RServer::V6(_), RServer::V4(_)) => false,
        (RServer::V6(x), RServer::V6(y)) => x < y,
        (RServer::V6(_), RServer::Hint) => true,
        (RServer::Hint, _) => false,
    }
}

impl RServer {
    /// Compares two server identities.
    pub fn compare(&self, other: &RServer) -> (r: Rank)
        ensures
            r == rank_of(server_lt(*self, *other), *self == *other),
            r == Rank::Above <==> server_lt(*other, *self),
    {
        match (*self, *other) {
            (RServer::V4(x), RServer::V4(y)) => {
                if x < y {
                    Rank::Below
                } else if x == y {
                    Rank::Same
                } else {
                    Rank::Above
                }
            },
            (RServer::V4(_), _) => Rank::Below,
            (RServer::V6(_), RServer::V4(_)) => Rank::Above,
            (RServer::V6(x), RServer::V6(y)) => {
                if x < y {
                    Rank::Below
                } else if x == y {
                    Rank::Same
                } else {
                    Rank::Above
                }
            },
            (RServer::V6(_), RServer::Hint) => Rank::Below,
            (RServer::Hint, RServer::Hint) => Rank::Same,
            (RServer::Hint, _) => Rank::Above,
        }
    }
}

/// What one server is known to have said about one name.
#[derive(Debug)]
pub enum REntry {
    /// The server answered and had nothing for the name.
    NoEntry,
    /// The server did not answer in time.
    TimeOut,
    /// The data that the server gave for the name, of all types, in the
    /// order in which it arrived.
    Entries(Vec<RData>),
}

/// What an entry is, as a mathematical value.
pub enum REntryView {
    NoEntry,
    TimeOut,
    Entries(Seq<RDataView>),
}

/// The values that a vector of record data holds.
pub open spec fn rdata_views(items: Seq<RData>) -> Seq<RDataView> {
    Seq::new(items.len(), |i: int| items[i]@)
}

impl View for REntry {
    type V = REntryView;

    open spec fn view(&self) -> REntryView {
        match self {
            REntry::NoEntry => REntryView::NoEntry,
            REntry::TimeOut => REntryView::TimeOut,
            REntry::Entries(items) => REntryView::Entries(rdata_views(items@)),
        }
    }
}

/// The promotion rule: what a slot holds once `received` has been folded
/// into what it held before. Data replaces a time-out or a denial and adds
/// to earlier data; a time-out or a denial never displaces data; a denial
/// outlives a time-out, whichever came first.
pub open spec fn merge(existing: Option<REntryView>, received: REntryView) -> REntryView {
    match existing {
        None => received,
        Some(REntryView::Entries(items)) => match received {
            REntryView::Entries(more) => REntryView::Entries(items + more),
            _ => REntryView::Entries(items),
        },
        Some(REntryView::TimeOut) => received,
        Some(REntryView::NoEntry) => match received {
            REntryView::Entries(more) => REntryView::Entries(more),
            _ => REntryView::NoEntry,
        },
    }
}

/// Promotion is monotone: data that a slot holds stays, in place, whatever
/// is folded in; and a slot that holds data or a denial never falls back
/// to a time-out.
pub proof fn lemma_merge_is_monotone(existing: REntryView, received: REntryView)
    ensures
        existing matches REntryView::Entries(items) ==> (merge(Some(existing), received)
            matches REntryView::Entries(all) && items.is_prefix_of(all)),
        merge(Some(existing), received) is TimeOut ==> existing is TimeOut && received is TimeOut,
        received matches REntryView::Entries(more) ==> (merge(Some(existing), received)
            matches REntryView::Entries(all) && more.is_suffix_of(all)),
{
    match (existing, received) {
        (REntryView::Entries(items), REntryView::Entries(more)) => {
            let all = items + more;
            assert(all.subrange(0, items.len() as int) =~= items);
            assert(all.subrange(all.len() - more.len(), all.len() as int) =~= more);
        },
        (REntryView::Entries(items), _) => {
            assert(items.subrange(0, items.len() as int) =~= items);
        },
        (_, REntryView::Entries(more)) => {
            assert(more.subrange(0, more.len() as int) =~= more);
        },
        _ => {},
    }
}

/// A copy of a list of record data.
pub fn copy_rdatas(items: &Vec<RData>) -> (r: Vec<RData>)
    ensures
        rdata_views(r@) == rdata_views(items@),
{
    let mut out: Vec<RData> = Vec::new();
    let mut i: usize = 0;
    while i < items.len()
        invariant
            i <= items.len(),
            out@.len() == i,
            forall|k: int| 0 <= k < i ==> out@[k]@ == items@[k]@,
        decreases items.len() - i,
    {
        out.push(items[i].clone());
        i += 1;
    }
    assert(rdata_views(out@) =~= rdata_views(items@));
    out
}

impl REntry {
    /// Folds `received` into `existing` by the promotion rule.
    pub fn merge(existing: Option<REntry>, received: REntry) -> (r: REntry)
        ensures
            r@ == merge(
                match existing {
                    Some(e) => Some(e@),
                    None => None,
                },
                received@,
            ),
    {
        match existing {
            None => received,
            Some(REntry::Entries(mut items)) => {
                match received {
                    REntry::Entries(mut more) => {
                        let ghost before = rdata_views(items@);
                        let ghost added = rdata_views(more@);
                        items.append(&mut more);
                        assert(rdata_views(items@) =~= before + added);
                        REntry::Entries(items)
                    },
                    _ => REntry::Entries(items),
                }
            },
            Some(REntry::TimeOut) => received,
            Some(REntry::NoEntry) => {
                match received {
                    REntry::Entries(more) => REntry::Entries(more),
                    _ => REntry::NoEntry,
                }
            },
        }
    }
}

impl Clone for REntry {
    fn clone(&self) -> (r: REntry)
        ensures
            r@ == self@,
    {
        match self {
            REntry::NoEntry => REntry::NoEntry,
            REntry::TimeOut => REntry::TimeOut,
            REntry::Entries(items) => REntry::Entries(copy_rdatas(items)),
        }
    }
}

} // verus!
