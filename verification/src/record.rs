//! Resource records as the store sees them: a type, an owner name and the
//! record's data.

use vstd::prelude::*;
use vstd::std_specs::cmp::PartialEqSpecImpl;
use crate::name::Name;

verus! {

/// The address of a name server.
#[derive(Clone, Copy, Debug, PartialEq, Eq, Structural)]
pub enum IpAddr {
    /// An IPv4 address as a big-endian number.
    V4(u32),
    /// An IPv6 address as a big-endian number.
    V6(u128),
}

/// The number of the IPv4 address `a.b.c.d`.
pub open spec fn v4_bits(a: u8, b: u8, c: u8, d: u8) -> int {
    a * 0x100_0000 + b * 0x1_0000 + c * 0x100 + d
}

/// The number of the IPv6 address `a:b:c:d:e:f:g:h`.
pub open spec fn v6_bits(a: u16, b: u16, c: u16, d: u16, e: u16, f: u16, g: u16, h: u16) -> int {
    a * 0x1_0000_0000_0000_0000_0000_0000_0000 + b * 0x1_0000_0000_0000_0000_0000_0000 + c
        * 0x1_0000_0000_0000_0000_0000 + d * 0x1_0000_0000_0000_0000 + e * 0x1_0000_0000_0000 + f
        * 0x1_0000_0000 + g * 0x1_0000 + h
}

impl IpAddr {
    /// The IPv4 address `a.b.c.d`.
    pub fn v4(a: u8, b: u8, c: u8, d: u8) -> (r: IpAddr)
        ensures
            r == IpAddr::V4(v4_bits(a, b, c, d) as u32),
            v4_bits(a, b, c, d) <= u32::MAX,
    {
        let hi: u32 = a as u32 * 0x100_0000 + b as u32 * 0x1_0000;
        let lo: u32 = c as u32 * 0x100 + d as u32;
        IpAddr::V4(hi + lo)
    }

    /// The IPv6 address whose eight groups are `a` to `h`.
    pub fn v6(a: u16, b: u16, c: u16, d: u16, e: u16, f: u16, g: u16, h: u16) -> (r: IpAddr)
        ensures
            r == IpAddr::V6(v6_bits(a, b, c, d, e, f, g, h) as u128),
            v6_bits(a, b, c, d, e, f, g, h) <= u128::MAX,
    {
        let w0: u128 = a as u128 * 0x1_0000_0000_0000_0000_0000_0000_0000 + b as u128
            * 0x1_0000_0000_0000_0000_0000_0000;
        let w1: u128 = c as u128 * 0x1_0000_0000_0000_0000_0000 + d as u128
            * 0x1_0000_0000_0000_0000;
        let w2: u128 = e as u128 * 0x1_0000_0000_0000 + f as u128 * 0x1_0000_0000;
        let w3: u128 = g as u128 * 0x1_0000 + h as u128;
        IpAddr::V6(w0 + w1 + w2 + w3)
    }
}

/// The type of a resource record. The store knows a closed set of types by
/// name; any other travels as its number.
#[derive(Clone, Copy, Debug, PartialEq, Eq, Structural)]
pub enum RecordType {
    A,
    AAAA,
    NS,
    CNAME,
    MX,
    SOA,
    PTR,
    SRV,
    TXT,
    CAA,
    TLSA,
    NULL,
    /// A type outside the closed set, by its number.
    Unknown(u16),
}

/// The data of a resource record. Addresses and host names are held as
/// such; the data of the other types is held as its canonical bytes.
#[derive(Debug)]
pub enum RData {
    A(u32),
    AAAA(u128),
    NS(Name),
    CNAME(Name),
    PTR(Name),
    MX(Vec<u8>),
    SOA(Vec<u8>),
    SRV(Vec<u8>),
    TXT(Vec<u8>),
    CAA(Vec<u8>),
    TLSA(Vec<u8>),
    NULL(Vec<u8>),
    /// Data of a type outside the closed set, with the type's number.
    Unknown(u16, Vec<u8>),
}

/// What a record's data is, as a mathematical value.
pub enum RDataView {
    A(u32),
    AAAA(u128),
    NS(Seq<Seq<u8>>),
    CNAME(Seq<Seq<u8>>),
    PTR(Seq<Seq<u8>>),
    MX(Seq<u8>),
    SOA(Seq<u8>),
    SRV(Seq<u8>),
    TXT(Seq<u8>),
    CAA(Seq<u8>),
    TLSA(Seq<u8>),
    NULL(Seq<u8>),
    Unknown(u16, Seq<u8>),
}

impl RDataView {
    /// The record type that the data belongs to.
    pub open spec fn record_type(self) -> RecordType {
        match self {
            RDataView::A(_) => RecordType::A,
            RDataView::AAAA(_) => RecordType::AAAA,
            RDataView::NS(_) => RecordType::NS,
            RDataView::CNAME(_) => RecordType::CNAME,
            RDataView::PTR(_) => RecordType::PTR,
            RDataView::MX(_) => RecordType::MX,
            RDataView::SOA(_) => RecordType::SOA,
            RDataView::SRV(_) => RecordType::SRV,
            RDataView::TXT(_) => RecordType::TXT,
            RDataView::CAA(_) => RecordType::CAA,
            RDataView::TLSA(_) => RecordType::TLSA,
            RDataView::NULL(_) => RecordType::NULL,
            RDataView::Unknown(code, _) => RecordType::Unknown(code),
        }
    }

    /// Whether the data is of a type in the closed set, so that it can take
    /// part in a deduplicated read.
    pub open spec fn is_known(self) -> bool {
        !(self is Unknown)
    }

    /// The name server that the data names, if it is `NS` data.
    pub open spec fn ns_target(self) -> Option<Seq<Seq<u8>>> {
        match self {
            RDataView::NS(host) => Some(host),
            _ => None,
        }
    }

    /// The address that the data holds, if it is `A` or `AAAA` data.
    pub open spec fn ip_addr(self) -> Option<IpAddr> {
        match self {
            RDataView::A(addr) => Some(IpAddr::V4(addr)),
            RDataView::AAAA(addr) => Some(IpAddr::V6(addr)),
            _ => None,
        }
    }
}

impl View for RData {
    type V = RDataView;

    open spec fn view(&self) -> RDataView {
        match self {
            RData::A(addr) => RDataView::A(*addr),
            RData::AAAA(addr) => RDataView::AAAA(*addr),
            RData::NS(host) => RDataView::NS(host@),
            RData::CNAME(host) => RDataView::CNAME(host@),
            RData::PTR(host) => RDataView::PTR(host@),
            RData::MX(bytes) => RDataView::MX(bytes@),
            RData::SOA(bytes) => RDataView::SOA(bytes@),
            RData::SRV(bytes) => RDataView::SRV(bytes@),
            RData::TXT(bytes) => RDataView::TXT(bytes@),
            RData::CAA(bytes) => RDataView::CAA(bytes@),
            RData::TLSA(bytes) => RDataView::TLSA(bytes@),
            RData::NULL(bytes) => RDataView::NULL(bytes@),
            RData::Unknown(code, bytes) => RDataView::Unknown(*code, bytes@),
        }
    }
}

fn same_payload(a: &Vec<u8>, b: &Vec<u8>) -> (r: bool)
    ensures
        r == (a@ == b@),
{
    if a.len() != b.len() {
        return false;
    }
    let mut i: usize = 0;
    while i < a.len()
        invariant
            i <= a.len(),
            a.len() == b.len(),
            forall|j: int| 0 <= j < i ==> a@[j] == b@[j],
        decreases a.len() - i,
    {
        if a[i] != b[i] {
            return false;
        }
        i += 1;
    }
    assert(a@ =~= b@);
    true
}

fn copy_payload(a: &Vec<u8>) -> (r: Vec<u8>)
    ensures
        r@ == a@,
{
    let r = a.clone();
    assert(r@ =~= a@);
    r
}

impl RData {
    /// The record type that the data belongs to.
    pub fn to_record_type(&self) -> (t: RecordType)
        ensures
            t == self@.record_type(),
    {
        match self {
            RData::A(_) => RecordType::A,
            RData::AAAA(_) => RecordType::AAAA,
            RData::NS(_) => RecordType::NS,
            RData::CNAME(_) => RecordType::CNAME,
            RData::PTR(_) => RecordType::PTR,
            RData::MX(_) => RecordType::MX,
            RData::SOA(_) => RecordType::SOA,
            RData::SRV(_) => RecordType::SRV,
            RData::TXT(_) => RecordType::TXT,
            RData::CAA(_) => RecordType::CAA,
            RData::TLSA(_) => RecordType::TLSA,
            RData::NULL(_) => RecordType::NULL,
            RData::Unknown(code, _) => RecordType::Unknown(*code),
        }
    }

    /// The name server that the data names, if it is `NS` data.
    pub fn as_ns(&self) -> (r: Option<&Name>)
        ensures
            r is Some <==> self@.ns_target() is Some,
            r matches Some(host) ==> Some(host@) == self@.ns_target(),
    {
        match self {
            RData::NS(host) => Some(host),
            _ => None,
        }
    }

    /// The address that the data holds, if it is `A` or `AAAA` data.
    pub fn to_ip_addr(&self) -> (r: Option<IpAddr>)
        ensures
            r == self@.ip_addr(),
    {
        match self {
            RData::A(addr) => Some(IpAddr::V4(*addr)),
            RData::AAAA(addr) => Some(IpAddr::V6(*addr)),
            _ => None,
        }
    }

    /// Whether the two hold the same data of the same type.
    pub fn same(&self, other: &RData) -> (r: bool)
        ensures
            r == (self@ == other@),
    {
        match (self, other) {
            (RData::A(x), RData::A(y)) => *x == *y,
            (RData::AAAA(x), RData::AAAA(y)) => *x == *y,
            (RData::NS(x), RData::NS(y)) => x.same(y),
            (RData::CNAME(x), RData::CNAME(y)) => x.same(y),
            (RData::PTR(x), RData::PTR(y)) => x.same(y),
            (RData::MX(x), RData::MX(y)) => same_payload(x, y),
            (RData::SOA(x), RData::SOA(y)) => same_payload(x, y),
            (RData::SRV(x), RData::SRV(y)) => same_payload(x, y),
            (RData::TXT(x), RData::TXT(y)) => same_payload(x, y),
            (RData::CAA(x), RData::CAA(y)) => same_payload(x, y),
            (RData::TLSA(x), RData::TLSA(y)) => same_payload(x, y),
            (RData::NULL(x), RData::NULL(y)) => same_payload(x, y),
            (RData::Unknown(c, x), RData::Unknown(d, y)) => *c == *d && same_payload(x, y),
            _ => false,
        }
    }
}

impl Clone for RData {
    fn clone(&self) -> (r: RData)
        ensures
            r@ == self@,
    {
        match self {
            RData::A(addr) => RData::A(*addr),
            RData::AAAA(addr) => RData::AAAA(*addr),
            RData::NS(host) => RData::NS(host.clone()),
            RData::CNAME(host) => RData::CNAME(host.clone()),
            RData::PTR(host) => RData::PTR(host.clone()),
            RData::MX(bytes) => RData::MX(copy_payload(bytes)),
            RData::SOA(bytes) => RData::SOA(copy_payload(bytes)),
            RData::SRV(bytes) => RData::SRV(copy_payload(bytes)),
            RData::TXT(bytes) => RData::TXT(copy_payload(bytes)),
            RData::CAA(bytes) => RData::CAA(copy_payload(bytes)),
            RData::TLSA(bytes) => RData::TLSA(copy_payload(bytes)),
            RData::NULL(bytes) => RData::NULL(copy_payload(bytes)),
            RData::Unknown(code, bytes) => RData::Unknown(*code, copy_payload(bytes)),
        }
    }
}

impl PartialEq for RData {
    fn eq(&self, other: &RData) -> (r: bool) {
        self.same(other)
    }
}

impl PartialEqSpecImpl for RData {
    open spec fn obeys_eq_spec() -> bool {
        true
    }

    open spec fn eq_spec(&self, other: &RData) -> bool {
        self@ == other@
    }
}

impl Eq for RData {

}

/// A resource record: the data with the name that owns it.
#[derive(Debug)]
pub struct Record {
    pub name: Name,
    pub rdata: RData,
}

/// What a resource record is, as a mathematical value.
pub struct RecordView {
    pub name: Seq<Seq<u8>>,
    pub rdata: RDataView,
}

impl View for Record {
    type V = RecordView;

    open spec fn view(&self) -> RecordView {
        RecordView { name: self.name@, rdata: self.rdata@ }
    }
}

impl Record {
    /// The name that owns the record.
    pub fn name(&self) -> (r: &Name)
        ensures
            r@ == self@.name,
    {
        &self.name
    }

    /// The record's data.
    pub fn rdata(&self) -> (r: &RData)
        ensures
            r@ == self@.rdata,
    {
        &self.rdata
    }

    /// The record's type.
    pub fn record_type(&self) -> (t: RecordType)
        ensures
            t == self@.rdata.record_type(),
    {
        self.rdata.to_record_type()
    }
}

} // verus!
