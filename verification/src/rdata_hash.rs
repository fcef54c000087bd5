//! Record data as a member of a set: data of a known type, with a stable
//! hash of its payload.

use vstd::prelude::*;
use crate::name::Name;
use crate::record::{RData, RDataView};

verus! {

/// Where the hash starts.
pub const HASH_SEED: u64 = 0xcbf2_9ce4_8422_2325;

/// The multiplier of the hash.
pub const HASH_PRIME: u64 = 0x0000_0100_0000_01b3;

/// The byte that closes a label in the hash of a name.
pub const LABEL_END: u8 = 0x2e;

/// The hash after one more byte.
pub open spec fn mix(h: u64, b: u8) -> u64 {
    (h ^ (b as u64)).wrapping_mul(HASH_PRIME)
}

/// The hash after the bytes, taken from the left.
pub open spec fn mix_bytes(h: u64, bytes: Seq<u8>) -> u64
    decreases bytes.len(),
{
    if bytes.len() == 0 {
        h
    } else {
        mix(mix_bytes(h, bytes.drop_last()), bytes.last())
    }
}

/// The hash after the lowest `width` bytes of a number, the lowest first.
pub open spec fn mix_number(h: u64, x: nat, width: nat) -> u64
    decreases width,
{
    if width == 0 {
        h
    } else {
        mix_number(mix(h, (x % 256) as u8), x / 256, (width - 1) as nat)
    }
}

/// The hash after a name: each label from the left, closed by `LABEL_END`.
pub open spec fn mix_name(h: u64, name: Seq<Seq<u8>>) -> u64
    decreases name.len(),
{
    if name.len() == 0 {
        h
    } else {
        mix(mix_bytes(mix_name(h, name.drop_last()), name.last()), LABEL_END)
    }
}

/// The hash of record data: of a byte that tells the type, then of the
/// payload. Data of a type outside the closed set has none.
pub open spec fn digest(rdata: RDataView) -> Option<u64> {
    match rdata {
        RDataView::A(addr) => Some(mix_number(mix(HASH_SEED, 1), addr as nat, 4)),
        RDataView::AAAA(addr) => Some(mix_number(mix(HASH_SEED, 2), addr as nat, 16)),
        RDataView::NS(host) => Some(mix_name(mix(HASH_SEED, 3), host)),
        RDataView::CNAME(host) => Some(mix_name(mix(HASH_SEED, 4), host)),
        RDataView::PTR(host) => Some(mix_name(mix(HASH_SEED, 5), host)),
        RDataView::MX(bytes) => Some(mix_bytes(mix(HASH_SEED, 6), bytes)),
        RDataView::SOA(bytes) => Some(mix_bytes(mix(HASH_SEED, 7), bytes)),
        RDataView::SRV(bytes) => Some(mix_bytes(mix(HASH_SEED, 8), bytes)),
        RDataView::TXT(bytes) => Some(mix_bytes(mix(HASH_SEED, 9), bytes)),
        RDataView::CAA(bytes) => Some(mix_bytes(mix(HASH_SEED, 10), bytes)),
        RDataView::TLSA(bytes) => Some(mix_bytes(mix(HASH_SEED, 11), bytes)),
        RDataView::NULL(bytes) => Some(mix_bytes(mix(HASH_SEED, 12), bytes)),
        RDataView::Unknown(_, _) => None,
    }
}

fn mix_byte(h: u64, b: u8) -> (r: u64)
    ensures
        r == mix(h, b),
{
    (h ^ (b as u64)).wrapping_mul(HASH_PRIME)
}

fn hash_bytes(h: u64, bytes: &Vec<u8>) -> (r: u64)
    ensures
        r == mix_bytes(h, bytes@),
{
    let mut acc = h;
    let mut i: usize = 0;
    while i < bytes.len()
        invariant
            i <= bytes.len(),
            acc == mix_bytes(h, bytes@.take(i as int)),
        decreases bytes.len() - i,
    {
        assert(bytes@.take(i + 1).drop_last() =~= bytes@.take(i as int));
        acc = mix_byte(acc, bytes[i]);
        i += 1;
    }
    assert(bytes@.take(i as int) =~= bytes@);
    acc
}

fn hash_number(h: u64, x: u128, width: u8) -> (r: u64)
    ensures
        r == mix_number(h, x as nat, width as nat),
{
    let mut acc = h;
    let mut rest = x;
    let mut left = width;
    while left > 0
        invariant
            mix_number(acc, rest as nat, left as nat) == mix_number(h, x as nat, width as nat),
        decreases left,
    {
        acc = mix_byte(acc, (rest % 256) as u8);
        rest = rest / 256;
        left = left - 1;
    }
    acc
}

fn hash_name(h: u64, name: &Name) -> (r: u64)
    ensures
        r == mix_name(h, name@),
{
    let labels = name.labels();
    let mut acc = h;
    let mut i: usize = 0;
    assert(name@.len() == labels@.len());
    while i < labels.len()
        invariant
            i <= labels.len(),
            name@.len() == labels@.len(),
            forall|k: int| 0 <= k < labels@.len() ==> name@[k] == labels@[k]@,
            acc == mix_name(h, name@.take(i as int)),
        decreases labels.len() - i,
    {
        assert(name@.take(i + 1).drop_last() =~= name@.take(i as int));
        acc = hash_bytes(acc, &labels[i]);
        acc = mix_byte(acc, LABEL_END);
        i += 1;
    }
    assert(name@.take(i as int) =~= name@);
    acc
}

/// Record data of a type in the closed set, together with its hash, so that
/// a set of record data can tell two pieces apart cheaply.
#[derive(Debug)]
pub struct RDataHash {
    rdata: RData,
    hash: u64,
}

impl View for RDataHash {
    type V = RDataView;

    closed spec fn view(&self) -> RDataView {
        self.rdata@
    }
}

impl RDataHash {
    #[verifier::type_invariant]
    spec fn inv(self) -> bool {
        digest(self.rdata@) == Some(self.hash)
    }

    /// Wraps record data for use in a set; `None` for data of a type
    /// outside the closed set, which has no hash.
    pub fn new(rdata: RData) -> (r: Option<RDataHash>)
        ensures
            r is Some <==> rdata@.is_known(),
            r matches Some(key) ==> key@ == rdata@,
    {
        let seed = HASH_SEED;
        let hash = match &rdata {
            RData::A(addr) => hash_number(mix_byte(seed, 1), *addr as u128, 4),
            RData::AAAA(addr) => hash_number(mix_byte(seed, 2), *addr, 16),
            RData::NS(host) => hash_name(mix_byte(seed, 3), host),
            RData::CNAME(host) => hash_name(mix_byte(seed, 4), host),
            RData::PTR(host) => hash_name(mix_byte(seed, 5), host),
            RData::MX(bytes) => hash_bytes(mix_byte(seed, 6), bytes),
            RData::SOA(bytes) => hash_bytes(mix_byte(seed, 7), bytes),
            RData::SRV(bytes) => hash_bytes(mix_byte(seed, 8), bytes),
            RData::TXT(bytes) => hash_bytes(mix_byte(seed, 9), bytes),
            RData::CAA(bytes) => hash_bytes(mix_byte(seed, 10), bytes),
            RData::TLSA(bytes) => hash_bytes(mix_byte(seed, 11), bytes),
            RData::NULL(bytes) => hash_bytes(mix_byte(seed, 12), bytes),
            RData::Unknown(_, _) => {
                return None;
            },
        };
        Some(RDataHash { rdata, hash })
    }

    /// The hash of the data: equal data has equal hashes.
    pub fn hash(&self) -> (h: u64)
        ensures
            digest(self@) == Some(h),
    {
        proof {
            use_type_invariant(self);
        }
        self.hash
    }

    /// The data.
    pub fn rdata(&self) -> (r: &RData)
        ensures
            r@ == self@,
            r@.is_known(),
    {
        proof {
            use_type_invariant(self);
        }
        &self.rdata
    }

    /// Gives the data back.
    pub fn into_rdata(self) -> (r: RData)
        ensures
            r@ == self@,
            r@.is_known(),
    {
        proof {
            use_type_invariant(&self);
        }
        self.rdata
    }

    /// Whether the two hold the same data.
    pub fn same(&self, other: &RDataHash) -> (r: bool)
        ensures
            r == (self@ == other@),
    {
        proof {
            use_type_invariant(self);
            use_type_invariant(other);
        }
        self.hash == other.hash && self.rdata.same(&other.rdata)
    }
}

} // verus!
