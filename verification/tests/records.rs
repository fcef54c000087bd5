use iterdns::entry::{REntry, RServer};
use iterdns::name::Name;
use iterdns::order::Rank;
use iterdns::rdata_hash::RDataHash;
use iterdns::record::{IpAddr, RData, Record, RecordType};

fn name(text: &str) -> Name {
    let labels: Vec<Vec<u8>> = text
        .split('.')
        .filter(|l| !l.is_empty())
        .map(|l| l.as_bytes().to_vec())
        .collect();
    Name::from_labels(labels).unwrap()
}

fn entries(entry: &REntry) -> Vec<RData> {
    match entry {
        REntry::Entries(items) => items.clone(),
        _ => panic!("the entry holds no data"),
    }
}

#[test]
fn v4_gives_the_number_of_the_address() {
    assert_eq!(IpAddr::v4(198, 41, 0, 4), IpAddr::V4(0xc629_0004));
    assert_eq!(IpAddr::v4(0, 0, 0, 0), IpAddr::V4(0));
    assert_eq!(IpAddr::v4(255, 255, 255, 255), IpAddr::V4(u32::MAX));
    assert_eq!(IpAddr::v4(1, 2, 3, 4), IpAddr::V4(0x0102_0304));
}

#[test]
fn v6_gives_the_number_of_the_address() {
    assert_eq!(
        IpAddr::v6(0x2001, 0x503, 0xba3e, 0, 0, 0, 0x2, 0x30),
        IpAddr::V6(0x2001_0503_ba3e_0000_0000_0000_0002_0030)
    );
    assert_eq!(IpAddr::v6(0, 0, 0, 0, 0, 0, 0, 1), IpAddr::V6(1));
    assert_eq!(
        IpAddr::v6(0xffff, 0xffff, 0xffff, 0xffff, 0xffff, 0xffff, 0xffff, 0xffff),
        IpAddr::V6(u128::MAX)
    );
}

#[test]
fn server_identity_of_an_address() {
    assert_eq!(RServer::from(IpAddr::V4(7)), RServer::V4(7));
    assert_eq!(RServer::from(IpAddr::V6(7)), RServer::V6(7));
    assert_ne!(RServer::from(IpAddr::V4(7)), RServer::Hint);
    assert_ne!(RServer::from(IpAddr::V6(u128::MAX)), RServer::Hint);
}

#[test]
fn servers_are_ordered_v4_then_v6_then_hint() {
    assert_eq!(RServer::V4(1).compare(&RServer::V4(2)), Rank::Below);
    assert_eq!(RServer::V4(2).compare(&RServer::V4(2)), Rank::Same);
    assert_eq!(RServer::V4(3).compare(&RServer::V4(2)), Rank::Above);
    assert_eq!(RServer::V4(u32::MAX).compare(&RServer::V6(0)), Rank::Below);
    assert_eq!(RServer::V6(0).compare(&RServer::V4(u32::MAX)), Rank::Above);
    assert_eq!(RServer::V6(5).compare(&RServer::V6(9)), Rank::Below);
    assert_eq!(RServer::V6(9).compare(&RServer::V6(5)), Rank::Above);
    assert_eq!(RServer::V6(u128::MAX).compare(&RServer::Hint), Rank::Below);
    assert_eq!(RServer::V4(0).compare(&RServer::Hint), Rank::Below);
    assert_eq!(RServer::Hint.compare(&RServer::V6(0)), Rank::Above);
    assert_eq!(RServer::Hint.compare(&RServer::Hint), Rank::Same);
    // the order that the type derives is the same
    assert!(RServer::V4(u32::MAX) < RServer::V6(0));
    assert!(RServer::V6(u128::MAX) < RServer::Hint);
}

#[test]
fn record_type_of_each_kind_of_data() {
    assert_eq!(RData::A(1).to_record_type(), RecordType::A);
    assert_eq!(RData::AAAA(1).to_record_type(), RecordType::AAAA);
    assert_eq!(RData::NS(name("ns.example.")).to_record_type(), RecordType::NS);
    assert_eq!(RData::CNAME(name("c.example.")).to_record_type(), RecordType::CNAME);
    assert_eq!(RData::PTR(name("p.example.")).to_record_type(), RecordType::PTR);
    assert_eq!(RData::MX(vec![1]).to_record_type(), RecordType::MX);
    assert_eq!(RData::SOA(vec![1]).to_record_type(), RecordType::SOA);
    assert_eq!(RData::SRV(vec![1]).to_record_type(), RecordType::SRV);
    assert_eq!(RData::TXT(vec![1]).to_record_type(), RecordType::TXT);
    assert_eq!(RData::CAA(vec![1]).to_record_type(), RecordType::CAA);
    assert_eq!(RData::TLSA(vec![1]).to_record_type(), RecordType::TLSA);
    assert_eq!(RData::NULL(vec![1]).to_record_type(), RecordType::NULL);
    assert_eq!(RData::Unknown(99, vec![1]).to_record_type(), RecordType::Unknown(99));
    // a type outside the closed set is never one of it, whatever its number
    assert_ne!(RData::Unknown(1, vec![1]).to_record_type(), RecordType::A);
}

#[test]
fn as_ns_gives_the_name_server_of_ns_data_only() {
    assert_eq!(RData::NS(name("ns.example.")).as_ns(), Some(&name("ns.example.")));
    assert_eq!(RData::CNAME(name("ns.example.")).as_ns(), None);
    assert_eq!(RData::A(1).as_ns(), None);
    assert_eq!(RData::Unknown(2, vec![]).as_ns(), None);
}

#[test]
fn to_ip_addr_gives_the_address_of_address_data_only() {
    assert_eq!(RData::A(0xc629_0004).to_ip_addr(), Some(IpAddr::V4(0xc629_0004)));
    assert_eq!(RData::AAAA(5).to_ip_addr(), Some(IpAddr::V6(5)));
    assert_eq!(RData::NS(name("ns.example.")).to_ip_addr(), None);
    assert_eq!(RData::TXT(vec![1, 2, 3, 4]).to_ip_addr(), None);
}

#[test]
fn data_is_the_same_when_type_and_payload_are() {
    assert!(RData::A(1).same(&RData::A(1)));
    assert!(!RData::A(1).same(&RData::A(2)));
    assert!(!RData::A(1).same(&RData::AAAA(1)));
    assert!(RData::NS(name("NS.example.")).same(&RData::NS(name("ns.example."))));
    assert!(!RData::NS(name("ns.example.")).same(&RData::CNAME(name("ns.example."))));
    assert!(!RData::NS(name("ns.example.")).same(&RData::PTR(name("ns.example."))));
    assert!(RData::MX(vec![1, 2]).same(&RData::MX(vec![1, 2])));
    assert!(!RData::MX(vec![1, 2]).same(&RData::MX(vec![1, 2, 3])));
    assert!(!RData::MX(vec![1, 2]).same(&RData::SOA(vec![1, 2])));
    assert!(!RData::TXT(vec![1, 2]).same(&RData::TXT(vec![2, 1])));
    assert!(RData::Unknown(7, vec![1]).same(&RData::Unknown(7, vec![1])));
    assert!(!RData::Unknown(7, vec![1]).same(&RData::Unknown(8, vec![1])));
    assert!(RData::A(1) == RData::A(1));
    assert!(RData::A(1) != RData::A(2));
}

#[test]
fn clone_of_data_is_the_same_data() {
    let all = vec![
        RData::A(1),
        RData::AAAA(2),
        RData::NS(name("ns.example.")),
        RData::CNAME(name("c.example.")),
        RData::PTR(name("p.example.")),
        RData::MX(vec![1]),
        RData::SOA(vec![2]),
        RData::SRV(vec![3]),
        RData::TXT(vec![4]),
        RData::CAA(vec![5]),
        RData::TLSA(vec![6]),
        RData::NULL(vec![7]),
        RData::Unknown(300, vec![8]),
    ];
    for rdata in &all {
        assert_eq!(&rdata.clone(), rdata);
    }
    // and no two of them are the same
    for (i, a) in all.iter().enumerate() {
        for (j, b) in all.iter().enumerate() {
            assert_eq!(a.same(b), i == j);
        }
    }
}

#[test]
fn record_gives_its_parts() {
    let rec = Record { name: name("www.example.com."), rdata: RData::A(9) };
    assert_eq!(rec.name(), &name("www.example.com."));
    assert_eq!(rec.rdata(), &RData::A(9));
    assert_eq!(rec.record_type(), RecordType::A);
}

#[test]
fn hash_of_an_address() {
    let key = RDataHash::new(RData::A(0x0102_0304)).unwrap();
    assert_eq!(key.hash(), 0x7225_f88d_5dc3_4d48);
    let key = RDataHash::new(RData::AAAA(0x2001_0503_ba3e_0000_0000_0000_0002_0030)).unwrap();
    assert_eq!(key.hash(), 0x824e_c1c8_ffde_35b6);
}

#[test]
fn hash_of_a_name_and_of_bytes() {
    let key = RDataHash::new(RData::NS(name("ns.example."))).unwrap();
    assert_eq!(key.hash(), 0xa7e5_7b07_55ef_8ff1);
    let key = RDataHash::new(RData::NS(Name::root())).unwrap();
    assert_eq!(key.hash(), 0xaf63_be4c_8601_b992);
    let key = RDataHash::new(RData::MX(vec![1, 2, 3])).unwrap();
    assert_eq!(key.hash(), 0x048d_6e6e_ec80_60c7);
}

#[test]
fn hash_tells_the_types_apart() {
    let ns = RDataHash::new(RData::NS(name("x.example."))).unwrap();
    let cname = RDataHash::new(RData::CNAME(name("x.example."))).unwrap();
    assert_ne!(ns.hash(), cname.hash());
    assert!(!ns.same(&cname));
    let mx = RDataHash::new(RData::MX(vec![1])).unwrap();
    let txt = RDataHash::new(RData::TXT(vec![1])).unwrap();
    assert_ne!(mx.hash(), txt.hash());
}

#[test]
fn equal_data_has_equal_hashes() {
    let a = RDataHash::new(RData::NS(name("NS1.Example.COM."))).unwrap();
    let b = RDataHash::new(RData::NS(name("ns1.example.com."))).unwrap();
    assert!(a.same(&b));
    assert_eq!(a.hash(), b.hash());
    let c = RDataHash::new(RData::NS(name("ns2.example.com."))).unwrap();
    assert!(!a.same(&c));
}

#[test]
fn data_of_an_unknown_type_has_no_hash() {
    assert!(RDataHash::new(RData::Unknown(65280, vec![1, 2, 3])).is_none());
    assert!(RDataHash::new(RData::Unknown(1, Vec::new())).is_none());
    assert!(RDataHash::new(RData::NULL(Vec::new())).is_some());
}

#[test]
fn hashed_data_gives_the_data_back() {
    let key = RDataHash::new(RData::TXT(vec![104, 105])).unwrap();
    assert_eq!(key.rdata(), &RData::TXT(vec![104, 105]));
    assert_eq!(key.into_rdata(), RData::TXT(vec![104, 105]));
}

#[test]
fn merge_into_an_empty_slot_stores_what_came() {
    assert!(matches!(REntry::merge(None, REntry::TimeOut), REntry::TimeOut));
    assert!(matches!(REntry::merge(None, REntry::NoEntry), REntry::NoEntry));
    let e = REntry::merge(None, REntry::Entries(vec![RData::A(1)]));
    assert_eq!(entries(&e), vec![RData::A(1)]);
}

#[test]
fn merge_data_replaces_a_time_out_or_a_denial() {
    let e = REntry::merge(Some(REntry::TimeOut), REntry::Entries(vec![RData::A(1)]));
    assert_eq!(entries(&e), vec![RData::A(1)]);
    let e = REntry::merge(Some(REntry::NoEntry), REntry::Entries(vec![RData::A(2)]));
    assert_eq!(entries(&e), vec![RData::A(2)]);
}

#[test]
fn merge_data_joins_earlier_data() {
    let e = REntry::merge(
        Some(REntry::Entries(vec![RData::A(1), RData::A(2)])),
        REntry::Entries(vec![RData::A(1), RData::TXT(vec![3])]),
    );
    assert_eq!(
        entries(&e),
        vec![RData::A(1), RData::A(2), RData::A(1), RData::TXT(vec![3])]
    );
}

#[test]
fn merge_keeps_data_against_a_time_out_or_a_denial() {
    let e = REntry::merge(Some(REntry::Entries(vec![RData::A(1)])), REntry::TimeOut);
    assert_eq!(entries(&e), vec![RData::A(1)]);
    let e = REntry::merge(Some(REntry::Entries(vec![RData::A(1)])), REntry::NoEntry);
    assert_eq!(entries(&e), vec![RData::A(1)]);
}

#[test]
fn merge_a_denial_outlives_a_time_out() {
    assert!(matches!(REntry::merge(Some(REntry::TimeOut), REntry::NoEntry), REntry::NoEntry));
    assert!(matches!(REntry::merge(Some(REntry::NoEntry), REntry::TimeOut), REntry::NoEntry));
    assert!(matches!(REntry::merge(Some(REntry::TimeOut), REntry::TimeOut), REntry::TimeOut));
    assert!(matches!(REntry::merge(Some(REntry::NoEntry), REntry::NoEntry), REntry::NoEntry));
}

#[test]
fn clone_of_an_entry() {
    assert!(matches!(REntry::TimeOut.clone(), REntry::TimeOut));
    assert!(matches!(REntry::NoEntry.clone(), REntry::NoEntry));
    let e = REntry::Entries(vec![RData::A(1), RData::NS(name("ns.example."))]);
    assert_eq!(entries(&e.clone()), vec![RData::A(1), RData::NS(name("ns.example."))]);
}
