use iterdns::name::Name;
use iterdns::order::{compare_bytes, Rank};

fn name(text: &str) -> Name {
    let labels: Vec<Vec<u8>> = text
        .split('.')
        .filter(|l| !l.is_empty())
        .map(|l| l.as_bytes().to_vec())
        .collect();
    Name::from_labels(labels).unwrap()
}

#[test]
fn root_has_no_labels() {
    let root = Name::root();
    assert!(root.is_root());
    assert_eq!(root.num_labels(), 0);
    assert!(root.labels().is_empty());
    assert_eq!(root, name("."));
}

#[test]
fn from_labels_keeps_the_order_of_labels() {
    let n = name("www.example.com.");
    assert_eq!(n.num_labels(), 3);
    assert!(!n.is_root());
    assert_eq!(
        n.labels(),
        &vec![b"www".to_vec(), b"example".to_vec(), b"com".to_vec()]
    );
}

#[test]
fn from_labels_folds_to_lower_case() {
    let n = name("A.ROOT-SERVERS.NET.");
    assert_eq!(
        n.labels(),
        &vec![b"a".to_vec(), b"root-servers".to_vec(), b"net".to_vec()]
    );
    assert_eq!(n, name("a.root-servers.net."));
    // bytes next to the letters stay as they are
    let odd = Name::from_labels(vec![vec![b'@', b'Z', b'[', b'`', b'z', b'{']]).unwrap();
    assert_eq!(odd.labels(), &vec![vec![b'@', b'z', b'[', b'`', b'z', b'{']]);
}

#[test]
fn from_labels_rejects_an_empty_label() {
    assert!(Name::from_labels(vec![b"www".to_vec(), Vec::new(), b"com".to_vec()]).is_none());
}

#[test]
fn from_labels_limits_the_label_length() {
    assert!(Name::from_labels(vec![vec![b'a'; 63]]).is_some());
    assert!(Name::from_labels(vec![vec![b'a'; 64]]).is_none());
}

#[test]
fn from_labels_limits_the_wire_length() {
    // three labels of 63 bytes and one of 61: 3 * 64 + 62 + 1 = 255
    let fits = vec![vec![b'a'; 63], vec![b'b'; 63], vec![b'c'; 63], vec![b'd'; 61]];
    assert!(Name::from_labels(fits).is_some());
    // one byte more: 256
    let too_long = vec![vec![b'a'; 63], vec![b'b'; 63], vec![b'c'; 63], vec![b'd'; 62]];
    assert!(Name::from_labels(too_long).is_none());
}

#[test]
fn names_are_equal_when_their_labels_are() {
    assert!(name("example.com.").same(&name("EXAMPLE.com.")));
    assert!(!name("example.com.").same(&name("example.net.")));
    assert!(!name("example.com.").same(&name("com.")));
    assert!(!name("a.b.").same(&name("b.a.")));
    assert!(name("example.com.") != name("www.example.com."));
}

#[test]
fn clone_gives_an_equal_name() {
    let n = name("mail.google.com.");
    let c = n.clone();
    assert_eq!(n, c);
    assert_eq!(c.num_labels(), 3);
}

#[test]
fn zone_of_holds_for_the_name_and_its_ancestors() {
    let n = name("www.example.com.");
    assert!(name("www.example.com.").zone_of(&n));
    assert!(name("example.com.").zone_of(&n));
    assert!(name("com.").zone_of(&n));
    assert!(Name::root().zone_of(&n));
    assert!(Name::root().zone_of(&Name::root()));
}

#[test]
fn zone_of_fails_for_descendants_and_strangers() {
    let n = name("www.example.com.");
    assert!(!n.zone_of(&name("example.com.")));
    assert!(!name("example.net.").zone_of(&n));
    assert!(!name("www.example.").zone_of(&n));
    assert!(!name("ample.com.").zone_of(&n));
    assert!(!name("com.").zone_of(&Name::root()));
}

#[test]
fn zone_of_ignores_case() {
    assert!(name("Example.COM.").zone_of(&name("www.example.com.")));
}

#[test]
fn compare_orders_from_the_root_down() {
    // a name sorts before its descendants
    assert_eq!(Name::root().compare(&name("com.")), Rank::Below);
    assert_eq!(name("com.").compare(&name("google.com.")), Rank::Below);
    assert_eq!(name("google.com.").compare(&name("com.")), Rank::Above);
    // the label next to the root decides first
    assert_eq!(name("zzz.com.").compare(&name("aaa.net.")), Rank::Below);
    assert_eq!(name("a.example.").compare(&name("z.a.example.")), Rank::Below);
    assert_eq!(name("z.a.example.").compare(&name("b.example.")), Rank::Below);
    assert_eq!(name("example.com.").compare(&name("EXAMPLE.com.")), Rank::Same);
    assert_eq!(Name::root().compare(&Name::root()), Rank::Same);
}

#[test]
fn compare_takes_labels_as_byte_strings() {
    // the absence of a byte sorts before any byte
    assert_eq!(name("ab.").compare(&name("abc.")), Rank::Below);
    assert_eq!(name("abc.").compare(&name("abd.")), Rank::Below);
    assert_eq!(name("b.").compare(&name("abc.")), Rank::Above);
}

#[test]
fn compare_bytes_is_lexicographic() {
    assert_eq!(compare_bytes(&vec![], &vec![]), Rank::Same);
    assert_eq!(compare_bytes(&vec![], &vec![0]), Rank::Below);
    assert_eq!(compare_bytes(&vec![1, 2], &vec![1, 2]), Rank::Same);
    assert_eq!(compare_bytes(&vec![1, 2], &vec![1, 3]), Rank::Below);
    assert_eq!(compare_bytes(&vec![2], &vec![1, 3]), Rank::Above);
    assert_eq!(compare_bytes(&vec![1, 2, 0], &vec![1, 2]), Rank::Above);
}
