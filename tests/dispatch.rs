use dns_splitter::dispatch::{dispatch, fake_response, Action, Rules, Upstream};
use dns_splitter::payload::Payload;
use dns_splitter::pending::PendingMap;
use dns_splitter::trie::domain_trie::{lower_labels, DomainTrie};

fn query(id: u16, name: &str) -> Vec<u8> {
    let mut b = vec![(id >> 8) as u8, id as u8, 0x01, 0x20, 0x00, 0x01, 0x00, 0x00, 0x00, 0x00, 0x00, 0x01];
    for label in name.split('.') {
        b.push(label.len() as u8);
        b.extend_from_slice(label.as_bytes());
    }
    b.push(0);
    b.extend_from_slice(&[0x00, 0x01, 0x00, 0x01]);
    b.extend_from_slice(&[0x00, 0x00, 0x29, 0x10, 0x00, 0x00, 0x00, 0x00, 0x00, 0x00, 0x00]);
    b
}

fn rules() -> Rules {
    Rules {
        exclude: DomainTrie::from_list(b"corp.example\n"),
        block: DomainTrie::from_list(b"# ads\ntracker.example\n"),
        route: DomainTrie::from_list(b"google.com\nexample\n"),
    }
}

const HEADER: [u8; 10] = [0x81, 0x80, 0x00, 0x01, 0x00, 0x01, 0x00, 0x00, 0x00, 0x01];
const TRAILER: [u8; 27] = [
    0xc0, 0x0c, 0x00, 0x01, 0x00, 0x01, 0x00, 0x00, 0x01, 0xf4, 0x00, 0x04, 0x01, 0x02, 0x03, 0x04,
    0x00, 0x00, 0x29, 0x05, 0x80, 0x00, 0x00, 0x00, 0x00, 0x00, 0x00,
];

#[test]
fn forged_answer_for_www_google_com() {
    let q = query(0xd939, "www.google.com");
    let (_, end) = Payload::from(&q[..]).domain().unwrap();
    assert_eq!(end, 27);
    let r = fake_response(&q, end);
    assert_eq!(&r[..2], &[0xd9, 0x39]);
    assert_eq!(&r[2..12], &HEADER[..]);
    assert_eq!(&r[12..32], &q[12..32]);
    assert_eq!(&r[32..], &TRAILER[..]);
    assert_eq!(r.len(), 2 + 10 + 20 + 27);
}

#[test]
fn blocked_query_gets_forged_answer() {
    let q = query(0x1234, "ads.tracker.example");
    match dispatch(&rules(), &Payload::from(&q[..])) {
        Action::Reply(r) => {
            assert_eq!(&r[..2], &[0x12, 0x34]);
            assert_eq!(&r[2..12], &HEADER[..]);
            let qlen = 1 + 3 + 1 + 7 + 1 + 7 + 1 + 4;
            assert_eq!(&r[12..12 + qlen], &q[12..12 + qlen]);
            assert_eq!(&r[12 + qlen..], &TRAILER[..]);
            assert!(r.windows(4).any(|w| w == [1, 2, 3, 4]));
        }
        other => panic!("expected a forged answer, got {:?}", other),
    }
}

#[test]
fn blocked_name_matches_in_any_case() {
    let q = query(7, "ADS.Tracker.Example");
    assert!(matches!(dispatch(&rules(), &Payload::from(&q[..])), Action::Reply(_)));
}

#[test]
fn excluded_query_is_forwarded_and_answer_relayed() {
    let q = query(0x4242, "internal.corp.example");
    let p = Payload::from(&q[..]);
    match dispatch(&rules(), &p) {
        Action::Forward(u) => assert_eq!(u, Upstream::Direct),
        other => panic!("expected forwarding, got {:?}", other),
    }
    let mut pending: PendingMap<&str> = PendingMap::new();
    pending.register(p.id().unwrap(), "client 10.0.0.7:5353");
    let answer = vec![0x42u8, 0x42, 0x81, 0x80, 0, 1, 0, 1, 0, 0, 0, 0, 9, 9, 9];
    let (who, relayed) = pending.deliver(Payload::from(&answer[..])).unwrap();
    assert_eq!(who, "client 10.0.0.7:5353");
    assert_eq!(relayed.as_slice(), &answer[..]);
    assert!(!pending.contains(0x4242));
}

#[test]
fn routed_and_default_queries() {
    let q = query(1, "mail.google.com");
    assert!(matches!(dispatch(&rules(), &Payload::from(&q[..])), Action::Forward(Upstream::Routed)));
    let q = query(1, "www.rust-lang.org");
    assert!(matches!(dispatch(&rules(), &Payload::from(&q[..])), Action::Forward(Upstream::Direct)));
    // Excluded before routed: corp.example lies under the routed "example".
    let q = query(1, "corp.example");
    assert!(matches!(dispatch(&rules(), &Payload::from(&q[..])), Action::Forward(Upstream::Direct)));
    let q = query(1, "x.example");
    assert!(matches!(dispatch(&rules(), &Payload::from(&q[..])), Action::Forward(Upstream::Routed)));
}

#[test]
fn malformed_queries_are_dropped() {
    let q = query(1, "ads.tracker.example");
    assert!(matches!(dispatch(&rules(), &Payload::from(&q[..10])), Action::Drop));
    assert!(matches!(dispatch(&rules(), &Payload::from(&q[..20])), Action::Drop));
    // Name complete but type and class cut off: no forged answer can be built.
    let end = 12 + 1 + 3 + 1 + 7 + 1 + 7;
    assert!(matches!(dispatch(&rules(), &Payload::from(&q[..end + 2])), Action::Drop));
    // A query that is only forwarded needs no type and class.
    let q = query(1, "www.rust-lang.org");
    let end = 12 + 4 + 10 + 4;
    assert!(matches!(dispatch(&rules(), &Payload::from(&q[..end + 1])), Action::Forward(Upstream::Direct)));
}

#[test]
fn labels_are_lowered() {
    let v = vec![b"CoM".to_vec(), b"Ex-AmPle9".to_vec(), vec![]];
    assert_eq!(lower_labels(&v), vec![b"com".to_vec(), b"ex-ample9".to_vec(), vec![]]);
}
