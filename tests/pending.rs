use dns_splitter::payload::Payload;
use dns_splitter::pending::{DnsCommand, PendingMap};

#[test]
fn answer_reaches_the_caller_unchanged() {
    let mut m: PendingMap<u32> = PendingMap::new();
    m.register(0x8fd6, 1);
    m.register(0x0001, 2);
    let answer = [0x8fu8, 0xd6, 0x81, 0x80, 1, 2, 3];
    let got = m.deliver(Payload::from(&answer[..]));
    let (who, bytes) = got.unwrap();
    assert_eq!(who, 1);
    assert_eq!(bytes.as_slice(), &answer[..]);
    assert!(!m.contains(0x8fd6));
    assert!(m.contains(0x0001));
}

#[test]
fn expired_query_drops_late_answer() {
    let mut m: PendingMap<u32> = PendingMap::new();
    m.register(7, 70);
    m.expire(7);
    assert!(!m.contains(7));
    assert!(m.deliver(Payload::from(&[0u8, 7, 1][..])).is_none());
    assert!(!m.contains(7));
    // Expiring twice, or after the answer, is harmless.
    m.expire(7);
    assert!(!m.contains(7));
}

#[test]
fn newer_query_replaces_colliding_id() {
    let mut m: PendingMap<&str> = PendingMap::new();
    m.register(5, "old");
    m.register(5, "new");
    let (who, _) = m.deliver(Payload::from(&[0u8, 5][..])).unwrap();
    assert_eq!(who, "new");
    assert!(m.deliver(Payload::from(&[0u8, 5][..])).is_none());
}

#[test]
fn spurious_or_short_answers_are_dropped() {
    let mut m: PendingMap<u32> = PendingMap::new();
    m.register(0x0102, 9);
    assert!(m.deliver(Payload::from(&[0x01u8][..])).is_none());
    assert!(m.deliver(Payload::from(&[][..])).is_none());
    assert!(m.deliver(Payload::from(&[0x02u8, 0x01][..])).is_none());
    assert!(m.contains(0x0102));
}

#[test]
fn commands_register_and_expire() {
    let mut m: PendingMap<u8> = PendingMap::new();
    let q = Payload::from(&[0x12u8, 0x34, 0x01, 0x00][..]);
    let sent = m.apply(DnsCommand::Query { payload: q, resp: 3 }).unwrap();
    assert_eq!(sent.as_slice(), &[0x12u8, 0x34, 0x01, 0x00][..]);
    assert!(m.contains(0x1234));
    assert!(m.apply(DnsCommand::Query { payload: Payload::from(&[1u8][..]), resp: 4 }).is_none());
    assert!(m.apply(DnsCommand::TimedOut { id: 0x1234 }).is_none());
    assert!(!m.contains(0x1234));
}
