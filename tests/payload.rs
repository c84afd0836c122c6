use dns_splitter::payload::Payload;

#[test]
fn it_work_id_from_slice() {
    assert_eq!(Payload::from(&[0u8, 0][..]).id().unwrap(), 0);
    assert_eq!(Payload::from(&[0u8, 2][..]).id().unwrap(), 2);
    assert_eq!(Payload::from(&[1u8, 0][..]).id().unwrap(), 256);
    assert_eq!(Payload::from(&[1u8, 2][..]).id().unwrap(), 258);
}

#[test]
fn it_work_domain() {
    let b = [
        0x8fu8, 0xd6, 0x01, 0x20, 0x00, 0x01, 0x00, 0x00, 0x00, 0x00, 0x00, 0x01, 0x03, 0x78,
        0x72, 0x31, 0x05, 0x76, 0x6c, 0x70, 0x65, 0x72, 0x03, 0x74, 0x6f, 0x70, 0x00, 0x00,
        0x01, 0x00, 0x01, 0x00, 0x00, 0x29, 0x10, 0x00, 0x00, 0x00, 0x00, 0x00, 0x00, 0x00,
    ];

    let rel = Payload::from(&b[..]);
    let (domain, offset) = rel.domain().unwrap();
    let domain2: Vec<&[u8]> = vec![b"top", b"vlper", b"xr1"];
    assert_eq!(domain, domain2);
    assert_eq!(offset, 26);
}

fn example_com_query() -> Vec<u8> {
    let mut b = vec![0x8fu8, 0xd6, 0x01, 0x20, 0x00, 0x01, 0x00, 0x00, 0x00, 0x00, 0x00, 0x00];
    b.push(7);
    b.extend_from_slice(b"example");
    b.push(3);
    b.extend_from_slice(b"com");
    b.push(0);
    b.extend_from_slice(&[0x00, 0x01, 0x00, 0x01]);
    b
}

#[test]
fn question_of_example_com() {
    let b = example_com_query();
    let p = Payload::from(&b[..]);
    let (labels, end) = p.domain().unwrap();
    let want: Vec<&[u8]> = vec![b"com", b"example"];
    assert_eq!(labels, want);
    assert_eq!(end, 24);
    assert_eq!(b[end], 0);
    assert_eq!(p.id().unwrap(), 0x8fd6);
}

#[test]
fn question_running_past_the_end_is_rejected() {
    let mut b = example_com_query();
    b.truncate(20);
    assert!(Payload::from(&b[..]).domain().is_none());
    assert!(Payload::from(&b[..12]).domain().is_none());
    assert!(Payload::from(&[0u8, 1][..]).domain().is_none());
    // The last label claims more bytes than remain.
    let mut c = example_com_query();
    c.truncate(22);
    c.push(9);
    assert!(Payload::from(&c[..]).domain().is_none());
}

#[test]
fn root_name_has_no_labels() {
    let b = [0x12u8, 0x34, 0, 0, 0, 1, 0, 0, 0, 0, 0, 0, 0, 0, 1, 0, 1];
    let (labels, end) = Payload::from(&b[..]).domain().unwrap();
    assert!(labels.is_empty());
    assert_eq!(end, 12);
}

#[test]
fn as_slice_keeps_bytes() {
    let b = [9u8, 8, 7];
    assert_eq!(Payload::from(&b[..]).as_slice(), &b[..]);
}

#[test]
fn short_datagram_has_no_id() {
    assert_eq!(Payload::from(&[0x12u8][..]).id(), None);
    assert_eq!(Payload::from(&[][..]).id(), None);
}
