use dns_splitter::domain_list::{filter_domains, is_subdomain, reverse_domain};

fn owned(xs: &[&str]) -> Vec<Vec<u8>> {
    xs.iter().map(|x| x.as_bytes().to_vec()).collect()
}

#[test]
fn reverse_domain_reverses_labels() {
    assert_eq!(reverse_domain(b"www.example.com"), b"com.example.www".to_vec());
    assert_eq!(reverse_domain(b"localhost"), b"localhost".to_vec());
    assert_eq!(reverse_domain(b""), Vec::<u8>::new());
    assert_eq!(reverse_domain(b"a..b"), b"b..a".to_vec());
}

#[test]
fn subdomain_test_compares_labels() {
    assert!(is_subdomain(b"a.example.com", b"example.com"));
    assert!(is_subdomain(b"example.com", b"example.com"));
    assert!(!is_subdomain(b"example.com", b"a.example.com"));
    assert!(!is_subdomain(b"example.org", b"example.com"));
    assert!(!is_subdomain(b"bexample.com", b"b.com"));
    assert!(!is_subdomain(b"ab.x.com", b"a.x.com"));
    assert!(!is_subdomain(b"ab.c", b"a.c"));
}

#[test]
fn filter_drops_covered_and_dotless_domains() {
    let input = owned(&[
        "www.example.com",
        "example.com",
        "a.b.example.com",
        "nodot",
        "",
        "foo.org",
        "x.foo.org",
        "example.com",
    ]);
    assert_eq!(filter_domains(input), owned(&["example.com", "foo.org"]));
}

#[test]
fn filter_keeps_unrelated_domains_of_one_group() {
    let input = owned(&["a.example.com", "b.example.com", "a.example.com"]);
    assert_eq!(filter_domains(input), owned(&["a.example.com", "b.example.com"]));
    assert_eq!(filter_domains(Vec::new()), Vec::<Vec<u8>>::new());
}

#[test]
fn filter_drops_every_entry_under_a_new_one() {
    let input = owned(&["a.x.com", "b.x.com", "x.com"]);
    assert_eq!(filter_domains(input), owned(&["x.com"]));
}

#[test]
fn filter_keeps_label_wise_unrelated_names() {
    let input = owned(&["a.x.com", "ab.x.com"]);
    assert_eq!(filter_domains(input), owned(&["a.x.com", "ab.x.com"]));
}

#[test]
fn filter_keeps_sorted_order() {
    let input = owned(&["a.com", "b.org", "c.com", "www.c.com"]);
    assert_eq!(filter_domains(input), owned(&["a.com", "b.org", "c.com"]));
}
