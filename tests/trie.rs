use dns_splitter::trie::domain_trie::{line_labels, DomainTrie};
use dns_splitter::trie::label_trie::Trie;
use dns_splitter::trie::Trie as StrTrie;

fn labels(xs: &[&str]) -> Vec<Vec<u8>> {
    xs.iter().map(|x| x.as_bytes().to_vec()).collect()
}

#[test]
fn trie_test() {
    let mut trie = Trie::with_capacity(100);

    trie.insert(&labels(&["a", "p", "p"]));
    trie.insert(&labels(&["a", "p", "p", "l", "e"]));
    trie.insert(&labels(&["b", "a", "n", "a", "n", "a"]));
    trie.insert(&labels(&["g", "r", "a", "p", "e"]));
    trie.insert(&labels(&["c"]));

    assert!(!trie.prefix_match(&labels(&["a", "p"])));
    assert!(trie.prefix_match(&labels(&["a", "p", "p"])));
    assert!(trie.prefix_match(&labels(&["a", "p", "p", "l", "e"])));
    assert!(trie.prefix_match(&labels(&["a", "p", "p", "l", "l"])));

    assert!(!trie.prefix_match(&labels(&["g", "r"])));
    assert!(!trie.prefix_match(&labels(&["p", "e", "a"])));

    assert!(trie.prefix_match(&labels(&["c"])));
    assert!(trie.prefix_match(&labels(&["c", "s"])));

    assert!(trie.prefix_match(&labels(&["a", "p", "p", "l", "e"])));
    assert!(trie.prefix_match(&labels(&["b", "a", "n", "a", "n", "a"])));
    assert!(!trie.prefix_match(&labels(&["o", "r", "a", "n", "g", "e"])));
}

#[test]
fn redundant_insert_changes_no_match() {
    let queries = [
        labels(&["com"]),
        labels(&["com", "example"]),
        labels(&["com", "example", "www"]),
        labels(&["com", "examples"]),
        labels(&["org", "example"]),
        labels(&[]),
    ];
    let mut trie = Trie::with_capacity(4);
    trie.insert(&labels(&["com", "example"]));
    let before: Vec<bool> = queries.iter().map(|q| trie.prefix_match(q)).collect();
    trie.insert(&labels(&["com", "example", "www", "mail"]));
    trie.insert(&labels(&["com", "example"]));
    let after: Vec<bool> = queries.iter().map(|q| trie.prefix_match(q)).collect();
    assert_eq!(before, after);
    assert_eq!(after, vec![false, true, true, false, false, false]);
}

#[test]
fn shorter_domain_after_longer_one_covers_both() {
    let mut trie = Trie::with_capacity(0);
    trie.insert(&labels(&["com", "example", "www"]));
    assert!(!trie.prefix_match(&labels(&["com", "example", "mail"])));
    trie.insert(&labels(&["com", "example"]));
    trie.shrink_to_fit();
    assert!(trie.prefix_match(&labels(&["com", "example", "mail"])));
    assert!(trie.prefix_match(&labels(&["com", "example", "www", "a"])));
    assert!(!trie.prefix_match(&labels(&["com"])));
}

#[test]
fn empty_trie_matches_nothing() {
    let trie = Trie::with_capacity(10);
    assert!(!trie.prefix_match(&labels(&[])));
    assert!(!trie.prefix_match(&labels(&["com"])));
}

#[test]
fn list_lines_are_trimmed_lowered_and_reversed() {
    assert_eq!(line_labels(b"  Mail.Example.COM \r"), Some(labels(&["com", "example", "mail"])));
    assert_eq!(line_labels(b"# a comment"), None);
    assert_eq!(line_labels(b"   \t"), None);
    assert_eq!(line_labels(b""), None);
    assert_eq!(line_labels(b"a..b"), Some(labels(&["b", "", "a"])));
}

#[test]
fn ruleset_from_list() {
    let list = b"# blocked\n\nExample.COM\n  ads.tracker.example \r\nwww.example.com\nlocalhost";
    let rules = DomainTrie::from_list(list);
    assert!(rules.domain_prefix_match(&labels(&["com", "example"])));
    assert!(rules.domain_prefix_match(&labels(&["com", "example", "www"])));
    assert!(rules.domain_prefix_match(&labels(&["com", "example", "a", "b"])));
    assert!(!rules.domain_prefix_match(&labels(&["com"])));
    assert!(!rules.domain_prefix_match(&labels(&["com", "sample"])));
    assert!(rules.domain_prefix_match(&labels(&["example", "tracker", "ads"])));
    assert!(rules.domain_prefix_match(&labels(&["example", "tracker", "ads", "x"])));
    assert!(!rules.domain_prefix_match(&labels(&["example", "tracker"])));
    assert!(rules.domain_prefix_match(&labels(&["localhost"])));
    assert!(!rules.domain_prefix_match(&labels(&["blocked"])));
    assert!(!rules.domain_prefix_match(&labels(&["#", "blocked"])));
}

#[test]
fn ruleset_from_empty_list_matches_nothing() {
    let rules = DomainTrie::from_list(b"");
    assert!(!rules.domain_prefix_match(&labels(&["com"])));
    let rules = DomainTrie::from(Trie::with_capacity(1));
    assert!(!rules.domain_prefix_match(&labels(&["com", "example"])));
}

#[test]
fn test() {
    let mut trie = StrTrie::new();

    trie.insert(&["a", "p", "p", "l", "e"]);
    trie.insert(&["b", "a", "n", "a", "n", "a"]);
    trie.insert(&["g", "r", "a", "p", "e"]);
    trie.insert(&["c"]);

    assert!(trie.starts_with(&["a", "p", "p", "l", "e", "_"]));
    assert!(!trie.starts_with(&["a", "p", "p", "l", "l", "_"]));

    assert!(trie.search(&["a", "p", "p", "l", "e"]));
    assert!(trie.search(&["b", "a", "n", "a", "n", "a"]));
    assert!(!trie.search(&["o", "r", "a", "n", "g", "e"]));

    assert!(trie.starts_with(&["a", "p", "p"]));
    assert!(trie.starts_with(&["g", "r"]));
    assert!(!trie.starts_with(&["p", "e", "a"]));

    assert!(trie.starts_with(&["c"]));
    assert!(trie.starts_with(&["c", "s"]));
}

#[test]
fn longer_key_replaces_its_prefix() {
    let mut trie = StrTrie::new();
    trie.insert(&["app"]);
    assert!(trie.search(&["app"]));
    trie.insert(&["app", "le"]);
    assert!(!trie.search(&["app"]));
    assert!(trie.search(&["app", "le"]));
    assert!(!trie.search(&["app", "le", "s"]));
    assert!(!trie.search(&[]));
    // The walk stops under "app", which is no longer a key.
    assert!(!trie.starts_with(&["app", "x"]));
    trie.insert(&[]);
    assert!(trie.search(&[]));
    assert!(trie.starts_with(&["zzz"]));
}

#[test]
fn ruleset_matches_without_regard_to_case() {
    let rules = DomainTrie::from_list(b"c\nExample.com\n");
    assert!(rules.domain_prefix_match(&labels(&["c"])));
    assert!(rules.domain_prefix_match(&labels(&["C"])));
    assert!(rules.domain_prefix_match(&labels(&["COM", "EXAMPLE"])));
    assert!(rules.domain_prefix_match(&labels(&["com", "eXample", "WWW"])));
    assert!(!rules.domain_prefix_match(&labels(&["COM"])));
}
