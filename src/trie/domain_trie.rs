//! A ruleset of domains, read from a flat list with one domain per line.
use super::label_trie::{covers, inserted, is_under, lemma_insert_matches, Path, Trie};
use crate::payload::{labels_view, reverse_labels, reversed};
use vstd::prelude::*;
use vstd::slice::slice_subrange;

verus! {

/// ASCII white space, as `char::is_whitespace` has it below 128.
pub open spec fn is_space(b: u8) -> bool {
    b == 32 || (9 <= b && b <= 13)
}

/// `s` without its leading white space.
pub open spec fn trim_start(s: Seq<u8>) -> Seq<u8>
    decreases s.len(),
{
    if s.len() > 0 && is_space(s[0]) {
        trim_start(s.drop_first())
    } else {
        s
    }
}

/// `s` without its trailing white space.
pub open spec fn trim_end(s: Seq<u8>) -> Seq<u8>
    decreases s.len(),
{
    if s.len() > 0 && is_space(s.last()) {
        trim_end(s.drop_last())
    } else {
        s
    }
}

/// `s` without white space at either end.
pub open spec fn trim(s: Seq<u8>) -> Seq<u8> {
    trim_end(trim_start(s))
}

/// An ASCII upper-case letter turned lower-case; other bytes unchanged.
pub open spec fn lower_byte(b: u8) -> u8 {
    if 65 <= b && b <= 90 {
        (b + 32) as u8
    } else {
        b
    }
}

/// `s` in ASCII lower case.
pub open spec fn lower(s: Seq<u8>) -> Seq<u8> {
    s.map_values(|b: u8| lower_byte(b))
}

/// The pieces of `s` between the occurrences of `sep`: one more piece than
/// there are separators.
pub open spec fn split_on(s: Seq<u8>, sep: u8) -> Seq<Seq<u8>>
    decreases s.len(),
{
    if s.len() == 0 {
        seq![Seq::<u8>::empty()]
    } else {
        let prev = split_on(s.drop_last(), sep);
        if s.last() == sep {
            prev.push(Seq::<u8>::empty())
        } else {
            prev.update(prev.len() - 1, prev.last().push(s.last()))
        }
    }
}

/// The key that a line of a list stands for: its domain, trimmed and in lower
/// case, split at the dots, top-level label first. Blank lines and lines that
/// start with `#` stand for none.
pub open spec fn line_key(line: Seq<u8>) -> Option<Path> {
    let t = trim(line);
    if t.len() == 0 || t[0] == 35 {
        None
    } else {
        Some(reversed(split_on(lower(t), 46)))
    }
}

/// The keys after inserting, in order, the key of each of `lines` into `keys`.
pub open spec fn keys_after(keys: Set<Path>, lines: Seq<Seq<u8>>) -> Set<Path>
    decreases lines.len(),
{
    if lines.len() == 0 {
        keys
    } else {
        let before = keys_after(keys, lines.drop_last());
        match line_key(lines.last()) {
            Some(d) => inserted(before, d),
            None => before,
        }
    }
}

/// The keys of a list file's contents: one line after the other, each line
/// ending at a newline byte.
pub open spec fn list_keys(content: Seq<u8>) -> Set<Path> {
    keys_after(Set::empty(), split_on(content, 10))
}

/// `line` stands for a key under which `d` lies.
pub open spec fn key_over(line: Seq<u8>, d: Path) -> bool {
    match line_key(line) {
        Some(e) => is_under(d, e),
        None => false,
    }
}

/// Some line of `lines` stands for a key under which `d` lies.
pub open spec fn listed_over(lines: Seq<Seq<u8>>, d: Path) -> bool {
    exists|i: int| 0 <= i < lines.len() && #[trigger] key_over(lines[i], d)
}

/// A ruleset built from `lines` matches `d` exactly when `d` equals, or lies
/// under, the domain of one of the lines: dropping redundant domains while
/// building loses no match.
pub proof fn lemma_matches_iff_listed(lines: Seq<Seq<u8>>, d: Path)
    ensures
        covers(keys_after(Set::empty(), lines), d) == listed_over(lines, d),
    decreases lines.len(),
{
    if lines.len() > 0 {
        let init = lines.drop_last();
        lemma_matches_iff_listed(init, d);
        let before = keys_after(Set::empty(), init);
        if let Some(e) = line_key(lines.last()) {
            lemma_insert_matches(before, e, d);
        }
        if key_over(lines.last(), d) {
            assert(key_over(lines[lines.len() - 1], d));
        }
        if listed_over(init, d) {
            let i = choose|i: int| 0 <= i < init.len() && #[trigger] key_over(init[i], d);
            assert(lines[i] == init[i]);
        }
        if listed_over(lines, d) && !listed_over(init, d) {
            let i = choose|i: int| 0 <= i < lines.len() && #[trigger] key_over(lines[i], d);
            if i < init.len() {
                assert(init[i] == lines[i]);
            } else {
                assert(key_over(lines.last(), d));
            }
        }
    } else {
        assert(!covers(Set::<Path>::empty(), d));
    }
}

/// A ruleset read from a list matches `d` exactly when `d` equals, or lies
/// under, a domain on one of the list's lines.
pub proof fn lemma_list_matches(content: Seq<u8>, d: Path)
    ensures
        covers(list_keys(content), d) == listed_over(split_on(content, 10), d),
{
    lemma_matches_iff_listed(split_on(content, 10), d);
}

/// Every piece of `split_on(s, sep)` is at most as long as `s`, and there are
/// at most `s.len() + 1` of them.
proof fn lemma_split_bounds(s: Seq<u8>, sep: u8)
    ensures
        split_on(s, sep).len() >= 1,
        split_on(s, sep).len() <= s.len() + 1,
    decreases s.len(),
{
    if s.len() > 0 {
        lemma_split_bounds(s.drop_last(), sep);
    }
}

/// The domain on one line of a list, as labels with the top-level one first;
/// `None` for a blank or comment line.
pub fn line_labels(line: &[u8]) -> (r: Option<Vec<Vec<u8>>>)
    ensures
        match r {
            Some(v) => line_key(line@) == Some(labels_view(v@)),
            None => line_key(line@) is None,
        },
        r matches Some(v) ==> v@.len() <= line@.len() + 1,
{
    let n = line.len();
    let mut a: usize = 0;
    assert(line@.subrange(0, n as int) =~= line@);
    while a < n && (line[a] == 32 || (9 <= line[a] && line[a] <= 13))
        invariant
            a <= n,
            n == line@.len(),
            trim_start(line@) == trim_start(line@.subrange(a as int, n as int)),
        decreases n - a,
    {
        assert(line@.subrange(a as int, n as int).drop_first() =~= line@.subrange(a + 1, n as int));
        a = a + 1;
    }
    let mut b: usize = n;
    while b > a && (line[b - 1] == 32 || (9 <= line[b - 1] && line[b - 1] <= 13))
        invariant
            a <= b <= n,
            n == line@.len(),
            trim_start(line@) == line@.subrange(a as int, n as int),
            trim(line@) == trim_end(line@.subrange(a as int, b as int)),
        decreases b - a,
    {
        assert(line@.subrange(a as int, b as int).drop_last() =~= line@.subrange(a as int, b - 1));
        b = b - 1;
    }
    let t = slice_subrange(line, a, b);
    assert(trim(line@) == t@);
    if a == b || t[0] == 35 {
        return None;
    }
    let mut labels: Vec<Vec<u8>> = Vec::new();
    let mut cur: Vec<u8> = Vec::new();
    let mut k: usize = 0;
    let m = t.len();
    assert(lower(t@.take(0)) =~= Seq::<u8>::empty());
    while k < m
        invariant
            k <= m,
            m == t@.len(),
            split_on(lower(t@.take(k as int)), 46) == labels_view(labels@).push(cur@),
            labels@.len() <= k,
        decreases m - k,
    {
        let c = t[k];
        let lc: u8 = if c >= 65 && c <= 90 { c + 32 } else { c };
        proof {
            let s2 = lower(t@.take(k + 1));
            assert(s2.drop_last() =~= lower(t@.take(k as int)));
            assert(s2.last() == lc);
        }
        if lc == 46 {
            labels.push(cur);
            cur = Vec::new();
            assert(labels_view(labels@).push(cur@) =~= split_on(lower(t@.take(k + 1)), 46));
        } else {
            cur.push(lc);
            assert(labels_view(labels@).push(cur@) =~= split_on(lower(t@.take(k + 1)), 46));
        }
        k = k + 1;
    }
    assert(t@.take(m as int) =~= t@);
    labels.push(cur);
    assert(labels_view(labels@) =~= split_on(lower(t@), 46));
    let out = reverse_labels(labels);
    assert(labels_view(out@).len() == out@.len());
    assert(labels_view(labels@).len() == labels@.len());
    Some(out)
}

/// Every label in ASCII lower case.
pub open spec fn lower_all(ls: Path) -> Path {
    ls.map_values(|l: Seq<u8>| lower(l))
}

/// The labels, each in ASCII lower case.
pub fn lower_labels(labels: &[Vec<u8>]) -> (r: Vec<Vec<u8>>)
    ensures
        labels_view(r@) == lower_all(labels_view(labels@)),
{
    let mut r: Vec<Vec<u8>> = Vec::new();
    let mut i: usize = 0;
    while i < labels.len()
        invariant
            i <= labels@.len(),
            labels_view(r@) =~= lower_all(labels_view(labels@)).take(i as int),
        decreases labels@.len() - i,
    {
        let label = &labels[i];
        let mut low: Vec<u8> = Vec::new();
        let mut j: usize = 0;
        while j < label.len()
            invariant
                j <= label@.len(),
                low@ =~= lower(label@).take(j as int),
            decreases label@.len() - j,
        {
            let c = label[j];
            let lc: u8 = if c >= 65 && c <= 90 { c + 32 } else { c };
            low.push(lc);
            j = j + 1;
        }
        assert(lower(label@).take(j as int) =~= lower(label@));
        let ghost before = r@;
        r.push(low);
        proof {
            assert(labels_view(r@) =~= labels_view(before).push(low@));
            assert(labels_view(labels@)[i as int] == label@);
        }
        i = i + 1;
    }
    assert(lower_all(labels_view(labels@)).take(i as int) =~= lower_all(labels_view(labels@)));
    r
}

/// A suffix-matching ruleset: a domain matches when it equals, or lies under,
/// one of the ruleset's domains. Keys are label sequences, top-level label
/// first.
pub struct DomainTrie(Trie);

impl DomainTrie {
    /// The keys held.
    pub closed spec fn view(&self) -> Set<Path> {
        self.0@
    }

    /// Internal consistency.
    pub closed spec fn wf(&self) -> bool {
        self.0.wf()
    }

    /// The ruleset that `trie` holds.
    pub fn from(trie: Trie) -> (r: DomainTrie)
        requires
            trie.wf(),
        ensures
            r.wf(),
            r@ == trie@,
    {
        DomainTrie(trie)
    }

    /// Builds the ruleset of a list file's contents: one domain per line,
    /// blank lines and `#` comment lines skipped, domains taken in lower case.
    /// A domain under one already listed is not added.
    pub fn from_list(content: &[u8]) -> (r: DomainTrie)
        requires
            content@.len() <= usize::MAX / 4,
        ensures
            r.wf(),
            r@ == list_keys(content@),
    {
        let n = content.len();
        let mut trie = Trie::with_capacity(n / 20);
        let mut start: usize = 0;
        let mut pos: usize = 0;
        assert(content@.take(0) =~= Seq::<u8>::empty());
        while pos < n
            invariant
                start <= pos <= n,
                n == content@.len(),
                n <= usize::MAX / 4,
                trie.wf(),
                trie.node_count() <= 1 + 2 * start,
                split_on(content@.take(pos as int), 10).last() == content@.subrange(start as int, pos as int),
                trie@ == keys_after(Set::empty(), split_on(content@.take(pos as int), 10).drop_last()),
            decreases n - pos,
        {
            let ghost prev = split_on(content@.take(pos as int), 10);
            proof {
                lemma_split_bounds(content@.take(pos as int), 10);
                assert(content@.take(pos + 1).drop_last() =~= content@.take(pos as int));
                assert(content@.take(pos + 1).last() == content@[pos as int]);
            }
            if content[pos] == 10 {
                let line = slice_subrange(content, start, pos);
                Self::add_line(&mut trie, line, Ghost(prev.drop_last()));
                assert(split_on(content@.take(pos + 1), 10).drop_last() =~= prev);
                assert(prev.drop_last().push(prev.last()) =~= prev);
                start = pos + 1;
                assert(content@.subrange(start as int, pos + 1) =~= Seq::<u8>::empty());
            } else {
                assert(split_on(content@.take(pos + 1), 10).drop_last() =~= prev.drop_last());
                assert(content@.subrange(start as int, pos + 1) =~= content@.subrange(start as int, pos as int).push(content@[pos as int]));
            }
            pos = pos + 1;
        }
        let ghost lines = split_on(content@.take(pos as int), 10);
        proof {
            lemma_split_bounds(content@.take(pos as int), 10);
        }
        assert(content@.take(pos as int) =~= content@);
        let line = slice_subrange(content, start, pos);
        Self::add_line(&mut trie, line, Ghost(lines.drop_last()));
        assert(lines.drop_last().push(lines.last()) =~= lines);
        trie.shrink_to_fit();
        DomainTrie(trie)
    }

    /// Inserts the key of one line, after the lines `before`.
    fn add_line(trie: &mut Trie, line: &[u8], Ghost(before): Ghost<Seq<Seq<u8>>>)
        requires
            old(trie).wf(),
            old(trie)@ == keys_after(Set::empty(), before),
            old(trie).node_count() + line@.len() + 1 <= usize::MAX,
        ensures
            final(trie).wf(),
            final(trie)@ == keys_after(Set::empty(), before.push(line@)),
            final(trie).node_count() <= old(trie).node_count() + line@.len() + 1,
    {
        assert(before.push(line@).drop_last() =~= before);
        if let Some(labels) = line_labels(line) {
            trie.insert(labels.as_slice());
        }
    }

    /// The domain `reversed_domain`, top-level label first, equals or lies
    /// under one of the ruleset's domains, letters compared without regard
    /// to ASCII case.
    pub fn domain_prefix_match(&self, reversed_domain: &[Vec<u8>]) -> (r: bool)
        requires
            self.wf(),
        ensures
            r == covers(self@, lower_all(labels_view(reversed_domain@))),
    {
        let lowered = lower_labels(reversed_domain);
        self.0.prefix_match(lowered.as_slice())
    }
}

} // verus!
