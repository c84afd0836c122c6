//! Merging domain lists: dropping the domains that lie under another domain of
//! the list. A domain lies under another when the other's labels end its own
//! labels: `a.x.com` lies under `x.com` and under itself, not under `x.co`.
use crate::payload::{labels_view, reverse_labels, reversed};
use crate::trie::domain_trie::split_on;
use vstd::prelude::*;
use vstd::slice::slice_to_vec;

verus! {

/// The pieces joined, with `sep` between each two.
pub open spec fn join(parts: Seq<Seq<u8>>, sep: u8) -> Seq<u8>
    decreases parts.len(),
{
    if parts.len() == 0 {
        Seq::empty()
    } else if parts.len() == 1 {
        parts[0]
    } else {
        join(parts.drop_last(), sep).push(sep) + parts.last()
    }
}

/// The labels of `d` in reverse order, joined by dots.
pub open spec fn reversed_domain(d: Seq<u8>) -> Seq<u8> {
    join(reversed(split_on(d, 46)), 46)
}

/// `p` is a prefix of `s`.
/// `sub` lies under `domain`: the labels of `domain` are the last labels of
/// `sub`.
pub open spec fn lies_under(sub: Seq<u8>, domain: Seq<u8>) -> bool {
    let s = split_on(sub, 46);
    let t = split_on(domain, 46);
    t.len() <= s.len() && s.skip(s.len() - t.len()) == t
}

/// The pieces of `s` between the occurrences of `sep`.
fn split_bytes(s: &[u8], sep: u8) -> (r: Vec<Vec<u8>>)
    ensures
        labels_view(r@) == split_on(s@, sep),
{
    let mut parts: Vec<Vec<u8>> = Vec::new();
    let mut cur: Vec<u8> = Vec::new();
    let mut k: usize = 0;
    assert(s@.take(0) =~= Seq::<u8>::empty());
    while k < s.len()
        invariant
            k <= s@.len(),
            split_on(s@.take(k as int), sep) == labels_view(parts@).push(cur@),
        decreases s@.len() - k,
    {
        let c = s[k];
        proof {
            assert(s@.take(k + 1).drop_last() =~= s@.take(k as int));
            assert(s@.take(k + 1).last() == c);
        }
        if c == sep {
            parts.push(cur);
            cur = Vec::new();
            assert(labels_view(parts@).push(cur@) =~= split_on(s@.take(k + 1), sep));
        } else {
            cur.push(c);
            assert(labels_view(parts@).push(cur@) =~= split_on(s@.take(k + 1), sep));
        }
        k = k + 1;
    }
    assert(s@.take(k as int) =~= s@);
    parts.push(cur);
    assert(labels_view(parts@) =~= split_on(s@, sep));
    parts
}

/// The pieces joined, with `sep` between each two.
fn join_bytes(parts: &Vec<Vec<u8>>, sep: u8) -> (r: Vec<u8>)
    ensures
        r@ == join(labels_view(parts@), sep),
{
    let ghost ps = labels_view(parts@);
    let mut r: Vec<u8> = Vec::new();
    if parts.len() == 0 {
        return r;
    }
    let mut i: usize = 0;
    let first = &parts[0];
    while i < first.len()
        invariant
            i <= first@.len(),
            r@ == first@.take(i as int),
        decreases first@.len() - i,
    {
        r.push(first[i]);
        i = i + 1;
    }
    assert(first@.take(i as int) =~= first@);
    assert(ps.take(1) =~= seq![ps[0]]);
    let mut n: usize = 1;
    while n < parts.len()
        invariant
            1 <= n <= parts@.len(),
            ps == labels_view(parts@),
            r@ == join(ps.take(n as int), sep),
        decreases parts@.len() - n,
    {
        let ghost base = r@;
        r.push(sep);
        let part = &parts[n];
        let mut j: usize = 0;
        while j < part.len()
            invariant
                j <= part@.len(),
                r@ == base.push(sep) + part@.take(j as int),
            decreases part@.len() - j,
        {
            r.push(part[j]);
            j = j + 1;
            assert(r@ =~= base.push(sep) + part@.take(j as int));
        }
        assert(part@.take(j as int) =~= part@);
        assert(ps.take(n + 1).drop_last() =~= ps.take(n as int));
        n = n + 1;
    }
    assert(ps.take(n as int) =~= ps);
    r
}

/// The labels of `domain` in reverse order, joined by dots.
pub fn reverse_domain(domain: &[u8]) -> (r: Vec<u8>)
    ensures
        r@ == reversed_domain(domain@),
{
    let parts = split_bytes(domain, 46);
    let rev = reverse_labels(parts);
    join_bytes(&rev, 46)
}

/// `sub` lies under `domain`: the labels of `domain` are the last labels of
/// `sub`.
pub fn is_subdomain(sub: &[u8], domain: &[u8]) -> (r: bool)
    ensures
        r == lies_under(sub@, domain@),
{
    let s = split_bytes(sub, 46);
    let t = split_bytes(domain, 46);
    let ghost sv = split_on(sub@, 46);
    let ghost tv = split_on(domain@, 46);
    assert(labels_view(s@).len() == s@.len() && labels_view(t@).len() == t@.len());
    if t.len() > s.len() {
        return false;
    }
    let sl = s.len();
    let off = sl - t.len();
    let mut i: usize = 0;
    while i < t.len()
        invariant
            i <= t@.len(),
            sl == s@.len(),
            off + t@.len() == s@.len(),
            sv == labels_view(s@),
            tv == labels_view(t@),
            sv == split_on(sub@, 46),
            tv == split_on(domain@, 46),
            sv.len() == s@.len(),
            tv.len() == t@.len(),
            sv.skip(off as int).take(i as int) == tv.take(i as int),
        decreases t@.len() - i,
    {
        if !bytes_eq(s[off + i].as_slice(), t[i].as_slice()) {
            assert(sv.skip(off as int)[i as int] != tv[i as int]);
            assert(sv.skip(off as int) != tv);
            return false;
        }
        assert(sv.skip(off as int).take(i + 1) =~= sv.skip(off as int).take(i as int).push(sv[off + i]));
        assert(tv.take(i + 1) =~= tv.take(i as int).push(tv[i as int]));
        i = i + 1;
    }
    assert(sv.skip(off as int).take(i as int) =~= sv.skip(off as int));
    assert(tv.take(i as int) =~= tv);
    true
}

/// A domain with no dot: a single label.
pub open spec fn dotless(d: Seq<u8>) -> bool {
    split_on(d, 46).len() < 2
}

/// `d` lies under one of `saved`.
pub open spec fn under_any(saved: Seq<Seq<u8>>, d: Seq<u8>) -> bool {
    exists|i: int| 0 <= i < saved.len() && #[trigger] lies_under(d, saved[i])
}

/// `saved` without the domains that lie under `d`, in their order.
pub open spec fn drop_under(saved: Seq<Seq<u8>>, d: Seq<u8>) -> Seq<Seq<u8>>
    decreases saved.len(),
{
    if saved.len() == 0 {
        saved
    } else if lies_under(saved.last(), d) {
        drop_under(saved.drop_last(), d)
    } else {
        drop_under(saved.drop_last(), d).push(saved.last())
    }
}

/// The kept domains after `d` is offered: a dotless `d`, or one under a kept
/// domain, changes nothing; otherwise the kept domains under `d` leave and
/// `d` is added last.
pub open spec fn offered(saved: Seq<Seq<u8>>, d: Seq<u8>) -> Seq<Seq<u8>> {
    if dotless(d) || under_any(saved, d) {
        saved
    } else {
        drop_under(saved, d).push(d)
    }
}

/// The domains kept after each of `ds` is offered in turn.
pub open spec fn filtered(ds: Seq<Seq<u8>>) -> Seq<Seq<u8>>
    decreases ds.len(),
{
    if ds.len() == 0 {
        Seq::empty()
    } else {
        offered(filtered(ds.drop_last()), ds.last())
    }
}

/// `a` comes before `b`, or equals it, in byte-wise lexicographic order.
pub open spec fn lex_le(a: Seq<u8>, b: Seq<u8>) -> bool
    decreases a.len(),
{
    if a.len() == 0 {
        true
    } else if b.len() == 0 {
        false
    } else if a[0] != b[0] {
        a[0] < b[0]
    } else {
        lex_le(a.drop_first(), b.drop_first())
    }
}

/// The domains are in ascending lexicographic order.
pub open spec fn sorted(s: Seq<Seq<u8>>) -> bool {
    forall|i: int, j: int| 0 <= i < j < s.len() ==> lex_le(#[trigger] s[i], #[trigger] s[j])
}

/// Every domain lies under itself.
pub proof fn lemma_lies_under_self(d: Seq<u8>)
    ensures
        lies_under(d, d),
{
    let s = split_on(d, 46);
    assert(s.skip(0) =~= s);
}

/// A domain under a domain under `c` lies under `c`.
pub proof fn lemma_lies_under_trans(a: Seq<u8>, b: Seq<u8>, c: Seq<u8>)
    requires
        lies_under(a, b),
        lies_under(b, c),
    ensures
        lies_under(a, c),
{
    let sa = split_on(a, 46);
    let sb = split_on(b, 46);
    let sc = split_on(c, 46);
    assert(sa.skip(sa.len() - sb.len()).skip(sb.len() - sc.len()) =~= sa.skip(sa.len() - sc.len()));
}

proof fn lemma_drop_under(s: Seq<Seq<u8>>, d: Seq<u8>)
    ensures
        forall|x: Seq<u8>| #[trigger] drop_under(s, d).contains(x) <==> s.contains(x) && !lies_under(x, d),
        s.no_duplicates() ==> drop_under(s, d).no_duplicates(),
        sorted(s) ==> sorted(drop_under(s, d)),
    decreases s.len(),
{
    if s.len() > 0 {
        let init = s.drop_last();
        lemma_drop_under(init, d);
        let r0 = drop_under(init, d);
        assert forall|x: Seq<u8>| #[trigger] s.contains(x) <==> init.contains(x) || x == s.last() by {
            if s.contains(x) {
                let i = choose|i: int| 0 <= i < s.len() && s[i] == x;
                if i < init.len() {
                    assert(init[i] == x);
                }
            }
            if init.contains(x) {
                let i = choose|i: int| 0 <= i < init.len() && init[i] == x;
                assert(s[i] == x);
            }
            assert(s[s.len() - 1] == s.last());
        }
        if !lies_under(s.last(), d) {
            let r = r0.push(s.last());
            assert forall|x: Seq<u8>| #[trigger] r.contains(x) <==> r0.contains(x) || x == s.last() by {
                if r.contains(x) {
                    let i = choose|i: int| 0 <= i < r.len() && r[i] == x;
                    if i < r0.len() {
                        assert(r0[i] == x);
                    }
                }
                if r0.contains(x) {
                    let i = choose|i: int| 0 <= i < r0.len() && r0[i] == x;
                    assert(r[i] == x);
                }
                assert(r[r.len() - 1] == s.last());
            }
            if s.no_duplicates() {
                assert(init.no_duplicates());
                if r0.contains(s.last()) {
                    let i = choose|i: int| 0 <= i < init.len() && init[i] == s.last();
                    assert(s[i] == s[s.len() - 1]);
                }
                assert forall|i: int, j: int| 0 <= i < j < r.len() implies r[i] != r[j] by {
                    if j == r.len() - 1 {
                        assert(r0.contains(r[i]));
                    } else {
                        assert(r[i] == r0[i] && r[j] == r0[j]);
                    }
                }
            }
            if sorted(s) {
                assert(sorted(init)) by {
                    assert forall|i: int, j: int| 0 <= i < j < init.len() implies lex_le(#[trigger] init[i], #[trigger] init[j]) by {
                        assert(init[i] == s[i] && init[j] == s[j]);
                    }
                }
                assert forall|i: int, j: int| 0 <= i < j < r.len() implies lex_le(#[trigger] r[i], #[trigger] r[j]) by {
                    if j == r.len() - 1 {
                        assert(r0.contains(r0[i]));
                        let k = choose|k: int| 0 <= k < init.len() && init[k] == r0[i];
                        assert(s[k] == init[k]);
                        assert(lex_le(s[k], s[s.len() - 1]));
                    } else {
                        assert(r[i] == r0[i] && r[j] == r0[j]);
                    }
                }
            }
        } else {
            if sorted(s) {
                assert(sorted(init)) by {
                    assert forall|i: int, j: int| 0 <= i < j < init.len() implies lex_le(#[trigger] init[i], #[trigger] init[j]) by {
                        assert(init[i] == s[i] && init[j] == s[j]);
                    }
                }
            }
            if s.no_duplicates() {
                assert(init.no_duplicates());
            }
        }
    }
}

/// What filtering keeps: domains of the list, each once, none under another
/// kept domain; every domain of the list with a dot lies under a kept one;
/// and a sorted list gives a sorted result.
pub proof fn lemma_filter_result(ds: Seq<Seq<u8>>)
    ensures
        forall|x: Seq<u8>| #[trigger] filtered(ds).contains(x) ==> ds.contains(x),
        filtered(ds).no_duplicates(),
        forall|a: Seq<u8>, b: Seq<u8>|
            #[trigger] filtered(ds).contains(a) && #[trigger] filtered(ds).contains(b) && a != b
                ==> !lies_under(a, b),
        forall|k: int| 0 <= k < ds.len() && !dotless(ds[k]) ==> under_any(filtered(ds), #[trigger] ds[k]),
        sorted(ds) ==> sorted(filtered(ds)),
    decreases ds.len(),
{
    if ds.len() > 0 {
        let init = ds.drop_last();
        let d = ds.last();
        lemma_filter_result(init);
        let f0 = filtered(init);
        let f = filtered(ds);
        assert forall|x: Seq<u8>| #[trigger] init.contains(x) implies ds.contains(x) by {
            let i = choose|i: int| 0 <= i < init.len() && init[i] == x;
            assert(ds[i] == x);
        }
        assert(ds[ds.len() - 1] == d);
        if sorted(ds) {
            assert forall|i: int, j: int| 0 <= i < j < init.len() implies lex_le(#[trigger] init[i], #[trigger] init[j]) by {
                assert(init[i] == ds[i] && init[j] == ds[j]);
            }
        }
        if !(dotless(d) || under_any(f0, d)) {
            lemma_drop_under(f0, d);
            let r0 = drop_under(f0, d);
            lemma_lies_under_self(d);
            assert(!r0.contains(d)) by {
                if r0.contains(d) {
                    let i = choose|i: int| 0 <= i < f0.len() && f0[i] == d;
                    assert(lies_under(d, f0[i]));
                }
            }
            assert forall|x: Seq<u8>| #[trigger] f.contains(x) <==> r0.contains(x) || x == d by {
                if f.contains(x) {
                    let i = choose|i: int| 0 <= i < f.len() && f[i] == x;
                    if i < r0.len() {
                        assert(r0[i] == x);
                    }
                }
                if r0.contains(x) {
                    let i = choose|i: int| 0 <= i < r0.len() && r0[i] == x;
                    assert(f[i] == x);
                }
                assert(f[f.len() - 1] == d);
            }
            assert forall|i: int, j: int| 0 <= i < j < f.len() implies f[i] != f[j] by {
                if j == f.len() - 1 {
                    assert(r0.contains(f[i]));
                } else {
                    assert(f[i] == r0[i] && f[j] == r0[j]);
                }
            }
            assert forall|a: Seq<u8>, b: Seq<u8>|
                #[trigger] f.contains(a) && #[trigger] f.contains(b) && a != b implies !lies_under(a, b) by {
                if a == d && r0.contains(b) {
                    let i = choose|i: int| 0 <= i < f0.len() && f0[i] == b;
                    assert(!lies_under(d, f0[i]));
                }
            }
            assert forall|k: int| 0 <= k < ds.len() && !dotless(ds[k]) implies under_any(f, #[trigger] ds[k]) by {
                if k == ds.len() - 1 {
                    assert(lies_under(ds[k], f[f.len() - 1]));
                } else {
                    assert(init[k] == ds[k]);
                    assert(under_any(f0, init[k]));
                    let i = choose|i: int| 0 <= i < f0.len() && #[trigger] lies_under(init[k], f0[i]);
                    let r = f0[i];
                    assert(f0.contains(r));
                    if lies_under(r, d) {
                        lemma_lies_under_trans(ds[k], r, d);
                        assert(lies_under(ds[k], f[f.len() - 1]));
                    } else {
                        assert(r0.contains(r));
                        assert(f.contains(r));
                        let j = choose|j: int| 0 <= j < f.len() && f[j] == r;
                        assert(lies_under(ds[k], f[j]));
                    }
                }
            }
            if sorted(ds) {
                assert forall|i: int, j: int| 0 <= i < j < f.len() implies lex_le(#[trigger] f[i], #[trigger] f[j]) by {
                    if j == f.len() - 1 {
                        assert(r0.contains(r0[i]));
                        assert(f0.contains(r0[i]));
                        let k = choose|k: int| 0 <= k < init.len() && init[k] == r0[i];
                        assert(ds[k] == init[k]);
                        assert(lex_le(ds[k], ds[ds.len() - 1]));
                    } else {
                        assert(f[i] == r0[i] && f[j] == r0[j]);
                    }
                }
            }
        } else {
            assert forall|k: int| 0 <= k < ds.len() && !dotless(ds[k]) implies under_any(f, #[trigger] ds[k]) by {
                if k < ds.len() - 1 {
                    assert(init[k] == ds[k]);
                }
            }
        }
    }
}

/// The two byte strings are equal.
fn bytes_eq(a: &[u8], b: &[u8]) -> (r: bool)
    ensures
        r == (a@ == b@),
{
    if a.len() != b.len() {
        return false;
    }
    let mut i: usize = 0;
    while i < a.len()
        invariant
            i <= a@.len() == b@.len(),
            a@.take(i as int) == b@.take(i as int),
        decreases a@.len() - i,
    {
        if a[i] != b[i] {
            return false;
        }
        assert(a@.take(i + 1) =~= a@.take(i as int).push(a@[i as int]));
        assert(b@.take(i + 1) =~= b@.take(i as int).push(b@[i as int]));
        i = i + 1;
    }
    assert(a@.take(i as int) =~= a@);
    assert(b@.take(i as int) =~= b@);
    true
}

/// Keeps the domains that lie under no other domain of the list, in the
/// order of the list; a domain without a dot is dropped, and of equal
/// domains the first stays.
pub fn filter_domains(domains: Vec<Vec<u8>>) -> (r: Vec<Vec<u8>>)
    ensures
        labels_view(r@) == filtered(labels_view(domains@)),
        sorted(labels_view(domains@)) ==> sorted(labels_view(r@)),
{
    let ghost ds = labels_view(domains@);
    let mut kept: Vec<Vec<u8>> = Vec::new();
    let mut i: usize = 0;
    assert(ds.take(0) =~= Seq::<Seq<u8>>::empty());
    while i < domains.len()
        invariant
            i <= domains@.len(),
            ds == labels_view(domains@),
            labels_view(kept@) == filtered(ds.take(i as int)),
        decreases domains@.len() - i,
    {
        let ghost kv = labels_view(kept@);
        proof {
            assert(ds.take(i + 1).drop_last() =~= ds.take(i as int));
            assert(ds.take(i + 1).last() == ds[i as int]);
        }
        let d = domains[i].as_slice();
        let parts = split_bytes(d, 46);
        assert(labels_view(parts@).len() == parts@.len());
        if parts.len() >= 2 {
            let mut covered = false;
            let mut j: usize = 0;
            while j < kept.len()
                invariant_except_break
                    !covered,
                invariant
                    j <= kept@.len(),
                    kv == labels_view(kept@),
                    forall|q: int| 0 <= q < j ==> !lies_under(d@, #[trigger] kv[q]),
                ensures
                    covered == under_any(kv, d@),
                decreases kept@.len() - j,
            {
                if is_subdomain(d, kept[j].as_slice()) {
                    assert(lies_under(d@, kv[j as int]));
                    covered = true;
                    break;
                }
                j = j + 1;
            }
            if !covered {
                let mut next: Vec<Vec<u8>> = Vec::new();
                let mut k: usize = 0;
                assert(kv.take(0) =~= Seq::<Seq<u8>>::empty());
                while k < kept.len()
                    invariant
                        k <= kept@.len(),
                        kv == labels_view(kept@),
                        labels_view(next@) == drop_under(kv.take(k as int), d@),
                    decreases kept@.len() - k,
                {
                    assert(kv.take(k + 1).drop_last() =~= kv.take(k as int));
                    let ghost before = next@;
                    if !is_subdomain(kept[k].as_slice(), d) {
                        let copy = slice_to_vec(kept[k].as_slice());
                        next.push(copy);
                        assert(labels_view(next@) =~= labels_view(before).push(copy@));
                    }
                    k = k + 1;
                }
                assert(kv.take(k as int) =~= kv);
                let ghost before = next@;
                let copy = slice_to_vec(d);
                next.push(copy);
                assert(labels_view(next@) =~= labels_view(before).push(copy@));
                kept = next;
            }
        }
        i = i + 1;
    }
    assert(ds.take(i as int) =~= ds);
    proof {
        lemma_filter_result(ds);
    }
    kept
}

} // verus!
