//! A trie over byte-string labels, matched from the first label on: a key is
//! matched when one of its non-empty prefixes was inserted.
use super::edge_map::{edge_get, edge_insert, edges_of, edges_shrink, new_edges, EdgeMap};
use crate::payload::labels_view;
use vstd::prelude::*;

verus! {

/// A key: a sequence of labels.
pub type Path = Seq<Seq<u8>>;

/// The node reached from `n` by following the labels of `p`, if every edge
/// on the way exists.
pub open spec fn reach(e: Map<(usize, Seq<u8>), usize>, n: usize, p: Path) -> Option<usize>
    decreases p.len(),
{
    if p.len() == 0 {
        Some(n)
    } else if e.contains_key((n, p[0])) {
        reach(e, e[(n, p[0])], p.drop_first())
    } else {
        None
    }
}

/// Some non-empty prefix of `d` (`d` itself included) belongs to `keys`.
pub open spec fn covers(keys: Set<Path>, d: Path) -> bool {
    exists|k: int| 1 <= k <= d.len() && #[trigger] keys.contains(d.take(k))
}

/// The keys after inserting `d`: unchanged where a non-empty prefix of `d` is
/// already a key, else with `d` added.
pub open spec fn inserted(keys: Set<Path>, d: Path) -> Set<Path> {
    if covers(keys, d) {
        keys
    } else {
        keys.insert(d)
    }
}

/// `d` equals `e`, or lies under it: `e` is a non-empty prefix of `d`.
pub open spec fn is_under(d: Path, e: Path) -> bool {
    1 <= e.len() <= d.len() && d.take(e.len() as int) == e
}

/// After inserting `e`, a key matches exactly when it matched before or lies
/// under `e`, whether or not `e` was redundant.
pub proof fn lemma_insert_matches(keys: Set<Path>, e: Path, d: Path)
    ensures
        covers(inserted(keys, e), d) == (covers(keys, d) || is_under(d, e)),
{
    if covers(keys, e) {
        if is_under(d, e) {
            let k = choose|k: int| 1 <= k <= e.len() && #[trigger] keys.contains(e.take(k));
            assert(d.take(k) =~= e.take(k));
        }
    } else {
        let ks = keys.insert(e);
        if is_under(d, e) {
            assert(ks.contains(d.take(e.len() as int)));
        }
        if covers(ks, d) && !covers(keys, d) {
            let k = choose|k: int| 1 <= k <= d.len() && #[trigger] ks.contains(d.take(k));
            assert(d.take(k) == e);
        }
        if covers(keys, d) {
            let k = choose|k: int| 1 <= k <= d.len() && #[trigger] keys.contains(d.take(k));
            assert(ks.contains(d.take(k)));
        }
    }
}

/// Inserting a key that lies under a key already held changes nothing.
pub proof fn lemma_insert_under_key_is_noop(keys: Set<Path>, e: Path)
    requires
        covers(keys, e),
    ensures
        inserted(keys, e) == keys,
{
}

/// Following `p + q` is following `p`, then `q`.
proof fn lemma_reach_append(e: Map<(usize, Seq<u8>), usize>, n: usize, p: Path, q: Path)
    ensures
        reach(e, n, p + q) == match reach(e, n, p) {
            Some(m) => reach(e, m, q),
            None => None,
        },
    decreases p.len(),
{
    if p.len() > 0 {
        assert((p + q).drop_first() =~= p.drop_first() + q);
        assert((p + q)[0] == p[0]);
        if e.contains_key((n, p[0])) {
            lemma_reach_append(e, e[(n, p[0])], p.drop_first(), q);
        }
    } else {
        assert(p + q =~= q);
    }
}

/// Following one more label from the end of `p`.
proof fn lemma_reach_push(e: Map<(usize, Seq<u8>), usize>, n: usize, p: Path, l: Seq<u8>)
    ensures
        reach(e, n, p.push(l)) == match reach(e, n, p) {
            Some(m) => if e.contains_key((m, l)) {
                Some(e[(m, l)])
            } else {
                None
            },
            None => None,
        },
{
    assert(p.push(l) =~= p + seq![l]);
    lemma_reach_append(e, n, p, seq![l]);
    let one = seq![l];
    assert(one.drop_first() =~= Seq::<Seq<u8>>::empty());
    assert(one[0] == l);
    if let Some(m) = reach(e, n, p) {
        if e.contains_key((m, l)) {
            assert(reach(e, e[(m, l)], one.drop_first()) == Some(e[(m, l)]));
        }
    }
}

/// `p` is a prefix of `d` shorter than `d`.
pub open spec fn is_proper_prefix(p: Path, d: Path) -> bool {
    p.len() < d.len() && d.take(p.len() as int) == p
}

/// The keys after `d` is inserted in place of every key that is a proper
/// prefix of it.
pub open spec fn replaced(keys: Set<Path>, d: Path) -> Set<Path> {
    keys.filter(|p: Path| !is_proper_prefix(p, d)).insert(d)
}

/// The prefixes of `d`, from the empty one to `d` itself.
pub open spec fn prefixes(d: Path) -> Set<Path> {
    prefixes_upto(d, d.len() as int)
}

/// The prefixes of `d` of length at most `i`.
pub open spec fn prefixes_upto(d: Path, i: int) -> Set<Path> {
    Set::new(|p: Path| p.len() <= i && d.take(p.len() as int) == p)
}

/// `keys` without the prefixes of `d` shorter than `i`.
pub open spec fn without_prefixes(keys: Set<Path>, d: Path, i: int) -> Set<Path> {
    keys.filter(|p: Path| !(p.len() < i && d.take(p.len() as int) == p))
}

/// The outcome of walking `d` from the root and stopping at the first label
/// with no edge: `true` if the walk uses up `d`, else whether the node where
/// it stopped ends a key.
pub open spec fn open_walk(keys: Set<Path>, nodes: Set<Path>, d: Path) -> bool {
    ||| forall|k: int| 0 <= k <= d.len() ==> #[trigger] nodes.contains(d.take(k))
    ||| exists|i: int|
        0 <= i < d.len() && nodes.contains(d.take(i)) && !nodes.contains(d.take(i + 1))
            && #[trigger] keys.contains(d.take(i))
}

/// A trie. Node 0 is the root; each node but the root is the target of exactly
/// one edge, and `paths` gives the labels from the root to each node.
pub struct Trie {
    edges: EdgeMap,
    ends: Vec<bool>,
    paths: Ghost<Seq<Path>>,
}

impl Trie {
    /// The edges, as a map.
    pub closed spec fn edge_map(&self) -> Map<(usize, Seq<u8>), usize> {
        edges_of(self.edges)
    }

    /// `p` leads from the root to a node that ends a key.
    pub closed spec fn is_key(&self, p: Path) -> bool {
        match reach(self.edge_map(), 0, p) {
            Some(x) => x < self.ends@.len() && self.ends@[x as int],
            None => false,
        }
    }

    /// The number of nodes, root included.
    pub closed spec fn node_count(&self) -> nat {
        self.ends@.len()
    }

    /// The label sequences that lead from the root to a node.
    pub closed spec fn nodes(&self) -> Set<Path> {
        Set::new(|p: Path| reach(self.edge_map(), 0, p) is Some)
    }

    /// The keys held: the label sequences that lead to a terminal node.
    pub closed spec fn view(&self) -> Set<Path> {
        Set::new(|p: Path| self.is_key(p))
    }

    /// Internal consistency of the node arena.
    pub closed spec fn wf(&self) -> bool {
        let e = self.edge_map();
        let n = self.ends@.len();
        &&& n >= 1
        &&& self.paths@.len() == n
        &&& self.paths@[0] == Seq::<Seq<u8>>::empty()
        &&& forall|k: (usize, Seq<u8>)| #[trigger]
            e.contains_key(k) ==> k.0 < n && e[k] < n && e[k] > 0
                && self.paths@[e[k] as int] == self.paths@[k.0 as int].push(k.1)
    }

    proof fn lemma_reach_path(&self, n: usize, p: Path)
        requires
            self.wf(),
            n < self.ends@.len(),
        ensures
            reach(self.edge_map(), n, p) matches Some(x) ==> x < self.ends@.len()
                && self.paths@[x as int] == self.paths@[n as int] + p,
        decreases p.len(),
    {
        let e = self.edge_map();
        if p.len() == 0 {
            assert(self.paths@[n as int] + p =~= self.paths@[n as int]);
        } else if e.contains_key((n, p[0])) {
            let c = e[(n, p[0])];
            self.lemma_reach_path(c, p.drop_first());
            assert(self.paths@[n as int].push(p[0]) + p.drop_first() =~= self.paths@[n as int] + p);
        }
    }

    /// An empty trie whose root's edge table has room for `capacity` entries.
    pub fn with_capacity(capacity: usize) -> (r: Trie)
        ensures
            r.wf(),
            r@ == Set::<Path>::empty(),
            r.nodes() == Set::<Path>::empty().insert(Seq::empty()),
            r.node_count() == 1,
    {
        let ghost root: Path = Seq::empty();
        let ghost ps: Seq<Path> = seq![root];
        let r = Trie { edges: new_edges(capacity), ends: vec![false], paths: Ghost(ps) };
        assert(r.nodes() =~= Set::<Path>::empty().insert(Seq::empty())) by {
            assert forall|p: Path| #[trigger] r.nodes().contains(p) <==> p == Seq::<Seq<u8>>::empty() by {
                if p.len() > 0 {
                    assert(!r.edge_map().contains_key((0usize, p[0])));
                    assert(p != Seq::<Seq<u8>>::empty());
                } else {
                    assert(p =~= Seq::<Seq<u8>>::empty());
                }
            }
        }
        assert(r@ =~= Set::<Path>::empty()) by {
            assert forall|p: Path| !r.is_key(p) by {
                if p.len() > 0 {
                    assert(!r.edge_map().contains_key((0usize, p[0])));
                }
            }
        }
        r
    }

    /// Inserts the key `values`, unless one of its non-empty prefixes is
    /// already a key: a more specific key is redundant.
    pub fn insert(&mut self, values: &[Vec<u8>])
        requires
            old(self).wf(),
            old(self).node_count() + values@.len() <= usize::MAX,
        ensures
            final(self).wf(),
            final(self).node_count() <= old(self).node_count() + values@.len(),
            final(self)@ == inserted(old(self)@, labels_view(values@)),
            covers(old(self)@, labels_view(values@)) ==> final(self).nodes() == old(self).nodes()
                && final(self).node_count() == old(self).node_count(),
            values@.len() >= 1 ==> covers(final(self)@, labels_view(values@)),
    {
        let ghost d = labels_view(values@);
        let ghost keys = self@;
        let mut current: usize = 0;
        let mut i: usize = 0;
        assert(d.take(0) =~= Seq::<Seq<u8>>::empty());
        while i < values.len()
            invariant
                self.wf(),
                self@ == keys,
                keys == old(self)@,
                d == labels_view(values@),
                0 <= i <= values@.len(),
                current < self.ends@.len(),
                self.ends@.len() <= old(self).ends@.len() + i,
                old(self).ends@.len() + values@.len() <= usize::MAX,
                reach(self.edge_map(), 0, d.take(i as int)) == Some(current),
                forall|k: int| 1 <= k <= i ==> !(#[trigger] keys.contains(d.take(k))),
                covers(keys, d) ==> self.nodes() == old(self).nodes() && self.ends@.len() == old(self).ends@.len(),
            decreases values@.len() - i,
        {
            let label = values[i].as_slice();
            proof {
                assert(d.take(i + 1) =~= d.take(i as int).push(d[i as int]));
                lemma_reach_push(self.edge_map(), 0, d.take(i as int), d[i as int]);
            }
            match edge_get(&self.edges, current, label) {
                Some(c) => {
                    current = c;
                },
                None => {
                    proof {
                        if covers(keys, d) {
                            let k = choose|k: int| 1 <= k <= d.len() && #[trigger] keys.contains(d.take(k));
                            let a = d.take(i + 1);
                            assert(d.take(k) =~= a + d.take(k).skip(i + 1));
                            lemma_reach_append(self.edge_map(), 0, a, d.take(k).skip(i + 1));
                        }
                    }
                    let ghost before = *self;
                    let n = self.ends.len();
                    self.ends.push(false);
                    edge_insert(&mut self.edges, current, label, n);
                    self.paths = Ghost(self.paths@.push(self.paths@[current as int].push(label@)));
                    proof {
                        self.lemma_grow_keeps_keys(before, current, label@, n);
                        assert(self@ =~= keys);
                        lemma_reach_grow(before.edge_map(), current, label@, n, 0, d.take(i as int));
                        lemma_reach_push(self.edge_map(), 0, d.take(i as int), d[i as int]);
                    }
                    current = n;
                },
            }
            proof {
                self.lemma_reach_path(0, d.take(i + 1));
            }
            if self.ends[current] {
                assert(keys.contains(d.take(i + 1)));
                return;
            }
            i = i + 1;
        }
        assert(d.take(i as int) =~= d);
        assert(!covers(keys, d));
        let ghost before = *self;
        self.ends.set(current, true);
        proof {
            before.lemma_reach_path(0, d);
            assert(self.paths@[0] + d =~= d);
            assert forall|p: Path| self.is_key(p) <==> keys.insert(d).contains(p) by {
                before.lemma_reach_path(0, p);
                assert(self.paths@[0] + p =~= p);
                assert(keys.contains(p) == before.is_key(p));
            }
            assert(self@ =~= keys.insert(d));
            if d.len() >= 1 {
                assert(self@.contains(d.take(d.len() as int)));
            }
        }
    }

    /// Adding an edge from `m` to a new, non-terminal node `n` keeps the keys.
    proof fn lemma_grow_keeps_keys(&self, before: Trie, m: usize, l: Seq<u8>, n: usize)
        requires
            before.wf(),
            m < before.ends@.len(),
            n == before.ends@.len(),
            !before.edge_map().contains_key((m, l)),
            self.edge_map() == before.edge_map().insert((m, l), n),
            self.ends@ == before.ends@.push(false),
            self.paths@ == before.paths@.push(before.paths@[m as int].push(l)),
        ensures
            self.wf(),
            self@ == before@,
    {
        let e = self.edge_map();
        assert forall|k: (usize, Seq<u8>)| #[trigger] e.contains_key(k) implies k.0 < self.ends@.len()
            && e[k] < self.ends@.len() && e[k] > 0 && self.paths@[e[k] as int] == self.paths@[k.0 as int].push(k.1) by {
            if k != (m, l) {
                assert(before.edge_map().contains_key(k));
            }
        }
        assert forall|p: Path| self.is_key(p) == before.is_key(p) by {
            lemma_reach_grow(before.edge_map(), m, l, n, 0, p);
        }
        assert(self@ =~= before@);
    }

    /// Marks or unmarks as terminal the node `x` that `q` leads to.
    proof fn lemma_set_end(&self, before: Trie, x: usize, b: bool, q: Path)
        requires
            before.wf(),
            x < before.ends@.len(),
            reach(before.edge_map(), 0, q) == Some(x),
            self.edges == before.edges,
            self.paths == before.paths,
            self.ends@ == before.ends@.update(x as int, b),
        ensures
            self.wf(),
            self@ == (if b { before@.insert(q) } else { before@.remove(q) }),
            self.nodes() == before.nodes(),
    {
        before.lemma_reach_path(0, q);
        assert(before.paths@[0] + q =~= q);
        assert forall|p: Path| #[trigger] self.is_key(p) == (if b { before@.insert(q) } else { before@.remove(q) }).contains(p) by {
            before.lemma_reach_path(0, p);
            assert(before.paths@[0] + p =~= p);
        }
        assert(self@ =~= (if b { before@.insert(q) } else { before@.remove(q) }));
        assert(self.nodes() =~= before.nodes());
    }

    /// Inserts the key `values` and removes every key that is a proper prefix
    /// of it.
    pub fn insert_replacing(&mut self, values: &[Vec<u8>])
        requires
            old(self).wf(),
            old(self).node_count() + values@.len() <= usize::MAX,
        ensures
            final(self).wf(),
            final(self).node_count() <= old(self).node_count() + values@.len(),
            final(self)@ == replaced(old(self)@, labels_view(values@)),
            final(self).nodes() == old(self).nodes().union(prefixes(labels_view(values@))),
    {
        let ghost d = labels_view(values@);
        let mut current: usize = 0;
        let mut i: usize = 0;
        assert(d.take(0) =~= Seq::<Seq<u8>>::empty());
        assert(self@ =~= without_prefixes(old(self)@, d, 0));
        assert(self.nodes() =~= old(self).nodes().union(prefixes_upto(d, 0))) by {
            assert forall|p: Path| #[trigger] prefixes_upto(d, 0).contains(p) implies self.nodes().contains(p) by {
                assert(p =~= d.take(0));
            }
        }
        while i < values.len()
            invariant
                self.wf(),
                d == labels_view(values@),
                0 <= i <= values@.len(),
                current < self.ends@.len(),
                self.ends@.len() <= old(self).ends@.len() + i,
                old(self).node_count() + values@.len() <= usize::MAX,
                reach(self.edge_map(), 0, d.take(i as int)) == Some(current),
                self@ == without_prefixes(old(self)@, d, i as int),
                self.nodes() == old(self).nodes().union(prefixes_upto(d, i as int)),
            decreases values@.len() - i,
        {
            let ghost b0 = *self;
            self.ends.set(current, false);
            proof {
                self.lemma_set_end(b0, current, false, d.take(i as int));
                assert(without_prefixes(old(self)@, d, i as int).remove(d.take(i as int))
                    =~= without_prefixes(old(self)@, d, i + 1)) by {
                    assert forall|p: Path| p.len() == i && d.take(p.len() as int) == p implies p == d.take(i as int) by {}
                }
                assert(d.take(i + 1) =~= d.take(i as int).push(d[i as int]));
                lemma_reach_push(self.edge_map(), 0, d.take(i as int), d[i as int]);
                assert(prefixes_upto(d, i + 1) =~= prefixes_upto(d, i as int).insert(d.take(i + 1))) by {
                    assert forall|p: Path| p.len() == i + 1 && d.take(p.len() as int) == p implies p == d.take(i + 1) by {}
                    assert(d.take(i + 1).len() == i + 1);
                    assert(d.take(i + 1).take(i + 1) =~= d.take(i + 1));
                }
            }
            let label = values[i].as_slice();
            match edge_get(&self.edges, current, label) {
                Some(c) => {
                    current = c;
                    assert(self.nodes().contains(d.take(i + 1)));
                    assert(self.nodes() =~= old(self).nodes().union(prefixes_upto(d, i + 1)));
                },
                None => {
                    let ghost before = *self;
                    let n = self.ends.len();
                    self.ends.push(false);
                    edge_insert(&mut self.edges, current, label, n);
                    self.paths = Ghost(self.paths@.push(self.paths@[current as int].push(label@)));
                    proof {
                        self.lemma_grow_keeps_keys(before, current, label@, n);
                        assert(self@ =~= before@);
                        lemma_reach_grow(before.edge_map(), current, label@, n, 0, d.take(i as int));
                        lemma_reach_push(self.edge_map(), 0, d.take(i as int), d[i as int]);
                        before.lemma_reach_path(0, d.take(i as int));
                        assert(before.paths@[0] + d.take(i as int) =~= d.take(i as int));
                        assert forall|p: Path| #[trigger] self.nodes().contains(p) implies before.nodes().contains(p)
                            || p == d.take(i + 1) by {
                            lemma_reach_grow(before.edge_map(), current, label@, n, 0, p);
                            if !before.nodes().contains(p) {
                                self.lemma_reach_path(0, p);
                                assert(self.paths@[0] + p =~= p);
                            }
                        }
                        assert forall|p: Path| #[trigger] before.nodes().contains(p) implies self.nodes().contains(p) by {
                            lemma_reach_grow(before.edge_map(), current, label@, n, 0, p);
                        }
                        assert(self.nodes() =~= before.nodes().insert(d.take(i + 1)));
                        assert(self.nodes() =~= old(self).nodes().union(prefixes_upto(d, i + 1)));
                    }
                    current = n;
                },
            }
            i = i + 1;
        }
        assert(d.take(i as int) =~= d);
        let ghost b1 = *self;
        self.ends.set(current, true);
        proof {
            self.lemma_set_end(b1, current, true, d);
            assert(without_prefixes(old(self)@, d, d.len() as int).insert(d) =~= replaced(old(self)@, d));
        }
    }

    /// `values` is a key.
    pub fn contains_key(&self, values: &[Vec<u8>]) -> (r: bool)
        requires
            self.wf(),
        ensures
            r == self@.contains(labels_view(values@)),
    {
        let ghost d = labels_view(values@);
        let mut current: usize = 0;
        let mut i: usize = 0;
        assert(d.take(0) =~= Seq::<Seq<u8>>::empty());
        while i < values.len()
            invariant
                self.wf(),
                d == labels_view(values@),
                0 <= i <= values@.len(),
                current < self.ends@.len(),
                reach(self.edge_map(), 0, d.take(i as int)) == Some(current),
            decreases values@.len() - i,
        {
            proof {
                assert(d.take(i + 1) =~= d.take(i as int).push(d[i as int]));
                lemma_reach_push(self.edge_map(), 0, d.take(i as int), d[i as int]);
            }
            match edge_get(&self.edges, current, values[i].as_slice()) {
                Some(c) => {
                    current = c;
                    proof {
                        self.lemma_reach_path(0, d.take(i + 1));
                    }
                },
                None => {
                    proof {
                        let a = d.take(i + 1);
                        assert(d =~= a + d.skip(i + 1));
                        lemma_reach_append(self.edge_map(), 0, a, d.skip(i + 1));
                    }
                    return false;
                },
            }
            i = i + 1;
        }
        assert(d.take(i as int) =~= d);
        self.ends[current]
    }

    /// Walks `values` from the root and stops at the first label with no
    /// edge: `true` if the walk uses up `values`, else whether the node where
    /// it stopped ends a key.
    pub fn walk_open(&self, values: &[Vec<u8>]) -> (r: bool)
        requires
            self.wf(),
        ensures
            r == open_walk(self@, self.nodes(), labels_view(values@)),
    {
        let ghost d = labels_view(values@);
        let mut current: usize = 0;
        let mut i: usize = 0;
        assert(d.take(0) =~= Seq::<Seq<u8>>::empty());
        while i < values.len()
            invariant
                self.wf(),
                d == labels_view(values@),
                0 <= i <= values@.len(),
                current < self.ends@.len(),
                reach(self.edge_map(), 0, d.take(i as int)) == Some(current),
                forall|k: int| 0 <= k <= i ==> #[trigger] self.nodes().contains(d.take(k)),
            decreases values@.len() - i,
        {
            proof {
                assert(d.take(i + 1) =~= d.take(i as int).push(d[i as int]));
                lemma_reach_push(self.edge_map(), 0, d.take(i as int), d[i as int]);
                self.lemma_reach_path(0, d.take(i as int));
                assert(self.paths@[0] + d.take(i as int) =~= d.take(i as int));
            }
            match edge_get(&self.edges, current, values[i].as_slice()) {
                Some(c) => {
                    current = c;
                },
                None => {
                    let r = self.ends[current];
                    proof {
                        assert(!self.nodes().contains(d.take(i + 1)));
                        assert(self@.contains(d.take(i as int)) == r);
                        if !r {
                            assert forall|j: int| 0 <= j < d.len() && self.nodes().contains(d.take(j))
                                && !self.nodes().contains(d.take(j + 1))
                                implies !(#[trigger] self@.contains(d.take(j))) by {
                                if j > i {
                                    let a = d.take(i + 1);
                                    assert(d.take(j) =~= a + d.take(j).skip(i + 1));
                                    lemma_reach_append(self.edge_map(), 0, a, d.take(j).skip(i + 1));
                                } else if j < i {
                                    assert(self.nodes().contains(d.take(j + 1)));
                                }
                            }
                        }
                    }
                    return r;
                },
            }
            i = i + 1;
        }
        assert(d.take(i as int) =~= d);
        true
    }

    /// Some non-empty prefix of `values` is a key.
    pub fn prefix_match(&self, values: &[Vec<u8>]) -> (r: bool)
        requires
            self.wf(),
        ensures
            r == covers(self@, labels_view(values@)),
    {
        let ghost d = labels_view(values@);
        let mut current: usize = 0;
        let mut i: usize = 0;
        assert(d.take(0) =~= Seq::<Seq<u8>>::empty());
        while i < values.len()
            invariant
                self.wf(),
                d == labels_view(values@),
                0 <= i <= values@.len(),
                current < self.ends@.len(),
                reach(self.edge_map(), 0, d.take(i as int)) == Some(current),
                forall|k: int| 1 <= k <= i ==> !(#[trigger] self@.contains(d.take(k))),
            decreases values@.len() - i,
        {
            proof {
                assert(d.take(i + 1) =~= d.take(i as int).push(d[i as int]));
                lemma_reach_push(self.edge_map(), 0, d.take(i as int), d[i as int]);
            }
            match edge_get(&self.edges, current, values[i].as_slice()) {
                Some(c) => {
                    current = c;
                    proof {
                        self.lemma_reach_path(0, d.take(i + 1));
                    }
                    if self.ends[current] {
                        assert(self@.contains(d.take(i + 1)));
                        return true;
                    }
                },
                None => {
                    proof {
                        assert forall|k: int| 1 <= k <= d.len() implies !(#[trigger] self@.contains(d.take(k))) by {
                            if k > i {
                                let a = d.take(i + 1);
                                assert(d.take(k) =~= a + d.take(k).skip(i + 1));
                                lemma_reach_append(self.edge_map(), 0, a, d.take(k).skip(i + 1));
                            }
                        }
                    }
                    return false;
                },
            }
            i = i + 1;
        }
        assert(d.take(i as int) =~= d);
        false
    }

    /// Releases spare capacity of the edge table; the keys stay.
    pub fn shrink_to_fit(&mut self)
        requires
            old(self).wf(),
        ensures
            final(self).wf(),
            final(self)@ == old(self)@,
            final(self).nodes() == old(self).nodes(),
            final(self).node_count() == old(self).node_count(),
    {
        edges_shrink(&mut self.edges);
        assert(self@ =~= old(self)@);
        assert(self.nodes() =~= old(self).nodes());
    }
}

/// Adding the edge `(m, l) -> n` towards a node `n` with no edges of its own
/// changes no walk that did not take it; a walk that does take it ends at `n`.
proof fn lemma_reach_grow(
    e: Map<(usize, Seq<u8>), usize>,
    m: usize,
    l: Seq<u8>,
    n: usize,
    from: usize,
    p: Path,
)
    requires
        !e.contains_key((m, l)),
        m != n,
        forall|k: (usize, Seq<u8>)| #[trigger] e.contains_key(k) ==> k.0 != n,
    ensures
        ({
            let e2 = e.insert((m, l), n);
            &&& reach(e, from, p) is Some ==> reach(e2, from, p) == reach(e, from, p)
            &&& reach(e, from, p) is None ==> reach(e2, from, p) is None || reach(e2, from, p) == Some(n)
        }),
    decreases p.len(),
{
    let e2 = e.insert((m, l), n);
    if p.len() > 0 {
        let rest = p.drop_first();
        if e.contains_key((from, p[0])) {
            assert((from, p[0]) != (m, l));
            assert(e2.contains_key((from, p[0])) && e2[(from, p[0])] == e[(from, p[0])]);
            lemma_reach_grow(e, m, l, n, e[(from, p[0])], rest);
        } else if (from, p[0]) == (m, l) {
            assert(e2.contains_key((from, p[0])) && e2[(from, p[0])] == n);
            assert(reach(e, from, p) is None);
            if rest.len() > 0 {
                assert(!e2.contains_key((n, rest[0])));
                assert(reach(e2, n, rest) is None);
            } else {
                assert(reach(e2, n, rest) == Some(n));
            }
        } else {
            assert(!e2.contains_key((from, p[0])));
        }
    }
}

} // verus!
