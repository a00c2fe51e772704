use vstd::prelude::*;
use vstd::std_specs::bits::axiom_u64_trailing_ones;

use crate::ordered_map::{
    OrderedMap, entries_map, has_key, insert_entry, keys_sorted, lemma_entries_map,
    lemma_entries_map_empty, lemma_entries_map_insert, lemma_entries_map_lower_bound,
    lemma_entries_map_remove, lemma_insert_sorted, lemma_rank, lemma_rank_at, lemma_remove_sorted,
    lookup, lower_bound_entry, map_value, rank, remove_entry,
};

verus! {

/// The number of levels.
const MAX_LEVEL: usize = 32;

/// Seed of the levels of a skip list made by `new`.
const DEFAULT_SEED: u64 = 0x5EED_5A1B_2026;

/// Xorshift generator of node levels.
#[derive(Clone, Copy)]
struct XorShift64 {
    state: u64,
}

impl XorShift64 {
    fn new(seed: u64) -> (r: Self)
        ensures
            r.state == seed,
    {
        Self { state: seed }
    }

    fn next_u64(&mut self) -> u64 {
        let mut x = self.state;
        x ^= x << 13u64;
        x ^= x >> 7u64;
        x ^= x << 17u64;
        self.state = x;
        x
    }

    /// A level drawn with `P(level >= k) = 2^(1 - k)`, at most `MAX_LEVEL`.
    fn next_level(&mut self) -> (r: usize)
        ensures
            1 <= r <= MAX_LEVEL,
    {
        let x = self.next_u64();
        proof {
            axiom_u64_trailing_ones(x);
        }
        let t = x.trailing_ones() as usize + 1;
        if t < MAX_LEVEL {
            t
        } else {
            MAX_LEVEL
        }
    }
}

struct Node<K, V> {
    key: K,
    value: V,
    /// The next node on each level the node is on.
    next: Vec<Option<usize>>,
}

/// An ordered map kept in a skip list, its nodes in an arena.
pub struct SkipListMap<K, V> {
    /// The first node on each level.
    head: Vec<Option<usize>>,
    nodes: Vec<Option<Node<K, V>>>,
    /// Slots of the arena left by removed nodes.
    free: Vec<usize>,
    /// Levels from this one up are empty.
    level: usize,
    len: usize,
    rng: XorShift64,
    /// For each level, the nodes on it, in key order.
    lists: Ghost<Seq<Seq<usize>>>,
}

/// The node after position `p` of `s`.
spec fn succ_in(s: Seq<usize>, p: int) -> Option<usize> {
    if p + 1 < s.len() {
        Some(s[p + 1])
    } else {
        None
    }
}

/// The first node of `s`.
spec fn first_of(s: Seq<usize>) -> Option<usize> {
    if s.len() > 0 {
        Some(s[0])
    } else {
        None
    }
}

impl<V> SkipListMap<u64, V> {
    spec fn live(&self, i: usize) -> bool {
        i < self.nodes.len() && self.nodes@[i as int] is Some
    }

    spec fn nd(&self, i: usize) -> Node<u64, V> {
        self.nodes@[i as int]->0
    }

    spec fn height(&self, i: usize) -> nat {
        self.nd(i).next@.len()
    }

    spec fn entry(&self, i: usize) -> (u64, V) {
        (self.nd(i).key, self.nd(i).value)
    }

    /// The entries on level `l`, in order.
    spec fn level_entries(&self, l: int) -> Seq<(u64, V)> {
        self.lists@[l].map_values(|i: usize| self.entry(i))
    }

    /// The list of level `l` is sorted, made of live nodes that reach that level, and linked
    /// from the head through the nodes' links.
    spec fn level_ok(&self, l: int) -> bool {
        let s = self.lists@[l];
        &&& forall|p: int| 0 <= p < s.len() ==> self.live(#[trigger] s[p]) && self.height(s[p]) > l
        &&& keys_sorted(self.level_entries(l))
        &&& self.head@[l] == first_of(s)
        &&& forall|p: int| 0 <= p < s.len() ==> self.nd(#[trigger] s[p]).next@[l] == succ_in(s, p)
    }

    /// A node is on level `l` exactly when it is on the bottom level and reaches `l`.
    spec fn members_ok(&self) -> bool {
        forall|l: int, n: usize|
            0 <= l < MAX_LEVEL ==> (#[trigger] self.lists@[l].contains(n) <==> (self.lists@[0].contains(n)
                && self.height(n) > l))
    }

    spec fn wf_inner(&self) -> bool {
        &&& self.head.len() == MAX_LEVEL
        &&& self.lists@.len() == MAX_LEVEL
        &&& 1 <= self.level <= MAX_LEVEL
        &&& forall|l: int| 0 <= l < MAX_LEVEL ==> #[trigger] self.level_ok(l)
        &&& self.members_ok()
        &&& forall|n: usize| #[trigger] self.lists@[0].contains(n) ==> self.height(n) <= MAX_LEVEL
        &&& forall|l: int| self.level <= l < MAX_LEVEL ==> (#[trigger] self.lists@[l]).len() == 0
        &&& self.free@.no_duplicates()
        &&& forall|j: int| 0 <= j < self.free.len() ==> (#[trigger] self.free@[j]) < self.nodes.len()
            && self.nodes@[self.free@[j] as int] is None
        &&& self.len == self.lists@[0].len()
    }

    /// The last node on level `l` with a key below `key`.
    spec fn pred(&self, l: int, key: u64) -> Option<usize> {
        let p = rank(self.level_entries(l), key) as int;
        if p > 0 {
            Some(self.lists@[l][p - 1])
        } else {
            None
        }
    }

    /// The first node on level `l` with a key at least `key`.
    spec fn at(&self, l: int, key: u64) -> Option<usize> {
        let p = rank(self.level_entries(l), key) as int;
        if p < self.lists@[l].len() {
            Some(self.lists@[l][p])
        } else {
            None
        }
    }

    /// The entries of level `l` are those of its nodes.
    proof fn lemma_level_entries(&self, l: int)
        ensures
            self.level_entries(l).len() == self.lists@[l].len(),
            forall|p: int| 0 <= p < self.lists@[l].len() ==> #[trigger] self.level_entries(l)[p] == self.entry(
                self.lists@[l][p],
            ),
    {
    }

    fn node_key(&self, i: usize) -> (r: u64)
        requires
            self.live(i),
        ensures
            r == self.nd(i).key,
    {
        match &self.nodes[i] {
            Some(n) => n.key,
            None => 0,
        }
    }

    fn node_next(&self, i: usize, l: usize) -> (r: Option<usize>)
        requires
            self.live(i),
            l < self.height(i),
        ensures
            r == self.nd(i).next@[l as int],
    {
        match &self.nodes[i] {
            Some(n) => n.next[l],
            None => None,
        }
    }

    /// The node after `prev` on level `l`, `prev` being none for the head.
    fn get_next(&self, prev: Option<usize>, l: usize) -> (r: Option<usize>)
        requires
            l < self.head.len(),
            prev matches Some(c) ==> self.live(c) && l < self.height(c),
        ensures
            r == match prev {
                Some(c) => self.nd(c).next@[l as int],
                None => self.head@[l as int],
            },
    {
        match prev {
            Some(c) => self.node_next(c, l),
            None => self.head[l],
        }
    }

    /// For each level, the last node with a key below `key`; and the first node of the bottom
    /// level with a key at least `key`.
    fn find_update(&self, key: u64) -> (r: (Vec<Option<usize>>, Option<usize>))
        requires
            self.wf_inner(),
        ensures
            r.0.len() == MAX_LEVEL,
            forall|l: int| 0 <= l < MAX_LEVEL ==> r.0@[l] == #[trigger] self.pred(l, key),
            r.1 == self.at(0, key),
    {
        let mut update: Vec<Option<usize>> = Vec::new();
        let mut i: usize = 0;
        while i < MAX_LEVEL
            invariant
                update.len() == i <= MAX_LEVEL,
                forall|j: int| 0 <= j < i ==> update@[j] is None,
            decreases MAX_LEVEL - i,
        {
            update.push(None);
            i += 1;
        }
        proof {
            assert forall|l: int| self.level <= l < MAX_LEVEL implies update@[l] == #[trigger] self.pred(l, key) by {
                assert(self.lists@[l].len() == 0);
            }
        }
        let mut cur: Option<usize> = None;
        let mut lvl = self.level;
        while lvl > 0
            invariant
                self.wf_inner(),
                update.len() == MAX_LEVEL,
                lvl <= self.level,
                forall|l: int| lvl <= l < MAX_LEVEL ==> update@[l] == #[trigger] self.pred(l, key),
                lvl < MAX_LEVEL ==> cur == self.pred(lvl as int, key),
                lvl == MAX_LEVEL ==> cur is None,
            decreases lvl,
        {
            lvl -= 1;
            let ghost s = self.lists@[lvl as int];
            let ghost es = self.level_entries(lvl as int);
            proof {
                self.lemma_level_entries(lvl as int);
                assert(self.level_ok(lvl as int));
            }
            let ghost mut p: int = 0;
            let mut next = match cur {
                None => self.head[lvl],
                Some(c) => {
                    proof {
                        let up = (lvl + 1) as int;
                        self.lemma_level_entries(up);
                        assert(self.level_ok(up));
                        lemma_rank(self.level_entries(up), key);
                        let q = rank(self.level_entries(up), key) - 1;
                        assert(self.lists@[up][q] == c);
                        assert(self.lists@[up].contains(c));
                        assert(self.lists@[lvl as int].contains(c));
                        p = s.index_of(c) + 1;
                        assert(self.level_entries(up)[q] == self.entry(c));
                        // every node up to `c` has a key below `key`
                        assert forall|j: int| 0 <= j < p implies es[j].0 < key by {
                            if j < p - 1 {
                                assert(es[j].0 < es[p - 1].0);
                            }
                        }
                    }
                    self.node_next(c, lvl)
                },
            };
            loop
                invariant
                    self.wf_inner(),
                    s == self.lists@[lvl as int],
                    es == self.level_entries(lvl as int),
                    es.len() == s.len(),
                    keys_sorted(es),
                    lvl < MAX_LEVEL,
                    0 <= p <= s.len(),
                    forall|j: int| 0 <= j < p ==> es[j].0 < key,
                    next == (if p < s.len() { Some(s[p]) } else { None::<usize> }),
                    cur == (if p > 0 { Some(s[p - 1]) } else { None::<usize> }),
                ensures
                    0 <= p <= s.len(),
                    forall|j: int| 0 <= j < p ==> es[j].0 < key,
                    p < s.len() ==> es[p].0 >= key,
                    cur == (if p > 0 { Some(s[p - 1]) } else { None::<usize> }),
                decreases s.len() - p,
            {
                match next {
                    Some(n) => {
                        proof {
                            self.lemma_level_entries(lvl as int);
                            assert(self.level_ok(lvl as int));
                            assert(s[p] == n);
                        }
                        if self.node_key(n) < key {
                            cur = Some(n);
                            next = self.node_next(n, lvl);
                            proof {
                                p = p + 1;
                            }
                        } else {
                            break;
                        }
                    },
                    None => {
                        break;
                    },
                }
            }
            proof {
                assert forall|j: int| p <= j < es.len() implies es[j].0 >= key by {
                    if j > p {
                        assert(es[p].0 < es[j].0);
                    }
                }
                lemma_rank_at(es, key, p);
            }
            update.set(lvl, cur);
        }
        proof {
            self.lemma_level_entries(0);
            assert(self.level_ok(0));
            lemma_rank(self.level_entries(0), key);
        }
        let first = self.get_next(update[0], 0);
        (update, first)
    }
}

impl<V> SkipListMap<u64, V> {
    /// Nothing but the links changes: same lists, same live nodes with the same entries and
    /// heights.
    spec fn same_nodes(&self, other: &Self) -> bool {
        &&& self.lists@ == other.lists@
        &&& self.nodes.len() == other.nodes.len()
        &&& self.free == other.free
        &&& self.level == other.level
        &&& self.len == other.len
        &&& self.head.len() == other.head.len()
        &&& forall|i: usize| #[trigger] other.live(i) ==> self.live(i) && self.entry(i) == other.entry(i)
            && self.height(i) == other.height(i)
    }

    /// With the same list and the same entries of its nodes, a level has the same entries.
    proof fn lemma_same_level_entries(&self, other: &Self, l: int)
        requires
            self.lists@[l] == other.lists@[l],
            forall|p: int| 0 <= p < other.lists@[l].len() ==> self.entry(#[trigger] other.lists@[l][p]) == other.entry(
                other.lists@[l][p],
            ),
        ensures
            self.level_entries(l) == other.level_entries(l),
    {
        assert(self.level_entries(l) =~= other.level_entries(l));
    }

    /// Point the link of `prev` (the head if none) on level `l` at `target`.
    fn set_link(&mut self, prev: Option<usize>, l: usize, target: Option<usize>)
        requires
            old(self).head.len() == MAX_LEVEL,
            l < MAX_LEVEL,
            prev matches Some(c) ==> old(self).live(c) && l < old(self).height(c),
        ensures
            final(self).same_nodes(old(self)),
            final(self).rng == old(self).rng,
            prev is None ==> final(self).head@ == old(self).head@.update(l as int, target) && final(self).nodes@
                == old(self).nodes@,
            prev matches Some(c) ==> {
                &&& final(self).head@ == old(self).head@
                &&& forall|i: int| 0 <= i < old(self).nodes.len() && i != c ==> final(self).nodes@[i] == old(self).nodes@[i]
                &&& final(self).nd(c).next@ == old(self).nd(c).next@.update(l as int, target)
            },
    {
        match prev {
            None => {
                self.head.set(l, target);
            },
            Some(c) => {
                let mut slot: Option<Node<u64, V>> = None;
                std::mem::swap(&mut self.nodes[c], &mut slot);
                match slot {
                    Some(n) => {
                        let mut n = n;
                        n.next.set(l, target);
                        self.nodes.set(c, Some(n));
                    },
                    None => {},
                }
                proof {
                    assert forall|i: usize| #[trigger] old(self).live(i) implies self.live(i) && self.entry(i)
                        == old(self).entry(i) && self.height(i) == old(self).height(i) by {
                        if i != c {
                            assert(self.nodes@[i as int] == old(self).nodes@[i as int]);
                        }
                    }
                }
            },
        }
    }

    /// Put node `idx` on level `l`, right after the last node there with a key below its key.
    #[verifier::rlimit(40)]
    fn link_level(&mut self, l: usize, prev: Option<usize>, idx: usize)
        requires
            old(self).head.len() == MAX_LEVEL,
            old(self).lists@.len() == MAX_LEVEL,
            l < MAX_LEVEL,
            old(self).level_ok(l as int),
            old(self).live(idx),
            old(self).height(idx) > l,
            !old(self).lists@[l as int].contains(idx),
            prev == old(self).pred(l as int, old(self).nd(idx).key),
            !has_key(old(self).level_entries(l as int), old(self).nd(idx).key),
            old(self).nd(idx).next@[l as int] == old(self).at(l as int, old(self).nd(idx).key),
        ensures
            final(self).lists@ == old(self).lists@.update(
                l as int,
                old(self).lists@[l as int].insert(rank(old(self).level_entries(l as int), old(self).nd(idx).key) as int, idx),
            ),
            final(self).level_ok(l as int),
            final(self).level_entries(l as int) == insert_entry(
                old(self).level_entries(l as int),
                old(self).nd(idx).key,
                old(self).nd(idx).value,
            ),
            final(self).rng == old(self).rng,
            final(self).nodes.len() == old(self).nodes.len(),
            final(self).free == old(self).free,
            final(self).level == old(self).level,
            final(self).len == old(self).len,
            final(self).head.len() == MAX_LEVEL,
            forall|i: usize| #[trigger] old(self).live(i) ==> final(self).live(i) && final(self).entry(i)
                == old(self).entry(i) && final(self).height(i) == old(self).height(i),
            forall|j: int| 0 <= j < MAX_LEVEL && j != l && old(self).level_ok(j) ==> #[trigger] final(self).level_ok(j),
            forall|i: int| 0 <= i < old(self).nodes.len() && prev != Some(i as usize) ==> #[trigger] final(self).nodes@[i]
                == old(self).nodes@[i],
    {
        let ghost o = *self;
        let ghost key = o.nd(idx).key;
        let ghost s = o.lists@[l as int];
        let ghost es = o.level_entries(l as int);
        let ghost q = rank(es, key) as int;
        let ghost t = s.insert(q, idx);
        proof {
            o.lemma_level_entries(l as int);
            lemma_rank(es, key);
            lemma_insert_sorted(es, key, o.nd(idx).value);
            if let Some(c) = prev {
                assert(s[q - 1] == c);
                assert(o.live(c) && o.height(c) > l);
            }
        }
        self.set_link(prev, l, Some(idx));
        self.lists = Ghost(self.lists@.update(l as int, t));
        proof {
            let n = *self;
            // the entries of the level gain the new entry at its rank
            assert(n.entry(idx) == o.entry(idx));
            assert(n.level_entries(l as int) =~= insert_entry(es, key, o.nd(idx).value)) by {
                assert forall|p: int| 0 <= p < t.len() implies n.level_entries(l as int)[p] == insert_entry(
                    es,
                    key,
                    o.nd(idx).value,
                )[p] by {
                    if p < q {
                        assert(t[p] == s[p]);
                        assert(o.live(s[p]));
                    } else if p > q {
                        assert(t[p] == s[p - 1]);
                        assert(o.live(s[p - 1]));
                    }
                }
            }
            // every node of the level is live and reaches it
            assert forall|p: int| 0 <= p < t.len() implies n.live(#[trigger] t[p]) && n.height(t[p]) > l by {
                if p < q {
                    assert(t[p] == s[p] && o.live(s[p]));
                } else if p > q {
                    assert(t[p] == s[p - 1] && o.live(s[p - 1]));
                }
            }
            // the links of the level follow the new list
            assert forall|p: int| 0 <= p < t.len() implies n.nd(#[trigger] t[p]).next@[l as int] == succ_in(t, p) by {
                if p < q - 1 {
                    assert(t[p] == s[p]);
                    assert(o.nd(s[p]).next@[l as int] == succ_in(s, p));
                    if let Some(c) = prev {
                        assert(s[p] != c) by {
                            assert(es[p].0 < es[q - 1].0);
                        }
                    }
                    assert(n.nodes@[s[p] as int] == o.nodes@[s[p] as int]);
                } else if p == q - 1 {
                    assert(t[p] == s[p]);
                } else if p == q {
                    if let Some(c) = prev {
                        assert(idx != c);
                        assert(n.nodes@[idx as int] == o.nodes@[idx as int]);
                    }
                } else {
                    assert(t[p] == s[p - 1]);
                    assert(o.nd(s[p - 1]).next@[l as int] == succ_in(s, p - 1));
                    if let Some(c) = prev {
                        assert(s[p - 1] != c) by {
                            assert(es[q - 1].0 < es[p - 1].0);
                        }
                    }
                    assert(n.nodes@[s[p - 1] as int] == o.nodes@[s[p - 1] as int]);
                }
            }
            assert(n.level_ok(l as int));
            // the other levels keep their lists and links
            assert forall|j: int| 0 <= j < MAX_LEVEL && j != l && o.level_ok(j) implies #[trigger] n.level_ok(j) by {
                let sj = o.lists@[j];
                assert(n.lists@[j] == sj);
                assert forall|p: int| 0 <= p < sj.len() implies n.entry(#[trigger] sj[p]) == o.entry(sj[p]) by {
                    assert(o.live(sj[p]));
                }
                n.lemma_same_level_entries(&o, j);
                assert forall|p: int| 0 <= p < sj.len() implies n.nd(#[trigger] sj[p]).next@[j] == succ_in(sj, p) by {
                    assert(o.live(sj[p]));
                    assert(o.nd(sj[p]).next@[j] == succ_in(sj, p));
                }
                assert forall|p: int| 0 <= p < sj.len() implies n.live(#[trigger] sj[p]) && n.height(sj[p]) > j by {
                    assert(o.live(sj[p]));
                }
            }
        }
    }

    /// Take node `t` off level `l`, linking the node before it to the node after it.
    fn unlink_level(&mut self, l: usize, prev: Option<usize>, t: usize)
        requires
            old(self).head.len() == MAX_LEVEL,
            old(self).lists@.len() == MAX_LEVEL,
            l < MAX_LEVEL,
            old(self).level_ok(l as int),
            old(self).live(t),
            old(self).height(t) > l,
            old(self).lists@[l as int].contains(t),
            prev == old(self).pred(l as int, old(self).nd(t).key),
        ensures
            final(self).lists@ == old(self).lists@.update(
                l as int,
                old(self).lists@[l as int].remove(rank(old(self).level_entries(l as int), old(self).nd(t).key) as int),
            ),
            final(self).level_ok(l as int),
            final(self).level_entries(l as int) == remove_entry(old(self).level_entries(l as int), old(self).nd(t).key),
            rank(old(self).level_entries(l as int), old(self).nd(t).key) < old(self).lists@[l as int].len(),
            old(self).lists@[l as int][rank(old(self).level_entries(l as int), old(self).nd(t).key) as int] == t,
            final(self).rng == old(self).rng,
            final(self).nodes.len() == old(self).nodes.len(),
            final(self).free == old(self).free,
            final(self).level == old(self).level,
            final(self).len == old(self).len,
            final(self).head.len() == MAX_LEVEL,
            forall|i: usize| #[trigger] old(self).live(i) ==> final(self).live(i) && final(self).entry(i)
                == old(self).entry(i) && final(self).height(i) == old(self).height(i),
            forall|j: int| 0 <= j < MAX_LEVEL && j != l && old(self).level_ok(j) ==> #[trigger] final(self).level_ok(j),
            forall|i: int| 0 <= i < old(self).nodes.len() && prev != Some(i as usize) ==> #[trigger] final(self).nodes@[i]
                == old(self).nodes@[i],
    {
        let ghost o = *self;
        let ghost key = o.nd(t).key;
        let ghost s = o.lists@[l as int];
        let ghost es = o.level_entries(l as int);
        let ghost q = s.index_of(t);
        let ghost u = s.remove(q);
        proof {
            o.lemma_level_entries(l as int);
            assert(es[q] == o.entry(t));
            assert forall|j: int| 0 <= j < q implies es[j].0 < key by {
                assert(es[j].0 < es[q].0);
            }
            assert forall|j: int| q <= j < es.len() implies es[j].0 >= key by {
                if j > q {
                    assert(es[q].0 < es[j].0);
                }
            }
            lemma_rank_at(es, key, q);
            lemma_remove_sorted(es, key);
            if let Some(c) = prev {
                assert(s[q - 1] == c);
                assert(o.live(c) && o.height(c) > l);
            }
        }
        let after = self.node_next(t, l);
        self.set_link(prev, l, after);
        self.lists = Ghost(self.lists@.update(l as int, u));
        proof {
            let n = *self;
            assert(n.level_entries(l as int) =~= remove_entry(es, key)) by {
                assert forall|p: int| 0 <= p < u.len() implies n.level_entries(l as int)[p] == remove_entry(es, key)[p] by {
                    if p < q {
                        assert(u[p] == s[p]);
                        assert(o.live(s[p]));
                    } else {
                        assert(u[p] == s[p + 1]);
                        assert(o.live(s[p + 1]));
                    }
                }
            }
            assert forall|p: int| 0 <= p < u.len() implies n.live(#[trigger] u[p]) && n.height(u[p]) > l by {
                if p < q {
                    assert(u[p] == s[p] && o.live(s[p]));
                } else {
                    assert(u[p] == s[p + 1] && o.live(s[p + 1]));
                }
            }
            assert forall|p: int| 0 <= p < u.len() implies n.nd(#[trigger] u[p]).next@[l as int] == succ_in(u, p) by {
                if p < q - 1 {
                    assert(u[p] == s[p]);
                    assert(o.nd(s[p]).next@[l as int] == succ_in(s, p));
                    if let Some(c) = prev {
                        assert(s[p] != c) by {
                            assert(es[p].0 < es[q - 1].0);
                        }
                    }
                    assert(n.nodes@[s[p] as int] == o.nodes@[s[p] as int]);
                } else if p == q - 1 {
                    assert(u[p] == s[p]);
                    assert(o.nd(t).next@[l as int] == succ_in(s, q));
                } else {
                    assert(u[p] == s[p + 1]);
                    assert(o.nd(s[p + 1]).next@[l as int] == succ_in(s, p + 1));
                    if let Some(c) = prev {
                        assert(s[p + 1] != c) by {
                            assert(es[q - 1].0 < es[p + 1].0);
                        }
                    }
                    assert(n.nodes@[s[p + 1] as int] == o.nodes@[s[p + 1] as int]);
                }
            }
            assert(n.level_ok(l as int));
            assert forall|j: int| 0 <= j < MAX_LEVEL && j != l && o.level_ok(j) implies #[trigger] n.level_ok(j) by {
                let sj = o.lists@[j];
                assert(n.lists@[j] == sj);
                assert forall|p: int| 0 <= p < sj.len() implies n.entry(#[trigger] sj[p]) == o.entry(sj[p]) by {
                    assert(o.live(sj[p]));
                }
                n.lemma_same_level_entries(&o, j);
                assert forall|p: int| 0 <= p < sj.len() implies n.nd(#[trigger] sj[p]).next@[j] == succ_in(sj, p) by {
                    assert(o.live(sj[p]));
                    assert(o.nd(sj[p]).next@[j] == succ_in(sj, p));
                }
                assert forall|p: int| 0 <= p < sj.len() implies n.live(#[trigger] sj[p]) && n.height(sj[p]) > j by {
                    assert(o.live(sj[p]));
                }
            }
        }
    }
}


impl<V> SkipListMap<u64, V> {
    /// The state of the generator of node levels.
    pub closed spec fn level_state(&self) -> u64 {
        self.rng.state
    }

    /// An empty skip list whose node levels come from `seed`.
    pub fn with_seed(seed: u64) -> (r: Self)
        ensures
            r.wf(),
            r.contents() == Map::<u64, V>::empty(),
            r.level_state() == seed,
    {
        let mut head: Vec<Option<usize>> = Vec::new();
        let mut i: usize = 0;
        while i < MAX_LEVEL
            invariant
                head.len() == i <= MAX_LEVEL,
                forall|j: int| 0 <= j < i ==> head@[j] is None,
            decreases MAX_LEVEL - i,
        {
            head.push(None);
            i += 1;
        }
        let ghost lists = Seq::new(MAX_LEVEL as nat, |l: int| Seq::<usize>::empty());
        let r = Self {
            head,
            nodes: Vec::new(),
            free: Vec::new(),
            level: 1,
            len: 0,
            rng: XorShift64::new(seed),
            lists: Ghost(lists),
        };
        proof {
            assert forall|l: int| 0 <= l < MAX_LEVEL implies #[trigger] r.level_ok(l) by {
                assert(r.lists@[l].len() == 0);
            }
            assert(r.level_entries(0) =~= Seq::<(u64, V)>::empty());
            lemma_entries_map_empty::<V>();
        }
        r
    }

    fn node_height(&self, i: usize) -> (r: usize)
        requires
            self.live(i),
        ensures
            r == self.height(i),
    {
        match &self.nodes[i] {
            Some(n) => n.next.len(),
            None => 0,
        }
    }

    /// Put `node` in a slot of the arena that holds no node: a freed one, or a new one.
    fn place_node(&mut self, node: Node<u64, V>) -> (idx: usize)
        requires
            old(self).free@.no_duplicates(),
            forall|j: int| 0 <= j < old(self).free.len() ==> (#[trigger] old(self).free@[j]) < old(self).nodes.len()
                && old(self).nodes@[old(self).free@[j] as int] is None,
        ensures
            idx <= old(self).nodes.len(),
            idx < old(self).nodes.len() ==> old(self).nodes@[idx as int] is None,
            final(self).nodes.len() == (if idx < old(self).nodes.len() {
                old(self).nodes.len() as int
            } else {
                old(self).nodes.len() + 1
            }),
            final(self).nodes@[idx as int] == Some(node),
            forall|i: int| 0 <= i < old(self).nodes.len() && i != idx ==> #[trigger] final(self).nodes@[i]
                == old(self).nodes@[i],
            final(self).free@.no_duplicates(),
            forall|j: int| 0 <= j < final(self).free.len() ==> (#[trigger] final(self).free@[j]) < final(self).nodes.len()
                && final(self).nodes@[final(self).free@[j] as int] is None,
            final(self).head == old(self).head,
            final(self).lists == old(self).lists,
            final(self).level == old(self).level,
            final(self).len == old(self).len,
            final(self).rng == old(self).rng,
    {
        match self.free.pop() {
            Some(i) => {
                proof {
                    assert(old(self).free@[old(self).free.len() - 1] == i);
                }
                self.nodes.set(i, Some(node));
                proof {
                    assert forall|j: int| 0 <= j < self.free.len() implies (#[trigger] self.free@[j]) < self.nodes.len()
                        && self.nodes@[self.free@[j] as int] is None by {
                        assert(self.free@[j] == old(self).free@[j]);
                        assert(old(self).free@[j] != old(self).free@[old(self).free.len() - 1]);
                    }
                }
                i
            },
            None => {
                self.nodes.push(Some(node));
                self.nodes.len() - 1
            },
        }
    }

    /// Levels whose nodes keep their slots keep their entries, order and links.
    proof fn lemma_frame(&self, o: &Self)
        requires
            self.lists@ == o.lists@,
            self.head@ == o.head@,
            o.lists@.len() == MAX_LEVEL,
            forall|l: int, i: usize| 0 <= l < MAX_LEVEL && #[trigger] o.lists@[l].contains(i) ==> i < self.nodes.len()
                && self.nodes@[i as int] == o.nodes@[i as int],
        ensures
            forall|l: int| 0 <= l < MAX_LEVEL && o.level_ok(l) ==> #[trigger] self.level_ok(l)
                && self.level_entries(l) == o.level_entries(l),
    {
        assert forall|l: int| 0 <= l < MAX_LEVEL && o.level_ok(l) implies #[trigger] self.level_ok(l)
            && self.level_entries(l) == o.level_entries(l) by {
            let s = o.lists@[l];
            assert(self.lists@[l] == s);
            assert forall|p: int| 0 <= p < s.len() implies self.live(#[trigger] s[p]) && self.nd(s[p]) == o.nd(s[p]) by {
                assert(o.live(s[p]));
                assert(o.lists@[l].contains(s[p]));
            }
            self.lemma_same_level_entries(o, l);
            assert(keys_sorted(self.level_entries(l)));
            assert(self.head@[l] == first_of(s));
            assert forall|p: int| 0 <= p < s.len() implies self.live(#[trigger] s[p]) && self.height(s[p]) > l by {
                assert(o.live(s[p]) && o.height(s[p]) > l);
                assert(self.nd(s[p]) == o.nd(s[p]));
            }
            assert forall|p: int| 0 <= p < s.len() implies self.nd(#[trigger] s[p]).next@[l] == succ_in(s, p) by {
                assert(o.nd(s[p]).next@[l] == succ_in(s, p));
                assert(self.nd(s[p]) == o.nd(s[p]));
            }
        }
    }
}


/// A sequence with `x` put in holds `x` and what it held.
proof fn lemma_insert_contains(s: Seq<usize>, i: int, x: usize, n: usize)
    requires
        0 <= i <= s.len(),
    ensures
        s.insert(i, x).contains(n) <==> (n == x || s.contains(n)),
{
    let t = s.insert(i, x);
    assert(t[i] == x);
    if s.contains(n) {
        let p = s.index_of(n);
        if p < i {
            assert(t[p] == n);
        } else {
            assert(t[p + 1] == n);
        }
    }
    if t.contains(n) && n != x {
        let p = t.index_of(n);
        if p < i {
            assert(s[p] == n);
        } else {
            assert(s[p - 1] == n);
        }
    }
}

/// A sequence without duplicates, with its element at `i` taken out, holds the others.
proof fn lemma_remove_contains(s: Seq<usize>, i: int, n: usize)
    requires
        0 <= i < s.len(),
        s.no_duplicates(),
    ensures
        s.remove(i).contains(n) <==> (s.contains(n) && n != s[i]),
{
    let t = s.remove(i);
    if t.contains(n) {
        let p = t.index_of(n);
        if p < i {
            assert(s[p] == n);
        } else {
            assert(s[p + 1] == n);
        }
    }
    if s.contains(n) && n != s[i] {
        let p = s.index_of(n);
        if p < i {
            assert(t[p] == n);
        } else {
            assert(t[p - 1] == n);
        }
    }
}

impl<V> SkipListMap<u64, V> {
    /// The nodes of a level are distinct.
    proof fn lemma_level_distinct(&self, l: int)
        requires
            self.level_ok(l),
        ensures
            self.lists@[l].no_duplicates(),
    {
        let s = self.lists@[l];
        self.lemma_level_entries(l);
        assert forall|i: int, j: int| 0 <= i < s.len() && 0 <= j < s.len() && i != j implies s[i] != s[j] by {
            let es = self.level_entries(l);
            if i < j {
                assert(es[i].0 < es[j].0);
            } else {
                assert(es[j].0 < es[i].0);
            }
        }
    }

    /// A node of a level stands there at the rank of its key.
    proof fn lemma_found_at_rank(&self, l: int, t: usize)
        requires
            self.level_ok(l),
            self.lists@[l].contains(t),
        ensures
            rank(self.level_entries(l), self.nd(t).key) < self.lists@[l].len(),
            self.lists@[l][rank(self.level_entries(l), self.nd(t).key) as int] == t,
            self.lists@[l].no_duplicates(),
    {
        let es = self.level_entries(l);
        let key = self.nd(t).key;
        self.lemma_level_distinct(l);
        self.lemma_level_entries(l);
        lemma_rank(es, key);
        let q = self.lists@[l].index_of(t);
        assert(es[q].0 == key);
        let r = rank(es, key) as int;
        if q < r {
            assert(es[q].0 < key);
        } else if q > r {
            assert(es[r].0 < es[q].0);
        }
    }

    /// A key that no node of the bottom level has, no node of any level has.
    proof fn lemma_key_absent(&self, l: int, key: u64)
        requires
            self.wf_inner(),
            0 <= l < MAX_LEVEL,
            !has_key(self.level_entries(0), key),
        ensures
            !has_key(self.level_entries(l), key),
    {
        let es = self.level_entries(l);
        let e0 = self.level_entries(0);
        self.lemma_level_entries(l);
        self.lemma_level_entries(0);
        assert(self.level_ok(l));
        assert(self.level_ok(0));
        if has_key(es, key) {
            let r = rank(es, key) as int;
            let m = self.lists@[l][r];
            assert(self.lists@[l].contains(m));
            assert(self.lists@[0].contains(m));
            let p = self.lists@[0].index_of(m);
            assert(e0[p].0 == key);
            lemma_rank(e0, key);
            let r0 = rank(e0, key) as int;
            if p > r0 {
                assert(e0[r0].0 < e0[p].0);
            }
        }
    }

    /// Put a node for `key`, which no node has, on the levels it draws, each time right after
    /// the node `update` gives for that level.
    #[verifier::rlimit(60)]
    fn insert_new(&mut self, key: u64, value: V, update: &Vec<Option<usize>>)
        requires
            old(self).wf_inner(),
            old(self).len < usize::MAX,
            !has_key(old(self).level_entries(0), key),
            update.len() == MAX_LEVEL,
            forall|j: int| 0 <= j < MAX_LEVEL ==> update@[j] == #[trigger] old(self).pred(j, key),
        ensures
            final(self).wf_inner(),
            final(self).level_entries(0) == insert_entry(old(self).level_entries(0), key, value),
    {
        let ghost o = *self;
        let height = self.rng.next_level();
        if height > self.level {
            self.level = height;
        }
        self.len = self.len + 1;
        // the links of the new node: on each of its levels, the node it goes before
        let mut links: Vec<Option<usize>> = Vec::new();
        let mut l: usize = 0;
        while l < height
            invariant
                l <= height <= MAX_LEVEL,
                links.len() == l,
                o.wf_inner(),
                self.nodes == o.nodes,
                self.head == o.head,
                update.len() == MAX_LEVEL,
                forall|j: int| 0 <= j < MAX_LEVEL ==> update@[j] == #[trigger] o.pred(j, key),
                forall|j: int| 0 <= j < l ==> links@[j] == #[trigger] o.at(j, key),
            decreases height - l,
        {
            proof {
                o.lemma_level_entries(l as int);
                assert(o.level_ok(l as int));
                lemma_rank(o.level_entries(l as int), key);
                assert(update@[l as int] == o.pred(l as int, key));
                if let Some(c) = update@[l as int] {
                    let q = rank(o.level_entries(l as int), key) - 1;
                    assert(o.lists@[l as int][q] == c);
                    assert(o.live(c) && o.height(c) > l);
                }
            }
            let nx = self.get_next(update[l], l);
            links.push(nx);
            l += 1;
        }
        let idx = self.place_node(Node { key, value, next: links });
        proof {
            assert forall|l: int, i: usize| 0 <= l < MAX_LEVEL && #[trigger] o.lists@[l].contains(i) implies i
                < self.nodes.len() && self.nodes@[i as int] == o.nodes@[i as int] by {
                assert(o.level_ok(l));
                assert(o.live(i));
                assert(i != idx);
            }
            self.lemma_frame(&o);
        }
        let mut l: usize = 0;
        while l < height
            invariant
                l <= height <= MAX_LEVEL,
                height <= self.level <= MAX_LEVEL,
                o.level <= self.level,
                o.wf_inner(),
                update.len() == MAX_LEVEL,
                forall|j: int| 0 <= j < MAX_LEVEL ==> update@[j] == #[trigger] o.pred(j, key),
                !has_key(o.level_entries(0), key),
                !o.live(idx),
                self.head.len() == MAX_LEVEL,
                self.lists@.len() == MAX_LEVEL,
                self.live(idx),
                self.nd(idx).key == key,
                self.nd(idx).value == value,
                self.height(idx) == height,
                forall|j: int| 0 <= j < height ==> self.nd(idx).next@[j] == #[trigger] o.at(j, key),
                forall|j: int| 0 <= j < l ==> #[trigger] self.lists@[j] == o.lists@[j].insert(
                    rank(o.level_entries(j), key) as int,
                    idx,
                ) && self.level_entries(j) == insert_entry(o.level_entries(j), key, value),
                forall|j: int| l <= j < MAX_LEVEL ==> #[trigger] self.lists@[j] == o.lists@[j],
                forall|j: int| 0 <= j < MAX_LEVEL ==> #[trigger] self.level_ok(j),
                forall|i: usize| #[trigger] o.live(i) ==> self.live(i) && self.entry(i) == o.entry(i)
                    && self.height(i) == o.height(i),
                self.free@.no_duplicates(),
                forall|j: int| 0 <= j < self.free.len() ==> (#[trigger] self.free@[j]) < self.nodes.len()
                    && self.nodes@[self.free@[j] as int] is None,
                self.len == o.len + 1,
            decreases height - l,
        {
            let ghost b = *self;
            proof {
                let lj = l as int;
                o.lemma_level_entries(lj);
                assert(o.level_ok(lj));
                assert(b.level_ok(lj));
                // the level still has the nodes and entries it had
                assert forall|p: int| 0 <= p < o.lists@[lj].len() implies b.entry(#[trigger] o.lists@[lj][p])
                    == o.entry(o.lists@[lj][p]) by {
                    assert(o.live(o.lists@[lj][p]));
                }
                b.lemma_same_level_entries(&o, lj);
                assert(b.nd(idx).next@[lj] == o.at(lj, key));
                assert(b.at(lj, key) == o.at(lj, key));
                assert(b.pred(lj, key) == o.pred(lj, key));
                assert(!b.lists@[lj].contains(idx));
                o.lemma_key_absent(lj, key);
                assert(update@[lj] == o.pred(lj, key));
                if let Some(c) = update@[lj] {
                    lemma_rank(o.level_entries(lj), key);
                    let q = rank(o.level_entries(lj), key) - 1;
                    assert(o.lists@[lj][q] == c);
                    assert(o.live(c));
                }
            }
            self.link_level(l, update[l], idx);
            proof {
                let lj = l as int;
                let a = *self;
                assert forall|j: int| 0 <= j < lj implies #[trigger] a.lists@[j] == o.lists@[j].insert(
                    rank(o.level_entries(j), key) as int,
                    idx,
                ) && a.level_entries(j) == insert_entry(o.level_entries(j), key, value) by {
                    assert(a.lists@[j] == b.lists@[j]);
                    assert(b.level_ok(j));
                    assert forall|p: int| 0 <= p < b.lists@[j].len() implies a.entry(#[trigger] b.lists@[j][p])
                        == b.entry(b.lists@[j][p]) by {
                        assert(b.live(b.lists@[j][p]));
                    }
                    a.lemma_same_level_entries(&b, j);
                }
                if let Some(c) = update@[lj] {
                    assert(c != idx);
                }
                assert(a.nodes@[idx as int] == b.nodes@[idx as int]);
                assert forall|j: int| 0 <= j < a.free.len() implies (#[trigger] a.free@[j]) < a.nodes.len()
                    && a.nodes@[a.free@[j] as int] is None by {
                    let f = a.free@[j];
                    if let Some(c) = update@[lj] {
                        assert(b.live(c));
                        assert(f != c);
                    }
                    assert(a.nodes@[f as int] == b.nodes@[f as int]);
                }
            }
            l += 1;
        }
        proof {
            let a = *self;
            assert(o.level_ok(0));
            o.lemma_level_entries(0);
            lemma_rank(o.level_entries(0), key);
            assert(a.lists@[0] == o.lists@[0].insert(rank(o.level_entries(0), key) as int, idx));
            // a node is on a level exactly when it is on the bottom level and reaches that level
            assert forall|lj: int, n: usize| 0 <= lj < MAX_LEVEL implies (#[trigger] a.lists@[lj].contains(n)
                <==> (a.lists@[0].contains(n) && a.height(n) > lj)) by {
                lemma_rank(o.level_entries(0), key);
                lemma_insert_contains(o.lists@[0], rank(o.level_entries(0), key) as int, idx, n);
                assert(o.lists@[lj].contains(n) <==> (o.lists@[0].contains(n) && o.height(n) > lj));
                assert(o.level_ok(lj));
                if o.lists@[0].contains(n) {
                    assert(o.level_ok(0));
                    assert(o.live(n));
                }
                if lj < height {
                    o.lemma_level_entries(lj);
                    lemma_rank(o.level_entries(lj), key);
                    lemma_insert_contains(o.lists@[lj], rank(o.level_entries(lj), key) as int, idx, n);
                } else if n == idx {
                    assert(!o.lists@[lj].contains(idx));
                }
            }
            assert forall|n: usize| #[trigger] a.lists@[0].contains(n) implies a.height(n) <= MAX_LEVEL by {
                lemma_rank(o.level_entries(0), key);
                lemma_insert_contains(o.lists@[0], rank(o.level_entries(0), key) as int, idx, n);
                if n != idx {
                    assert(o.level_ok(0));
                    assert(o.live(n));
                }
            }
            assert forall|lj: int| a.level <= lj < MAX_LEVEL implies (#[trigger] a.lists@[lj]).len() == 0 by {
                assert(a.lists@[lj] == o.lists@[lj]);
            }
            lemma_rank(o.level_entries(0), key);
            assert(a.lists@[0].len() == o.lists@[0].len() + 1);
            assert(a.head.len() == MAX_LEVEL);
            assert(a.lists@.len() == MAX_LEVEL);
            assert(1 <= a.level <= MAX_LEVEL);
            assert(forall|l: int| 0 <= l < MAX_LEVEL ==> #[trigger] a.level_ok(l));
            assert(a.members_ok());
            assert(a.free@.no_duplicates());
            assert(forall|j: int| 0 <= j < a.free.len() ==> (#[trigger] a.free@[j]) < a.nodes.len()
                && a.nodes@[a.free@[j] as int] is None);
            assert(a.len == a.lists@[0].len());
        }
    }
}


impl<V> SkipListMap<u64, V> {
    /// Give node `n`, the node of its key on the bottom level, the value `value`, and take its
    /// old value.
    fn replace_value(&mut self, n: usize, value: V) -> (r: V)
        requires
            old(self).wf_inner(),
            old(self).at(0, old(self).nd(n).key) == Some(n),
        ensures
            final(self).wf_inner(),
            final(self).level_entries(0) == insert_entry(old(self).level_entries(0), old(self).nd(n).key, value),
            r == old(self).nd(n).value,
    {
        let ghost o = *self;
        let ghost key = o.nd(n).key;
        proof {
            o.lemma_level_entries(0);
            assert(o.level_ok(0));
            lemma_rank(o.level_entries(0), key);
            assert(o.live(n));
        }
        let mut slot: Option<Node<u64, V>> = None;
        std::mem::swap(&mut self.nodes[n], &mut slot);
        let r = match slot {
            Some(node) => {
                let mut node = node;
                let mut v = value;
                std::mem::swap(&mut node.value, &mut v);
                self.nodes.set(n, Some(node));
                v
            },
            None => value,
        };
        proof {
            let a = *self;
            assert(a.nd(n).key == key && a.nd(n).value == value && a.nd(n).next == o.nd(n).next);
            assert forall|i: usize| i < o.nodes.len() && i != n implies #[trigger] a.nodes@[i as int] == o.nodes@[i as int] by {}
            // every level keeps its nodes, keys and links
            assert forall|l: int| 0 <= l < MAX_LEVEL implies #[trigger] a.level_ok(l) by {
                assert(o.level_ok(l));
                o.lemma_level_entries(l);
                a.lemma_level_entries(l);
                let sl = o.lists@[l];
                assert forall|p: int| 0 <= p < sl.len() implies (#[trigger] a.level_entries(l)[p]).0
                    == o.level_entries(l)[p].0 by {
                    assert(o.live(sl[p]));
                }
                assert forall|i: int, j: int| 0 <= i < j < sl.len() implies a.level_entries(l)[i].0
                    < a.level_entries(l)[j].0 by {
                    assert(a.level_entries(l)[i].0 == o.level_entries(l)[i].0);
                    assert(a.level_entries(l)[j].0 == o.level_entries(l)[j].0);
                }
                assert forall|p: int| 0 <= p < sl.len() implies a.live(#[trigger] sl[p]) && a.height(sl[p])
                    > l && a.nd(sl[p]).next@[l] == succ_in(sl, p) by {
                    assert(o.live(sl[p]));
                }
            }
            assert forall|l: int, m: usize| 0 <= l < MAX_LEVEL implies (#[trigger] a.lists@[l].contains(m)
                <==> (a.lists@[0].contains(m) && a.height(m) > l)) by {
                assert(o.lists@[l].contains(m) <==> (o.lists@[0].contains(m) && o.height(m) > l));
                if o.lists@[0].contains(m) {
                    assert(o.live(m));
                }
            }
            assert forall|m: usize| #[trigger] a.lists@[0].contains(m) implies a.height(m) <= MAX_LEVEL by {
                assert(o.lists@[0].contains(m));
            }
            assert forall|j: int| 0 <= j < a.free.len() implies (#[trigger] a.free@[j]) < a.nodes.len()
                && a.nodes@[a.free@[j] as int] is None by {
                assert(o.free@[j] != n);
            }
            // the bottom level has the new value in place of the old one
            let es = o.level_entries(0);
            let q = rank(es, key) as int;
            assert(es[q] == o.entry(n));
            o.lemma_level_distinct(0);
            assert(a.level_entries(0) =~= es.update(q, (key, value))) by {
                assert forall|p: int| 0 <= p < es.len() implies a.level_entries(0)[p] == es.update(q, (key, value))[p] by {
                    if p != q {
                        assert(o.lists@[0][p] != n);
                    }
                }
            }
        }
        r
    }

    /// Take node `t`, the node of its key on the bottom level, off every level, free its slot,
    /// and give its value.
    #[verifier::rlimit(40)]
    fn remove_found(&mut self, t: usize, update: &Vec<Option<usize>>) -> (r: V)
        requires
            old(self).wf_inner(),
            old(self).at(0, old(self).nd(t).key) == Some(t),
            update.len() == MAX_LEVEL,
            forall|j: int| 0 <= j < MAX_LEVEL ==> update@[j] == #[trigger] old(self).pred(j, old(self).nd(t).key),
        ensures
            final(self).wf_inner(),
            final(self).level_entries(0) == remove_entry(old(self).level_entries(0), old(self).nd(t).key),
            r == old(self).nd(t).value,
    {
        let ghost o = *self;
        let ghost key = o.nd(t).key;
        proof {
            o.lemma_level_entries(0);
            assert(o.level_ok(0));
            lemma_rank(o.level_entries(0), key);
            assert(o.lists@[0].contains(t));
        }
        let height = self.node_height(t);
        self.len = self.len - 1;
        proof {
            assert forall|j: int, i: usize| 0 <= j < MAX_LEVEL && #[trigger] o.lists@[j].contains(i) implies i
                < self.nodes.len() && self.nodes@[i as int] == o.nodes@[i as int] by {}
            self.lemma_frame(&o);
        }
        let mut l: usize = 0;
        while l < height
            invariant
                l <= height <= MAX_LEVEL,
                o.wf_inner(),
                o.live(t),
                o.lists@[0].contains(t),
                o.height(t) == height,
                key == o.nd(t).key,
                update.len() == MAX_LEVEL,
                forall|j: int| 0 <= j < MAX_LEVEL ==> update@[j] == #[trigger] o.pred(j, key),
                self.head.len() == MAX_LEVEL,
                self.lists@.len() == MAX_LEVEL,
                self.nodes.len() == o.nodes.len(),
                self.nodes@[t as int] == o.nodes@[t as int],
                forall|j: int| 0 <= j < l ==> #[trigger] self.lists@[j] == o.lists@[j].remove(
                    rank(o.level_entries(j), key) as int,
                ) && self.level_entries(j) == remove_entry(o.level_entries(j), key),
                forall|j: int| l <= j < MAX_LEVEL ==> #[trigger] self.lists@[j] == o.lists@[j],
                forall|j: int| 0 <= j < MAX_LEVEL ==> #[trigger] self.level_ok(j),
                forall|i: usize| #[trigger] o.live(i) ==> self.live(i) && self.entry(i) == o.entry(i)
                    && self.height(i) == o.height(i),
                self.free == o.free,
                forall|j: int| 0 <= j < self.free.len() ==> self.nodes@[(#[trigger] self.free@[j]) as int] is None,
                self.level == o.level,
                self.len == o.len - 1,
            decreases height - l,
        {
            let ghost b = *self;
            proof {
                let lj = l as int;
                assert(o.level_ok(lj));
                assert(b.level_ok(lj));
                assert forall|p: int| 0 <= p < o.lists@[lj].len() implies b.entry(#[trigger] o.lists@[lj][p])
                    == o.entry(o.lists@[lj][p]) by {
                    assert(o.live(o.lists@[lj][p]));
                }
                b.lemma_same_level_entries(&o, lj);
                assert(o.lists@[lj].contains(t));
                assert(b.nd(t) == o.nd(t));
                assert(update@[lj] == o.pred(lj, key));
                assert(b.pred(lj, key) == o.pred(lj, key));
            }
            self.unlink_level(l, update[l], t);
            proof {
                let lj = l as int;
                let a = *self;
                assert forall|j: int| 0 <= j < lj implies #[trigger] a.lists@[j] == o.lists@[j].remove(
                    rank(o.level_entries(j), key) as int,
                ) && a.level_entries(j) == remove_entry(o.level_entries(j), key) by {
                    assert(a.lists@[j] == b.lists@[j]);
                    assert(b.level_ok(j));
                    assert forall|p: int| 0 <= p < b.lists@[j].len() implies a.entry(#[trigger] b.lists@[j][p])
                        == b.entry(b.lists@[j][p]) by {
                        assert(b.live(b.lists@[j][p]));
                    }
                    a.lemma_same_level_entries(&b, j);
                }
                // the node before `t` is not `t`
                if let Some(c) = update@[lj] {
                    o.lemma_level_entries(lj);
                    lemma_rank(o.level_entries(lj), key);
                    let q = rank(o.level_entries(lj), key) - 1;
                    assert(o.lists@[lj][q] == c);
                    assert(o.level_entries(lj)[q].0 < key);
                    assert(c != t);
                    assert(b.live(c));
                }
                assert(a.nodes@[t as int] == b.nodes@[t as int]);
                assert forall|j: int| 0 <= j < a.free.len() implies a.nodes@[(#[trigger] a.free@[j]) as int] is None by {
                    let f = a.free@[j];
                    assert(f < o.nodes.len());
                    if let Some(c) = update@[lj] {
                        assert(f != c);
                    }
                }
            }
            l += 1;
        }
        let ghost c = *self;
        proof {
            assert(o.level_ok(0));
            o.lemma_level_entries(0);
            lemma_rank(o.level_entries(0), key);
            // the levels from `o.level` up were empty and still are
            assert forall|j: int| c.level <= j < MAX_LEVEL implies (#[trigger] c.lists@[j]).len() == 0 by {
                if j < height {
                    assert(o.lists@[j].contains(t));
                }
            }
        }
        while self.level > 1 && self.head[self.level - 1].is_none()
            invariant
                1 <= self.level <= MAX_LEVEL,
                self.head == c.head,
                self.lists == c.lists,
                self.nodes == c.nodes,
                self.free == c.free,
                self.len == c.len,
                c.head.len() == MAX_LEVEL,
                c.lists@.len() == MAX_LEVEL,
                forall|j: int| 0 <= j < MAX_LEVEL ==> #[trigger] c.level_ok(j),
                forall|j: int| self.level <= j < MAX_LEVEL ==> (#[trigger] c.lists@[j]).len() == 0,
            decreases self.level,
        {
            proof {
                assert(c.level_ok(self.level - 1));
            }
            self.level = self.level - 1;
        }
        let mut slot: Option<Node<u64, V>> = None;
        std::mem::swap(&mut self.nodes[t], &mut slot);
        self.free.push(t);
        let node = slot.unwrap();
        proof {
            let a = *self;
            // `t` is on no level any more
            assert forall|j: int| 0 <= j < MAX_LEVEL implies !(#[trigger] c.lists@[j]).contains(t) by {
                assert(o.level_ok(j));
                if j < height {
                    assert(o.lists@[j].contains(t));
                    o.lemma_found_at_rank(j, t);
                    lemma_remove_contains(o.lists@[j], rank(o.level_entries(j), key) as int, t);
                } else {
                    assert(o.lists@[j].contains(t) <==> (o.lists@[0].contains(t) && o.height(t) > j));
                }
            }
            assert forall|j: int, i: usize| 0 <= j < MAX_LEVEL && #[trigger] c.lists@[j].contains(i) implies i
                < a.nodes.len() && a.nodes@[i as int] == c.nodes@[i as int] by {
                assert(c.level_ok(j));
                assert(c.live(i));
            }
            a.lemma_frame(&c);
            assert forall|j: int| 0 <= j < MAX_LEVEL implies #[trigger] a.level_ok(j) by {
                assert(c.level_ok(j));
            }
            // a node other than `t` is on a level exactly when it was
            assert forall|j: int, m: usize| 0 <= j < MAX_LEVEL implies (#[trigger] a.lists@[j].contains(m)
                <==> (a.lists@[0].contains(m) && a.height(m) > j)) by {
                assert(!c.lists@[0].contains(t));
                assert(!c.lists@[j].contains(t));
                assert(o.lists@[j].contains(m) <==> (o.lists@[0].contains(m) && o.height(m) > j));
                if m != t {
                    assert(o.level_ok(0));
                    o.lemma_found_at_rank(0, t);
                    lemma_remove_contains(o.lists@[0], rank(o.level_entries(0), key) as int, m);
                    if j < height {
                        assert(o.level_ok(j));
                        assert(o.lists@[j].contains(t));
                        o.lemma_found_at_rank(j, t);
                        lemma_remove_contains(o.lists@[j], rank(o.level_entries(j), key) as int, m);
                    }
                    if o.lists@[0].contains(m) {
                        assert(o.live(m));
                        assert(a.nodes@[m as int] == c.nodes@[m as int]);
                    }
                }
            }
            assert forall|m: usize| #[trigger] a.lists@[0].contains(m) implies a.height(m) <= MAX_LEVEL by {
                assert(o.level_ok(0));
                o.lemma_found_at_rank(0, t);
                lemma_remove_contains(o.lists@[0], rank(o.level_entries(0), key) as int, m);
                assert(o.lists@[0].contains(m));
                assert(o.live(m));
                assert(c.lists@[0].contains(m));
            }
            assert forall|j: int| 0 <= j < a.free.len() implies (#[trigger] a.free@[j]) < a.nodes.len()
                && a.nodes@[a.free@[j] as int] is None by {
                if j < c.free.len() {
                    assert(a.free@[j] == c.free@[j]);
                    assert(o.free@[j] == c.free@[j]);
                    assert(c.free@[j] != t);
                }
            }
            assert(a.free@.no_duplicates()) by {
                assert forall|i: int, j: int| 0 <= i < a.free.len() && 0 <= j < a.free.len() && i != j implies a.free@[i]
                    != a.free@[j] by {
                    if i < c.free.len() && j < c.free.len() {
                        assert(a.free@[i] == c.free@[i] && a.free@[j] == c.free@[j]);
                    } else if i < c.free.len() {
                        assert(c.free@[i] != t);
                    } else {
                        assert(c.free@[j] != t);
                    }
                }
            }
            assert(a.len == a.lists@[0].len());
        }
        node.value
    }
}

impl<V> OrderedMap for SkipListMap<u64, V> {
    type Value = V;

    closed spec fn wf(&self) -> bool {
        self.wf_inner()
    }

    closed spec fn contents(&self) -> Map<u64, V> {
        entries_map(self.level_entries(0))
    }

    fn new() -> (r: Self) {
        Self::with_seed(DEFAULT_SEED)
    }

    fn len(&self) -> (r: usize) {
        proof {
            self.lemma_level_entries(0);
            assert(self.level_ok(0));
            lemma_entries_map(self.level_entries(0));
        }
        self.len
    }

    fn get(&mut self, key: &u64) -> (r: Option<&V>) {
        let (_update, first) = self.find_update(*key);
        proof {
            let es = self.level_entries(0);
            self.lemma_level_entries(0);
            assert(self.level_ok(0));
            lemma_rank(es, *key);
            lemma_entries_map(es);
            assert(map_value(entries_map(es), *key) == lookup(es, *key));
        }
        match first {
            None => None,
            Some(n) => match &self.nodes[n] {
                Some(node) => {
                    if node.key == *key {
                        Some(&node.value)
                    } else {
                        None
                    }
                },
                None => None,
            },
        }
    }

    fn insert(&mut self, key: u64, value: V) -> (r: Option<V>) {
        let ghost o = *self;
        proof {
            o.lemma_level_entries(0);
            assert(o.level_ok(0));
            lemma_rank(o.level_entries(0), key);
            lemma_entries_map(o.level_entries(0));
            lemma_entries_map_insert(o.level_entries(0), key, value);
            assert(map_value(entries_map(o.level_entries(0)), key) == lookup(o.level_entries(0), key));
        }
        let (update, first) = self.find_update(key);
        if let Some(n) = first {
            if self.node_key(n) == key {
                let old = self.replace_value(n, value);
                return Some(old);
            }
        }
        self.insert_new(key, value, &update);
        None
    }

    fn remove(&mut self, key: &u64) -> (r: Option<V>) {
        let ghost o = *self;
        proof {
            o.lemma_level_entries(0);
            assert(o.level_ok(0));
            lemma_rank(o.level_entries(0), *key);
            lemma_entries_map(o.level_entries(0));
            lemma_entries_map_remove(o.level_entries(0), *key);
            assert(map_value(entries_map(o.level_entries(0)), *key) == lookup(o.level_entries(0), *key));
        }
        let (update, first) = self.find_update(*key);
        match first {
            None => None,
            Some(t) => {
                if self.node_key(t) == *key {
                    let v = self.remove_found(t, &update);
                    Some(v)
                } else {
                    None
                }
            },
        }
    }

    fn lower_bound(&mut self, key: &u64) -> (r: Option<(&u64, &V)>) {
        let (_update, first) = self.find_update(*key);
        proof {
            let es = self.level_entries(0);
            self.lemma_level_entries(0);
            assert(self.level_ok(0));
            lemma_rank(es, *key);
            lemma_entries_map_lower_bound(es, *key);
        }
        match first {
            None => None,
            Some(n) => match &self.nodes[n] {
                Some(node) => Some((&node.key, &node.value)),
                None => None,
            },
        }
    }
}

} // verus!
