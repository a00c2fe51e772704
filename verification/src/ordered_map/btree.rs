//! A B-tree of minimum degree `T`: every node but the root holds at least `T - 1` keys, and all
//! leaves lie at the same depth.

use vstd::prelude::*;

use crate::ordered_map::{
    OrderedMap, entries_map, has_key, insert_entry, keys_sorted, lemma_entries_map,
    lemma_entries_map_empty, lemma_entries_map_insert, lemma_entries_map_lower_bound,
    lemma_entries_map_remove, lemma_insert_sorted, lemma_parts_here, lemma_parts_left,
    lemma_parts_right, lemma_parts_sorted, lemma_remove_sorted, lookup, lower_bound_entry,
    remove_entry,
};

verus! {

/// The blocks `cs` with the separators `ks` between them: `cs[0], ks[0], cs[1], ..., cs[m]`.
pub open spec fn interleave<E>(cs: Seq<Seq<E>>, ks: Seq<E>) -> Seq<E>
    decreases cs.len(),
{
    if cs.len() == 0 {
        Seq::empty()
    } else if cs.len() == 1 {
        cs[0]
    } else {
        interleave(cs.drop_last(), ks.drop_last()) + seq![ks.last()] + cs.last()
    }
}

/// Interleaving two runs joined by a separator joins their interleavings by it.
pub proof fn lemma_interleave_concat<E>(c1: Seq<Seq<E>>, k1: Seq<E>, k: E, c2: Seq<Seq<E>>, k2: Seq<E>)
    requires
        c1.len() == k1.len() + 1,
        c2.len() == k2.len() + 1,
    ensures
        interleave(c1 + c2, k1 + seq![k] + k2) == interleave(c1, k1) + seq![k] + interleave(c2, k2),
    decreases c2.len(),
{
    let cs = c1 + c2;
    let ks = k1 + seq![k] + k2;
    if c2.len() == 1 {
        assert(cs.drop_last() =~= c1);
        assert(ks.drop_last() =~= k1);
        assert(cs.last() == c2[0]);
    } else {
        lemma_interleave_concat(c1, k1, k, c2.drop_last(), k2.drop_last());
        assert(cs.drop_last() =~= c1 + c2.drop_last());
        assert(ks.drop_last() =~= k1 + seq![k] + k2.drop_last());
        assert(cs.last() == c2.last());
        assert(ks.last() == k2.last());
        assert(interleave(c1, k1) + seq![k] + interleave(c2.drop_last(), k2.drop_last()) + seq![k2.last()]
            + c2.last() =~= interleave(c1, k1) + seq![k] + (interleave(c2.drop_last(), k2.drop_last())
            + seq![k2.last()] + c2.last()));
    }
}

/// The blocks up to and with block `i`, interleaved.
pub open spec fn upto<E>(cs: Seq<Seq<E>>, ks: Seq<E>, i: int) -> Seq<E> {
    interleave(cs.take(i + 1), ks.take(i))
}

/// The blocks after block `i`, interleaved.
pub open spec fn from<E>(cs: Seq<Seq<E>>, ks: Seq<E>, i: int) -> Seq<E> {
    interleave(cs.skip(i + 1), ks.skip(i + 1))
}

/// What comes before block `i`.
pub open spec fn before<E>(cs: Seq<Seq<E>>, ks: Seq<E>, i: int) -> Seq<E> {
    if i == 0 {
        Seq::empty()
    } else {
        upto(cs, ks, i - 1) + seq![ks[i - 1]]
    }
}

/// What comes after block `i`.
pub open spec fn after<E>(cs: Seq<Seq<E>>, ks: Seq<E>, i: int) -> Seq<E> {
    if i == ks.len() {
        Seq::empty()
    } else {
        seq![ks[i]] + from(cs, ks, i)
    }
}

/// The interleaving around separator `i`.
pub proof fn lemma_at_sep<E>(cs: Seq<Seq<E>>, ks: Seq<E>, i: int)
    requires
        cs.len() == ks.len() + 1,
        0 <= i < ks.len(),
    ensures
        interleave(cs, ks) == upto(cs, ks, i) + seq![ks[i]] + from(cs, ks, i),
{
    lemma_interleave_concat(cs.take(i + 1), ks.take(i), ks[i], cs.skip(i + 1), ks.skip(i + 1));
    assert(cs.take(i + 1) + cs.skip(i + 1) =~= cs);
    assert(ks.take(i) + seq![ks[i]] + ks.skip(i + 1) =~= ks);
}

/// The interleaving up to block `i` ends with block `i`.
pub proof fn lemma_upto<E>(cs: Seq<Seq<E>>, ks: Seq<E>, i: int)
    requires
        cs.len() == ks.len() + 1,
        0 <= i < cs.len(),
    ensures
        upto(cs, ks, i) == before(cs, ks, i) + cs[i],
{
    if i > 0 {
        lemma_interleave_concat(cs.take(i), ks.take(i - 1), ks[i - 1], seq![cs[i]], Seq::empty());
        assert(cs.take(i) + seq![cs[i]] =~= cs.take(i + 1));
        assert(ks.take(i - 1) + seq![ks[i - 1]] + Seq::<E>::empty() =~= ks.take(i));
        assert(cs.take(i).take(i) =~= cs.take(i));
        assert(upto(cs, ks, i - 1) =~= interleave(cs.take(i), ks.take(i - 1)));
    } else {
        assert(cs.take(1) =~= seq![cs[0]]);
    }
}

/// The interleaving around block `i`.
pub proof fn lemma_at_block<E>(cs: Seq<Seq<E>>, ks: Seq<E>, i: int)
    requires
        cs.len() == ks.len() + 1,
        0 <= i < cs.len(),
    ensures
        interleave(cs, ks) == before(cs, ks, i) + cs[i] + after(cs, ks, i),
{
    lemma_upto(cs, ks, i);
    if i < ks.len() {
        lemma_at_sep(cs, ks, i);
        assert(before(cs, ks, i) + cs[i] + (seq![ks[i]] + from(cs, ks, i)) =~= upto(cs, ks, i) + seq![ks[i]]
            + from(cs, ks, i));
    } else {
        assert(cs.take(i + 1) =~= cs);
        assert(ks.take(i) =~= ks);
        assert(before(cs, ks, i) + cs[i] + Seq::<E>::empty() =~= before(cs, ks, i) + cs[i]);
    }
}

/// What comes before and after block `i` does not depend on block `i`, on separator `i`
/// (before) or on separator `i - 1` (after), nor on blocks and separators on the other side.
pub proof fn lemma_frame_block<E>(cs: Seq<Seq<E>>, ks: Seq<E>, cs2: Seq<Seq<E>>, ks2: Seq<E>, i: int)
    requires
        cs.len() == ks.len() + 1,
        cs2.len() == ks2.len() + 1,
        0 <= i < cs.len(),
        0 <= i < cs2.len(),
    ensures
        cs2.take(i) == cs.take(i) && ks2.take(i) == ks.take(i) ==> before(cs2, ks2, i) == before(cs, ks, i),
        cs2.len() == cs.len() && cs2.skip(i + 1) == cs.skip(i + 1) && ks2.skip(i) == ks.skip(i) ==> after(cs2, ks2, i)
            == after(cs, ks, i),
{
    if cs2.take(i) == cs.take(i) && ks2.take(i) == ks.take(i) && i > 0 {
        assert(cs2.take(i) =~= cs2.take(i - 1 + 1));
        assert(ks2.take(i - 1) =~= ks.take(i).take(i - 1));
        assert(ks.take(i - 1) =~= ks.take(i).take(i - 1));
        assert(ks2[i - 1] == ks2.take(i)[i - 1]);
        assert(ks[i - 1] == ks.take(i)[i - 1]);
    }
    if cs2.len() == cs.len() && cs2.skip(i + 1) == cs.skip(i + 1) && ks2.skip(i) == ks.skip(i) && i < ks.len() {
        assert(ks2.skip(i + 1) =~= ks2.skip(i).skip(1));
        assert(ks.skip(i + 1) =~= ks.skip(i).skip(1));
        assert(ks2[i] == ks2.skip(i)[0]);
        assert(ks[i] == ks.skip(i)[0]);
    }
}

/// Splitting block `i` in two around a separator keeps the interleaving.
pub proof fn lemma_split_block<E>(cs: Seq<Seq<E>>, ks: Seq<E>, i: int, a: Seq<E>, k: E, b: Seq<E>)
    requires
        cs.len() == ks.len() + 1,
        0 <= i < cs.len(),
        cs[i] == a + seq![k] + b,
    ensures
        interleave(cs.take(i) + seq![a, b] + cs.skip(i + 1), ks.take(i) + seq![k] + ks.skip(i)) == interleave(cs, ks),
{
    let c1 = cs.take(i) + seq![a];
    let c2 = seq![b] + cs.skip(i + 1);
    lemma_interleave_concat(c1, ks.take(i), k, c2, ks.skip(i));
    assert(c1 + c2 =~= cs.take(i) + seq![a, b] + cs.skip(i + 1));
    let ca = cs.update(i, a);
    let cb = cs.update(i, b);
    // the part before the separator
    lemma_upto(ca, ks, i);
    assert(ca.take(i + 1) =~= c1);
    lemma_frame_block(cs, ks, ca, ks, i);
    assert(ca.take(i) =~= cs.take(i));
    // the part after the separator
    lemma_at_block(cs, ks, i);
    if i < ks.len() {
        lemma_interleave_concat(seq![b], Seq::empty(), ks[i], cs.skip(i + 1), ks.skip(i + 1));
        assert(seq![b] + cs.skip(i + 1) =~= c2);
        assert(Seq::<E>::empty() + seq![ks[i]] + ks.skip(i + 1) =~= ks.skip(i));
        assert(interleave(c2, ks.skip(i)) =~= b + after(cs, ks, i));
    } else {
        assert(c2 =~= seq![b]);
        assert(interleave(c2, ks.skip(i)) =~= b + after(cs, ks, i));
    }
    assert(interleave(c1, ks.take(i)) == before(cs, ks, i) + a);
    assert(before(cs, ks, i) + a + seq![k] + (b + after(cs, ks, i)) =~= before(cs, ks, i) + cs[i] + after(cs, ks, i));
}

/// In sorted entries `a + b + c`, where `a` is empty or ends below `k` and `c` is empty or starts
/// above `k`, what concerns `k` is in `b`.
pub proof fn lemma_gap<V>(a: Seq<(u64, V)>, b: Seq<(u64, V)>, c: Seq<(u64, V)>, k: u64, v: V)
    requires
        keys_sorted(a + b + c),
        a.len() > 0 ==> a.last().0 < k,
        c.len() > 0 ==> k < c[0].0,
    ensures
        has_key(a + b + c, k) == has_key(b, k),
        lookup(a + b + c, k) == lookup(b, k),
        insert_entry(a + b + c, k, v) == a + insert_entry(b, k, v) + c,
        remove_entry(a + b + c, k) == a + remove_entry(b, k) + c,
        lower_bound_entry(a + b + c, k) == (if lower_bound_entry(b, k) is Some {
            lower_bound_entry(b, k)
        } else if c.len() > 0 {
            Some(c[0])
        } else {
            None
        }),
{
    let s = a + b + c;
    // strip `c`
    let ab = a + b;
    if c.len() > 0 {
        let y = c[0];
        let c2 = c.drop_first();
        assert(ab + seq![y] + c2 =~= s);
        lemma_parts_sorted(ab, y, c2);
        lemma_parts_left(ab, y, c2, k, v);
    } else {
        assert(ab =~= s);
    }
    assert(keys_sorted(ab)) by {
        assert forall|i: int, j: int| 0 <= i < j < ab.len() implies ab[i].0 < ab[j].0 by {
            assert(ab[i] == s[i] && ab[j] == s[j]);
        }
    }
    // strip `a`
    if a.len() > 0 {
        let x = a.last();
        let a2 = a.drop_last();
        assert(a2 + seq![x] + b =~= ab);
        lemma_parts_sorted(a2, x, b);
        lemma_parts_right(a2, x, b, k, v);
        assert(a2 + seq![x] + insert_entry(b, k, v) =~= a + insert_entry(b, k, v));
        assert(a2 + seq![x] + remove_entry(b, k) =~= a + remove_entry(b, k));
    } else {
        assert(ab =~= b);
    }
    if c.len() > 0 {
        let y = c[0];
        let c2 = c.drop_first();
        assert(insert_entry(ab, k, v) + seq![y] + c2 =~= insert_entry(ab, k, v) + c);
        assert(remove_entry(ab, k) + seq![y] + c2 =~= remove_entry(ab, k) + c);
    } else {
        assert(insert_entry(ab, k, v) + c =~= insert_entry(ab, k, v));
        assert(remove_entry(ab, k) + c =~= remove_entry(ab, k));
    }
}

/// In sorted entries `a + [x] + c`, what concerns the key of `x` is `x`.
pub proof fn lemma_here<V>(a: Seq<(u64, V)>, x: (u64, V), c: Seq<(u64, V)>, v: V)
    requires
        keys_sorted(a + seq![x] + c),
    ensures
        has_key(a + seq![x] + c, x.0),
        lookup(a + seq![x] + c, x.0) == Some(x.1),
        insert_entry(a + seq![x] + c, x.0, v) == a + seq![(x.0, v)] + c,
        remove_entry(a + seq![x] + c, x.0) == a + c,
        lower_bound_entry(a + seq![x] + c, x.0) == Some(x),
{
    lemma_parts_sorted(a, x, c);
    lemma_parts_here(a, x, c, v);
}

/// A run inside sorted entries is sorted.
pub proof fn lemma_sorted_mid<V>(a: Seq<(u64, V)>, b: Seq<(u64, V)>, c: Seq<(u64, V)>)
    requires
        keys_sorted(a + b + c),
    ensures
        keys_sorted(b),
{
    let s = a + b + c;
    assert forall|i: int, j: int| 0 <= i < j < b.len() implies b[i].0 < b[j].0 by {
        assert(b[i] == s[a.len() + i] && b[j] == s[a.len() + j]);
    }
}


/// Minimum degree of the trees of `BTreeMapCustom`.
const MIN_DEGREE_CUSTOM: usize = 32;

struct Node<K, V, const T: usize> {
    keys: Vec<K>,
    values: Vec<V>,
    children: Vec<Box<Node<K, V, T>>>,
}

impl<V, const T: usize> Node<u64, V, T> {
    /// The degree keeps the arithmetic on key counts in range.
    spec fn degree_ok() -> bool {
        2 <= T <= 0x4000_0000
    }

    /// The entries of the node itself, in order.
    spec fn pairs(&self) -> Seq<(u64, V)> {
        Seq::new(self.keys@.len(), |i: int| (self.keys@[i], self.values@[i]))
    }

    /// The entries under each child, for a node at height `h`.
    spec fn blocks(&self, h: nat) -> Seq<Seq<(u64, V)>>
        decreases h, 0nat,
    {
        if h == 0 {
            Seq::empty()
        } else {
            Seq::new(self.children@.len(), |i: int| self.children@[i].ents((h - 1) as nat))
        }
    }

    /// The entries under the node, in order, for a node at height `h`.
    spec fn ents(&self, h: nat) -> Seq<(u64, V)>
        decreases h, 1nat,
    {
        if h == 0 {
            self.pairs()
        } else {
            interleave(self.blocks(h), self.pairs())
        }
    }

    /// The node is at height `h`: its leaves are `h` levels down, every child holds at least
    /// `T - 1` keys, and the entries under it are sorted.
    spec fn wf(&self, h: nat) -> bool
        decreases h,
    {
        &&& self.values@.len() == self.keys@.len()
        &&& keys_sorted(self.ents(h))
        &&& if h == 0 {
            self.children@.len() == 0
        } else {
            &&& self.children@.len() == self.keys@.len() + 1
            &&& forall|i: int| 0 <= i < self.children@.len() ==> (#[trigger] self.children@[i]).wf((h - 1) as nat)
                && self.children@[i].keys@.len() + 1 >= T
        }
    }

    /// The entries under an inner node interleave those under its children with its own.
    proof fn lemma_inner(&self, h: nat)
        requires
            h > 0,
        ensures
            self.ents(h) == interleave(self.blocks(h), self.pairs()),
            self.blocks(h).len() == self.children@.len(),
            forall|i: int| 0 <= i < self.children@.len() ==> #[trigger] self.blocks(h)[i] == self.children@[i].ents(
                (h - 1) as nat,
            ),
    {
    }

    /// The entries under the node around its own entry `i`.
    proof fn lemma_key_at(&self, h: nat, i: int)
        requires
            self.wf(h),
            0 <= i < self.keys@.len(),
        ensures
            self.ents(h) == (if h == 0 {
                self.pairs().take(i)
            } else {
                upto(self.blocks(h), self.pairs(), i)
            }) + seq![self.pairs()[i]] + (if h == 0 {
                self.pairs().skip(i + 1)
            } else {
                from(self.blocks(h), self.pairs(), i)
            }),
    {
        if h == 0 {
            assert(self.pairs().take(i) + seq![self.pairs()[i]] + self.pairs().skip(i + 1) =~= self.pairs());
        } else {
            self.lemma_inner(h);
            lemma_at_sep(self.blocks(h), self.pairs(), i);
        }
    }

    /// A key strictly between the node's keys `i - 1` and `i` is looked for under child `i`, or
    /// in no entry when the node is a leaf.
    proof fn lemma_gap_at(&self, h: nat, i: int, k: u64, v: V)
        requires
            self.wf(h),
            0 <= i <= self.keys@.len(),
            i > 0 ==> self.keys@[i - 1] < k,
            i < self.keys@.len() ==> k < self.keys@[i],
        ensures
            h == 0 ==> {
                &&& !has_key(self.ents(h), k)
                &&& lookup(self.ents(h), k) is None
                &&& insert_entry(self.ents(h), k, v) == self.pairs().insert(i, (k, v))
                &&& remove_entry(self.ents(h), k) == self.ents(h)
                &&& lower_bound_entry(self.ents(h), k) == (if i < self.keys@.len() {
                    Some(self.pairs()[i])
                } else {
                    None
                })
            },
            h > 0 ==> {
                let a = before(self.blocks(h), self.pairs(), i);
                let b = self.blocks(h)[i];
                let c = after(self.blocks(h), self.pairs(), i);
                &&& self.ents(h) == a + b + c
                &&& has_key(self.ents(h), k) == has_key(b, k)
                &&& lookup(self.ents(h), k) == lookup(b, k)
                &&& insert_entry(self.ents(h), k, v) == a + insert_entry(b, k, v) + c
                &&& remove_entry(self.ents(h), k) == a + remove_entry(b, k) + c
                &&& lower_bound_entry(self.ents(h), k) == (if lower_bound_entry(b, k) is Some {
                    lower_bound_entry(b, k)
                } else if i < self.keys@.len() {
                    Some(self.pairs()[i])
                } else {
                    None
                })
            },
    {
        let ps = self.pairs();
        if h == 0 {
            let a = ps.take(i);
            let c = ps.skip(i);
            assert(a + Seq::<(u64, V)>::empty() + c =~= ps);
            lemma_gap(a, Seq::<(u64, V)>::empty(), c, k, v);
            assert(insert_entry(Seq::<(u64, V)>::empty(), k, v) =~= seq![(k, v)]);
            assert(a + seq![(k, v)] + c =~= ps.insert(i, (k, v)));
        } else {
            let cs = self.blocks(h);
            self.lemma_inner(h);
            lemma_at_block(cs, ps, i);
            lemma_gap(before(cs, ps, i), cs[i], after(cs, ps, i), k, v);
        }
    }

    fn new_leaf(keys: Vec<u64>, values: Vec<V>) -> (r: Self)
        ensures
            r.keys == keys,
            r.values == values,
            r.children@.len() == 0,
    {
        Self { keys, values, children: Vec::new() }
    }

    fn new_internal(keys: Vec<u64>, values: Vec<V>, children: Vec<Box<Self>>) -> (r: Self)
        ensures
            r.keys == keys,
            r.values == values,
            r.children == children,
    {
        Self { keys, values, children }
    }

    fn is_leaf(&self) -> (r: bool)
        ensures
            r == (self.children@.len() == 0),
    {
        self.children.len() == 0
    }

    fn is_full(&self) -> (r: bool)
        requires
            Self::degree_ok(),
        ensures
            r == (self.keys@.len() + 1 == 2 * T),
    {
        self.keys.len() == 2 * T - 1
    }

    /// Where `key` is among the node's keys (`Ok`), or the number of keys below it (`Err`).
    fn find_index(&self, key: &u64) -> (r: Result<usize, usize>)
        ensures
            match r {
                Ok(i) => i < self.keys@.len() && self.keys@[i as int] == *key,
                Err(i) => i <= self.keys@.len() && (i > 0 ==> self.keys@[i - 1] < *key) && (i
                    < self.keys@.len() ==> *key < self.keys@[i as int]),
            },
    {
        let mut lo: usize = 0;
        let mut hi: usize = self.keys.len();
        while lo < hi
            invariant
                lo <= hi <= self.keys@.len(),
                lo > 0 ==> self.keys@[lo - 1] < *key,
                hi < self.keys@.len() ==> *key < self.keys@[hi as int],
            decreases hi - lo,
        {
            let mid = lo + (hi - lo) / 2;
            if self.keys[mid] < *key {
                lo = mid + 1;
            } else if *key < self.keys[mid] {
                hi = mid;
            } else {
                return Ok(mid);
            }
        }
        Err(lo)
    }

    fn get(&self, Ghost(h): Ghost<nat>, key: &u64) -> (r: Option<&V>)
        requires
            self.wf(h),
        ensures
            (r is Some) == has_key(self.ents(h), *key),
            r matches Some(v) ==> lookup(self.ents(h), *key) == Some(*v),
        decreases h,
    {
        match self.find_index(key) {
            Ok(i) => {
                proof {
                    self.lemma_key_at(h, i as int);
                    lemma_here(
                        if h == 0 { self.pairs().take(i as int) } else { upto(self.blocks(h), self.pairs(), i as int) },
                        self.pairs()[i as int],
                        if h == 0 { self.pairs().skip(i + 1) } else { from(self.blocks(h), self.pairs(), i as int) },
                        self.values@[i as int],
                    );
                }
                Some(&self.values[i])
            },
            Err(i) => {
                proof {
                    self.lemma_gap_at(h, i as int, *key, arbitrary());
                }
                if self.is_leaf() {
                    None
                } else {
                    proof {
                        assert(self.children@[i as int].wf((h - 1) as nat));
                    }
                    self.children[i].get(Ghost((h - 1) as nat), key)
                }
            },
        }
    }

    fn lower_bound(&self, Ghost(h): Ghost<nat>, key: &u64) -> (r: Option<(&u64, &V)>)
        requires
            self.wf(h),
        ensures
            r matches Some((k, v)) ==> lower_bound_entry(self.ents(h), *key) == Some((*k, *v)),
            r is None <==> lower_bound_entry(self.ents(h), *key) is None,
        decreases h,
    {
        match self.find_index(key) {
            Ok(i) => {
                proof {
                    self.lemma_key_at(h, i as int);
                    lemma_here(
                        if h == 0 { self.pairs().take(i as int) } else { upto(self.blocks(h), self.pairs(), i as int) },
                        self.pairs()[i as int],
                        if h == 0 { self.pairs().skip(i + 1) } else { from(self.blocks(h), self.pairs(), i as int) },
                        self.values@[i as int],
                    );
                }
                Some((&self.keys[i], &self.values[i]))
            },
            Err(i) => {
                proof {
                    self.lemma_gap_at(h, i as int, *key, arbitrary());
                }
                if self.is_leaf() {
                    if i < self.keys.len() {
                        Some((&self.keys[i], &self.values[i]))
                    } else {
                        None
                    }
                } else {
                    proof {
                        assert(self.children@[i as int].wf((h - 1) as nat));
                    }
                    if let Some(ans) = self.children[i].lower_bound(Ghost((h - 1) as nat), key) {
                        return Some(ans);
                    }
                    if i < self.keys.len() {
                        Some((&self.keys[i], &self.values[i]))
                    } else {
                        None
                    }
                }
            },
        }
    }
}


impl<V, const T: usize> Node<u64, V, T> {
    /// With only child `i` changed, the entries change only in the block of child `i`.
    proof fn lemma_child_changed(&self, o: &Self, h: nat, i: int)
        requires
            h > 0,
            self.keys@ == o.keys@,
            self.values@ == o.values@,
            o.values@.len() == o.keys@.len(),
            self.children@.len() == o.children@.len(),
            o.children@.len() == o.keys@.len() + 1,
            0 <= i < o.children@.len(),
            forall|j: int| 0 <= j < o.children@.len() && j != i ==> self.children@[j] == o.children@[j],
        ensures
            self.blocks(h) == o.blocks(h).update(i, self.children@[i].ents((h - 1) as nat)),
            self.ents(h) == before(o.blocks(h), o.pairs(), i) + self.children@[i].ents((h - 1) as nat) + after(
                o.blocks(h),
                o.pairs(),
                i,
            ),
    {
        let ob = o.blocks(h);
        let nb = self.blocks(h);
        assert(nb =~= ob.update(i, self.children@[i].ents((h - 1) as nat)));
        assert(self.pairs() =~= o.pairs());
        lemma_at_block(nb, self.pairs(), i);
        lemma_frame_block(ob, o.pairs(), nb, self.pairs(), i);
        assert(nb.take(i) =~= ob.take(i));
        assert(nb.skip(i + 1) =~= ob.skip(i + 1));
    }

    /// Changing only child `i` into a well-formed child with enough keys, the entries staying
    /// sorted, keeps the node well formed.
    proof fn lemma_child_changed_wf(&self, o: &Self, h: nat, i: int)
        requires
            h > 0,
            o.wf(h),
            self.keys@ == o.keys@,
            self.values@ == o.values@,
            self.children@.len() == o.children@.len(),
            0 <= i < o.children@.len(),
            forall|j: int| 0 <= j < o.children@.len() && j != i ==> self.children@[j] == o.children@[j],
            self.children@[i].wf((h - 1) as nat),
            self.children@[i].keys@.len() + 1 >= T,
            keys_sorted(self.ents(h)),
        ensures
            self.wf(h),
    {
        assert forall|j: int| 0 <= j < self.children@.len() implies (#[trigger] self.children@[j]).wf((h - 1) as nat)
            && self.children@[j].keys@.len() + 1 >= T by {
            if j != i {
                assert(o.children@[j].wf((h - 1) as nat));
            }
        }
    }

    /// The halves of a full node around its middle entry.
    proof fn lemma_halves(y0: Self, yn: Self, zn: Self, hy: nat)
        requires
            Self::degree_ok(),
            y0.wf(hy),
            y0.keys@.len() + 1 == 2 * T,
            yn.keys@ == y0.keys@.subrange(0, T - 1),
            zn.keys@ == y0.keys@.subrange(T as int, 2 * T - 1),
            yn.values@ == y0.values@.subrange(0, T - 1),
            zn.values@ == y0.values@.subrange(T as int, 2 * T - 1),
            hy == 0 ==> yn.children@.len() == 0 && zn.children@.len() == 0,
            hy > 0 ==> yn.children@ == y0.children@.subrange(0, T as int) && zn.children@ == y0.children@.subrange(
                T as int,
                2 * T,
            ),
        ensures
            y0.ents(hy) == yn.ents(hy) + seq![y0.pairs()[T - 1]] + zn.ents(hy),
            yn.wf(hy),
            zn.wf(hy),
            yn.keys@.len() + 1 == T,
            zn.keys@.len() + 1 == T,
    {
        let m = y0.pairs()[T - 1];
        let t = T as int;
        if hy == 0 {
            assert(yn.pairs() =~= y0.pairs().take(t - 1));
            assert(zn.pairs() =~= y0.pairs().skip(t));
            assert(y0.pairs() =~= y0.pairs().take(t - 1) + seq![m] + y0.pairs().skip(t));
        } else {
            y0.lemma_inner(hy);
            yn.lemma_inner(hy);
            zn.lemma_inner(hy);
            let b = y0.blocks(hy);
            let p = y0.pairs();
            assert(yn.blocks(hy) =~= b.take(t));
            assert(zn.blocks(hy) =~= b.skip(t));
            assert(yn.pairs() =~= p.take(t - 1));
            assert(zn.pairs() =~= p.skip(t));
            lemma_interleave_concat(b.take(t), p.take(t - 1), m, b.skip(t), p.skip(t));
            assert(b.take(t) + b.skip(t) =~= b);
            assert(p.take(t - 1) + seq![m] + p.skip(t) =~= p);
        }
        let ey = yn.ents(hy);
        let ez = zn.ents(hy);
        lemma_parts_sorted(ey, m, ez);
        if hy > 0 {
            assert forall|j: int| 0 <= j < yn.children@.len() implies (#[trigger] yn.children@[j]).wf((hy - 1) as nat)
                && yn.children@[j].keys@.len() + 1 >= T by {
                assert(yn.children@[j] == y0.children@[j]);
            }
            assert forall|j: int| 0 <= j < zn.children@.len() implies (#[trigger] zn.children@[j]).wf((hy - 1) as nat)
                && zn.children@[j].keys@.len() + 1 >= T by {
                assert(zn.children@[j] == y0.children@[j + t]);
            }
        }
    }

    /// Child `i` of a node, split in two halves around the entry moving up, keeps the entries.
    proof fn lemma_split_parent(&self, o: &Self, h: nat, i: int, yn: Self, m: (u64, V), zn: Self)
        requires
            o.wf(h),
            h > 0,
            0 <= i < o.children@.len(),
            o.children@[i].ents((h - 1) as nat) == yn.ents((h - 1) as nat) + seq![m] + zn.ents((h - 1) as nat),
            yn.wf((h - 1) as nat),
            zn.wf((h - 1) as nat),
            yn.keys@.len() + 1 >= T,
            zn.keys@.len() + 1 >= T,
            self.keys@ == o.keys@.insert(i, m.0),
            self.values@ == o.values@.insert(i, m.1),
            self.children@.len() == o.children@.len() + 1,
            forall|j: int| 0 <= j < i ==> self.children@[j] == o.children@[j],
            *self.children@[i] == yn,
            *self.children@[i + 1] == zn,
            forall|j: int| i + 1 < j < self.children@.len() ==> self.children@[j] == o.children@[j - 1],
        ensures
            self.wf(h),
            self.ents(h) == o.ents(h),
    {
        o.lemma_inner(h);
        self.lemma_inner(h);
        let ob = o.blocks(h);
        let op = o.pairs();
        let ey = yn.ents((h - 1) as nat);
        let ez = zn.ents((h - 1) as nat);
        assert(self.blocks(h) =~= ob.take(i) + seq![ey, ez] + ob.skip(i + 1)) by {
            assert forall|j: int| 0 <= j < self.children@.len() implies #[trigger] self.blocks(h)[j] == (ob.take(i)
                + seq![ey, ez] + ob.skip(i + 1))[j] by {
                if j < i {
                    assert(self.children@[j] == o.children@[j]);
                } else if j > i + 1 {
                    assert(self.children@[j] == o.children@[j - 1]);
                }
            }
        }
        assert(self.pairs() =~= op.take(i) + seq![m] + op.skip(i));
        lemma_split_block(ob, op, i, ey, m, ez);
        assert forall|j: int| 0 <= j < self.children@.len() implies (#[trigger] self.children@[j]).wf((h - 1) as nat)
            && self.children@[j].keys@.len() + 1 >= T by {
            if j < i {
                assert(self.children@[j] == o.children@[j]);
                assert(o.children@[j].wf((h - 1) as nat));
            } else if j > i + 1 {
                assert(self.children@[j] == o.children@[j - 1]);
                assert(o.children@[j - 1].wf((h - 1) as nat));
            }
        }
    }

    /// Split the full child `i` around its middle entry, which moves up into the node.
    fn split_child(&mut self, Ghost(h): Ghost<nat>, i: usize)
        requires
            Self::degree_ok(),
            old(self).wf(h),
            h > 0,
            i < old(self).children@.len(),
            old(self).children@[i as int].keys@.len() + 1 == 2 * T,
        ensures
            final(self).wf(h),
            final(self).ents(h) == old(self).ents(h),
            final(self).keys@ == old(self).keys@.insert(i as int, final(self).keys@[i as int]),
    {
        let ghost o = *self;
        let ghost hy = (h - 1) as nat;
        proof {
            assert(o.children@[i as int].wf(hy));
        }
        let mut y = self.children.remove(i);
        let ghost y0 = *y;
        let z_keys = y.keys.split_off(T);
        let median_key = y.keys.pop().expect("full child");
        let z_vals = y.values.split_off(T);
        let median_val = y.values.pop().expect("full child");
        let z_children = if y.is_leaf() {
            Vec::new()
        } else {
            y.children.split_off(T)
        };
        let z = Box::new(Node::new_internal(z_keys, z_vals, z_children));
        proof {
            assert(y.keys@ =~= y0.keys@.subrange(0, T - 1));
            assert(y.values@ =~= y0.values@.subrange(0, T - 1));
            if hy > 0 {
                assert(y0.children@.len() > 0);
            }
            Self::lemma_halves(y0, *y, *z, hy);
        }
        let ghost m = (median_key, median_val);
        self.keys.insert(i, median_key);
        self.values.insert(i, median_val);
        self.children.insert(i, y);
        proof {
            assert(i < self.children.len());
        }
        self.children.insert(i + 1, z);
        proof {
            assert(m == y0.pairs()[T - 1]);
            self.lemma_split_parent(&o, h, i as int, *self.children@[i as int], m, *self.children@[i + 1]);
        }
    }

    /// Put `(key, value)` in under the node, splitting the full children met on the way down;
    /// give the old value of `key`, and whether `key` is new.
    #[verifier::rlimit(40)]
    fn insert_non_full(&mut self, Ghost(h): Ghost<nat>, key: u64, value: V) -> (r: (Option<V>, bool))
        requires
            Self::degree_ok(),
            old(self).wf(h),
        ensures
            final(self).wf(h),
            final(self).ents(h) == insert_entry(old(self).ents(h), key, value),
            r.0 == lookup(old(self).ents(h), key),
            r.1 == !has_key(old(self).ents(h), key),
            final(self).keys@.len() >= old(self).keys@.len(),
        decreases h,
    {
        let ghost o = *self;
        match self.find_index(&key) {
            Ok(i) => {
                let ghost p = self.pairs();
                let mut old_value = value;
                std::mem::swap(&mut self.values[i], &mut old_value);
                proof {
                    self.lemma_replace_value(&o, h, i as int);
                }
                (Some(old_value), false)
            },
            Err(i) => {
                if self.is_leaf() {
                    proof {
                        o.lemma_gap_at(h, i as int, key, value);
                    }
                    self.keys.insert(i, key);
                    self.values.insert(i, value);
                    proof {
                        assert(self.pairs() =~= o.pairs().insert(i as int, (key, value)));
                        lemma_insert_sorted(o.ents(h), key, value);
                    }
                    return (None, true);
                }
                let mut i = i;
                if self.children[i].is_full() {
                    self.split_child(Ghost(h), i);
                    if self.keys[i] < key {
                        proof {
                            assert(i < self.keys.len());
                        }
                        i = i + 1;
                    } else if key == self.keys[i] {
                        let ghost s = *self;
                        let mut old_value = value;
                        std::mem::swap(&mut self.values[i], &mut old_value);
                        proof {
                            self.lemma_replace_value(&s, h, i as int);
                        }
                        return (Some(old_value), false);
                    }
                }
                let ghost s = *self;
                proof {
                    s.lemma_gap_at(h, i as int, key, value);
                    assert(s.children@[i as int].wf((h - 1) as nat));
                }
                let r = self.children[i].insert_non_full(Ghost((h - 1) as nat), key, value);
                proof {
                    self.lemma_child_changed(&s, h, i as int);
                    s.lemma_inner(h);
                    lemma_insert_sorted(s.ents(h), key, value);
                    self.lemma_child_changed_wf(&s, h, i as int);
                }
                r
            },
        }
    }

    /// Giving entry `i` of a well-formed node a new value puts it in as for its key.
    proof fn lemma_replace_value(&self, o: &Self, h: nat, i: int)
        requires
            o.wf(h),
            0 <= i < o.keys@.len(),
            self.keys@ == o.keys@,
            self.values@ == o.values@.update(i, self.values@[i]),
            self.children@ == o.children@,
        ensures
            self.wf(h),
            self.ents(h) == insert_entry(o.ents(h), o.keys@[i], self.values@[i]),
            lookup(o.ents(h), o.keys@[i]) == Some(o.values@[i]),
            has_key(o.ents(h), o.keys@[i]),
    {
        let k = o.keys@[i];
        let v = self.values@[i];
        assert(self.pairs() =~= o.pairs().update(i, (k, v)));
        o.lemma_key_at(h, i);
        let a = if h == 0 { o.pairs().take(i) } else { upto(o.blocks(h), o.pairs(), i) };
        let c = if h == 0 { o.pairs().skip(i + 1) } else { from(o.blocks(h), o.pairs(), i) };
        lemma_here(a, o.pairs()[i], c, v);
        if h == 0 {
            assert(a + seq![(k, v)] + c =~= self.pairs());
        } else {
            o.lemma_inner(h);
            self.lemma_inner(h);
            assert(self.blocks(h) =~= o.blocks(h));
            lemma_at_sep(self.blocks(h), self.pairs(), i);
            assert(self.pairs().take(i) =~= o.pairs().take(i));
            assert(self.pairs().skip(i + 1) =~= o.pairs().skip(i + 1));
        }
        lemma_insert_sorted(o.ents(h), k, v);
        if h > 0 {
            assert forall|j: int| 0 <= j < self.children@.len() implies (#[trigger] self.children@[j]).wf((h - 1) as nat)
                && self.children@[j].keys@.len() + 1 >= T by {
                assert(o.children@[j].wf((h - 1) as nat));
            }
        }
    }
}


impl<V, const T: usize> Node<u64, V, T> {
    /// A node without its last entry (and its last child): what is left comes before them.
    proof fn lemma_drop_last(l0: Self, ln: Self, hy: nat)
        requires
            l0.wf(hy),
            l0.keys@.len() >= 1,
            ln.keys@ == l0.keys@.drop_last(),
            ln.values@ == l0.values@.drop_last(),
            hy == 0 ==> ln.children@.len() == 0,
            hy > 0 ==> ln.children@ == l0.children@.drop_last(),
        ensures
            l0.ents(hy) == ln.ents(hy) + seq![l0.pairs().last()] + (if hy == 0 {
                Seq::empty()
            } else {
                l0.children@.last().ents((hy - 1) as nat)
            }),
            ln.wf(hy),
    {
        let p = l0.pairs();
        assert(ln.pairs() =~= p.drop_last());
        if hy == 0 {
            assert(p =~= p.drop_last() + seq![p.last()] + Seq::<(u64, V)>::empty());
        } else {
            l0.lemma_inner(hy);
            ln.lemma_inner(hy);
            let b = l0.blocks(hy);
            assert(ln.blocks(hy) =~= b.drop_last());
            assert(b.last() == l0.children@.last().ents((hy - 1) as nat));
            assert forall|j: int| 0 <= j < ln.children@.len() implies (#[trigger] ln.children@[j]).wf((hy - 1) as nat)
                && ln.children@[j].keys@.len() + 1 >= T by {
                assert(ln.children@[j] == l0.children@[j]);
            }
        }
        let rest = seq![p.last()] + (if hy == 0 {
            Seq::empty()
        } else {
            l0.children@.last().ents((hy - 1) as nat)
        });
        assert(Seq::<(u64, V)>::empty() + ln.ents(hy) + rest =~= l0.ents(hy));
        lemma_sorted_mid(Seq::<(u64, V)>::empty(), ln.ents(hy), rest);
    }

    /// A node without its first entry (and its first child): what is left comes after them.
    proof fn lemma_drop_first(r0: Self, rn: Self, hy: nat)
        requires
            r0.wf(hy),
            r0.keys@.len() >= 1,
            rn.keys@ == r0.keys@.drop_first(),
            rn.values@ == r0.values@.drop_first(),
            hy == 0 ==> rn.children@.len() == 0,
            hy > 0 ==> rn.children@ == r0.children@.drop_first(),
        ensures
            r0.ents(hy) == (if hy == 0 {
                Seq::empty()
            } else {
                r0.children@[0].ents((hy - 1) as nat)
            }) + seq![r0.pairs()[0]] + rn.ents(hy),
            rn.wf(hy),
    {
        let p = r0.pairs();
        assert(rn.pairs() =~= p.drop_first());
        let first = if hy == 0 { Seq::<(u64, V)>::empty() } else { r0.children@[0].ents((hy - 1) as nat) };
        if hy == 0 {
            assert(p =~= Seq::<(u64, V)>::empty() + seq![p[0]] + p.drop_first());
        } else {
            r0.lemma_inner(hy);
            rn.lemma_inner(hy);
            let b = r0.blocks(hy);
            assert(rn.blocks(hy) =~= b.drop_first());
            lemma_interleave_concat(seq![b[0]], Seq::empty(), p[0], b.drop_first(), p.drop_first());
            assert(seq![b[0]] + b.drop_first() =~= b);
            assert(Seq::<(u64, V)>::empty() + seq![p[0]] + p.drop_first() =~= p);
            assert forall|j: int| 0 <= j < rn.children@.len() implies (#[trigger] rn.children@[j]).wf((hy - 1) as nat)
                && rn.children@[j].keys@.len() + 1 >= T by {
                assert(rn.children@[j] == r0.children@[j + 1]);
            }
        }
        assert(first + seq![p[0]] + rn.ents(hy) + Seq::<(u64, V)>::empty() =~= r0.ents(hy));
        lemma_sorted_mid(first + seq![p[0]], rn.ents(hy), Seq::<(u64, V)>::empty());
    }

    /// A node with an entry (and a child) put in front.
    proof fn lemma_push_front(c0: Self, cn: Self, e: (u64, V), hy: nat)
        requires
            c0.wf(hy),
            cn.keys@ == seq![e.0] + c0.keys@,
            cn.values@ == seq![e.1] + c0.values@,
            hy == 0 ==> cn.children@.len() == 0,
            hy > 0 ==> cn.children@.len() == c0.children@.len() + 1 && cn.children@.drop_first() == c0.children@,
        ensures
            cn.ents(hy) == (if hy == 0 {
                Seq::empty()
            } else {
                cn.children@[0].ents((hy - 1) as nat)
            }) + seq![e] + c0.ents(hy),
            keys_sorted(cn.ents(hy)) && (hy > 0 ==> cn.children@[0].wf((hy - 1) as nat) && cn.children@[0].keys@.len()
                + 1 >= T) ==> cn.wf(hy),
    {
        let p = c0.pairs();
        assert(cn.pairs() =~= seq![e] + p);
        if hy == 0 {
            assert(cn.pairs() =~= Seq::<(u64, V)>::empty() + seq![e] + p);
        } else {
            c0.lemma_inner(hy);
            cn.lemma_inner(hy);
            let b = c0.blocks(hy);
            let x = cn.children@[0].ents((hy - 1) as nat);
            assert(cn.blocks(hy) =~= seq![x] + b) by {
                assert forall|j: int| 1 <= j < cn.children@.len() implies cn.children@[j] == c0.children@[j - 1] by {
                    assert(cn.children@.drop_first()[j - 1] == cn.children@[j]);
                }
            }
            lemma_interleave_concat(seq![x], Seq::empty(), e, b, p);
            assert(Seq::<(u64, V)>::empty() + seq![e] + p =~= cn.pairs());
            if keys_sorted(cn.ents(hy)) && cn.children@[0].wf((hy - 1) as nat) && cn.children@[0].keys@.len() + 1 >= T {
                assert forall|j: int| 0 <= j < cn.children@.len() implies (#[trigger] cn.children@[j]).wf(
                    (hy - 1) as nat,
                ) && cn.children@[j].keys@.len() + 1 >= T by {
                    if j > 0 {
                        assert(cn.children@.drop_first()[j - 1] == cn.children@[j]);
                        assert(c0.children@[j - 1].wf((hy - 1) as nat));
                    }
                }
            }
        }
    }

    /// A node with an entry (and a child) put at the back.
    proof fn lemma_push_back(c0: Self, cn: Self, e: (u64, V), hy: nat)
        requires
            c0.wf(hy),
            cn.keys@ == c0.keys@.push(e.0),
            cn.values@ == c0.values@.push(e.1),
            hy == 0 ==> cn.children@.len() == 0,
            hy > 0 ==> cn.children@.len() == c0.children@.len() + 1 && cn.children@.drop_last() == c0.children@,
        ensures
            cn.ents(hy) == c0.ents(hy) + seq![e] + (if hy == 0 {
                Seq::empty()
            } else {
                cn.children@.last().ents((hy - 1) as nat)
            }),
            keys_sorted(cn.ents(hy)) && (hy > 0 ==> cn.children@.last().wf((hy - 1) as nat)
                && cn.children@.last().keys@.len() + 1 >= T) ==> cn.wf(hy),
    {
        let p = c0.pairs();
        assert(cn.pairs() =~= p.push(e));
        if hy == 0 {
            assert(cn.pairs() =~= p + seq![e] + Seq::<(u64, V)>::empty());
        } else {
            c0.lemma_inner(hy);
            cn.lemma_inner(hy);
            let b = c0.blocks(hy);
            let x = cn.children@.last().ents((hy - 1) as nat);
            assert(cn.blocks(hy) =~= b.push(x)) by {
                assert forall|j: int| 0 <= j < c0.children@.len() implies cn.children@[j] == c0.children@[j] by {
                    assert(cn.children@.drop_last()[j] == cn.children@[j]);
                }
            }
            assert(cn.blocks(hy).drop_last() =~= b);
            assert(cn.pairs().drop_last() =~= p);
            if keys_sorted(cn.ents(hy)) && cn.children@.last().wf((hy - 1) as nat) && cn.children@.last().keys@.len() + 1
                >= T {
                assert forall|j: int| 0 <= j < cn.children@.len() implies (#[trigger] cn.children@[j]).wf(
                    (hy - 1) as nat,
                ) && cn.children@[j].keys@.len() + 1 >= T by {
                    if j < c0.children@.len() {
                        assert(cn.children@.drop_last()[j] == cn.children@[j]);
                        assert(c0.children@[j].wf((hy - 1) as nat));
                    }
                }
            }
        }
    }

    /// Two nodes joined around an entry.
    proof fn lemma_merged(l0: Self, r0: Self, mn: Self, e: (u64, V), hy: nat)
        requires
            l0.wf(hy),
            r0.wf(hy),
            mn.keys@ == l0.keys@ + seq![e.0] + r0.keys@,
            mn.values@ == l0.values@ + seq![e.1] + r0.values@,
            hy == 0 ==> mn.children@.len() == 0,
            hy > 0 ==> mn.children@ == l0.children@ + r0.children@,
        ensures
            mn.ents(hy) == l0.ents(hy) + seq![e] + r0.ents(hy),
            keys_sorted(mn.ents(hy)) ==> mn.wf(hy),
    {
        assert(mn.pairs() =~= l0.pairs() + seq![e] + r0.pairs());
        if hy > 0 {
            l0.lemma_inner(hy);
            r0.lemma_inner(hy);
            mn.lemma_inner(hy);
            assert(mn.blocks(hy) =~= l0.blocks(hy) + r0.blocks(hy)) by {
                assert forall|j: int| 0 <= j < mn.children@.len() implies #[trigger] mn.blocks(hy)[j] == (l0.blocks(hy)
                    + r0.blocks(hy))[j] by {
                    if j < l0.children@.len() {
                        assert(mn.children@[j] == l0.children@[j]);
                    } else {
                        assert(mn.children@[j] == r0.children@[j - l0.children@.len()]);
                    }
                }
            }
            lemma_interleave_concat(l0.blocks(hy), l0.pairs(), e, r0.blocks(hy), r0.pairs());
            assert forall|j: int| 0 <= j < mn.children@.len() implies (#[trigger] mn.children@[j]).wf((hy - 1) as nat)
                && mn.children@[j].keys@.len() + 1 >= T by {
                if j < l0.children@.len() {
                    assert(mn.children@[j] == l0.children@[j]);
                    assert(l0.children@[j].wf((hy - 1) as nat));
                } else {
                    assert(mn.children@[j] == r0.children@[j - l0.children@.len()]);
                    assert(r0.children@[j - l0.children@.len()].wf((hy - 1) as nat));
                }
            }
        }
    }

    /// Children `j` and `j + 1` of a node, with the entry between them, changed into others that
    /// hold the same entries in the same order: the node keeps its entries.
    proof fn lemma_exchange(&self, o: &Self, h: nat, j: int)
        requires
            o.wf(h),
            h > 0,
            0 <= j < o.keys@.len(),
            self.keys@.len() == o.keys@.len(),
            self.values@.len() == o.values@.len(),
            self.children@.len() == o.children@.len(),
            forall|q: int| 0 <= q < o.keys@.len() && q != j ==> self.keys@[q] == o.keys@[q] && self.values@[q]
                == o.values@[q],
            forall|q: int| 0 <= q < o.children@.len() && q != j && q != j + 1 ==> self.children@[q] == o.children@[q],
            o.children@[j].ents((h - 1) as nat) + seq![o.pairs()[j]] + o.children@[j + 1].ents((h - 1) as nat)
                == self.children@[j].ents((h - 1) as nat) + seq![self.pairs()[j]] + self.children@[j + 1].ents(
                (h - 1) as nat,
            ),
        ensures
            self.ents(h) == o.ents(h),
    {
        o.lemma_inner(h);
        self.lemma_inner(h);
        let ob = o.blocks(h);
        let op = o.pairs();
        let nb = self.blocks(h);
        let np = self.pairs();
        let mm = ob[j] + seq![op[j]] + ob[j + 1];
        let mb = ob.take(j) + seq![mm] + ob.skip(j + 2);
        let mp = op.remove(j);
        lemma_split_block(mb, mp, j, ob[j], op[j], ob[j + 1]);
        assert(mb.take(j) + seq![ob[j], ob[j + 1]] + mb.skip(j + 1) =~= ob);
        assert(mp.take(j) + seq![op[j]] + mp.skip(j) =~= op);
        lemma_split_block(mb, mp, j, nb[j], np[j], nb[j + 1]);
        assert forall|q: int| 0 <= q < nb.len() implies #[trigger] nb[q] == (mb.take(j) + seq![nb[j], nb[j + 1]]
            + mb.skip(j + 1))[q] by {
            if q < j || q > j + 1 {
                assert(self.children@[q] == o.children@[q]);
            }
        }
        assert(mb.take(j) + seq![nb[j], nb[j + 1]] + mb.skip(j + 1) =~= nb);
        assert forall|q: int| 0 <= q < np.len() implies #[trigger] np[q] == (mp.take(j) + seq![np[j]] + mp.skip(j))[q] by {
            if q != j {
                assert(self.keys@[q] == o.keys@[q] && self.values@[q] == o.values@[q]);
            }
        }
        assert(mp.take(j) + seq![np[j]] + mp.skip(j) =~= np);
    }

    /// Children `i` and `i + 1` joined around entry `i`, which moves down.
    fn merge_children(&mut self, Ghost(h): Ghost<nat>, i: usize)
        requires
            Self::degree_ok(),
            old(self).wf(h),
            h > 0,
            i < old(self).keys@.len(),
        ensures
            final(self).wf(h),
            final(self).ents(h) == old(self).ents(h),
            final(self).keys@ == old(self).keys@.remove(i as int),
            final(self).children@[i as int].keys@.len() == old(self).children@[i as int].keys@.len() + 1
                + old(self).children@[i + 1].keys@.len(),
    {
        let ghost o = *self;
        let ghost hy = (h - 1) as nat;
        let ghost l0 = *o.children@[i as int];
        let ghost r0 = *o.children@[i + 1];
        proof {
            assert(l0.wf(hy));
            assert(r0.wf(hy));
        }
        let sep_key = self.keys.remove(i);
        let sep_val = self.values.remove(i);
        proof {
            assert(i + 1 < self.children.len());
        }
        let mut right = self.children.remove(i + 1);
        self.children[i].keys.push(sep_key);
        self.children[i].values.push(sep_val);
        self.children[i].keys.append(&mut right.keys);
        self.children[i].values.append(&mut right.values);
        if !right.is_leaf() {
            self.children[i].children.append(&mut right.children);
        }
        proof {
            let e = (sep_key, sep_val);
            let mn = *self.children@[i as int];
            assert(e == o.pairs()[i as int]);
            assert(mn.keys@ =~= l0.keys@ + seq![e.0] + r0.keys@);
            assert(mn.values@ =~= l0.values@ + seq![e.1] + r0.values@);
            if hy > 0 {
                assert(r0.children@.len() > 0);
            }
            Self::lemma_merged(l0, r0, mn, e, hy);
            // the node is the split of itself with child `i` joined
            o.lemma_inner(h);
            self.lemma_inner(h);
            let nb = self.blocks(h);
            let np = self.pairs();
            let ob = o.blocks(h);
            lemma_split_block(nb, np, i as int, l0.ents(hy), e, r0.ents(hy));
            assert(nb.take(i as int) + seq![l0.ents(hy), r0.ents(hy)] + nb.skip(i + 1) =~= ob) by {
                assert forall|q: int| 0 <= q < ob.len() implies #[trigger] ob[q] == (nb.take(i as int) + seq![
                    l0.ents(hy),
                    r0.ents(hy),
                ] + nb.skip(i + 1))[q] by {
                    if q < i {
                        assert(self.children@[q] == o.children@[q]);
                    } else if q > i + 1 {
                        assert(self.children@[q - 1] == o.children@[q]);
                    }
                }
            }
            assert(np.take(i as int) + seq![e] + np.skip(i as int) =~= o.pairs());
            // the joined child is sorted, as a block of the node
            lemma_at_block(nb, np, i as int);
            lemma_sorted_mid(before(nb, np, i as int), nb[i as int], after(nb, np, i as int));
            assert forall|q: int| 0 <= q < self.children@.len() implies (#[trigger] self.children@[q]).wf(hy)
                && self.children@[q].keys@.len() + 1 >= T by {
                if q < i {
                    assert(self.children@[q] == o.children@[q]);
                    assert(o.children@[q].wf(hy));
                } else if q > i {
                    assert(self.children@[q] == o.children@[q + 1]);
                    assert(o.children@[q + 1].wf(hy));
                }
            }
        }
    }
}


impl<V, const T: usize> Node<u64, V, T> {
    /// `k` lies strictly between keys `i - 1` and `i` of the node.
    spec fn gap(&self, i: int, k: u64) -> bool {
        &&& i > 0 ==> self.keys@[i - 1] < k
        &&& i < self.keys@.len() ==> k < self.keys@[i]
    }

    /// The keys of a well-formed node increase.
    proof fn lemma_keys_inc(&self, h: nat)
        requires
            self.wf(h),
        ensures
            forall|a: int, b: int| 0 <= a < b < self.keys@.len() ==> self.keys@[a] < self.keys@[b],
    {
        let e = self.ents(h);
        let ps = self.pairs();
        assert forall|a: int, b: int| 0 <= a < b < self.keys@.len() implies self.keys@[a] < self.keys@[b] by {
            if h == 0 {
                assert(e[a] == ps[a] && e[b] == ps[b]);
            } else {
                let cs = self.blocks(h);
                self.lemma_inner(h);
                lemma_at_sep(cs, ps, a);
                let cs2 = cs.skip(a + 1);
                let ps2 = ps.skip(a + 1);
                lemma_at_sep(cs2, ps2, b - a - 1);
                assert(ps2[b - a - 1] == ps[b]);
                let u = upto(cs, ps, a);
                let w = upto(cs2, ps2, b - a - 1);
                let x = from(cs2, ps2, b - a - 1);
                assert(e == u + seq![ps[a]] + (w + seq![ps[b]] + x));
                assert(e[u.len() as int] == ps[a]);
                assert(e[(u.len() + 1 + w.len()) as int] == ps[b]);
            }
        }
    }

    /// Take the last entry of child `i - 1` up into the node, and the node's entry `i - 1` down
    /// to the front of child `i`, with the last child of child `i - 1`.
    fn borrow_from_prev(&mut self, Ghost(h): Ghost<nat>, i: usize)
        requires
            Self::degree_ok(),
            old(self).wf(h),
            h > 0,
            0 < i <= old(self).keys@.len(),
            old(self).children@[i - 1].keys@.len() >= T,
        ensures
            final(self).wf(h),
            final(self).ents(h) == old(self).ents(h),
            final(self).keys@.len() == old(self).keys@.len(),
            forall|q: int| 0 <= q < old(self).keys@.len() && q != i - 1 ==> final(self).keys@[q] == old(self).keys@[q],
            final(self).keys@[i - 1] < old(self).keys@[i - 1],
            final(self).children@[i as int].keys@.len() == old(self).children@[i as int].keys@.len() + 1,
    {
        let ghost o = *self;
        let ghost hy = (h - 1) as nat;
        let ghost l0 = *o.children@[i - 1];
        let ghost c0 = *o.children@[i as int];
        proof {
            assert(l0.wf(hy));
            assert(c0.wf(hy));
        }
        let lk = self.children[i - 1].keys.pop().unwrap();
        let lv = self.children[i - 1].values.pop().unwrap();
        let mut sep_key = lk;
        std::mem::swap(&mut self.keys[i - 1], &mut sep_key);
        let mut sep_val = lv;
        std::mem::swap(&mut self.values[i - 1], &mut sep_val);
        self.children[i].keys.insert(0, sep_key);
        self.children[i].values.insert(0, sep_val);
        if !self.children[i - 1].is_leaf() {
            let moved = self.children[i - 1].children.pop().unwrap();
            self.children[i].children.insert(0, moved);
        }
        proof {
            let ln = *self.children@[i - 1];
            let cn = *self.children@[i as int];
            let e = (sep_key, sep_val);
            let lp = (lk, lv);
            assert(e == o.pairs()[i - 1]);
            assert(lp == l0.pairs().last());
            assert(ln.keys@ =~= l0.keys@.drop_last());
            assert(ln.values@ =~= l0.values@.drop_last());
            if hy > 0 {
                assert(l0.children@.len() > 0);
                assert(ln.children@ =~= l0.children@.drop_last());
                assert(cn.children@.drop_first() =~= c0.children@);
                assert(cn.children@[0] == l0.children@.last());
            }
            assert(cn.keys@ =~= seq![e.0] + c0.keys@);
            assert(cn.values@ =~= seq![e.1] + c0.values@);
            Self::lemma_drop_last(l0, ln, hy);
            Self::lemma_push_front(c0, cn, e, hy);
            let x = if hy == 0 { Seq::<(u64, V)>::empty() } else { l0.children@.last().ents((hy - 1) as nat) };
            assert(l0.ents(hy) + seq![e] + c0.ents(hy) =~= ln.ents(hy) + seq![lp] + (x + seq![e] + c0.ents(hy)));
            assert(self.pairs()[i - 1] == lp);
            self.lemma_exchange(&o, h, i - 1);
            // the entry moving up is below the one moving down
            o.lemma_inner(h);
            lemma_at_block(o.blocks(h), o.pairs(), i - 1);
            let a = before(o.blocks(h), o.pairs(), i - 1);
            let oe = o.ents(h);
            assert(oe[(a.len() + ln.ents(hy).len()) as int] == lp);
            assert(oe[(a.len() + l0.ents(hy).len()) as int] == e);
            // the child taking the entry is sorted, as a block of the node
            self.lemma_inner(h);
            lemma_at_block(self.blocks(h), self.pairs(), i as int);
            lemma_sorted_mid(before(self.blocks(h), self.pairs(), i as int), cn.ents(hy), after(self.blocks(h), self.pairs(), i as int));
            if hy > 0 {
                assert(l0.children@.last().wf((hy - 1) as nat));
            }
            assert forall|q: int| 0 <= q < self.children@.len() implies (#[trigger] self.children@[q]).wf(hy)
                && self.children@[q].keys@.len() + 1 >= T by {
                if q != i && q != i - 1 {
                    assert(self.children@[q] == o.children@[q]);
                    assert(o.children@[q].wf(hy));
                }
            }
        }
    }

    /// Take the first entry of child `i + 1` up into the node, and the node's entry `i` down to
    /// the back of child `i`, with the first child of child `i + 1`.
    fn borrow_from_next(&mut self, Ghost(h): Ghost<nat>, i: usize)
        requires
            Self::degree_ok(),
            old(self).wf(h),
            h > 0,
            i < old(self).keys@.len(),
            old(self).children@[i + 1].keys@.len() >= T,
        ensures
            final(self).wf(h),
            final(self).ents(h) == old(self).ents(h),
            final(self).keys@.len() == old(self).keys@.len(),
            forall|q: int| 0 <= q < old(self).keys@.len() && q != i ==> final(self).keys@[q] == old(self).keys@[q],
            old(self).keys@[i as int] < final(self).keys@[i as int],
            final(self).children@[i as int].keys@.len() == old(self).children@[i as int].keys@.len() + 1,
    {
        let ghost o = *self;
        let ghost hy = (h - 1) as nat;
        let ghost c0 = *o.children@[i as int];
        let ghost r0 = *o.children@[i + 1];
        proof {
            assert(c0.wf(hy));
            assert(r0.wf(hy));
            assert(i + 1 < self.children.len());
        }
        let rk = self.children[i + 1].keys.remove(0);
        let rv = self.children[i + 1].values.remove(0);
        let mut sep_key = rk;
        std::mem::swap(&mut self.keys[i], &mut sep_key);
        let mut sep_val = rv;
        std::mem::swap(&mut self.values[i], &mut sep_val);
        self.children[i].keys.push(sep_key);
        self.children[i].values.push(sep_val);
        if !self.children[i + 1].is_leaf() {
            let moved = self.children[i + 1].children.remove(0);
            self.children[i].children.push(moved);
        }
        proof {
            let cn = *self.children@[i as int];
            let rn = *self.children@[i + 1];
            let e = (sep_key, sep_val);
            let rp = (rk, rv);
            assert(e == o.pairs()[i as int]);
            assert(rp == r0.pairs()[0]);
            assert(rn.keys@ =~= r0.keys@.drop_first());
            assert(rn.values@ =~= r0.values@.drop_first());
            if hy > 0 {
                assert(r0.children@.len() > 0);
                assert(rn.children@ =~= r0.children@.drop_first());
                assert(cn.children@.drop_last() =~= c0.children@);
                assert(cn.children@.last() == r0.children@[0]);
            }
            assert(cn.keys@ =~= c0.keys@.push(e.0));
            assert(cn.values@ =~= c0.values@.push(e.1));
            Self::lemma_drop_first(r0, rn, hy);
            Self::lemma_push_back(c0, cn, e, hy);
            let x = if hy == 0 { Seq::<(u64, V)>::empty() } else { r0.children@[0].ents((hy - 1) as nat) };
            assert(c0.ents(hy) + seq![e] + r0.ents(hy) =~= (c0.ents(hy) + seq![e] + x) + seq![rp] + rn.ents(hy));
            assert(self.pairs()[i as int] == rp);
            self.lemma_exchange(&o, h, i as int);
            // the entry moving up is above the one moving down
            o.lemma_inner(h);
            lemma_at_block(o.blocks(h), o.pairs(), i as int);
            let a = before(o.blocks(h), o.pairs(), i as int);
            let oe = o.ents(h);
            assert(o.children@[i + 1].ents(hy) == o.blocks(h)[i + 1]);
            lemma_at_block(o.blocks(h), o.pairs(), i + 1);
            let a1 = before(o.blocks(h), o.pairs(), i + 1);
            assert(oe[(a.len() + c0.ents(hy).len()) as int] == e);
            assert(a1 =~= a + c0.ents(hy) + seq![e]) by {
                lemma_upto(o.blocks(h), o.pairs(), i as int);
            }
            assert(oe[(a1.len() + x.len()) as int] == rp);
            // the child taking the entry is sorted, as a block of the node
            self.lemma_inner(h);
            lemma_at_block(self.blocks(h), self.pairs(), i as int);
            lemma_sorted_mid(before(self.blocks(h), self.pairs(), i as int), cn.ents(hy), after(self.blocks(h), self.pairs(), i as int));
            if hy > 0 {
                assert(r0.children@[0].wf((hy - 1) as nat));
            }
            assert forall|q: int| 0 <= q < self.children@.len() implies (#[trigger] self.children@[q]).wf(hy)
                && self.children@[q].keys@.len() + 1 >= T by {
                if q != i && q != i + 1 {
                    assert(self.children@[q] == o.children@[q]);
                    assert(o.children@[q].wf(hy));
                }
            }
        }
    }
}


/// The interleaving around separator `i` and the blocks on both sides of it.
pub proof fn lemma_around_sep<E>(cs: Seq<Seq<E>>, ks: Seq<E>, i: int)
    requires
        cs.len() == ks.len() + 1,
        0 <= i < ks.len(),
    ensures
        interleave(cs, ks) == before(cs, ks, i) + cs[i] + seq![ks[i]] + cs[i + 1] + after(cs, ks, i + 1),
{
    lemma_at_sep(cs, ks, i);
    lemma_upto(cs, ks, i);
    let cs2 = cs.skip(i + 1);
    let ks2 = ks.skip(i + 1);
    lemma_at_block(cs2, ks2, 0);
    assert(cs2[0] == cs[i + 1]);
    if i + 1 < ks.len() {
        assert(ks2[0] == ks[i + 1]);
        assert(cs2.skip(1) =~= cs.skip(i + 2));
        assert(ks2.skip(1) =~= ks.skip(i + 2));
        assert(after(cs2, ks2, 0) =~= after(cs, ks, i + 1));
    }
    assert(before(cs2, ks2, 0) =~= Seq::<E>::empty());
}

impl<V, const T: usize> Node<u64, V, T> {
    /// Make child `i` hold at least `T` keys, taking an entry from a sibling or joining it with
    /// one; give where the child, or what it was joined into, now stands.
    fn ensure_child_has_t(&mut self, Ghost(h): Ghost<nat>, i: usize) -> (r: usize)
        requires
            Self::degree_ok(),
            old(self).wf(h),
            h > 0,
            i <= old(self).keys@.len(),
            old(self).keys@.len() >= 1,
        ensures
            final(self).wf(h),
            final(self).ents(h) == old(self).ents(h),
            r <= final(self).keys@.len(),
            final(self).children@[r as int].keys@.len() >= T,
            final(self).keys@.len() + 1 >= old(self).keys@.len(),
            i == 0 ==> r == 0,
            i == old(self).keys@.len() ==> r == final(self).keys@.len(),
            forall|k: u64| old(self).gap(i as int, k) ==> #[trigger] final(self).gap(r as int, k),
    {
        let ghost o = *self;
        proof {
            o.lemma_keys_inc(h);
            assert(o.children@[i as int].wf((h - 1) as nat));
        }
        if self.children[i].keys.len() >= T {
            return i;
        }
        if i > 0 && self.children[i - 1].keys.len() >= T {
            self.borrow_from_prev(Ghost(h), i);
            return i;
        }
        if i < self.keys.len() && self.children[i + 1].keys.len() >= T {
            self.borrow_from_next(Ghost(h), i);
            return i;
        }
        if i < self.keys.len() {
            self.merge_children(Ghost(h), i);
            proof {
                assert forall|k: u64| o.gap(i as int, k) implies #[trigger] self.gap(i as int, k) by {
                    if i < self.keys@.len() {
                        assert(self.keys@[i as int] == o.keys@[i + 1]);
                    }
                }
            }
            return i;
        }
        self.merge_children(Ghost(h), i - 1);
        proof {
            assert forall|k: u64| o.gap(i as int, k) implies #[trigger] self.gap(i - 1, k) by {
                if i - 1 > 0 {
                    assert(self.keys@[i - 2] == o.keys@[i - 2]);
                }
            }
        }
        i - 1
    }

    /// Take out the entry with the largest key under the node.
    fn pop_max(&mut self, Ghost(h): Ghost<nat>) -> (r: (u64, V))
        requires
            Self::degree_ok(),
            old(self).wf(h),
            old(self).keys@.len() >= 1,
        ensures
            final(self).wf(h),
            old(self).ents(h) == final(self).ents(h) + seq![r],
            final(self).keys@.len() + 1 >= old(self).keys@.len(),
        decreases h,
    {
        let ghost o = *self;
        if self.is_leaf() {
            let k = self.keys.pop().unwrap();
            let v = self.values.pop().unwrap();
            proof {
                assert(self.pairs() =~= o.pairs().drop_last());
                assert(o.pairs() =~= self.pairs() + seq![(k, v)]);
                lemma_sorted_mid(Seq::<(u64, V)>::empty(), self.pairs(), seq![(k, v)]);
                assert(Seq::<(u64, V)>::empty() + self.pairs() + seq![(k, v)] =~= o.pairs());
            }
            return (k, v);
        }
        let last = self.keys.len();
        let child_idx = self.ensure_child_has_t(Ghost(h), last);
        let ghost s = *self;
        proof {
            assert(s.children@[child_idx as int].wf((h - 1) as nat));
        }
        let (k, v) = self.children[child_idx].pop_max(Ghost((h - 1) as nat));
        proof {
            s.lemma_inner(h);
            lemma_at_block(s.blocks(h), s.pairs(), child_idx as int);
            self.lemma_child_changed(&s, h, child_idx as int);
            let a = before(s.blocks(h), s.pairs(), child_idx as int);
            let cn = self.children@[child_idx as int].ents((h - 1) as nat);
            assert(s.ents(h) =~= a + cn + seq![(k, v)]);
            assert(self.ents(h) =~= a + cn);
            assert(Seq::<(u64, V)>::empty() + self.ents(h) + seq![(k, v)] =~= s.ents(h));
            lemma_sorted_mid(Seq::<(u64, V)>::empty(), self.ents(h), seq![(k, v)]);
            self.lemma_child_changed_wf(&s, h, child_idx as int);
        }
        if self.children[child_idx].keys.is_empty() && !self.children[child_idx].is_leaf() {
            let promoted = self.children[child_idx].children.remove(0);
            self.children.set(child_idx, promoted);
        }
        (k, v)
    }

    /// Take out the entry with the smallest key under the node.
    fn pop_min(&mut self, Ghost(h): Ghost<nat>) -> (r: (u64, V))
        requires
            Self::degree_ok(),
            old(self).wf(h),
            old(self).keys@.len() >= 1,
        ensures
            final(self).wf(h),
            old(self).ents(h) == seq![r] + final(self).ents(h),
            final(self).keys@.len() + 1 >= old(self).keys@.len(),
        decreases h,
    {
        let ghost o = *self;
        if self.is_leaf() {
            let k = self.keys.remove(0);
            let v = self.values.remove(0);
            proof {
                assert(self.pairs() =~= o.pairs().drop_first());
                assert(o.pairs() =~= seq![(k, v)] + self.pairs());
                lemma_sorted_mid(seq![(k, v)], self.pairs(), Seq::<(u64, V)>::empty());
                assert(seq![(k, v)] + self.pairs() + Seq::<(u64, V)>::empty() =~= o.pairs());
            }
            return (k, v);
        }
        let child_idx = self.ensure_child_has_t(Ghost(h), 0);
        let ghost s = *self;
        proof {
            assert(s.children@[child_idx as int].wf((h - 1) as nat));
        }
        let (k, v) = self.children[child_idx].pop_min(Ghost((h - 1) as nat));
        proof {
            s.lemma_inner(h);
            lemma_at_block(s.blocks(h), s.pairs(), 0);
            self.lemma_child_changed(&s, h, 0);
            let c = after(s.blocks(h), s.pairs(), 0);
            let cn = self.children@[0].ents((h - 1) as nat);
            assert(s.ents(h) =~= seq![(k, v)] + cn + c);
            assert(self.ents(h) =~= cn + c);
            assert(seq![(k, v)] + self.ents(h) + Seq::<(u64, V)>::empty() =~= s.ents(h));
            lemma_sorted_mid(seq![(k, v)], self.ents(h), Seq::<(u64, V)>::empty());
            self.lemma_child_changed_wf(&s, h, 0);
        }
        if self.children[child_idx].keys.is_empty() && !self.children[child_idx].is_leaf() {
            let promoted = self.children[child_idx].children.remove(0);
            self.children.set(child_idx, promoted);
        }
        (k, v)
    }
}


impl<V, const T: usize> Node<u64, V, T> {
    /// With only entry `i` and the children on both sides of it changed, the entries change
    /// only there.
    proof fn lemma_sep_changed(&self, o: &Self, h: nat, i: int)
        requires
            h > 0,
            o.values@.len() == o.keys@.len(),
            o.children@.len() == o.keys@.len() + 1,
            self.keys@.len() == o.keys@.len(),
            self.values@.len() == o.values@.len(),
            self.children@.len() == o.children@.len(),
            0 <= i < o.keys@.len(),
            forall|q: int| 0 <= q < o.keys@.len() && q != i ==> self.keys@[q] == o.keys@[q] && self.values@[q]
                == o.values@[q],
            forall|q: int| 0 <= q < o.children@.len() && q != i && q != i + 1 ==> self.children@[q] == o.children@[q],
        ensures
            o.ents(h) == before(o.blocks(h), o.pairs(), i) + o.children@[i].ents((h - 1) as nat) + seq![o.pairs()[i]]
                + o.children@[i + 1].ents((h - 1) as nat) + after(o.blocks(h), o.pairs(), i + 1),
            self.ents(h) == before(o.blocks(h), o.pairs(), i) + self.children@[i].ents((h - 1) as nat) + seq![
                self.pairs()[i],
            ] + self.children@[i + 1].ents((h - 1) as nat) + after(o.blocks(h), o.pairs(), i + 1),
    {
        o.lemma_inner(h);
        self.lemma_inner(h);
        let ob = o.blocks(h);
        let op = o.pairs();
        let nb = self.blocks(h);
        let np = self.pairs();
        lemma_around_sep(ob, op, i);
        lemma_around_sep(nb, np, i);
        lemma_frame_block(ob, op, nb, np, i);
        lemma_frame_block(ob, op, nb, np, i + 1);
        assert(nb.take(i) =~= ob.take(i)) by {
            assert forall|q: int| 0 <= q < i implies nb[q] == ob[q] by {
                assert(self.children@[q] == o.children@[q]);
            }
        }
        assert(np.take(i) =~= op.take(i)) by {
            assert forall|q: int| 0 <= q < i implies np[q] == op[q] by {
                assert(self.keys@[q] == o.keys@[q] && self.values@[q] == o.values@[q]);
            }
        }
        assert(nb.skip(i + 2) =~= ob.skip(i + 2)) by {
            assert forall|q: int| i + 2 <= q < ob.len() implies nb[q] == ob[q] by {
                assert(self.children@[q] == o.children@[q]);
            }
        }
        assert(np.skip(i + 1) =~= op.skip(i + 1)) by {
            assert forall|q: int| i + 1 <= q < op.len() implies np[q] == op[q] by {
                assert(self.keys@[q] == o.keys@[q] && self.values@[q] == o.values@[q]);
            }
        }
    }

    /// Take the entry of `key` out from under the node, making each child met on the way down
    /// hold at least `T` keys first; give its value.
    #[verifier::rlimit(50)]
    fn remove_from(&mut self, Ghost(h): Ghost<nat>, key: &u64) -> (r: Option<V>)
        requires
            Self::degree_ok(),
            old(self).wf(h),
            old(self).keys@.len() >= 1,
        ensures
            final(self).wf(h),
            final(self).ents(h) == remove_entry(old(self).ents(h), *key),
            r == lookup(old(self).ents(h), *key),
            final(self).keys@.len() + 1 >= old(self).keys@.len(),
        decreases h,
    {
        let ghost o = *self;
        match self.find_index(key) {
            Ok(i) => {
                if self.is_leaf() {
                    self.keys.remove(i);
                    let removed = self.values.remove(i);
                    proof {
                        o.lemma_key_at(h, i as int);
                        lemma_here(o.pairs().take(i as int), o.pairs()[i as int], o.pairs().skip(i + 1), removed);
                        assert(self.pairs() =~= o.pairs().take(i as int) + o.pairs().skip(i + 1));
                        lemma_remove_sorted(o.ents(h), *key);
                    }
                    return Some(removed);
                }
                proof {
                    assert(o.children@[i as int].wf((h - 1) as nat));
                    assert(o.children@[i + 1].wf((h - 1) as nat));
                    assert(i + 1 < self.children.len());
                }
                if self.children[i].keys.len() >= T {
                    let (pk, pv) = self.children[i].pop_max(Ghost((h - 1) as nat));
                    let mut removed = pv;
                    std::mem::swap(&mut self.values[i], &mut removed);
                    self.keys.set(i, pk);
                    proof {
                        self.lemma_sep_changed(&o, h, i as int);
                        let b = before(o.blocks(h), o.pairs(), i as int);
                        let a = after(o.blocks(h), o.pairs(), i + 1);
                        let c1 = o.children@[i + 1].ents((h - 1) as nat);
                        let cn = self.children@[i as int].ents((h - 1) as nat);
                        let ci = o.children@[i as int].ents((h - 1) as nat);
                        assert(o.ents(h) =~= (b + ci) + seq![o.pairs()[i as int]] + (c1 + a));
                        lemma_here(b + ci, o.pairs()[i as int], c1 + a, pv);
                        assert(self.ents(h) =~= (b + ci) + (c1 + a));
                        lemma_remove_sorted(o.ents(h), *key);
                        assert forall|q: int| 0 <= q < self.children@.len() implies (#[trigger] self.children@[q]).wf(
                            (h - 1) as nat,
                        ) && self.children@[q].keys@.len() + 1 >= T by {
                            if q != i {
                                assert(self.children@[q] == o.children@[q]);
                                assert(o.children@[q].wf((h - 1) as nat));
                            }
                        }
                    }
                    return Some(removed);
                }
                if self.children[i + 1].keys.len() >= T {
                    let (sk, sv) = self.children[i + 1].pop_min(Ghost((h - 1) as nat));
                    let mut removed = sv;
                    std::mem::swap(&mut self.values[i], &mut removed);
                    self.keys.set(i, sk);
                    proof {
                        self.lemma_sep_changed(&o, h, i as int);
                        let b = before(o.blocks(h), o.pairs(), i as int);
                        let a = after(o.blocks(h), o.pairs(), i + 1);
                        let ci = o.children@[i as int].ents((h - 1) as nat);
                        let c1 = o.children@[i + 1].ents((h - 1) as nat);
                        assert(o.ents(h) =~= (b + ci) + seq![o.pairs()[i as int]] + (c1 + a));
                        lemma_here(b + ci, o.pairs()[i as int], c1 + a, sv);
                        assert(self.ents(h) =~= (b + ci) + (c1 + a));
                        lemma_remove_sorted(o.ents(h), *key);
                        assert forall|q: int| 0 <= q < self.children@.len() implies (#[trigger] self.children@[q]).wf(
                            (h - 1) as nat,
                        ) && self.children@[q].keys@.len() + 1 >= T by {
                            if q != i + 1 {
                                assert(self.children@[q] == o.children@[q]);
                                assert(o.children@[q].wf((h - 1) as nat));
                            }
                        }
                    }
                    return Some(removed);
                }
                proof {
                    o.lemma_keys_inc(h);
                }
                self.merge_children(Ghost(h), i);
                let ghost s = *self;
                proof {
                    assert(s.gap(i as int, *key)) by {
                        if i < s.keys@.len() {
                            assert(s.keys@[i as int] == o.keys@[i + 1]);
                        }
                        if i > 0 {
                            assert(s.keys@[i - 1] == o.keys@[i - 1]);
                        }
                    }
                    s.lemma_gap_at(h, i as int, *key, arbitrary());
                    assert(s.children@[i as int].wf((h - 1) as nat));
                }
                let removed = self.children[i].remove_from(Ghost((h - 1) as nat), key);
                proof {
                    self.lemma_child_changed(&s, h, i as int);
                    s.lemma_inner(h);
                    lemma_remove_sorted(s.ents(h), *key);
                    self.lemma_child_changed_wf(&s, h, i as int);
                }
                if self.children[i].keys.is_empty() && !self.children[i].is_leaf() {
                    let promoted = self.children[i].children.remove(0);
                    self.children.set(i, promoted);
                }
                removed
            },
            Err(i) => {
                proof {
                    o.lemma_gap_at(h, i as int, *key, arbitrary());
                }
                if self.is_leaf() {
                    return None;
                }
                let child_idx = self.ensure_child_has_t(Ghost(h), i);
                let ghost s = *self;
                proof {
                    assert(o.gap(i as int, *key));
                    assert(s.gap(child_idx as int, *key));
                    s.lemma_gap_at(h, child_idx as int, *key, arbitrary());
                    assert(s.children@[child_idx as int].wf((h - 1) as nat));
                }
                let removed = self.children[child_idx].remove_from(Ghost((h - 1) as nat), key);
                proof {
                    self.lemma_child_changed(&s, h, child_idx as int);
                    s.lemma_inner(h);
                    lemma_remove_sorted(s.ents(h), *key);
                    self.lemma_child_changed_wf(&s, h, child_idx as int);
                }
                if self.children[child_idx].keys.is_empty() && !self.children[child_idx].is_leaf() {
                    let promoted = self.children[child_idx].children.remove(0);
                    self.children.set(child_idx, promoted);
                }
                removed
            },
        }
    }
}


/// A B-tree of minimum degree `T`, with the number of its entries.
pub(crate) struct BTreeMapBase<K, V, const T: usize> {
    root: Option<Box<Node<K, V, T>>>,
    len: usize,
    /// How many levels lie below the root.
    height: Ghost<nat>,
}

impl<V, const T: usize> BTreeMapBase<u64, V, T> {
    /// The entries of the tree, in key order.
    pub(crate) closed spec fn ents(&self) -> Seq<(u64, V)> {
        match self.root {
            Some(r) => r.ents(self.height@),
            None => Seq::empty(),
        }
    }

    pub(crate) closed spec fn wf(&self) -> bool {
        &&& Node::<u64, V, T>::degree_ok()
        &&& keys_sorted(self.ents())
        &&& self.len == self.ents().len()
        &&& match self.root {
            Some(r) => r.wf(self.height@) && r.keys@.len() >= 1,
            None => true,
        }
    }

    pub(crate) fn new() -> (r: Self)
        requires
            2 <= T <= 0x4000_0000,
        ensures
            r.wf(),
            r.ents() == Seq::<(u64, V)>::empty(),
    {
        Self { root: None, len: 0, height: Ghost(0) }
    }

    pub(crate) fn len(&self) -> (r: usize)
        requires
            self.wf(),
        ensures
            r == self.ents().len(),
            keys_sorted(self.ents()),
    {
        self.len
    }

    pub(crate) fn get(&mut self, key: &u64) -> (r: Option<&V>)
        requires
            old(self).wf(),
        ensures
            *final(self) == *old(self),
            (r is Some) == has_key(old(self).ents(), *key),
            r matches Some(v) ==> lookup(old(self).ents(), *key) == Some(*v),
    {
        match &self.root {
            Some(r) => r.get(Ghost(self.height@), key),
            None => None,
        }
    }

    pub(crate) fn lower_bound(&mut self, key: &u64) -> (r: Option<(&u64, &V)>)
        requires
            old(self).wf(),
        ensures
            *final(self) == *old(self),
            r matches Some((k, v)) ==> lower_bound_entry(old(self).ents(), *key) == Some((*k, *v)),
            r is None <==> lower_bound_entry(old(self).ents(), *key) is None,
    {
        match &self.root {
            Some(r) => r.lower_bound(Ghost(self.height@), key),
            None => None,
        }
    }

    pub(crate) fn insert(&mut self, key: u64, value: V) -> (r: Option<V>)
        requires
            old(self).wf(),
            old(self).ents().len() < usize::MAX,
        ensures
            final(self).wf(),
            final(self).ents() == insert_entry(old(self).ents(), key, value),
            r == lookup(old(self).ents(), key),
    {
        let ghost o = *self;
        if self.root.is_none() {
            self.root = Some(Box::new(Node::new_leaf(vec![key], vec![value])));
            self.len = 1;
            self.height = Ghost(0);
            proof {
                let r = *self.root->0;
                assert(r.pairs() =~= seq![(key, value)]);
                assert(insert_entry(Seq::<(u64, V)>::empty(), key, value) =~= seq![(key, value)]);
            }
            return None;
        }
        let root_full = match &self.root {
            Some(r) => r.is_full(),
            None => false,
        };
        if root_full {
            let old_root = self.root.take().unwrap();
            let ghost h = self.height@;
            let ghost or = *old_root;
            let mut new_root = Box::new(Node::new_internal(Vec::new(), Vec::new(), vec![old_root]));
            proof {
                let nr = *new_root;
                nr.lemma_inner(h + 1);
                assert(nr.blocks(h + 1) =~= seq![or.ents(h)]);
                assert(nr.pairs() =~= Seq::<(u64, V)>::empty());
                assert(nr.ents(h + 1) == or.ents(h));
                assert(nr.children@[0] == or);
            }
            new_root.split_child(Ghost(h + 1), 0);
            self.root = Some(new_root);
            self.height = Ghost(h + 1);
        }
        let ghost s = *self;
        let mut root = self.root.take().unwrap();
        let (old, inserted) = root.insert_non_full(Ghost(self.height@), key, value);
        self.root = Some(root);
        proof {
            lemma_insert_sorted(s.ents(), key, value);
        }
        if inserted {
            self.len = self.len + 1;
        }
        old
    }

    pub(crate) fn remove(&mut self, key: &u64) -> (r: Option<V>)
        requires
            old(self).wf(),
        ensures
            final(self).wf(),
            final(self).ents() == remove_entry(old(self).ents(), *key),
            r == lookup(old(self).ents(), *key),
    {
        let ghost o = *self;
        let mut root = match self.root.take() {
            Some(r) => r,
            None => {
                return None;
            },
        };
        let ghost h = self.height@;
        let removed = root.remove_from(Ghost(h), key);
        proof {
            lemma_remove_sorted(o.ents(), *key);
            o.lemma_found(*key);
        }
        if removed.is_some() {
            self.len = self.len - 1;
        }
        // an emptied root gives way to its only child, if any
        if root.keys.is_empty() {
            let ghost rr = *root;
            self.root = root.children.pop();
            proof {
                if h > 0 {
                    rr.lemma_inner(h);
                    assert(rr.blocks(h) =~= seq![rr.children@[0].ents((h - 1) as nat)]);
                    assert(rr.children@[0].wf((h - 1) as nat));
                } else {
                    assert(rr.pairs() =~= Seq::<(u64, V)>::empty());
                }
            }
            self.height = Ghost(if h > 0 { (h - 1) as nat } else { 0 });
        } else {
            self.root = Some(root);
        }
        removed
    }

    /// The entries of a well-formed tree are sorted.
    pub(crate) proof fn lemma_sorted(&self)
        requires
            self.wf(),
        ensures
            keys_sorted(self.ents()),
    {
    }

    /// What is found in the entries is found in their map.
    proof fn lemma_found(&self, key: u64)
        requires
            keys_sorted(self.ents()),
        ensures
            lookup(self.ents(), key) is Some <==> has_key(self.ents(), key),
            has_key(self.ents(), key) ==> remove_entry(self.ents(), key).len() + 1 == self.ents().len(),
            !has_key(self.ents(), key) ==> remove_entry(self.ents(), key) == self.ents(),
    {
        lemma_remove_sorted(self.ents(), key);
    }
}

/// An ordered map kept in a B-tree of minimum degree 32.
pub struct BTreeMapCustom<K, V> {
    inner: BTreeMapBase<K, V, MIN_DEGREE_CUSTOM>,
}

impl<V> OrderedMap for BTreeMapCustom<u64, V> {
    type Value = V;

    closed spec fn wf(&self) -> bool {
        self.inner.wf()
    }

    closed spec fn contents(&self) -> Map<u64, V> {
        entries_map(self.inner.ents())
    }

    fn new() -> (r: Self) {
        let r = Self { inner: BTreeMapBase::new() };
        proof {
            lemma_entries_map_empty::<V>();
        }
        r
    }

    fn len(&self) -> (r: usize) {
        let r = self.inner.len();
        proof {
            lemma_entries_map(self.inner.ents());
        }
        r
    }

    fn get(&mut self, key: &u64) -> (r: Option<&V>) {
        proof {
            lemma_entries_map(self.inner.ents());
        }
        self.inner.get(key)
    }

    fn insert(&mut self, key: u64, value: V) -> (r: Option<V>) {
        proof {
            lemma_entries_map(self.inner.ents());
            lemma_entries_map_insert(self.inner.ents(), key, value);
        }
        self.inner.insert(key, value)
    }

    fn remove(&mut self, key: &u64) -> (r: Option<V>) {
        proof {
            lemma_entries_map(self.inner.ents());
            lemma_entries_map_remove(self.inner.ents(), *key);
        }
        self.inner.remove(key)
    }

    fn lower_bound(&mut self, key: &u64) -> (r: Option<(&u64, &V)>) {
        proof {
            lemma_entries_map_lower_bound(self.inner.ents(), *key);
        }
        self.inner.lower_bound(key)
    }
}

} // verus!
