use std::collections::HashMap;

use vstd::arithmetic::div_mod::{lemma_fundamental_div_mod, lemma_fundamental_div_mod_converse};
use vstd::arithmetic::mul::{lemma_mul_inequality, lemma_mul_is_commutative};
use vstd::arithmetic::power2::{lemma2_to64, lemma2_to64_rest, lemma_pow2_adds, lemma_pow2_pos, lemma_pow2_strictly_increases, pow2};
use vstd::bits::{lemma_u64_pow2_no_overflow, lemma_u64_low_bits_mask_is_mod, lemma_u64_shl_is_mul, lemma_u64_shr_is_div};
use vstd::prelude::*;

use crate::ordered_map::{OrderedMap, is_lower_bound};

verus! {

broadcast use vstd::std_specs::hash::group_hash_axioms;

/// The number of low bits of a key that select its place inside a cluster.
pub open spec fn low_width(w: u32) -> nat {
    (w / 2) as nat
}

/// The number of high bits of a key that select its cluster.
pub open spec fn high_width(w: u32) -> nat {
    (w - w / 2) as nat
}

/// Keys below `2^w` split into a cluster number and an offset, and back.
proof fn lemma_widths(w: u32)
    requires
        2 <= w <= 64,
    ensures
        1 <= low_width(w) <= 32,
        1 <= high_width(w) <= 32,
        low_width(w) < w,
        high_width(w) < w,
        pow2(w as nat) == pow2(high_width(w)) * pow2(low_width(w)),
        pow2(w as nat) == pow2(low_width(w)) * pow2(high_width(w)),
        pow2(low_width(w)) > 0,
        pow2(high_width(w)) > 0,
        pow2(low_width(w)) <= 0x1_0000_0000,
        pow2(high_width(w)) <= 0x1_0000_0000,
{
    lemma_pow2_le(low_width(w), 32);
    lemma_pow2_le(high_width(w), 32);
    lemma2_to64();
    lemma_pow2_adds(high_width(w), low_width(w));
    lemma_mul_is_commutative(pow2(high_width(w)) as int, pow2(low_width(w)) as int);
    lemma_pow2_pos(low_width(w));
    lemma_pow2_pos(high_width(w));
}

/// A key below `p * q` has a cluster number below `q` and an offset below `p`.
proof fn lemma_split(x: int, p: int, q: int)
    requires
        p > 0,
        q > 0,
        0 <= x < p * q,
    ensures
        0 <= x / p < q,
        0 <= x % p < p,
        x == (x / p) * p + x % p,
{
    lemma_fundamental_div_mod(x, p);
    let d = x / p;
    let r = x % p;
    assert(0 <= r < p);
    assert(d * p == p * d) by (nonlinear_arith);
    assert(0 <= d < q) by (nonlinear_arith)
        requires
            x == p * d + r,
            0 <= r < p,
            0 <= x < p * q,
            p > 0,
    ;
}

/// A cluster number below `q` and an offset below `p` give a key below `p * q`, which splits
/// back into them.
proof fn lemma_join(h: int, l: int, p: int, q: int)
    requires
        p > 0,
        0 <= h < q,
        0 <= l < p,
    ensures
        0 <= h * p + l < p * q,
        (h * p + l) / p == h,
        (h * p + l) % p == l,
        h * p + l <= (q - 1) * p + (p - 1),
{
    lemma_fundamental_div_mod_converse(h * p + l, p, h, l);
    assert(0 <= h * p) by (nonlinear_arith)
        requires
            0 <= h,
            p > 0,
    ;
    assert(h * p <= (q - 1) * p) by (nonlinear_arith)
        requires
            h <= q - 1,
            p > 0,
    ;
    assert((q - 1) * p + p == p * q) by (nonlinear_arith);
}

/// Keys compare as their cluster numbers do, and by their offsets within one cluster.
proof fn lemma_order(x: int, y: int, p: int)
    requires
        p > 0,
        0 <= x,
        0 <= y,
    ensures
        x / p < y / p ==> x < y,
        x / p == y / p ==> (x < y <==> x % p < y % p),
        x / p == y / p ==> (x <= y <==> x % p <= y % p),
        x < y ==> x / p <= y / p,
{
    lemma_fundamental_div_mod(x, p);
    lemma_fundamental_div_mod(y, p);
    let (dx, rx, dy, ry) = (x / p, x % p, y / p, y % p);
    assert(0 <= rx < p && 0 <= ry < p);
    assert(dx < dy ==> x < y) by (nonlinear_arith)
        requires
            x == p * dx + rx,
            y == p * dy + ry,
            0 <= rx < p,
            0 <= ry < p,
    ;
    assert(dy < dx ==> y < x) by (nonlinear_arith)
        requires
            x == p * dx + rx,
            y == p * dy + ry,
            0 <= rx < p,
            0 <= ry < p,
    ;
}

/// Or-ing an offset below `2^s` into a key shifted left by `s` adds it.
proof fn lemma_or_is_add(a: u64, s: u64, b: u64)
    by (bit_vector)
    requires
        s < 64,
        b < (1u64 << s),
    ensures
        (a << s) | b == (a << s) + b,
{
}

/// A van Emde Boas tree over the keys below `2^w`. The smallest key is kept in `min` alone;
/// every other key sits in the cluster numbered by its high `w - w / 2` bits, as its low
/// `w / 2` bits, and `summary` holds the numbers of the clusters in use.
struct VebNode {
    w: u32,
    min: Option<u64>,
    max: Option<u64>,
    summary: Option<Box<VebNode>>,
    clusters: HashMap<u64, Box<VebNode>>,
}

impl VebNode {
    /// The cluster number of `x`.
    spec fn slot(self, x: int) -> int {
        x / (pow2(low_width(self.w)) as int)
    }

    /// The place of `x` inside its cluster.
    spec fn offset(self, x: int) -> int {
        x % (pow2(low_width(self.w)) as int)
    }

    /// `x` is held in a cluster.
    spec fn in_clusters(self, x: int) -> bool
        decreases self.w, 0nat,
    {
        &&& self.w > 1
        &&& 0 <= x < pow2(self.w as nat)
        &&& self.clusters@.contains_key(self.slot(x) as u64)
        &&& self.clusters@[self.slot(x) as u64].w < self.w
        &&& self.clusters@[self.slot(x) as u64].has(self.offset(x))
    }

    /// `x` is one of the keys.
    spec fn has(self, x: int) -> bool
        decreases self.w, 1nat,
    {
        ||| self.min matches Some(m) && x == m
        ||| self.max matches Some(m) && x == m
        ||| self.in_clusters(x)
    }

    /// The structure is consistent: `min` and `max` are the extreme keys, `min` is in no
    /// cluster, every cluster in use holds a key, and the summary holds exactly the numbers of
    /// the clusters in use.
    spec fn wf(self) -> bool
        decreases self.w,
    {
        &&& 1 <= self.w <= 64
        &&& (self.min is Some) == (self.max is Some)
        &&& match (self.min, self.max) {
            (Some(mn), Some(mx)) => {
                &&& mn <= mx < pow2(self.w as nat)
                &&& (mn == mx || self.w <= 1) ==> self.summary is None && self.clusters@.dom()
                    == Set::<u64>::empty()
                &&& (mn != mx && self.w > 1) ==> self.summary is Some && self.in_clusters(mx as int)
                &&& forall|x: int| #[trigger] self.in_clusters(x) ==> mn < x <= mx
            },
            _ => self.summary is None && self.clusters@.dom() == Set::<u64>::empty(),
        }
        &&& self.w > 1 ==> forall|h: u64| #[trigger]
            self.clusters@.contains_key(h) ==> {
                let c = self.clusters@[h];
                &&& c.w == low_width(self.w)
                &&& h < pow2(high_width(self.w))
                &&& c.min is Some
                &&& c.wf()
            }
        &&& (self.w > 1 && self.summary is Some) ==> {
            let s = self.summary->0;
            &&& s.w == high_width(self.w)
            &&& s.wf()
            &&& forall|h: u64| #[trigger] s.has(h as int) <==> self.clusters@.contains_key(h)
        }
    }

    fn new(w: u32) -> (r: Self)
        requires
            1 <= w <= 64,
        ensures
            r.wf(),
            r.w == w,
            r.min is None,
            forall|x: int| !r.has(x),
    {
        let r = Self { w, min: None, max: None, summary: None, clusters: HashMap::new() };
        assert(r.clusters@.dom() =~= Set::<u64>::empty());
        r
    }

    fn upper_lower(&self) -> (r: (u32, u32))
        ensures
            r.0 == high_width(self.w),
            r.1 == low_width(self.w),
    {
        let lower = self.w / 2;
        let upper = self.w - lower;
        (upper, lower)
    }

    fn high(&self, x: u64) -> (r: u64)
        requires
            1 <= self.w <= 64,
        ensures
            r == self.slot(x as int),
    {
        let (_, lower) = self.upper_lower();
        if lower == 0 {
            proof {
                lemma2_to64();
            }
            x
        } else {
            proof {
                lemma_u64_shr_is_div(x, lower as u64);
            }
            x >> (lower as u64)
        }
    }

    fn low(&self, x: u64) -> (r: u64)
        requires
            1 <= self.w <= 64,
        ensures
            r == self.offset(x as int),
    {
        let (_, lower) = self.upper_lower();
        if lower == 0 {
            proof {
                lemma2_to64();
            }
            0
        } else {
            proof {
                lemma_u64_pow2_no_overflow(lower as nat);
                lemma_u64_shl_is_mul(1, lower as u64);
                lemma_u64_low_bits_mask_is_mod(x, lower as nat);
            }
            let mask = (1_u64 << (lower as u64)) - 1;
            x & mask
        }
    }

    fn index(&self, high: u64, low: u64) -> (r: u64)
        requires
            1 <= self.w <= 64,
            high < pow2(high_width(self.w)),
            low < pow2(low_width(self.w)),
        ensures
            r == high * pow2(low_width(self.w)) + low,
    {
        let (_, lower) = self.upper_lower();
        proof {
            lemma_pow2_adds(high_width(self.w), low_width(self.w));
            lemma_pow2_pos(low_width(self.w));
            lemma_join(high as int, low as int, pow2(low_width(self.w)) as int, pow2(high_width(self.w)) as int);
            lemma_pow2_le(self.w as nat, 64);
            lemma2_to64();
            lemma2_to64_rest();
        }
        if lower == 0 {
            assert(low_width(self.w) == 0 && pow2(0) == 1);
            assert(high == high * pow2(low_width(self.w)) + low) by (nonlinear_arith)
                requires
                    pow2(low_width(self.w)) == 1,
                    low < pow2(low_width(self.w)),
            ;
            high
        } else {
            proof {
                lemma_u64_pow2_no_overflow(lower as nat);
                lemma_u64_shl_is_mul(1, lower as u64);
                lemma_u64_shl_is_mul(high, lower as u64);
                lemma_or_is_add(high, lower as u64, low);
            }
            let r = (high << (lower as u64)) | low;
            assert(r == high * pow2(low_width(self.w)) + low);
            r
        }
    }
}

impl VebNode {
    /// Every key lies between `min` and `max`, below `2^w`.
    proof fn lemma_bounds(self)
        requires
            self.wf(),
        ensures
            forall|x: int| #[trigger]
                self.has(x) ==> self.min is Some && self.min->0 <= x <= self.max->0 && x < pow2(
                    self.w as nat,
                ),
            self.min is Some ==> self.has(self.min->0 as int) && self.has(self.max->0 as int),
            (self.min is Some) == (self.max is Some),
            self.min is Some ==> self.min->0 <= self.max->0 < pow2(self.w as nat),
    {
        assert forall|x: int| #[trigger]
            self.has(x) implies self.min is Some && self.min->0 <= x <= self.max->0 && x < pow2(
                self.w as nat,
            ) by {
            if self.min is None {
                assert(!self.clusters@.contains_key(self.slot(x) as u64));
                assert(!self.in_clusters(x));
                assert(false);
            } else {
                let mn = self.min->0;
                let mx = self.max->0;
                assert(mn <= mx < pow2(self.w as nat));
                if self.in_clusters(x) {
                    assert(mn < x <= mx);
                } else if x == mn {
                } else {
                    assert(x == mx);
                }
            }
        }
    }

    /// With two levels or more, the keys are `min` and those in the clusters.
    proof fn lemma_keys(self)
        requires
            self.wf(),
            self.w > 1,
            self.min is Some,
        ensures
            forall|x: int| #[trigger] self.has(x) <==> (x == self.min->0 || self.in_clusters(x)),
    {
    }

    /// `x` is in a cluster when its cluster is in use and holds its offset.
    proof fn lemma_in_clusters(self, x: int)
        requires
            self.w > 1,
            0 <= x < pow2(self.w as nat),
            self.clusters@.contains_key(self.slot(x) as u64) ==> self.clusters@[self.slot(
                x,
            ) as u64].w < self.w,
        ensures
            self.in_clusters(x) <==> (self.clusters@.contains_key(self.slot(x) as u64)
                && self.clusters@[self.slot(x) as u64].has(self.offset(x))),
    {
    }

    /// Whether a key is in a cluster depends on the clusters alone.
    proof fn lemma_same_clusters(self, other: Self)
        requires
            self.w == other.w,
            self.clusters == other.clusters,
        ensures
            forall|z: int| #[trigger] self.in_clusters(z) == other.in_clusters(z),
    {
        assert forall|z: int| #[trigger] self.in_clusters(z) == other.in_clusters(z) by {}
    }

    /// The smallest key above `x`.
    fn successor(&self, x: u64) -> (r: Option<u64>)
        requires
            self.wf(),
        ensures
            match r {
                Some(y) => self.has(y as int) && x < y && forall|z: int| #[trigger]
                    self.has(z) && x < z ==> y <= z,
                None => forall|z: int| #[trigger] self.has(z) ==> z <= x,
            },
        decreases self.w,
    {
        proof {
            self.lemma_bounds();
        }
        let min = self.min?;
        let max = self.max?;
        if x < min {
            return Some(min);
        }
        if self.w <= 1 {
            proof {
                lemma2_to64();
                assert forall|z: int| #[trigger] self.has(z) implies z == min || z == max by {}
            }
            if x == 0 && max == 1 {
                return Some(1);
            }
            return None;
        }
        let ghost p = pow2(low_width(self.w)) as int;
        let ghost q = pow2(high_width(self.w)) as int;
        proof {
            lemma_widths(self.w);
            self.lemma_keys();
        }
        let h = self.high(x);
        let l = self.low(x);
        proof {
            lemma_fundamental_div_mod(x as int, p);
        }
        match self.clusters.get(&h) {
            Some(cluster) => {
                if cluster.max.is_some() && l < cluster.max.unwrap() {
                    proof {
                        cluster.lemma_bounds();
                    }
                    let offset = cluster.successor(l).unwrap();
                    proof {
                        cluster.lemma_bounds();
                        lemma_join(h as int, offset as int, p, q);
                    }
                    let y = self.index(h, offset);
                    proof {
                        lemma_order(x as int, y as int, p);
                        self.lemma_in_clusters(y as int);
                        assert forall|z: int| #[trigger] self.has(z) && x < z implies y <= z by {
                            if z != min {
                                self.lemma_in_clusters(z);
                                lemma_order(x as int, z, p);
                                lemma_order(y as int, z, p);
                                if self.slot(z) == h as int {
                                    assert(cluster.has(self.offset(z)));
                                    assert(offset <= self.offset(z));
                                }
                            }
                        }
                    }
                    return Some(y);
                }
                proof {
                    assert(self.clusters@[h] == *cluster);
                    cluster.lemma_bounds();
                    assert(self.clusters@[h].max->0 <= l);
                }
            },
            None => {},
        }
        proof {
            assert forall|z: int| #[trigger] self.in_clusters(z) && z / p == h implies z <= x by {
                self.lemma_in_clusters(z);
                self.clusters@[h].lemma_bounds();
                lemma_order(x as int, z, p);
            }
        }
        let succ_cluster = match &self.summary {
            Some(s) => match s.successor(h) {
                Some(g) => g,
                None => {
                    proof {
                        assert forall|z: int| #[trigger] self.has(z) implies z <= x by {
                            if z != min {
                                self.lemma_in_clusters(z);
                                assert(s.has(self.slot(z) as u64 as int));
                                lemma_order(z, x as int, p);
                            }
                        }
                    }
                    return None;
                },
            },
            None => return None,
        };
        let cluster = self.clusters.get(&succ_cluster)?;
        let offset = cluster.min?;
        proof {
            cluster.lemma_bounds();
            lemma_join(succ_cluster as int, offset as int, p, q);
        }
        let y = self.index(succ_cluster, offset);
        proof {
            lemma_order(x as int, y as int, p);
            self.lemma_in_clusters(y as int);
            assert forall|z: int| #[trigger] self.has(z) && x < z implies y <= z by {
                if z != min {
                    self.lemma_in_clusters(z);
                    lemma_order(x as int, z, p);
                    lemma_order(y as int, z, p);
                    let gz = self.slot(z) as u64;
                    if gz != h {
                        let s = self.summary->0;
                        assert(s.has(gz as int));
                        assert(succ_cluster <= gz);
                        if gz == succ_cluster {
                            assert(cluster.has(self.offset(z)));
                        }
                    }
                }
            }
        }
        Some(y)
    }
}

impl VebNode {
    fn empty_insert(&mut self, x: u64)
        requires
            old(self).wf(),
            old(self).min is None,
            x < pow2(old(self).w as nat),
        ensures
            final(self).wf(),
            final(self).w == old(self).w,
            final(self).min == Some(x),
            forall|z: int| #[trigger] final(self).has(z) <==> z == x,
    {
        self.min = Some(x);
        self.max = Some(x);
        proof {
            assert forall|z: int| #[trigger] self.has(z) implies z == x by {
                assert(!self.clusters@.contains_key(self.slot(z) as u64));
            }
        }
    }

    /// Put in `x`, a key below `2^w` that is not there yet.
    fn insert(&mut self, x: u64)
        requires
            old(self).wf(),
            x < pow2(old(self).w as nat),
            !old(self).has(x as int),
        ensures
            final(self).wf(),
            final(self).w == old(self).w,
            final(self).min is Some,
            forall|z: int| #[trigger] final(self).has(z) <==> (old(self).has(z) || z == x),
        decreases old(self).w,
    {
        let ghost s0 = *self;
        let ghost x0 = x;
        let mut x = x;
        if self.min.is_none() {
            self.empty_insert(x);
            return;
        }
        proof {
            s0.lemma_bounds();
        }
        let min = self.min.unwrap();
        if x < min {
            self.min = Some(x);
            x = min;
        }
        if x > self.max.unwrap() {
            self.max = Some(x);
        }
        if self.w > 1 {
            let ghost p = pow2(low_width(self.w)) as int;
            let ghost q = pow2(high_width(self.w)) as int;
            proof {
                lemma_widths(self.w);
                s0.lemma_keys();
            }
            let (upper, lower) = self.upper_lower();
            let h = self.high(x);
            let l = self.low(x);
            proof {
                lemma_split(x as int, p, q);
                s0.lemma_in_clusters(x as int);
            }
            let ghost present = s0.clusters@.contains_key(h);
            let mut cluster = match self.clusters.remove(&h) {
                Some(c) => c,
                None => Box::new(VebNode::new(lower)),
            };
            let ghost c0 = cluster;
            proof {
                c0.lemma_bounds();
            }
            if cluster.min.is_none() {
                if self.summary.is_none() {
                    self.summary = Some(Box::new(VebNode::new(upper)));
                }
                let mut summary = self.summary.take().unwrap();
                summary.insert(h);
                self.summary = Some(summary);
                cluster.empty_insert(l);
            } else {
                cluster.insert(l);
            }
            let ghost c1 = cluster;
            self.clusters.insert(h, cluster);
            proof {
                assert(self.clusters@ == s0.clusters@.insert(h, c1));
                assert forall|z: int| 0 <= z < pow2(self.w as nat) implies #[trigger] self.in_clusters(z)
                    <==> (s0.in_clusters(z) || z == x) by {
                    lemma_split(z, p, q);
                    s0.lemma_in_clusters(z);
                    self.lemma_in_clusters(z);
                    if self.slot(z) == h as int {
                        assert(self.slot(z) as u64 == h);
                        assert(self.clusters@[h] == c1);
                        assert(s0.in_clusters(z) <==> (present && s0.clusters@[h].has(
                            self.offset(z),
                        )));
                        assert(present ==> c0 == s0.clusters@[h]);
                        assert(!present ==> !c0.has(self.offset(z)));
                        if self.offset(z) == l as int {
                            assert(z == x);
                        } else {
                            assert(z != x);
                        }
                    } else {
                        assert(self.slot(z) as u64 != h);
                    }
                }
                assert forall|z: int| #[trigger] self.in_clusters(z) <==> (s0.in_clusters(z) || z
                    == x) by {
                    if !(0 <= z < pow2(self.w as nat)) {
                        assert(!self.in_clusters(z));
                        assert(!s0.in_clusters(z));
                    }
                }
                c1.lemma_bounds();
                assert(self.wf());
            }
        }
        proof {
            if self.w <= 1 {
                lemma2_to64();
                assert(s0.min == s0.max);
            }
            assert forall|z: int| #[trigger] self.has(z) <==> (s0.has(z) || z == x0) by {
                if self.w > 1 {
                    self.lemma_keys();
                    s0.lemma_keys();
                }
            }
        }
    }
}

impl VebNode {
    /// Take out `x`, one of the keys.
    fn remove(&mut self, x: u64)
        requires
            old(self).wf(),
            old(self).has(x as int),
        ensures
            final(self).wf(),
            final(self).w == old(self).w,
            forall|z: int| #[trigger] final(self).has(z) <==> (old(self).has(z) && z != x),
        decreases old(self).w,
    {
        let ghost s0 = *self;
        let ghost x0 = x;
        proof {
            s0.lemma_bounds();
        }
        let mut x = x;
        let min = self.min.expect("remove on empty vEB");
        let max = self.max.expect("remove on empty vEB");
        if min == max {
            self.min = None;
            self.max = None;
            self.summary = None;
            self.clusters.clear();
            proof {
                assert forall|z: int| #[trigger] self.has(z) <==> (s0.has(z) && z != x0) by {
                    assert(!self.clusters@.contains_key(self.slot(z) as u64));
                    if s0.has(z) && self.w > 1 {
                        s0.lemma_keys();
                    }
                }
            }
            return;
        }
        if self.w <= 1 {
            proof {
                lemma2_to64();
            }
            if x == 0 {
                self.min = Some(1);
                self.max = Some(1);
            } else {
                self.min = Some(0);
                self.max = Some(0);
            }
            return;
        }
        let ghost p = pow2(low_width(self.w)) as int;
        let ghost q = pow2(high_width(self.w)) as int;
        proof {
            lemma_widths(self.w);
            s0.lemma_keys();
            s0.lemma_in_clusters(max as int);
            s0.summary->0.lemma_bounds();
            assert(s0.summary->0.has(s0.slot(max as int) as u64 as int));
        }
        if x == min {
            let first_cluster = self.summary.as_ref().unwrap().min.expect("non-empty summary");
            let cluster = self.clusters.get(&first_cluster).expect("cluster exists");
            let new_low = cluster.min.expect("non-empty cluster");
            proof {
                cluster.lemma_bounds();
            }
            x = self.index(first_cluster, new_low);
            self.min = Some(x);
            proof {
                lemma_join(first_cluster as int, new_low as int, p, q);
                s0.lemma_in_clusters(x as int);
                assert forall|z: int| #[trigger] s0.in_clusters(z) implies x <= z by {
                    s0.lemma_in_clusters(z);
                    lemma_split(z, p, q);
                    assert(s0.summary->0.has(self.slot(z) as u64 as int));
                    lemma_order(x as int, z, p);
                    if self.slot(z) == first_cluster as int {
                        assert(cluster.has(self.offset(z)));
                    }
                }
            }
        }
        proof {
            assert(s0.in_clusters(x as int));
            s0.lemma_in_clusters(x as int);
            lemma_split(x as int, p, q);
        }
        let h = self.high(x);
        let l = self.low(x);
        let mut cluster = self.clusters.remove(&h).expect("cluster exists");
        cluster.remove(l);
        let ghost c1 = cluster;
        proof {
            c1.lemma_bounds();
        }
        if cluster.min.is_none() {
            let mut summary = self.summary.take().unwrap();
            summary.remove(h);
            proof {
                assert(self.clusters@ == s0.clusters@.remove(h));
                assert forall|z: int| #[trigger] self.in_clusters(z) <==> (s0.in_clusters(z) && z
                    != x) by {
                    if 0 <= z < pow2(self.w as nat) {
                        lemma_split(z, p, q);
                        s0.lemma_in_clusters(z);
                        self.lemma_in_clusters(z);
                        if self.slot(z) == h as int {
                            assert(self.slot(z) as u64 == h);
                            assert(!c1.has(self.offset(z)));
                        } else {
                            assert(self.slot(z) as u64 != h);
                        }
                    }
                }
            }
            let ghost s1 = *self;
            if summary.min.is_none() {
                self.summary = None;
                self.max = self.min;
                proof {
                    self.lemma_same_clusters(s1);
                    summary.lemma_bounds();
                    assert(self.clusters@.dom() =~= Set::<u64>::empty()) by {
                        assert forall|g: u64| !self.clusters@.contains_key(g) by {
                            assert(!summary.has(g as int));
                        }
                    }
                    assert forall|z: int| #[trigger] self.has(z) <==> (s0.has(z) && z != x0) by {
                        assert(!self.clusters@.contains_key(self.slot(z) as u64));
                        assert(!self.in_clusters(z));
                        assert(self.has(z) <==> z == self.min->0);
                        assert(s0.has(z) <==> (z == min || s0.in_clusters(z)));
                        if x0 == min {
                            assert(self.min->0 == x);
                            assert(s0.in_clusters(x as int));
                            assert(x != min);
                        } else {
                            assert(self.min->0 == min);
                            assert(x == x0);
                        }
                    }
                }
            } else {
                self.summary = Some(summary);
                if x == max {
                    let summary_max = self.summary.as_ref().unwrap().max.unwrap();
                    proof {
                        summary.lemma_bounds();
                        assert(s0.summary->0.has(summary_max as int));
                        s0.clusters@[summary_max].lemma_bounds();
                    }
                    let cluster = self.clusters.get(&summary_max).unwrap();
                    let new_low = cluster.max.unwrap();
                    proof {
                        summary.lemma_bounds();
                        cluster.lemma_bounds();
                        lemma_join(summary_max as int, new_low as int, p, q);
                    }
                    self.max = Some(self.index(summary_max, new_low));
                    proof {
                        let m = self.max->0 as int;
                        self.lemma_in_clusters(m);
                        assert forall|z: int| #[trigger] self.in_clusters(z) implies z <= m by {
                            self.lemma_in_clusters(z);
                            lemma_split(z, p, q);
                            assert(summary.has(self.slot(z) as u64 as int));
                            lemma_order(z, m, p);
                            if self.slot(z) == summary_max as int {
                                assert(cluster.has(self.offset(z)));
                            }
                        }
                    }
                }
                proof {
                    self.lemma_same_clusters(s1);
                    assert(self.wf());
                    self.lemma_keys();
                    assert forall|z: int| #[trigger] self.has(z) <==> (s0.has(z) && z != x0) by {}
                }
            }
        } else {
            if x == max {
                let new_low = cluster.max.unwrap();
                proof {
                    lemma_join(h as int, new_low as int, p, q);
                }
                self.max = Some(self.index(h, new_low));
            }
            self.clusters.insert(h, cluster);
            proof {
                assert(self.clusters@ == s0.clusters@.insert(h, c1));
                assert forall|z: int| #[trigger] self.in_clusters(z) <==> (s0.in_clusters(z) && z
                    != x) by {
                    if 0 <= z < pow2(self.w as nat) {
                        lemma_split(z, p, q);
                        s0.lemma_in_clusters(z);
                        self.lemma_in_clusters(z);
                        if self.slot(z) == h as int {
                            assert(self.slot(z) as u64 == h);
                        } else {
                            assert(self.slot(z) as u64 != h);
                        }
                    }
                }
                let m = self.max->0 as int;
                self.lemma_in_clusters(m);
                if x == max {
                    assert forall|z: int| #[trigger] self.in_clusters(z) implies z <= m by {
                        self.lemma_in_clusters(z);
                        lemma_split(z, p, q);
                        lemma_order(z, x as int, p);
                        lemma_order(z, m, p);
                        if self.slot(z) == h as int {
                            assert(self.slot(z) as u64 == h);
                            assert(c1.has(self.offset(z)));
                        }
                    }
                }
                assert(self.wf());
                self.lemma_keys();
                assert forall|z: int| #[trigger] self.has(z) <==> (s0.has(z) && z != x0) by {}
            }
        }
    }
}

/// `HashMap::get_key_value`. The standard library documents that it gives the entry of the key
/// asked for when the map holds that key, and nothing otherwise.
#[verifier::external_body]
fn get_key_value<'a, V>(m: &'a HashMap<u64, V>, key: &u64) -> (r: Option<(&'a u64, &'a V)>)
    ensures
        match r {
            Some((k, v)) => m@.contains_key(*key) && *k == *key && *v == m@[*key],
            None => !m@.contains_key(*key),
        },
{
    m.get_key_value(key)
}

/// An ordered map whose keys are kept in a van Emde Boas tree over all `u64` keys, with the
/// values in a hash map.
pub struct VebMap<V> {
    tree: VebNode,
    entries: HashMap<u64, V>,
    len: usize,
}

impl<V> OrderedMap for VebMap<V> {
    type Value = V;

    closed spec fn wf(&self) -> bool {
        &&& self.tree.wf()
        &&& self.tree.w == 64
        &&& forall|k: u64| #[trigger] self.tree.has(k as int) <==> self.entries@.contains_key(k)
        &&& self.len == self.entries@.len()
    }

    closed spec fn contents(&self) -> Map<u64, V> {
        self.entries@
    }

    fn new() -> (r: Self) {
        let r = Self { tree: VebNode::new(64), entries: HashMap::new(), len: 0 };
        assert(r.entries@.dom() =~= Set::<u64>::empty());
        r
    }

    fn len(&self) -> (r: usize) {
        self.len
    }

    fn get(&mut self, key: &u64) -> (r: Option<&V>) {
        self.entries.get(key)
    }

    fn insert(&mut self, key: u64, value: V) -> (r: Option<V>) {
        let old = self.entries.insert(key, value);
        if old.is_none() {
            proof {
                lemma2_to64_rest();
            }
            self.tree.insert(key);
            self.len += 1;
        }
        proof {
            self.tree.lemma_bounds();
            lemma2_to64_rest();
        }
        old
    }

    fn remove(&mut self, key: &u64) -> (r: Option<V>) {
        let value = match self.entries.remove(key) {
            Some(v) => v,
            None => return None,
        };
        self.tree.remove(*key);
        self.len -= 1;
        Some(value)
    }

    fn lower_bound(&mut self, key: &u64) -> (r: Option<(&u64, &V)>) {
        if let Some((k, v)) = get_key_value(&self.entries, key) {
            return Some((k, v));
        }
        proof {
            self.tree.lemma_bounds();
            lemma2_to64_rest();
        }
        let succ = match self.tree.successor(*key) {
            Some(y) => y,
            None => {
                proof {
                    assert forall|j: u64| self.entries@.contains_key(j) implies j < *key by {
                        assert(self.tree.has(j as int));
                    }
                }
                return None;
            },
        };
        proof {
            assert(self.tree.has(succ as int));
            assert forall|j: u64| self.entries@.contains_key(j) && *key <= j implies succ <= j by {
                assert(self.tree.has(j as int));
            }
        }
        get_key_value(&self.entries, &succ)
    }
}

/// Powers of two grow with the exponent.
proof fn lemma_pow2_le(a: nat, b: nat)
    requires
        a <= b,
    ensures
        pow2(a) <= pow2(b),
{
    if a < b {
        lemma_pow2_strictly_increases(a, b);
    }
}

} // verus!
