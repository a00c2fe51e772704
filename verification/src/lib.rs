use vstd::prelude::*;

pub mod gcd;
pub mod wrap;
pub mod rmq;
pub mod row_minima;
pub mod bbst;
pub mod dynamic_tree;
pub mod ordered_map;
pub mod bench;

verus! {
}

