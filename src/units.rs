//! The unit store and the meaning of a walk over it.
//!
//! A unit is one 32-bit word. A value unit has its top bit set and holds a
//! non-negative `i32` in the other 31 bits. Any other unit is a node: its low
//! eight bits are the label of the transition that enters it, bit 8 says
//! whether a key ends there, and bits 9 to 30 hold its base. A transition
//! from node `s` on byte `b` leads to `t = base(s) + b + 1` and exists iff
//! `t` is a node labelled `b`. A node that ends a key keeps its value in the
//! value unit at `base(s)`. Unused units are value units, so no transition
//! enters them.
use vstd::prelude::*;

verus! {

/// Byte width of one unit.
pub const UNIT_BYTES: usize = 4;

/// Largest value a value unit can hold.
pub const MAX_VALUE: u32 = 0x7fff_ffff;

/// The top bit, set in value units.
pub const VALUE_FLAG: u32 = 0x8000_0000;

/// Number of units in a word array.
pub open spec fn unit_count(a: Seq<u32>) -> nat {
    a.len()
}

pub open spec fn is_value(u: u32) -> bool {
    u >= VALUE_FLAG
}

pub open spec fn label_of(u: u32) -> u32 {
    u & 0xff
}

pub open spec fn has_leaf(u: u32) -> bool {
    (u >> 8u32) & 1 == 1
}

pub open spec fn base_of(u: u32) -> int {
    ((u >> 9u32) & 0x3f_ffff) as int
}

/// The node reached from `s` on byte `b`, if that transition exists.
pub open spec fn step(a: Seq<u32>, s: int, b: u8) -> Option<int> {
    let t = base_of(a[s]) + b as int + 1;
    if t < unit_count(a) && !is_value(a[t]) && label_of(a[t]) == b as u32 {
        Some(t)
    } else {
        None
    }
}

/// The node reached from `s` by following every byte of `key`.
pub open spec fn walk(a: Seq<u32>, s: int, key: Seq<u8>) -> Option<int>
    decreases key.len(),
{
    if key.len() == 0 {
        Some(s)
    } else {
        match walk(a, s, key.drop_last()) {
            Some(m) => step(a, m, key.last()),
            None => None,
        }
    }
}

/// The value stored for node `n`, if `n` ends a key.
pub open spec fn leaf_value(a: Seq<u32>, n: int) -> Option<i32> {
    let t = base_of(a[n]);
    if has_leaf(a[n]) && t < unit_count(a) && is_value(a[t]) {
        Some((a[t] & MAX_VALUE) as i32)
    } else {
        None
    }
}

/// No two nodes share a base.
pub open spec fn distinct_bases(a: Seq<u32>) -> bool {
    forall|m1: int, m2: int|
        0 <= m1 < a.len() && 0 <= m2 < a.len() && !is_value(a[m1]) && !is_value(a[m2])
            && base_of(a[m1]) == base_of(a[m2]) ==> m1 == m2
}

/// Exact-match lookup of `key` starting at node `start`.
pub open spec fn find_from(a: Seq<u32>, start: int, key: Seq<u8>) -> Option<i32> {
    if 0 <= start < unit_count(a) {
        match walk(a, start, key) {
            Some(n) => leaf_value(a, n),
            None => None,
        }
    } else {
        None
    }
}

pub open spec fn opt_seq(v: Option<i32>) -> Seq<i32> {
    match v {
        Some(x) => seq![x],
        None => Seq::empty(),
    }
}

/// The values of every prefix of `key` (the empty one included) that
/// reaches a terminal node from `s`, shortest prefix first.
pub open spec fn prefix_values(a: Seq<u32>, s: int, key: Seq<u8>) -> Seq<i32>
    decreases key.len(),
{
    if key.len() == 0 {
        opt_seq(leaf_value(a, s))
    } else {
        let earlier = prefix_values(a, s, key.drop_last());
        match walk(a, s, key) {
            Some(n) => earlier + opt_seq(leaf_value(a, n)),
            None => earlier,
        }
    }
}

/// Every node on a walk lies inside the store.
pub proof fn lemma_walk_in_bounds(a: Seq<u32>, s: int, key: Seq<u8>)
    requires
        0 <= s < unit_count(a),
    ensures
        walk(a, s, key) matches Some(n) ==> 0 <= n < unit_count(a) && (key.len() > 0 ==> !is_value(
            a[n],
        )),
    decreases key.len(),
{
    if key.len() > 0 {
        lemma_walk_in_bounds(a, s, key.drop_last());
    }
}

/// Walking one more byte extends the walk by one step.
pub proof fn lemma_walk_push(a: Seq<u32>, s: int, key: Seq<u8>, b: u8)
    ensures
        walk(a, s, key.push(b)) == (match walk(a, s, key) {
            Some(m) => step(a, m, b),
            None => None,
        }),
{
    assert(key.push(b).drop_last() =~= key);
}

/// When no two nodes share a base, two keys that reach the same node from
/// the root are equal.
pub proof fn lemma_walk_injective(a: Seq<u32>, k1: Seq<u8>, k2: Seq<u8>)
    requires
        0 < unit_count(a),
        !is_value(a[0]),
        distinct_bases(a),
        walk(a, 0, k1) is Some,
        walk(a, 0, k1) == walk(a, 0, k2),
    ensures
        k1 == k2,
    decreases k1.len() + k2.len(),
{
    if k1.len() == 0 && k2.len() == 0 {
        assert(k1 =~= k2);
    } else if k1.len() == 0 || k2.len() == 0 {
        lemma_walk_in_bounds(a, 0, k1.drop_last());
        lemma_walk_in_bounds(a, 0, k2.drop_last());
    } else {
        let m1 = walk(a, 0, k1.drop_last()).unwrap();
        let m2 = walk(a, 0, k2.drop_last()).unwrap();
        lemma_walk_in_bounds(a, 0, k1.drop_last());
        lemma_walk_in_bounds(a, 0, k2.drop_last());
        assert(m1 == m2);
        lemma_walk_injective(a, k1.drop_last(), k2.drop_last());
        assert(k1 =~= k1.drop_last().push(k1.last()));
        assert(k2 =~= k2.drop_last().push(k2.last()));
    }
}

/// Walking `p` and then `q` from the node reached is walking `p + q`: a
/// walk resumed at an inner node goes where the whole walk goes.
pub proof fn lemma_walk_append(a: Seq<u32>, s: int, p: Seq<u8>, q: Seq<u8>)
    ensures
        walk(a, s, p + q) == (match walk(a, s, p) {
            Some(m) => walk(a, m, q),
            None => None,
        }),
    decreases q.len(),
{
    if q.len() == 0 {
        assert(p + q =~= p);
    } else {
        assert((p + q).drop_last() =~= p + q.drop_last());
        lemma_walk_append(a, s, p, q.drop_last());
    }
}

/// Number of units held by `a`.
pub fn units_in(a: &Vec<u32>) -> (r: usize)
    ensures
        r == unit_count(a@),
{
    a.len()
}

/// The base of a node unit.
pub fn unit_base(u: u32) -> (r: usize)
    ensures
        r == base_of(u),
        r < 0x40_0000,
{
    let b = (u >> 9u32) & 0x3f_ffff;
    assert(((u >> 9u32) & 0x3f_ffff) <= 0x3f_ffff) by (bit_vector);
    b as usize
}

/// One transition of the walk.
pub fn exec_step(a: &Vec<u32>, s: usize, b: u8) -> (r: Option<usize>)
    requires
        s < unit_count(a@),
    ensures
        r matches Some(t) ==> step(a@, s as int, b) == Some(t as int),
        r is None ==> step(a@, s as int, b) is None,
{
    let t = unit_base(a[s]) + b as usize + 1;
    if t < a.len() {
        let u = a[t];
        if u < VALUE_FLAG && u & 0xff == b as u32 {
            return Some(t);
        }
    }
    None
}

/// The value stored for node `n`, if any.
pub fn exec_leaf_value(a: &Vec<u32>, n: usize) -> (r: Option<i32>)
    requires
        n < unit_count(a@),
    ensures
        r == leaf_value(a@, n as int),
{
    let u = a[n];
    let t = unit_base(u);
    if (u >> 8u32) & 1 == 1 && t < a.len() && a[t] >= VALUE_FLAG {
        Some((a[t] & MAX_VALUE) as i32)
    } else {
        None
    }
}

/// Walks `key` from node `s` to its end.
pub fn exec_walk(a: &Vec<u32>, s: usize, key: &[u8]) -> (r: Option<usize>)
    requires
        s < unit_count(a@),
    ensures
        r matches Some(n) ==> walk(a@, s as int, key@) == Some(n as int) && n < unit_count(a@),
        r is None ==> walk(a@, s as int, key@) is None,
{
    let mut cur = s;
    let mut i: usize = 0;
    while i < key.len()
        invariant
            s < unit_count(a@),
            i <= key@.len(),
            cur < unit_count(a@),
            walk(a@, s as int, key@.take(i as int)) == Some(cur as int),
        decreases key@.len() - i,
    {
        proof {
            lemma_walk_push(a@, s as int, key@.take(i as int), key@[i as int]);
            assert(key@.take(i as int).push(key@[i as int]) =~= key@.take(i + 1));
        }
        match exec_step(a, cur, key[i]) {
            Some(t) => {
                cur = t;
            },
            None => {
                proof {
                    lemma_walk_none_extends(a@, s as int, key@.take(i + 1), key@);
                }
                return None;
            },
        }
        i = i + 1;
    }
    assert(key@.take(i as int) =~= key@);
    Some(cur)
}

/// A walk that fails on a prefix fails on every extension of it.
pub proof fn lemma_walk_none_extends(a: Seq<u32>, s: int, pre: Seq<u8>, key: Seq<u8>)
    requires
        pre.len() <= key.len(),
        pre == key.take(pre.len() as int),
        walk(a, s, pre) is None,
    ensures
        walk(a, s, key) is None,
    decreases key.len() - pre.len(),
{
    if pre.len() < key.len() {
        let next = key.take(pre.len() + 1 as int);
        assert(next.drop_last() =~= pre);
        lemma_walk_none_extends(a, s, next, key);
    } else {
        assert(pre =~= key);
    }
}

/// Once a walk fails, longer keys add no prefix values.
pub proof fn lemma_prefix_values_stable(a: Seq<u32>, s: int, pre: Seq<u8>, key: Seq<u8>)
    requires
        pre.len() < key.len(),
        pre == key.take(pre.len() as int),
        walk(a, s, key.take(pre.len() + 1 as int)) is None,
    ensures
        prefix_values(a, s, key) == prefix_values(a, s, pre),
    decreases key.len() - pre.len(),
{
    let next = key.take(pre.len() + 1 as int);
    assert(next.drop_last() =~= pre);
    if pre.len() + 1 < key.len() {
        assert(key.take(pre.len() + 2 as int).take(pre.len() + 1 as int) =~= next);
        lemma_walk_none_extends(a, s, next, key.take(pre.len() + 2 as int));
        lemma_prefix_values_stable(a, s, next, key);
    } else {
        assert(next =~= key);
    }
}

} // verus!
