//! A direct layout, proved correct: every node owns a fresh block of 257
//! slots (its value slot, then one slot per byte), so no two nodes ever
//! compete for a slot. It takes more room than the packed layout of
//! `builder`, and is used when that layout cannot be confirmed.
use vstd::prelude::*;
use vstd::string::StringSliceAdditionalSpecFns;
use crate::builder::MAX_UNITS;
use crate::checker::is_key_prefix;
use crate::model::{key_seqs, last_value};
use crate::units::{
    base_of, distinct_bases, find_from, has_leaf, is_value, label_of,
    lemma_walk_in_bounds, lemma_walk_injective, lemma_walk_push, step, walk, MAX_VALUE,
    VALUE_FLAG, exec_step, unit_base,
};

verus! {

/// Slots in one node's block.
pub const BLOCK: usize = 257;

/// A node unit with label `b`, no value and children from `base` on.
pub open spec fn node_word(b: u8, base: int) -> u32 {
    (b as u32) | ((base as u32) << 9u32)
}

pub proof fn lemma_node_word(b: u8, base: u32)
    requires
        base < 0x40_0000,
    ensures
        !is_value(node_word(b, base as int)),
        label_of(node_word(b, base as int)) == b as u32,
        !has_leaf(node_word(b, base as int)),
        base_of(node_word(b, base as int)) == base as int,
{
    let w = (b as u32) | (base << 9u32);
    assert(w == node_word(b, base as int));
    let bb = b as u32;
    assert(bb < 256 && base < 0x40_0000 ==> ((bb | (base << 9u32)) < 0x8000_0000 && ((bb | (base
        << 9u32)) & 0xff) == bb && (((bb | (base << 9u32)) >> 8u32) & 1) == 0 && (((bb | (base
        << 9u32)) >> 9u32) & 0x3f_ffff) == base)) by (bit_vector);
}

pub proof fn lemma_set_leaf(u: u32)
    requires
        !is_value(u),
    ensures
        !is_value(u | 0x100),
        label_of(u | 0x100) == label_of(u),
        has_leaf(u | 0x100),
        base_of(u | 0x100) == base_of(u),
{
    assert(u < 0x8000_0000 ==> ((u | 0x100) < 0x8000_0000 && ((u | 0x100) & 0xff) == (u & 0xff)
        && (((u | 0x100) >> 8u32) & 1) == 1 && (((u | 0x100) >> 9u32) & 0x3f_ffff) == ((u
        >> 9u32) & 0x3f_ffff))) by (bit_vector);
}

pub proof fn lemma_value_word(v: u32)
    requires
        v <= MAX_VALUE,
    ensures
        is_value(VALUE_FLAG | v),
        ((VALUE_FLAG | v) & MAX_VALUE) == v,
{
    assert(v <= 0x7fff_ffff ==> ((0x8000_0000u32 | v) >= 0x8000_0000 && ((0x8000_0000u32 | v)
        & 0x7fff_ffff) == v)) by (bit_vector);
}

/// The shape that every direct layout keeps: the root is a node; each node's
/// block lies inside the store, past slot 0, apart from every other block;
/// and every other node sits in its parent's block at the slot of its label.
pub open spec fn laid_out(a: Seq<u32>, par: Map<int, int>) -> bool {
    &&& 0 < a.len() <= MAX_UNITS
    &&& !is_value(a[0])
    &&& forall|n: int|
        0 <= n < a.len() && !is_value(#[trigger] a[n]) ==> 1 <= base_of(a[n]) && base_of(a[n])
            + BLOCK <= a.len()
    &&& forall|n1: int, n2: int|
        0 <= n1 < a.len() && 0 <= n2 < a.len() && !is_value(#[trigger] a[n1]) && !is_value(
            #[trigger] a[n2],
        ) && n1 != n2 ==> base_of(a[n1]) + BLOCK <= base_of(a[n2]) || base_of(a[n2]) + BLOCK
            <= base_of(a[n1])
    &&& forall|t: int|
        0 < t < a.len() && !is_value(#[trigger] a[t]) ==> par.contains_key(t) && 0 <= par[t]
            < a.len() && !is_value(a[par[t]]) && base_of(a[par[t]]) + 1 + label_of(a[t]) == t
}

pub proof fn lemma_laid_out_bases(a: Seq<u32>, par: Map<int, int>)
    requires
        laid_out(a, par),
    ensures
        distinct_bases(a),
{
    assert forall|m1: int, m2: int|
        0 <= m1 < a.len() && 0 <= m2 < a.len() && !is_value(a[m1]) && !is_value(a[m2])
            && base_of(a[m1]) == base_of(a[m2]) implies m1 == m2 by {
        if m1 != m2 {
            assert(!is_value(a[m1]) && !is_value(a[m2]));
        }
    }
}

pub proof fn lemma_label_small(w: u32)
    ensures
        label_of(w) < 256,
{
    assert((w & 0xff) < 256) by (bit_vector);
}

/// A node in the block of `m`, past its value slot, is a child of `m`.
pub proof fn lemma_slot_owner(a: Seq<u32>, par: Map<int, int>, m: int, c: int)
    requires
        laid_out(a, par),
        0 <= m < a.len(),
        !is_value(a[m]),
        0 <= c < 256,
        !is_value(a[base_of(a[m]) + 1 + c]),
    ensures
        par[base_of(a[m]) + 1 + c] == m,
        label_of(a[base_of(a[m]) + 1 + c]) == c,
{
    let u = base_of(a[m]) + 1 + c;
    assert(!is_value(a[u]));
    let p = par[u];
    assert(!is_value(a[p]));
    lemma_label_small(a[u]);
    if p != m {
        assert(!is_value(a[m]) && !is_value(a[p]));
    }
}

/// The value slot of a node holds no node.
pub proof fn lemma_value_slot_free(a: Seq<u32>, par: Map<int, int>, m: int)
    requires
        laid_out(a, par),
        0 <= m < a.len(),
        !is_value(a[m]),
    ensures
        is_value(a[base_of(a[m])]),
{
    let u = base_of(a[m]);
    assert(1 <= u && u + BLOCK <= a.len());
    if !is_value(a[u]) {
        let p = par[u];
        assert(0 <= p < a.len() && base_of(a[p]) + 1 + label_of(a[u]) == u);
        lemma_label_small(a[u]);
        assert(!is_value(a[p]));
        if p != m {
            assert(!is_value(a[m]) && !is_value(a[p]));
        }
    }
}

/// `a` with a node for label `b` put at slot `t` and a fresh block for it
/// appended.
pub open spec fn with_child(a: Seq<u32>, t: int, b: u8) -> Seq<u32> {
    a.update(t, node_word(b, a.len() as int)) + Seq::new(BLOCK as nat, |i: int| VALUE_FLAG)
}

/// Facts about the nodes that walks reach from the root.
pub proof fn lemma_walk_node(a: Seq<u32>, par: Map<int, int>, k: Seq<u8>)
    requires
        laid_out(a, par),
        walk(a, 0, k) is Some,
    ensures
        0 <= walk(a, 0, k).unwrap() < a.len(),
        !is_value(a[walk(a, 0, k).unwrap()]),
{
    lemma_walk_in_bounds(a, 0, k);
}

/// Adding a child `t` of `cur` on byte `b` adds exactly one walk, to `t`,
/// and changes no answer of a lookup.
#[verifier::rlimit(50)]
pub proof fn lemma_create_walk(
    a: Seq<u32>,
    par: Map<int, int>,
    cur: int,
    p: Seq<u8>,
    b: u8,
    t: int,
    k: Seq<u8>,
)
    requires
        laid_out(a, par),
        walk(a, 0, p) == Some(cur),
        t == base_of(a[cur]) + 1 + b,
        is_value(a[t]),
        a.len() + BLOCK <= MAX_UNITS,
    ensures
        walk(with_child(a, t, b), 0, k) == (if k == p.push(b) {
            Some(t)
        } else {
            walk(a, 0, k)
        }),
    decreases k.len(),
{
    let a2 = with_child(a, t, b);
    let f = a.len() as int;
    lemma_walk_node(a, par, p);
    lemma_laid_out_bases(a, par);
    lemma_node_word(b, f as u32);
    assert(a2[t] == node_word(b, f));
    if k.len() == 0 {
        assert(walk(a2, 0, k) == Some(0int));
    } else {
        let k0 = k.drop_last();
        let c = k.last();
        lemma_create_walk(a, par, cur, p, b, t, k0);
        if k0 == p.push(b) {
            let u = f + 1 + c;
            assert(a2[u] == VALUE_FLAG);
            assert(step(a2, t, c) is None);
            assert(step(a, cur, b) is None);
            assert(p.push(b).drop_last() =~= p);
            assert(walk(a, 0, k0) is None);
            assert(k != p.push(b));
        } else {
            match walk(a, 0, k0) {
                Some(m) => {
                    lemma_walk_node(a, par, k0);
                    let u = base_of(a[m]) + 1 + c;
                    assert(a2[m] == a[m]);
                    if u == t {
                        if m != cur {
                            assert(!is_value(a[m]) && !is_value(a[cur]));
                        }
                        lemma_walk_injective(a, k0, p);
                        assert(k =~= p.push(b));
                    } else {
                        assert(a2[u] == a[u]);
                        if k == p.push(b) {
                            assert(k.drop_last() =~= p);
                        }
                    }
                },
                None => {
                    if k == p.push(b) {
                        assert(k.drop_last() =~= p);
                    }
                },
            }
        }
    }
}

/// Adding a child keeps the layout and every lookup answer.
pub proof fn lemma_create(a: Seq<u32>, par: Map<int, int>, cur: int, p: Seq<u8>, b: u8, t: int)
    requires
        laid_out(a, par),
        walk(a, 0, p) == Some(cur),
        t == base_of(a[cur]) + 1 + b,
        is_value(a[t]),
        a.len() + BLOCK <= MAX_UNITS,
    ensures
        laid_out(with_child(a, t, b), par.insert(t, cur)),
        forall|k: Seq<u8>|
            #![trigger walk(with_child(a, t, b), 0, k)]
            walk(with_child(a, t, b), 0, k) == (if k == p.push(b) {
                Some(t)
            } else {
                walk(a, 0, k)
            }),
        forall|k: Seq<u8>|
            #![trigger find_from(with_child(a, t, b), 0, k)]
            find_from(with_child(a, t, b), 0, k) == find_from(a, 0, k),
{
    let a2 = with_child(a, t, b);
    let par2 = par.insert(t, cur);
    let f = a.len() as int;
    lemma_walk_node(a, par, p);
    lemma_laid_out_bases(a, par);
    lemma_node_word(b, f as u32);
    assert(a2[t] == node_word(b, f));
    assert forall|x: int| f <= x < a2.len() implies #[trigger] a2[x] == VALUE_FLAG by {}
    assert forall|x: int| 0 <= x < f && x != t implies #[trigger] a2[x] == a[x] by {}
    assert(laid_out(a2, par2)) by {
        assert forall|n1: int, n2: int|
            0 <= n1 < a2.len() && 0 <= n2 < a2.len() && !is_value(#[trigger] a2[n1]) && !is_value(
                #[trigger] a2[n2],
            ) && n1 != n2 implies base_of(a2[n1]) + BLOCK <= base_of(a2[n2]) || base_of(a2[n2])
            + BLOCK <= base_of(a2[n1]) by {
            if n1 != t && n2 != t {
                assert(a2[n1] == a[n1] && a2[n2] == a[n2]);
            } else if n1 == t {
                assert(a2[n2] == a[n2]);
            } else {
                assert(a2[n1] == a[n1]);
            }
        }
        assert forall|tt: int| 0 < tt < a2.len() && !is_value(#[trigger] a2[tt]) implies par2.contains_key(tt)
            && 0 <= par2[tt] < a2.len() && !is_value(a2[par2[tt]]) && base_of(a2[par2[tt]]) + 1
            + label_of(a2[tt]) == tt by {
            if tt != t {
                assert(a2[tt] == a[tt]);
                let q = par[tt];
                assert(!is_value(a[q]));
                assert(a2[q] == a[q]);
            } else {
                assert(a2[cur] == a[cur]);
            }
        }
        assert forall|n: int| 0 <= n < a2.len() && !is_value(#[trigger] a2[n]) implies 1
            <= base_of(a2[n]) && base_of(a2[n]) + BLOCK <= a2.len() by {
            if n != t {
                assert(a2[n] == a[n]);
            }
        }
    }
    assert forall|k: Seq<u8>| #![trigger walk(a2, 0, k)]
        walk(a2, 0, k) == (if k == p.push(b) {
            Some(t)
        } else {
            walk(a, 0, k)
        }) by {
        lemma_create_walk(a, par, cur, p, b, t, k);
    }
    assert forall|k: Seq<u8>| #![trigger find_from(a2, 0, k)]
        find_from(a2, 0, k) == find_from(a, 0, k) by {
        lemma_create_walk(a, par, cur, p, b, t, k);
        if k == p.push(b) {
            assert(p.push(b).drop_last() =~= p);
            assert(step(a, cur, b) is None);
        } else if walk(a, 0, k) is Some {
            let n = walk(a, 0, k).unwrap();
            lemma_walk_node(a, par, k);
            assert(a2[n] == a[n]);
            let bn = base_of(a[n]);
            if n != cur {
                assert(!is_value(a[n]) && !is_value(a[cur]));
            }
            assert(bn != t);
            assert(a2[bn] == a[bn]);
        }
    }
}

/// `a` with value `v` stored for node `n`.
pub open spec fn with_value(a: Seq<u32>, n: int, v: u32) -> Seq<u32> {
    a.update(n, a[n] | 0x100).update(base_of(a[n]), VALUE_FLAG | v)
}

/// Storing a value leaves every walk as it was.
pub proof fn lemma_value_walk(a: Seq<u32>, par: Map<int, int>, n: int, v: u32, k: Seq<u8>)
    requires
        laid_out(a, par),
        0 <= n < a.len(),
        !is_value(a[n]),
        v <= MAX_VALUE,
    ensures
        walk(with_value(a, n, v), 0, k) == walk(a, 0, k),
    decreases k.len(),
{
    let a3 = with_value(a, n, v);
    lemma_set_leaf(a[n]);
    lemma_value_word(v);
    lemma_value_slot_free(a, par, n);
    if k.len() > 0 {
        lemma_value_walk(a, par, n, v, k.drop_last());
        match walk(a, 0, k.drop_last()) {
            Some(m) => {
                lemma_walk_node(a, par, k.drop_last());
                let u = base_of(a[m]) + 1 + k.last();
                if m == n {
                    assert(a3[m] == a[n] | 0x100);
                } else {
                    assert(a3[m] == a[m]);
                }
                if u < a.len() {
                    if u != n && u != base_of(a[n]) {
                        assert(a3[u] == a[u]);
                    }
                }
            },
            None => {},
        }
    }
}

/// Storing `v` for node `n` keeps the layout and every walk, and changes
/// the lookup answer of exactly the key that reaches `n`.
pub proof fn lemma_value(a: Seq<u32>, par: Map<int, int>, n: int, v: u32)
    requires
        laid_out(a, par),
        0 <= n < a.len(),
        !is_value(a[n]),
        v <= MAX_VALUE,
    ensures
        laid_out(with_value(a, n, v), par),
        forall|k: Seq<u8>|
            #![trigger walk(with_value(a, n, v), 0, k)]
            walk(with_value(a, n, v), 0, k) == walk(a, 0, k),
        forall|k: Seq<u8>|
            #![trigger find_from(with_value(a, n, v), 0, k)]
            find_from(with_value(a, n, v), 0, k) == (if walk(a, 0, k) == Some(n) {
                Some(v as i32)
            } else {
                find_from(a, 0, k)
            }),
{
    let a3 = with_value(a, n, v);
    let bn = base_of(a[n]);
    lemma_set_leaf(a[n]);
    lemma_value_word(v);
    lemma_value_slot_free(a, par, n);
    lemma_laid_out_bases(a, par);
    assert(bn != n);
    assert(a3[n] == a[n] | 0x100);
    assert(a3[bn] == VALUE_FLAG | v);
    assert forall|x: int| 0 <= x < a.len() && x != n && x != bn implies #[trigger] a3[x] == a[x] by {}
    assert forall|x: int| 0 <= x < a.len() implies (is_value(#[trigger] a3[x]) == is_value(a[x]))
        && (!is_value(a[x]) ==> base_of(a3[x]) == base_of(a[x]) && label_of(a3[x]) == label_of(
        a[x],
    )) by {
        if x != n && x != bn {
            assert(a3[x] == a[x]);
        }
    }
    assert(laid_out(a3, par)) by {
        assert forall|n1: int, n2: int|
            0 <= n1 < a3.len() && 0 <= n2 < a3.len() && !is_value(#[trigger] a3[n1]) && !is_value(
                #[trigger] a3[n2],
            ) && n1 != n2 implies base_of(a3[n1]) + BLOCK <= base_of(a3[n2]) || base_of(a3[n2])
            + BLOCK <= base_of(a3[n1]) by {
            assert(!is_value(a[n1]) && !is_value(a[n2]));
        }
        assert forall|tt: int| 0 < tt < a3.len() && !is_value(#[trigger] a3[tt]) implies par.contains_key(tt)
            && 0 <= par[tt] < a3.len() && !is_value(a3[par[tt]]) && base_of(a3[par[tt]]) + 1
            + label_of(a3[tt]) == tt by {
            assert(!is_value(a[tt]));
            let q = par[tt];
            assert(!is_value(a[q]));
            assert(is_value(a3[q]) == is_value(a[q]));
        }
        assert forall|m: int| 0 <= m < a3.len() && !is_value(#[trigger] a3[m]) implies 1
            <= base_of(a3[m]) && base_of(a3[m]) + BLOCK <= a3.len() by {
            assert(!is_value(a[m]));
        }
    }
    assert forall|k: Seq<u8>| #![trigger walk(a3, 0, k)] walk(a3, 0, k) == walk(a, 0, k) by {
        lemma_value_walk(a, par, n, v, k);
    }
    assert forall|k: Seq<u8>| #![trigger find_from(a3, 0, k)]
        find_from(a3, 0, k) == (if walk(a, 0, k) == Some(n) {
            Some(v as i32)
        } else {
            find_from(a, 0, k)
        }) by {
        lemma_value_walk(a, par, n, v, k);
        if walk(a, 0, k) is Some {
            let m = walk(a, 0, k).unwrap();
            lemma_walk_node(a, par, k);
            if m != n {
                let bm = base_of(a[m]);
                lemma_value_slot_free(a, par, m);
                assert(!is_value(a[m]) && !is_value(a[n]));
                assert(bm != bn);
                assert(a3[m] == a[m]);
                assert(a3[bm] == a[bm]);
            }
        }
    }
}

/// Total length of the keys.
pub open spec fn total_len(ks: Seq<Seq<u8>>) -> nat
    decreases ks.len(),
{
    if ks.len() == 0 {
        0
    } else {
        total_len(ks.drop_last()) + ks.last().len()
    }
}

/// Units that a direct layout of keys of `total` bytes needs at most: the
/// root, its block, and one block for each byte.
pub open spec fn direct_room(total: nat) -> nat {
    (1 + BLOCK + BLOCK * total) as nat
}

pub proof fn lemma_total_len_take(ks: Seq<Seq<u8>>, i: int)
    requires
        0 <= i < ks.len(),
    ensures
        total_len(ks.take(i + 1)) == total_len(ks.take(i)) + ks[i].len(),
        total_len(ks.take(i + 1)) <= total_len(ks),
    decreases ks.len() - i,
{
    assert(ks.take(i + 1).drop_last() =~= ks.take(i));
    if i + 1 < ks.len() {
        lemma_total_len_take(ks, i + 1);
    } else {
        assert(ks.take(i + 1) =~= ks);
    }
}

/// The layout with one root whose block is empty.
fn root_only() -> (r: Vec<u32>)
    ensures
        laid_out(r@, Map::empty()),
        r@.len() == 1 + BLOCK,
        forall|k: Seq<u8>| #![trigger walk(r@, 0, k)] walk(r@, 0, k) is Some <==> k.len() == 0,
        forall|k: Seq<u8>| #![trigger find_from(r@, 0, k)] find_from(r@, 0, k) is None,
{
    let mut r: Vec<u32> = Vec::new();
    r.push((1u32 << 9u32));
    proof {
        lemma_node_word(0, 1);
        assert((1u32 << 9u32) == node_word(0, 1)) by (bit_vector);
    }
    let mut i: usize = 0;
    while i < BLOCK
        invariant
            i <= BLOCK,
            r@.len() == 1 + i,
            r@[0] == node_word(0, 1),
            forall|x: int| 1 <= x < r@.len() ==> #[trigger] r@[x] == VALUE_FLAG,
        decreases BLOCK - i,
    {
        r.push(VALUE_FLAG);
        i = i + 1;
    }
    proof {
        lemma_node_word(0, 1);
        let a = r@;
        assert forall|x: int| 0 < x < a.len() implies is_value(#[trigger] a[x]) by {}
        assert(laid_out(a, Map::empty()));
        assert forall|k: Seq<u8>| #![trigger walk(a, 0, k)] walk(a, 0, k) is Some <==> k.len() == 0 by {
            if k.len() > 0 {
                lemma_walk_in_bounds(a, 0, k);
            }
        }
        assert forall|k: Seq<u8>| #![trigger find_from(a, 0, k)] find_from(a, 0, k) is None by {
            if walk(a, 0, k) is Some {
                lemma_walk_in_bounds(a, 0, k);
            }
        }
    }
    r
}

/// `a` keeps the shape of a direct layout.
pub open spec fn well_laid(a: Seq<u32>) -> bool {
    exists|par: Map<int, int>| laid_out(a, par)
}

/// Adds a child of `cur` on byte `b`, which `cur` lacks, and gives its slot.
fn extend(words: &mut Vec<u32>, cur: usize, b: u8, Ghost(pre): Ghost<Seq<u8>>) -> (t: usize)
    requires
        well_laid(old(words)@),
        walk(old(words)@, 0, pre) == Some(cur as int),
        step(old(words)@, cur as int, b) is None,
        old(words)@.len() + BLOCK <= MAX_UNITS,
    ensures
        well_laid(final(words)@),
        final(words)@.len() == old(words)@.len() + BLOCK,
        forall|k: Seq<u8>|
            #![trigger walk(final(words)@, 0, k)]
            walk(final(words)@, 0, k) == (if k == pre.push(b) {
                Some(t as int)
            } else {
                walk(old(words)@, 0, k)
            }),
        forall|k: Seq<u8>|
            #![trigger find_from(final(words)@, 0, k)]
            find_from(final(words)@, 0, k) == find_from(old(words)@, 0, k),
{
    let ghost a = words@;
    let ghost par = choose|par: Map<int, int>| laid_out(a, par);
    proof {
        lemma_walk_node(a, par, pre);
    }
    let t = unit_base(words[cur]) + 1 + b as usize;
    let f = words.len();
    proof {
        if !is_value(a[t as int]) {
            lemma_slot_owner(a, par, cur as int, b as int);
        }
        lemma_create(a, par, cur as int, pre, b, t as int);
        lemma_node_word(b, f as u32);
    }
    words.set(t, (b as u32) | ((f as u32) << 9u32));
    let mut q: usize = 0;
    while q < BLOCK
        invariant
            q <= BLOCK,
            f == a.len(),
            t < f,
            words@.len() == f + q,
            forall|x: int|
                0 <= x < f ==> #[trigger] words@[x] == a.update(t as int, node_word(b, f as int))[x],
            forall|x: int| f <= x < words@.len() ==> #[trigger] words@[x] == VALUE_FLAG,
        decreases BLOCK - q,
    {
        words.push(VALUE_FLAG);
        q = q + 1;
    }
    assert(words@ =~= with_child(a, t as int, b));
    assert(laid_out(words@, par.insert(t as int, cur as int)));
    t
}

/// Stores value `v` for node `cur`.
fn store_value(words: &mut Vec<u32>, cur: usize, v: u32)
    requires
        well_laid(old(words)@),
        cur < old(words)@.len(),
        !is_value(old(words)@[cur as int]),
        v <= MAX_VALUE,
    ensures
        well_laid(final(words)@),
        final(words)@.len() == old(words)@.len(),
        forall|k: Seq<u8>|
            #![trigger walk(final(words)@, 0, k)]
            walk(final(words)@, 0, k) == walk(old(words)@, 0, k),
        forall|k: Seq<u8>|
            #![trigger find_from(final(words)@, 0, k)]
            find_from(final(words)@, 0, k) == (if walk(old(words)@, 0, k) == Some(cur as int) {
                Some(v as i32)
            } else {
                find_from(old(words)@, 0, k)
            }),
{
    let ghost a = words@;
    let ghost par = choose|par: Map<int, int>| laid_out(a, par);
    proof {
        lemma_value(a, par, cur as int, v);
    }
    let bn = unit_base(words[cur]);
    proof {
        lemma_value_slot_free(a, par, cur as int);
    }
    let u = words[cur] | 0x100;
    words.set(cur, u);
    words.set(bn, VALUE_FLAG | v);
    assert(words@ =~= with_value(a, cur as int, v));
    assert(laid_out(words@, par));
}

/// The direct layout of `keys` with `vals`, inserted in order so that a
/// key given twice keeps its last value. Given whenever the store fits in
/// `MAX_UNITS`.
#[verifier::rlimit(100)]
pub fn direct_layout(keys: &[&str], vals: &Vec<i32>) -> (r: Option<Vec<u32>>)
    requires
        keys@.len() == vals@.len(),
        keys@.len() > 0,
        forall|i: int| 0 <= i < vals@.len() ==> vals@[i] >= 0,
    ensures
        direct_room(total_len(key_seqs(keys@))) <= MAX_UNITS ==> r is Some,
        r matches Some(w) ==> forall|k: Seq<u8>|
            #![trigger find_from(w@, 0, k)]
            find_from(w@, 0, k) == last_value(key_seqs(keys@), vals@, k),
        r matches Some(w) ==> forall|k: Seq<u8>|
            #![trigger walk(w@, 0, k)]
            walk(w@, 0, k) is Some <==> is_key_prefix(key_seqs(keys@), k),
{
    let ghost ks = key_seqs(keys@);
    let n = keys.len();
    let mut words = root_only();
    let mut i: usize = 0;
    proof {
        assert forall|k: Seq<u8>| #![trigger find_from(words@, 0, k)]
            find_from(words@, 0, k) == last_value(ks.take(0), vals@.take(0), k) by {}
        assert forall|k: Seq<u8>| #![trigger walk(words@, 0, k)]
            walk(words@, 0, k) is Some <==> (k.len() == 0 || is_key_prefix(ks.take(0), k)) by {}
    }
    while i < n
        invariant
            ks == key_seqs(keys@),
            n == keys@.len(),
            n == vals@.len(),
            n > 0,
            forall|q: int| 0 <= q < vals@.len() ==> vals@[q] >= 0,
            i <= n,
            well_laid(words@),
            words@.len() <= direct_room(total_len(ks.take(i as int))),
            forall|k: Seq<u8>|
                #![trigger find_from(words@, 0, k)]
                find_from(words@, 0, k) == last_value(ks.take(i as int), vals@.take(i as int), k),
            forall|k: Seq<u8>|
                #![trigger walk(words@, 0, k)]
                walk(words@, 0, k) is Some <==> (k.len() == 0 || is_key_prefix(ks.take(i as int), k)),
        decreases n - i,
    {
        let bytes = keys[i].as_bytes();
        let ghost kb = bytes@;
        assert(kb == ks[i as int]);
        proof {
            lemma_total_len_take(ks, i as int);
        }
        let mut cur: usize = 0;
        let mut j: usize = 0;
        while j < bytes.len()
            invariant
                ks == key_seqs(keys@),
                i < n,
                kb == bytes@,
                j <= kb.len(),
                well_laid(words@),
                total_len(ks.take(i + 1)) == total_len(ks.take(i as int)) + kb.len(),
                total_len(ks.take(i + 1)) <= total_len(ks),
                words@.len() <= direct_room((total_len(ks.take(i as int)) + j) as nat),
                walk(words@, 0, kb.take(j as int)) == Some(cur as int),
                forall|k: Seq<u8>|
                    #![trigger find_from(words@, 0, k)]
                    find_from(words@, 0, k) == last_value(ks.take(i as int), vals@.take(i as int), k),
                forall|k: Seq<u8>|
                    #![trigger walk(words@, 0, k)]
                    walk(words@, 0, k) is Some <==> (k.len() == 0 || is_key_prefix(ks.take(i as int), k)
                        || (k.len() <= j && kb.take(k.len() as int) == k)),
            decreases kb.len() - j,
        {
            let ghost a = words@;
            let ghost pre = kb.take(j as int);
            proof {
                lemma_walk_push(a, 0, pre, kb[j as int]);
                assert(pre.push(kb[j as int]) =~= kb.take(j + 1));
                lemma_walk_in_bounds(a, 0, pre);
            }
            match exec_step(&words, cur, bytes[j]) {
                Some(t) => {
                    cur = t;
                },
                None => {
                    if words.len() + BLOCK > MAX_UNITS {
                        return None;
                    }
                    cur = extend(&mut words, cur, bytes[j], Ghost(pre));
                },
            }
            proof {
                assert forall|k: Seq<u8>| #![trigger walk(words@, 0, k)]
                    walk(words@, 0, k) is Some <==> (k.len() == 0 || is_key_prefix(ks.take(i as int), k)
                        || (k.len() <= j + 1 && kb.take(k.len() as int) == k)) by {
                    if k.len() == j + 1 && kb.take(k.len() as int) == k {
                        assert(k == kb.take(j + 1));
                    }
                    if k == pre.push(kb[j as int]) {
                        assert(kb.take(j + 1) == k);
                    }
                }
            }
            j = j + 1;
        }
        assert(kb.take(j as int) =~= kb);
        let ghost a = words@;
        let v = vals[i] as u32;
        proof {
            let par = choose|par: Map<int, int>| laid_out(a, par);
            lemma_walk_node(a, par, kb);
            lemma_laid_out_bases(a, par);
        }
        store_value(&mut words, cur, v);
        proof {
            let par = choose|par: Map<int, int>| laid_out(a, par);
            lemma_laid_out_bases(a, par);
            let ks1 = ks.take(i + 1);
            let vs1 = vals@.take(i + 1);
            assert(ks1.drop_last() =~= ks.take(i as int));
            assert(vs1.drop_last() =~= vals@.take(i as int));
            assert(ks1.last() == kb);
            assert forall|k: Seq<u8>| #![trigger find_from(words@, 0, k)]
                find_from(words@, 0, k) == last_value(ks1, vs1, k) by {
                if walk(a, 0, k) == Some(cur as int) {
                    lemma_walk_injective(a, k, kb);
                }
            }
            assert forall|k: Seq<u8>| #![trigger walk(words@, 0, k)]
                walk(words@, 0, k) is Some <==> (k.len() == 0 || is_key_prefix(ks1, k)) by {
                assert(walk(words@, 0, k) == walk(a, 0, k));
                if is_key_prefix(ks.take(i as int), k) {
                    let w = choose|w: int| 0 <= w < ks.take(i as int).len() && k.len() <= ks.take(i as int)[w].len()
                        && #[trigger] ks.take(i as int)[w].take(k.len() as int) == k;
                    assert(ks1[w] == ks.take(i as int)[w]);
                }
                if k.len() <= kb.len() && kb.take(k.len() as int) == k {
                    assert(ks1[i as int] == kb);
                }
                if is_key_prefix(ks1, k) {
                    let w = choose|w: int| 0 <= w < ks1.len() && k.len() <= ks1[w].len()
                        && #[trigger] ks1[w].take(k.len() as int) == k;
                    if w < i {
                        assert(ks.take(i as int)[w] == ks1[w]);
                    }
                }
            }
        }
        i = i + 1;
    }
    proof {
        assert(ks.take(n as int) =~= ks);
        assert(vals@.take(n as int) =~= vals@);
        assert forall|k: Seq<u8>| #![trigger walk(words@, 0, k)]
            walk(words@, 0, k) is Some <==> is_key_prefix(ks, k) by {
            if k.len() == 0 {
                assert(ks[0].take(0) =~= k);
            }
        }
    }
    Some(words)
}

} // verus!
