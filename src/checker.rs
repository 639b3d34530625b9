//! Confirms that a unit array stores exactly a given key/value list.
use vstd::prelude::*;
use vstd::string::StringSliceAdditionalSpecFns;
use crate::model::{key_seqs, last_value, lemma_last_value_at, lemma_last_value_some};
use crate::units::{
    distinct_bases, exec_leaf_value, exec_step, lemma_walk_none_extends, lemma_walk_push, exec_walk, is_value, unit_base, base_of, VALUE_FLAG, find_from, leaf_value, lemma_walk_in_bounds,
    lemma_walk_injective, unit_count, units_in, walk,
};

verus! {

/// True only when no two nodes of `words` share a base, and every base lies
/// inside the store.
fn bases_distinct(words: &Vec<u32>) -> (r: bool)
    ensures
        r ==> distinct_bases(words@),
{
    let count = words.len();
    let mut owner: Vec<usize> = vec![count; count];
    let mut m: usize = 0;
    while m < count
        invariant
            count == words@.len(),
            m <= count,
            owner@.len() == count,
            forall|i: int|
                0 <= i < m && !is_value(words@[i]) ==> base_of(words@[i]) < count
                    && owner@[base_of(words@[i])] == i,
            forall|b: int|
                0 <= b < count ==> owner@[b] == count || (owner@[b] < m && !is_value(
                    words@[owner@[b] as int],
                ) && base_of(words@[owner@[b] as int]) == b),
        decreases count - m,
    {
        let u = words[m];
        if u < VALUE_FLAG {
            let b = unit_base(u);
            if b >= count || owner[b] != count {
                return false;
            }
            owner.set(b, m);
        }
        m = m + 1;
    }
    true
}

/// `k` is a prefix of some key, itself included.
pub open spec fn is_key_prefix(ks: Seq<Seq<u8>>, k: Seq<u8>) -> bool {
    exists|i: int| 0 <= i < ks.len() && k.len() <= ks[i].len() && #[trigger] ks[i].take(k.len() as int) == k
}

/// True only when every node of `words` is reached from the root by a
/// prefix of some key, so that the walks that succeed are exactly those on
/// prefixes of keys.
fn paths_cover(words: &Vec<u32>, keys: &[&str]) -> (ok: bool)
    requires
        words@.len() > 0,
        !is_value(words@[0]),
        distinct_bases(words@),
        keys@.len() > 0,
        forall|i: int| 0 <= i < keys@.len() ==> walk(words@, 0, #[trigger] key_seqs(keys@)[i]) is Some,
    ensures
        ok ==> forall|k: Seq<u8>|
            #![trigger walk(words@, 0, k)]
            walk(words@, 0, k) is Some <==> is_key_prefix(key_seqs(keys@), k),
{
    let ghost a = words@;
    let ghost ks = key_seqs(keys@);
    let n = keys.len();
    let count = words.len();
    let mut reached: Vec<(usize, usize)> = Vec::new();
    let mut t: usize = 0;
    while t < count
        invariant
            t <= count,
            reached@.len() == t,
            forall|u: int| 0 <= u < t ==> #[trigger] reached@[u] == (n, 0usize),
        decreases count - t,
    {
        reached.push((n, 0));
        t = t + 1;
    }
    let mut i: usize = 0;
    while i < n
        invariant
            a == words@,
            ks == key_seqs(keys@),
            n == keys@.len(),
            count == a.len(),
            count > 0,
            i <= n,
            reached@.len() == count,
            forall|t: int|
                0 <= t < count && n > (#[trigger] reached@[t]).0 ==> reached@[t].1 <= ks[reached@[t].0 as int].len()
                    && walk(a, 0, ks[reached@[t].0 as int].take(reached@[t].1 as int)) == Some(t),
        decreases n - i,
    {
        let bytes = keys[i].as_bytes();
        assert(bytes@ == ks[i as int]);
        let mut cur: usize = 0;
        let mut j: usize = 0;
        while j < bytes.len()
            invariant
                a == words@,
                ks == key_seqs(keys@),
                n == keys@.len(),
                count == a.len(),
                i < n,
                bytes@ == ks[i as int],
                j <= bytes@.len(),
                count > cur,
                reached@.len() == count,
                walk(a, 0, bytes@.take(j as int)) == Some(cur as int),
                forall|t: int|
                    0 <= t < count && n > (#[trigger] reached@[t]).0 ==> reached@[t].1 <= ks[reached@[t].0 as int].len()
                        && walk(a, 0, ks[reached@[t].0 as int].take(reached@[t].1 as int)) == Some(t),
            decreases bytes@.len() - j,
        {
            reached.set(cur, (i, j));
            proof {
                lemma_walk_push(a, 0, bytes@.take(j as int), bytes@[j as int]);
                assert(bytes@.take(j as int).push(bytes@[j as int]) =~= bytes@.take(j + 1));
            }
            match exec_step(words, cur, bytes[j]) {
                Some(t) => {
                    cur = t;
                },
                None => {
                    return false;
                },
            }
            j = j + 1;
        }
        reached.set(cur, (i, j));
        i = i + 1;
    }
    t = 0;
    while t < count
        invariant
            a == words@,
            count == a.len(),
            reached@.len() == count,
            t <= count,
            forall|u: int| 0 <= u < t && !is_value(a[u]) ==> n > (#[trigger] reached@[u]).0,
        decreases count - t,
    {
        if words[t] < VALUE_FLAG && reached[t].0 >= n {
            return false;
        }
        t = t + 1;
    }
    proof {
        assert forall|k: Seq<u8>| #![trigger walk(words@, 0, k)]
            walk(words@, 0, k) is Some <==> is_key_prefix(ks, k) by {
            if walk(a, 0, k) is Some {
                let m = walk(a, 0, k).unwrap();
                lemma_walk_in_bounds(a, 0, k);
                if k.len() == 0 {
                    assert(ks[0].take(0) =~= k);
                } else {
                    let (vi, vj) = reached@[m];
                    let p = ks[vi as int].take(vj as int);
                    lemma_walk_injective(a, p, k);
                    assert(p.len() == vj);
                    assert(ks[vi as int].take(k.len() as int) == k);
                }
            }
            if is_key_prefix(ks, k) {
                let i0 = choose|i0: int| 0 <= i0 < ks.len() && k.len() <= ks[i0].len() && #[trigger] ks[i0].take(k.len() as int) == k;
                if walk(a, 0, k) is None {
                    if k.len() < ks[i0].len() {
                        lemma_walk_none_extends(a, 0, k, ks[i0]);
                    } else {
                        assert(k =~= ks[i0]);
                    }
                    assert(walk(a, 0, ks[i0]) is Some);
                }
            }
        }
    }
    true
}

/// True only when looking up any key from the root of `words` gives the
/// value of that key's last occurrence in `keys`, and nothing for a key
/// that does not occur.
pub fn layout_matches(words: &Vec<u32>, keys: &[&str], values: &Vec<i32>) -> (ok: bool)
    requires
        keys@.len() == values@.len(),
    ensures
        ok ==> forall|k: Seq<u8>|
            #![trigger find_from(words@, 0, k)]
            find_from(words@, 0, k) == last_value(key_seqs(keys@), values@, k),
        ok ==> forall|k: Seq<u8>|
            #![trigger walk(words@, 0, k)]
            walk(words@, 0, k) is Some <==> is_key_prefix(key_seqs(keys@), k),
{
    let ghost a = words@;
    let ghost ks = key_seqs(keys@);
    let count = units_in(words);
    if count == 0 || words[0] >= VALUE_FLAG || !bases_distinct(words) {
        return false;
    }
    let n = keys.len();
    let mut nodes: Vec<usize> = Vec::new();
    let mut i: usize = 0;
    while i < n
        invariant
            a == words@,
            ks == key_seqs(keys@),
            n == keys@.len(),
            count == unit_count(a),
            0 < count,
            i <= n,
            nodes@.len() == i,
            forall|j: int|
                0 <= j < i ==> walk(a, 0, #[trigger] ks[j]) == Some(nodes@[j] as int) && nodes@[j]
                    < count && leaf_value(a, nodes@[j] as int) is Some,
        decreases n - i,
    {
        match exec_walk(words, 0, keys[i].as_bytes()) {
            Some(m) => {
                if exec_leaf_value(words, m).is_none() {
                    return false;
                }
                nodes.push(m);
            },
            None => {
                return false;
            },
        }
        assert(ks[i as int] == keys@[i as int].spec_bytes());
        i = i + 1;
    }
    if n == 0 || !paths_cover(words, keys) {
        return false;
    }
    assert forall|j: int| 0 <= j < n implies #[trigger] nodes@[j] < count by {
        assert(walk(a, 0, ks[j]) == Some(nodes@[j] as int));
    }
    let mut owner: Vec<usize> = vec![n; count];
    i = 0;
    while i < n
        invariant
            a == words@,
            ks == key_seqs(keys@),
            n == keys@.len(),
            count == unit_count(a),
            i <= n,
            nodes@.len() == n,
            owner@.len() == count,
            forall|j: int| 0 <= j < n ==> #[trigger] nodes@[j] < count,
            forall|t: int|
                0 <= t < count ==> #[trigger] owner@[t] == n || (owner@[t] < i && nodes@[owner@[t]
                    as int] == t),
            forall|j: int|
                0 <= j < i ==> j <= #[trigger] owner@[nodes@[j] as int] && owner@[nodes@[j] as int]
                    < i,
        decreases n - i,
    {
        let t = nodes[i];
        owner.set(t, i);
        i = i + 1;
    }
    let mut t: usize = 0;
    while t < count
        invariant
            a == words@,
            n == keys@.len(),
            n == values@.len(),
            count == unit_count(a),
            t <= count,
            owner@.len() == count,
            forall|u: int|
                0 <= u < t ==> (#[trigger] leaf_value(a, u)) is Some ==> owner@[u] < n
                    && leaf_value(a, u) == Some(values@[owner@[u] as int]),
        decreases count - t,
    {
        match exec_leaf_value(words, t) {
            Some(v) => {
                let o = owner[t];
                if o >= n || v != values[o] {
                    return false;
                }
            },
            None => {},
        }
        t = t + 1;
    }
    proof {
        assert forall|k: Seq<u8>| #![trigger find_from(words@, 0, k)]
            find_from(words@, 0, k) == last_value(ks, values@, k) by {
            lemma_last_value_some(ks, values@, k);
            lemma_walk_in_bounds(a, 0, k);
            if ks.contains(k) {
                let i0 = choose|i0: int| 0 <= i0 < ks.len() && ks[i0] == k;
                let m = nodes@[i0] as int;
                let o = owner@[m] as int;
                assert(walk(a, 0, ks[i0]) == Some(m));
                assert(o < n && nodes@[o] == m);
                assert(walk(a, 0, ks[o]) == Some(m));
                lemma_walk_injective(a, ks[o], k);
                assert forall|i1: int| o < i1 < ks.len() implies ks[i1] != k by {
                    if ks[i1] == k {
                        assert(walk(a, 0, ks[i1]) == Some(m));
                        assert(nodes@[i1] == m);
                        assert(i1 <= owner@[nodes@[i1] as int]);
                    }
                }
                lemma_last_value_at(ks, values@, k, o);
            } else {
                if find_from(a, 0, k) is Some {
                    let m = walk(a, 0, k).unwrap();
                    assert(leaf_value(a, m) is Some);
                    let o = owner@[m] as int;
                    assert(o < n && nodes@[o] == m);
                    assert(walk(a, 0, ks[o]) == Some(m));
                    lemma_walk_injective(a, ks[o], k);
                    assert(ks.contains(k));
                }
            }
        }
    }
    true
}

} // verus!
