//! Construction of a unit array from key/value entries sorted by key.
//!
//! Entries are split by the byte at the current depth into runs, one per
//! child; a base is chosen whose child slots are all free, the slots are
//! claimed, and each run is handled in turn one level deeper. Keys that end
//! at the current depth claim the terminal slot (`base + 0`) and store the
//! value of the last entry of their run.
use vstd::prelude::*;
use itertools::Itertools;
use crate::units::VALUE_FLAG;

verus! {

/// Most units a store may have; every base then fits in the 22 bits of a
/// node unit.
pub const MAX_UNITS: usize = 0x40_0000;

/// Largest label: a byte `b` is label `b + 1`, the terminal slot is label 0.
pub const MAX_LABEL: usize = 256;

/// End marker of the free list.
pub const NO_SLOT: usize = usize::MAX;

/// The links of the list of unclaimed slots all point inside the store.
pub open spec fn links_ok(next: Seq<usize>, prev: Seq<usize>, head: usize, tail: usize, len: nat) -> bool {
    &&& next.len() == len
    &&& prev.len() == len
    &&& (head == NO_SLOT || head < len)
    &&& (tail == NO_SLOT || tail < len)
    &&& forall|i: int| 0 <= i < len ==> (next[i] == NO_SLOT || next[i] < len)
    &&& forall|i: int| 0 <= i < len ==> (prev[i] == NO_SLOT || prev[i] < len)
}

/// Byte-wise lexicographic order, a proper prefix first.
pub open spec fn bytes_lt(a: Seq<u8>, b: Seq<u8>) -> bool
    decreases a.len(),
{
    if a.len() == 0 {
        b.len() > 0
    } else if b.len() == 0 {
        false
    } else if a[0] != b[0] {
        a[0] < b[0]
    } else {
        bytes_lt(a.drop_first(), b.drop_first())
    }
}

/// The order of `(Vec<u8>, usize)` pairs: by key, then by index.
pub open spec fn entry_le(x: (Seq<u8>, usize), y: (Seq<u8>, usize)) -> bool {
    bytes_lt(x.0, y.0) || (x.0 == y.0 && x.1 <= y.1)
}

pub open spec fn entry_view(e: (Vec<u8>, usize)) -> (Seq<u8>, usize) {
    (e.0@, e.1)
}

/// Relies on itertools::Itertools::sorted: the same entries, in ascending
/// order of the tuple, that is by key bytes and then by index.
#[verifier::external_body]
pub(crate) fn sorted_entries(items: Vec<(Vec<u8>, usize)>) -> (r: Vec<(Vec<u8>, usize)>)
    ensures
        r@.len() == items@.len(),
        r@.map_values(|e: (Vec<u8>, usize)| entry_view(e)).to_multiset() == items@.map_values(
            |e: (Vec<u8>, usize)| entry_view(e),
        ).to_multiset(),
        forall|i: int, j: int|
            0 <= i < j < r@.len() ==> entry_le(entry_view(r@[i]), entry_view(r@[j])),
{
    items.into_iter().sorted().collect()
}

/// True when every slot `base + l` for a label `l` is unclaimed.
fn slots_free(used: &Vec<bool>, labels: &Vec<usize>, base: usize) -> (r: bool)
    requires
        base <= MAX_UNITS + 1,
        forall|k: int| 0 <= k < labels@.len() ==> labels@[k] <= MAX_LABEL,
    ensures
        r ==> forall|k: int|
            0 <= k < labels@.len() ==> base + labels@[k] >= used@.len() || !used@[base
                + labels@[k]],
{
    let mut k: usize = 0;
    while k < labels.len()
        invariant
            base <= MAX_UNITS + 1,
            forall|q: int| 0 <= q < labels@.len() ==> labels@[q] <= MAX_LABEL,
            k <= labels@.len(),
            forall|q: int|
                0 <= q < k ==> base + labels@[q] >= used@.len() || !used@[base + labels@[q]],
        decreases labels@.len() - k,
    {
        let t = base + labels[k];
        if t < used.len() && used[t] {
            return false;
        }
        k = k + 1;
    }
    true
}

/// Builds a unit array for `entries`, which are sorted by key and carry the
/// index of their value in `values`. Gives nothing when the entries are not
/// sorted, an index or a value is out of range, or the store would exceed
/// `MAX_UNITS`. What the array stores is not claimed here: callers confirm
/// it with `checker::layout_matches` before use.
pub(crate) fn construct(entries: &Vec<(Vec<u8>, usize)>, values: &Vec<i32>) -> (r: Option<Vec<u32>>)
    ensures
        r matches Some(w) ==> w@.len() >= 1,
{
    let n = entries.len();
    // Every node but the root is entered by one byte of some key.
    let mut budget: usize = 1;
    let mut j: usize = 0;
    while j < n
        invariant
            j <= n,
            n == entries@.len(),
            1 <= budget <= 2 * MAX_UNITS + 1,
        decreases n - j,
    {
        let len = entries[j].0.len();
        if budget > MAX_UNITS || len > MAX_UNITS {
            return None;
        }
        budget = budget + len;
        j = j + 1;
    }
    let mut words: Vec<u32> = vec![0u32];
    let mut used: Vec<bool> = vec![true];
    let mut base_taken: Vec<bool> = vec![false];
    let mut stack: Vec<(usize, usize, usize, usize)> = Vec::new();
    stack.push((0, n, 0, 0));
    // Unclaimed slots, in ascending order, linked both ways.
    let mut next_free: Vec<usize> = vec![NO_SLOT];
    let mut prev_free: Vec<usize> = vec![NO_SLOT];
    let mut head: usize = NO_SLOT;
    let mut tail: usize = NO_SLOT;
    let mut iter: usize = 0;
    while stack.len() > 0
        invariant
            n == entries@.len(),
            words@.len() == used@.len(),
            base_taken@.len() == used@.len(),
            1 <= used@.len() <= MAX_UNITS,
            links_ok(next_free@, prev_free@, head, tail, used@.len()),
            iter <= budget,
            forall|k: int|
                0 <= k < stack@.len() ==> (#[trigger] stack@[k]).0 <= stack@[k].1 <= n
                    && stack@[k].3 < used@.len(),
        decreases budget - iter,
    {
        if iter >= budget {
            return None;
        }
        iter = iter + 1;
        let (lo, hi, depth, node) = match stack.pop() {
            Some(item) => item,
            None => {
                return None;
            },
        };
        if depth >= MAX_UNITS {
            return None;
        }
        // The distinct labels of the run, in ascending order, with the first
        // entry of each.
        let mut labels: Vec<usize> = Vec::new();
        let mut starts: Vec<usize> = Vec::new();
        let mut j: usize = lo;
        while j < hi
            invariant
                lo <= j <= hi <= n,
                n == entries@.len(),
                labels@.len() == starts@.len(),
                forall|k: int| 0 <= k < labels@.len() ==> labels@[k] <= MAX_LABEL,
                forall|k: int| 0 <= k < starts@.len() ==> lo <= #[trigger] starts@[k] < j,
                forall|k: int|
                    0 <= k < starts@.len() - 1 ==> #[trigger] starts@[k] < starts@[k + 1],
            decreases hi - j,
        {
            let key = &entries[j].0;
            let label: usize = if key.len() == depth {
                0
            } else if key.len() > depth {
                key[depth] as usize + 1
            } else {
                return None;
            };
            let count = labels.len();
            if count == 0 || labels[count - 1] < label {
                labels.push(label);
                starts.push(j);
            } else if labels[count - 1] > label {
                return None;
            }
            j = j + 1;
        }
        if labels.len() == 0 {
            return None;
        }
        let first = labels[0];
        // A base past the end always fits; look for an earlier one by
        // walking the free list, placing the first label on each free slot.
        let mut base: usize = used.len();
        let mut f = head;
        let mut tries: usize = 0;
        while f != NO_SLOT && tries < used.len()
            invariant
                1 <= base <= used@.len(),
                used@.len() <= MAX_UNITS,
                base_taken@.len() == used@.len(),
                links_ok(next_free@, prev_free@, head, tail, used@.len()),
                f == NO_SLOT || f < used@.len(),
                tries <= used@.len(),
                forall|k: int| 0 <= k < labels@.len() ==> labels@[k] <= MAX_LABEL,
            decreases used@.len() - tries,
        {
            if f > first {
                let b = f - first;
                if !base_taken[b] && slots_free(&used, &labels, b) {
                    base = b;
                    break;
                }
            }
            f = next_free[f];
            tries = tries + 1;
        }
        let top = base + MAX_LABEL + 1;
        if top > MAX_UNITS {
            return None;
        }
        while used.len() < top
            invariant
                words@.len() == used@.len(),
            base_taken@.len() == used@.len(),
                used@.len() <= MAX_UNITS,
                top <= MAX_UNITS,
                1 <= used@.len(),
                links_ok(next_free@, prev_free@, head, tail, used@.len()),
                node < used@.len(),
                forall|k: int|
                    0 <= k < stack@.len() ==> (#[trigger] stack@[k]).0 <= stack@[k].1 <= n
                        && stack@[k].3 < used@.len(),
            decreases top - used@.len(),
        {
            let j = used.len();
            used.push(false);
            base_taken.push(false);
            words.push(VALUE_FLAG);
            next_free.push(NO_SLOT);
            prev_free.push(tail);
            if tail != NO_SLOT {
                next_free.set(tail, j);
            } else {
                head = j;
            }
            tail = j;
        }
        base_taken.set(base, true);
        let leaf: u32 = if first == 0 {
            1
        } else {
            0
        };
        words.set(node, (words[node] & 0xff) | (leaf << 8u32) | ((base as u32) << 9u32));
        let mut k: usize = 0;
        while k < labels.len()
            invariant
                n == entries@.len(),
                words@.len() == used@.len(),
            base_taken@.len() == used@.len(),
                base + MAX_LABEL + 1 <= used@.len(),
                used@.len() <= MAX_UNITS,
                1 <= used@.len(),
                links_ok(next_free@, prev_free@, head, tail, used@.len()),
                node < used@.len(),
                depth < MAX_UNITS,
                lo <= hi <= n,
                labels@.len() == starts@.len(),
                forall|q: int| 0 <= q < labels@.len() ==> labels@[q] <= MAX_LABEL,
                forall|q: int| 0 <= q < starts@.len() ==> lo <= #[trigger] starts@[q] < hi,
                forall|q: int|
                    0 <= q < starts@.len() - 1 ==> #[trigger] starts@[q] < starts@[q + 1],
                forall|q: int|
                    0 <= q < stack@.len() ==> (#[trigger] stack@[q]).0 <= stack@[q].1 <= n
                        && stack@[q].3 < used@.len(),
            decreases labels@.len() - k,
        {
            let label = labels[k];
            let t = base + label;
            let from = starts[k];
            let to = if k + 1 < starts.len() {
                starts[k + 1]
            } else {
                hi
            };
            used.set(t, true);
            let p = prev_free[t];
            let q = next_free[t];
            if p != NO_SLOT {
                next_free.set(p, q);
            } else if head == t {
                head = q;
            }
            if q != NO_SLOT {
                prev_free.set(q, p);
            } else if tail == t {
                tail = p;
            }
            next_free.set(t, NO_SLOT);
            prev_free.set(t, NO_SLOT);
            if label == 0 {
                let idx = entries[to - 1].1;
                if idx >= values.len() || values[idx] < 0 {
                    return None;
                }
                words.set(t, VALUE_FLAG | values[idx] as u32);
            } else {
                words.set(t, (label - 1) as u32);
                stack.push((from, to, depth + 1, t));
            }
            k = k + 1;
        }
    }
    Some(words)
}

} // verus!
