//! The map that a build is meant to store: each key to the value of its last
//! occurrence in the input.
use vstd::prelude::*;
use vstd::string::StringSliceAdditionalSpecFns;

verus! {

/// The bytes of each key.
pub open spec fn key_seqs(keys: Seq<&str>) -> Seq<Seq<u8>> {
    keys.map_values(|k: &str| k.spec_bytes())
}

/// The value paired with the last occurrence of `k` in `keys`, if any.
pub open spec fn last_value(keys: Seq<Seq<u8>>, values: Seq<i32>, k: Seq<u8>) -> Option<i32>
    decreases keys.len(),
{
    if keys.len() == 0 || values.len() == 0 {
        None
    } else if keys.last() == k {
        Some(values.last())
    } else {
        last_value(keys.drop_last(), values.drop_last(), k)
    }
}

/// A key has a value iff it occurs in the input.
pub proof fn lemma_last_value_some(keys: Seq<Seq<u8>>, values: Seq<i32>, k: Seq<u8>)
    requires
        keys.len() == values.len(),
    ensures
        last_value(keys, values, k) is Some <==> keys.contains(k),
    decreases keys.len(),
{
    if keys.len() > 0 {
        lemma_last_value_some(keys.drop_last(), values.drop_last(), k);
        if keys.contains(k) && keys.last() != k {
            let i = choose|i: int| 0 <= i < keys.len() && keys[i] == k;
            assert(keys.drop_last()[i] == k);
        }
        if keys.drop_last().contains(k) {
            let i = choose|i: int| 0 <= i < keys.len() - 1 && keys.drop_last()[i] == k;
            assert(keys[i] == k);
        }
    }
}

/// The value of a key is the one at its last occurrence.
pub proof fn lemma_last_value_at(keys: Seq<Seq<u8>>, values: Seq<i32>, k: Seq<u8>, j: int)
    requires
        keys.len() == values.len(),
        0 <= j < keys.len(),
        keys[j] == k,
        forall|i: int| j < i < keys.len() ==> keys[i] != k,
    ensures
        last_value(keys, values, k) == Some(values[j]),
    decreases keys.len(),
{
    if j < keys.len() - 1 {
        assert(keys.last() != k);
        lemma_last_value_at(keys.drop_last(), values.drop_last(), k, j);
    }
}

} // verus!
