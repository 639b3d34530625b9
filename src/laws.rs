//! Properties that relate the operations of the trie to one another and to
//! the key/value list it was built from.
use vstd::prelude::*;
use crate::codec::{decode, encode, lemma_decode_encode};
use crate::model::{last_value, lemma_last_value_at, lemma_last_value_some};
use crate::trie::prefix_hits;
use crate::units::{find_from, opt_seq, unit_count};

verus! {

/// The values of the prefixes of `q` (the empty one included) that occur as
/// keys, shortest prefix first.
pub open spec fn prefix_key_values(keys: Seq<Seq<u8>>, values: Seq<i32>, q: Seq<u8>) -> Seq<i32>
    decreases q.len(),
{
    if q.len() == 0 {
        opt_seq(last_value(keys, values, q))
    } else {
        prefix_key_values(keys, values, q.drop_last()) + opt_seq(last_value(keys, values, q))
    }
}

/// Dumping a store and loading the bytes gives back the same units, so
/// every lookup and prefix search answers as before.
pub proof fn law_dump_load_round_trip(a: Seq<u32>)
    ensures
        decode(encode(a)) == a,
        forall|k: Seq<u8>, s: int| find_from(decode(encode(a)), s, k) == find_from(a, s, k),
        forall|k: Seq<u8>, s: int| prefix_hits(decode(encode(a)), s, k) == prefix_hits(a, s, k),
{
    lemma_decode_encode(a);
}

/// In a store built from distinct keys, every key finds its own value and
/// every other key finds nothing.
pub proof fn law_exactness(a: Seq<u32>, keys: Seq<Seq<u8>>, values: Seq<i32>)
    requires
        keys.len() == values.len(),
        forall|i: int, j: int| 0 <= i < j < keys.len() ==> keys[i] != keys[j],
        forall|k: Seq<u8>| #![trigger find_from(a, 0, k)] find_from(a, 0, k) == last_value(keys, values, k),
    ensures
        forall|i: int| 0 <= i < keys.len() ==> find_from(a, 0, #[trigger] keys[i]) == Some(values[i]),
        forall|k: Seq<u8>| !keys.contains(k) ==> #[trigger] find_from(a, 0, k) is None,
{
    assert forall|i: int| 0 <= i < keys.len() implies find_from(a, 0, #[trigger] keys[i]) == Some(
        values[i],
    ) by {
        lemma_last_value_at(keys, values, keys[i], i);
    }
    assert forall|k: Seq<u8>| !keys.contains(k) implies #[trigger] find_from(a, 0, k) is None by {
        lemma_last_value_some(keys, values, k);
    }
}

/// A prefix search from the root of a built store gives the values of
/// exactly those keys that are prefixes of the query, shortest first.
pub proof fn law_prefix_completeness(
    a: Seq<u32>,
    keys: Seq<Seq<u8>>,
    values: Seq<i32>,
    q: Seq<u8>,
)
    requires
        forall|k: Seq<u8>| #![trigger find_from(a, 0, k)] find_from(a, 0, k) == last_value(keys, values, k),
    ensures
        prefix_hits(a, 0, q) == prefix_key_values(keys, values, q),
    decreases q.len(),
{
    assert(find_from(a, 0, q) == last_value(keys, values, q));
    if q.len() > 0 {
        law_prefix_completeness(a, keys, values, q.drop_last());
        if unit_count(a) == 0 {
            assert(last_value(keys, values, q) is None);
        }
    }
}

/// An empty store finds nothing and has no prefix values, from any node.
pub proof fn law_empty_store(a: Seq<u32>)
    requires
        unit_count(a) == 0,
    ensures
        forall|k: Seq<u8>, s: int| #[trigger] find_from(a, s, k) is None,
        forall|k: Seq<u8>, s: int| #[trigger] prefix_hits(a, s, k).len() == 0,
{
}

} // verus!
