//! The trie itself: its unit store and the read-only operations on it.
use vstd::prelude::*;
use vstd::string::StringSliceAdditionalSpecFns;
use vstd::slice::slice_to_vec;
use crate::builder::{construct, sorted_entries, MAX_UNITS};
use crate::direct::{direct_layout, direct_room, total_len};
use crate::checker::{is_key_prefix, layout_matches};
use crate::codec::{bytes_to_words, decode, encode, words_to_bytes};
use crate::error::{Error, ErrorKind};
use crate::model::{key_seqs, last_value, lemma_last_value_some};
use crate::units::{
    exec_leaf_value, exec_step, exec_walk, find_from, lemma_prefix_values_stable,
    lemma_walk_none_extends, lemma_walk_push, leaf_value, prefix_values,
    step, unit_count, units_in, walk, UNIT_BYTES,
};

verus! {

/// Result of `traverse` when the walk is still on a path but no key ends here.
pub const NO_VALUE: i32 = -1;

/// Result of `traverse` on a dead end, or on an empty store.
pub const DEAD_END: i32 = -2;

/// A double-array trie over a flat array of 32-bit units.
#[derive(Debug)]
pub struct Datrie {
    pub(crate) units: Vec<u32>,
    filled: bool,
}

/// The values of the prefixes of `key` that end on a terminal, walking
/// from `start`; nothing when `start` is not a unit of the store.
pub open spec fn prefix_hits(a: Seq<u32>, start: int, key: Seq<u8>) -> Seq<i32> {
    if 0 <= start < unit_count(a) {
        prefix_values(a, start, key)
    } else {
        Seq::empty()
    }
}

pub open spec fn min_len(a: int, b: int) -> int {
    if a < b { a } else { b }
}

impl View for Datrie {
    type V = Seq<u32>;

    closed spec fn view(&self) -> Seq<u32> {
        self.units@
    }
}

impl Datrie {
    /// Whether units were put in place by a build, a load or `set_array`
    /// since creation or the last `clear`.
    pub closed spec fn has_array(&self) -> bool {
        self.filled
    }

    /// An empty trie: no units.
    pub fn new() -> (r: Self)
        ensures
            r@.len() == 0,
            !r.has_array(),
    {
        Datrie { units: Vec::new(), filled: false }
    }

    /// True when the store holds no unit, before a build or after `clear`.
    pub fn is_empty(&self) -> (r: bool)
        ensures
            r == (unit_count(self@) == 0),
    {
        units_in(&self.units) == 0
    }

    /// Exact-match lookup of `key`, from the root or from `node_pos`.
    pub fn find(&self, key: &str, node_pos: Option<usize>) -> (r: Option<i32>)
        ensures
            r == find_from(self@, node_pos.unwrap_or(0) as int, key.spec_bytes()),
    {
        let start = match node_pos {
            Some(p) => p,
            None => 0,
        };
        if start >= units_in(&self.units) {
            return None;
        }
        match exec_walk(&self.units, start, key.as_bytes()) {
            Some(n) => exec_leaf_value(&self.units, n),
            None => None,
        }
    }

    /// The values of the keys that are prefixes of `key` (the empty key and
    /// `key` itself included), shortest first and at most `num_result` of
    /// them, with the number of such keys. A `str` is never `usize::MAX`
    /// bytes long, so the count always fits.
    pub fn common_prefix_search(&self, key: &str, num_result: usize, node_pos: Option<usize>) -> (r: (
        Vec<i32>,
        usize,
    ))
        ensures
            key.spec_bytes().len() < usize::MAX ==> r.1 == prefix_hits(
                self@,
                node_pos.unwrap_or(0) as int,
                key.spec_bytes(),
            ).len(),
            key.spec_bytes().len() < usize::MAX ==> r.0@ == prefix_hits(self@, node_pos.unwrap_or(0) as int, key.spec_bytes()).take(
                min_len(num_result as int, r.1 as int),
            ),
    {
        let mut results: Vec<i32> = Vec::new();
        let start = match node_pos {
            Some(p) => p,
            None => 0,
        };
        if start >= units_in(&self.units) {
            return (results, 0);
        }
        let bytes = key.as_bytes();
        if bytes.len() == usize::MAX {
            return (results, 0);
        }
        let ghost a = self@;
        let ghost kb = bytes@;
        let mut cur = start;
        let mut found: usize = 0;
        let mut i: usize = 0;
        match exec_leaf_value(&self.units, cur) {
            Some(v) => {
                if num_result > 0 {
                    results.push(v);
                }
                found = 1;
            },
            None => {},
        }
        assert(results@ =~= prefix_values(a, start as int, kb.take(0)).take(
            min_len(num_result as int, found as int),
        ));
        while i < bytes.len()
            invariant
                a == self@,
                kb == bytes@,
                kb == key.spec_bytes(),
                start as int == node_pos.unwrap_or(0) as int,
                start < unit_count(a),
                i <= kb.len(),
                kb.len() < usize::MAX,
                cur < unit_count(a),
                walk(a, start as int, kb.take(i as int)) == Some(cur as int),
                found == prefix_values(a, start as int, kb.take(i as int)).len(),
                found <= i + 1,
                results@ == prefix_values(a, start as int, kb.take(i as int)).take(
                    min_len(num_result as int, found as int),
                ),
            decreases kb.len() - i,
        {
            let ghost before = kb.take(i as int);
            let ghost next = kb.take(i + 1);
            proof {
                lemma_walk_push(a, start as int, before, kb[i as int]);
                assert(before.push(kb[i as int]) =~= next);
                assert(next.drop_last() =~= before);
            }
            match exec_step(&self.units, cur, bytes[i]) {
                Some(t) => {
                    cur = t;
                },
                None => {
                    proof {
                        if i + 1 < kb.len() {
                            lemma_prefix_values_stable(a, start as int, before, kb);
                        } else {
                            assert(next =~= kb);
                        }
                    }
                    assert(kb.take(kb.len() as int) =~= kb);
                    return (results, found);
                },
            }
            i = i + 1;
            match exec_leaf_value(&self.units, cur) {
                Some(v) => {
                    if results.len() < num_result {
                        results.push(v);
                    }
                    found = found + 1;
                    assert(results@ =~= prefix_values(a, start as int, next).take(
                        min_len(num_result as int, found as int),
                    ));
                },
                None => {},
            }
        }
        assert(kb.take(i as int) =~= kb);
        (results, found)
    }

    /// Resumes a walk at `node_pos` over the bytes of `key` from `key_pos`
    /// on. Returns the value at the node reached, `NO_VALUE` when no key ends
    /// there, or `DEAD_END` when a transition is missing; the positions then
    /// stay at the last node reached and the byte that failed.
    pub fn traverse(&self, key: &str, node_pos: &mut usize, key_pos: &mut usize) -> (r: i32)
        ensures
            ({
                let a = self@;
                let kb = key.spec_bytes();
                let s = *old(node_pos) as int;
                let kp = *old(key_pos) as int;
                if !(s < unit_count(a)) {
                    r == DEAD_END && *final(node_pos) == *old(node_pos) && *final(key_pos)
                        == *old(key_pos)
                } else if kp >= kb.len() {
                    *final(node_pos) == *old(node_pos) && *final(key_pos) == *old(key_pos) && r
                        == (match leaf_value(a, s) {
                        Some(v) => v,
                        None => NO_VALUE,
                    })
                } else {
                    match walk(a, s, kb.subrange(kp, kb.len() as int)) {
                        Some(n) => *final(node_pos) == n && *final(key_pos) == kb.len() && r == (
                        match leaf_value(a, n) {
                            Some(v) => v,
                            None => NO_VALUE,
                        }),
                        None => r == DEAD_END && kp <= *final(key_pos) < kb.len() && walk(
                            a,
                            s,
                            kb.subrange(kp, *final(key_pos) as int),
                        ) == Some(*final(node_pos) as int) && step(
                            a,
                            *final(node_pos) as int,
                            kb[*final(key_pos) as int],
                        ) is None,
                    }
                }
            }),
    {
        let n = units_in(&self.units);
        if *node_pos >= n {
            return DEAD_END;
        }
        let bytes = key.as_bytes();
        let ghost a = self@;
        let ghost kb = bytes@;
        let ghost s = *node_pos as int;
        let ghost kp = *key_pos as int;
        let mut pos: usize = *key_pos;
        let mut node: usize = *node_pos;
        if pos < bytes.len() {
            while pos < bytes.len()
                invariant
                    a == self@,
                    kb == bytes@,
                    kb == key.spec_bytes(),
                    s == *old(node_pos) as int,
                    kp == *old(key_pos) as int,
                    s < unit_count(a),
                    0 <= kp < kb.len(),
                    kp <= pos <= kb.len(),
                    node < unit_count(a),
                    walk(a, s, kb.subrange(kp, pos as int)) == Some(node as int),
                decreases kb.len() - pos,
            {
                let ghost before = kb.subrange(kp, pos as int);
                proof {
                    lemma_walk_push(a, s, before, kb[pos as int]);
                    assert(before.push(kb[pos as int]) =~= kb.subrange(kp, pos + 1));
                }
                match exec_step(&self.units, node, bytes[pos]) {
                    Some(t) => {
                        node = t;
                    },
                    None => {
                        proof {
                            assert(kb.subrange(kp, kb.len() as int).take(pos + 1 - kp)
                                =~= kb.subrange(kp, pos + 1));
                            lemma_walk_none_extends(
                                a,
                                s,
                                kb.subrange(kp, pos + 1),
                                kb.subrange(kp, kb.len() as int),
                            );
                            assert(walk(a, s, kb.subrange(kp, kb.len() as int)) is None);
                            assert(step(a, node as int, kb[pos as int]) is None);
                        }
                        *node_pos = node;
                        *key_pos = pos;
                        return DEAD_END;
                    },
                }
                pos = pos + 1;
            }
        }
        *node_pos = node;
        *key_pos = pos;
        match exec_leaf_value(&self.units, node) {
            Some(v) => v,
            None => NO_VALUE,
        }
    }

    /// Builds the trie from `keys` and, if given, one value per key; without
    /// values each key gets the position of its last occurrence in sorted
    /// order. A key that occurs twice keeps the value of its last occurrence.
    /// On any error the trie is left as it was. It succeeds whenever the
    /// keys are there, the values match them in number and are
    /// non-negative, and the keys are short enough in total for a direct
    /// layout (`direct_room`) to fit in `MAX_UNITS` units. The packed layout
    /// is tried first and kept when a check confirms it; otherwise the
    /// direct layout, proved correct, is used.
    pub fn build(&mut self, keys: &[&str], values: Option<&[i32]>) -> (r: Result<(), Error>)
        ensures
            (r matches Err(e) && e.kind is ValueError) <==> (keys@.len() == 0 || (values matches Some(
                v,
            ) && v@.len() != keys@.len())),
            r is Err ==> final(self)@ == old(self)@ && final(self).has_array() == old(self).has_array(),
            r is Ok ==> final(self).has_array(),
            (keys@.len() > 0 && match values {
                Some(v) => v@.len() == keys@.len() && forall|i: int| 0 <= i < v@.len() ==> v@[i] >= 0,
                None => keys@.len() <= 0x7fff_ffff,
            } && direct_room(total_len(key_seqs(keys@))) <= MAX_UNITS) ==> r is Ok,
            r is Ok ==> forall|k: Seq<u8>|
                #![trigger walk(final(self)@, 0, k)]
                walk(final(self)@, 0, k) is Some <==> is_key_prefix(key_seqs(keys@), k),
            (values matches Some(v) && keys@.len() > 0 && v@.len() == keys@.len() && exists|i: int|
                0 <= i < v@.len() && v@[i] < 0) ==> (r matches Err(e) && e.kind is UnknownError),
            r is Ok ==> match values {
                Some(v) => forall|k: Seq<u8>|
                    #![trigger find_from(final(self)@, 0, k)]
                    find_from(final(self)@, 0, k) == last_value(key_seqs(keys@), v@, k),
                None => forall|k: Seq<u8>|
                    #![trigger find_from(final(self)@, 0, k)]
                    find_from(final(self)@, 0, k) is Some <==> key_seqs(keys@).contains(k),
            },
    {
        let n = keys.len();
        if n == 0 {
            return Err(Error::new(ErrorKind::ValueError("empty keys".to_owned())));
        }
        let mut items: Vec<(Vec<u8>, usize)> = Vec::new();
        let mut i: usize = 0;
        while i < n
            invariant
                i <= n,
                n == keys@.len(),
                items@.len() == i,
            decreases n - i,
        {
            items.push((slice_to_vec(keys[i].as_bytes()), i));
            i = i + 1;
        }
        let mut vals: Vec<i32> = Vec::new();
        match values {
            Some(v) => {
                if v.len() != n {
                    return Err(
                        Error::new(
                            ErrorKind::ValueError("number of keys and values mismatch".to_owned()),
                        ),
                    );
                }
                let mut i: usize = 0;
                while i < n
                    invariant
                        i <= n,
                        n == v@.len(),
                        n == keys@.len(),
                        values == Some(v),
                        vals@ == v@.take(i as int),
                        forall|j: int| 0 <= j < i ==> v@[j] >= 0,
                    decreases n - i,
                {
                    if v[i] < 0 {
                        return Err(
                            Error::new(ErrorKind::UnknownError("negative value".to_owned())),
                        );
                    }
                    vals.push(v[i]);
                    i = i + 1;
                }
                assert(vals@ =~= v@);
            },
            None => {},
        }
        let sorted = sorted_entries(items);
        if values.is_none() {
            if n > 0x7fff_ffff {
                return Err(Error::new(ErrorKind::UnknownError("too many keys".to_owned())));
            }
            vals = vec![0i32; n];
            let mut j: usize = 0;
            while j < n
                invariant
                    j <= n,
                    n == sorted@.len(),
                    n <= 0x7fff_ffff,
                    vals@.len() == n,
                    forall|q: int| 0 <= q < n ==> vals@[q] >= 0,
                decreases n - j,
            {
                let idx = sorted[j].1;
                if idx < n {
                    vals.set(idx, j as i32);
                }
                j = j + 1;
            }
        }
        assert(vals@.len() == n);
        assert(forall|q: int| 0 <= q < n ==> vals@[q] >= 0);
        // The packed layout, kept only once it is confirmed; the direct
        // layout otherwise.
        let packed = match construct(&sorted, &vals) {
            Some(words) => {
                if layout_matches(&words, keys, &vals) {
                    Some(words)
                } else {
                    None
                }
            },
            None => None,
        };
        let layout = match packed {
            Some(words) => Some(words),
            None => direct_layout(keys, &vals),
        };
        match layout {
            Some(words) => {
                self.units = words;
                self.filled = true;
                proof {
                    if values is None {
                        assert forall|k: Seq<u8>| #![trigger find_from(self@, 0, k)]
                            find_from(self@, 0, k) is Some <==> key_seqs(keys@).contains(k) by {
                            lemma_last_value_some(key_seqs(keys@), vals@, k);
                        }
                    }
                }
                Ok(())
            },
            None => Err(
                Error::new(ErrorKind::UnknownError("build double array trie failed".to_owned())),
            ),
        }
    }

    /// The stored form of the trie: every word of the store as four bytes,
    /// least significant first.
    pub fn dump_bytes(&self) -> (r: Vec<u8>)
        requires
            4 * self@.len() <= usize::MAX,
        ensures
            r@ == encode(self@),
            r@.len() == unit_count(self@) * UNIT_BYTES,
    {
        words_to_bytes(&self.units)
    }

    /// Replaces the store by the units held in `bytes`, which must be a whole
    /// number of units; otherwise the trie is left as it was.
    pub fn load_bytes(&mut self, bytes: &[u8]) -> (r: Result<(), Error>)
        ensures
            r is Ok <==> bytes@.len() % 4 == 0,
            r matches Err(e) ==> e.kind is CorruptedDataError && final(self)@ == old(self)@
                && final(self).has_array() == old(self).has_array(),
            r is Ok ==> final(self)@ == decode(bytes@) && final(self).has_array(),
    {
        if bytes.len() % UNIT_BYTES != 0 {
            return Err(
                Error::new(
                    ErrorKind::CorruptedDataError(
                        "data is not a whole number of units".to_owned(),
                    ),
                ),
            );
        }
        let words = bytes_to_words(bytes);
        self.units = words;
        self.filled = true;
        Ok(())
    }

    /// Discards every unit.
    pub fn clear(&mut self)
        ensures
            final(self)@.len() == 0,
            !final(self).has_array(),
    {
        self.units = Vec::new();
        self.filled = false;
    }

    /// Byte width of one unit.
    pub fn unit_size(&self) -> (r: usize)
        ensures
            r == UNIT_BYTES,
    {
        UNIT_BYTES
    }

    /// Number of units.
    pub fn size(&self) -> (r: usize)
        ensures
            r == unit_count(self@),
    {
        units_in(&self.units)
    }

    /// Byte width of the whole store.
    pub fn total_size(&self) -> (r: usize)
        requires
            unit_count(self@) * UNIT_BYTES <= usize::MAX,
        ensures
            r == unit_count(self@) * UNIT_BYTES,
    {
        units_in(&self.units) * UNIT_BYTES
    }

    /// Replaces the store by `array`, one unit per word.
    pub fn set_array(&mut self, array: Vec<u32>)
        ensures
            final(self)@ == array@,
            final(self).has_array(),
    {
        self.units = array;
        self.filled = true;
    }

    /// The units of the store, once a build, a load or `set_array` has put
    /// them in place.
    pub fn get_array(&self) -> (r: Option<&Vec<u32>>)
        ensures
            r is None <==> !self.has_array(),
            r matches Some(v) ==> v@ == self@,
    {
        if self.filled {
            Some(&self.units)
        } else {
            None
        }
    }
}

} // verus!
