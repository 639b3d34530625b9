//! The stored form of a unit array: each 32-bit word as four bytes, least
//! significant first, with no header.
use vstd::prelude::*;

verus! {

/// The four bytes of a word, least significant first.
pub open spec fn word_bytes(w: u32) -> Seq<u8> {
    seq![(w & 0xff) as u8, ((w >> 8u32) & 0xff) as u8, ((w >> 16u32) & 0xff) as u8, ((w >> 24u32) & 0xff) as u8]
}

/// The word held by four bytes.
pub open spec fn join_bytes(b0: u8, b1: u8, b2: u8, b3: u8) -> u32 {
    (b0 as u32) | ((b1 as u32) << 8u32) | ((b2 as u32) << 16u32) | ((b3 as u32) << 24u32)
}

/// The bytes of a word array.
pub open spec fn encode(a: Seq<u32>) -> Seq<u8> {
    Seq::new(4 * a.len(), |k: int| word_bytes(a[k / 4])[k % 4])
}

/// The words held by a byte string, four bytes each; trailing bytes that
/// make no whole word are not read.
pub open spec fn decode(b: Seq<u8>) -> Seq<u32> {
    Seq::new(b.len() / 4, |i: int| join_bytes(b[4 * i], b[4 * i + 1], b[4 * i + 2], b[4 * i + 3]))
}

pub proof fn lemma_word_round_trip(w: u32)
    ensures
        join_bytes(
            (w & 0xff) as u8,
            ((w >> 8u32) & 0xff) as u8,
            ((w >> 16u32) & 0xff) as u8,
            ((w >> 24u32) & 0xff) as u8,
        ) == w,
{
    assert(((w & 0xff) as u8 as u32) | ((((w >> 8u32) & 0xff) as u8 as u32) << 8u32) | ((((w
        >> 16u32) & 0xff) as u8 as u32) << 16u32) | ((((w >> 24u32) & 0xff) as u8 as u32)
        << 24u32) == w) by (bit_vector);
}

/// Decoding the bytes of a word array gives the array back.
pub proof fn lemma_decode_encode(a: Seq<u32>)
    ensures
        decode(encode(a)) == a,
{
    let e = encode(a);
    assert forall|i: int| 0 <= i < a.len() implies #[trigger] decode(e)[i] == a[i] by {
        assert((4 * i) / 4 == i && (4 * i + 1) / 4 == i && (4 * i + 2) / 4 == i && (4 * i + 3)
            / 4 == i);
        assert((4 * i) % 4 == 0 && (4 * i + 1) % 4 == 1 && (4 * i + 2) % 4 == 2 && (4 * i + 3)
            % 4 == 3);
        lemma_word_round_trip(a[i]);
    }
    assert(decode(e) =~= a);
}

/// The bytes of `words`.
pub fn words_to_bytes(words: &Vec<u32>) -> (r: Vec<u8>)
    requires
        4 * words@.len() <= usize::MAX,
    ensures
        r@ == encode(words@),
{
    let mut r: Vec<u8> = Vec::new();
    let mut i: usize = 0;
    while i < words.len()
        invariant
            i <= words@.len(),
            4 * words@.len() <= usize::MAX,
            r@.len() == 4 * i,
            forall|k: int| 0 <= k < 4 * i ==> #[trigger] r@[k] == word_bytes(words@[k / 4])[k % 4],
        decreases words@.len() - i,
    {
        let w = words[i];
        r.push((w & 0xff) as u8);
        r.push(((w >> 8u32) & 0xff) as u8);
        r.push(((w >> 16u32) & 0xff) as u8);
        r.push(((w >> 24u32) & 0xff) as u8);
        proof {
            assert forall|k: int| 4 * i <= k < 4 * i + 4 implies #[trigger] r@[k] == word_bytes(
                words@[k / 4],
            )[k % 4] by {
                assert(k / 4 == i);
                assert(k % 4 == k - 4 * i);
            }
        }
        i = i + 1;
    }
    assert(r@ =~= encode(words@));
    r
}

/// The words held by `bytes`, four bytes each.
pub fn bytes_to_words(bytes: &[u8]) -> (r: Vec<u32>)
    ensures
        r@ == decode(bytes@),
{
    let mut r: Vec<u32> = Vec::new();
    let len = bytes.len();
    let count = len / 4;
    let mut i: usize = 0;
    while i < count
        invariant
            len == bytes@.len(),
            count == len / 4,
            i <= count,
            r@.len() == i,
            forall|j: int| 0 <= j < i ==> #[trigger] r@[j] == decode(bytes@)[j],
        decreases count - i,
    {
        assert(4 * i + 3 < len);
        let w = join_word(bytes[4 * i], bytes[4 * i + 1], bytes[4 * i + 2], bytes[4 * i + 3]);
        r.push(w);
        i = i + 1;
    }
    assert(r@ =~= decode(bytes@));
    r
}

fn join_word(b0: u8, b1: u8, b2: u8, b3: u8) -> (r: u32)
    ensures
        r == join_bytes(b0, b1, b2, b3),
{
    (b0 as u32) | ((b1 as u32) << 8u32) | ((b2 as u32) << 16u32) | ((b3 as u32) << 24u32)
}

} // verus!
