//! Assembling a program image from raw bytes: big-endian 32-bit words, in
//! order; trailing bytes short of a word are discarded.

use vstd::prelude::*;

verus! {

/// The word formed by four bytes, most significant first.
pub open spec fn word_be(b0: u8, b1: u8, b2: u8, b3: u8) -> u32 {
    ((b0 as u32) << 24) | ((b1 as u32) << 16) | ((b2 as u32) << 8) | (b3 as u32)
}

/// The program a byte image holds: one word per full group of four bytes.
pub open spec fn codex_words(bytes: Seq<u8>) -> Seq<u32> {
    Seq::new(
        bytes.len() / 4,
        |i: int| word_be(bytes[4 * i], bytes[4 * i + 1], bytes[4 * i + 2], bytes[4 * i + 3]),
    )
}

/// Assemble a byte image into program words.
pub fn parse_codex(bytes: &Vec<u8>) -> (words: Vec<u32>)
    ensures
        words@ == codex_words(bytes@),
{
    let len = bytes.len();
    let n = len / 4;
    let mut words: Vec<u32> = Vec::new();
    let mut i: usize = 0;
    while i < n
        invariant
            len == bytes@.len(),
            n == bytes@.len() / 4,
            4 * n <= len,
            i <= n,
            words@.len() == i,
            forall|j: int| 0 <= j < i ==> #[trigger] words@[j] == codex_words(bytes@)[j],
        decreases n - i,
    {
        proof {
            assert(4 * i + 3 < len);
        }
        let base = 4 * i;
        let w = ((bytes[base] as u32) << 24u32) | ((bytes[base + 1] as u32) << 16u32) | ((bytes[base
            + 2] as u32) << 8u32) | (bytes[base + 3] as u32);
        words.push(w);
        i = i + 1;
    }
    proof {
        assert(words@ =~= codex_words(bytes@));
    }
    words
}

} // verus!
