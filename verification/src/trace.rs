//! The trace buffer reader: decodes a length-prefixed block-id sequence
//! from the raw bytes of the shared-memory region. The length word is
//! clamped to the region's capacity, never fatal.
use vstd::prelude::*;

verus! {

/// The 32-bit little-endian word at byte offset `off`.
pub open spec fn word_at(d: Seq<u8>, off: int) -> u32 {
    (d[off] as int + d[off + 1] as int * 256 + d[off + 2] as int * 65536 + d[off + 3] as int
        * 16777216) as u32
}

/// Number of block ids the reader yields: the length word, clamped to the
/// number of whole 32-bit slots after the length word; zero when the region
/// cannot even hold the length word.
pub open spec fn decoded_len(d: Seq<u8>) -> int {
    if d.len() < 4 {
        0
    } else {
        let n = word_at(d, 0) as int;
        let cap = d.len() / 4 - 1;
        if n <= cap {
            n
        } else {
            cap
        }
    }
}

/// Decodes the trace from the shared-memory bytes: a 32-bit count followed
/// by that many 32-bit block ids, the count clamped to the region size.
pub fn decode_trace(data: &[u8]) -> (r: Vec<u32>)
    ensures
        r@.len() == decoded_len(data@),
        forall|i: int| 0 <= i < r@.len() ==> r@[i] == word_at(data@, 4 + 4 * i),
{
    let dlen = data.len();
    if dlen < 4 {
        return Vec::new();
    }
    let n = read_word(data, 0) as usize;
    let cap = dlen / 4 - 1;
    let count = if n <= cap {
        n
    } else {
        cap
    };
    let mut r: Vec<u32> = Vec::new();
    let mut i: usize = 0;
    while i < count
        invariant
            dlen == data@.len(),
            4 <= dlen,
            count == decoded_len(data@),
            count <= dlen / 4 - 1,
            i <= count,
            r@.len() == i,
            forall|j: int| 0 <= j < i ==> r@[j] == word_at(data@, 4 + 4 * j),
        decreases count - i,
    {
        proof {
            assert(4 + 4 * (i as int) + 3 < dlen);
        }
        let w = read_word(data, 4 + 4 * i);
        r.push(w);
        i = i + 1;
    }
    r
}

/// Reads the little-endian 32-bit word at byte offset `off`.
fn read_word(data: &[u8], off: usize) -> (r: u32)
    requires
        off + 4 <= data@.len(),
    ensures
        r == word_at(data@, off as int),
{
    let dl = data.len();
    proof {
        assert(off + 4 <= dl);
    }
    let b0 = *vstd::slice::slice_index_get(data, off);
    let b1 = *vstd::slice::slice_index_get(data, off + 1);
    let b2 = *vstd::slice::slice_index_get(data, off + 2);
    let b3 = *vstd::slice::slice_index_get(data, off + 3);
    (b0 as u32) + (b1 as u32) * 256 + (b2 as u32) * 65536 + (b3 as u32) * 16777216
}

} // verus!
