//! The mutation engine: one randomly chosen operation per call — bit flip,
//! byte replacement, deletion of a short run, or insertion of a copied or
//! constant run. Each operation is exact; the choice and its parameters
//! are random.
use vstd::prelude::*;

use crate::randsrc::{rand_below, rand_byte};

verus! {

/// An exact copy of the input bytes.
pub fn copy_bytes(data: &Vec<u8>) -> (r: Vec<u8>)
    ensures
        r@ == data@,
{
    let n = data.len();
    let mut r: Vec<u8> = Vec::new();
    let mut i: usize = 0;
    while i < n
        invariant
            n == data@.len(),
            i <= n,
            r@ == data@.take(i as int),
        decreases n - i,
    {
        r.push(*vstd::std_specs::vec::vec_index(data, i));
        proof {
            assert(r@ =~= data@.take(i as int + 1));
        }
        i = i + 1;
    }
    proof {
        assert(data@.take(n as int) =~= data@);
    }
    r
}

/// The input with one bit of one byte flipped.
pub fn flip_bit(data: &Vec<u8>, pos: usize, bit: u32) -> (r: Vec<u8>)
    requires
        pos < data@.len(),
        bit < 8,
    ensures
        r@ == data@.update(pos as int, data@[pos as int] ^ (1u8 << bit)),
{
    let mut r = copy_bytes(data);
    let b = *vstd::std_specs::vec::vec_index(&r, pos);
    let slot = vstd::std_specs::vec::vec_index_mut(&mut r, pos);
    *slot = b ^ (1u8 << bit);
    r
}

/// The input with one byte replaced.
pub fn replace_byte(data: &Vec<u8>, pos: usize, byte: u8) -> (r: Vec<u8>)
    requires
        pos < data@.len(),
    ensures
        r@ == data@.update(pos as int, byte),
{
    let mut r = copy_bytes(data);
    let slot = vstd::std_specs::vec::vec_index_mut(&mut r, pos);
    *slot = byte;
    r
}

/// The input with `dlen` consecutive bytes removed, starting at `start`.
pub fn delete_range(data: &Vec<u8>, start: usize, dlen: usize) -> (r: Vec<u8>)
    requires
        start + dlen <= data@.len(),
    ensures
        r@ == data@.take(start as int) + data@.skip(start as int + dlen as int),
{
    let n = data.len();
    let mut r: Vec<u8> = Vec::new();
    let mut i: usize = 0;
    while i < start
        invariant
            n == data@.len(),
            start + dlen <= n,
            i <= start,
            r@ == data@.take(i as int),
        decreases start - i,
    {
        r.push(*vstd::std_specs::vec::vec_index(data, i));
        proof {
            assert(r@ =~= data@.take(i as int + 1));
        }
        i = i + 1;
    }
    let mut j: usize = start + dlen;
    while j < n
        invariant
            n == data@.len(),
            start + dlen <= j <= n,
            r@ == data@.take(start as int) + data@.subrange(start as int + dlen as int, j as int),
        decreases n - j,
    {
        r.push(*vstd::std_specs::vec::vec_index(data, j));
        proof {
            assert(r@ =~= data@.take(start as int) + data@.subrange(
                start as int + dlen as int,
                j as int + 1,
            ));
        }
        j = j + 1;
    }
    proof {
        assert(data@.subrange(start as int + dlen as int, n as int) =~= data@.skip(
            start as int + dlen as int,
        ));
    }
    r
}

/// The input with a copy of `data[src..src+clen]` spliced in at `at`.
pub fn insert_copy(data: &Vec<u8>, at: usize, src: usize, clen: usize) -> (r: Vec<u8>)
    requires
        at <= data@.len(),
        src + clen <= data@.len(),
    ensures
        r@ == data@.take(at as int) + data@.subrange(src as int, src as int + clen as int)
            + data@.skip(at as int),
{
    let n = data.len();
    let mut r: Vec<u8> = Vec::new();
    let mut i: usize = 0;
    while i < at
        invariant
            n == data@.len(),
            at <= n,
            i <= at,
            r@ == data@.take(i as int),
        decreases at - i,
    {
        r.push(*vstd::std_specs::vec::vec_index(data, i));
        proof {
            assert(r@ =~= data@.take(i as int + 1));
        }
        i = i + 1;
    }
    let mut j: usize = 0;
    while j < clen
        invariant
            n == data@.len(),
            at <= n,
            src + clen <= n,
            j <= clen,
            r@ == data@.take(at as int) + data@.subrange(src as int, src as int + j as int),
        decreases clen - j,
    {
        r.push(*vstd::std_specs::vec::vec_index(data, src + j));
        proof {
            assert(r@ =~= data@.take(at as int) + data@.subrange(
                src as int,
                src as int + j as int + 1,
            ));
        }
        j = j + 1;
    }
    let mut p: usize = at;
    while p < n
        invariant
            n == data@.len(),
            at <= p <= n,
            src + clen <= n,
            r@ == data@.take(at as int) + data@.subrange(src as int, src as int + clen as int)
                + data@.subrange(at as int, p as int),
        decreases n - p,
    {
        r.push(*vstd::std_specs::vec::vec_index(data, p));
        proof {
            assert(r@ =~= data@.take(at as int) + data@.subrange(
                src as int,
                src as int + clen as int,
            ) + data@.subrange(at as int, p as int + 1));
        }
        p = p + 1;
    }
    proof {
        assert(data@.subrange(at as int, n as int) =~= data@.skip(at as int));
    }
    r
}

/// The input with `clen` copies of one byte spliced in at `at`.
pub fn insert_repeat(data: &Vec<u8>, at: usize, byte: u8, clen: usize) -> (r: Vec<u8>)
    requires
        at <= data@.len(),
    ensures
        r@ == data@.take(at as int) + Seq::new(clen as nat, |q: int| byte) + data@.skip(at as int),
{
    let n = data.len();
    let mut r: Vec<u8> = Vec::new();
    let mut i: usize = 0;
    while i < at
        invariant
            n == data@.len(),
            at <= n,
            i <= at,
            r@ == data@.take(i as int),
        decreases at - i,
    {
        r.push(*vstd::std_specs::vec::vec_index(data, i));
        proof {
            assert(r@ =~= data@.take(i as int + 1));
        }
        i = i + 1;
    }
    let mut j: usize = 0;
    while j < clen
        invariant
            n == data@.len(),
            at <= n,
            j <= clen,
            r@ == data@.take(at as int) + Seq::new(j as nat, |q: int| byte),
        decreases clen - j,
    {
        r.push(byte);
        proof {
            assert(r@ =~= data@.take(at as int) + Seq::new(j as nat + 1, |q: int| byte));
        }
        j = j + 1;
    }
    let mut p: usize = at;
    while p < n
        invariant
            n == data@.len(),
            at <= p <= n,
            r@ == data@.take(at as int) + Seq::new(clen as nat, |q: int| byte) + data@.subrange(
                at as int,
                p as int,
            ),
        decreases n - p,
    {
        r.push(*vstd::std_specs::vec::vec_index(data, p));
        proof {
            assert(r@ =~= data@.take(at as int) + Seq::new(clen as nat, |q: int| byte)
                + data@.subrange(at as int, p as int + 1));
        }
        p = p + 1;
    }
    proof {
        assert(data@.subrange(at as int, n as int) =~= data@.skip(at as int));
    }
    r
}

/// The input with the given bit of the given byte flipped.
pub open spec fn bit_flip_of(input: Seq<u8>, pos: int, bit: u32) -> Seq<u8> {
    input.update(pos, input[pos] ^ (1u8 << bit))
}

/// The input with the given byte overwritten.
pub open spec fn overwrite_of(input: Seq<u8>, pos: int, byte: u8) -> Seq<u8> {
    input.update(pos, byte)
}

/// The input with `d` consecutive bytes removed at `start`.
pub open spec fn deletion_of(input: Seq<u8>, start: int, d: int) -> Seq<u8> {
    input.take(start) + input.skip(start + d)
}

/// The input with a copy of `input[src..src+c]` spliced in at `at`.
pub open spec fn copy_insertion_of(input: Seq<u8>, at: int, src: int, c: int) -> Seq<u8> {
    input.take(at) + input.subrange(src, src + c) + input.skip(at)
}

/// The input with `c` copies of one byte spliced in at `at`.
pub open spec fn repeat_insertion_of(input: Seq<u8>, at: int, byte: u8, c: int) -> Seq<u8> {
    input.take(at) + Seq::new(c as nat, |q: int| byte) + input.skip(at)
}

/// The result is the input after exactly one of the four mutation
/// operations: one bit flipped, one byte overwritten, a run of 1 to
/// `min(8, len)` bytes deleted (only on inputs of at least two bytes), or
/// a run of 1 to `min(16, len)` bytes inserted, copied from a span of the
/// input or repeated from one byte.
pub open spec fn mutated_shape(input: Seq<u8>, r: Seq<u8>) -> bool {
    let len = input.len() as int;
    ||| (exists|pos: int, bit: u32| 0 <= pos < len && bit < 8 && r == #[trigger] bit_flip_of(input, pos, bit))
    ||| (exists|pos: int, byte: u8| 0 <= pos < len && r == #[trigger] overwrite_of(input, pos, byte))
    ||| (len >= 2 && exists|start: int, d: int|
        0 <= start && 1 <= d && d <= 8 && d <= len && start + d <= len && r == #[trigger] deletion_of(
            input,
            start,
            d,
        ))
    ||| (exists|at: int, src: int, c: int|
        0 <= at <= len && 0 <= src && 1 <= c && c <= 16 && c <= len && src + c <= len && r
            == #[trigger] copy_insertion_of(input, at, src, c))
    ||| (exists|at: int, byte: u8, c: int|
        0 <= at <= len && 1 <= c && c <= 16 && c <= len && r == #[trigger] repeat_insertion_of(
            input,
            at,
            byte,
            c,
        ))
}

/// Mutates one input with one randomly chosen operation: bit flip (30%),
/// byte replacement (20%), deletion of 1 to 8 consecutive bytes (25%), or
/// insertion of 1 to 16 bytes, copied from the input or a repeated random
/// byte (25%). An empty input is returned unchanged.
pub fn mutate(input: &Vec<u8>) -> (r: Vec<u8>)
    requires
        input@.len() < usize::MAX,
    ensures
        input@.len() == 0 ==> r@ == input@,
        input@.len() > 0 ==> mutated_shape(input@, r@),
        r@.len() <= input@.len() + 16,
        r@.len() + 8 >= input@.len(),
{
    let len = input.len();
    if len == 0 {
        return copy_bytes(input);
    }
    let strategy = rand_below(100);
    if strategy < 30 {
        let pos = rand_below(len);
        let bit = rand_below(8);
        let r = flip_bit(input, pos, bit as u32);
        proof {
            assert(r@ == bit_flip_of(input@, pos as int, bit as u32));
        }
        r
    } else if strategy < 50 {
        let byte = rand_byte();
        let pos = rand_below(len);
        let r = replace_byte(input, pos, byte);
        proof {
            assert(r@ == overwrite_of(input@, pos as int, byte));
        }
        r
    } else if strategy < 75 {
        if len > 1 {
            let cap = if len < 8 {
                len
            } else {
                8
            };
            let dlen = 1 + rand_below(cap);
            let start = rand_below(len - dlen + 1);
            let r = delete_range(input, start, dlen);
            proof {
                assert(r@ == deletion_of(input@, start as int, dlen as int));
            }
            r
        } else {
            // A single-byte input is returned unchanged, which is the
            // overwrite of its one byte with itself.
            let r = copy_bytes(input);
            proof {
                assert(r@ =~= overwrite_of(input@, 0, input@[0]));
                assert(r@ == overwrite_of(input@, 0, input@[0]));
            }
            r
        }
    } else {
        let cap = if len < 16 {
            len
        } else {
            16
        };
        let clen = 1 + rand_below(cap);
        let at = rand_below(len + 1);
        if rand_below(4) != 0 {
            let src = rand_below(len - clen + 1);
            let r = insert_copy(input, at, src, clen);
            proof {
                assert(r@ == copy_insertion_of(input@, at as int, src as int, clen as int));
            }
            r
        } else {
            let byte = rand_byte();
            let r = insert_repeat(input, at, byte, clen);
            proof {
                assert(r@ == repeat_insertion_of(input@, at as int, byte, clen as int));
            }
            r
        }
    }
}

} // verus!
