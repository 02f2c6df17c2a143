//! Path digests: traces are serialized to bytes little-endian and hashed
//! with a 128-bit digest. Collision resistance is all that is needed; the
//! digest value itself is opaque to the proofs.
use vstd::prelude::*;

verus! {

/// The 128-bit digest of a byte sequence; a function of the bytes alone.
pub uninterp spec fn digest_of(bytes: Seq<u8>) -> u128;

/// Relies on md5::compute: a 16-byte digest that depends on the input bytes
/// alone; the bytes are packed into one 128-bit value.
#[verifier::external_body]
fn md5_digest(bytes: &Vec<u8>) -> (r: u128)
    ensures
        r == digest_of(bytes@),
{
    u128::from_le_bytes(md5::compute(bytes.as_slice()).0)
}

/// The four little-endian bytes of one 32-bit word.
pub open spec fn le4(x: u32) -> Seq<u8> {
    seq![
        (x as int % 256) as u8,
        (x as int / 256 % 256) as u8,
        (x as int / 65536 % 256) as u8,
        (x as int / 16777216 % 256) as u8,
    ]
}

/// A block-id sequence as bytes, each id little-endian.
pub open spec fn le_bytes_of(t: Seq<u32>) -> Seq<u8>
    decreases t.len(),
{
    if t.len() == 0 {
        Seq::empty()
    } else {
        le4(t.first()) + le_bytes_of(t.drop_first())
    }
}

/// The digest of a block-id trace.
pub open spec fn trace_digest(t: Seq<u32>) -> u128 {
    digest_of(le_bytes_of(t))
}

/// Serializes a trace to its little-endian byte form.
fn blocks_to_bytes(t: &Vec<u32>) -> (r: Vec<u8>)
    ensures
        r@ == le_bytes_of(t@),
{
    let n = t.len();
    let mut r: Vec<u8> = Vec::new();
    let mut i: usize = 0;
    proof {
        assert(t@.skip(0) =~= t@);
        assert(r@ =~= Seq::<u8>::empty());
        assert(le_bytes_of(t@) =~= r@ + le_bytes_of(t@.skip(0)));
    }
    while i < n
        invariant
            n == t@.len(),
            i <= n,
            le_bytes_of(t@) == r@ + le_bytes_of(t@.skip(i as int)),
        decreases n - i,
    {
        let x = *vstd::std_specs::vec::vec_index(t, i);
        let ghost r0 = r@;
        r.push((x % 256) as u8);
        r.push((x / 256 % 256) as u8);
        r.push((x / 65536 % 256) as u8);
        r.push((x / 16777216 % 256) as u8);
        proof {
            let s = t@.skip(i as int);
            assert(s.len() > 0);
            assert(s.first() == t@[i as int]);
            assert(s.drop_first() =~= t@.skip(i as int + 1));
            assert(le_bytes_of(s) == le4(t@[i as int]) + le_bytes_of(t@.skip(i as int + 1)));
            assert(r@ =~= r0 + le4(t@[i as int]));
            assert(le_bytes_of(t@) == r@ + le_bytes_of(t@.skip(i as int + 1)));
        }
        i = i + 1;
    }
    proof {
        assert(t@.skip(n as int) =~= Seq::<u32>::empty());
        assert(le_bytes_of(t@) =~= r@);
    }
    r
}

/// Digest of a trace, computed over its little-endian byte form.
pub fn compute_trace_digest(t: &Vec<u32>) -> (r: u128)
    ensures
        r == trace_digest(t@),
{
    let bytes = blocks_to_bytes(t);
    md5_digest(&bytes)
}

} // verus!
