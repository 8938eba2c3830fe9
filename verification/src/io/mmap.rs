use vstd::bytes::{
    lemma_auto_spec_u64_to_from_le_bytes, spec_u64_from_le_bytes, spec_u64_to_le_bytes,
    u64_from_le_bytes, u64_to_le_bytes,
};
use vstd::prelude::*;
use vstd::slice::slice_subrange;

use crate::generic::graph::GraphError;

verus! {

/// Number of bytes that one array entry takes in a flat blob.
pub const WIDTH: usize = 8;

/// The flat blob of an array: its entries one after the other, each as
/// eight bytes, lowest byte first. The blob has no header.
pub open spec fn encoded(v: Seq<usize>) -> Seq<u8>
    decreases v.len(),
{
    if v.len() == 0 {
        Seq::empty()
    } else {
        encoded(v.drop_last()) + spec_u64_to_le_bytes(v.last() as u64)
    }
}

/// A blob is eight times as long as its array.
pub proof fn lemma_encoded_len(v: Seq<usize>)
    ensures
        encoded(v).len() == 8 * v.len(),
    decreases v.len(),
{
    lemma_auto_spec_u64_to_from_le_bytes();
    if v.len() > 0 {
        lemma_encoded_len(v.drop_last());
    }
}

/// The eight bytes of a blob at entry `i` are the bytes of that entry.
pub proof fn lemma_encoded_word(v: Seq<usize>, i: int)
    requires
        0 <= i < v.len(),
    ensures
        encoded(v).len() == 8 * v.len(),
        encoded(v).subrange(8 * i, 8 * i + 8) == spec_u64_to_le_bytes(v[i] as u64),
    decreases v.len(),
{
    lemma_auto_spec_u64_to_from_le_bytes();
    lemma_encoded_len(v);
    lemma_encoded_len(v.drop_last());
    if i == v.len() - 1 {
        assert(encoded(v).subrange(8 * i, 8 * i + 8) =~= spec_u64_to_le_bytes(v[i] as u64));
    } else {
        lemma_encoded_word(v.drop_last(), i);
        assert(encoded(v).subrange(8 * i, 8 * i + 8) =~= encoded(v.drop_last()).subrange(
            8 * i,
            8 * i + 8,
        ));
    }
}

/// Different arrays have different blobs.
pub proof fn lemma_encoded_injective(v: Seq<usize>, w: Seq<usize>)
    requires
        encoded(v) == encoded(w),
    ensures
        v == w,
{
    lemma_auto_spec_u64_to_from_le_bytes();
    lemma_encoded_len(v);
    lemma_encoded_len(w);
    assert forall|i: int| 0 <= i < v.len() implies v[i] == w[i] by {
        lemma_encoded_word(v, i);
        lemma_encoded_word(w, i);
        assert(spec_u64_from_le_bytes(spec_u64_to_le_bytes(v[i] as u64)) == v[i] as u64);
        assert(spec_u64_from_le_bytes(spec_u64_to_le_bytes(w[i] as u64)) == w[i] as u64);
    }
    assert(v =~= w);
}

/// The flat blob of `v`.
pub fn dump(v: &Vec<usize>) -> (r: Vec<u8>)
    ensures
        r@ == encoded(v@),
{
    let mut out: Vec<u8> = Vec::new();
    let mut i: usize = 0;
    while i < v.len()
        invariant
            i <= v@.len(),
            out@ == encoded(v@.take(i as int)),
        decreases v@.len() - i,
    {
        let mut word = u64_to_le_bytes(v[i] as u64);
        proof {
            assert(v@.take(i + 1).drop_last() == v@.take(i as int));
            assert(v@.take(i + 1).last() == v@[i as int]);
        }
        out.append(&mut word);
        i += 1;
    }
    assert(v@.take(v@.len() as int) == v@);
    out
}

/// The array whose flat blob `bytes` is. Fails with `DeserializationError`
/// exactly if `bytes` is the blob of no array: if its length is no multiple
/// of eight, or an entry is too large for this machine.
pub fn load(bytes: &[u8]) -> (r: Result<Vec<usize>, GraphError>)
    ensures
        match r {
            Ok(v) => bytes@ == encoded(v@),
            Err(e) => e == GraphError::DeserializationError && forall|v: Seq<usize>|
                encoded(v) != bytes@,
        },
{
    let n = bytes.len();
    if n % WIDTH != 0 {
        proof {
            assert forall|v: Seq<usize>| encoded(v) != bytes@ by {
                lemma_encoded_len(v);
            }
        }
        return Err(GraphError::DeserializationError);
    }
    let count = n / WIDTH;
    let mut out: Vec<usize> = Vec::new();
    let mut i: usize = 0;
    while i < count
        invariant
            i <= count,
            n == bytes@.len(),
            n == 8 * count,
            out@.len() == i,
            bytes@.take(8 * i) == encoded(out@),
        decreases count - i,
    {
        let word = slice_subrange(bytes, WIDTH * i, WIDTH * i + WIDTH);
        let x = u64_from_le_bytes(word);
        proof {
            lemma_auto_spec_u64_to_from_le_bytes();
            assert(spec_u64_to_le_bytes(spec_u64_from_le_bytes(word@)) == word@);
        }
        if x > usize::MAX as u64 {
            proof {
                assert forall|v: Seq<usize>| encoded(v) != bytes@ by {
                    if encoded(v) == bytes@ {
                        lemma_encoded_len(v);
                        lemma_encoded_word(v, i as int);
                        assert(spec_u64_from_le_bytes(spec_u64_to_le_bytes(v[i as int] as u64))
                            == v[i as int] as u64);
                    }
                }
            }
            return Err(GraphError::DeserializationError);
        }
        let ghost before = out@;
        out.push(x as usize);
        proof {
            assert(out@.drop_last() == before);
            assert(bytes@.take(8 * (i + 1)) =~= bytes@.take(8 * i) + word@);
        }
        i += 1;
    }
    assert(bytes@.take(n as int) == bytes@);
    Ok(out)
}

} // verus!
