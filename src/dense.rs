//! The position bookkeeping of dense hypervectors: operand validation and
//! the cyclic shift, which moves components without reading them. The real
//! arithmetic of the dense algebra (superposition, circular convolution and
//! correlation, cosine similarity) works on floating-point components and is
//! not part of this crate's verified code.
use crate::cyclic::{lemma_shift_back, lemma_shift_by_reduced, reduce_shift, shifted_position};
use crate::errors::OVSAError;
use vstd::prelude::*;

verus! {

/// All lengths of a non-empty list equal the first.
pub open spec fn same_lengths(lengths: Seq<usize>) -> bool {
    forall|i: int| 0 <= i < lengths.len() ==> #[trigger] lengths[i] == lengths[0]
}

/// Validates the operands of a variadic or binary dense operator, given their
/// lengths: the list must be non-empty and all lengths equal. Returns the
/// common dimension.
pub fn common_dimension(lengths: &Vec<usize>) -> (r: Result<usize, OVSAError>)
    ensures
        lengths@.len() == 0 ==> r == Err::<usize, OVSAError>(OVSAError::EmptyVectorList),
        lengths@.len() > 0 && !same_lengths(lengths@) ==> r == Err::<usize, OVSAError>(
            OVSAError::VectorSizeMismatch,
        ),
        lengths@.len() > 0 && same_lengths(lengths@) ==> r == Ok::<usize, OVSAError>(
            lengths@[0],
        ),
{
    if lengths.len() == 0 {
        return Err(OVSAError::EmptyVectorList);
    }
    let d = lengths[0];
    let mut i: usize = 1;
    while i < lengths.len()
        invariant
            1 <= i <= lengths@.len(),
            d == lengths@[0],
            forall|m: int| 0 <= m < i ==> #[trigger] lengths@[m] == d,
        decreases lengths@.len() - i,
    {
        if lengths[i] != d {
            return Err(OVSAError::VectorSizeMismatch);
        }
        i += 1;
    }
    Ok(d)
}

/// The cyclic shift of a sequence by `s`: position `j` of the result holds
/// the element found at `(j - s) mod n`.
pub open spec fn rotate_seq<T>(v: Seq<T>, s: int) -> Seq<T> {
    Seq::new(v.len(), |j: int| v[shifted_position(j, -s, v.len())])
}

/// Cyclic shift of a dense vector: the component at position `i` moves to
/// `(i + shift_by) mod n`; a negative shift moves the other way.
pub fn cyclic_shift<T: Copy>(array: &Vec<T>, shift_by: isize) -> (r: Vec<T>)
    ensures
        r@ == rotate_seq(array@, shift_by as int),
        forall|i: int|
            0 <= i < array@.len() ==> r@[shifted_position(i, shift_by as int, array@.len())]
                == array@[i],
{
    let n = array.len();
    let mut r: Vec<T> = Vec::new();
    if n == 0 {
        assert(r@ =~= rotate_seq(array@, shift_by as int));
        return r;
    }
    let rs = reduce_shift(shift_by, n);
    let ghost target = rotate_seq(array@, shift_by as int);
    let mut j: usize = 0;
    while j < n
        invariant
            n == array@.len(),
            n > 0,
            rs as int == (shift_by as int) % (n as int),
            rs < n,
            j <= n,
            target == rotate_seq(array@, shift_by as int),
            r@ == target.subrange(0, j as int),
        decreases n - j,
    {
        let src = if j >= rs {
            j - rs
        } else {
            n - rs + j
        };
        proof {
            lemma_shift_by_reduced(src as int, shift_by as int, n as nat, rs as int);
            lemma_shift_back(src as int, shift_by as int, n as nat);
        }
        r.push(array[src]);
        j += 1;
        assert(r@ =~= target.subrange(0, j as int));
    }
    assert(r@ =~= target);
    assert forall|i: int| 0 <= i < array@.len() implies r@[shifted_position(
        i,
        shift_by as int,
        array@.len(),
    )] == array@[i] by {
        lemma_shift_back(i, shift_by as int, n as nat);
    }
    r
}

/// Shifting a dense vector by `s` and then by `-s` gives it back.
pub proof fn lemma_rotate_round_trip<T>(v: Seq<T>, s: int)
    ensures
        rotate_seq(rotate_seq(v, s), -s) == v,
{
    let once = rotate_seq(v, s);
    let twice = rotate_seq(once, -s);
    assert forall|j: int| 0 <= j < v.len() implies twice[j] == v[j] by {
        lemma_shift_back(j, s, v.len());
    }
    assert(twice =~= v);
}

} // verus!
