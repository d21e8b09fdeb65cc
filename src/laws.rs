//! Algebraic laws of the sparse binary hypervector algebra, stated over the
//! models that the operations' contracts use.
use crate::binary::{
    bind_model, consensus_model, hamming_model, model_wf, shift_model, symmetric_difference, votes,
    BinaryModel,
};
use crate::cyclic::{lemma_shift_back, shifted_position};
use vstd::prelude::*;
use vstd::set_lib::{lemma_int_range, lemma_len_subset, set_int_range};
use vstd::set::{axiom_set_contains_len, axiom_set_difference_finite, axiom_set_union_finite};

verus! {

/// Binding is its own inverse: binding with `b` twice gives `a` back.
pub proof fn lemma_bind_involution(a: BinaryModel, b: BinaryModel)
    requires
        model_wf(a),
        model_wf(b),
        a.dim == b.dim,
    ensures
        bind_model(bind_model(a, b), b) == a,
{
    assert(bind_model(bind_model(a, b), b).active =~= a.active);
}

/// Binding a vector with itself gives the all-zero vector.
pub proof fn lemma_bind_self_is_zero(a: BinaryModel)
    requires
        model_wf(a),
    ensures
        bind_model(a, a).active == Set::<int>::empty(),
{
    assert(bind_model(a, a).active =~= Set::<int>::empty());
}

/// The Hamming distance is symmetric.
pub proof fn lemma_hamming_symmetric(a: BinaryModel, b: BinaryModel)
    requires
        model_wf(a),
        model_wf(b),
        a.dim == b.dim,
    ensures
        hamming_model(a, b) == hamming_model(b, a),
{
    assert(symmetric_difference(a.active, b.active) =~= symmetric_difference(b.active, a.active));
}

/// Two vectors of one dimension are at distance zero, that is of similarity
/// exactly 1, if and only if they are equal; in particular every vector has
/// similarity 1 with itself.
pub proof fn lemma_similarity_one_iff_equal(a: BinaryModel, b: BinaryModel)
    requires
        model_wf(a),
        model_wf(b),
        a.dim == b.dim,
    ensures
        hamming_model(a, a) == 0,
        hamming_model(a, b) == 0 <==> a == b,
{
    let d = symmetric_difference(a.active, b.active);
    axiom_set_difference_finite(a.active, b.active);
    axiom_set_difference_finite(b.active, a.active);
    axiom_set_union_finite(a.active.difference(b.active), b.active.difference(a.active));
    assert(symmetric_difference(a.active, a.active) =~= Set::<int>::empty());
    if hamming_model(a, b) == 0 {
        assert forall|p: int| a.active.contains(p) == b.active.contains(p) by {
            if a.active.contains(p) != b.active.contains(p) {
                axiom_set_contains_len(d, p);
            }
        }
        assert(a.active =~= b.active);
    }
}

/// The Hamming distance never exceeds the dimension, so the similarity
/// `1 - distance / dimension` lies in `[0, 1]`.
pub proof fn lemma_distance_at_most_dimension(a: BinaryModel, b: BinaryModel)
    requires
        model_wf(a),
        model_wf(b),
        a.dim == b.dim,
    ensures
        hamming_model(a, b) <= a.dim,
{
    let d = symmetric_difference(a.active, b.active);
    lemma_int_range(0, a.dim as int);
    assert(d.subset_of(set_int_range(0, a.dim as int)));
    lemma_len_subset(d, set_int_range(0, a.dim as int));
}

/// Shifting by `s` and then by `-s` gives the vector back.
pub proof fn lemma_shift_round_trip(v: BinaryModel, s: int)
    requires
        model_wf(v),
    ensures
        shift_model(shift_model(v, s), -s) == v,
{
    let once = shift_model(v, s);
    let twice = shift_model(once, -s);
    assert forall|y: int| twice.active.contains(y) implies v.active.contains(y) by {
        let x = choose|x: int| once.active.contains(x) && y == shifted_position(x, -s, v.dim);
        let p = choose|p: int| v.active.contains(p) && x == shifted_position(p, s, v.dim);
        lemma_shift_back(p, s, v.dim);
    }
    assert forall|p: int| v.active.contains(p) implies twice.active.contains(p) by {
        let x = shifted_position(p, s, v.dim);
        assert(once.active.contains(x));
        lemma_shift_back(p, s, v.dim);
    }
    assert(twice.active =~= v.active);
}

proof fn lemma_votes_of_copies(v: BinaryModel, k: nat, p: int)
    ensures
        votes(Seq::new(k, |i: int| v), p) == if v.active.contains(p) {
            k
        } else {
            0
        },
    decreases k,
{
    if k > 0 {
        assert(Seq::new(k, |i: int| v).drop_last() =~= Seq::new((k - 1) as nat, |i: int| v));
        lemma_votes_of_copies(v, (k - 1) as nat, p);
    }
}

/// Bundling `k >= 1` identical copies of a vector gives that vector, whatever
/// the tie-break choices.
pub proof fn lemma_bundle_of_copies(v: BinaryModel, k: nat, ties: Seq<bool>)
    requires
        model_wf(v),
        k >= 1,
    ensures
        consensus_model(Seq::new(k, |i: int| v), ties) == v,
{
    let vs = Seq::new(k, |i: int| v);
    let r = consensus_model(vs, ties);
    assert forall|p: int| r.active.contains(p) == v.active.contains(p) by {
        lemma_votes_of_copies(v, k, p);
    }
    assert(r.active =~= v.active);
}

} // verus!
