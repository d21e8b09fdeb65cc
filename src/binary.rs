//! Sparse binary hypervectors: a dimension and the ascending list of the
//! positions that hold a one.
use crate::cyclic::{lemma_shift_back, lemma_shift_by_reduced, reduce_shift, shifted_position};
use crate::errors::OVSAError;
use crate::trusted::{coin_flip, sample_indices, sort_indices};
use vstd::prelude::*;

verus! {

/// A sequence in non-decreasing order.
pub open spec fn non_decreasing(s: Seq<usize>) -> bool {
    forall|i: int, j: int| 0 <= i < j < s.len() ==> s[i] <= s[j]
}

/// A sequence whose elements all lie in `[0, bound)`.
pub open spec fn all_below(s: Seq<usize>, bound: nat) -> bool {
    forall|k: int| 0 <= k < s.len() ==> s[k] < bound
}

/// The set of values that an index sequence holds.
pub open spec fn index_set(s: Seq<usize>) -> Set<int> {
    Set::new(|x: int| exists|k: int| 0 <= k < s.len() && s[k] as int == x)
}

/// A sequence in strictly ascending order, hence free of repetitions.
pub open spec fn strictly_increasing(s: Seq<usize>) -> bool {
    forall|i: int, j: int| 0 <= i < j < s.len() ==> s[i] < s[j]
}

/// The mathematical value of a binary hypervector: its dimension and the set
/// of its active positions.
pub struct BinaryModel {
    pub dim: nat,
    pub active: Set<int>,
}

/// A positive dimension and a finite set of active positions inside it.
pub open spec fn model_wf(m: BinaryModel) -> bool {
    &&& m.dim > 0
    &&& m.active.finite()
    &&& forall|p: int| #[trigger] m.active.contains(p) ==> 0 <= p < m.dim
}

/// Positions active in exactly one of two sets.
pub open spec fn symmetric_difference(a: Set<int>, b: Set<int>) -> Set<int> {
    a.difference(b).union(b.difference(a))
}

/// Binding (elementwise XOR) of two vectors of one dimension.
pub open spec fn bind_model(a: BinaryModel, b: BinaryModel) -> BinaryModel {
    BinaryModel { dim: a.dim, active: symmetric_difference(a.active, b.active) }
}

/// Number of positions where two vectors differ.
pub open spec fn hamming_model(a: BinaryModel, b: BinaryModel) -> nat {
    symmetric_difference(a.active, b.active).len()
}

/// Cyclic shift: active position `p` moves to `(p + s) mod dim`.
pub open spec fn shift_model(v: BinaryModel, s: int) -> BinaryModel {
    BinaryModel { dim: v.dim, active: v.active.map(|p: int| shifted_position(p, s, v.dim)) }
}

/// Number of vectors among `vs` in which position `p` is active.
pub open spec fn votes(vs: Seq<BinaryModel>, p: int) -> nat
    decreases vs.len(),
{
    if vs.len() == 0 {
        0
    } else {
        votes(vs.drop_last(), p) + if vs.last().active.contains(p) {
            1nat
        } else {
            0nat
        }
    }
}

/// Whether position `p` is active in the majority vote of `vs`: the net vote
/// (active minus inactive) is positive, or it is zero and the tie-break
/// choice for `p` is true. A position beyond the choices given stays inactive.
pub open spec fn majority_active(vs: Seq<BinaryModel>, ties: Seq<bool>, p: int) -> bool {
    2 * votes(vs, p) > vs.len() || (2 * votes(vs, p) == vs.len() && 0 <= p < ties.len()
        && ties[p])
}

/// Bundling by majority vote, with `ties` deciding the tied positions.
pub open spec fn consensus_model(vs: Seq<BinaryModel>, ties: Seq<bool>) -> BinaryModel {
    BinaryModel {
        dim: vs[0].dim,
        active: Set::new(|p: int| 0 <= p < vs[0].dim && majority_active(vs, ties, p)),
    }
}

/// A sparse binary hypervector of fixed dimension. Its active positions are
/// kept in ascending order, without repetition, each below the dimension.
pub struct BinaryHypervector {
    dimension: usize,
    indices: Vec<usize>,
}

impl View for BinaryHypervector {
    type V = BinaryModel;

    closed spec fn view(&self) -> BinaryModel {
        BinaryModel { dim: self.dimension as nat, active: index_set(self.indices@) }
    }
}

/// The views of a sequence of vectors.
pub open spec fn views(vs: Seq<BinaryHypervector>) -> Seq<BinaryModel> {
    vs.map_values(|v: BinaryHypervector| v@)
}

/// The set of an ascending sequence has as many elements as the sequence.
proof fn lemma_index_set_len(s: Seq<usize>)
    requires
        strictly_increasing(s),
    ensures
        index_set(s).finite(),
        index_set(s).len() == s.len(),
{
    let m = s.map_values(|x: usize| x as int);
    assert(m.no_duplicates()) by {
        assert forall|i: int, j: int| 0 <= i < m.len() && 0 <= j < m.len() && i != j implies m[i]
            != m[j] by {
            if i < j {
                assert(s[i] < s[j]);
            } else {
                assert(s[j] < s[i]);
            }
        }
    }
    m.unique_seq_to_set();
    assert(index_set(s) =~= m.to_set()) by {
        assert forall|x: int| index_set(s).contains(x) implies m.to_set().contains(x) by {
            let k = choose|k: int| 0 <= k < s.len() && s[k] as int == x;
            assert(m[k] == x);
        }
        assert forall|x: int| m.to_set().contains(x) implies index_set(s).contains(x) by {
            let k = choose|k: int| 0 <= k < m.len() && m[k] == x;
            assert(s[k] as int == x);
        }
    }
}

proof fn lemma_index_set_push(s: Seq<usize>, v: usize)
    ensures
        index_set(s.push(v)) == index_set(s).insert(v as int),
{
    let t = s.push(v);
    assert forall|x: int| index_set(t).contains(x) implies index_set(s).insert(v as int).contains(
        x,
    ) by {
        let k = choose|k: int| 0 <= k < t.len() && t[k] as int == x;
        if k < s.len() {
            assert(s[k] as int == x);
        }
    }
    assert forall|x: int| index_set(s).insert(v as int).contains(x) implies index_set(t).contains(
        x,
    ) by {
        if x == v as int {
            assert(t[s.len() as int] as int == x);
        } else {
            let k = choose|k: int| 0 <= k < s.len() && s[k] as int == x;
            assert(t[k] as int == x);
        }
    }
    assert(index_set(t) =~= index_set(s).insert(v as int));
}

proof fn lemma_index_set_empty(s: Seq<usize>)
    requires
        s.len() == 0,
    ensures
        index_set(s) == Set::<int>::empty(),
{
    assert(index_set(s) =~= Set::<int>::empty());
}

impl BinaryHypervector {
    #[verifier::type_invariant]
    spec fn wf(self) -> bool {
        &&& self.dimension > 0
        &&& strictly_increasing(self.indices@)
        &&& all_below(self.indices@, self.dimension as nat)
    }

    proof fn lemma_view_wf(&self)
        requires
            self.wf(),
        ensures
            model_wf(self@),
    {
        lemma_index_set_len(self.indices@);
        assert forall|p: int| #[trigger] self@.active.contains(p) implies 0 <= p < self@.dim by {
            let k = choose|k: int| 0 <= k < self.indices@.len() && self.indices@[k] as int == p;
        }
    }

    /// The dimension.
    pub fn dim(&self) -> (r: usize)
        ensures
            r as nat == self@.dim,
    {
        self.dimension
    }
}

/// Removes repetitions from an ascending sequence.
fn dedup_sorted(s: &Vec<usize>) -> (r: Vec<usize>)
    requires
        non_decreasing(s@),
    ensures
        strictly_increasing(r@),
        index_set(r@) == index_set(s@),
{
    let mut r: Vec<usize> = Vec::new();
    let mut i: usize = 0;
    proof {
        lemma_index_set_empty(r@);
        lemma_index_set_empty(s@.subrange(0, 0));
    }
    while i < s.len()
        invariant
            i <= s.len(),
            non_decreasing(s@),
            strictly_increasing(r@),
            index_set(r@) == index_set(s@.subrange(0, i as int)),
            i > 0 ==> r@.len() > 0 && r@.last() == s@[i - 1],
            i == 0 ==> r@.len() == 0,
        decreases s.len() - i,
    {
        let x = s[i];
        proof {
            assert(s@.subrange(0, i + 1) =~= s@.subrange(0, i as int).push(x));
            lemma_index_set_push(s@.subrange(0, i as int), x);
        }
        if r.len() == 0 || r[r.len() - 1] != x {
            proof {
                lemma_index_set_push(r@, x);
            }
            r.push(x);
        } else {
            assert(index_set(r@).contains(x as int)) by {
                assert(r@[r@.len() - 1] as int == x as int);
            }
            assert(index_set(r@).insert(x as int) =~= index_set(r@));
        }
        i += 1;
    }
    assert(s@.subrange(0, s@.len() as int) =~= s@);
    r
}

/// Builds a vector from indices already known to lie inside the dimension.
fn from_valid_indices(dimension: usize, indices: Vec<usize>) -> (r: BinaryHypervector)
    requires
        dimension > 0,
        all_below(indices@, dimension as nat),
    ensures
        model_wf(r@),
        r@ == (BinaryModel { dim: dimension as nat, active: index_set(indices@) }),
{
    let ghost original = indices@;
    let sorted = sort_indices(indices);
    proof {
        assert forall|x: int| #[trigger] index_set(sorted@).contains(x) == index_set(
            original,
        ).contains(x) by {
            assert(sorted@.to_multiset() == original.to_multiset());
            if index_set(sorted@).contains(x) {
                let k = choose|k: int| 0 <= k < sorted@.len() && sorted@[k] as int == x;
                let v = sorted@[k];
                sorted@.to_multiset_ensures();
                original.to_multiset_ensures();
                assert(sorted@.contains(v));
                assert(sorted@.to_multiset().count(v) > 0);
                assert(original.to_multiset().count(v) > 0);
                assert(original.contains(v));
                let j = choose|j: int| 0 <= j < original.len() && original[j] == v;
                assert(original[j] as int == x);
            }
            if index_set(original).contains(x) {
                let k = choose|k: int| 0 <= k < original.len() && original[k] as int == x;
                let v = original[k];
                sorted@.to_multiset_ensures();
                original.to_multiset_ensures();
                assert(original.contains(v));
                assert(original.to_multiset().count(v) > 0);
                assert(sorted@.to_multiset().count(v) > 0);
                assert(sorted@.contains(v));
                let j = choose|j: int| 0 <= j < sorted@.len() && sorted@[j] == v;
                assert(sorted@[j] as int == x);
            }
        }
        assert(index_set(sorted@) =~= index_set(original));
    }
    let unique = dedup_sorted(&sorted);
    proof {
        assert forall|k: int| 0 <= k < unique@.len() implies unique@[k] < dimension by {
            assert(index_set(unique@).contains(unique@[k] as int));
            let j = choose|j: int| 0 <= j < original.len() && original[j] as int == unique@[k] as int;
        }
    }
    let r = BinaryHypervector { dimension, indices: unique };
    proof {
        r.lemma_view_wf();
    }
    r
}

/// Builds the vector of the given dimension whose active positions are the
/// given indices. Repeated indices count once and their order is irrelevant;
/// an empty list gives the all-zero vector.
pub fn from_indices(dimension: usize, indices: &[usize]) -> (r: Result<
    BinaryHypervector,
    OVSAError,
>)
    ensures
        dimension == 0 ==> r == Err::<BinaryHypervector, OVSAError>(OVSAError::ZeroDimension),
        dimension > 0 && !all_below(indices@, dimension as nat) ==> r == Err::<
            BinaryHypervector,
            OVSAError,
        >(OVSAError::VectorSizeMismatch),
        dimension > 0 && all_below(indices@, dimension as nat) ==> (match r {
            Ok(v) => model_wf(v@) && v@ == (BinaryModel { dim: dimension as nat, active: index_set(indices@) }),
            Err(_) => false,
        }),
{
    if dimension == 0 {
        return Err(OVSAError::ZeroDimension);
    }
    let mut copy: Vec<usize> = Vec::new();
    let mut i: usize = 0;
    while i < indices.len()
        invariant
            i <= indices@.len(),
            dimension > 0,
            copy@ == indices@.subrange(0, i as int),
            all_below(copy@, dimension as nat),
        decreases indices@.len() - i,
    {
        if indices[i] >= dimension {
            return Err(OVSAError::VectorSizeMismatch);
        }
        copy.push(indices[i]);
        i += 1;
        assert(copy@ =~= indices@.subrange(0, i as int));
    }
    assert(copy@ =~= indices@);
    Ok(from_valid_indices(dimension, copy))
}

/// All vectors of a non-empty list share the dimension of the first.
pub open spec fn same_dims(vs: Seq<BinaryModel>) -> bool {
    forall|i: int| 0 <= i < vs.len() ==> #[trigger] vs[i].dim == vs[0].dim
}

/// The positions below `n` that the majority vote makes active.
pub open spec fn majority_below(vs: Seq<BinaryModel>, ties: Seq<bool>, n: int) -> Set<int> {
    Set::new(|p: int| 0 <= p < n && majority_active(vs, ties, p))
}

proof fn lemma_votes_bound(vs: Seq<BinaryModel>, p: int)
    ensures
        votes(vs, p) <= vs.len(),
    decreases vs.len(),
{
    if vs.len() > 0 {
        lemma_votes_bound(vs.drop_last(), p);
    }
}

/// Checks that a list of vectors is non-empty and of one dimension, and
/// returns that dimension.
fn common_dim(vectors: &[BinaryHypervector]) -> (r: Result<usize, OVSAError>)
    ensures
        vectors@.len() == 0 ==> r == Err::<usize, OVSAError>(OVSAError::EmptyVectorList),
        vectors@.len() > 0 && !same_dims(views(vectors@)) ==> r == Err::<usize, OVSAError>(
            OVSAError::VectorSizeMismatch,
        ),
        vectors@.len() > 0 && same_dims(views(vectors@)) ==> r == Ok::<usize, OVSAError>(
            vectors@[0]@.dim as usize,
        ),
{
    if vectors.len() == 0 {
        return Err(OVSAError::EmptyVectorList);
    }
    let d = vectors[0].dimension;
    let mut i: usize = 1;
    while i < vectors.len()
        invariant
            1 <= i <= vectors@.len(),
            d as nat == vectors@[0]@.dim,
            forall|m: int| 0 <= m < i ==> #[trigger] views(vectors@)[m].dim == d,
        decreases vectors@.len() - i,
    {
        if vectors[i].dimension != d {
            assert(views(vectors@)[i as int].dim != views(vectors@)[0].dim);
            return Err(OVSAError::VectorSizeMismatch);
        }
        i += 1;
    }
    Ok(d)
}

/// Bundles vectors by majority vote, with the tie-break choices given. A
/// position is active in the result when more inputs have it active than
/// inactive. Where the count is even and the vote is tied, the position is
/// active when `ties` holds `true` at that position; positions at or beyond
/// `ties.len()` stay inactive, so an empty `ties` is the rule "a tie is
/// inactive".
pub fn consensus_with_ties(vectors: &[BinaryHypervector], ties: &Vec<bool>) -> (r: Result<
    BinaryHypervector,
    OVSAError,
>)
    ensures
        vectors@.len() == 0 ==> r == Err::<BinaryHypervector, OVSAError>(
            OVSAError::EmptyVectorList,
        ),
        vectors@.len() > 0 && !same_dims(views(vectors@)) ==> r == Err::<
            BinaryHypervector,
            OVSAError,
        >(OVSAError::VectorSizeMismatch),
        vectors@.len() > 0 && same_dims(views(vectors@)) ==> (match r {
            Ok(v) => model_wf(v@) && v@ == consensus_model(views(vectors@), ties@),
            Err(_) => false,
        }),
{
    let d = match common_dim(vectors) {
        Ok(d) => d,
        Err(e) => {
            return Err(e);
        },
    };
    let ghost vs = views(vectors@);
    let k = vectors.len();
    let first = &vectors[0];
    proof {
        use_type_invariant(first);
    }
    let mut counts: Vec<usize> = Vec::new();
    while counts.len() < d
        invariant
            counts@.len() <= d,
            forall|p: int| 0 <= p < counts@.len() ==> counts@[p] == 0,
        decreases d - counts@.len(),
    {
        counts.push(0);
    }
    let mut j: usize = 0;
    while j < k
        invariant
            k == vectors@.len(),
            vs == views(vectors@),
            k > 0,
            same_dims(vs),
            d as nat == vs[0].dim,
            j <= k,
            counts@.len() == d,
            forall|p: int| 0 <= p < d ==> #[trigger] counts@[p] == votes(vs.subrange(0, j as int), p),
        decreases k - j,
    {
        let v = &vectors[j];
        proof {
            use_type_invariant(v);
            assert(vs[j as int] == v@);
            assert(vs[j as int].dim == vs[0].dim);
            assert(v.dimension == d);
        }
        let mut t: usize = 0;
        proof {
            lemma_index_set_empty(v.indices@.subrange(0, 0));
        }
        while t < v.indices.len()
            invariant
                k == vectors@.len(),
                vs == views(vectors@),
                vs.len() == k,
                j < k,
                v.wf(),
                v.dimension == d,
                t <= v.indices@.len(),
                counts@.len() == d,
                forall|p: int|
                    0 <= p < d ==> #[trigger] counts@[p] == votes(vs.subrange(0, j as int), p) + if index_set(
                        v.indices@.subrange(0, t as int),
                    ).contains(p) {
                        1nat
                    } else {
                        0nat
                    },
            decreases v.indices@.len() - t,
        {
            let idx = v.indices[t];
            proof {
                assert(!index_set(v.indices@.subrange(0, t as int)).contains(idx as int)) by {
                    if index_set(v.indices@.subrange(0, t as int)).contains(idx as int) {
                        let m = choose|m: int|
                            0 <= m < t && v.indices@.subrange(0, t as int)[m] as int == idx as int;
                        assert(v.indices@[m] < v.indices@[t as int]);
                    }
                }
                lemma_votes_bound(vs.subrange(0, j as int), idx as int);
                assert(v.indices@.subrange(0, t + 1) =~= v.indices@.subrange(0, t as int).push(idx));
                lemma_index_set_push(v.indices@.subrange(0, t as int), idx);
            }
            counts.set(idx, counts[idx] + 1);
            t += 1;
        }
        proof {
            assert(v.indices@.subrange(0, t as int) =~= v.indices@);
            assert(vs.subrange(0, j + 1).drop_last() =~= vs.subrange(0, j as int));
            assert(vs.subrange(0, j + 1).last() == v@);
        }
        j += 1;
    }
    assert(vs.subrange(0, k as int) =~= vs);
    let mut out: Vec<usize> = Vec::new();
    let mut p: usize = 0;
    proof {
        lemma_index_set_empty(out@);
        assert(majority_below(vs, ties@, 0) =~= Set::<int>::empty());
    }
    while p < d
        invariant
            k == vs.len(),
            d > 0,
            p <= d,
            counts@.len() == d,
            forall|q: int| 0 <= q < d ==> #[trigger] counts@[q] == votes(vs, q),
            strictly_increasing(out@),
            forall|m: int| 0 <= m < out@.len() ==> out@[m] < p,
            index_set(out@) == majority_below(vs, ties@, p as int),
        decreases d - p,
    {
        let c = counts[p];
        proof {
            lemma_votes_bound(vs, p as int);
        }
        let active = if c > k - c {
            true
        } else if c == k - c {
            p < ties.len() && ties[p]
        } else {
            false
        };
        assert(active == majority_active(vs, ties@, p as int));
        if active {
            proof {
                lemma_index_set_push(out@, p);
                assert(majority_below(vs, ties@, p + 1) =~= majority_below(vs, ties@, p as int).insert(
                    p as int,
                ));
            }
            out.push(p);
        } else {
            assert(majority_below(vs, ties@, p + 1) =~= majority_below(vs, ties@, p as int));
        }
        p += 1;
    }
    let r = BinaryHypervector { dimension: d, indices: out };
    proof {
        assert(r@.active =~= consensus_model(vs, ties@).active);
        r.lemma_view_wf();
    }
    Ok(r)
}

/// Bundles vectors by majority vote, settling each tied position by a fair
/// coin from the thread-local generator. The errors are those of
/// `consensus_with_ties`; on success the result is the majority vote under
/// some choice of tie-breaks.
pub fn consensus_sum(vectors: &[BinaryHypervector]) -> (r: Result<
    BinaryHypervector,
    OVSAError,
>)
    ensures
        vectors@.len() == 0 ==> r == Err::<BinaryHypervector, OVSAError>(
            OVSAError::EmptyVectorList,
        ),
        vectors@.len() > 0 && !same_dims(views(vectors@)) ==> r == Err::<
            BinaryHypervector,
            OVSAError,
        >(OVSAError::VectorSizeMismatch),
        vectors@.len() > 0 && same_dims(views(vectors@)) ==> (match r {
            Ok(v) => model_wf(v@) && exists|ties: Seq<bool>|
                v@ == consensus_model(views(vectors@), ties),
            Err(_) => false,
        }),
{
    let d: usize = if vectors.len() > 0 {
        vectors[0].dimension
    } else {
        0
    };
    let mut ties: Vec<bool> = Vec::new();
    while ties.len() < d
        invariant
            ties@.len() <= d,
        decreases d - ties@.len(),
    {
        ties.push(coin_flip());
    }
    let r = consensus_with_ties(vectors, &ties);
    proof {
        if r is Ok {
            assert(r->Ok_0@ == consensus_model(views(vectors@), ties@));
        }
    }
    r
}

/// The ascending merge of two ascending sequences, keeping the values that
/// occur in exactly one of them.
fn merge_symmetric_difference(a: &Vec<usize>, b: &Vec<usize>) -> (r: Vec<usize>)
    requires
        strictly_increasing(a@),
        strictly_increasing(b@),
    ensures
        strictly_increasing(r@),
        index_set(r@) == symmetric_difference(index_set(a@), index_set(b@)),
{
    let mut r: Vec<usize> = Vec::new();
    let mut i: usize = 0;
    let mut j: usize = 0;
    proof {
        lemma_index_set_empty(r@);
        lemma_index_set_empty(a@.subrange(0, 0));
        lemma_index_set_empty(b@.subrange(0, 0));
        assert(symmetric_difference(Set::<int>::empty(), Set::<int>::empty()) =~= Set::<
            int,
        >::empty());
    }
    while i < a.len() || j < b.len()
        invariant
            strictly_increasing(a@),
            strictly_increasing(b@),
            i <= a@.len(),
            j <= b@.len(),
            strictly_increasing(r@),
            forall|m: int| 0 <= m < r@.len() && i < a@.len() ==> r@[m] < a@[i as int],
            forall|m: int| 0 <= m < r@.len() && j < b@.len() ==> r@[m] < b@[j as int],
            i > 0 && j < b@.len() ==> a@[i - 1] < b@[j as int],
            j > 0 && i < a@.len() ==> b@[j - 1] < a@[i as int],
            index_set(r@) == symmetric_difference(
                index_set(a@.subrange(0, i as int)),
                index_set(b@.subrange(0, j as int)),
            ),
        decreases a@.len() + b@.len() - i - j,
    {
        let ghost sa = index_set(a@.subrange(0, i as int));
        let ghost sb = index_set(b@.subrange(0, j as int));
        if j == b.len() || (i < a.len() && a[i] < b[j]) {
            let x = a[i];
            proof {
                assert(!sb.contains(x as int)) by {
                    if sb.contains(x as int) {
                        let m = choose|m: int|
                            0 <= m < j && b@.subrange(0, j as int)[m] as int == x as int;
                        assert(b@[m] <= b@[j - 1]);
                    }
                }
                assert(!sa.contains(x as int)) by {
                    if sa.contains(x as int) {
                        let m = choose|m: int|
                            0 <= m < i && a@.subrange(0, i as int)[m] as int == x as int;
                        assert(a@[m] < a@[i as int]);
                    }
                }
                assert(a@.subrange(0, i + 1) =~= a@.subrange(0, i as int).push(x));
                lemma_index_set_push(a@.subrange(0, i as int), x);
                lemma_index_set_push(r@, x);
                assert(symmetric_difference(sa.insert(x as int), sb) =~= symmetric_difference(
                    sa,
                    sb,
                ).insert(x as int));
            }
            r.push(x);
            i += 1;
        } else if i == a.len() || b[j] < a[i] {
            let x = b[j];
            proof {
                assert(!sa.contains(x as int)) by {
                    if sa.contains(x as int) {
                        let m = choose|m: int|
                            0 <= m < i && a@.subrange(0, i as int)[m] as int == x as int;
                        assert(a@[m] <= a@[i - 1]);
                    }
                }
                assert(!sb.contains(x as int)) by {
                    if sb.contains(x as int) {
                        let m = choose|m: int|
                            0 <= m < j && b@.subrange(0, j as int)[m] as int == x as int;
                        assert(b@[m] < b@[j as int]);
                    }
                }
                assert(b@.subrange(0, j + 1) =~= b@.subrange(0, j as int).push(x));
                lemma_index_set_push(b@.subrange(0, j as int), x);
                lemma_index_set_push(r@, x);
                assert(symmetric_difference(sa, sb.insert(x as int)) =~= symmetric_difference(
                    sa,
                    sb,
                ).insert(x as int));
            }
            r.push(x);
            j += 1;
        } else {
            let x = a[i];
            proof {
                assert(!sa.contains(x as int)) by {
                    if sa.contains(x as int) {
                        let m = choose|m: int|
                            0 <= m < i && a@.subrange(0, i as int)[m] as int == x as int;
                        assert(a@[m] < a@[i as int]);
                    }
                }
                assert(!sb.contains(x as int)) by {
                    if sb.contains(x as int) {
                        let m = choose|m: int|
                            0 <= m < j && b@.subrange(0, j as int)[m] as int == x as int;
                        assert(b@[m] < b@[j as int]);
                    }
                }
                assert(a@.subrange(0, i + 1) =~= a@.subrange(0, i as int).push(x));
                lemma_index_set_push(a@.subrange(0, i as int), x);
                assert(b@.subrange(0, j + 1) =~= b@.subrange(0, j as int).push(x));
                lemma_index_set_push(b@.subrange(0, j as int), x);
                assert(symmetric_difference(sa.insert(x as int), sb.insert(x as int))
                    =~= symmetric_difference(sa, sb));
            }
            i += 1;
            j += 1;
        }
    }
    assert(a@.subrange(0, a@.len() as int) =~= a@);
    assert(b@.subrange(0, b@.len() as int) =~= b@);
    r
}

/// Binding: the elementwise XOR of two vectors of one dimension. A position
/// is active in the result when it is active in exactly one operand.
pub fn xor(vec1: &BinaryHypervector, vec2: &BinaryHypervector) -> (r: Result<
    BinaryHypervector,
    OVSAError,
>)
    ensures
        vec1@.dim != vec2@.dim ==> r == Err::<BinaryHypervector, OVSAError>(
            OVSAError::VectorSizeMismatch,
        ),
        vec1@.dim == vec2@.dim ==> (match r {
            Ok(v) => model_wf(v@) && v@ == bind_model(vec1@, vec2@),
            Err(_) => false,
        }),
{
    proof {
        use_type_invariant(vec1);
        use_type_invariant(vec2);
    }
    if vec1.dimension != vec2.dimension {
        return Err(OVSAError::VectorSizeMismatch);
    }
    let merged = merge_symmetric_difference(&vec1.indices, &vec2.indices);
    proof {
        assert forall|k: int| 0 <= k < merged@.len() implies merged@[k] < vec1.dimension by {
            assert(index_set(merged@).contains(merged@[k] as int));
            if index_set(vec1.indices@).contains(merged@[k] as int) {
                let m = choose|m: int|
                    0 <= m < vec1.indices@.len() && vec1.indices@[m] as int == merged@[k] as int;
            } else {
                let m = choose|m: int|
                    0 <= m < vec2.indices@.len() && vec2.indices@[m] as int == merged@[k] as int;
            }
        }
    }
    let r = BinaryHypervector { dimension: vec1.dimension, indices: merged };
    proof {
        r.lemma_view_wf();
    }
    Ok(r)
}

/// A position in `[0, d)` moved forward by `rs` in `[0, d)`, wrapping once.
spec fn wrap(p: int, rs: int, d: int) -> int {
    if p + rs >= d {
        p + rs - d
    } else {
        p + rs
    }
}

/// Images under `wrap` of the first `n` indices, restricted to those that do
/// (`wraps`) or do not wrap around.
spec fn shift_image(ind: Seq<usize>, n: int, rs: int, d: int, wraps: bool) -> Set<int> {
    Set::new(
        |y: int|
            exists|m: int| 0 <= m < n && (ind[m] + rs >= d) == wraps && y == wrap(ind[m] as int, rs, d),
    )
}

proof fn lemma_shift_image_step(ind: Seq<usize>, n: int, rs: int, d: int, wraps: bool)
    requires
        0 <= n < ind.len(),
    ensures
        shift_image(ind, n + 1, rs, d, wraps) == if (ind[n] + rs >= d) == wraps {
            shift_image(ind, n, rs, d, wraps).insert(wrap(ind[n] as int, rs, d))
        } else {
            shift_image(ind, n, rs, d, wraps)
        },
{
    let next = shift_image(ind, n + 1, rs, d, wraps);
    let prev = shift_image(ind, n, rs, d, wraps);
    assert forall|y: int| next.contains(y) implies prev.contains(y) || ((ind[n] + rs >= d)
        == wraps && y == wrap(ind[n] as int, rs, d)) by {
        let m = choose|m: int|
            0 <= m < n + 1 && (ind[m] + rs >= d) == wraps && y == wrap(ind[m] as int, rs, d);
        if m < n {
            assert(prev.contains(y));
        }
    }
    assert forall|y: int| prev.contains(y) implies next.contains(y) by {
        let m = choose|m: int|
            0 <= m < n && (ind[m] + rs >= d) == wraps && y == wrap(ind[m] as int, rs, d);
    }
    if (ind[n] + rs >= d) == wraps {
        assert(next.contains(wrap(ind[n] as int, rs, d)));
        assert(next =~= prev.insert(wrap(ind[n] as int, rs, d)));
    } else {
        assert(next =~= prev);
    }
}

/// Cyclic shift (permutation): every active position `i` moves to
/// `(i + shift_by) mod dimension`; a negative shift moves the other way.
pub fn cyclic_shift(vec: &BinaryHypervector, shift_by: isize) -> (r: BinaryHypervector)
    ensures
        model_wf(r@),
        r@ == shift_model(vec@, shift_by as int),
{
    proof {
        use_type_invariant(vec);
    }
    let d = vec.dimension;
    let ind = &vec.indices;
    let rs = reduce_shift(shift_by, d);
    let cut = d - rs;
    let mut out: Vec<usize> = Vec::new();
    let mut k: usize = 0;
    proof {
        lemma_index_set_empty(out@);
        assert(shift_image(ind@, 0, rs as int, d as int, true) =~= Set::<int>::empty());
    }
    while k < ind.len()
        invariant
            vec.wf(),
            ind == &vec.indices,
            d == vec.dimension,
            rs < d,
            cut == d - rs,
            k <= ind@.len(),
            strictly_increasing(out@),
            forall|m: int| 0 <= m < out@.len() ==> out@[m] < rs,
            forall|m: int, k2: int|
                #![trigger out@[m], ind@[k2]]
                0 <= m < out@.len() && k <= k2 < ind@.len() ==> out@[m] + cut < ind@[k2],
            index_set(out@) == shift_image(ind@, k as int, rs as int, d as int, true),
        decreases ind@.len() - k,
    {
        let x = ind[k];
        proof {
            lemma_shift_image_step(ind@, k as int, rs as int, d as int, true);
        }
        if x >= cut {
            proof {
                lemma_index_set_push(out@, (x - cut) as usize);
            }
            out.push(x - cut);
        }
        k += 1;
    }
    let ghost wrapped = index_set(out@);
    k = 0;
    proof {
        assert(shift_image(ind@, 0, rs as int, d as int, false) =~= Set::<int>::empty());
        assert(wrapped.union(Set::<int>::empty()) =~= wrapped);
    }
    while k < ind.len()
        invariant
            vec.wf(),
            ind == &vec.indices,
            d == vec.dimension,
            rs < d,
            cut == d - rs,
            k <= ind@.len(),
            strictly_increasing(out@),
            forall|m: int| 0 <= m < out@.len() ==> out@[m] < d,
            forall|m: int, k2: int|
                #![trigger out@[m], ind@[k2]]
                0 <= m < out@.len() && k <= k2 < ind@.len() ==> out@[m] < ind@[k2] + rs,
            wrapped == shift_image(ind@, ind@.len() as int, rs as int, d as int, true),
            index_set(out@) == wrapped.union(
                shift_image(ind@, k as int, rs as int, d as int, false),
            ),
        decreases ind@.len() - k,
    {
        let x = ind[k];
        proof {
            lemma_shift_image_step(ind@, k as int, rs as int, d as int, false);
        }
        if x < cut {
            proof {
                lemma_index_set_push(out@, (x + rs) as usize);
                assert(wrapped.union(
                    shift_image(ind@, k as int, rs as int, d as int, false).insert(
                        x + rs,
                    ),
                ) =~= wrapped.union(
                    shift_image(ind@, k as int, rs as int, d as int, false),
                ).insert(x + rs));
            }
            out.push(x + rs);
        }
        k += 1;
    }
    let r = BinaryHypervector { dimension: d, indices: out };
    proof {
        let n = ind@.len() as int;
        let target = shift_model(vec@, shift_by as int).active;
        let t = shift_image(ind@, n, rs as int, d as int, true);
        let f = shift_image(ind@, n, rs as int, d as int, false);
        assert forall|y: int| t.union(f).contains(y) implies target.contains(y) by {
            let m = choose|m: int| 0 <= m < n && y == wrap(ind@[m] as int, rs as int, d as int);
            lemma_shift_by_reduced(ind@[m] as int, shift_by as int, d as nat, rs as int);
            assert(vec@.active.contains(ind@[m] as int));
        }
        assert forall|y: int| target.contains(y) implies t.union(f).contains(y) by {
            let p = choose|p: int|
                vec@.active.contains(p) && y == shifted_position(p, shift_by as int, d as nat);
            let m = choose|m: int| 0 <= m < n && ind@[m] as int == p;
            lemma_shift_by_reduced(p, shift_by as int, d as nat, rs as int);
            if ind@[m] + rs >= d {
                assert(t.contains(y));
            } else {
                assert(f.contains(y));
            }
        }
        assert(r@.active =~= target);
        r.lemma_view_wf();
    }
    r
}

/// Number of positions at which two vectors of one dimension differ: the
/// number of active positions of their binding.
pub fn hamming_distance(vec1: &BinaryHypervector, vec2: &BinaryHypervector) -> (r: Result<
    usize,
    OVSAError,
>)
    ensures
        vec1@.dim != vec2@.dim ==> r == Err::<usize, OVSAError>(OVSAError::VectorSizeMismatch),
        vec1@.dim == vec2@.dim ==> r == Ok::<usize, OVSAError>(
            hamming_model(vec1@, vec2@) as usize,
        ),
{
    match xor(vec1, vec2) {
        Ok(bound) => {
            let n = bound.nnz();
            Ok(n)
        },
        Err(e) => Err(e),
    }
}

/// The similarity of two binary vectors, `1 - distance / dimension`, held
/// exactly as its two integers.
#[derive(Debug, Clone, Copy, PartialEq, Eq)]
pub struct Similarity {
    /// The Hamming distance of the two vectors.
    pub distance: usize,
    /// Their common dimension, which is positive.
    pub dimension: usize,
}

/// Similarity of two vectors of one dimension: one minus the fraction of
/// positions at which they differ. It is 1 exactly when the vectors are equal.
pub fn similarity(vec1: &BinaryHypervector, vec2: &BinaryHypervector) -> (r: Result<
    Similarity,
    OVSAError,
>)
    ensures
        vec1@.dim != vec2@.dim ==> r == Err::<Similarity, OVSAError>(OVSAError::VectorSizeMismatch),
        vec1@.dim == vec2@.dim ==> r == Ok::<Similarity, OVSAError>(
            Similarity {
                distance: hamming_model(vec1@, vec2@) as usize,
                dimension: vec1@.dim as usize,
            },
        ),
{
    match hamming_distance(vec1, vec2) {
        Ok(distance) => Ok(Similarity { distance, dimension: vec1.dimension }),
        Err(e) => Err(e),
    }
}

/// Draws a vector of the given dimension with exactly `n_active` active
/// positions, chosen uniformly without replacement by the thread-local
/// generator. A zero dimension, zero active positions, and more active
/// positions than the dimension are refused, in that order.
pub fn sparse_random(dimension: usize, n_active: usize) -> (r: Result<
    BinaryHypervector,
    OVSAError,
>)
    ensures
        dimension == 0 ==> r == Err::<BinaryHypervector, OVSAError>(OVSAError::ZeroDimension),
        dimension > 0 && n_active == 0 ==> r == Err::<BinaryHypervector, OVSAError>(
            OVSAError::ZeroActiveElements,
        ),
        dimension > 0 && n_active > dimension ==> r == Err::<BinaryHypervector, OVSAError>(
            OVSAError::TooManyActiveElements,
        ),
        0 < n_active <= dimension ==> (match r {
            Ok(v) => model_wf(v@) && v@.dim == dimension && v@.active.len() == n_active,
            Err(_) => false,
        }),
{
    if dimension == 0 {
        return Err(OVSAError::ZeroDimension);
    }
    if n_active == 0 {
        return Err(OVSAError::ZeroActiveElements);
    }
    if n_active > dimension {
        return Err(OVSAError::TooManyActiveElements);
    }
    let drawn = sample_indices(dimension, n_active);
    let ghost drawn_seq = drawn@;
    let v = from_valid_indices(dimension, drawn);
    proof {
        let m = drawn_seq.map_values(|x: usize| x as int);
        assert(m.no_duplicates()) by {
            assert forall|i: int, j: int|
                0 <= i < m.len() && 0 <= j < m.len() && i != j implies m[i] != m[j] by {
                assert(drawn_seq[i] != drawn_seq[j]);
            }
        }
        m.unique_seq_to_set();
        assert forall|x: int| index_set(drawn_seq).contains(x) implies m.to_set().contains(x) by {
            let k = choose|k: int| 0 <= k < drawn_seq.len() && drawn_seq[k] as int == x;
            assert(m[k] == x);
        }
        assert forall|x: int| m.to_set().contains(x) implies index_set(drawn_seq).contains(x) by {
            let k = choose|k: int| 0 <= k < m.len() && m[k] == x;
            assert(drawn_seq[k] as int == x);
        }
        assert(index_set(drawn_seq) =~= m.to_set());
    }
    Ok(v)
}

impl BinaryHypervector {
    /// Number of active positions.
    pub fn nnz(&self) -> (r: usize)
        ensures
            r as nat == self@.active.len(),
    {
        proof {
            use_type_invariant(self);
            lemma_index_set_len(self.indices@);
        }
        self.indices.len()
    }

    /// The active positions in ascending order.
    pub fn indices(&self) -> (r: &[usize])
        ensures
            strictly_increasing(r@),
            index_set(r@) == self@.active,
    {
        proof {
            use_type_invariant(self);
        }
        self.indices.as_slice()
    }

    /// The value at a position: 1 where it is active, 0 elsewhere.
    pub fn get(&self, index: usize) -> (r: i8)
        ensures
            r == if self@.active.contains(index as int) {
                1i8
            } else {
                0i8
            },
    {
        let mut k: usize = 0;
        while k < self.indices.len()
            invariant
                k <= self.indices@.len(),
                forall|m: int| 0 <= m < k ==> self.indices@[m] != index,
            decreases self.indices@.len() - k,
        {
            if self.indices[k] == index {
                assert(self.indices@[k as int] as int == index as int);
                return 1;
            }
            k += 1;
        }
        assert(!self@.active.contains(index as int)) by {
            if self@.active.contains(index as int) {
                let m = choose|m: int|
                    0 <= m < self.indices@.len() && self.indices@[m] as int == index as int;
                assert(self.indices@[m] == index);
            }
        }
        0
    }
}

} // verus!
