use vstd::prelude::*;

use crate::distance::{lemma_manhattan_nonnegative_and_identity, manhattan, Distance, Manhattan};
use crate::error::KnnError;
use crate::observation::Observation;

verus! {

/// The distances from each training observation to the query `q`, in
/// training-set order.
pub open spec fn distances<D: Distance>(d: D, ts: Seq<Observation>, q: Seq<i32>) -> Seq<int> {
    Seq::new(ts.len(), |i: int| d.spec_distance(ts[i].pixels@, q))
}

/// The position of the first least element of a sequence, scanning from the
/// front (0 for an empty one).
pub open spec fn first_min_index(s: Seq<int>) -> int
    decreases s.len(),
{
    if s.len() <= 1 {
        0
    } else {
        let k = first_min_index(s.drop_last());
        if s.last() < s[k] {
            s.len() - 1
        } else {
            k
        }
    }
}

/// `i` holds a least element of `s`, and no earlier position does.
pub open spec fn is_first_min(s: Seq<int>, i: int) -> bool {
    &&& 0 <= i < s.len()
    &&& forall|j: int| 0 <= j < s.len() ==> s[i] <= #[trigger] s[j]
    &&& forall|j: int| 0 <= j < i ==> s[i] < #[trigger] s[j]
}

/// Some training observation's length differs from the query's.
pub open spec fn arity_mismatch(ts: Seq<Observation>, q: Seq<i32>) -> bool {
    exists|i: int| 0 <= i < ts.len() && (#[trigger] ts[i]).pixels@.len() != q.len()
}

/// What classifying `q` against training set `ts` under metric `d` gives: the
/// label of the first training observation at the least distance.
pub open spec fn classify_spec<D: Distance>(d: D, ts: Seq<Observation>, q: Seq<i32>) -> Result<
    Seq<char>,
    KnnError,
> {
    if ts.len() == 0 {
        Err(KnnError::EmptyTrainingSet)
    } else if arity_mismatch(ts, q) {
        Err(KnnError::InvalidInput)
    } else {
        Ok(ts[first_min_index(distances(d, ts, q))].label@)
    }
}

/// A nearest-neighbour classifier: a training set and a distance metric.
pub struct Classifier<D> {
    training_set: Vec<Observation>,
    metric: D,
}

impl<D: Distance> Classifier<D> {
    /// The observations the classifier was trained on.
    pub closed spec fn training(&self) -> Seq<Observation> {
        self.training_set@
    }

    /// The metric the classifier measures with.
    pub closed spec fn metric(&self) -> D {
        self.metric
    }

    /// What `classify` returns on `q`.
    pub open spec fn spec_classify(&self, q: Seq<i32>) -> Result<Seq<char>, KnnError> {
        classify_spec(self.metric(), self.training(), q)
    }

    /// Predicts the label of `pixels`: the label of the first training
    /// observation, in training-set order, at the least distance from it.
    pub fn classify(&self, pixels: &Vec<i32>) -> (r: Result<String, KnnError>)
        ensures
            r matches Ok(l) ==> self.spec_classify(pixels@) == Ok::<Seq<char>, KnnError>(l@),
            r matches Err(e) ==> self.spec_classify(pixels@) == Err::<Seq<char>, KnnError>(e),
    {
        let ts = &self.training_set;
        let n = ts.len();
        if n == 0 {
            return Err(KnnError::EmptyTrainingSet);
        }
        let mut i: usize = 0;
        while i < n
            invariant
                n == ts@.len(),
                *ts == self.training_set,
                i <= n,
                forall|j: int| 0 <= j < i ==> (#[trigger] ts@[j]).pixels@.len() == pixels@.len(),
            decreases n - i,
        {
            if ts[i].pixels.len() != pixels.len() {
                return Err(KnnError::InvalidInput);
            }
            i = i + 1;
        }
        let ghost ds = distances(self.metric, ts@, pixels@);
        let mut best: usize = 0;
        let mut best_dist: u128 = self.metric.distance(&ts[0].pixels, pixels);
        assert(ds.take(1).drop_last() =~= ds.take(0));
        i = 1;
        while i < n
            invariant
                n == ts@.len(),
                *ts == self.training_set,
                ds == distances(self.metric, ts@, pixels@),
                1 <= i <= n,
                forall|j: int| 0 <= j < n ==> (#[trigger] ts@[j]).pixels@.len() == pixels@.len(),
                best == first_min_index(ds.take(i as int)),
                best < i,
                best_dist as int == ds[best as int],
            decreases n - i,
        {
            let d = self.metric.distance(&ts[i].pixels, pixels);
            assert(ds.take(i + 1).drop_last() =~= ds.take(i as int));
            if d < best_dist {
                best = i;
                best_dist = d;
            }
            i = i + 1;
        }
        assert(ds.take(n as int) =~= ds);
        Ok(ts[best].label.clone())
    }
}

/// Builds a classifier that holds `training_set` and measures with `distance`.
pub fn train<D: Distance>(training_set: Vec<Observation>, distance: D) -> (c: Classifier<D>)
    ensures
        c.training() == training_set@,
        c.metric() == distance,
{
    Classifier { training_set, metric: distance }
}

/// The first least element's position is a least element, and no earlier
/// position holds one.
pub proof fn lemma_first_min_index(s: Seq<int>)
    requires
        s.len() > 0,
    ensures
        is_first_min(s, first_min_index(s)),
    decreases s.len(),
{
    if s.len() > 1 {
        let t = s.drop_last();
        lemma_first_min_index(t);
        let k = first_min_index(t);
        let n = s.len() - 1;
        assert forall|j: int| 0 <= j < t.len() implies s[j] == #[trigger] t[j] by {}
        assert(s[k] == t[k]);
        let m = first_min_index(s);
        if s[n] < s[k] {
            assert(m == n);
            assert forall|j: int| 0 <= j < s.len() implies s[m] <= #[trigger] s[j] by {
                if j < n {
                    assert(t[k] <= t[j]);
                }
            }
            assert forall|j: int| 0 <= j < m implies s[m] < #[trigger] s[j] by {
                assert(t[k] <= t[j]);
            }
        } else {
            assert(m == k);
            assert forall|j: int| 0 <= j < s.len() implies s[m] <= #[trigger] s[j] by {
                if j < n {
                    assert(t[k] <= t[j]);
                }
            }
            assert forall|j: int| 0 <= j < m implies s[m] < #[trigger] s[j] by {
                assert(t[k] < t[j]);
            }
        }
    }
}

/// At most one position of a sequence is its first least element.
pub proof fn lemma_first_min_unique(s: Seq<int>, i: int, k: int)
    requires
        is_first_min(s, i),
        is_first_min(s, k),
    ensures
        i == k,
{
    if i < k {
        assert(s[k] < s[i]);
    } else if k < i {
        assert(s[i] < s[k]);
    }
}

/// A classification that succeeds returns the label of the training
/// observation at the least distance from the query, the first one in
/// training-set order where several are equally near; it succeeds exactly when
/// the training set is not empty and every training observation has the
/// query's length.
pub proof fn lemma_classify_first_nearest<D: Distance>(c: Classifier<D>, q: Seq<i32>)
    ensures
        c.spec_classify(q) is Ok <==> (c.training().len() > 0 && !arity_mismatch(c.training(), q)),
        c.spec_classify(q) is Ok ==> exists|m: int|
            is_first_min(distances(c.metric(), c.training(), q), m) && c.spec_classify(q) == Ok::<
                Seq<char>,
                KnnError,
            >(#[trigger] c.training()[m].label@),
{
    let ds = distances(c.metric(), c.training(), q);
    if c.spec_classify(q) is Ok {
        lemma_first_min_index(ds);
        let m = first_min_index(ds);
        assert(is_first_min(ds, m) && c.spec_classify(q) == Ok::<Seq<char>, KnnError>(
            c.training()[m].label@,
        ));
    }
}

/// Classification is a function of the training set, the metric and the
/// query: the same three always give the same result.
pub proof fn lemma_classify_deterministic<D: Distance>(
    c1: Classifier<D>,
    c2: Classifier<D>,
    q1: Seq<i32>,
    q2: Seq<i32>,
)
    requires
        c1.training() == c2.training(),
        c1.metric() == c2.metric(),
        q1 == q2,
    ensures
        c1.spec_classify(q1) == c2.spec_classify(q2),
{
}

/// Under the Manhattan metric, classifying the features of a training
/// observation (all of one length) returns the label of a training observation
/// at distance zero from them, that is, one with the very same features.
pub proof fn lemma_classify_self_consistent(c: Classifier<Manhattan>, k: int)
    requires
        0 <= k < c.training().len(),
        forall|j: int|
            0 <= j < c.training().len() ==> (#[trigger] c.training()[j]).pixels@.len()
                == c.training()[k].pixels@.len(),
    ensures
        exists|m: int|
            0 <= m < c.training().len() && manhattan(
                #[trigger] c.training()[m].pixels@,
                c.training()[k].pixels@,
            ) == 0 && c.training()[m].pixels@ == c.training()[k].pixels@
                && c.spec_classify(c.training()[k].pixels@) == Ok::<Seq<char>, KnnError>(
                c.training()[m].label@,
            ),
{
    let ts = c.training();
    let q = ts[k].pixels@;
    let ds = distances(c.metric(), ts, q);
    lemma_first_min_index(ds);
    let m = first_min_index(ds);
    assert(ds[k] == manhattan(ts[k].pixels@, q));
    lemma_manhattan_nonnegative_and_identity(ts[k].pixels@, q);
    lemma_manhattan_nonnegative_and_identity(ts[m].pixels@, q);
    assert(ds[m] <= ds[k]);
    assert(ds[m] == manhattan(ts[m].pixels@, q));
}

/// Under the Manhattan metric, where observations `i < j` of the training set
/// (all of one length) have the same features and no observation before `i`
/// does, classifying those features returns the label at `i`.
pub proof fn lemma_classify_tie_break(c: Classifier<Manhattan>, i: int, j: int)
    requires
        0 <= i < j < c.training().len(),
        c.training()[i].pixels@ == c.training()[j].pixels@,
        forall|k: int| 0 <= k < i ==> (#[trigger] c.training()[k]).pixels@ != c.training()[i].pixels@,
        forall|k: int|
            0 <= k < c.training().len() ==> (#[trigger] c.training()[k]).pixels@.len()
                == c.training()[i].pixels@.len(),
    ensures
        c.spec_classify(c.training()[i].pixels@) == Ok::<Seq<char>, KnnError>(c.training()[i].label@),
{
    let ts = c.training();
    let q = ts[i].pixels@;
    let ds = distances(c.metric(), ts, q);
    lemma_first_min_index(ds);
    let m = first_min_index(ds);
    assert forall|k: int| 0 <= k < ts.len() implies ds[i] <= #[trigger] ds[k] by {
        lemma_manhattan_nonnegative_and_identity(ts[k].pixels@, q);
        lemma_manhattan_nonnegative_and_identity(q, q);
    }
    assert forall|k: int| 0 <= k < i implies ds[i] < #[trigger] ds[k] by {
        lemma_manhattan_nonnegative_and_identity(ts[k].pixels@, q);
        lemma_manhattan_nonnegative_and_identity(q, q);
    }
    assert(is_first_min(ds, i));
    lemma_first_min_unique(ds, i, m);
}

} // verus!
