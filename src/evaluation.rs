use vstd::prelude::*;

use crate::classifier::Classifier;
use crate::distance::Distance;
use crate::error::KnnError;
use crate::observation::Observation;

verus! {

/// One validation example's predicted label beside its true label.
#[derive(Clone, Debug)]
pub struct Prediction {
    pub predicted: String,
    pub actual: String,
}

/// The outcome of an evaluation: a trace of predictions in validation-set
/// order, and the accuracy as `correct` out of `total`.
#[derive(Clone, Debug)]
pub struct Evaluation {
    pub trace: Vec<Prediction>,
    pub correct: usize,
    pub total: usize,
}

/// The classifier predicts the true label of `o`.
pub open spec fn is_correct<D: Distance>(c: Classifier<D>, o: Observation) -> bool {
    c.spec_classify(o.pixels@) == Ok::<Seq<char>, KnnError>(o.label@)
}

/// How many observations of `vs` the classifier labels correctly.
pub open spec fn count_correct<D: Distance>(c: Classifier<D>, vs: Seq<Observation>) -> nat
    decreases vs.len(),
{
    if vs.len() == 0 {
        0
    } else {
        count_correct(c, vs.drop_last()) + if is_correct(c, vs.last()) {
            1nat
        } else {
            0nat
        }
    }
}

/// Some observation of `vs` cannot be classified.
pub open spec fn some_unclassifiable<D: Distance>(c: Classifier<D>, vs: Seq<Observation>) -> bool {
    exists|i: int| 0 <= i < vs.len() && (#[trigger] c.spec_classify(vs[i].pixels@)) is Err
}

/// Runs `classifier` over `validation_set` and scores each prediction against
/// the true label by exact equality.
pub fn evaluate<D: Distance>(validation_set: &Vec<Observation>, classifier: &Classifier<D>) -> (r:
    Result<Evaluation, KnnError>)
    ensures
        validation_set@.len() == 0 ==> r == Err::<Evaluation, KnnError>(
            KnnError::EmptyValidationSet,
        ),
        validation_set@.len() > 0 && classifier.training().len() == 0 ==> r == Err::<
            Evaluation,
            KnnError,
        >(KnnError::EmptyTrainingSet),
        validation_set@.len() > 0 && classifier.training().len() > 0 ==> (r is Err <==> some_unclassifiable(*classifier, validation_set@)),
        validation_set@.len() > 0 && classifier.training().len() > 0 && r is Err ==> r == Err::<
            Evaluation,
            KnnError,
        >(KnnError::InvalidInput),
        r matches Ok(e) ==> {
            &&& e.total == validation_set@.len()
            &&& e.correct == count_correct(*classifier, validation_set@)
            &&& e.trace@.len() == validation_set@.len()
            &&& forall|i: int|
                0 <= i < validation_set@.len() ==> {
                    &&& classifier.spec_classify((#[trigger] validation_set@[i]).pixels@)
                        == Ok::<Seq<char>, KnnError>(e.trace@[i].predicted@)
                    &&& e.trace@[i].actual@ == validation_set@[i].label@
                }
        },
{
    let vs = validation_set;
    let n = vs.len();
    if n == 0 {
        return Err(KnnError::EmptyValidationSet);
    }
    let mut trace: Vec<Prediction> = Vec::new();
    let mut correct: usize = 0;
    let mut i: usize = 0;
    while i < n
        invariant
            vs@ == validation_set@,
            n == vs@.len(),
            n > 0,
            i <= n,
            correct == count_correct(*classifier, vs@.take(i as int)),
            correct <= i,
            trace@.len() == i,
            forall|j: int|
                0 <= j < i ==> {
                    &&& classifier.spec_classify((#[trigger] vs@[j]).pixels@) == Ok::<
                        Seq<char>,
                        KnnError,
                    >(trace@[j].predicted@)
                    &&& trace@[j].actual@ == vs@[j].label@
                },
        decreases n - i,
    {
        assert(vs@.take(i + 1).drop_last() =~= vs@.take(i as int));
        let obs = &vs[i];
        match classifier.classify(&obs.pixels) {
            Ok(predicted) => {
                if predicted == obs.label {
                    correct = correct + 1;
                }
                trace.push(Prediction { predicted, actual: obs.label.clone() });
            },
            Err(e) => {
                assert(classifier.spec_classify(vs@[i as int].pixels@) is Err);
                return Err(e);
            },
        }
        i = i + 1;
    }
    assert(vs@.take(n as int) =~= vs@);
    assert(!some_unclassifiable(*classifier, vs@)) by {
        assert forall|j: int| 0 <= j < n implies !(#[trigger] classifier.spec_classify(
            vs@[j].pixels@,
        ) is Err) by {
            assert(classifier.spec_classify(vs@[j].pixels@) is Ok);
        }
    }
    Ok(Evaluation { trace, correct, total: n })
}

/// The accuracy `count_correct(c, vs) / vs.len()` lies in `[0, 1]`; it is 1
/// exactly when every prediction matches the true label, and 0 exactly when
/// none does.
pub proof fn lemma_accuracy_bounds<D: Distance>(c: Classifier<D>, vs: Seq<Observation>)
    ensures
        count_correct(c, vs) <= vs.len(),
        count_correct(c, vs) == vs.len() <==> (forall|i: int|
            0 <= i < vs.len() ==> is_correct(c, #[trigger] vs[i])),
        count_correct(c, vs) == 0 <==> (forall|i: int|
            0 <= i < vs.len() ==> !is_correct(c, #[trigger] vs[i])),
    decreases vs.len(),
{
    if vs.len() > 0 {
        let t = vs.drop_last();
        lemma_accuracy_bounds(c, t);
        assert forall|i: int| 0 <= i < t.len() implies #[trigger] t[i] == vs[i] by {}
        if forall|i: int| 0 <= i < vs.len() ==> is_correct(c, #[trigger] vs[i]) {
            assert forall|i: int| 0 <= i < t.len() implies is_correct(c, #[trigger] t[i]) by {
                assert(is_correct(c, vs[i]));
            }
        }
        if forall|i: int| 0 <= i < vs.len() ==> !is_correct(c, #[trigger] vs[i]) {
            assert forall|i: int| 0 <= i < t.len() implies !is_correct(c, #[trigger] t[i]) by {
                assert(!is_correct(c, vs[i]));
            }
        }
        if count_correct(c, vs) == vs.len() {
            assert forall|i: int| 0 <= i < vs.len() implies is_correct(c, #[trigger] vs[i]) by {
                if i < t.len() {
                    assert(is_correct(c, t[i]));
                }
            }
        }
        if count_correct(c, vs) == 0 {
            assert forall|i: int| 0 <= i < vs.len() implies !is_correct(c, #[trigger] vs[i]) by {
                if i < t.len() {
                    assert(!is_correct(c, t[i]));
                }
            }
        }
    }
}

} // verus!
