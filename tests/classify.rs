use numbers_recognition::classifier::train;
use numbers_recognition::distance::{manhattan_distance, Distance, Manhattan};
use numbers_recognition::error::KnnError;
use numbers_recognition::observation::Observation;

fn obs(label: &str, pixels: &[i32]) -> Observation {
    Observation { label: label.to_string(), pixels: pixels.to_vec() }
}

#[test]
fn nearest_label_wins() {
    let training = vec![obs("A", &[0, 0]), obs("B", &[10, 10])];
    assert_eq!(manhattan_distance(&vec![0, 0], &vec![1, 1]), 2);
    assert_eq!(manhattan_distance(&vec![10, 10], &vec![1, 1]), 18);
    let c = train(training, Manhattan);
    assert_eq!(c.classify(&vec![1, 1]), Ok("A".to_string()));
    assert_eq!(c.classify(&vec![9, 8]), Ok("B".to_string()));
}

#[test]
fn tie_goes_to_first_in_order() {
    let c = train(vec![obs("X", &[5]), obs("Y", &[5])], Manhattan);
    assert_eq!(c.classify(&vec![5]), Ok("X".to_string()));
}

#[test]
fn tie_at_positive_distance_goes_to_first() {
    let c = train(vec![obs("P", &[0]), obs("Q", &[4]), obs("R", &[8])], Manhattan);
    assert_eq!(c.classify(&vec![6]), Ok("Q".to_string()));
    assert_eq!(c.classify(&vec![2]), Ok("P".to_string()));
}

#[test]
fn duplicate_features_pick_earlier_label() {
    let c = train(vec![obs("a", &[1, 1]), obs("b", &[3, 3]), obs("c", &[3, 3])], Manhattan);
    assert_eq!(c.classify(&vec![3, 3]), Ok("b".to_string()));
}

#[test]
fn empty_training_set_fails() {
    let c = train(Vec::new(), Manhattan);
    assert_eq!(c.classify(&vec![1, 2]), Err(KnnError::EmptyTrainingSet));
}

#[test]
fn arity_mismatch_fails() {
    let c = train(vec![obs("A", &[0, 0]), obs("B", &[1, 1])], Manhattan);
    assert_eq!(c.classify(&vec![1, 2, 3]), Err(KnnError::InvalidInput));
    assert_eq!(c.classify(&vec![1]), Err(KnnError::InvalidInput));
    assert_eq!(c.classify(&vec![1, 1]), Ok("B".to_string()));
}

#[test]
fn classify_is_repeatable() {
    let c = train(vec![obs("A", &[0, 3]), obs("B", &[3, 0]), obs("C", &[2, 2])], Manhattan);
    let q = vec![1, 2];
    let first = c.classify(&q);
    for _ in 0..5 {
        assert_eq!(c.classify(&q), first);
    }
}

#[test]
fn training_points_classify_to_zero_distance() {
    let training = vec![obs("A", &[0, 3]), obs("B", &[3, 0]), obs("C", &[2, 2]), obs("D", &[3, 0])];
    let c = train(training.clone(), Manhattan);
    for o in &training {
        let label = c.classify(&o.pixels).unwrap();
        let nearest = training.iter().find(|t| t.label == label).unwrap();
        assert_eq!(manhattan_distance(&nearest.pixels, &o.pixels), 0);
    }
    assert_eq!(c.classify(&vec![3, 0]), Ok("B".to_string()));
}

#[test]
fn manhattan_is_symmetric() {
    let a = vec![3, -7, 12, 0];
    let b = vec![-4, 5, 12, 9];
    assert_eq!(manhattan_distance(&a, &b), 7 + 12 + 0 + 9);
    assert_eq!(manhattan_distance(&a, &b), manhattan_distance(&b, &a));
}

#[test]
fn manhattan_identity_and_nonnegative() {
    let a = vec![1, -2, 3];
    assert_eq!(manhattan_distance(&a, &a), 0);
    assert_eq!(manhattan_distance(&vec![], &vec![]), 0);
    assert!(manhattan_distance(&a, &vec![0, 0, 0]) > 0);
}

#[test]
fn manhattan_extremes_do_not_overflow() {
    let a = vec![i32::MAX, i32::MIN];
    let b = vec![i32::MIN, i32::MAX];
    assert_eq!(manhattan_distance(&a, &b), 2 * 4294967295u128);
    assert_eq!(Manhattan.distance(&a, &b), 2 * 4294967295u128);
}
