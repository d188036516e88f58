use numbers_recognition::classifier::train;
use numbers_recognition::distance::Manhattan;
use numbers_recognition::error::KnnError;
use numbers_recognition::evaluation::evaluate;
use numbers_recognition::observation::Observation;

fn obs(label: &str, pixels: &[i32]) -> Observation {
    Observation { label: label.to_string(), pixels: pixels.to_vec() }
}

fn training() -> Vec<Observation> {
    vec![obs("0", &[0, 0]), obs("1", &[10, 10]), obs("2", &[20, 0])]
}

#[test]
fn three_of_four_correct() {
    let c = train(training(), Manhattan);
    let validation = vec![obs("0", &[1, 0]), obs("1", &[9, 9]), obs("2", &[19, 1]), obs("0", &[11, 11])];
    let e = evaluate(&validation, &c).unwrap();
    assert_eq!(e.correct, 3);
    assert_eq!(e.total, 4);
    assert_eq!(e.correct as f64 / e.total as f64, 0.75);
    assert_eq!(e.trace.len(), 4);
    assert_eq!(e.trace[3].predicted, "1");
    assert_eq!(e.trace[3].actual, "0");
    assert_eq!(e.trace[0].predicted, "0");
    assert_eq!(e.trace[2].actual, "2");
}

#[test]
fn all_correct_is_one() {
    let c = train(training(), Manhattan);
    let validation = vec![obs("0", &[0, 1]), obs("2", &[18, 0])];
    let e = evaluate(&validation, &c).unwrap();
    assert_eq!((e.correct, e.total), (2, 2));
    assert_eq!(e.correct as f64 / e.total as f64, 1.0);
}

#[test]
fn none_correct_is_zero() {
    let c = train(training(), Manhattan);
    let validation = vec![obs("1", &[0, 1]), obs("0", &[18, 0]), obs("x", &[10, 9])];
    let e = evaluate(&validation, &c).unwrap();
    assert_eq!((e.correct, e.total), (0, 3));
    assert_eq!(e.correct as f64 / e.total as f64, 0.0);
}

#[test]
fn labels_compare_exactly() {
    let c = train(vec![obs("A", &[0])], Manhattan);
    let validation = vec![obs("a", &[0]), obs("A ", &[0]), obs("A", &[0])];
    let e = evaluate(&validation, &c).unwrap();
    assert_eq!((e.correct, e.total), (1, 3));
}

#[test]
fn empty_validation_set_fails() {
    let c = train(training(), Manhattan);
    assert_eq!(evaluate(&Vec::new(), &c).err(), Some(KnnError::EmptyValidationSet));
}

#[test]
fn evaluation_with_empty_training_fails() {
    let c = train(Vec::new(), Manhattan);
    let validation = vec![obs("0", &[0, 0])];
    assert_eq!(evaluate(&validation, &c).err(), Some(KnnError::EmptyTrainingSet));
}

#[test]
fn evaluation_with_wrong_arity_fails() {
    let c = train(training(), Manhattan);
    let validation = vec![obs("0", &[0, 0]), obs("1", &[10, 10, 10])];
    assert_eq!(evaluate(&validation, &c).err(), Some(KnnError::InvalidInput));
}
