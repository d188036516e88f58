use numbers_recognition::error::KnnError;
use numbers_recognition::record::{create_observation, read_observations};

#[test]
fn record_with_label_and_features() {
    let o = create_observation("7,0,255,-3,+4".to_string()).unwrap();
    assert_eq!(o.label, "7");
    assert_eq!(o.pixels, vec![0, 255, -3, 4]);
}

#[test]
fn label_is_kept_as_is() {
    let o = create_observation(" Seven ,12".to_string()).unwrap();
    assert_eq!(o.label, " Seven ");
    assert_eq!(o.pixels, vec![12]);
}

#[test]
fn record_without_features() {
    let o = create_observation("lonely".to_string()).unwrap();
    assert_eq!(o.label, "lonely");
    assert!(o.pixels.is_empty());
    let e = create_observation(String::new()).unwrap();
    assert_eq!(e.label, "");
    assert!(e.pixels.is_empty());
}

#[test]
fn i32_range_edges() {
    let o = create_observation("x,2147483647,-2147483648,007".to_string()).unwrap();
    assert_eq!(o.pixels, vec![i32::MAX, i32::MIN, 7]);
}

#[test]
fn malformed_features_fail() {
    for line in [
        "x,2147483648",
        "x,-2147483649",
        "x,99999999999999999999",
        "x,1,,2",
        "x,1,",
        "x,abc",
        "x,1.5",
        "x, 3",
        "x,-",
        "x,+",
        "x,3\r",
    ] {
        assert_eq!(
            create_observation(line.to_string()).err(),
            Some(KnnError::MalformedRecord),
            "{}",
            line
        );
    }
}

#[test]
fn header_is_skipped() {
    let lines = vec![
        "label,pixel0,pixel1".to_string(),
        "1,10,20".to_string(),
        "2,-5,0".to_string(),
    ];
    let v = read_observations(&lines).unwrap();
    assert_eq!(v.len(), 2);
    assert_eq!(v[0].label, "1");
    assert_eq!(v[0].pixels, vec![10, 20]);
    assert_eq!(v[1].label, "2");
    assert_eq!(v[1].pixels, vec![-5, 0]);
    assert!(read_observations(&vec!["only,a,header".to_string()]).unwrap().is_empty());
    assert!(read_observations(&Vec::new()).unwrap().is_empty());
}

#[test]
fn one_bad_record_fails_the_load() {
    let lines = vec!["label,p".to_string(), "1,10".to_string(), "2,ten".to_string(), "3,30".to_string()];
    assert_eq!(read_observations(&lines).err(), Some(KnnError::MalformedRecord));
}
