use std::collections::HashSet;
use std::hash::Hash;

use dzn_rs::parse;

#[test]
fn test_integers_are_parsed() {
    let source = r#"
        x1 = 5;
        x2 = 6;
        "#;

    let data_file = parse::<i32>(source.as_bytes()).expect("valid dzn");
    assert_eq!(Some(6), data_file.get::<i32>("x2").copied());
}

#[test]
fn test_whitespace_around_array_is_handled() {
    let source = r#"
        x1 = [ 1, 22, 3 ];
        "#;

    let data_file = parse::<i32>(source.as_bytes()).expect("valid dzn");
    let array = data_file
        .array_1d::<i32>("x1", 3)
        .expect("array with key exists");

    assert_eq!([3], *array.shape());

    for (idx, value) in [1, 22, 3].into_iter().enumerate() {
        assert_eq!(value, array.get([idx]).copied().unwrap());
    }
}

#[test]
fn test_set_of_int_parsed() {
    let source = r#"
        set = {1, 2, 3};
        set2 = { 5, 6 };
        set3 = [ {1}, { 5, 6 } ];
        "#;

    let data_file = parse::<i32>(source.as_bytes()).expect("valid dzn");

    let set = data_file.get::<HashSet<i32>>("set").expect("key exists");
    let set2 = data_file.get::<HashSet<i32>>("set2").expect("key exists");

    assert_eq!(&make_set([1, 2, 3]), set);
    assert_eq!(&make_set([5, 6]), set2);

    let set3 = data_file
        .array_1d::<HashSet<i32>>("set3", 2)
        .expect("array with key exists");

    for (idx, value) in [make_set([1]), make_set([5, 6])].into_iter().enumerate() {
        assert_eq!(&value, set3.get([idx]).unwrap());
    }
}

#[test]
fn test_empty_set() {
    let source = r#"
        x1 = [ {}, { }, {  } ];
        "#;

    let data_file = parse::<i32>(source.as_bytes()).expect("valid dzn");
    let array = data_file
        .array_1d::<HashSet<i32>>("x1", 3)
        .expect("array with key exists");

    assert_eq!([3], *array.shape());

    for idx in 0..3 {
        assert!(array.get([idx]).unwrap().is_empty());
    }
}

fn make_set<T: Hash + Eq>(data: impl IntoIterator<Item = T>) -> HashSet<T> {
    data.into_iter().collect()
}
