use std::collections::HashSet;

use dzn_rs::{parse, parse_chars, parse_str, DataFile, GetValue, Value};

#[test]
fn empty_store_finds_nothing() {
    let data_file: DataFile<i32> = DataFile::default();

    assert_eq!(None, data_file.get::<i32>("x"));
    assert_eq!(None, data_file.get::<bool>("x"));
    assert_eq!(None, data_file.get::<HashSet<i32>>("x"));
    assert_eq!(None, data_file.get::<i32>(""));
    assert!(data_file.array_1d::<i32>("x", 0).is_none());
    assert!(data_file.array_1d::<bool>("x", 0).is_none());
    assert!(data_file.array_2d::<i32>("x", [0, 0]).is_none());
}

#[test]
fn empty_text_is_an_empty_store() {
    for source in ["", " ", "\n\t\r\n  "] {
        let data_file = parse::<i32>(source.as_bytes()).expect("no statement is valid");
        assert_eq!(None, data_file.get::<i32>("x"));
    }
}

#[test]
fn integers_are_read_back() {
    let entries = [("a", 0), ("b_2", 7), ("_c", 1234567890), ("D", i32::MAX)];
    let mut source = String::new();
    for (name, value) in entries {
        source.push_str(&format!("{name} = {value};\n"));
    }

    let data_file = parse::<i32>(source.as_bytes()).expect("valid statements");

    for (name, value) in entries {
        assert_eq!(Some(&value), data_file.get::<i32>(name));
    }
    assert_eq!(None, data_file.get::<i32>("e"));
}

#[test]
fn integers_are_read_back_without_any_space() {
    let data_file = parse::<u64>("a=1;b=22;c=333;".as_bytes()).expect("valid statements");

    assert_eq!(Some(&1), data_file.get::<u64>("a"));
    assert_eq!(Some(&22), data_file.get::<u64>("b"));
    assert_eq!(Some(&333), data_file.get::<u64>("c"));
}

#[test]
fn last_definition_wins() {
    let data_file = parse::<i32>("x = 1; x = 2;".as_bytes()).expect("valid statements");

    assert_eq!(Some(&2), data_file.get::<i32>("x"));
}

#[test]
fn last_definition_wins_across_types() {
    let data_file = parse::<i32>("x = 1; x = true;".as_bytes()).expect("valid statements");

    assert_eq!(None, data_file.get::<i32>("x"));
    assert_eq!(Some(&true), data_file.get::<bool>("x"));
}

#[test]
fn scalars_and_arrays_are_kept_apart() {
    let source = "x = 1; x = [2, 3]; x = [| 4 |];";
    let data_file = parse::<i32>(source.as_bytes()).expect("valid statements");

    assert_eq!(Some(&1), data_file.get::<i32>("x"));
    let array = data_file.array_1d::<i32>("x", 2).expect("an array of two");
    assert_eq!(Some(&3), array.get([1]));
    let matrix = data_file.array_2d::<i32>("x", [1, 1]).expect("a matrix of one");
    assert_eq!(Some(&4), matrix.get([0, 0]));
}

#[test]
fn a_boolean_is_no_integer() {
    let data_file = parse::<i32>("flag = true; other = false;".as_bytes()).expect("valid");

    assert_eq!(None, data_file.get::<i32>("flag"));
    assert_eq!(None, data_file.get::<HashSet<i32>>("flag"));
    assert_eq!(Some(&true), data_file.get::<bool>("flag"));
    assert_eq!(Some(&false), data_file.get::<bool>("other"));
}

#[test]
fn an_integer_is_no_boolean() {
    let data_file = parse::<i32>("n = 1;".as_bytes()).expect("valid");

    assert_eq!(None, data_file.get::<bool>("n"));
    assert_eq!(None, data_file.get::<HashSet<i32>>("n"));
    assert_eq!(Some(&1), data_file.get::<i32>("n"));
}

#[test]
fn a_set_is_neither_boolean_nor_integer() {
    let data_file = parse::<i32>("s = {1};".as_bytes()).expect("valid");

    assert_eq!(None, data_file.get::<bool>("s"));
    assert_eq!(None, data_file.get::<i32>("s"));
    assert_eq!(Some(&HashSet::from([1])), data_file.get::<HashSet<i32>>("s"));
}

#[test]
fn sets_forget_order_and_repeats() {
    let data_file = parse::<i32>("a = {1,1,2}; b = {2,1};".as_bytes()).expect("valid");

    let expected = HashSet::from([1, 2]);
    assert_eq!(Some(&expected), data_file.get::<HashSet<i32>>("a"));
    assert_eq!(Some(&expected), data_file.get::<HashSet<i32>>("b"));
    assert_eq!(2, data_file.get::<HashSet<i32>>("a").unwrap().len());
}

#[test]
fn empty_braces_are_the_empty_set() {
    let data_file = parse::<i32>("s = {};".as_bytes()).expect("valid");

    let set = data_file.get::<HashSet<i32>>("s").expect("a set");
    assert!(set.is_empty());
}

#[test]
fn array_of_integers_is_read_back() {
    let data_file = parse::<i32>("a = [1,3,5];".as_bytes()).expect("valid");

    let array = data_file.array_1d::<i32>("a", 3).expect("an array of three");
    assert_eq!(&[3], array.shape());
    assert_eq!(Some(&1), array.get([0]));
    assert_eq!(Some(&3), array.get([1]));
    assert_eq!(Some(&5), array.get([2]));
    assert_eq!(None, array.get([3]));
    assert_eq!(None, array.get([usize::MAX]));

    assert!(data_file.array_1d::<i32>("a", 4).is_none());
    assert!(data_file.array_1d::<i32>("a", 2).is_none());
    assert!(data_file.array_1d::<bool>("a", 3).is_none());
    assert!(data_file.array_1d::<HashSet<i32>>("a", 3).is_none());
    assert!(data_file.array_1d::<i32>("b", 3).is_none());
    assert!(data_file.array_2d::<i32>("a", [3, 1]).is_none());
}

#[test]
fn matrix_of_booleans_is_read_back() {
    let source = "m = [| true, false | false, true |];";
    let data_file = parse::<i32>(source.as_bytes()).expect("valid");

    let matrix = data_file.array_2d::<bool>("m", [2, 2]).expect("a matrix of two by two");
    assert_eq!(&[2, 2], matrix.shape());
    assert_eq!(Some(&true), matrix.get([0, 0]));
    assert_eq!(Some(&false), matrix.get([0, 1]));
    assert_eq!(Some(&false), matrix.get([1, 0]));
    assert_eq!(Some(&true), matrix.get([1, 1]));

    assert!(data_file.array_2d::<bool>("m", [2, 3]).is_none());
    assert!(data_file.array_2d::<bool>("m", [4, 1]).is_none());
    assert!(data_file.array_2d::<i32>("m", [2, 2]).is_none());
    assert!(data_file.array_1d::<bool>("m", 4).is_none());
}

#[test]
fn matrix_elements_are_kept_row_by_row() {
    let source = "m = [| 10, 11, 12 | 20, 21, 22 |];";
    let data_file = parse::<i32>(source.as_bytes()).expect("valid");

    let matrix = data_file.array_2d::<i32>("m", [2, 3]).expect("a matrix of two by three");
    assert_eq!(&[2, 3], matrix.shape());
    for (row, column, value) in [
        (0, 0, 10),
        (0, 1, 11),
        (0, 2, 12),
        (1, 0, 20),
        (1, 1, 21),
        (1, 2, 22),
    ] {
        assert_eq!(Some(&value), matrix.get([row, column]));
    }
    // The place of an element is `row * 3 + column`: a column beyond the row's end
    // reaches into the next row, and a place beyond the last element holds nothing.
    assert_eq!(Some(&20), matrix.get([0, 3]));
    assert_eq!(Some(&22), matrix.get([0, 5]));
    assert_eq!(None, matrix.get([0, 6]));
    assert_eq!(None, matrix.get([2, 0]));
    assert_eq!(None, matrix.get([usize::MAX, 0]));
    assert_eq!(None, matrix.get([usize::MAX, usize::MAX]));
    assert_eq!(None, matrix.get([1, usize::MAX]));
}

#[test]
fn documented_example_is_read() {
    let source = r#"
int_param = 5;
bool_param = true;
array_1d = [1, 3, 5];
array_2d = [| true, false
            | false, true
            | false, false |];
"#;

    let data_file = parse::<i32>(source.as_bytes()).expect("valid dzn");

    assert_eq!(Some(&5), data_file.get::<i32>("int_param"));
    assert_eq!(Some(&true), data_file.get::<bool>("bool_param"));

    let array_1d = data_file
        .array_1d::<i32>("array_1d", 3)
        .expect("key exists with requested length");
    assert_eq!(&[3], array_1d.shape());
    for (idx, value) in [1, 3, 5].iter().enumerate() {
        assert_eq!(Some(value), array_1d.get([idx]));
    }

    let array_2d = data_file
        .array_2d::<bool>("array_2d", [3, 2])
        .expect("key exists with requested shape");
    assert_eq!(&[3, 2], array_2d.shape());

    assert_eq!(Some(&true), array_2d.get([0, 0]));
    assert_eq!(Some(&false), array_2d.get([0, 1]));
    assert_eq!(Some(&false), array_2d.get([1, 0]));
    assert_eq!(Some(&true), array_2d.get([1, 1]));
    assert_eq!(Some(&false), array_2d.get([2, 0]));
    assert_eq!(Some(&false), array_2d.get([2, 1]));
}

#[test]
fn text_and_characters_are_parsed_as_bytes_are() {
    let source = "x = 5; y = [true];";

    let from_text = parse_str::<i32>(source).expect("valid");
    assert_eq!(Some(&5), from_text.get::<i32>("x"));
    assert!(from_text.array_1d::<bool>("y", 1).is_some());

    let chars: Vec<char> = source.chars().collect();
    let from_chars = parse_chars::<i32>(&chars).expect("valid");
    assert_eq!(Some(&5), from_chars.get::<i32>("x"));
    assert!(from_chars.array_1d::<bool>("y", 1).is_some());
}

#[test]
fn shaped_arrays_can_be_cloned() {
    let data_file = parse::<i32>("a = [1, 2]; s = [{1}, {}];".as_bytes()).expect("valid");

    let array = data_file.array_1d::<i32>("a", 2).expect("an array of two").clone();
    assert_eq!(&[2], array.shape());
    assert_eq!(Some(&2), array.get([1]));

    let sets = data_file
        .array_1d::<HashSet<i32>>("s", 2)
        .expect("an array of two")
        .clone();
    assert_eq!(Some(&HashSet::from([1])), sets.get([0]));
}

#[test]
fn values_can_be_cloned() {
    let set: Value<i32> = Value::SetOfInt(HashSet::from([1, 2, 3]));
    let copy = set.clone();
    let members: Option<&HashSet<i32>> = copy.try_get();
    assert_eq!(Some(&HashSet::from([1, 2, 3])), members);
    let number: Option<&i32> = copy.try_get();
    assert_eq!(None, number);

    let number: Value<i32> = Value::Int(5);
    let copy = number.clone();
    let found: Option<&i32> = copy.try_get();
    assert_eq!(Some(&5), found);

    let boolean: Value<i32> = Value::Bool(true);
    let copy = boolean.clone();
    let found: Option<&bool> = copy.try_get();
    assert_eq!(Some(&true), found);
}

#[test]
fn large_files_are_read() {
    let mut source = String::new();
    for index in 0..20_000 {
        source.push_str(&format!("name_{index} = {index};\n"));
    }
    source.push_str("array = [");
    for index in 0..50_000 {
        if index > 0 {
            source.push_str(", ");
        }
        source.push_str(&index.to_string());
    }
    source.push_str("];\nmatrix = [|");
    for row in 0..300 {
        for column in 0..300 {
            if column > 0 {
                source.push(',');
            }
            source.push_str(&(row * 300 + column).to_string());
        }
        source.push_str("\n|");
    }
    source.push_str("];\n");

    let data_file = parse::<u32>(source.as_bytes()).expect("valid");

    assert_eq!(Some(&19_999), data_file.get::<u32>("name_19999"));
    let array = data_file.array_1d::<u32>("array", 50_000).expect("an array");
    assert_eq!(Some(&49_999), array.get([49_999]));
    let matrix = data_file.array_2d::<u32>("matrix", [300, 300]).expect("a matrix");
    assert_eq!(Some(&(299 * 300 + 7)), matrix.get([299, 7]));
}
