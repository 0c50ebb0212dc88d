use dzn_rs::{parse, DznParseError, Integer, SyntaxElement};

fn value_of<Int: Integer + std::fmt::Debug>(literal: &str) -> Option<Int> {
    let source = format!("x = {literal};");
    match parse::<Int>(source.as_bytes()) {
        Ok(data_file) => Some(*data_file.get::<Int>("x").expect("an integer")),
        Err(DznParseError::InvalidSyntax { expected, actual }) => {
            assert_eq!(SyntaxElement::Value, expected);
            assert_eq!(format!("{literal};"), actual);
            None
        }
        Err(other) => panic!("not a syntax error: {other:?}"),
    }
}

#[test]
fn integer_types_hold_the_numbers_of_their_range() {
    assert_eq!(Some(0_i8), value_of("0"));
    assert_eq!(Some(127_i8), value_of("127"));
    assert_eq!(Some(i16::MAX), value_of("32767"));
    assert_eq!(Some(i32::MAX), value_of("2147483647"));
    assert_eq!(Some(i64::MAX), value_of("9223372036854775807"));
    assert_eq!(Some(i128::MAX), value_of("170141183460469231731687303715884105727"));
    assert_eq!(Some(isize::MAX), value_of(&isize::MAX.to_string()));
    assert_eq!(Some(255_u8), value_of("255"));
    assert_eq!(Some(u16::MAX), value_of("65535"));
    assert_eq!(Some(u32::MAX), value_of("4294967295"));
    assert_eq!(Some(u64::MAX), value_of("18446744073709551615"));
    assert_eq!(Some(u128::MAX), value_of("340282366920938463463374607431768211455"));
    assert_eq!(Some(usize::MAX), value_of(&usize::MAX.to_string()));
}

#[test]
fn numbers_beyond_the_integer_type_are_no_values() {
    assert_eq!(None, value_of::<i8>("128"));
    assert_eq!(None, value_of::<i16>("32768"));
    assert_eq!(None, value_of::<i32>("2147483648"));
    assert_eq!(None, value_of::<i64>("9223372036854775808"));
    assert_eq!(None, value_of::<i128>("170141183460469231731687303715884105728"));
    assert_eq!(None, value_of::<u8>("256"));
    assert_eq!(None, value_of::<u16>("65536"));
    assert_eq!(None, value_of::<u32>("4294967296"));
    assert_eq!(None, value_of::<u64>("18446744073709551616"));
    assert_eq!(None, value_of::<u128>("340282366920938463463374607431768211456"));
    assert_eq!(None, value_of::<u128>("3402823669209384634633746074317682114550"));
    assert_eq!(
        None,
        value_of::<u8>("100000000000000000000000000000000000000000000000000000000000")
    );
}

#[test]
fn zeros_before_a_number_do_not_make_it_larger() {
    assert_eq!(Some(255_u8), value_of("000000000000000000000000000000000000000000000255"));
    assert_eq!(None, value_of::<u8>("000000000000000000000000000000000000000000000256"));
}

#[test]
fn from_u128_is_the_value_in_range() {
    assert_eq!(Some(5_i32), i32::from_u128(5));
    assert_eq!(Some(i32::MAX), i32::from_u128(2147483647));
    assert_eq!(None, i32::from_u128(2147483648));
    assert_eq!(Some(u128::MAX), u128::from_u128(u128::MAX));
    assert_eq!(None, u64::from_u128(u128::MAX));
    assert_eq!(Some(0_u8), u8::from_u128(0));
}

#[test]
fn numbers_beyond_the_integer_type_fail_inside_lists() {
    for source in ["x = [1, 256];", "x = {256};", "x = [| 1 | 256 |];", "x = [{1}, {256}];"] {
        match parse::<u8>(source.as_bytes()) {
            Err(DznParseError::InvalidSyntax { expected, actual }) => {
                assert_eq!(SyntaxElement::Value, expected);
                assert_eq!(&source[4..], actual);
            }
            other => panic!("not a syntax error: {:?}", other.map(|_| ())),
        }
    }
}
