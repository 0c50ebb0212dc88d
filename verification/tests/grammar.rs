use std::collections::HashSet;

use dzn_rs::{parse, DataFile, DznParseError, SyntaxElement};

fn failure(source: &str) -> (SyntaxElement, String) {
    match parse::<i32>(source.as_bytes()) {
        Err(DznParseError::InvalidSyntax { expected, actual }) => (expected, actual),
        Err(other) => panic!("not a syntax error: {other:?}"),
        Ok(_) => panic!("parsed: {source:?}"),
    }
}

fn parsed(source: &str) -> DataFile<i32> {
    parse::<i32>(source.as_bytes()).expect("valid")
}

#[test]
fn white_space_between_tokens_does_not_count() {
    let spaced = parsed("x = [ 1, 22, 3 ];");
    let tight = parsed("x=[1,22,3];");

    let spaced = spaced.array_1d::<i32>("x", 3).expect("an array of three");
    let tight = tight.array_1d::<i32>("x", 3).expect("an array of three");
    assert_eq!(spaced.shape(), tight.shape());
    for (idx, value) in [1, 22, 3].into_iter().enumerate() {
        assert_eq!(Some(&value), spaced.get([idx]));
        assert_eq!(Some(&value), tight.get([idx]));
    }
}

#[test]
fn every_kind_of_white_space_may_stand_between_tokens() {
    let data_file = parsed("\r\n x\t=\n{\t1 ,\r\n2 }\n;\n\ny = [|\n1 ,2\n|\t3, 4 |\n]\r\n;\t");

    assert_eq!(Some(&HashSet::from([1, 2])), data_file.get::<HashSet<i32>>("x"));
    let matrix = data_file.array_2d::<i32>("y", [2, 2]).expect("a matrix of two by two");
    assert_eq!(Some(&3), matrix.get([1, 0]));
}

#[test]
fn white_space_ends_an_identifier_and_an_integer() {
    assert_eq!((SyntaxElement::Equals, "b = 1;".to_string()), failure("a b = 1;"));
    assert_eq!((SyntaxElement::SemiColon, "2;".to_string()), failure("a = 1 2;"));
}

#[test]
fn all_white_space_is_left_out_at_either_end() {
    let every = "\u{9}\u{a}\u{b}\u{c}\u{d} \u{85}\u{a0}\u{1680}\u{2000}\u{2001}\u{2002}\
                 \u{2003}\u{2004}\u{2005}\u{2006}\u{2007}\u{2008}\u{2009}\u{200a}\u{2028}\
                 \u{2029}\u{202f}\u{205f}\u{3000}";
    assert!(every.chars().all(char::is_whitespace));
    assert_eq!(25, every.chars().count());

    let source = format!("{every}x = 1;{every}");
    assert_eq!("x = 1;", source.trim());
    let data_file = parsed(&source);
    assert_eq!(Some(&1), data_file.get::<i32>("x"));

    let data_file = parsed(every);
    assert_eq!(None, data_file.get::<i32>("x"));

    assert_eq!(
        (SyntaxElement::SemiColon, "".to_string()),
        failure("\u{b}x = 1\u{a0}")
    );
}

#[test]
fn characters_next_to_white_space_are_no_white_space() {
    for c in ['\u{8}', '\u{e}', '\u{1f}', '!', '\u{84}', '\u{86}', '\u{9f}', '\u{a1}',
        '\u{167f}', '\u{1681}', '\u{180e}', '\u{1fff}', '\u{200b}', '\u{2027}', '\u{202a}',
        '\u{202e}', '\u{2030}', '\u{205e}', '\u{2060}', '\u{2fff}', '\u{3001}', '\u{feff}']
    {
        assert!(!c.is_whitespace());
        assert_eq!(
            (SyntaxElement::Identifier, format!("{c}x = 1;")),
            failure(&format!("{c}x = 1;"))
        );
        assert_eq!(
            (SyntaxElement::Identifier, format!("{c}")),
            failure(&format!("x = 1;{c}"))
        );
    }
}

#[test]
fn only_plain_white_space_may_stand_between_tokens() {
    assert_eq!(
        (SyntaxElement::Equals, "\u{a0}= 1;".to_string()),
        failure("x\u{a0}= 1;")
    );
    assert_eq!(
        (SyntaxElement::Value, "\u{b}1;".to_string()),
        failure("x = \u{b}1;")
    );
    assert_eq!(
        (SyntaxElement::SemiColon, "\u{c};".to_string()),
        failure("x = 1\u{c};")
    );
    assert_eq!(
        (SyntaxElement::Identifier, "\u{2028}y = 2;".to_string()),
        failure("x = 1;\u{2028}y = 2;")
    );
    assert_eq!(
        (SyntaxElement::Value, "[1,\u{3000}2];".to_string()),
        failure("x = [1,\u{3000}2];")
    );
}

#[test]
fn identifiers_hold_letters_digits_and_underscores() {
    let data_file = parsed("_ = 1; a1_B2 = 2; __x__ = 3; Z = 4; true = 5;");

    assert_eq!(Some(&1), data_file.get::<i32>("_"));
    assert_eq!(Some(&2), data_file.get::<i32>("a1_B2"));
    assert_eq!(Some(&3), data_file.get::<i32>("__x__"));
    assert_eq!(Some(&4), data_file.get::<i32>("Z"));
    assert_eq!(Some(&5), data_file.get::<i32>("true"));
}

#[test]
fn missing_identifier_is_reported() {
    assert_eq!((SyntaxElement::Identifier, "= 5;".to_string()), failure("= 5;"));
    assert_eq!((SyntaxElement::Identifier, "1x = 5;".to_string()), failure("x = 1;\n1x = 5;"));
    assert_eq!((SyntaxElement::Identifier, ";".to_string()), failure("x = 1;;"));
    assert_eq!((SyntaxElement::Identifier, "é = 1;".to_string()), failure("  é = 1;  "));
}

#[test]
fn missing_equals_is_reported() {
    assert_eq!((SyntaxElement::Equals, "5;".to_string()), failure("x 5;"));
    assert_eq!((SyntaxElement::Equals, "".to_string()), failure("x"));
    assert_eq!((SyntaxElement::Equals, "-y = 5;".to_string()), failure("x-y = 5;"));
    assert_eq!((SyntaxElement::Equals, ": 5;".to_string()), failure("a = 1; x  : 5;"));
}

#[test]
fn unreadable_value_is_reported() {
    assert_eq!((SyntaxElement::Value, "?;".to_string()), failure("x = ?;"));
    assert_eq!((SyntaxElement::Value, ";".to_string()), failure("x = ;"));
    assert_eq!((SyntaxElement::Value, "".to_string()), failure("x ="));
    assert_eq!((SyntaxElement::Value, "-1;".to_string()), failure("x = -1;"));
    assert_eq!((SyntaxElement::Value, "y;".to_string()), failure("x = y;"));
    assert_eq!((SyntaxElement::Value, "True;".to_string()), failure("x = True;"));
}

#[test]
fn missing_semicolon_is_reported() {
    assert_eq!((SyntaxElement::SemiColon, "".to_string()), failure("x = 5"));
    assert_eq!((SyntaxElement::SemiColon, "y = 6;".to_string()), failure("x = 5\ny = 6;"));
    assert_eq!((SyntaxElement::SemiColon, "x;".to_string()), failure("x = truex;"));
    assert_eq!((SyntaxElement::SemiColon, "ab;".to_string()), failure("x = 12ab;"));
    assert_eq!((SyntaxElement::SemiColon, ".5;".to_string()), failure("x = 1.5;"));
    assert_eq!((SyntaxElement::SemiColon, "]".to_string()), failure("x = [1] ]"));
}

#[test]
fn first_failure_ends_the_parse() {
    assert_eq!(
        (SyntaxElement::Value, "?; z 3;".to_string()),
        failure("x = 1; y = ?; z 3;")
    );
}

#[test]
fn failure_keeps_the_rest_of_the_trimmed_text() {
    assert_eq!(
        (SyntaxElement::Value, "? ;\n more".to_string()),
        failure("  x = ? ;\n more \n\t")
    );
}

#[test]
fn integers_may_start_with_zeros() {
    let data_file = parsed("x = 007; y = 0; z = 000;");

    assert_eq!(Some(&7), data_file.get::<i32>("x"));
    assert_eq!(Some(&0), data_file.get::<i32>("y"));
    assert_eq!(Some(&0), data_file.get::<i32>("z"));
}

#[test]
fn arrays_hold_elements_of_one_kind() {
    let data_file = parsed("b = [true, false]; i = [1]; s = [{1, 2}, {}];");

    let booleans = data_file.array_1d::<bool>("b", 2).expect("booleans");
    assert_eq!(Some(&false), booleans.get([1]));
    let integers = data_file.array_1d::<i32>("i", 1).expect("integers");
    assert_eq!(Some(&1), integers.get([0]));
    let sets = data_file.array_1d::<HashSet<i32>>("s", 2).expect("sets");
    assert_eq!(Some(&HashSet::from([1, 2])), sets.get([0]));
    assert_eq!(Some(&HashSet::new()), sets.get([1]));

    assert_eq!((SyntaxElement::Value, "[1, true];".to_string()), failure("x = [1, true];"));
    assert_eq!((SyntaxElement::Value, "[true, 1];".to_string()), failure("x = [true, 1];"));
    assert_eq!((SyntaxElement::Value, "[{1}, 1];".to_string()), failure("x = [{1}, 1];"));
    assert_eq!((SyntaxElement::Value, "[[1]];".to_string()), failure("x = [[1]];"));
    assert_eq!((SyntaxElement::Value, "{true};".to_string()), failure("x = {true};"));
    assert_eq!((SyntaxElement::Value, "{{1}};".to_string()), failure("x = {{1}};"));
}

#[test]
fn array_without_elements_is_one_of_booleans() {
    for source in ["x = [];", "x = [ ];", "x=[\n]\n;"] {
        let data_file = parsed(source);

        let array = data_file.array_1d::<bool>("x", 0).expect("an array of none");
        assert_eq!(&[0], array.shape());
        assert_eq!(None, array.get([0]));
        assert!(data_file.array_1d::<i32>("x", 0).is_none());
        assert!(data_file.array_1d::<HashSet<i32>>("x", 0).is_none());
    }
}

#[test]
fn lists_need_an_element_after_each_comma() {
    assert_eq!((SyntaxElement::Value, "[1,];".to_string()), failure("x = [1,];"));
    assert_eq!((SyntaxElement::Value, "[,];".to_string()), failure("x = [,];"));
    assert_eq!((SyntaxElement::Value, "[,1];".to_string()), failure("x = [,1];"));
    assert_eq!((SyntaxElement::Value, "[1 2];".to_string()), failure("x = [1 2];"));
    assert_eq!((SyntaxElement::Value, "{1,};".to_string()), failure("x = {1,};"));
    assert_eq!((SyntaxElement::Value, "{1;".to_string()), failure("x = {1;"));
    assert_eq!((SyntaxElement::Value, "[1;".to_string()), failure("x = [1;"));
}

#[test]
fn matrix_rows_have_one_length() {
    assert_eq!(
        (SyntaxElement::Value, "[| 1,2 | 3 |];".to_string()),
        failure("m = [| 1,2 | 3 |];")
    );
    assert_eq!(
        (SyntaxElement::Value, "[| 1 | 2, 3 |];".to_string()),
        failure("m = [| 1 | 2, 3 |];")
    );
    assert_eq!(
        (SyntaxElement::Value, "[| true | false, true | true |];".to_string()),
        failure("m = [| true | false, true | true |];")
    );
}

#[test]
fn matrix_has_rows_that_each_end_with_a_bar() {
    let data_file = parsed("m = [|1|]; n = [| 1, 2 |\n];");
    assert!(data_file.array_2d::<i32>("m", [1, 1]).is_some());
    assert!(data_file.array_2d::<i32>("n", [1, 2]).is_some());

    for value in [
        "[|]",
        "[||]",
        "[| |]",
        "[| 1, 2 ]",
        "[| 1 | 2 ]",
        "[| 1 | | 2 |]",
        "[| 1, 2 | 3, |]",
        "[| 1, true |]",
        "[| 1 | true |]",
        "[| {1} |]",
        "[ | 1 |]",
        "[| 1 |",
    ] {
        let source = format!("m = {value};");
        assert_eq!((SyntaxElement::Value, format!("{value};")), failure(&source));
    }
}

#[test]
fn syntax_elements_have_names() {
    assert_eq!("identifier", SyntaxElement::Identifier.name());
    assert_eq!("value", SyntaxElement::Value.name());
    assert_eq!("=", SyntaxElement::Equals.name());
    assert_eq!(";", SyntaxElement::SemiColon.name());
}

#[test]
fn bytes_that_are_no_text_are_reported() {
    for source in [&[0xff_u8][..], &b"x = 1;\xc3"[..], &[b'x', 0x80, b'=', b'1', b';'][..]] {
        match parse::<i32>(source) {
            Err(DznParseError::InvalidEncoding(_)) => {}
            other => panic!("not an encoding error: {:?}", other.map(|_| ())),
        }
    }
}

#[test]
fn encoding_error_says_where_the_text_ends() {
    match parse::<i32>(b"x = 1;\xff") {
        Err(DznParseError::InvalidEncoding(error)) => assert_eq!(6, error.valid_up_to()),
        other => panic!("not an encoding error: {:?}", other.map(|_| ())),
    }
}

#[test]
fn characters_of_several_bytes_are_kept_whole() {
    assert_eq!(
        (SyntaxElement::Value, "\u{20ac}\u{1f600};".to_string()),
        failure("x = \u{20ac}\u{1f600};")
    );
    assert_eq!(
        (SyntaxElement::SemiColon, "\u{e9}".to_string()),
        failure("x = 1 \u{e9}")
    );
}
