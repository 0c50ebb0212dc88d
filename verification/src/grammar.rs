//! The grammar of a data file, as functions on the characters that are left to read.
//!
//! ```text
//! file        := statement*
//! statement   := ident "=" value ";"
//! ident       := (letter | "_") (letter | digit | "_")*
//! value       := bool | int | set_int | array1d | array2d
//! bool        := "true" | "false"
//! int         := digit+
//! set_int     := "{" (int ("," int)*)? "}"
//! array1d     := "[" (elem ("," elem)*)? "]"      ; elem uniform over bool|int|set_int
//! array2d     := "[|" row ("|" row)* "|" "]"      ; row: (bool|int) ("," (bool|int))*
//! ```
//!
//! Spaces, tabs, carriage returns and line feeds may stand between any two tokens. Before
//! the first statement and after the last, every character that Unicode counts as white
//! space is left out. Where several alternatives could be tried, the first that matches in
//! the order above is taken.

use crate::ast::DataFileView;
use crate::error::SyntaxElement;
use crate::numbers::Integer;
use crate::value::{ArrayModel, ArrayView, ValueView};
use vstd::prelude::*;

verus! {

/// The sets of characters that the grammar tells apart.
#[derive(Clone, Copy, Debug, PartialEq, Eq, Structural)]
pub enum CharClass {
    /// What is left out at either end of a text: a character that Unicode counts as white
    /// space.
    WhiteSpace,
    /// What may stand between two tokens: a space, a tab, a carriage return or a line
    /// feed.
    Space,
    /// A decimal digit.
    Digit,
    /// What an identifier may begin with: a letter or an underscore.
    IdentStart,
    /// What an identifier may go on with: a letter, a digit or an underscore.
    IdentRest,
}

impl CharClass {
    /// Whether `c` is in the class.
    pub open spec fn spec_contains(self, c: char) -> bool {
        match self {
            CharClass::WhiteSpace => '\u{9}' <= c <= '\u{d}' || c == ' ' || c == '\u{85}' || c
                == '\u{a0}' || c == '\u{1680}' || '\u{2000}' <= c <= '\u{200a}' || c
                == '\u{2028}' || c == '\u{2029}' || c == '\u{202f}' || c == '\u{205f}' || c
                == '\u{3000}',
            CharClass::Space => c == ' ' || c == '\t' || c == '\r' || c == '\n',
            CharClass::Digit => '0' <= c <= '9',
            CharClass::IdentStart => 'a' <= c <= 'z' || 'A' <= c <= 'Z' || c == '_',
            CharClass::IdentRest => 'a' <= c <= 'z' || 'A' <= c <= 'Z' || c == '_' || '0' <= c
                <= '9',
        }
    }

    /// Whether `c` is in the class.
    #[verifier::when_used_as_spec(spec_contains)]
    pub fn contains(self, c: char) -> (inside: bool)
        ensures
            inside == self.spec_contains(c),
    {
        match self {
            CharClass::WhiteSpace => ('\u{9}' <= c && c <= '\u{d}') || c == ' ' || c == '\u{85}'
                || c == '\u{a0}' || c == '\u{1680}' || ('\u{2000}' <= c && c <= '\u{200a}') || c
                == '\u{2028}' || c == '\u{2029}' || c == '\u{202f}' || c == '\u{205f}' || c
                == '\u{3000}',
            CharClass::Space => c == ' ' || c == '\t' || c == '\r' || c == '\n',
            CharClass::Digit => '0' <= c && c <= '9',
            CharClass::IdentStart => ('a' <= c && c <= 'z') || ('A' <= c && c <= 'Z') || c
                == '_',
            CharClass::IdentRest => ('a' <= c && c <= 'z') || ('A' <= c && c <= 'Z') || c == '_'
                || ('0' <= c && c <= '9'),
        }
    }
}

/// How many characters at the start of `input` are in `class`.
pub open spec fn leading(class: CharClass, input: Seq<char>) -> nat
    decreases input.len(),
{
    if input.len() > 0 && class.spec_contains(input[0]) {
        1 + leading(class, input.skip(1))
    } else {
        0
    }
}

/// How many characters at the end of `input` are in `class`.
pub open spec fn trailing(class: CharClass, input: Seq<char>) -> nat
    decreases input.len(),
{
    if input.len() > 0 && class.spec_contains(input.last()) {
        1 + trailing(class, input.drop_last())
    } else {
        0
    }
}

/// `input` without the white space that it starts with.
pub open spec fn skip_space(input: Seq<char>) -> Seq<char> {
    input.skip(leading(CharClass::Space, input) as int)
}

/// A run of characters of one class is no longer than the text that it starts.
pub proof fn lemma_leading_bounded(class: CharClass, input: Seq<char>)
    ensures
        leading(class, input) <= input.len(),
    decreases input.len(),
{
    if input.len() > 0 && class.spec_contains(input[0]) {
        lemma_leading_bounded(class, input.skip(1));
    }
}

/// Leaving out white space makes a text no longer.
pub proof fn lemma_skip_space_bounded(input: Seq<char>)
    ensures
        skip_space(input).len() <= input.len(),
{
    lemma_leading_bounded(CharClass::Space, input);
}

/// `input` without the white space at either end, where every character counts that
/// Unicode counts as white space.
pub open spec fn trim(input: Seq<char>) -> Seq<char> {
    let rest = input.skip(leading(CharClass::WhiteSpace, input) as int);
    rest.take(rest.len() - trailing(CharClass::WhiteSpace, rest))
}

/// Whether `input` starts with the character `c`.
pub open spec fn starts_with(input: Seq<char>, c: char) -> bool {
    input.len() > 0 && input[0] == c
}

/// What follows `word` in `input`, if `input` starts with it.
pub open spec fn after_word(input: Seq<char>, word: Seq<char>) -> Option<Seq<char>> {
    if word.is_prefix_of(input) {
        Some(input.skip(word.len() as int))
    } else {
        None
    }
}

/// An identifier and what follows it: a letter or underscore, then letters, digits and
/// underscores as far as they go.
pub open spec fn spec_identifier(input: Seq<char>) -> Option<(Seq<char>, Seq<char>)> {
    if input.len() > 0 && CharClass::IdentStart.spec_contains(input[0]) {
        let length = 1 + leading(CharClass::IdentRest, input.skip(1));
        Some((input.take(length as int), input.skip(length as int)))
    } else {
        None
    }
}

/// The number that a decimal digit stands for.
pub open spec fn digit_value(c: char) -> nat {
    (c as nat - '0' as nat) as nat
}

/// The number that a run of decimal digits stands for.
pub open spec fn decimal_value(digits: Seq<char>) -> nat
    decreases digits.len(),
{
    if digits.len() == 0 {
        0
    } else {
        decimal_value(digits.drop_last()) * 10 + digit_value(digits.last())
    }
}

/// A boolean literal and what follows it.
pub open spec fn spec_bool(input: Seq<char>) -> Option<(bool, Seq<char>)> {
    if let Some(rest) = after_word(input, "true"@) {
        Some((true, rest))
    } else if let Some(rest) = after_word(input, "false"@) {
        Some((false, rest))
    } else {
        None
    }
}

/// An integer literal and what follows it: the longest run of digits, which is not empty
/// and stands for a number that `Int` has a value for.
pub open spec fn spec_int<Int: Integer>(input: Seq<char>) -> Option<(Int, Seq<char>)> {
    let length = leading(CharClass::Digit, input);
    if length == 0 {
        None
    } else {
        match Int::of_nat(decimal_value(input.take(length as int))) {
            Some(number) => Some((number, input.skip(length as int))),
            None => None,
        }
    }
}

/// What may stand in a list: a boolean, an integer or a set of integers.
pub trait Element: Sized {
    /// What the element is in contracts.
    type Model;

    /// What the element is in contracts.
    spec fn model(&self) -> Self::Model;

    /// An element at the start of `input`, and what follows it.
    spec fn grammar(input: Seq<char>) -> Option<(Self::Model, Seq<char>)>;

    /// An element is not empty: what follows it is shorter than `input`.
    proof fn lemma_grammar_consumes(input: Seq<char>)
        ensures
            Self::grammar(input) matches Some((_, rest)) ==> rest.len() < input.len(),
    ;

    /// Reads an element at `pos`, and says where it ends.
    fn parse(chars: &[char], pos: usize) -> (found: Option<(Self, usize)>)
        requires
            pos <= chars.len(),
        ensures
            found_at(
                chars@,
                pos,
                Self::grammar(chars@.skip(pos as int)),
                match found {
                    Some((element, next)) => Some((element.model(), next)),
                    None => None,
                },
            ),
    ;
}

/// Whether `found`, the result of reading `chars` from `pos`, is what the grammar asks for:
/// the same value, and the place where the rest starts.
pub open spec fn found_at<M>(
    chars: Seq<char>,
    pos: usize,
    expected: Option<(M, Seq<char>)>,
    found: Option<(M, usize)>,
) -> bool {
    match expected {
        Some((model, rest)) => found matches Some((value, next)) && value == model && pos <= next
            <= chars.len() && chars.skip(next as int) == rest,
        None => found is None,
    }
}

/// The elements that follow the first one of a list, each after a comma, and what follows
/// them, without white space at its start. A comma that no element follows is a failure.
pub open spec fn spec_list_tail<E: Element>(input: Seq<char>) -> Option<
    (Seq<E::Model>, Seq<char>),
>
    decreases input.len(),
    via spec_list_tail_decreases::<E>
{
    let rest = skip_space(input);
    if starts_with(rest, ',') {
        match E::grammar(skip_space(rest.skip(1))) {
            Some((item, after)) => match spec_list_tail::<E>(after) {
                Some((items, end)) => Some((seq![item] + items, end)),
                None => None,
            },
            None => None,
        }
    } else {
        Some((Seq::empty(), rest))
    }
}

#[via_fn]
proof fn spec_list_tail_decreases<E: Element>(input: Seq<char>) {
    let rest = skip_space(input);
    if starts_with(rest, ',') {
        lemma_skip_space_bounded(input);
        lemma_skip_space_bounded(rest.skip(1));
        E::lemma_grammar_consumes(skip_space(rest.skip(1)));
    }
}

/// What follows the elements of a list is no longer than what they started in.
pub proof fn lemma_list_tail_bounded<E: Element>(input: Seq<char>)
    ensures
        spec_list_tail::<E>(input) matches Some((_, rest)) ==> rest.len() <= input.len(),
    decreases input.len(),
{
    let rest = skip_space(input);
    lemma_skip_space_bounded(input);
    if starts_with(rest, ',') {
        let start = skip_space(rest.skip(1));
        lemma_skip_space_bounded(rest.skip(1));
        E::lemma_grammar_consumes(start);
        if let Some((item, after)) = E::grammar(start) {
            lemma_list_tail_bounded::<E>(after);
        }
    }
}

/// A list of at least one element, separated by commas, and what follows it, without white
/// space at its start.
pub open spec fn spec_items<E: Element>(input: Seq<char>) -> Option<(Seq<E::Model>, Seq<char>)> {
    match E::grammar(input) {
        Some((item, after)) => match spec_list_tail::<E>(after) {
            Some((items, end)) => Some((seq![item] + items, end)),
            None => None,
        },
        None => None,
    }
}

/// A list of at least one element is not empty: what follows it is shorter than what it
/// started in.
pub proof fn lemma_items_bounded<E: Element>(input: Seq<char>)
    ensures
        spec_items::<E>(input) matches Some((_, rest)) ==> rest.len() < input.len(),
{
    E::lemma_grammar_consumes(input);
    if let Some((item, after)) = E::grammar(input) {
        lemma_list_tail_bounded::<E>(after);
    }
}

/// What stands between an opening bracket, which has been read, and the bracket `close`:
/// nothing, or elements separated by commas. Also gives what follows `close`.
pub open spec fn spec_list<E: Element>(input: Seq<char>, close: char) -> Option<
    (Seq<E::Model>, Seq<char>),
> {
    let rest = skip_space(input);
    if starts_with(rest, close) {
        Some((Seq::empty(), rest.skip(1)))
    } else {
        match spec_items::<E>(rest) {
            Some((items, end)) => if starts_with(end, close) {
                Some((items, end.skip(1)))
            } else {
                None
            },
            None => None,
        }
    }
}

/// A bracketed list ends with its bracket: what follows it is shorter than what it started
/// in.
pub proof fn lemma_list_bounded<E: Element>(input: Seq<char>, close: char)
    ensures
        spec_list::<E>(input, close) matches Some((_, rest)) ==> rest.len() < input.len(),
{
    lemma_skip_space_bounded(input);
    lemma_items_bounded::<E>(skip_space(input));
}

/// A set of integers and what follows it: integer literals between braces. The order and
/// the repetitions of the literals are lost.
pub open spec fn spec_set<Int: Integer>(input: Seq<char>) -> Option<(Set<Int>, Seq<char>)> {
    if starts_with(input, '{') {
        match spec_list::<Int>(input.skip(1), '}') {
            Some((items, rest)) => Some((items.to_set(), rest)),
            None => None,
        }
    } else {
        None
    }
}

/// A scalar value and what follows it: a boolean, else an integer, else a set of integers.
pub open spec fn spec_value<Int: Integer>(input: Seq<char>) -> Option<
    (ValueView<Int>, Seq<char>),
> {
    if let Some((boolean, rest)) = spec_bool(input) {
        Some((ValueView::Bool(boolean), rest))
    } else if let Some((number, rest)) = spec_int::<Int>(input) {
        Some((ValueView::Int(number), rest))
    } else if let Some((set, rest)) = spec_set::<Int>(input) {
        Some((ValueView::SetOfInt(set), rest))
    } else {
        None
    }
}

/// A one-dimensional array of elements of one kind and what follows it.
pub open spec fn spec_value_array_1d<E: Element>(input: Seq<char>) -> Option<
    (ArrayModel<E::Model>, Seq<char>),
> {
    if starts_with(input, '[') {
        match spec_list::<E>(input.skip(1), ']') {
            Some((items, rest)) => Some(
                (ArrayModel { shape: seq![items.len() as usize], elements: items }, rest),
            ),
            None => None,
        }
    } else {
        None
    }
}

/// A one-dimensional array and what follows it: all booleans, else all integers, else all
/// sets of integers. An array without elements is one of booleans.
pub open spec fn spec_array_1d<Int: Integer>(input: Seq<char>) -> Option<
    (ArrayView<Int>, Seq<char>),
> {
    if let Some((array, rest)) = spec_value_array_1d::<bool>(input) {
        Some((ArrayView::Bool(array), rest))
    } else if let Some((array, rest)) = spec_value_array_1d::<Int>(input) {
        Some((ArrayView::Int(array), rest))
    } else if let Some((array, rest)) = spec_value_array_1d::<std::collections::HashSet<Int>>(
        input,
    ) {
        Some((ArrayView::SetOfInt(array), rest))
    } else {
        None
    }
}

/// The rows of a two-dimensional array, each closed by a `|`, up to the closing `]`, and
/// what follows that bracket. Every row has at least one element.
pub open spec fn spec_rows<E: Element>(input: Seq<char>) -> Option<
    (Seq<Seq<E::Model>>, Seq<char>),
>
    decreases input.len(),
    via spec_rows_decreases::<E>
{
    match spec_items::<E>(input) {
        Some((row, end)) => if starts_with(end, '|') {
            let rest = skip_space(end.skip(1));
            if starts_with(rest, ']') {
                Some((seq![row], rest.skip(1)))
            } else {
                match spec_rows::<E>(rest) {
                    Some((rows, after)) => Some((seq![row] + rows, after)),
                    None => None,
                }
            }
        } else {
            None
        },
        None => None,
    }
}

#[via_fn]
proof fn spec_rows_decreases<E: Element>(input: Seq<char>) {
    lemma_items_bounded::<E>(input);
    if let Some((row, end)) = spec_items::<E>(input) {
        if starts_with(end, '|') {
            lemma_skip_space_bounded(end.skip(1));
        }
    }
}

/// Rows are not empty: what follows them is shorter than what they started in.
pub proof fn lemma_rows_bounded<E: Element>(input: Seq<char>)
    ensures
        spec_rows::<E>(input) matches Some((_, rest)) ==> rest.len() < input.len(),
    decreases input.len(),
{
    lemma_items_bounded::<E>(input);
    if let Some((row, end)) = spec_items::<E>(input) {
        if starts_with(end, '|') {
            let rest = skip_space(end.skip(1));
            lemma_skip_space_bounded(end.skip(1));
            if !starts_with(rest, ']') {
                lemma_rows_bounded::<E>(rest);
            }
        }
    }
}

/// Whether all rows are as long as the first.
pub open spec fn rectangular<M>(rows: Seq<Seq<M>>) -> bool {
    forall|i: int| 0 <= i < rows.len() ==> (#[trigger] rows[i]).len() == rows[0].len()
}

/// A two-dimensional array of elements of one kind and what follows it: rows of equal
/// length between `[|` and `|]`. The elements are kept row by row.
pub open spec fn spec_value_array_2d<E: Element>(input: Seq<char>) -> Option<
    (ArrayModel<E::Model>, Seq<char>),
> {
    match after_word(input, "[|"@) {
        Some(inside) => match spec_rows::<E>(skip_space(inside)) {
            Some((rows, rest)) => if rectangular(rows) {
                Some(
                    (
                        ArrayModel {
                            shape: seq![rows.len() as usize, rows[0].len() as usize],
                            elements: rows.flatten(),
                        },
                        rest,
                    ),
                )
            } else {
                None
            },
            None => None,
        },
        None => None,
    }
}

/// A two-dimensional array and what follows it: all booleans, else all integers.
pub open spec fn spec_array_2d<Int: Integer>(input: Seq<char>) -> Option<
    (ArrayView<Int>, Seq<char>),
> {
    if let Some((array, rest)) = spec_value_array_2d::<bool>(input) {
        Some((ArrayView::Bool(array), rest))
    } else if let Some((array, rest)) = spec_value_array_2d::<Int>(input) {
        Some((ArrayView::Int(array), rest))
    } else {
        None
    }
}

/// What a statement binds to its identifier.
#[verifier::reject_recursive_types(Int)]
pub enum Payload<Int> {
    Value(ValueView<Int>),
    Array1d(ArrayView<Int>),
    Array2d(ArrayView<Int>),
}

impl<Int> Payload<Int> {
    /// An array has as many elements as its shape has places, and the rank of its arity.
    pub open spec fn well_formed(self) -> bool {
        match self {
            Payload::Value(_) => true,
            Payload::Array1d(array) => array.well_formed() && array.shape().len() == 1,
            Payload::Array2d(array) => array.well_formed() && array.shape().len() == 2,
        }
    }
}

/// A value or an array and what follows it: a scalar value, else a one-dimensional array,
/// else a two-dimensional array.
pub open spec fn spec_value_or_array<Int: Integer>(input: Seq<char>) -> Option<
    (Payload<Int>, Seq<char>),
> {
    if let Some((value, rest)) = spec_value::<Int>(input) {
        Some((Payload::Value(value), rest))
    } else if let Some((array, rest)) = spec_array_1d::<Int>(input) {
        Some((Payload::Array1d(array), rest))
    } else if let Some((array, rest)) = spec_array_2d::<Int>(input) {
        Some((Payload::Array2d(array), rest))
    } else {
        None
    }
}

/// A value or an array is not empty: what follows it is shorter than what it started in.
pub proof fn lemma_value_or_array_bounded<Int: Integer>(input: Seq<char>)
    ensures
        spec_value_or_array::<Int>(input) matches Some((_, rest)) ==> rest.len() < input.len(),
{
    <bool as Element>::lemma_grammar_consumes(input);
    <Int as Element>::lemma_grammar_consumes(input);
    <std::collections::HashSet<Int> as Element>::lemma_grammar_consumes(input);
    if starts_with(input, '[') {
        lemma_list_bounded::<bool>(input.skip(1), ']');
        lemma_list_bounded::<Int>(input.skip(1), ']');
        lemma_list_bounded::<std::collections::HashSet<Int>>(input.skip(1), ']');
    }
    if let Some(inside) = after_word(input, "[|"@) {
        lemma_skip_space_bounded(inside);
        lemma_rows_bounded::<bool>(skip_space(inside));
        lemma_rows_bounded::<Int>(skip_space(inside));
    }
}

/// Why a text is no data file: the element that was looked for, and the text that stood
/// there instead, up to the end of the trimmed input.
pub struct SyntaxFailure {
    pub expected: SyntaxElement,
    pub actual: Seq<char>,
}

/// A statement and what follows it, without white space at its start.
pub open spec fn spec_statement<Int: Integer>(input: Seq<char>) -> Result<
    ((Seq<char>, Payload<Int>), Seq<char>),
    SyntaxFailure,
> {
    let at_name = skip_space(input);
    match spec_identifier(at_name) {
        None => Err(SyntaxFailure { expected: SyntaxElement::Identifier, actual: at_name }),
        Some((name, after_name)) => {
            let at_equals = skip_space(after_name);
            if !starts_with(at_equals, '=') {
                Err(SyntaxFailure { expected: SyntaxElement::Equals, actual: at_equals })
            } else {
                let at_value = skip_space(at_equals.skip(1));
                match spec_value_or_array::<Int>(at_value) {
                    None => Err(
                        SyntaxFailure { expected: SyntaxElement::Value, actual: at_value },
                    ),
                    Some((payload, after_value)) => {
                        let at_end = skip_space(after_value);
                        if !starts_with(at_end, ';') {
                            Err(
                                SyntaxFailure {
                                    expected: SyntaxElement::SemiColon,
                                    actual: at_end,
                                },
                            )
                        } else {
                            Ok(((name, payload), skip_space(at_end.skip(1))))
                        }
                    },
                }
            }
        },
    }
}

/// `store` with `payload` bound to `name`, in the mapping of the payload's arity. What was
/// bound to `name` there before is lost.
pub open spec fn bind<Int>(store: DataFileView<Int>, name: Seq<char>, payload: Payload<Int>)
    -> DataFileView<Int> {
    match payload {
        Payload::Value(value) => DataFileView { values: store.values.insert(name, value), ..store },
        Payload::Array1d(array) => DataFileView {
            arrays_1d: store.arrays_1d.insert(name, array),
            ..store
        },
        Payload::Array2d(array) => DataFileView {
            arrays_2d: store.arrays_2d.insert(name, array),
            ..store
        },
    }
}

/// A statement is not empty: what follows it is shorter than what it started in.
pub proof fn lemma_statement_bounded<Int: Integer>(input: Seq<char>)
    ensures
        spec_statement::<Int>(input) matches Ok((_, rest)) ==> rest.len() < input.len(),
{
    let at_name = skip_space(input);
    lemma_skip_space_bounded(input);
    if let Some((name, after_name)) = spec_identifier(at_name) {
        lemma_leading_bounded(CharClass::IdentRest, at_name.skip(1));
        let at_equals = skip_space(after_name);
        lemma_skip_space_bounded(after_name);
        if starts_with(at_equals, '=') {
            let at_value = skip_space(at_equals.skip(1));
            lemma_skip_space_bounded(at_equals.skip(1));
            lemma_value_or_array_bounded::<Int>(at_value);
            if let Some((payload, after_value)) = spec_value_or_array::<Int>(at_value) {
                let at_end = skip_space(after_value);
                lemma_skip_space_bounded(after_value);
                if starts_with(at_end, ';') {
                    lemma_skip_space_bounded(at_end.skip(1));
                }
            }
        }
    }
}

/// The store that results from reading the statements of `input` one after the other into
/// `store`, or the first failure.
pub open spec fn spec_statements<Int: Integer>(store: DataFileView<Int>, input: Seq<char>)
    -> Result<DataFileView<Int>, SyntaxFailure>
    decreases input.len(),
    via spec_statements_decreases::<Int>
{
    if input.len() == 0 {
        Ok(store)
    } else {
        match spec_statement::<Int>(input) {
            Ok(((name, payload), rest)) => spec_statements::<Int>(
                bind(store, name, payload),
                rest,
            ),
            Err(failure) => Err(failure),
        }
    }
}

#[via_fn]
proof fn spec_statements_decreases<Int: Integer>(store: DataFileView<Int>, input: Seq<char>) {
    lemma_statement_bounded::<Int>(input);
}

/// The data file that a text stands for, or why it stands for none.
pub open spec fn spec_parse<Int: Integer>(text: Seq<char>) -> Result<
    DataFileView<Int>,
    SyntaxFailure,
> {
    spec_statements::<Int>(DataFileView::empty(), trim(text))
}

} // verus!
