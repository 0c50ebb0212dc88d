//! How the values of a data file are written, and that what is written is read back.
//!
//! A text writes a value where the grammar reads it as that value whatever comes after
//! it. Lists, sets and arrays are written from the texts of their elements, with the same
//! white space wherever the grammar leaves room for some.

use crate::ast::DataFileView;
use crate::grammar::{
    bind, rectangular, skip_space, spec_array_1d, spec_items, spec_list, spec_list_tail,
    spec_parse, spec_rows, spec_statement, spec_statements, spec_value, spec_value_array_1d,
    spec_value_array_2d, spec_value_or_array, starts_with, CharClass, Element, Payload,
    SyntaxFailure,
};
use crate::laws::{
    all_in, decimal_digits, is_identifier, lemma_decimal_digits, lemma_identifier_before,
    lemma_int_before, lemma_skip_space_before, lemma_trim_ignores_outer_space,
    lemma_trim_tight,
};
use crate::numbers::Integer;
use crate::value::{ArrayModel, ArrayView, ValueView};
use std::collections::HashSet;
use vstd::prelude::*;

verus! {

/// Whether `c` is one of the characters that end a value: white space, a comma, a closing
/// bracket or brace, a bar or a semicolon.
pub open spec fn ends_value(c: char) -> bool {
    CharClass::Space.spec_contains(c) || c == ',' || c == ']' || c == '}' || c == '|' || c
        == ';'
}

/// Whether `rest` may come after a value: it is empty, or starts with a character that
/// ends a value.
pub open spec fn may_follow(rest: Seq<char>) -> bool {
    rest.len() == 0 || ends_value(rest[0])
}

/// Whether `text` is a way to write the element `model`: it starts with a character of
/// its own, and is read as `model` whatever may follow it.
pub open spec fn writes<E: Element>(text: Seq<char>, model: E::Model) -> bool {
    &&& !may_follow(text)
    &&& forall|rest: Seq<char>|
        may_follow(rest) ==> #[trigger] E::grammar(text + rest) == Some((model, rest))
}

/// The literal of a boolean.
pub open spec fn bool_text(boolean: bool) -> Seq<char> {
    if boolean {
        "true"@
    } else {
        "false"@
    }
}

/// The literal of a boolean writes it.
pub proof fn lemma_bool_is_written(boolean: bool)
    ensures
        writes::<bool>(bool_text(boolean), boolean),
{
    reveal_strlit("true");
    reveal_strlit("false");
    let text = bool_text(boolean);
    assert forall|rest: Seq<char>| may_follow(rest) implies #[trigger] <bool as Element>::grammar(
        text + rest,
    ) == Some((boolean, rest)) by {
        let input = text + rest;
        assert(input.subrange(0, text.len() as int) =~= text);
        assert(input.skip(text.len() as int) =~= rest);
        if !boolean {
            if "true"@.is_prefix_of(input) {
                assert(input.subrange(0, 4)[0] == 't');
            }
        }
    }
}

/// The digits of a number that the integer type can hold write its value.
pub proof fn lemma_int_is_written<Int: Integer>(n: nat)
    requires
        Int::of_nat(n) is Some,
    ensures
        writes::<Int>(decimal_digits(n), Int::of_nat(n)->0),
{
    lemma_decimal_digits(n);
    let text = decimal_digits(n);
    assert forall|rest: Seq<char>| may_follow(rest) implies #[trigger] <Int as Element>::grammar(
        text + rest,
    ) == Some((Int::of_nat(n)->0, rest)) by {
        lemma_int_before::<Int>(n, rest);
    }
}

/// The texts one after the other, each followed by `space`, with a comma and `space`
/// between any two, and `after` behind the last.
pub open spec fn listed(texts: Seq<Seq<char>>, space: Seq<char>, after: Seq<char>) -> Seq<char>
    decreases texts.len(),
{
    if texts.len() == 0 {
        after
    } else {
        texts[0] + (space + (if texts.len() == 1 {
            after
        } else {
            seq![','] + (space + listed(texts.skip(1), space, after))
        }))
    }
}

/// Whether each text writes the model at its place.
pub open spec fn all_write<E: Element>(texts: Seq<Seq<char>>, models: Seq<E::Model>) -> bool {
    &&& texts.len() == models.len()
    &&& forall|i: int| 0 <= i < texts.len() ==> writes::<E>(#[trigger] texts[i], models[i])
}

/// What holds of each text and its model holds of those after the first.
pub proof fn lemma_all_write_skip<E: Element>(texts: Seq<Seq<char>>, models: Seq<E::Model>)
    requires
        all_write::<E>(texts, models),
        texts.len() > 0,
    ensures
        all_write::<E>(texts.skip(1), models.skip(1)),
        writes::<E>(texts[0], models[0]),
{
    assert forall|i: int| 0 <= i < texts.skip(1).len() implies writes::<E>(
        #[trigger] texts.skip(1)[i],
        models.skip(1)[i],
    ) by {
        assert(texts.skip(1)[i] == texts[i + 1]);
        assert(models.skip(1)[i] == models[i + 1]);
    }
}

/// A list of written elements is read as their models, up to what comes after it, where
/// that is neither white space nor a comma.
pub proof fn lemma_items_are_read<E: Element>(
    texts: Seq<Seq<char>>,
    models: Seq<E::Model>,
    space: Seq<char>,
    after: Seq<char>,
)
    requires
        all_write::<E>(texts, models),
        texts.len() > 0,
        all_in(CharClass::Space, space),
        after.len() > 0,
        ends_value(after[0]),
        !CharClass::Space.spec_contains(after[0]),
        after[0] != ',',
    ensures
        spec_items::<E>(listed(texts, space, after)) == Some((models, after)),
    decreases texts.len(),
{
    lemma_all_write_skip::<E>(texts, models);
    let rest = texts.skip(1);
    let next = if texts.len() == 1 {
        after
    } else {
        seq![','] + (space + listed(rest, space, after))
    };
    let behind = space + next;
    assert(listed(texts, space, after) == texts[0] + behind);
    assert(behind[0] == if space.len() > 0 {
        space[0]
    } else {
        next[0]
    });
    assert(may_follow(behind));
    assert(E::grammar(texts[0] + behind) == Some((models[0], behind)));
    lemma_skip_space_before(space, next);
    if texts.len() == 1 {
        assert(spec_list_tail::<E>(behind) == Some((Seq::<E::Model>::empty(), after)));
        assert(seq![models[0]] + Seq::<E::Model>::empty() =~= models);
    } else {
        let more = listed(rest, space, after);
        assert(next.skip(1) =~= space + more);
        assert(more == rest[0] + (space + (if rest.len() == 1 {
            after
        } else {
            seq![','] + (space + listed(rest.skip(1), space, after))
        })));
        assert(more[0] == rest[0][0]);
        lemma_skip_space_before(space, more);
        lemma_items_are_read::<E>(rest, models.skip(1), space, after);
        assert(seq![models[0]] + models.skip(1) =~= models);
        assert(spec_list_tail::<E>(behind) == spec_items::<E>(more));
    }
}

/// What stands between brackets is read as the models of the written elements, and the
/// closing bracket ends it. Nothing between the brackets is read as no element.
pub proof fn lemma_list_is_read<E: Element>(
    texts: Seq<Seq<char>>,
    models: Seq<E::Model>,
    space: Seq<char>,
    close: char,
    after: Seq<char>,
)
    requires
        all_write::<E>(texts, models),
        all_in(CharClass::Space, space),
        close == ']' || close == '}',
    ensures
        spec_list::<E>(space + listed(texts, space, seq![close] + after), close) == Some(
            (models, after),
        ),
{
    let end = seq![close] + after;
    let inside = listed(texts, space, end);
    assert(end.skip(1) =~= after);
    if texts.len() == 0 {
        lemma_skip_space_before(space, inside);
        assert(models =~= Seq::<E::Model>::empty());
    } else {
        assert(inside[0] == texts[0][0]);
        lemma_skip_space_before(space, inside);
        lemma_items_are_read::<E>(texts, models, space, end);
    }
}

/// What comes behind a list comes behind what is after its last text.
pub proof fn lemma_listed_append(
    texts: Seq<Seq<char>>,
    space: Seq<char>,
    after: Seq<char>,
    behind: Seq<char>,
)
    ensures
        listed(texts, space, after) + behind == listed(texts, space, after + behind),
    decreases texts.len(),
{
    if texts.len() > 0 {
        if texts.len() > 1 {
            lemma_listed_append(texts.skip(1), space, after, behind);
        }
        let next = if texts.len() == 1 {
            after
        } else {
            seq![','] + (space + listed(texts.skip(1), space, after))
        };
        let longer = if texts.len() == 1 {
            after + behind
        } else {
            seq![','] + (space + listed(texts.skip(1), space, after + behind))
        };
        assert(next + behind =~= longer);
        assert((texts[0] + (space + next)) + behind =~= texts[0] + (space + (next + behind)));
    }
}

/// A written boolean starts with `t` or `f`, a written integer with a digit, a written set
/// with a brace.
pub proof fn lemma_first_character<Int: Integer>(text: Seq<char>)
    ensures
        (exists|model: bool| writes::<bool>(text, model)) ==> text[0] == 't' || text[0] == 'f',
        (exists|model: Int| writes::<Int>(text, model)) ==> CharClass::Digit.spec_contains(
            text[0],
        ),
        (exists|model: Set<Int>| writes::<HashSet<Int>>(text, model)) ==> text[0] == '{',
{
    let none = Seq::<char>::empty();
    assert(text + none =~= text);
    if exists|model: bool| writes::<bool>(text, model) {
        let model = choose|model: bool| writes::<bool>(text, model);
        assert(<bool as Element>::grammar(text + none) == Some((model, none)));
        reveal_strlit("true");
        reveal_strlit("false");
        if "true"@.is_prefix_of(text) {
            assert(text.subrange(0, 4)[0] == 't');
        } else {
            assert(text.subrange(0, 5)[0] == 'f');
        }
    }
    if exists|model: Int| writes::<Int>(text, model) {
        let model = choose|model: Int| writes::<Int>(text, model);
        assert(<Int as Element>::grammar(text + none) == Some((model, none)));
    }
    if exists|model: Set<Int>| writes::<HashSet<Int>>(text, model) {
        let model = choose|model: Set<Int>| writes::<HashSet<Int>>(text, model);
        assert(<HashSet<Int> as Element>::grammar(text + none) == Some((model, none)));
    }
}

/// The texts of the members between braces, with `after` behind the closing brace.
pub open spec fn set_text(texts: Seq<Seq<char>>, space: Seq<char>, after: Seq<char>) -> Seq<
    char,
> {
    seq!['{'] + (space + listed(texts, space, seq!['}'] + after))
}

/// Written integers between braces write the set of them.
pub proof fn lemma_set_is_written<Int: Integer>(
    texts: Seq<Seq<char>>,
    members: Seq<Int>,
    space: Seq<char>,
)
    requires
        all_write::<Int>(texts, members),
        all_in(CharClass::Space, space),
    ensures
        writes::<HashSet<Int>>(set_text(texts, space, Seq::empty()), members.to_set()),
{
    let text = set_text(texts, space, Seq::empty());
    assert(text[0] == '{');
    assert forall|rest: Seq<char>| may_follow(rest) implies #[trigger] <HashSet<
        Int,
    > as Element>::grammar(text + rest) == Some((members.to_set(), rest)) by {
        lemma_listed_append(texts, space, seq!['}'], rest);
        assert(seq!['}'] + Seq::<char>::empty() =~= seq!['}']);
        assert(text + rest =~= set_text(texts, space, rest));
        assert(set_text(texts, space, rest).skip(1) =~= space + listed(
            texts,
            space,
            seq!['}'] + rest,
        ));
        lemma_list_is_read::<Int>(texts, members, space, '}', rest);
    }
}

/// The texts of the elements between brackets, with `after` behind the closing bracket.
pub open spec fn array_text(texts: Seq<Seq<char>>, space: Seq<char>, after: Seq<char>) -> Seq<
    char,
> {
    seq!['['] + (space + listed(texts, space, seq![']'] + after))
}

/// Written elements between brackets are read as the array of their models.
pub proof fn lemma_value_array_1d_is_read<E: Element>(
    texts: Seq<Seq<char>>,
    models: Seq<E::Model>,
    space: Seq<char>,
    after: Seq<char>,
)
    requires
        all_write::<E>(texts, models),
        all_in(CharClass::Space, space),
    ensures
        spec_value_array_1d::<E>(array_text(texts, space, after)) == Some(
            (ArrayModel { shape: seq![models.len() as usize], elements: models }, after),
        ),
{
    assert(array_text(texts, space, after).skip(1) =~= space + listed(
        texts,
        space,
        seq![']'] + after,
    ));
    lemma_list_is_read::<E>(texts, models, space, ']', after);
}

/// The rows one after the other, each written as a list and closed by a bar, with the
/// closing bracket and `after` behind the last bar.
pub open spec fn rows_text(rows: Seq<Seq<Seq<char>>>, space: Seq<char>, after: Seq<char>) -> Seq<
    char,
>
    decreases rows.len(),
{
    if rows.len() == 0 {
        after
    } else {
        listed(
            rows[0],
            space,
            seq!['|'] + (space + (if rows.len() == 1 {
                seq![']'] + after
            } else {
                rows_text(rows.skip(1), space, after)
            })),
        )
    }
}

/// Whether each row has at least one text, and each text writes the model at its place.
pub open spec fn all_rows_write<E: Element>(
    rows: Seq<Seq<Seq<char>>>,
    models: Seq<Seq<E::Model>>,
) -> bool {
    &&& rows.len() == models.len()
    &&& forall|i: int|
        0 <= i < rows.len() ==> (#[trigger] rows[i]).len() > 0 && all_write::<E>(
            rows[i],
            models[i],
        )
}

/// Written rows are read as the rows of their models, up to what comes after the closing
/// bracket.
pub proof fn lemma_rows_are_read<E: Element>(
    rows: Seq<Seq<Seq<char>>>,
    models: Seq<Seq<E::Model>>,
    space: Seq<char>,
    after: Seq<char>,
)
    requires
        all_rows_write::<E>(rows, models),
        rows.len() > 0,
        all_in(CharClass::Space, space),
    ensures
        spec_rows::<E>(rows_text(rows, space, after)) == Some((models, after)),
        rows_text(rows, space, after).len() > 0,
        rows_text(rows, space, after)[0] == rows[0][0][0],
    decreases rows.len(),
{
    let rest = rows.skip(1);
    let next = if rows.len() == 1 {
        seq![']'] + after
    } else {
        rows_text(rest, space, after)
    };
    let bar = seq!['|'] + (space + next);
    let text = rows_text(rows, space, after);
    assert(text == listed(rows[0], space, bar));
    assert(text == rows[0][0] + (space + (if rows[0].len() == 1 {
        bar
    } else {
        seq![','] + (space + listed(rows[0].skip(1), space, bar))
    })));
    assert(writes::<E>(rows[0][0], models[0][0]));
    assert(text[0] == rows[0][0][0]);
    lemma_items_are_read::<E>(rows[0], models[0], space, bar);
    assert(bar.skip(1) =~= space + next);
    if rows.len() == 1 {
        lemma_skip_space_before(space, next);
        assert(next.skip(1) =~= after);
        assert(seq![models[0]] =~= models);
    } else {
        assert forall|i: int| 0 <= i < rest.len() implies (#[trigger] rest[i]).len() > 0
            && all_write::<E>(rest[i], models.skip(1)[i]) by {
            assert(rest[i] == rows[i + 1]);
            assert(models.skip(1)[i] == models[i + 1]);
        }
        lemma_rows_are_read::<E>(rest, models.skip(1), space, after);
        assert(rest[0] == rows[1]);
        assert(writes::<E>(rest[0][0], models[1][0]));
        lemma_skip_space_before(space, next);
        assert(seq![models[0]] + models.skip(1) =~= models);
    }
}

/// The rows between `[|` and the closing bracket, with `after` behind it.
pub open spec fn matrix_text(rows: Seq<Seq<Seq<char>>>, space: Seq<char>, after: Seq<char>)
    -> Seq<char> {
    seq!['[', '|'] + (space + rows_text(rows, space, after))
}

/// Written rows of one length between `[|` and `|]` are read as the array of their models,
/// row by row.
pub proof fn lemma_value_array_2d_is_read<E: Element>(
    rows: Seq<Seq<Seq<char>>>,
    models: Seq<Seq<E::Model>>,
    space: Seq<char>,
    after: Seq<char>,
)
    requires
        all_rows_write::<E>(rows, models),
        rows.len() > 0,
        rectangular(models),
        all_in(CharClass::Space, space),
    ensures
        spec_value_array_2d::<E>(matrix_text(rows, space, after)) == Some(
            (
                ArrayModel {
                    shape: seq![models.len() as usize, models[0].len() as usize],
                    elements: models.flatten(),
                },
                after,
            ),
        ),
{
    reveal_strlit("[|");
    let text = matrix_text(rows, space, after);
    let inside = space + rows_text(rows, space, after);
    assert("[|"@ =~= seq!['[', '|']);
    assert(text.subrange(0, 2) =~= seq!['[', '|']);
    assert(text.skip(2) =~= inside);
    lemma_rows_are_read::<E>(rows, models, space, after);
    assert(writes::<E>(rows[0][0], models[0][0]));
    lemma_skip_space_before(space, rows_text(rows, space, after));
}

/// What comes behind rows comes behind their closing bracket.
pub proof fn lemma_rows_text_append(
    rows: Seq<Seq<Seq<char>>>,
    space: Seq<char>,
    after: Seq<char>,
    behind: Seq<char>,
)
    ensures
        rows_text(rows, space, after) + behind == rows_text(rows, space, after + behind),
    decreases rows.len(),
{
    if rows.len() > 0 {
        if rows.len() > 1 {
            lemma_rows_text_append(rows.skip(1), space, after, behind);
        }
        let next = if rows.len() == 1 {
            seq![']'] + after
        } else {
            rows_text(rows.skip(1), space, after)
        };
        let longer = if rows.len() == 1 {
            seq![']'] + (after + behind)
        } else {
            rows_text(rows.skip(1), space, after + behind)
        };
        assert(next + behind =~= longer);
        assert((seq!['|'] + (space + next)) + behind =~= seq!['|'] + (space + longer));
        lemma_listed_append(rows[0], space, seq!['|'] + (space + next), behind);
    }
}

/// Whether `text` is a way to write what a statement binds: it starts with a character of
/// its own, and is read as `payload` whatever may follow it.
pub open spec fn writes_payload<Int: Integer>(text: Seq<char>, payload: Payload<Int>) -> bool {
    &&& !may_follow(text)
    &&& forall|rest: Seq<char>|
        may_follow(rest) ==> #[trigger] spec_value_or_array::<Int>(text + rest) == Some(
            (payload, rest),
        )
}

/// A written boolean, integer or set of integers writes the value of its kind.
pub proof fn lemma_value_is_written<Int: Integer>(text: Seq<char>)
    ensures
        forall|model: bool|
            writes::<bool>(text, model) ==> writes_payload::<Int>(
                text,
                Payload::Value(ValueView::Bool(model)),
            ),
        forall|model: Int|
            writes::<Int>(text, model) ==> writes_payload::<Int>(
                text,
                Payload::Value(ValueView::Int(model)),
            ),
        forall|model: Set<Int>|
            writes::<HashSet<Int>>(text, model) ==> writes_payload::<Int>(
                text,
                Payload::Value(ValueView::SetOfInt(model)),
            ),
{
    lemma_first_character::<Int>(text);
    reveal_strlit("true");
    reveal_strlit("false");
    assert forall|model: bool| writes::<bool>(text, model) implies writes_payload::<Int>(
        text,
        Payload::Value(ValueView::Bool(model)),
    ) by {
        assert forall|rest: Seq<char>| may_follow(rest) implies #[trigger] spec_value_or_array::<
            Int,
        >(text + rest) == Some((Payload::<Int>::Value(ValueView::Bool(model)), rest)) by {
            assert(<bool as Element>::grammar(text + rest) == Some((model, rest)));
        }
    }
    assert forall|model: Int| writes::<Int>(text, model) implies writes_payload::<Int>(
        text,
        Payload::Value(ValueView::Int(model)),
    ) by {
        assert forall|rest: Seq<char>| may_follow(rest) implies #[trigger] spec_value_or_array::<
            Int,
        >(text + rest) == Some((Payload::Value(ValueView::Int(model)), rest)) by {
            let input = text + rest;
            assert(<Int as Element>::grammar(input) == Some((model, rest)));
            assert(input[0] == text[0]);
            if "true"@.is_prefix_of(input) {
                assert(input.subrange(0, 4)[0] == 't');
            }
            if "false"@.is_prefix_of(input) {
                assert(input.subrange(0, 5)[0] == 'f');
            }
        }
    }
    assert forall|model: Set<Int>| writes::<HashSet<Int>>(text, model) implies writes_payload::<
        Int,
    >(text, Payload::Value(ValueView::SetOfInt(model))) by {
        assert forall|rest: Seq<char>| may_follow(rest) implies #[trigger] spec_value_or_array::<
            Int,
        >(text + rest) == Some((Payload::Value(ValueView::SetOfInt(model)), rest)) by {
            let input = text + rest;
            assert(<HashSet<Int> as Element>::grammar(input) == Some((model, rest)));
            assert(input[0] == text[0]);
            if "true"@.is_prefix_of(input) {
                assert(input.subrange(0, 4)[0] == 't');
            }
            if "false"@.is_prefix_of(input) {
                assert(input.subrange(0, 5)[0] == 'f');
            }
        }
    }
}

/// What starts with a bracket is no boolean, no integer and no set.
proof fn lemma_bracket_starts_no_value<Int: Integer>(input: Seq<char>)
    requires
        starts_with(input, '['),
    ensures
        spec_value::<Int>(input) is None,
{
    reveal_strlit("true");
    reveal_strlit("false");
    if "true"@.is_prefix_of(input) {
        assert(input.subrange(0, 4)[0] == 't');
    }
    if "false"@.is_prefix_of(input) {
        assert(input.subrange(0, 5)[0] == 'f');
    }
}

/// What does not start as an element of kind `E` starts no list of such elements but the
/// empty one.
proof fn lemma_no_first_element<E: Element>(input: Seq<char>, space: Seq<char>, close: char)
    requires
        all_in(CharClass::Space, space),
        input.len() > 0,
        !CharClass::Space.spec_contains(input[0]),
        input[0] != close,
        E::grammar(input) is None,
    ensures
        spec_list::<E>(space + input, close) is None,
        spec_rows::<E>(input) is None,
{
    lemma_skip_space_before(space, input);
}

/// The one-dimensional array of the booleans.
pub open spec fn bool_array<Int>(models: Seq<bool>) -> Payload<Int> {
    Payload::Array1d(
        ArrayView::Bool(ArrayModel { shape: seq![models.len() as usize], elements: models }),
    )
}

/// The one-dimensional array of the integers.
pub open spec fn int_array<Int>(models: Seq<Int>) -> Payload<Int> {
    Payload::Array1d(
        ArrayView::Int(ArrayModel { shape: seq![models.len() as usize], elements: models }),
    )
}

/// The one-dimensional array of the sets.
pub open spec fn set_array<Int>(models: Seq<Set<Int>>) -> Payload<Int> {
    Payload::Array1d(
        ArrayView::SetOfInt(ArrayModel { shape: seq![models.len() as usize], elements: models }),
    )
}

/// Written booleans between brackets are read as their array, which is tried first.
proof fn lemma_bool_array_is_read<Int: Integer>(
    texts: Seq<Seq<char>>,
    models: Seq<bool>,
    space: Seq<char>,
    rest: Seq<char>,
)
    requires
        all_in(CharClass::Space, space),
        all_write::<bool>(texts, models),
    ensures
        spec_value_or_array::<Int>(array_text(texts, space, rest)) == Some(
            (bool_array::<Int>(models), rest),
        ),
{
    lemma_bracket_starts_no_value::<Int>(array_text(texts, space, rest));
    lemma_value_array_1d_is_read::<bool>(texts, models, space, rest);
}

/// Written integers between brackets are read as their array.
proof fn lemma_int_array_is_read<Int: Integer>(
    texts: Seq<Seq<char>>,
    models: Seq<Int>,
    space: Seq<char>,
    rest: Seq<char>,
)
    requires
        all_in(CharClass::Space, space),
        all_write::<Int>(texts, models),
        texts.len() > 0,
    ensures
        spec_value_or_array::<Int>(array_text(texts, space, rest)) == Some(
            (int_array::<Int>(models), rest),
        ),
{
    let whole = array_text(texts, space, rest);
    let inside = listed(texts, space, seq![']'] + rest);
    lemma_bracket_starts_no_value::<Int>(whole);
    assert(writes::<Int>(texts[0], models[0]));
    lemma_first_character::<Int>(texts[0]);
    assert(inside[0] == texts[0][0]);
    assert(whole.skip(1) =~= space + inside);
    reveal_strlit("true");
    reveal_strlit("false");
    if "true"@.is_prefix_of(inside) {
        assert(inside.subrange(0, 4)[0] == 't');
    }
    if "false"@.is_prefix_of(inside) {
        assert(inside.subrange(0, 5)[0] == 'f');
    }
    lemma_no_first_element::<bool>(inside, space, ']');
    lemma_value_array_1d_is_read::<Int>(texts, models, space, rest);
}

/// Written sets between brackets are read as their array.
proof fn lemma_set_array_is_read<Int: Integer>(
    texts: Seq<Seq<char>>,
    models: Seq<Set<Int>>,
    space: Seq<char>,
    rest: Seq<char>,
)
    requires
        all_in(CharClass::Space, space),
        all_write::<HashSet<Int>>(texts, models),
        texts.len() > 0,
    ensures
        spec_value_or_array::<Int>(array_text(texts, space, rest)) == Some(
            (set_array::<Int>(models), rest),
        ),
{
    let whole = array_text(texts, space, rest);
    let inside = listed(texts, space, seq![']'] + rest);
    lemma_bracket_starts_no_value::<Int>(whole);
    assert(writes::<HashSet<Int>>(texts[0], models[0]));
    lemma_first_character::<Int>(texts[0]);
    assert(inside[0] == texts[0][0]);
    assert(whole.skip(1) =~= space + inside);
    reveal_strlit("true");
    reveal_strlit("false");
    if "true"@.is_prefix_of(inside) {
        assert(inside.subrange(0, 4)[0] == 't');
    }
    if "false"@.is_prefix_of(inside) {
        assert(inside.subrange(0, 5)[0] == 'f');
    }
    lemma_no_first_element::<bool>(inside, space, ']');
    lemma_no_first_element::<Int>(inside, space, ']');
    lemma_value_array_1d_is_read::<HashSet<Int>>(texts, models, space, rest);
}

/// Written elements between brackets write the one-dimensional array of their kind.
/// Nothing between the brackets writes the array of no booleans: an array of no integers
/// or of no sets cannot be written.
pub proof fn lemma_array_1d_is_written<Int: Integer>(texts: Seq<Seq<char>>, space: Seq<char>)
    requires
        all_in(CharClass::Space, space),
    ensures
        forall|models: Seq<bool>|
            all_write::<bool>(texts, models) ==> writes_payload::<Int>(
                array_text(texts, space, Seq::empty()),
                #[trigger] bool_array::<Int>(models),
            ),
        forall|models: Seq<Int>|
            texts.len() > 0 && all_write::<Int>(texts, models) ==> writes_payload::<Int>(
                array_text(texts, space, Seq::empty()),
                #[trigger] int_array::<Int>(models),
            ),
        forall|models: Seq<Set<Int>>|
            texts.len() > 0 && all_write::<HashSet<Int>>(texts, models) ==> writes_payload::<
                Int,
            >(array_text(texts, space, Seq::empty()), #[trigger] set_array::<Int>(models)),
{
    let text = array_text(texts, space, Seq::empty());
    assert(text[0] == '[');
    assert forall|rest: Seq<char>| #[trigger] may_follow(rest) implies text + rest == array_text(
        texts,
        space,
        rest,
    ) by {
        lemma_listed_append(texts, space, seq![']'], rest);
        assert(seq![']'] + Seq::<char>::empty() =~= seq![']']);
        assert(text + rest =~= array_text(texts, space, rest));
    }
    assert forall|models: Seq<bool>| all_write::<bool>(texts, models) implies writes_payload::<
        Int,
    >(text, #[trigger] bool_array::<Int>(models)) by {
        assert forall|rest: Seq<char>| may_follow(rest) implies #[trigger] spec_value_or_array::<
            Int,
        >(text + rest) == Some((bool_array::<Int>(models), rest)) by {
            lemma_bool_array_is_read::<Int>(texts, models, space, rest);
        }
    }
    assert forall|models: Seq<Int>|
        texts.len() > 0 && all_write::<Int>(texts, models) implies writes_payload::<Int>(
        text,
        #[trigger] int_array::<Int>(models),
    ) by {
        assert forall|rest: Seq<char>| may_follow(rest) implies #[trigger] spec_value_or_array::<
            Int,
        >(text + rest) == Some((int_array::<Int>(models), rest)) by {
            lemma_int_array_is_read::<Int>(texts, models, space, rest);
        }
    }
    assert forall|models: Seq<Set<Int>>|
        texts.len() > 0 && all_write::<HashSet<Int>>(texts, models) implies writes_payload::<Int>(
        text,
        #[trigger] set_array::<Int>(models),
    ) by {
        assert forall|rest: Seq<char>| may_follow(rest) implies #[trigger] spec_value_or_array::<
            Int,
        >(text + rest) == Some((set_array::<Int>(models), rest)) by {
            lemma_set_array_is_read::<Int>(texts, models, space, rest);
        }
    }
}

/// What starts with `[|` is no one-dimensional array.
proof fn lemma_bar_starts_no_array_1d<Int: Integer>(input: Seq<char>)
    requires
        input.len() >= 2,
        input[0] == '[',
        input[1] == '|',
    ensures
        spec_array_1d::<Int>(input) is None,
{
    let inside = input.skip(1);
    let none = Seq::<char>::empty();
    assert(none + inside =~= inside);
    assert(inside[0] == '|');
    reveal_strlit("true");
    reveal_strlit("false");
    if "true"@.is_prefix_of(inside) {
        assert(inside.subrange(0, 4)[0] == 't');
    }
    if "false"@.is_prefix_of(inside) {
        assert(inside.subrange(0, 5)[0] == 'f');
    }
    lemma_no_first_element::<bool>(inside, none, ']');
    lemma_no_first_element::<Int>(inside, none, ']');
    lemma_no_first_element::<HashSet<Int>>(inside, none, ']');
}

/// The two-dimensional array of booleans that the models of the rows make.
pub open spec fn bool_matrix<Int>(models: Seq<Seq<bool>>) -> Payload<Int> {
    Payload::Array2d(
        ArrayView::Bool(
            ArrayModel {
                shape: seq![models.len() as usize, models[0].len() as usize],
                elements: models.flatten(),
            },
        ),
    )
}

/// The two-dimensional array of integers that the models of the rows make.
pub open spec fn int_matrix<Int>(models: Seq<Seq<Int>>) -> Payload<Int> {
    Payload::Array2d(
        ArrayView::Int(
            ArrayModel {
                shape: seq![models.len() as usize, models[0].len() as usize],
                elements: models.flatten(),
            },
        ),
    )
}

/// Written rows of booleans are read as their array, which is tried first.
proof fn lemma_bool_matrix_is_read<Int: Integer>(
    rows: Seq<Seq<Seq<char>>>,
    models: Seq<Seq<bool>>,
    space: Seq<char>,
    rest: Seq<char>,
)
    requires
        rows.len() > 0,
        all_in(CharClass::Space, space),
        all_rows_write::<bool>(rows, models),
        rectangular(models),
    ensures
        spec_value_or_array::<Int>(matrix_text(rows, space, rest)) == Some(
            (bool_matrix::<Int>(models), rest),
        ),
{
    let whole = matrix_text(rows, space, rest);
    lemma_bracket_starts_no_value::<Int>(whole);
    lemma_bar_starts_no_array_1d::<Int>(whole);
    lemma_value_array_2d_is_read::<bool>(rows, models, space, rest);
}

/// Written rows of integers are read as no array of booleans.
proof fn lemma_int_rows_are_no_bool_matrix<Int: Integer>(
    rows: Seq<Seq<Seq<char>>>,
    models: Seq<Seq<Int>>,
    space: Seq<char>,
    rest: Seq<char>,
)
    requires
        rows.len() > 0,
        all_in(CharClass::Space, space),
        all_rows_write::<Int>(rows, models),
    ensures
        spec_value_array_2d::<bool>(matrix_text(rows, space, rest)) is None,
{
    let inside = rows_text(rows, space, rest);
    let whole = matrix_text(rows, space, rest);
    assert(rows[0].len() > 0 && all_write::<Int>(rows[0], models[0]));
    assert(writes::<Int>(rows[0][0], models[0][0]));
    lemma_first_character::<Int>(rows[0][0]);
    lemma_rows_are_read::<Int>(rows, models, space, rest);
    reveal_strlit("true");
    reveal_strlit("false");
    reveal_strlit("[|");
    if "true"@.is_prefix_of(inside) {
        assert(inside.subrange(0, 4)[0] == 't');
    }
    if "false"@.is_prefix_of(inside) {
        assert(inside.subrange(0, 5)[0] == 'f');
    }
    lemma_no_first_element::<bool>(inside, space, ']');
    assert("[|"@ =~= seq!['[', '|']);
    assert(whole.subrange(0, 2) =~= seq!['[', '|']);
    assert(whole.skip(2) =~= space + inside);
    lemma_skip_space_before(space, inside);
}

/// Written rows of integers are read as their array.
proof fn lemma_int_matrix_is_read<Int: Integer>(
    rows: Seq<Seq<Seq<char>>>,
    models: Seq<Seq<Int>>,
    space: Seq<char>,
    rest: Seq<char>,
)
    requires
        rows.len() > 0,
        all_in(CharClass::Space, space),
        all_rows_write::<Int>(rows, models),
        rectangular(models),
    ensures
        spec_value_or_array::<Int>(matrix_text(rows, space, rest)) == Some(
            (int_matrix::<Int>(models), rest),
        ),
{
    let whole = matrix_text(rows, space, rest);
    lemma_bracket_starts_no_value::<Int>(whole);
    lemma_bar_starts_no_array_1d::<Int>(whole);
    lemma_int_rows_are_no_bool_matrix::<Int>(rows, models, space, rest);
    lemma_value_array_2d_is_read::<Int>(rows, models, space, rest);
}

/// Written rows of one length between `[|` and `|]` write the two-dimensional array of
/// their kind, row by row.
pub proof fn lemma_array_2d_is_written<Int: Integer>(
    rows: Seq<Seq<Seq<char>>>,
    space: Seq<char>,
)
    requires
        rows.len() > 0,
        all_in(CharClass::Space, space),
    ensures
        forall|models: Seq<Seq<bool>>|
            all_rows_write::<bool>(rows, models) && rectangular(models) ==> writes_payload::<
                Int,
            >(matrix_text(rows, space, Seq::empty()), #[trigger] bool_matrix::<Int>(models)),
        forall|models: Seq<Seq<Int>>|
            all_rows_write::<Int>(rows, models) && rectangular(models) ==> writes_payload::<Int>(
                matrix_text(rows, space, Seq::empty()),
                #[trigger] int_matrix::<Int>(models),
            ),
{
    let text = matrix_text(rows, space, Seq::empty());
    assert(text[0] == '[');
    assert forall|rest: Seq<char>| #[trigger] may_follow(rest) implies text + rest == matrix_text(
        rows,
        space,
        rest,
    ) by {
        lemma_rows_text_append(rows, space, Seq::empty(), rest);
        assert(Seq::<char>::empty() + rest =~= rest);
        assert(text + rest =~= matrix_text(rows, space, rest));
    }
    assert forall|models: Seq<Seq<bool>>|
        all_rows_write::<bool>(rows, models) && rectangular(models) implies writes_payload::<Int>(
        text,
        #[trigger] bool_matrix::<Int>(models),
    ) by {
        assert forall|rest: Seq<char>| may_follow(rest) implies #[trigger] spec_value_or_array::<
            Int,
        >(text + rest) == Some((bool_matrix::<Int>(models), rest)) by {
            lemma_bool_matrix_is_read::<Int>(rows, models, space, rest);
        }
    }
    assert forall|models: Seq<Seq<Int>>|
        all_rows_write::<Int>(rows, models) && rectangular(models) implies writes_payload::<Int>(
        text,
        #[trigger] int_matrix::<Int>(models),
    ) by {
        assert forall|rest: Seq<char>| may_follow(rest) implies #[trigger] spec_value_or_array::<
            Int,
        >(text + rest) == Some((int_matrix::<Int>(models), rest)) by {
            lemma_int_matrix_is_read::<Int>(rows, models, space, rest);
        }
    }
}

/// A statement as it is written: its name, the text of what it binds, and what that is.
#[verifier::reject_recursive_types(Int)]
pub struct Written<Int> {
    pub name: Seq<char>,
    pub text: Seq<char>,
    pub payload: Payload<Int>,
}

/// Whether each statement has an identifier for its name and a text that writes what it
/// binds.
pub open spec fn well_written<Int: Integer>(entries: Seq<Written<Int>>) -> bool {
    forall|i: int|
        0 <= i < entries.len() ==> is_identifier((#[trigger] entries[i]).name)
            && writes_payload::<Int>(entries[i].text, entries[i].payload)
}

/// Whether no two statements have the same name.
pub open spec fn distinct_names<Int>(entries: Seq<Written<Int>>) -> bool {
    forall|i: int, j: int|
        0 <= i < j < entries.len() ==> (#[trigger] entries[i]).name != (
        #[trigger] entries[j]).name
}

/// The statement that binds what `value` writes to `name`, with `space` between its
/// parts, followed by `after`.
pub open spec fn statement_text(
    name: Seq<char>,
    value: Seq<char>,
    space: Seq<char>,
    after: Seq<char>,
) -> Seq<char> {
    name + (space + (seq!['='] + (space + (value + (space + (seq![';'] + after))))))
}

/// A written statement is read as its binding, and what follows it is left.
pub proof fn lemma_statement_is_read<Int: Integer>(
    name: Seq<char>,
    value: Seq<char>,
    payload: Payload<Int>,
    space: Seq<char>,
    after: Seq<char>,
)
    requires
        is_identifier(name),
        writes_payload::<Int>(value, payload),
        all_in(CharClass::Space, space),
    ensures
        spec_statement::<Int>(statement_text(name, value, space, after)) == Ok::<
            _,
            SyntaxFailure,
        >(((name, payload), skip_space(after))),
{
    let at_end = seq![';'] + after;
    let after_value = space + at_end;
    let at_value = value + after_value;
    let after_equals = space + at_value;
    let at_equals = seq!['='] + after_equals;
    let after_name = space + at_equals;
    let input = name + after_name;
    assert(input[0] == name[0]);
    assert(skip_space(input) =~= input);
    assert(after_name[0] == if space.len() > 0 {
        space[0]
    } else {
        '='
    });
    lemma_identifier_before(name, after_name);
    assert(at_equals[0] == '=');
    lemma_skip_space_before(space, at_equals);
    assert(at_equals.skip(1) =~= after_equals);
    assert(at_value[0] == value[0]);
    lemma_skip_space_before(space, at_value);
    assert(after_value[0] == if space.len() > 0 {
        space[0]
    } else {
        ';'
    });
    assert(may_follow(after_value));
    assert(spec_value_or_array::<Int>(value + after_value) == Some((payload, after_value)));
    assert(at_end[0] == ';');
    lemma_skip_space_before(space, at_end);
    assert(at_end.skip(1) =~= after);
}

/// The text of the statements, with `space` between the parts of each and between any
/// two of them.
pub open spec fn statements_text<Int>(entries: Seq<Written<Int>>, space: Seq<char>) -> Seq<char>
    decreases entries.len(),
{
    if entries.len() == 0 {
        Seq::empty()
    } else {
        statement_text(
            entries[0].name,
            entries[0].text,
            space,
            if entries.len() == 1 {
                Seq::empty()
            } else {
                space + statements_text(entries.skip(1), space)
            },
        )
    }
}

/// `store` after each statement has bound what it writes to its name, one after the other.
pub open spec fn bind_all<Int>(store: DataFileView<Int>, entries: Seq<Written<Int>>)
    -> DataFileView<Int>
    decreases entries.len(),
{
    if entries.len() == 0 {
        store
    } else {
        bind_all(bind(store, entries[0].name, entries[0].payload), entries.skip(1))
    }
}

/// The text of statements starts with the first name and ends with a semicolon.
proof fn lemma_statements_text_ends<Int>(entries: Seq<Written<Int>>, space: Seq<char>)
    requires
        entries.len() > 0,
    ensures
        statements_text(entries, space).len() > 0,
        entries[0].name.len() > 0 ==> statements_text(entries, space)[0] == entries[0].name[0],
        statements_text(entries, space).last() == ';',
    decreases entries.len(),
{
    let after = if entries.len() == 1 {
        Seq::<char>::empty()
    } else {
        space + statements_text(entries.skip(1), space)
    };
    if entries.len() > 1 {
        lemma_statements_text_ends(entries.skip(1), space);
        assert(after.last() == ';');
    }
    let at_end = seq![';'] + after;
    assert(at_end.last() == ';');
    let after_value = space + at_end;
    assert(after_value.last() == ';');
    let at_value = entries[0].text + after_value;
    assert(at_value.last() == ';');
    let after_equals = space + at_value;
    assert(after_equals.last() == ';');
    let at_equals = seq!['='] + after_equals;
    assert(at_equals.last() == ';');
    let after_name = space + at_equals;
    assert(after_name.last() == ';');
    let text = entries[0].name + after_name;
    assert(text.last() == ';');
    if entries[0].name.len() > 0 {
        assert(text[0] == entries[0].name[0]);
    }
}

/// What holds of each statement holds of those after the first.
proof fn lemma_well_written_skip<Int: Integer>(entries: Seq<Written<Int>>)
    requires
        well_written(entries),
        entries.len() > 0,
    ensures
        well_written(entries.skip(1)),
        is_identifier(entries[0].name),
        writes_payload::<Int>(entries[0].text, entries[0].payload),
{
    let rest = entries.skip(1);
    assert forall|i: int| 0 <= i < rest.len() implies is_identifier((#[trigger] rest[i]).name)
        && writes_payload::<Int>(rest[i].text, rest[i].payload) by {
        assert(rest[i] == entries[i + 1]);
    }
}

/// Written statements are read one after the other into the store.
pub proof fn lemma_statements_are_read<Int: Integer>(
    store: DataFileView<Int>,
    entries: Seq<Written<Int>>,
    space: Seq<char>,
)
    requires
        well_written(entries),
        all_in(CharClass::Space, space),
    ensures
        spec_statements::<Int>(store, statements_text(entries, space)) == Ok::<_, SyntaxFailure>(
            bind_all(store, entries),
        ),
    decreases entries.len(),
{
    if entries.len() > 0 {
        let rest = entries.skip(1);
        let after = if entries.len() == 1 {
            Seq::<char>::empty()
        } else {
            space + statements_text(rest, space)
        };
        lemma_well_written_skip(entries);
        lemma_statements_text_ends(entries, space);
        lemma_statement_is_read::<Int>(
            entries[0].name,
            entries[0].text,
            entries[0].payload,
            space,
            after,
        );
        if entries.len() == 1 {
            assert(skip_space(after) =~= statements_text(rest, space));
        } else {
            lemma_statements_text_ends(rest, space);
            lemma_well_written_skip(rest);
            lemma_skip_space_before(space, statements_text(rest, space));
        }
        lemma_statements_are_read::<Int>(
            bind(store, entries[0].name, entries[0].payload),
            rest,
            space,
        );
    }
}

/// Whether `store` holds `payload` under `name`, in the mapping of the payload's arity.
pub open spec fn binds<Int>(store: DataFileView<Int>, name: Seq<char>, payload: Payload<Int>)
    -> bool {
    match payload {
        Payload::Value(value) => store.values.contains_key(name) && store.values[name] == value,
        Payload::Array1d(array) => store.arrays_1d.contains_key(name) && store.arrays_1d[name]
            == array,
        Payload::Array2d(array) => store.arrays_2d.contains_key(name) && store.arrays_2d[name]
            == array,
    }
}

/// Whether `store` holds something under `name`, in any of its mappings.
pub open spec fn holds<Int>(store: DataFileView<Int>, name: Seq<char>) -> bool {
    store.values.contains_key(name) || store.arrays_1d.contains_key(name)
        || store.arrays_2d.contains_key(name)
}

/// Whether `key` is the name of one of the statements.
pub open spec fn is_name<Int>(entries: Seq<Written<Int>>, key: Seq<char>) -> bool {
    exists|i: int| 0 <= i < entries.len() && (#[trigger] entries[i]).name == key
}

/// After statements with names of their own the store holds what each binds under its
/// name; under other names it holds what it held before.
pub proof fn lemma_bind_all<Int>(store: DataFileView<Int>, entries: Seq<Written<Int>>)
    requires
        distinct_names(entries),
    ensures
        forall|i: int|
            0 <= i < entries.len() ==> binds(
                bind_all(store, entries),
                (#[trigger] entries[i]).name,
                entries[i].payload,
            ),
        forall|key: Seq<char>, payload: Payload<Int>|
            !is_name(entries, key) ==> #[trigger] binds(bind_all(store, entries), key, payload)
                == binds(store, key, payload),
        forall|key: Seq<char>|
            !is_name(entries, key) ==> #[trigger] holds(bind_all(store, entries), key) == holds(
                store,
                key,
            ),
    decreases entries.len(),
{
    if entries.len() > 0 {
        let rest = entries.skip(1);
        let first = entries[0];
        let bound = bind(store, first.name, first.payload);
        assert forall|i: int, j: int| 0 <= i < j < rest.len() implies (#[trigger] rest[i]).name
            != (#[trigger] rest[j]).name by {
            assert(rest[i] == entries[i + 1]);
            assert(rest[j] == entries[j + 1]);
        }
        lemma_bind_all(bound, rest);
        let result = bind_all(store, entries);
        assert(result == bind_all(bound, rest));
        assert(!is_name(rest, first.name)) by {
            if is_name(rest, first.name) {
                let j = choose|j: int| 0 <= j < rest.len() && (#[trigger] rest[j]).name
                    == first.name;
                assert(rest[j] == entries[j + 1]);
                assert(entries[0].name != entries[j + 1].name);
            }
        }
        assert forall|i: int| 0 <= i < entries.len() implies binds(
            result,
            (#[trigger] entries[i]).name,
            entries[i].payload,
        ) by {
            if i > 0 {
                assert(rest[i - 1] == entries[i]);
            } else {
                assert(binds(bound, first.name, first.payload));
                assert(binds(result, first.name, first.payload) == binds(
                    bound,
                    first.name,
                    first.payload,
                ));
            }
        }
        assert forall|key: Seq<char>| !is_name(entries, key) implies !is_name(rest, key)
            && entries[0].name != key by {
            if is_name(rest, key) {
                let j = choose|j: int| 0 <= j < rest.len() && (#[trigger] rest[j]).name == key;
                assert(rest[j] == entries[j + 1]);
            }
        }
        assert forall|key: Seq<char>, payload: Payload<Int>|
            !is_name(entries, key) implies #[trigger] binds(result, key, payload) == binds(
            store,
            key,
            payload,
        ) by {
            assert(binds(result, key, payload) == binds(bound, key, payload));
        }
        assert forall|key: Seq<char>| !is_name(entries, key) implies #[trigger] holds(
            result,
            key,
        ) == holds(store, key) by {
            assert(holds(result, key) == holds(bound, key));
        }
    }
}

/// A data file that is written out is read back as it was: where each statement has a
/// name of its own and writes what it binds, the store holds each binding under its name,
/// and nothing under any other name. This holds whatever white space stands between the
/// parts of a statement, between two statements, before the first and after the last.
pub proof fn lemma_data_file_is_read_back<Int: Integer>(
    entries: Seq<Written<Int>>,
    space: Seq<char>,
    front: Seq<char>,
    back: Seq<char>,
)
    requires
        well_written(entries),
        distinct_names(entries),
        all_in(CharClass::Space, space),
        all_in(CharClass::WhiteSpace, front),
        all_in(CharClass::WhiteSpace, back),
    ensures
        spec_parse::<Int>(front + statements_text(entries, space) + back) == Ok::<
            _,
            SyntaxFailure,
        >(bind_all(DataFileView::<Int>::empty(), entries)),
        forall|i: int|
            0 <= i < entries.len() ==> binds(
                bind_all(DataFileView::<Int>::empty(), entries),
                (#[trigger] entries[i]).name,
                entries[i].payload,
            ),
        forall|key: Seq<char>| #[trigger]
            holds(bind_all(DataFileView::<Int>::empty(), entries), key) ==> is_name(
                entries,
                key,
            ),
{
    let text = statements_text(entries, space);
    lemma_trim_ignores_outer_space(front, text, back);
    if entries.len() > 0 {
        lemma_statements_text_ends(entries, space);
        lemma_well_written_skip(entries);
    }
    lemma_trim_tight(text);
    lemma_statements_are_read::<Int>(DataFileView::empty(), entries, space);
    lemma_bind_all(DataFileView::<Int>::empty(), entries);
    assert forall|key: Seq<char>| #[trigger]
        holds(bind_all(DataFileView::<Int>::empty(), entries), key) implies is_name(
        entries,
        key,
    ) by {
        if !is_name(entries, key) {
            assert(!holds(DataFileView::<Int>::empty(), key));
        }
    }
}

/// The statement that binds the number `n`, written in decimal digits, to `name`.
pub open spec fn written_int<Int: Integer>(name: Seq<char>, n: nat) -> Written<Int> {
    Written {
        name,
        text: decimal_digits(n),
        payload: Payload::Value(ValueView::Int(Int::of_nat(n)->0)),
    }
}

/// The statements that bind each number to its name.
pub open spec fn written_ints<Int: Integer>(entries: Seq<(Seq<char>, nat)>) -> Seq<
    Written<Int>,
> {
    entries.map_values(|entry: (Seq<char>, nat)| written_int::<Int>(entry.0, entry.1))
}

/// Integers that are written out as statements, each under a name of its own, are read
/// back as they were: the store holds each under its name as an integer, and nothing
/// else. This holds whatever white space stands between the parts of a statement, between
/// two statements, before the first and after the last.
pub proof fn lemma_integers_are_read_back<Int: Integer>(
    entries: Seq<(Seq<char>, nat)>,
    space: Seq<char>,
    front: Seq<char>,
    back: Seq<char>,
)
    requires
        forall|i: int|
            0 <= i < entries.len() ==> is_identifier((#[trigger] entries[i]).0) && Int::of_nat(
                entries[i].1,
            ) is Some,
        forall|i: int, j: int|
            0 <= i < j < entries.len() ==> (#[trigger] entries[i]).0 != (#[trigger] entries[j]).0,
        all_in(CharClass::Space, space),
        all_in(CharClass::WhiteSpace, front),
        all_in(CharClass::WhiteSpace, back),
    ensures
        spec_parse::<Int>(front + statements_text(written_ints::<Int>(entries), space) + back)
            matches Ok(store) && {
            &&& forall|i: int|
                0 <= i < entries.len() ==> store.values.contains_key((#[trigger] entries[i]).0)
                    && store.values[entries[i].0] == ValueView::Int(
                    Int::of_nat(entries[i].1)->0,
                )
            &&& forall|key: Seq<char>| #[trigger]
                store.values.contains_key(key) ==> exists|i: int|
                    0 <= i < entries.len() && (#[trigger] entries[i]).0 == key
            &&& forall|key: Seq<char>| !(#[trigger] store.arrays_1d.contains_key(key))
            &&& forall|key: Seq<char>| !(#[trigger] store.arrays_2d.contains_key(key))
        },
{
    let written = written_ints::<Int>(entries);
    assert forall|i: int| 0 <= i < written.len() implies is_identifier(
        (#[trigger] written[i]).name,
    ) && writes_payload::<Int>(written[i].text, written[i].payload) by {
        assert(written[i] == written_int::<Int>(entries[i].0, entries[i].1));
        lemma_int_is_written::<Int>(entries[i].1);
        lemma_value_is_written::<Int>(decimal_digits(entries[i].1));
    }
    assert forall|i: int, j: int| 0 <= i < j < written.len() implies (
    #[trigger] written[i]).name != (#[trigger] written[j]).name by {
        assert(written[i].name == entries[i].0);
        assert(written[j].name == entries[j].0);
    }
    lemma_data_file_is_read_back::<Int>(written, space, front, back);
    let store = bind_all(DataFileView::<Int>::empty(), written);
    assert forall|i: int| 0 <= i < entries.len() implies store.values.contains_key(
        (#[trigger] entries[i]).0,
    ) && store.values[entries[i].0] == ValueView::Int(Int::of_nat(entries[i].1)->0) by {
        assert(binds(store, written[i].name, written[i].payload));
    }
    lemma_only_values_are_bound(DataFileView::<Int>::empty(), written);
    assert forall|key: Seq<char>| #[trigger] store.values.contains_key(key) implies exists|
        i: int,
    |
        0 <= i < entries.len() && (#[trigger] entries[i]).0 == key by {
        assert(holds(store, key));
        let i = choose|i: int| 0 <= i < written.len() && (#[trigger] written[i]).name == key;
        assert(entries[i].0 == key);
    }
}

/// Statements that bind scalar values leave the arrays of a store as they were.
proof fn lemma_only_values_are_bound<Int>(store: DataFileView<Int>, entries: Seq<Written<Int>>)
    requires
        forall|i: int| 0 <= i < entries.len() ==> (#[trigger] entries[i]).payload is Value,
    ensures
        bind_all(store, entries).arrays_1d == store.arrays_1d,
        bind_all(store, entries).arrays_2d == store.arrays_2d,
    decreases entries.len(),
{
    if entries.len() > 0 {
        let rest = entries.skip(1);
        assert forall|i: int| 0 <= i < rest.len() implies (#[trigger] rest[i]).payload is Value by {
            assert(rest[i] == entries[i + 1]);
        }
        lemma_only_values_are_bound(
            bind(store, entries[0].name, entries[0].payload),
            rest,
        );
    }
}

} // verus!
