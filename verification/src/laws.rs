//! What holds of the grammar whatever the text: white space around a data file does not
//! count, no text is read as two kinds of value, a statement fails at the first of its
//! parts that is missing, and values are bound to identifiers only.

use crate::ast::DataFileView;
use crate::error::SyntaxElement;
use crate::grammar::{
    bind, decimal_value, leading, skip_space, spec_bool, spec_identifier, spec_int, spec_list,
    spec_list_tail, spec_parse, spec_set, spec_statement, spec_statements,
    spec_value_or_array, starts_with, trailing, trim, CharClass, Element, Payload,
    SyntaxFailure,
};
use crate::grammar::lemma_leading_bounded;
use crate::numbers::Integer;
use crate::value::ValueView;
use vstd::prelude::*;

verus! {

/// Whether every character of `text` is in `class`.
pub open spec fn all_in(class: CharClass, text: Seq<char>) -> bool {
    forall|i: int| 0 <= i < text.len() ==> class.spec_contains(#[trigger] text[i])
}

/// A run goes on through a text of its class into what follows.
pub proof fn lemma_leading_append(class: CharClass, run: Seq<char>, rest: Seq<char>)
    requires
        all_in(class, run),
    ensures
        leading(class, run + rest) == run.len() + leading(class, rest),
    decreases run.len(),
{
    if run.len() == 0 {
        assert(run + rest =~= rest);
    } else {
        assert((run + rest)[0] == run[0]);
        assert((run + rest).skip(1) =~= run.skip(1) + rest);
        assert forall|i: int| 0 <= i < run.skip(1).len() implies class.spec_contains(
            #[trigger] run.skip(1)[i],
        ) by {
            assert(run.skip(1)[i] == run[i + 1]);
        }
        lemma_leading_append(class, run.skip(1), rest);
    }
}

/// A run at the end of a text starts where a text of its class was appended.
pub proof fn lemma_trailing_append(class: CharClass, rest: Seq<char>, run: Seq<char>)
    requires
        all_in(class, run),
    ensures
        trailing(class, rest + run) == trailing(class, rest) + run.len(),
    decreases run.len(),
{
    if run.len() == 0 {
        assert(rest + run =~= rest);
    } else {
        assert((rest + run).last() == run.last());
        assert((rest + run).drop_last() =~= rest + run.drop_last());
        assert forall|i: int| 0 <= i < run.drop_last().len() implies class.spec_contains(
            #[trigger] run.drop_last()[i],
        ) by {
            assert(run.drop_last()[i] == run[i]);
        }
        lemma_trailing_append(class, rest, run.drop_last());
    }
}

/// A run at the end of a text is no longer than the text.
pub proof fn lemma_trailing_bounded(class: CharClass, input: Seq<char>)
    ensures
        trailing(class, input) <= input.len(),
    decreases input.len(),
{
    if input.len() > 0 && class.spec_contains(input.last()) {
        lemma_trailing_bounded(class, input.drop_last());
    }
}

/// A text that is all of one class is one run of it.
pub proof fn lemma_leading_all(class: CharClass, run: Seq<char>)
    requires
        all_in(class, run),
    ensures
        leading(class, run) == run.len(),
{
    lemma_leading_append(class, run, Seq::empty());
    assert(run + Seq::<char>::empty() =~= run);
}

/// The characters of a run are in its class, and the one after it is not.
pub proof fn lemma_leading_is_run(class: CharClass, input: Seq<char>)
    ensures
        leading(class, input) <= input.len(),
        all_in(class, input.take(leading(class, input) as int)),
        leading(class, input) < input.len() ==> !class.spec_contains(
            input[leading(class, input) as int],
        ),
    decreases input.len(),
{
    if input.len() > 0 && class.spec_contains(input[0]) {
        lemma_leading_is_run(class, input.skip(1));
        let length = leading(class, input);
        assert forall|i: int| 0 <= i < length implies class.spec_contains(
            #[trigger] input.take(length as int)[i],
        ) by {
            if i > 0 {
                assert(input.take(length as int)[i] == input.skip(1).take(length - 1)[i - 1]);
            }
        }
    }
}

/// More white space where some is left out is left out too.
pub proof fn lemma_skip_space_absorbs(space: Seq<char>, rest: Seq<char>)
    requires
        all_in(CharClass::Space, space),
    ensures
        skip_space(space + rest) == skip_space(rest),
{
    lemma_leading_append(CharClass::Space, space, rest);
    lemma_leading_bounded(CharClass::Space, rest);
    assert(skip_space(space + rest) =~= skip_space(rest));
}

/// White space before a statement, before the elements of a list and before the comma
/// after an element does not count.
pub proof fn lemma_space_before_does_not_count<Int: Integer, E: Element>(
    space: Seq<char>,
    rest: Seq<char>,
    close: char,
)
    requires
        all_in(CharClass::Space, space),
    ensures
        spec_statement::<Int>(space + rest) == spec_statement::<Int>(rest),
        spec_list::<E>(space + rest, close) == spec_list::<E>(rest, close),
        spec_list_tail::<E>(space + rest) == spec_list_tail::<E>(rest),
{
    lemma_skip_space_absorbs(space, rest);
}

/// White space before and after a text does not change what is left once it is trimmed.
pub proof fn lemma_trim_ignores_outer_space(front: Seq<char>, text: Seq<char>, back: Seq<char>)
    requires
        all_in(CharClass::WhiteSpace, front),
        all_in(CharClass::WhiteSpace, back),
    ensures
        trim(front + text + back) == trim(text),
{
    let class = CharClass::WhiteSpace;
    let padded = front + text + back;
    assert(padded =~= front + (text + back));
    lemma_leading_append(class, front, text + back);
    lemma_leading_is_run(class, text);
    let lead = leading(class, text);
    let run = text.take(lead as int);
    let rest = text.skip(lead as int);
    assert(text =~= run + rest);
    assert(text + back =~= run + (rest + back));
    lemma_leading_append(class, run, rest + back);
    if rest.len() == 0 {
        lemma_leading_all(class, back);
        assert(rest + back =~= back);
        assert(padded.skip(leading(class, padded) as int) =~= Seq::<char>::empty());
    } else {
        assert(rest[0] == text[lead as int]);
        assert((rest + back)[0] == rest[0]);
        assert(leading(class, rest + back) == 0);
        assert(padded.skip(leading(class, padded) as int) =~= rest + back);
        lemma_trailing_append(class, rest, back);
        lemma_trailing_bounded(class, rest);
        assert((rest + back).take((rest + back).len() - trailing(class, rest + back))
            =~= rest.take(rest.len() - trailing(class, rest)));
    }
}

/// The characters that may stand between tokens are white space.
pub proof fn lemma_space_is_white_space(space: Seq<char>)
    requires
        all_in(CharClass::Space, space),
    ensures
        all_in(CharClass::WhiteSpace, space),
{
    assert forall|i: int| 0 <= i < space.len() implies CharClass::WhiteSpace.spec_contains(
        #[trigger] space[i],
    ) by {
        assert(CharClass::Space.spec_contains(space[i]));
    }
}

/// White space before and after a data file does not count.
pub proof fn lemma_parse_ignores_outer_space<Int: Integer>(
    front: Seq<char>,
    text: Seq<char>,
    back: Seq<char>,
)
    requires
        all_in(CharClass::WhiteSpace, front),
        all_in(CharClass::WhiteSpace, back),
    ensures
        spec_parse::<Int>(front + text + back) == spec_parse::<Int>(text),
{
    lemma_trim_ignores_outer_space(front, text, back);
}

/// Whether `rest` is empty or starts with a character that is not in `class`: a run of
/// `class` before it ends where `rest` starts.
pub open spec fn stops(class: CharClass, rest: Seq<char>) -> bool {
    rest.len() == 0 || !class.spec_contains(rest[0])
}

/// White space before a text that does not start with any is all that is left out.
pub proof fn lemma_skip_space_before(space: Seq<char>, rest: Seq<char>)
    requires
        all_in(CharClass::Space, space),
        stops(CharClass::Space, rest),
    ensures
        skip_space(space + rest) == rest,
{
    lemma_leading_append(CharClass::Space, space, rest);
    assert((space + rest).skip(space.len() as int) =~= rest);
}

/// Whether `name` is an identifier: a letter or an underscore, then letters, digits and
/// underscores.
pub open spec fn is_identifier(name: Seq<char>) -> bool {
    &&& name.len() > 0
    &&& CharClass::IdentStart.spec_contains(name[0])
    &&& all_in(CharClass::IdentRest, name.skip(1))
}

/// An identifier is read up to the first character that cannot go on with it.
pub proof fn lemma_identifier_before(name: Seq<char>, rest: Seq<char>)
    requires
        is_identifier(name),
        stops(CharClass::IdentRest, rest),
    ensures
        spec_identifier(name + rest) == Some((name, rest)),
{
    let input = name + rest;
    assert(input[0] == name[0]);
    assert(input.skip(1) =~= name.skip(1) + rest);
    lemma_leading_append(CharClass::IdentRest, name.skip(1), rest);
    assert(input.take(name.len() as int) =~= name);
    assert(input.skip(name.len() as int) =~= rest);
}

/// The decimal digit that stands for a number below ten.
pub open spec fn digit_char(digit: nat) -> char {
    ('0' as nat + digit) as char
}

/// The decimal digits of a number, without leading zeros.
pub open spec fn decimal_digits(n: nat) -> Seq<char>
    decreases n,
{
    if n < 10 {
        seq![digit_char(n)]
    } else {
        decimal_digits(n / 10).push(digit_char(n % 10))
    }
}

/// The digits of a number are digits, at least one, and stand for the number.
pub proof fn lemma_decimal_digits(n: nat)
    ensures
        decimal_digits(n).len() >= 1,
        all_in(CharClass::Digit, decimal_digits(n)),
        decimal_value(decimal_digits(n)) == n,
    decreases n,
{
    let digits = decimal_digits(n);
    if n < 10 {
        assert(digits.drop_last() =~= Seq::<char>::empty());
        assert(digits.last() == digit_char(n));
        assert(decimal_value(digits.drop_last()) == 0);
    } else {
        lemma_decimal_digits(n / 10);
        assert(digits.drop_last() =~= decimal_digits(n / 10));
        assert(digits.last() == digit_char(n % 10));
        assert forall|i: int| 0 <= i < digits.len() implies CharClass::Digit.spec_contains(
            #[trigger] digits[i],
        ) by {
            if i < digits.len() - 1 {
                assert(digits[i] == decimal_digits(n / 10)[i]);
            }
        }
    }
}

/// The digits of a number that the integer type can hold are read as that number, up to
/// the first character that is no digit. They are not read as a boolean.
pub proof fn lemma_int_before<Int: Integer>(n: nat, rest: Seq<char>)
    requires
        Int::of_nat(n) is Some,
        stops(CharClass::Digit, rest),
    ensures
        spec_int::<Int>(decimal_digits(n) + rest) == Some((Int::of_nat(n)->0, rest)),
        spec_bool(decimal_digits(n) + rest) is None,
{
    let digits = decimal_digits(n);
    let input = digits + rest;
    lemma_decimal_digits(n);
    lemma_leading_append(CharClass::Digit, digits, rest);
    assert(input.take(digits.len() as int) =~= digits);
    assert(input.skip(digits.len() as int) =~= rest);
    assert(input[0] == digits[0]);
    reveal_strlit("true");
    reveal_strlit("false");
    if "true"@.is_prefix_of(input) {
        assert(input.subrange(0, 4)[0] == 't');
    }
    if "false"@.is_prefix_of(input) {
        assert(input.subrange(0, 5)[0] == 'f');
    }
}

/// A text that neither starts nor ends with white space is left as it is.
pub proof fn lemma_trim_tight(text: Seq<char>)
    requires
        text.len() > 0 ==> !CharClass::WhiteSpace.spec_contains(text[0])
            && !CharClass::WhiteSpace.spec_contains(text.last()),
    ensures
        trim(text) == text,
{
    assert(text.skip(0) =~= text);
    assert(text.take(text.len() as int) =~= text);
}

/// A set is the same in whatever order its members are listed, and however often.
pub proof fn lemma_set_ignores_order_and_repeats<A>(items: Seq<A>, others: Seq<A>)
    requires
        forall|member: A| items.contains(member) <==> others.contains(member),
    ensures
        items.to_set() == others.to_set(),
{
    assert(items.to_set() =~= others.to_set());
}

/// Two lists of integers with the same members, in whatever order and however often,
/// make the same set between braces.
pub proof fn lemma_set_of_same_members<Int: Integer>(first: Seq<char>, second: Seq<char>)
    requires
        spec_list::<Int>(first, '}') matches Some((items, _)) && spec_list::<Int>(second, '}')
            matches Some((others, _)) && forall|member: Int|
            items.contains(member) <==> others.contains(member),
    ensures
        spec_set::<Int>(seq!['{'] + first) matches Some((set, _)) && spec_set::<Int>(
            seq!['{'] + second,
        ) matches Some((other, _)) && set == other,
{
    assert((seq!['{'] + first).skip(1) =~= first);
    assert((seq!['{'] + second).skip(1) =~= second);
    if let Some((items, _)) = spec_list::<Int>(first, '}') {
        if let Some((others, _)) = spec_list::<Int>(second, '}') {
            lemma_set_ignores_order_and_repeats(items, others);
        }
    }
}

/// What is bound to a name last is what the store holds for it.
pub proof fn lemma_last_binding_wins<Int>(
    store: DataFileView<Int>,
    name: Seq<char>,
    first: Payload<Int>,
    last: ValueView<Int>,
)
    ensures
        bind(bind(store, name, first), name, Payload::Value(last)).values.contains_key(name),
        bind(bind(store, name, first), name, Payload::Value(last)).values[name] == last,
{
}

/// A statement fails at the first of its parts that is not there, and names that part: the
/// identifier, the `=`, the value, the `;`. What is left of the text at that part is kept.
pub proof fn lemma_statement_names_what_is_missing<Int: Integer>(input: Seq<char>)
    ensures
        ({
            let at_name = skip_space(input);
            match spec_identifier(at_name) {
                None => spec_statement::<Int>(input) == Err::<
                    ((Seq<char>, Payload<Int>), Seq<char>),
                    _,
                >(SyntaxFailure { expected: SyntaxElement::Identifier, actual: at_name }),
                Some((name, after_name)) => {
                    let at_equals = skip_space(after_name);
                    let at_value = skip_space(at_equals.skip(1));
                    if !starts_with(at_equals, '=') {
                        spec_statement::<Int>(input) == Err::<
                            ((Seq<char>, Payload<Int>), Seq<char>),
                            _,
                        >(SyntaxFailure { expected: SyntaxElement::Equals, actual: at_equals })
                    } else {
                        match spec_value_or_array::<Int>(at_value) {
                            None => spec_statement::<Int>(input) == Err::<
                                ((Seq<char>, Payload<Int>), Seq<char>),
                                _,
                            >(
                                SyntaxFailure {
                                    expected: SyntaxElement::Value,
                                    actual: at_value,
                                },
                            ),
                            Some((payload, after_value)) => {
                                let at_end = skip_space(after_value);
                                if !starts_with(at_end, ';') {
                                    spec_statement::<Int>(input) == Err::<
                                        ((Seq<char>, Payload<Int>), Seq<char>),
                                        _,
                                    >(
                                        SyntaxFailure {
                                            expected: SyntaxElement::SemiColon,
                                            actual: at_end,
                                        },
                                    )
                                } else {
                                    spec_statement::<Int>(input) is Ok
                                }
                            },
                        }
                    }
                },
            }
        }),
{
}

/// The first statement that fails ends the parse with its failure, whatever was bound
/// before.
pub proof fn lemma_first_failure_ends<Int: Integer>(store: DataFileView<Int>, input: Seq<char>)
    requires
        input.len() > 0,
        spec_statement::<Int>(input) is Err,
    ensures
        spec_statements::<Int>(store, input) == Err::<DataFileView<Int>, _>(
            spec_statement::<Int>(input)->Err_0,
        ),
{
}

/// No text is read as two kinds of value: what starts as a boolean, as an integer, as a
/// set or as an array starts as nothing else, so that the order in which the kinds are
/// tried decides nothing between them. Only an array without elements could be of any
/// kind, and is one of booleans.
pub proof fn lemma_kinds_do_not_overlap<Int: Integer>(input: Seq<char>)
    ensures
        spec_bool(input) is Some ==> spec_int::<Int>(input) is None && spec_set::<Int>(input)
            is None && !starts_with(input, '['),
        spec_int::<Int>(input) is Some ==> spec_bool(input) is None && spec_set::<Int>(input)
            is None && !starts_with(input, '['),
        spec_set::<Int>(input) is Some ==> spec_bool(input) is None && spec_int::<Int>(input)
            is None && !starts_with(input, '['),
{
    reveal_strlit("true");
    reveal_strlit("false");
    if spec_bool(input) is Some {
        assert(input[0] == 't' || input[0] == 'f') by {
            if "true"@.is_prefix_of(input) {
                assert(input.subrange(0, 4)[0] == 't');
            } else {
                assert(input.subrange(0, 5)[0] == 'f');
            }
        }
    }
}

/// Whether every name under which `store` holds something is an identifier.
pub open spec fn names_are_identifiers<Int>(store: DataFileView<Int>) -> bool {
    &&& forall|key: Seq<char>| #[trigger] store.values.contains_key(key) ==> is_identifier(key)
    &&& forall|key: Seq<char>| #[trigger] store.arrays_1d.contains_key(key) ==> is_identifier(key)
    &&& forall|key: Seq<char>| #[trigger] store.arrays_2d.contains_key(key) ==> is_identifier(key)
}

/// What is read as an identifier is one.
pub proof fn lemma_identifier_is_one(input: Seq<char>)
    ensures
        spec_identifier(input) matches Some((name, rest)) ==> is_identifier(name) && name + rest
            == input,
{
    if let Some((name, rest)) = spec_identifier(input) {
        let class = CharClass::IdentRest;
        let tail = input.skip(1);
        lemma_leading_is_run(class, tail);
        let length = leading(class, tail);
        assert(name.skip(1) =~= tail.take(length as int));
        assert(name + rest =~= input);
    }
}

/// Statements bind values to identifiers only.
pub proof fn lemma_statements_bind_identifiers<Int: Integer>(
    store: DataFileView<Int>,
    input: Seq<char>,
)
    requires
        names_are_identifiers(store),
    ensures
        spec_statements::<Int>(store, input) matches Ok(bound) ==> names_are_identifiers(bound),
    decreases input.len(),
{
    if input.len() > 0 {
        if let Ok(((name, payload), rest)) = spec_statement::<Int>(input) {
            lemma_identifier_is_one(skip_space(input));
            crate::grammar::lemma_statement_bounded::<Int>(input);
            lemma_statements_bind_identifiers::<Int>(bind(store, name, payload), rest);
        }
    }
}

/// Every name under which a parsed data file holds something is an identifier.
pub proof fn lemma_names_are_identifiers<Int: Integer>(text: Seq<char>)
    ensures
        spec_parse::<Int>(text) matches Ok(store) ==> names_are_identifiers(store),
{
    lemma_statements_bind_identifiers::<Int>(DataFileView::empty(), trim(text));
}

} // verus!
