use crate::ast::{DataFile, DataFileView};
use crate::error::{DznParseError, SyntaxElement};
use crate::grammar;
use crate::grammar::{
    decimal_value, digit_value, found_at, leading, lemma_leading_bounded, lemma_list_bounded,
    rectangular, spec_array_1d, spec_array_2d,
    spec_bool, spec_identifier, spec_int, spec_items, spec_list, spec_list_tail, spec_rows,
    spec_parse, spec_set, spec_statement, spec_statements, spec_value, spec_value_array_1d,
    spec_value_array_2d, spec_value_or_array, trailing, CharClass, Element, Payload,
    SyntaxFailure,
};
use crate::numbers::Integer;
use crate::value::{
    lemma_shape_size_1d, lemma_shape_size_2d, ArrayModel, ShapedArray, Value, ValueArray,
};
use std::collections::HashSet;
use vstd::prelude::*;
use vstd::slice::slice_subrange;
use vstd::string::StrSliceExecFns;
use vstd::utf8::{decode_utf8, encode_utf8, encode_utf8_decode_utf8, valid_utf8};

verus! {

/// `String::push` appends the given character to the end of the string.
pub assume_specification[ String::push ](text: &mut String, c: char)
    ensures
        final(text)@ == old(text)@.push(c),
;

/// Dropping characters in two steps is dropping them at once.
proof fn lemma_skip_twice(chars: Seq<char>, first: int, second: int)
    requires
        0 <= first,
        0 <= second,
        first + second <= chars.len(),
    ensures
        chars.skip(first).skip(second) == chars.skip(first + second),
{
    assert(chars.skip(first).skip(second) =~= chars.skip(first + second));
}

/// Where the run of characters of `class` that starts at `pos` ends.
pub(crate) fn scan(chars: &[char], pos: usize, class: CharClass) -> (end: usize)
    requires
        pos <= chars.len(),
    ensures
        end == pos + leading(class, chars@.skip(pos as int)),
        pos <= end <= chars.len(),
{
    let mut end = pos;
    while end < chars.len() && class.contains(chars[end])
        invariant
            pos <= end <= chars.len(),
            pos + leading(class, chars@.skip(pos as int)) == end + leading(
                class,
                chars@.skip(end as int),
            ),
        decreases chars.len() - end,
    {
        proof {
            lemma_skip_twice(chars@, end as int, 1);
        }
        end += 1;
    }
    end
}

/// Where the text goes on after the white space at `pos`.
pub(crate) fn skip_space(chars: &[char], pos: usize) -> (next: usize)
    requires
        pos <= chars.len(),
    ensures
        pos <= next <= chars.len(),
        chars@.skip(next as int) == grammar::skip_space(chars@.skip(pos as int)),
{
    let next = scan(chars, pos, CharClass::Space);
    proof {
        lemma_skip_twice(chars@, pos as int, next - pos);
    }
    next
}

/// Whether the character at `pos` is `c`.
pub(crate) fn starts_with(chars: &[char], pos: usize, c: char) -> (found: bool)
    requires
        pos <= chars.len(),
    ensures
        found == grammar::starts_with(chars@.skip(pos as int), c),
{
    pos < chars.len() && chars[pos] == c
}

/// Where the text goes on after `word`, if `word` stands at `pos`.
pub(crate) fn after_word(chars: &[char], pos: usize, word: &str) -> (found: Option<usize>)
    requires
        pos <= chars.len(),
    ensures
        match grammar::after_word(chars@.skip(pos as int), word@) {
            Some(rest) => found matches Some(next) && pos <= next <= chars.len() && chars@.skip(
                next as int,
            ) == rest,
            None => found is None,
        },
{
    let length = word.unicode_len();
    if length > chars.len() - pos {
        return None;
    }
    let mut matched: usize = 0;
    while matched < length
        invariant
            matched <= length == word@.len(),
            pos + length <= chars.len(),
            forall|i: int| 0 <= i < matched ==> chars@[pos + i] == word@[i],
        decreases length - matched,
    {
        if chars[pos + matched] != word.get_char(matched) {
            assert(chars@.skip(pos as int)[matched as int] != word@[matched as int]);
            return None;
        }
        matched += 1;
    }
    proof {
        assert(word@ =~= chars@.skip(pos as int).subrange(0, length as int));
        lemma_skip_twice(chars@, pos as int, length as int);
    }
    Some(pos + length)
}

/// The characters of `chars` from `from` up to `to`, as a string.
pub(crate) fn text_between(chars: &[char], from: usize, to: usize) -> (text: String)
    requires
        from <= to <= chars.len(),
    ensures
        text@ == chars@.subrange(from as int, to as int),
{
    let mut text = String::new();
    let mut at = from;
    while at < to
        invariant
            from <= at <= to <= chars.len(),
            text@ == chars@.subrange(from as int, at as int),
        decreases to - at,
    {
        text.push(chars[at]);
        at += 1;
        assert(text@ =~= chars@.subrange(from as int, at as int));
    }
    text
}

/// Reads an identifier at `pos`, and says where it ends.
pub(crate) fn identifier(chars: &[char], pos: usize) -> (found: Option<(String, usize)>)
    requires
        pos <= chars.len(),
    ensures
        found_at(
            chars@,
            pos,
            spec_identifier(chars@.skip(pos as int)),
            match found {
                Some((name, next)) => Some((name@, next)),
                None => None,
            },
        ),
{
    if pos < chars.len() && CharClass::IdentStart.contains(chars[pos]) {
        let end = scan(chars, pos + 1, CharClass::IdentRest);
        proof {
            lemma_skip_twice(chars@, pos as int, 1);
            lemma_skip_twice(chars@, pos as int, end - pos);
            assert(chars@.skip(pos as int).take(end - pos) =~= chars@.subrange(
                pos as int,
                end as int,
            ));
        }
        Some((text_between(chars, pos, end), end))
    } else {
        None
    }
}

/// The characters of a run are in its class.
proof fn lemma_leading_in_class(class: CharClass, input: Seq<char>, i: int)
    requires
        0 <= i < leading(class, input),
    ensures
        i < input.len(),
        class.spec_contains(input[i]),
    decreases input.len(),
{
    if i > 0 {
        lemma_leading_in_class(class, input.skip(1), i - 1);
    }
}

/// The digits that a run starts with stand for no more than the whole run.
proof fn lemma_decimal_value_grows(digits: Seq<char>, length: int)
    requires
        0 <= length <= digits.len(),
    ensures
        decimal_value(digits.take(length)) <= decimal_value(digits),
    decreases digits.len(),
{
    if length < digits.len() {
        lemma_decimal_value_grows(digits.drop_last(), length);
        assert(digits.drop_last().take(length) =~= digits.take(length));
    } else {
        assert(digits.take(length) =~= digits);
    }
}

/// Reads a boolean literal at `pos`, and says where it ends.
pub(crate) fn bool_parser(chars: &[char], pos: usize) -> (found: Option<(bool, usize)>)
    requires
        pos <= chars.len(),
    ensures
        found_at(chars@, pos, spec_bool(chars@.skip(pos as int)), found),
{
    if let Some(next) = after_word(chars, pos, "true") {
        Some((true, next))
    } else if let Some(next) = after_word(chars, pos, "false") {
        Some((false, next))
    } else {
        None
    }
}

/// The number that the decimal digit `c` stands for.
fn digit_of(c: char) -> (digit: u128)
    requires
        CharClass::Digit.spec_contains(c),
    ensures
        digit == digit_value(c),
        digit <= 9,
{
    (c as u32 - '0' as u32) as u128
}

/// Reads an integer literal at `pos`, and says where it ends. A literal that stands for a
/// number beyond the integer type is read as no integer.
pub(crate) fn int_parser<Int: Integer>(chars: &[char], pos: usize) -> (found: Option<
    (Int, usize),
>)
    requires
        pos <= chars.len(),
    ensures
        found_at(chars@, pos, spec_int::<Int>(chars@.skip(pos as int)), found),
{
    let end = scan(chars, pos, CharClass::Digit);
    if end == pos {
        return None;
    }
    let ghost digits = chars@.subrange(pos as int, end as int);
    proof {
        assert(chars@.skip(pos as int).take(end - pos) =~= digits);
        lemma_skip_twice(chars@, pos as int, end - pos);
    }
    let mut number: u128 = 0;
    let mut at = pos;
    while at < end
        invariant
            pos <= at <= end <= chars.len(),
            end - pos == leading(CharClass::Digit, chars@.skip(pos as int)),
            digits == chars@.subrange(pos as int, end as int),
            digits == chars@.skip(pos as int).take(end - pos),
            number == decimal_value(digits.take(at - pos)),
        decreases end - at,
    {
        proof {
            lemma_leading_in_class(CharClass::Digit, chars@.skip(pos as int), at - pos);
            let longer = digits.take(at - pos + 1);
            assert(longer.drop_last() =~= digits.take(at - pos));
            assert(longer.last() == chars@[at as int]);
            assert(decimal_value(longer) == number * 10 + digit_value(chars@[at as int]));
            lemma_decimal_value_grows(digits, at - pos + 1);
        }
        let digit = digit_of(chars[at]);
        let grown = match number.checked_mul(10) {
            Some(scaled) => scaled.checked_add(digit),
            None => None,
        };
        match grown {
            Some(value) => {
                number = value;
            },
            None => {
                proof {
                    assert(decimal_value(digits) > u128::MAX);
                    if Int::of_nat(decimal_value(digits)) is Some {
                        Int::lemma_of_nat_bounded(decimal_value(digits));
                    }
                }
                return None;
            },
        }
        at += 1;
    }
    proof {
        assert(digits.take(end - pos) =~= digits);
    }
    match Int::from_u128(number) {
        Some(value) => Some((value, end)),
        None => None,
    }
}

impl Element for bool {
    type Model = bool;

    open spec fn model(&self) -> bool {
        *self
    }

    open spec fn grammar(input: Seq<char>) -> Option<(bool, Seq<char>)> {
        spec_bool(input)
    }

    proof fn lemma_grammar_consumes(input: Seq<char>) {
        reveal_strlit("true");
        reveal_strlit("false");
    }

    fn parse(chars: &[char], pos: usize) -> (found: Option<(bool, usize)>) {
        bool_parser(chars, pos)
    }
}

impl<Int: Integer> Element for Int {
    type Model = Int;

    open spec fn model(&self) -> Int {
        *self
    }

    open spec fn grammar(input: Seq<char>) -> Option<(Int, Seq<char>)> {
        spec_int::<Int>(input)
    }

    proof fn lemma_grammar_consumes(input: Seq<char>) {
        lemma_leading_bounded(CharClass::Digit, input);
    }

    fn parse(chars: &[char], pos: usize) -> (found: Option<(Int, usize)>) {
        int_parser(chars, pos)
    }
}

/// What the elements are in contracts.
pub open spec fn models<E: Element>(items: Seq<E>) -> Seq<E::Model> {
    items.map_values(|item: E| item.model())
}

/// `result` with `front` before the elements that it holds.
pub open spec fn with_front<M>(front: Seq<M>, result: Option<(Seq<M>, Seq<char>)>) -> Option<
    (Seq<M>, Seq<char>),
> {
    match result {
        Some((items, rest)) => Some((front + items, rest)),
        None => None,
    }
}

/// Reads the elements that follow the first one of a list at `pos`, each after a comma,
/// appends them to `items`, and says where the text goes on.
pub(crate) fn list_tail<E: Element>(chars: &[char], pos: usize, items: &mut Vec<E>) -> (found:
    Option<usize>)
    requires
        pos <= chars.len(),
    ensures
        match spec_list_tail::<E>(chars@.skip(pos as int)) {
            Some((more, rest)) => found matches Some(next) && pos <= next <= chars.len()
                && chars@.skip(next as int) == rest && models(final(items)@) == models(
                old(items)@,
            ) + more,
            None => found is None,
        },
{
    let ghost target = spec_list_tail::<E>(chars@.skip(pos as int));
    let ghost before = models(items@);
    let ghost done = Seq::<E::Model>::empty();
    let mut at = pos;
    loop
        invariant
            pos <= at <= chars.len(),
            target == spec_list_tail::<E>(chars@.skip(pos as int)),
            target == with_front(done, spec_list_tail::<E>(chars@.skip(at as int))),
            before == models(old(items)@),
            models(items@) == before + done,
        decreases chars.len() - at,
    {
        let comma = skip_space(chars, at);
        if !starts_with(chars, comma, ',') {
            proof {
                assert(done + Seq::<E::Model>::empty() =~= done);
            }
            return Some(comma);
        }
        let start = skip_space(chars, comma + 1);
        proof {
            lemma_skip_twice(chars@, comma as int, 1);
            E::lemma_grammar_consumes(chars@.skip(start as int));
        }
        match E::parse(chars, start) {
            Some((item, next)) => {
                proof {
                    let rest = spec_list_tail::<E>(chars@.skip(next as int));
                    let model = item.model();
                    assert(spec_list_tail::<E>(chars@.skip(at as int)) == with_front(
                        seq![model],
                        rest,
                    ));
                    if let Some((more, end)) = rest {
                        assert(done + (seq![model] + more) =~= done.push(model) + more);
                    }
                    assert(models(items@.push(item)) =~= models(items@).push(model));
                    assert(before + done.push(model) =~= (before + done).push(model));
                    done = done.push(model);
                }
                items.push(item);
                at = next;
            },
            None => {
                return None;
            },
        }
    }
}

/// Reads a list of at least one element at `pos`, and says where the text goes on.
pub(crate) fn value_items<E: Element>(chars: &[char], pos: usize) -> (found: Option<
    (Vec<E>, usize),
>)
    requires
        pos <= chars.len(),
    ensures
        found_at(
            chars@,
            pos,
            spec_items::<E>(chars@.skip(pos as int)),
            match found {
                Some((items, next)) => Some((models(items@), next)),
                None => None,
            },
        ),
{
    match E::parse(chars, pos) {
        Some((item, next)) => {
            let mut items: Vec<E> = Vec::new();
            items.push(item);
            assert(models(items@) =~= seq![item.model()]);
            match list_tail(chars, next, &mut items) {
                Some(end) => Some((items, end)),
                None => None,
            }
        },
        None => None,
    }
}

/// Reads what stands between an opening bracket, which ends at `pos`, and the bracket
/// `close`: nothing, or elements separated by commas. Says where the text goes on after
/// `close`.
pub(crate) fn value_list<E: Element>(chars: &[char], pos: usize, close: char) -> (found:
    Option<(Vec<E>, usize)>)
    requires
        pos <= chars.len(),
    ensures
        found_at(
            chars@,
            pos,
            spec_list::<E>(chars@.skip(pos as int), close),
            match found {
                Some((items, next)) => Some((models(items@), next)),
                None => None,
            },
        ),
{
    let start = skip_space(chars, pos);
    if starts_with(chars, start, close) {
        proof {
            lemma_skip_twice(chars@, start as int, 1);
        }
        let items: Vec<E> = Vec::new();
        assert(models(items@) =~= Seq::<E::Model>::empty());
        return Some((items, start + 1));
    }
    match value_items::<E>(chars, start) {
        Some((items, end)) => {
            if starts_with(chars, end, close) {
                proof {
                    lemma_skip_twice(chars@, end as int, 1);
                }
                Some((items, end + 1))
            } else {
                None
            }
        },
        None => None,
    }
}

/// Reads a set of integers at `pos`, and says where it ends.
pub(crate) fn value_set<Int: Integer>(chars: &[char], pos: usize) -> (found: Option<
    (HashSet<Int>, usize),
>)
    requires
        pos <= chars.len(),
    ensures
        found_at(
            chars@,
            pos,
            spec_set::<Int>(chars@.skip(pos as int)),
            match found {
                Some((set, next)) => Some((set@, next)),
                None => None,
            },
        ),
{
    if !starts_with(chars, pos, '{') {
        return None;
    }
    proof {
        lemma_skip_twice(chars@, pos as int, 1);
    }
    match value_list::<Int>(chars, pos + 1, '}') {
        Some((items, next)) => {
            let mut set: HashSet<Int> = HashSet::new();
            let mut taken: usize = 0;
            proof {
                Int::lemma_obeys_key_model();
                assert(items@.take(0).to_set() =~= Set::<Int>::empty());
                assert(models(items@) =~= items@);
            }
            while taken < items.len()
                invariant
                    taken <= items.len(),
                    set@ == items@.take(taken as int).to_set(),
                    vstd::std_specs::hash::obeys_key_model::<Int>(),
                decreases items.len() - taken,
            {
                broadcast use vstd::std_specs::hash::group_hash_axioms;

                proof {
                    assert(items@.take(taken + 1) =~= items@.take(taken as int).push(
                        items@[taken as int],
                    ));
                    items@.take(taken as int).lemma_push_to_set_commute(items@[taken as int]);
                }
                set.insert(items[taken]);
                taken += 1;
            }
            proof {
                assert(items@.take(items.len() as int) =~= items@);
            }
            Some((set, next))
        },
        None => None,
    }
}

impl<Int: Integer> Element for HashSet<Int> {
    type Model = Set<Int>;

    open spec fn model(&self) -> Set<Int> {
        self@
    }

    open spec fn grammar(input: Seq<char>) -> Option<(Set<Int>, Seq<char>)> {
        spec_set::<Int>(input)
    }

    proof fn lemma_grammar_consumes(input: Seq<char>) {
        if grammar::starts_with(input, '{') {
            lemma_list_bounded::<Int>(input.skip(1), '}');
        }
    }

    fn parse(chars: &[char], pos: usize) -> (found: Option<(HashSet<Int>, usize)>) {
        value_set(chars, pos)
    }
}

/// Reads a scalar value at `pos`, and says where it ends.
pub(crate) fn value<Int: Integer>(chars: &[char], pos: usize) -> (found: Option<
    (Value<Int>, usize),
>)
    requires
        pos <= chars.len(),
    ensures
        found_at(
            chars@,
            pos,
            spec_value::<Int>(chars@.skip(pos as int)),
            match found {
                Some((value, next)) => Some((value@, next)),
                None => None,
            },
        ),
{
    if let Some((boolean, next)) = bool_parser(chars, pos) {
        Some((Value::Bool(boolean), next))
    } else if let Some((number, next)) = int_parser::<Int>(chars, pos) {
        Some((Value::Int(number), next))
    } else if let Some((set, next)) = value_set::<Int>(chars, pos) {
        Some((Value::SetOfInt(set), next))
    } else {
        None
    }
}

/// What an array of elements is in contracts.
pub open spec fn array_model<E: Element, const D: usize>(array: ShapedArray<E, D>) -> ArrayModel<
    E::Model,
> {
    ArrayModel { shape: array@.shape, elements: models(array@.elements) }
}

/// Reads a one-dimensional array of elements of one kind at `pos`, and says where it ends.
pub(crate) fn value_array_1d<E: Element>(chars: &[char], pos: usize) -> (found: Option<
    (ShapedArray<E, 1>, usize),
>)
    requires
        pos <= chars.len(),
    ensures
        found_at(
            chars@,
            pos,
            spec_value_array_1d::<E>(chars@.skip(pos as int)),
            match found {
                Some((array, next)) => Some((array_model(array), next)),
                None => None,
            },
        ),
        found matches Some((array, _)) ==> array.well_formed(),
{
    if !starts_with(chars, pos, '[') {
        return None;
    }
    proof {
        lemma_skip_twice(chars@, pos as int, 1);
    }
    match value_list::<E>(chars, pos + 1, ']') {
        Some((elements, next)) => {
            let shape = [elements.len()];
            let array = ShapedArray::new(shape, elements);
            proof {
                assert(array@.shape =~= seq![elements@.len() as usize]);
                lemma_shape_size_1d(elements@.len() as usize);
            }
            Some((array, next))
        },
        None => None,
    }
}

/// Reads a one-dimensional array at `pos`, and says where it ends.
pub(crate) fn array_1d<Int: Integer>(chars: &[char], pos: usize) -> (found: Option<
    (ValueArray<Int, 1>, usize),
>)
    requires
        pos <= chars.len(),
    ensures
        found_at(
            chars@,
            pos,
            spec_array_1d::<Int>(chars@.skip(pos as int)),
            match found {
                Some((array, next)) => Some((array@, next)),
                None => None,
            },
        ),
        found matches Some((array, _)) ==> array@.well_formed(),
{
    if let Some((array, next)) = value_array_1d::<bool>(chars, pos) {
        assert(array_model(array).elements =~= array@.elements);
        Some((ValueArray::Bool(array), next))
    } else if let Some((array, next)) = value_array_1d::<Int>(chars, pos) {
        assert(array_model(array).elements =~= array@.elements);
        Some((ValueArray::Int(array), next))
    } else if let Some((array, next)) = value_array_1d::<HashSet<Int>>(chars, pos) {
        assert(array_model(array).elements =~= array@.elements.map_values(
            |set: HashSet<Int>| set@,
        ));
        Some((ValueArray::SetOfInt(array), next))
    } else {
        None
    }
}

/// Rows that start with a row as long as `width`, which lasts for the rows after it, are
/// all as long as each other where the new row has that length too.
proof fn lemma_rectangular_push<M>(rows: Seq<Seq<M>>, row: Seq<M>)
    ensures
        rectangular(rows.push(row)) <==> rectangular(rows) && (rows.len() > 0 ==> row.len()
            == rows[0].len()),
{
    let longer = rows.push(row);
    if rectangular(longer) {
        assert forall|i: int| 0 <= i < rows.len() implies (#[trigger] rows[i]).len()
            == rows[0].len() by {
            assert(longer[i] == rows[i]);
            assert(longer[0] == rows[0]);
        }
        if rows.len() > 0 {
            assert(longer[rows.len() as int] == row);
            assert(longer[0] == rows[0]);
        }
    }
    if rectangular(rows) && (rows.len() > 0 ==> row.len() == rows[0].len()) {
        assert forall|i: int| 0 <= i < longer.len() implies (#[trigger] longer[i]).len()
            == longer[0].len() by {
            if i < rows.len() {
                assert(longer[i] == rows[i]);
            }
        }
    }
}

/// Reads a two-dimensional array of elements of one kind at `pos`, and says where it ends.
/// The rows are read one after the other into one vector; rows of different lengths make
/// no array.
pub(crate) fn value_array_2d<E: Element>(chars: &[char], pos: usize) -> (found: Option<
    (ShapedArray<E, 2>, usize),
>)
    requires
        pos <= chars.len(),
    ensures
        found_at(
            chars@,
            pos,
            spec_value_array_2d::<E>(chars@.skip(pos as int)),
            match found {
                Some((array, next)) => Some((array_model(array), next)),
                None => None,
            },
        ),
        found matches Some((array, _)) ==> array.well_formed(),
{
    let inside = match after_word(chars, pos, "[|") {
        Some(inside) => inside,
        None => {
            return None;
        },
    };
    let start = skip_space(chars, inside);
    let ghost target = spec_rows::<E>(chars@.skip(start as int));
    let ghost rows = Seq::<Seq<E::Model>>::empty();
    let mut elements: Vec<E> = Vec::new();
    let mut count: usize = 0;
    let mut width: usize = 0;
    let mut uniform = true;
    let mut at = start;
    proof {
        assert(models(elements@) =~= rows.flatten());
    }
    loop
        invariant
            pos <= start <= at <= chars.len(),
            grammar::after_word(chars@.skip(pos as int), "[|"@) matches Some(opened)
                && grammar::skip_space(opened) == chars@.skip(start as int),
            target == spec_rows::<E>(chars@.skip(start as int)),
            target == with_front(rows, spec_rows::<E>(chars@.skip(at as int))),
            models(elements@) == rows.flatten(),
            count == rows.len(),
            count <= elements.len(),
            count > 0 ==> width == rows[0].len(),
            uniform <==> rectangular(rows),
            uniform ==> elements.len() == count * width,
        decreases chars.len() - at,
    {
        let (mut row, end) = match value_items::<E>(chars, at) {
            Some(found) => found,
            None => {
                return None;
            },
        };
        if !starts_with(chars, end, '|') {
            return None;
        }
        let rest = skip_space(chars, end + 1);
        let ghost line = models(row@);
        proof {
            lemma_skip_twice(chars@, end as int, 1);
            E::lemma_grammar_consumes(chars@.skip(at as int));
            lemma_rectangular_push(rows, line);
            rows.lemma_flatten_push(line);
            assert(models(elements@ + row@) =~= models(elements@) + line);
            assert(line.len() == row@.len());
            assert(line.len() >= 1);
            if uniform && (count > 0 ==> row@.len() == width) {
                assert((count + 1) * row@.len() == count * row@.len() + row@.len())
                    by (nonlinear_arith);
            }
        }
        if count == 0 {
            width = row.len();
        } else if row.len() != width {
            uniform = false;
        }
        elements.append(&mut row);
        assert(count < elements.len());
        count += 1;
        if starts_with(chars, rest, ']') {
            proof {
                lemma_skip_twice(chars@, rest as int, 1);
                assert(spec_rows::<E>(chars@.skip(at as int)) == Some(
                    (seq![line], chars@.skip(rest + 1)),
                ));
                assert(rows + seq![line] =~= rows.push(line));
                assert(rows.push(line)[0] == if rows.len() > 0 {
                    rows[0]
                } else {
                    line
                });
            }
            if !uniform {
                return None;
            }
            let array = ShapedArray::new([count, width], elements);
            proof {
                assert(array@.shape =~= seq![count, width]);
                lemma_shape_size_2d(count, width);
            }
            return Some((array, rest + 1));
        }
        proof {
            let after = spec_rows::<E>(chars@.skip(rest as int));
            assert(spec_rows::<E>(chars@.skip(at as int)) == with_front(seq![line], after));
            if let Some((more, tail)) = after {
                assert(rows + (seq![line] + more) =~= rows.push(line) + more);
            }
            assert(rows.push(line)[0] == if rows.len() > 0 {
                rows[0]
            } else {
                line
            });
            rows = rows.push(line);
        }
        at = rest;
    }
}

/// Reads a two-dimensional array at `pos`, and says where it ends.
pub(crate) fn array_2d<Int: Integer>(chars: &[char], pos: usize) -> (found: Option<
    (ValueArray<Int, 2>, usize),
>)
    requires
        pos <= chars.len(),
    ensures
        found_at(
            chars@,
            pos,
            spec_array_2d::<Int>(chars@.skip(pos as int)),
            match found {
                Some((array, next)) => Some((array@, next)),
                None => None,
            },
        ),
        found matches Some((array, _)) ==> array@.well_formed(),
{
    if let Some((array, next)) = value_array_2d::<bool>(chars, pos) {
        assert(array_model(array).elements =~= array@.elements);
        Some((ValueArray::Bool(array), next))
    } else if let Some((array, next)) = value_array_2d::<Int>(chars, pos) {
        assert(array_model(array).elements =~= array@.elements);
        Some((ValueArray::Int(array), next))
    } else {
        None
    }
}

/// What a statement binds to its identifier.
#[derive(Debug)]
pub enum ValueOrArray<Int> {
    Value(Value<Int>),
    Array1d(ValueArray<Int, 1>),
    Array2d(ValueArray<Int, 2>),
}

impl<Int> View for ValueOrArray<Int> {
    type V = Payload<Int>;

    open spec fn view(&self) -> Payload<Int> {
        match self {
            ValueOrArray::Value(value) => Payload::Value(value@),
            ValueOrArray::Array1d(array) => Payload::Array1d(array@),
            ValueOrArray::Array2d(array) => Payload::Array2d(array@),
        }
    }
}

/// Reads a value or an array at `pos`, and says where it ends.
pub(crate) fn value_or_array<Int: Integer>(chars: &[char], pos: usize) -> (found: Option<
    (ValueOrArray<Int>, usize),
>)
    requires
        pos <= chars.len(),
    ensures
        found_at(
            chars@,
            pos,
            spec_value_or_array::<Int>(chars@.skip(pos as int)),
            match found {
                Some((payload, next)) => Some((payload@, next)),
                None => None,
            },
        ),
        found matches Some((payload, _)) ==> payload@.well_formed(),
{
    if let Some((scalar, next)) = value::<Int>(chars, pos) {
        Some((ValueOrArray::Value(scalar), next))
    } else if let Some((array, next)) = array_1d::<Int>(chars, pos) {
        proof {
            lemma_rank_of(array);
        }
        Some((ValueOrArray::Array1d(array), next))
    } else if let Some((array, next)) = array_2d::<Int>(chars, pos) {
        proof {
            lemma_rank_of(array);
        }
        Some((ValueOrArray::Array2d(array), next))
    } else {
        None
    }
}

/// The shape of an array has as many extents as the rank in its type.
proof fn lemma_rank_of<Int, const D: usize>(array: ValueArray<Int, D>)
    ensures
        array@.shape().len() == D,
{
    match array {
        ValueArray::Bool(shaped) => shaped.lemma_rank(),
        ValueArray::Int(shaped) => shaped.lemma_rank(),
        ValueArray::SetOfInt(shaped) => shaped.lemma_rank(),
    }
}

/// The failure to find `expected` at `at`: what is left of the text from there is kept.
fn failure(chars: &[char], at: usize, expected: SyntaxElement) -> (error: DznParseError)
    requires
        at <= chars.len(),
    ensures
        error matches DznParseError::InvalidSyntax { expected: element, actual }
            && element == expected && actual@ == chars@.skip(at as int),
{
    let actual = text_between(chars, at, chars.len());
    DznParseError::InvalidSyntax { expected, actual }
}

/// Reads a statement at `pos`, and says where the next one starts.
pub(crate) fn statement<Int: Integer>(chars: &[char], pos: usize) -> (found: Result<
    (String, ValueOrArray<Int>, usize),
    DznParseError,
>)
    requires
        pos <= chars.len(),
    ensures
        match spec_statement::<Int>(chars@.skip(pos as int)) {
            Ok(((name, payload), rest)) => found matches Ok((text, bound, next)) && text@ == name
                && bound@ == payload && bound@.well_formed() && pos < next <= chars.len()
                && chars@.skip(next as int) == rest,
            Err(failure) => found matches Err(
                DznParseError::InvalidSyntax { expected, actual },
            ) && expected == failure.expected && actual@ == failure.actual,
        },
{
    let at_name = skip_space(chars, pos);
    let (name, after_name) = match identifier(chars, at_name) {
        Some(found) => found,
        None => {
            return Err(failure(chars, at_name, SyntaxElement::Identifier));
        },
    };
    let at_equals = skip_space(chars, after_name);
    if !starts_with(chars, at_equals, '=') {
        return Err(failure(chars, at_equals, SyntaxElement::Equals));
    }
    let at_value = skip_space(chars, at_equals + 1);
    proof {
        lemma_skip_twice(chars@, at_equals as int, 1);
    }
    let (payload, after_value) = match value_or_array::<Int>(chars, at_value) {
        Some(found) => found,
        None => {
            return Err(failure(chars, at_value, SyntaxElement::Value));
        },
    };
    let at_end = skip_space(chars, after_value);
    if !starts_with(chars, at_end, ';') {
        return Err(failure(chars, at_end, SyntaxElement::SemiColon));
    }
    let next = skip_space(chars, at_end + 1);
    proof {
        lemma_skip_twice(chars@, at_end as int, 1);
    }
    Ok((name, payload, next))
}

/// Where the text starts and ends once the white space at either end is left out.
pub(crate) fn trim(chars: &[char]) -> (bounds: (usize, usize))
    ensures
        bounds.0 <= bounds.1 <= chars.len(),
        chars@.subrange(bounds.0 as int, bounds.1 as int) == grammar::trim(chars@),
{
    let from = scan(chars, 0, CharClass::WhiteSpace);
    let mut to = chars.len();
    proof {
        assert(chars@.skip(0) =~= chars@);
        assert(chars@.skip(from as int) =~= chars@.subrange(from as int, to as int));
    }
    while to > from && CharClass::WhiteSpace.contains(chars[to - 1])
        invariant
            from <= to <= chars.len(),
            trailing(CharClass::WhiteSpace, chars@.subrange(from as int, chars.len() as int))
                == chars.len() - to + trailing(
                CharClass::WhiteSpace,
                chars@.subrange(from as int, to as int),
            ),
        decreases to,
    {
        proof {
            assert(chars@.subrange(from as int, to as int).drop_last() =~= chars@.subrange(
                from as int,
                to - 1,
            ));
        }
        to -= 1;
    }
    proof {
        let rest = chars@.subrange(from as int, chars.len() as int);
        assert(rest.take(to - from) =~= chars@.subrange(from as int, to as int));
    }
    (from, to)
}

/// Whether `result` is what the grammar asks for: the store that it describes, or the
/// syntax error with the failure that it describes.
pub open spec fn is_outcome<Int>(
    result: Result<DataFile<Int>, DznParseError>,
    expected: Result<DataFileView<Int>, SyntaxFailure>,
) -> bool {
    match expected {
        Ok(store) => result matches Ok(data_file) && data_file@ == store
            && data_file@.well_formed(),
        Err(failure) => result matches Err(DznParseError::InvalidSyntax { expected, actual })
            && expected == failure.expected && actual@ == failure.actual,
    }
}

/// Parse the data file from the characters of a text.
///
/// The statements are read one after the other; the first that cannot be read ends the
/// parse with its error, and nothing of what was read before is handed out.
pub fn parse_chars<Int: Integer>(chars: &[char]) -> (result: Result<
    DataFile<Int>,
    DznParseError,
>)
    ensures
        is_outcome(result, spec_parse::<Int>(chars@)),
{
    let (from, to) = trim(chars);
    let text = slice_subrange(chars, 0, to);
    let mut data_file = DataFile::default();
    let mut pos = from;
    proof {
        assert(text@.skip(from as int) =~= grammar::trim(chars@));
    }
    while pos < text.len()
        invariant
            pos <= text.len(),
            data_file@.well_formed(),
            spec_parse::<Int>(chars@) == spec_statements::<Int>(
                data_file@,
                text@.skip(pos as int),
            ),
        decreases text.len() - pos,
    {
        match statement::<Int>(text, pos) {
            Ok((name, payload, next)) => {
                data_file.bind(name, payload);
                pos = next;
            },
            Err(error) => {
                return Err(error);
            },
        }
    }
    Ok(data_file)
}

/// `std::str::from_utf8` hands out the bytes as a text where they are valid UTF-8, and an
/// error where they are not. The text is the one that these bytes encode.
#[verifier::external_body]
fn from_utf8(bytes: &[u8]) -> (decoded: Result<&str, std::str::Utf8Error>)
    ensures
        match decoded {
            Ok(text) => valid_utf8(bytes@) && encode_utf8(text@) == bytes@,
            Err(_) => !valid_utf8(bytes@),
        },
{
    std::str::from_utf8(bytes)
}

/// The characters of `text`, one by one.
fn chars_of(text: &str) -> (chars: Vec<char>)
    ensures
        chars@ == text@,
{
    let mut chars: Vec<char> = Vec::new();
    for c in iter: text.chars()
        invariant
            chars@ == iter.seq().take(iter.index() as int),
            iter.seq() == text@,
    {
        chars.push(c);
    }
    chars
}

/// Parse the data file from a text.
pub fn parse_str<Int: Integer>(text: &str) -> (result: Result<DataFile<Int>, DznParseError>)
    ensures
        is_outcome(result, spec_parse::<Int>(text@)),
{
    let chars = chars_of(text);
    parse_chars(chars.as_slice())
}

/// Parse the data file from the given source.
///
/// The source has to be UTF-8 text. The statements are read one after the other; the first
/// that cannot be read ends the parse with its error.
pub fn parse<Int: Integer>(source: &[u8]) -> (result: Result<DataFile<Int>, DznParseError>)
    ensures
        valid_utf8(source@) ==> is_outcome(result, spec_parse::<Int>(decode_utf8(source@))),
        !valid_utf8(source@) ==> result matches Err(DznParseError::InvalidEncoding(_)),
{
    match from_utf8(source) {
        Ok(text) => {
            proof {
                encode_utf8_decode_utf8(text@);
            }
            parse_str(text)
        },
        Err(error) => Err(DznParseError::InvalidEncoding(error)),
    }
}

} // verus!
