use crate::grammar;
use crate::numbers::Integer;
use crate::parser::ValueOrArray;
use crate::value::{ArrayView, GetValue, ShapedArray, Value, ValueArray, ValueView};
use std::collections::HashSet;
use std::marker::PhantomData;
use vstd::hash_map::StringHashMap;
use vstd::prelude::*;

verus! {

/// The top-level structure which represents a data file.
///
/// A data file is a key-value store, where the key is an identifier, and the value is one
/// of:
/// - `bool`
/// - `int`
/// - `set of int`
/// - a one- or two-dimensional array of one of the above
///
/// Conceptually, the integers of a data file are unbounded. From a practical standpoint, many
/// uses do only deal with [`i32`] or others. Therefore, [`DataFile`] is generic over the
/// integer type to allow the user to decide how big the integers can be.
#[verifier::reject_recursive_types(Int)]
pub struct DataFile<Int> {
    pub(crate) values: StringHashMap<Value<Int>>,
    pub(crate) arrays_1d: StringHashMap<ValueArray<Int, 1>>,
    pub(crate) arrays_2d: StringHashMap<ValueArray<Int, 2>>,
}

/// What a [`DataFile`] holds: three mappings from identifiers, one for each arity.
#[verifier::reject_recursive_types(Int)]
pub struct DataFileView<Int> {
    pub values: Map<Seq<char>, ValueView<Int>>,
    pub arrays_1d: Map<Seq<char>, ArrayView<Int>>,
    pub arrays_2d: Map<Seq<char>, ArrayView<Int>>,
}

impl<Int> DataFileView<Int> {
    /// The store that holds nothing.
    pub open spec fn empty() -> Self {
        DataFileView { values: Map::empty(), arrays_1d: Map::empty(), arrays_2d: Map::empty() }
    }

    /// Every array has as many elements as its shape has places, and the rank of the
    /// mapping that it is in.
    pub open spec fn well_formed(self) -> bool {
        &&& forall|key: Seq<char>| #[trigger]
            self.arrays_1d.contains_key(key) ==> self.arrays_1d[key].well_formed()
                && self.arrays_1d[key].shape().len() == 1
        &&& forall|key: Seq<char>| #[trigger]
            self.arrays_2d.contains_key(key) ==> self.arrays_2d[key].well_formed()
                && self.arrays_2d[key].shape().len() == 2
    }
}

impl<Int> View for DataFile<Int> {
    type V = DataFileView<Int>;

    closed spec fn view(&self) -> DataFileView<Int> {
        DataFileView {
            values: self.values@.map_values(|value: Value<Int>| value@),
            arrays_1d: self.arrays_1d@.map_values(|array: ValueArray<Int, 1>| array@),
            arrays_2d: self.arrays_2d@.map_values(|array: ValueArray<Int, 2>| array@),
        }
    }
}

impl<Int> Default for DataFile<Int> {
    /// The data file without any statement.
    fn default() -> (data_file: Self)
        ensures
            data_file@ == DataFileView::<Int>::empty(),
    {
        let data_file = DataFile {
            values: StringHashMap::new(),
            arrays_1d: StringHashMap::new(),
            arrays_2d: StringHashMap::new(),
        };
        assert(data_file@.values =~= Map::empty());
        assert(data_file@.arrays_1d =~= Map::empty());
        assert(data_file@.arrays_2d =~= Map::empty());
        data_file
    }
}

impl<Int: Integer> DataFile<Int> {
    /// The value that is bound to `key`, if there is one.
    pub closed spec fn spec_value(&self, key: Seq<char>) -> Option<Value<Int>> {
        if self.values@.contains_key(key) {
            Some(self.values@[key])
        } else {
            None
        }
    }

    /// The one-dimensional array that is bound to `key`, if there is one.
    pub closed spec fn spec_array_1d(&self, key: Seq<char>) -> Option<ValueArray<Int, 1>> {
        if self.arrays_1d@.contains_key(key) {
            Some(self.arrays_1d@[key])
        } else {
            None
        }
    }

    /// The two-dimensional array that is bound to `key`, if there is one.
    pub closed spec fn spec_array_2d(&self, key: Seq<char>) -> Option<ValueArray<Int, 2>> {
        if self.arrays_2d@.contains_key(key) {
            Some(self.arrays_2d@[key])
        } else {
            None
        }
    }

    /// What is bound to a key is what the view holds for it.
    pub proof fn lemma_bindings_are_viewed(&self, key: Seq<char>)
        ensures
            match self.spec_value(key) {
                Some(value) => self@.values.contains_key(key) && self@.values[key] == value@,
                None => !self@.values.contains_key(key),
            },
            match self.spec_array_1d(key) {
                Some(array) => self@.arrays_1d.contains_key(key) && self@.arrays_1d[key]
                    == array@,
                None => !self@.arrays_1d.contains_key(key),
            },
            match self.spec_array_2d(key) {
                Some(array) => self@.arrays_2d.contains_key(key) && self@.arrays_2d[key]
                    == array@,
                None => !self@.arrays_2d.contains_key(key),
            },
    {
    }

    /// Nothing is bound to any key in a store without bindings, so that nothing is found in
    /// it, whatever the key and the type that is asked for.
    pub proof fn lemma_empty_store_binds_nothing(&self, key: Seq<char>)
        requires
            self@ == DataFileView::<Int>::empty(),
        ensures
            self.spec_value(key) is None,
            self.spec_array_1d(key) is None,
            self.spec_array_2d(key) is None,
    {
        self.lemma_bindings_are_viewed(key);
        assert(!self@.values.contains_key(key));
        assert(!self@.arrays_1d.contains_key(key));
        assert(!self@.arrays_2d.contains_key(key));
    }

    /// A key that the view binds to a boolean is bound to that boolean: it is found as a
    /// boolean, and neither as an integer nor as a set.
    pub proof fn lemma_boolean_binding(&self, key: Seq<char>, boolean: bool)
        requires
            self@.values.contains_key(key),
            self@.values[key] == ValueView::<Int>::Bool(boolean),
        ensures
            self.spec_value(key) == Some(Value::<Int>::Bool(boolean)),
            GetValue::<bool>::spec_try_get(&Value::<Int>::Bool(boolean)) == Some(&boolean),
            GetValue::<Int>::spec_try_get(&Value::<Int>::Bool(boolean)) is None,
            GetValue::<HashSet<Int>>::spec_try_get(&Value::<Int>::Bool(boolean)) is None,
    {
    }

    /// A key that the view binds to an integer is bound to that integer: it is found as an
    /// integer, and neither as a boolean nor as a set.
    pub proof fn lemma_integer_binding(&self, key: Seq<char>, number: Int)
        requires
            self@.values.contains_key(key),
            self@.values[key] == ValueView::Int(number),
        ensures
            self.spec_value(key) == Some(Value::Int(number)),
            GetValue::<Int>::spec_try_get(&Value::Int(number)) == Some(&number),
            GetValue::<bool>::spec_try_get(&Value::Int(number)) is None,
            GetValue::<HashSet<Int>>::spec_try_get(&Value::Int(number)) is None,
    {
    }

    /// A key that the view binds to a set is bound to a set with these members: it is
    /// found as a set, and neither as a boolean nor as an integer.
    pub proof fn lemma_set_binding(&self, key: Seq<char>, members: Set<Int>)
        requires
            self@.values.contains_key(key),
            self@.values[key] == ValueView::SetOfInt(members),
        ensures
            self.spec_value(key) matches Some(Value::SetOfInt(set)) && set@ == members
                && GetValue::<HashSet<Int>>::spec_try_get(&Value::SetOfInt(set)) == Some(&set)
                && GetValue::<bool>::spec_try_get(&Value::SetOfInt(set)) is None
                && GetValue::<Int>::spec_try_get(&Value::SetOfInt(set)) is None,
    {
    }

    /// Binds `payload` to `name`, in the mapping of the payload's arity. What was bound to
    /// `name` there before is lost.
    pub(crate) fn bind(&mut self, name: String, payload: ValueOrArray<Int>)
        requires
            old(self)@.well_formed(),
            payload@.well_formed(),
        ensures
            final(self)@ == grammar::bind(old(self)@, name@, payload@),
            final(self)@.well_formed(),
    {
        match payload {
            ValueOrArray::Value(value) => {
                self.values.insert(name, value);
                assert(self@.values =~= old(self)@.values.insert(name@, value@));
                assert(self@.arrays_1d =~= old(self)@.arrays_1d);
                assert(self@.arrays_2d =~= old(self)@.arrays_2d);
            },
            ValueOrArray::Array1d(array) => {
                self.arrays_1d.insert(name, array);
                assert(self@.arrays_1d =~= old(self)@.arrays_1d.insert(name@, array@));
                assert(self@.values =~= old(self)@.values);
                assert(self@.arrays_2d =~= old(self)@.arrays_2d);
            },
            ValueOrArray::Array2d(array) => {
                self.arrays_2d.insert(name, array);
                assert(self@.arrays_2d =~= old(self)@.arrays_2d.insert(name@, array@));
                assert(self@.values =~= old(self)@.values);
                assert(self@.arrays_1d =~= old(self)@.arrays_1d);
            },
        }
    }

    /// Get a value from the data file with the given `key`.
    ///
    /// When attempting to get a specific type, this method does not discriminate to the key not
    /// existing at all, or whether the value is a different type. In either situation, [`None`] is
    /// returned.
    pub fn get<T>(&self, key: &str) -> (found: Option<&T>) where Value<Int>: GetValue<T>
        ensures
            found == match self.spec_value(key@) {
                Some(value) => value.spec_try_get(),
                None => None,
            },
            !self@.values.contains_key(key@) ==> found is None,
            match self.spec_value(key@) {
                Some(value) => self@.values.contains_key(key@) && self@.values[key@] == value@,
                None => !self@.values.contains_key(key@),
            },
    {
        match self.values.get(key) {
            Some(value) => value.try_get(),
            None => None,
        }
    }

    /// Get a 1-dimensional array from the data file with the given `key` and `length`.
    pub fn array_1d<T>(&self, key: &str, length: usize) -> (found: Option<
        &ShapedArray<T, 1>,
    >) where ValueArray<Int, 1>: GetValue<ShapedArray<T, 1>>
        ensures
            found == match self.spec_array_1d(key@) {
                Some(array) => match array.spec_try_get() {
                    Some(shaped) if shaped@.shape == seq![length] => Some(shaped),
                    _ => None,
                },
                None => None,
            },
            !self@.arrays_1d.contains_key(key@) ==> found is None,
            match self.spec_array_1d(key@) {
                Some(array) => self@.arrays_1d.contains_key(key@) && self@.arrays_1d[key@]
                    == array@,
                None => !self@.arrays_1d.contains_key(key@),
            },
    {
        match self.arrays_1d.get(key) {
            Some(array) => match array.try_get() {
                Some(shaped) => {
                    let shape = shaped.shape();
                    if shape[0] == length {
                        assert(shaped@.shape =~= seq![length]);
                        Some(shaped)
                    } else {
                        None
                    }
                },
                None => None,
            },
            None => None,
        }
    }

    /// Get a 2-dimensional array from the data file with the given `key`.
    ///
    /// The array shape should match `shape`.
    pub fn array_2d<T>(&self, key: &str, shape: [usize; 2]) -> (found: Option<
        &ShapedArray<T, 2>,
    >) where ValueArray<Int, 2>: GetValue<ShapedArray<T, 2>>
        ensures
            found == match self.spec_array_2d(key@) {
                Some(array) => match array.spec_try_get() {
                    Some(shaped) if shaped@.shape == shape@ => Some(shaped),
                    _ => None,
                },
                None => None,
            },
            !self@.arrays_2d.contains_key(key@) ==> found is None,
            match self.spec_array_2d(key@) {
                Some(array) => self@.arrays_2d.contains_key(key@) && self@.arrays_2d[key@]
                    == array@,
                None => !self@.arrays_2d.contains_key(key@),
            },
    {
        match self.arrays_2d.get(key) {
            Some(array) => match array.try_get() {
                Some(shaped) => {
                    let stored = shaped.shape();
                    if stored[0] == shape[0] && stored[1] == shape[1] {
                        assert(shaped@.shape =~= shape@);
                        Some(shaped)
                    } else {
                        None
                    }
                },
                None => None,
            },
            None => None,
        }
    }
}

/// A borrowed array of `T`.
pub struct Array<'a, T> {
    a: PhantomData<&'a ()>,
    b: PhantomData<T>,
}

} // verus!
