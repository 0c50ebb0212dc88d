use crate::numbers::Integer;
use std::collections::HashSet;
use vstd::prelude::*;
use vstd::std_specs::hash::obeys_key_model;

verus! {

/// A primitive value.
#[derive(Debug)]
pub enum Value<Int> {
    Bool(bool),
    Int(Int),
    SetOfInt(HashSet<Int>),
}

/// What a [`Value`] holds.
#[verifier::reject_recursive_types(Int)]
pub enum ValueView<Int> {
    Bool(bool),
    Int(Int),
    SetOfInt(Set<Int>),
}

impl<Int> View for Value<Int> {
    type V = ValueView<Int>;

    open spec fn view(&self) -> ValueView<Int> {
        match self {
            Value::Bool(b) => ValueView::Bool(*b),
            Value::Int(i) => ValueView::Int(*i),
            Value::SetOfInt(s) => ValueView::SetOfInt(s@),
        }
    }
}

/// `HashSet::clone` hands out a set of the clones of the members. Where cloning a member
/// gives the member, as it does for a key of a hash table, the set has the same members.
#[verifier::external_body]
fn clone_set<Int: Integer>(set: &HashSet<Int>) -> (copy: HashSet<Int>)
    ensures
        obeys_key_model::<Int>() ==> copy@ == set@,
{
    set.clone()
}

impl<Int: Integer> Clone for Value<Int> {
    fn clone(&self) -> (copy: Self)
        ensures
            copy@ == self@,
    {
        match self {
            Value::Bool(boolean) => Value::Bool(*boolean),
            Value::Int(number) => Value::Int(*number),
            Value::SetOfInt(set) => {
                proof {
                    Int::lemma_obeys_key_model();
                }
                Value::SetOfInt(clone_set(set))
            },
        }
    }
}

/// Helper trait to extract values from enums.
pub trait GetValue<T> {
    /// The value inside, if the enum holds a `T`.
    spec fn spec_try_get(&self) -> Option<&T>;

    /// If the enum is `T`, then return the value. Otherwise, return `None`.
    fn try_get(&self) -> (found: Option<&T>)
        ensures
            found == self.spec_try_get(),
    ;
}

impl<Int> GetValue<bool> for Value<Int> {
    open spec fn spec_try_get(&self) -> Option<&bool> {
        match self {
            Value::Bool(boolean) => Some(boolean),
            _ => None,
        }
    }

    fn try_get(&self) -> (found: Option<&bool>) {
        match self {
            Value::Bool(boolean) => Some(boolean),
            _ => None,
        }
    }
}

impl<Int: Integer> GetValue<Int> for Value<Int> {
    open spec fn spec_try_get(&self) -> Option<&Int> {
        match self {
            Value::Int(number) => Some(number),
            _ => None,
        }
    }

    fn try_get(&self) -> (found: Option<&Int>) {
        match self {
            Value::Int(number) => Some(number),
            _ => None,
        }
    }
}

impl<Int: Integer> GetValue<HashSet<Int>> for Value<Int> {
    open spec fn spec_try_get(&self) -> Option<&HashSet<Int>> {
        match self {
            Value::SetOfInt(set) => Some(set),
            _ => None,
        }
    }

    fn try_get(&self) -> (found: Option<&HashSet<Int>>) {
        match self {
            Value::SetOfInt(set) => Some(set),
            _ => None,
        }
    }
}

/// The number of elements of an array of the given shape: the product of its extents.
pub open spec fn shape_size(shape: Seq<usize>) -> nat
    decreases shape.len(),
{
    if shape.len() == 0 {
        1
    } else {
        shape_size(shape.drop_last()) * (shape.last() as nat)
    }
}

/// An array of one dimension has as many elements as its extent.
pub proof fn lemma_shape_size_1d(length: usize)
    ensures
        shape_size(seq![length]) == length,
{
    let shape = seq![length];
    assert(shape.drop_last() =~= Seq::<usize>::empty());
    assert(shape_size(shape.drop_last()) == 1);
    assert(shape.last() == length);
    assert(shape_size(shape) == shape_size(shape.drop_last()) * (shape.last() as nat));
}

/// An array of two dimensions has as many elements as rows times columns.
pub proof fn lemma_shape_size_2d(rows: usize, columns: usize)
    ensures
        shape_size(seq![rows, columns]) == rows * columns,
{
    let shape = seq![rows, columns];
    assert(shape.drop_last() =~= seq![rows]);
    assert(shape.last() == columns);
    lemma_shape_size_1d(rows);
    assert(shape_size(shape) == shape_size(shape.drop_last()) * (shape.last() as nat));
}

/// The place of the element at `path` in an array of the given shape, rows first: each
/// further dimension multiplies what came before by its extent. For rank 2 this is
/// `row * shape[1] + column`.
pub open spec fn flat_index(shape: Seq<usize>, path: Seq<usize>) -> nat
    decreases shape.len(),
{
    if shape.len() == 0 || path.len() != shape.len() {
        0
    } else {
        flat_index(shape.drop_last(), path.drop_last()) * (shape.last() as nat) + (
        path.last() as nat)
    }
}

/// In an array of one dimension the place of an element is its index.
pub proof fn lemma_flat_index_1d(shape: Seq<usize>, path: Seq<usize>)
    requires
        shape.len() == 1,
        path.len() == 1,
    ensures
        flat_index(shape, path) == path[0],
{
    assert(shape.drop_last().len() == 0);
    assert(flat_index(shape.drop_last(), path.drop_last()) == 0);
    assert(path.last() == path[0]);
    assert(flat_index(shape, path) == flat_index(shape.drop_last(), path.drop_last()) * (
    shape.last() as nat) + (path.last() as nat));
}

/// In an array of two dimensions the place of an element is its row times the length of
/// a row, plus its column. An element of the array has its place among the elements.
pub proof fn lemma_flat_index_2d(shape: Seq<usize>, path: Seq<usize>)
    requires
        shape.len() == 2,
        path.len() == 2,
    ensures
        flat_index(shape, path) == path[0] * shape[1] + path[1],
        path[0] < shape[0] && path[1] < shape[1] ==> flat_index(shape, path) < shape_size(shape),
{
    lemma_flat_index_1d(shape.drop_last(), path.drop_last());
    assert(shape.drop_last().drop_last() =~= Seq::<usize>::empty());
    assert(shape_size(shape.drop_last().drop_last()) == 1);
    assert(shape_size(shape.drop_last()) == 1 * (shape[0] as nat));
    assert(shape_size(shape) == shape[0] * shape[1]);
    if path[0] < shape[0] && path[1] < shape[1] {
        assert(path[0] * shape[1] + path[1] < shape[0] * shape[1]) by (nonlinear_arith)
            requires
                path[0] < shape[0],
                path[1] < shape[1],
        ;
    }
}

/// The shape and the elements of an array, rows first.
pub struct ArrayModel<T> {
    pub shape: Seq<usize>,
    pub elements: Seq<T>,
}

impl<T> ArrayModel<T> {
    /// There is one element for each place that the shape has.
    pub open spec fn well_formed(self) -> bool {
        self.elements.len() == shape_size(self.shape)
    }

    /// The element at `path`, if its place is one of the array's.
    pub open spec fn get(self, path: Seq<usize>) -> Option<T> {
        if flat_index(self.shape, path) < self.elements.len() {
            Some(self.elements[flat_index(self.shape, path) as int])
        } else {
            None
        }
    }
}

/// 1d or 2d array of values.
#[derive(Clone, Debug)]
pub struct ShapedArray<T, const DIM: usize> {
    pub(crate) shape: [usize; DIM],
    pub(crate) elements: Vec<T>,
}

impl<T, const D: usize> View for ShapedArray<T, D> {
    type V = ArrayModel<T>;

    closed spec fn view(&self) -> ArrayModel<T> {
        ArrayModel { shape: self.shape@, elements: self.elements@ }
    }
}

impl<T, const D: usize> ShapedArray<T, D> {
    /// There is one element for each place that the shape has.
    pub open spec fn well_formed(&self) -> bool {
        self@.well_formed()
    }

    /// The array with the given shape and elements.
    pub(crate) fn new(shape: [usize; D], elements: Vec<T>) -> (array: Self)
        ensures
            array@ == (ArrayModel { shape: shape@, elements: elements@ }),
    {
        ShapedArray { shape, elements }
    }

    /// The rank is part of the type.
    pub proof fn lemma_rank(&self)
        ensures
            self@.shape.len() == D,
    {
    }

    /// Get the shape of the multi-dimensional array.
    pub fn shape(&self) -> (shape: &[usize; D])
        ensures
            shape@ == self@.shape,
    {
        &self.shape
    }

    /// Get a value from the array with the given path.
    ///
    /// The path holds one index for each of the dimensions of the array. The element is
    /// looked up at the place that the path has among all elements, rows first.
    pub fn get(&self, path: [usize; D]) -> (element: Option<&T>)
        ensures
            match self@.get(path@) {
                Some(value) => element == Some(&value),
                None => element is None,
            },
    {
        let mut index: usize = 0;
        // Whether the place is beyond what a `usize` holds; `index` is the place otherwise.
        let mut beyond = false;
        let mut dim: usize = 0;
        while dim < D
            invariant
                dim <= D,
                beyond ==> flat_index(self.shape@.take(dim as int), path@.take(dim as int))
                    > usize::MAX,
                !beyond ==> index == flat_index(
                    self.shape@.take(dim as int),
                    path@.take(dim as int),
                ),
            decreases D - dim,
        {
            let extent = self.shape[dim];
            let step = path[dim];
            proof {
                let shape = self.shape@.take(dim + 1);
                let steps = path@.take(dim + 1);
                assert(shape.drop_last() == self.shape@.take(dim as int));
                assert(steps.drop_last() == path@.take(dim as int));
                let before = flat_index(shape.drop_last(), steps.drop_last());
                assert(flat_index(shape, steps) == before * (extent as nat) + (step as nat));
                if beyond && extent != 0 {
                    assert(before * (extent as nat) >= before) by (nonlinear_arith)
                        requires
                            extent >= 1,
                            before >= 0,
                    ;
                }
                if extent == 0 {
                    assert(before * (extent as nat) == 0) by (nonlinear_arith)
                        requires
                            extent == 0,
                    ;
                }
            }
            if extent == 0 {
                index = step;
                beyond = false;
            } else if !beyond {
                match index.checked_mul(extent) {
                    Some(scaled) => match scaled.checked_add(step) {
                        Some(place) => {
                            index = place;
                        },
                        None => {
                            beyond = true;
                        },
                    },
                    None => {
                        beyond = true;
                    },
                }
            }
            dim += 1;
        }
        let count = self.elements.len();
        proof {
            assert(self.shape@.take(D as int) == self.shape@);
            assert(path@.take(D as int) == path@);
        }
        if !beyond && index < count {
            Some(&self.elements[index])
        } else {
            None
        }
    }
}

/// The possible arrays of values.
///
/// `DIM` is either 1 or 2, depending on whether we have a 1 dimensional or 2-dimensional array.
#[derive(Clone, Debug)]
pub enum ValueArray<Int, const DIM: usize> {
    Bool(ShapedArray<bool, DIM>),
    Int(ShapedArray<Int, DIM>),
    SetOfInt(ShapedArray<HashSet<Int>, DIM>),
}

/// What a [`ValueArray`] holds.
#[verifier::reject_recursive_types(Int)]
pub enum ArrayView<Int> {
    Bool(ArrayModel<bool>),
    Int(ArrayModel<Int>),
    SetOfInt(ArrayModel<Set<Int>>),
}

impl<Int> ArrayView<Int> {
    /// The extent of each dimension.
    pub open spec fn shape(self) -> Seq<usize> {
        match self {
            ArrayView::Bool(array) => array.shape,
            ArrayView::Int(array) => array.shape,
            ArrayView::SetOfInt(array) => array.shape,
        }
    }

    /// There is one element for each place that the shape has.
    pub open spec fn well_formed(self) -> bool {
        match self {
            ArrayView::Bool(array) => array.well_formed(),
            ArrayView::Int(array) => array.well_formed(),
            ArrayView::SetOfInt(array) => array.well_formed(),
        }
    }
}

impl<Int, const D: usize> View for ValueArray<Int, D> {
    type V = ArrayView<Int>;

    open spec fn view(&self) -> ArrayView<Int> {
        match self {
            ValueArray::Bool(array) => ArrayView::Bool(array@),
            ValueArray::Int(array) => ArrayView::Int(array@),
            ValueArray::SetOfInt(array) => ArrayView::SetOfInt(
                ArrayModel {
                    shape: array@.shape,
                    elements: array@.elements.map_values(|set: HashSet<Int>| set@),
                },
            ),
        }
    }
}

impl<Int: Integer, const D: usize> GetValue<ShapedArray<bool, D>> for ValueArray<Int, D> {
    open spec fn spec_try_get(&self) -> Option<&ShapedArray<bool, D>> {
        match self {
            ValueArray::Bool(array) => Some(array),
            _ => None,
        }
    }

    fn try_get(&self) -> (found: Option<&ShapedArray<bool, D>>) {
        match self {
            ValueArray::Bool(array) => Some(array),
            _ => None,
        }
    }
}

impl<Int, const D: usize> GetValue<ShapedArray<Int, D>> for ValueArray<Int, D> {
    open spec fn spec_try_get(&self) -> Option<&ShapedArray<Int, D>> {
        match self {
            ValueArray::Int(array) => Some(array),
            _ => None,
        }
    }

    fn try_get(&self) -> (found: Option<&ShapedArray<Int, D>>) {
        match self {
            ValueArray::Int(array) => Some(array),
            _ => None,
        }
    }
}

impl<Int, const D: usize> GetValue<ShapedArray<HashSet<Int>, D>> for ValueArray<Int, D> {
    open spec fn spec_try_get(&self) -> Option<&ShapedArray<HashSet<Int>, D>> {
        match self {
            ValueArray::SetOfInt(array) => Some(array),
            _ => None,
        }
    }

    fn try_get(&self) -> (found: Option<&ShapedArray<HashSet<Int>, D>>) {
        match self {
            ValueArray::SetOfInt(array) => Some(array),
            _ => None,
        }
    }
}

} // verus!
