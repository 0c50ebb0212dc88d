use core::hash::Hash;
use vstd::prelude::*;
use vstd::std_specs::hash::obeys_key_model;

verus! {

/// What a type has to offer to hold the integers of a data file: a value for each natural
/// number in its range, and equality and hashing by which its values can be kept in a set.
///
/// A data file has no sign, so only the numbers from zero up to the largest of the type
/// can be written in it.
pub trait Integer: Sized + Copy + Eq + Hash {
    /// The value that stands for `n`, where the type has one.
    spec fn of_nat(n: nat) -> Option<Self>;

    /// The value that stands for `n`, where the type has one.
    fn from_u128(n: u128) -> (value: Option<Self>)
        ensures
            value == Self::of_nat(n as nat),
    ;

    /// No type reaches beyond 128 bits.
    proof fn lemma_of_nat_bounded(n: nat)
        requires
            Self::of_nat(n) is Some,
        ensures
            n <= u128::MAX,
    ;

    /// Values of the type may be kept in a hash set.
    proof fn lemma_obeys_key_model()
        ensures
            obeys_key_model::<Self>(),
    ;
}

impl Integer for i8 {
    open spec fn of_nat(n: nat) -> Option<i8> {
        if n <= i8::MAX {
            Some(n as i8)
        } else {
            None
        }
    }

    fn from_u128(n: u128) -> (value: Option<i8>) {
        if n <= i8::MAX as u128 {
            Some(n as i8)
        } else {
            None
        }
    }

    proof fn lemma_of_nat_bounded(n: nat) {
    }

    proof fn lemma_obeys_key_model() {
        broadcast use vstd::std_specs::hash::group_hash_axioms;

    }
}

impl Integer for i16 {
    open spec fn of_nat(n: nat) -> Option<i16> {
        if n <= i16::MAX {
            Some(n as i16)
        } else {
            None
        }
    }

    fn from_u128(n: u128) -> (value: Option<i16>) {
        if n <= i16::MAX as u128 {
            Some(n as i16)
        } else {
            None
        }
    }

    proof fn lemma_of_nat_bounded(n: nat) {
    }

    proof fn lemma_obeys_key_model() {
        broadcast use vstd::std_specs::hash::group_hash_axioms;

    }
}

impl Integer for i32 {
    open spec fn of_nat(n: nat) -> Option<i32> {
        if n <= i32::MAX {
            Some(n as i32)
        } else {
            None
        }
    }

    fn from_u128(n: u128) -> (value: Option<i32>) {
        if n <= i32::MAX as u128 {
            Some(n as i32)
        } else {
            None
        }
    }

    proof fn lemma_of_nat_bounded(n: nat) {
    }

    proof fn lemma_obeys_key_model() {
        broadcast use vstd::std_specs::hash::group_hash_axioms;

    }
}

impl Integer for i64 {
    open spec fn of_nat(n: nat) -> Option<i64> {
        if n <= i64::MAX {
            Some(n as i64)
        } else {
            None
        }
    }

    fn from_u128(n: u128) -> (value: Option<i64>) {
        if n <= i64::MAX as u128 {
            Some(n as i64)
        } else {
            None
        }
    }

    proof fn lemma_of_nat_bounded(n: nat) {
    }

    proof fn lemma_obeys_key_model() {
        broadcast use vstd::std_specs::hash::group_hash_axioms;

    }
}

impl Integer for i128 {
    open spec fn of_nat(n: nat) -> Option<i128> {
        if n <= i128::MAX {
            Some(n as i128)
        } else {
            None
        }
    }

    fn from_u128(n: u128) -> (value: Option<i128>) {
        if n <= i128::MAX as u128 {
            Some(n as i128)
        } else {
            None
        }
    }

    proof fn lemma_of_nat_bounded(n: nat) {
    }

    proof fn lemma_obeys_key_model() {
        broadcast use vstd::std_specs::hash::group_hash_axioms;

    }
}

impl Integer for isize {
    open spec fn of_nat(n: nat) -> Option<isize> {
        if n <= isize::MAX {
            Some(n as isize)
        } else {
            None
        }
    }

    fn from_u128(n: u128) -> (value: Option<isize>) {
        if n <= isize::MAX as u128 {
            Some(n as isize)
        } else {
            None
        }
    }

    proof fn lemma_of_nat_bounded(n: nat) {
    }

    proof fn lemma_obeys_key_model() {
        broadcast use vstd::std_specs::hash::group_hash_axioms;

    }
}

impl Integer for u8 {
    open spec fn of_nat(n: nat) -> Option<u8> {
        if n <= u8::MAX {
            Some(n as u8)
        } else {
            None
        }
    }

    fn from_u128(n: u128) -> (value: Option<u8>) {
        if n <= u8::MAX as u128 {
            Some(n as u8)
        } else {
            None
        }
    }

    proof fn lemma_of_nat_bounded(n: nat) {
    }

    proof fn lemma_obeys_key_model() {
        broadcast use vstd::std_specs::hash::group_hash_axioms;

    }
}

impl Integer for u16 {
    open spec fn of_nat(n: nat) -> Option<u16> {
        if n <= u16::MAX {
            Some(n as u16)
        } else {
            None
        }
    }

    fn from_u128(n: u128) -> (value: Option<u16>) {
        if n <= u16::MAX as u128 {
            Some(n as u16)
        } else {
            None
        }
    }

    proof fn lemma_of_nat_bounded(n: nat) {
    }

    proof fn lemma_obeys_key_model() {
        broadcast use vstd::std_specs::hash::group_hash_axioms;

    }
}

impl Integer for u32 {
    open spec fn of_nat(n: nat) -> Option<u32> {
        if n <= u32::MAX {
            Some(n as u32)
        } else {
            None
        }
    }

    fn from_u128(n: u128) -> (value: Option<u32>) {
        if n <= u32::MAX as u128 {
            Some(n as u32)
        } else {
            None
        }
    }

    proof fn lemma_of_nat_bounded(n: nat) {
    }

    proof fn lemma_obeys_key_model() {
        broadcast use vstd::std_specs::hash::group_hash_axioms;

    }
}

impl Integer for u64 {
    open spec fn of_nat(n: nat) -> Option<u64> {
        if n <= u64::MAX {
            Some(n as u64)
        } else {
            None
        }
    }

    fn from_u128(n: u128) -> (value: Option<u64>) {
        if n <= u64::MAX as u128 {
            Some(n as u64)
        } else {
            None
        }
    }

    proof fn lemma_of_nat_bounded(n: nat) {
    }

    proof fn lemma_obeys_key_model() {
        broadcast use vstd::std_specs::hash::group_hash_axioms;

    }
}

impl Integer for u128 {
    open spec fn of_nat(n: nat) -> Option<u128> {
        if n <= u128::MAX {
            Some(n as u128)
        } else {
            None
        }
    }

    fn from_u128(n: u128) -> (value: Option<u128>) {
        Some(n)
    }

    proof fn lemma_of_nat_bounded(n: nat) {
    }

    proof fn lemma_obeys_key_model() {
        broadcast use vstd::std_specs::hash::group_hash_axioms;

    }
}

impl Integer for usize {
    open spec fn of_nat(n: nat) -> Option<usize> {
        if n <= usize::MAX {
            Some(n as usize)
        } else {
            None
        }
    }

    fn from_u128(n: u128) -> (value: Option<usize>) {
        if n <= usize::MAX as u128 {
            Some(n as usize)
        } else {
            None
        }
    }

    proof fn lemma_of_nat_bounded(n: nat) {
    }

    proof fn lemma_obeys_key_model() {
        broadcast use vstd::std_specs::hash::group_hash_axioms;

    }
}

} // verus!
