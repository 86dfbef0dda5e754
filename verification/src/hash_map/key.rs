use std::collections::hash_map::DefaultHasher;
use std::hash::Hasher;
use vstd::bytes::spec_u128_to_le_bytes;
use vstd::bytes::spec_u16_to_le_bytes;
use vstd::bytes::spec_u32_to_le_bytes;
use vstd::bytes::spec_u64_to_le_bytes;
use vstd::bytes::u128_to_le_bytes;
use vstd::bytes::u16_to_le_bytes;
use vstd::bytes::u32_to_le_bytes;
use vstd::bytes::u64_to_le_bytes;
use vstd::laws_eq::obeys_concrete_eq;
use vstd::prelude::*;
use vstd::std_specs::hash::DefaultHasherAdditionalSpecFns;

verus! {

/// The digest that a fresh `DefaultHasher` gives after one write of `bytes`.
pub open spec fn digest(bytes: Seq<u8>) -> u64 {
    DefaultHasher::spec_finish(seq![bytes])
}

/// Hashes `bytes` with a fresh `DefaultHasher`.
pub fn hash_bytes(bytes: &[u8]) -> (h: u64)
    ensures
        h == digest(bytes@),
{
    let mut hasher = DefaultHasher::new();
    hasher.write(bytes);
    hasher.finish()
}

/// Whether `clone` on `T` always gives back an equal value.
pub open spec fn clone_is_exact<T: Clone>() -> bool {
    forall|a: T, b: T| cloned(a, b) ==> a == b
}

/// A type whose `==` and `clone` agree with equality of values: two values compare equal
/// exactly when they are the same value, and a clone is the same value as the one it was made from.
pub trait Value: PartialEq + Clone + Sized {
    /// `==` decides equality of values.
    proof fn eq_is_exact()
        ensures
            obeys_concrete_eq::<Self>(),
    ;

    /// A clone equals the value it was made from.
    proof fn clone_is_exact()
        ensures
            clone_is_exact::<Self>(),
    ;
}

/// A type usable as a key of the map: a `Value` with a deterministic 64-bit hash.
pub trait Key: Value + Eq {
    /// The full hash of the key.
    spec fn hash_spec(&self) -> u64;

    /// Computes the full hash of the key.
    fn hash(&self) -> (h: u64)
        ensures
            h == self.hash_spec(),
    ;
}

/// Returns whether the two values are equal.
pub fn same<T: Value>(a: &T, b: &T) -> (r: bool)
    ensures
        r == (*a == *b),
{
    proof {
        T::eq_is_exact();
        reveal(obeys_concrete_eq);
    }
    *a == *b
}

/// Returns a copy of the value.
pub fn duplicate<T: Value>(a: &T) -> (r: T)
    ensures
        r == *a,
{
    let r = a.clone();
    proof {
        T::clone_is_exact();
        assert(cloned(*a, r));
    }
    r
}

impl<'a, T: Value> Value for &'a T {
    proof fn eq_is_exact() {
        reveal(obeys_concrete_eq);
        T::eq_is_exact();
    }

    proof fn clone_is_exact() {
    }
}

impl<'a, K: Key> Key for &'a K {
    open spec fn hash_spec(&self) -> u64 {
        (**self).hash_spec()
    }

    fn hash(&self) -> (h: u64) {
        (**self).hash()
    }
}

impl Value for bool {
    proof fn eq_is_exact() {
        reveal(obeys_concrete_eq);
    }

    proof fn clone_is_exact() {
    }
}

impl Value for u8 {
    proof fn eq_is_exact() {
        reveal(obeys_concrete_eq);
    }

    proof fn clone_is_exact() {
    }
}

impl Value for u16 {
    proof fn eq_is_exact() {
        reveal(obeys_concrete_eq);
    }

    proof fn clone_is_exact() {
    }
}

impl Value for u32 {
    proof fn eq_is_exact() {
        reveal(obeys_concrete_eq);
    }

    proof fn clone_is_exact() {
    }
}

impl Value for u64 {
    proof fn eq_is_exact() {
        reveal(obeys_concrete_eq);
    }

    proof fn clone_is_exact() {
    }
}

impl Value for usize {
    proof fn eq_is_exact() {
        reveal(obeys_concrete_eq);
    }

    proof fn clone_is_exact() {
    }
}

impl Value for i8 {
    proof fn eq_is_exact() {
        reveal(obeys_concrete_eq);
    }

    proof fn clone_is_exact() {
    }
}

impl Value for i16 {
    proof fn eq_is_exact() {
        reveal(obeys_concrete_eq);
    }

    proof fn clone_is_exact() {
    }
}

impl Value for i32 {
    proof fn eq_is_exact() {
        reveal(obeys_concrete_eq);
    }

    proof fn clone_is_exact() {
    }
}

impl Value for i64 {
    proof fn eq_is_exact() {
        reveal(obeys_concrete_eq);
    }

    proof fn clone_is_exact() {
    }
}

impl Value for isize {
    proof fn eq_is_exact() {
        reveal(obeys_concrete_eq);
    }

    proof fn clone_is_exact() {
    }
}

impl Key for u8 {
    open spec fn hash_spec(&self) -> u64 {
        digest(seq![*self])
    }

    fn hash(&self) -> (h: u64) {
        let bytes: Vec<u8> = vec![*self];
        assert(bytes@ =~= seq![*self]);
        hash_bytes(bytes.as_slice())
    }
}

impl Key for u16 {
    open spec fn hash_spec(&self) -> u64 {
        digest(spec_u16_to_le_bytes(*self))
    }

    fn hash(&self) -> (h: u64) {
        let bytes: Vec<u8> = u16_to_le_bytes(*self);
        hash_bytes(bytes.as_slice())
    }
}

impl Key for u32 {
    open spec fn hash_spec(&self) -> u64 {
        digest(spec_u32_to_le_bytes(*self))
    }

    fn hash(&self) -> (h: u64) {
        let bytes: Vec<u8> = u32_to_le_bytes(*self);
        hash_bytes(bytes.as_slice())
    }
}

impl Key for u64 {
    open spec fn hash_spec(&self) -> u64 {
        digest(spec_u64_to_le_bytes(*self))
    }

    fn hash(&self) -> (h: u64) {
        let bytes: Vec<u8> = u64_to_le_bytes(*self);
        hash_bytes(bytes.as_slice())
    }
}

impl Key for usize {
    open spec fn hash_spec(&self) -> u64 {
        digest(spec_u64_to_le_bytes(*self as u64))
    }

    fn hash(&self) -> (h: u64) {
        let bytes: Vec<u8> = u64_to_le_bytes(*self as u64);
        hash_bytes(bytes.as_slice())
    }
}

impl Key for i8 {
    open spec fn hash_spec(&self) -> u64 {
        digest(seq![*self as u8])
    }

    fn hash(&self) -> (h: u64) {
        let bytes: Vec<u8> = vec![*self as u8];
        assert(bytes@ =~= seq![*self as u8]);
        hash_bytes(bytes.as_slice())
    }
}

impl Key for i16 {
    open spec fn hash_spec(&self) -> u64 {
        digest(spec_u16_to_le_bytes(*self as u16))
    }

    fn hash(&self) -> (h: u64) {
        let bytes: Vec<u8> = u16_to_le_bytes(*self as u16);
        hash_bytes(bytes.as_slice())
    }
}

impl Key for i32 {
    open spec fn hash_spec(&self) -> u64 {
        digest(spec_u32_to_le_bytes(*self as u32))
    }

    fn hash(&self) -> (h: u64) {
        let bytes: Vec<u8> = u32_to_le_bytes(*self as u32);
        hash_bytes(bytes.as_slice())
    }
}

impl Key for i64 {
    open spec fn hash_spec(&self) -> u64 {
        digest(spec_u64_to_le_bytes(*self as u64))
    }

    fn hash(&self) -> (h: u64) {
        let bytes: Vec<u8> = u64_to_le_bytes(*self as u64);
        hash_bytes(bytes.as_slice())
    }
}

impl Key for isize {
    open spec fn hash_spec(&self) -> u64 {
        digest(spec_u64_to_le_bytes(*self as u64))
    }

    fn hash(&self) -> (h: u64) {
        let bytes: Vec<u8> = u64_to_le_bytes(*self as u64);
        hash_bytes(bytes.as_slice())
    }
}

impl Value for u128 {
    proof fn eq_is_exact() {
        reveal(obeys_concrete_eq);
    }

    proof fn clone_is_exact() {
    }
}

impl Value for i128 {
    proof fn eq_is_exact() {
        reveal(obeys_concrete_eq);
    }

    proof fn clone_is_exact() {
    }
}

impl Key for u128 {
    open spec fn hash_spec(&self) -> u64 {
        digest(spec_u128_to_le_bytes(*self))
    }

    fn hash(&self) -> (h: u64) {
        let bytes: Vec<u8> = u128_to_le_bytes(*self);
        hash_bytes(bytes.as_slice())
    }
}

impl Key for i128 {
    open spec fn hash_spec(&self) -> u64 {
        digest(spec_u128_to_le_bytes(*self as u128))
    }

    fn hash(&self) -> (h: u64) {
        let bytes: Vec<u8> = u128_to_le_bytes(*self as u128);
        hash_bytes(bytes.as_slice())
    }
}

impl Key for bool {
    open spec fn hash_spec(&self) -> u64 {
        digest(seq![if *self { 1u8 } else { 0u8 }])
    }

    fn hash(&self) -> (h: u64) {
        let byte: u8 = if *self {
            1
        } else {
            0
        };
        let bytes: Vec<u8> = vec![byte];
        assert(bytes@ =~= seq![byte]);
        hash_bytes(bytes.as_slice())
    }
}

impl<T: Value> Value for Option<T> {
    proof fn eq_is_exact() {
        reveal(obeys_concrete_eq);
        T::eq_is_exact();
    }

    proof fn clone_is_exact() {
        T::clone_is_exact();
    }
}

} // verus!
