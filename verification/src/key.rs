//! Keys that the table can hash and compare.
//!
//! A key's identity is the byte sequence it feeds to the hasher. The trait
//! ties the executable equality test and the bytes written to the hasher to
//! that one spec-level identity, so every table operation locates a key
//! deterministically.

use std::collections::hash_map::DefaultHasher;
use std::hash::Hasher;
use vstd::prelude::*;
use vstd::string::StringSliceAdditionalSpecFns;

verus! {

/// A hashable key with structural equality.
///
/// `key_id` is the key's identity: the bytes it writes into a hasher.
/// `write_to` must write exactly those bytes, and `key_eq` must decide
/// equality of identities, so two keys agree on `key_eq` exactly when the
/// hasher sees them as the same input.
pub trait HashKey: Sized + Copy {
    /// The key's identity as a byte sequence.
    spec fn key_id(self) -> Seq<u8>;

    /// Feed the key's identity bytes to the hasher as a single write.
    fn write_to(&self, hasher: &mut DefaultHasher)
        ensures
            final(hasher)@ == old(hasher)@.push(self.key_id()),
    ;

    /// Structural equality of keys, i.e. equality of their identities.
    fn key_eq(&self, other: &Self) -> (r: bool)
        ensures
            r <==> self.key_id() == other.key_id(),
    ;
}

impl HashKey for &'static str {
    open spec fn key_id(self) -> Seq<u8> {
        self.spec_bytes()
    }

    fn write_to(&self, hasher: &mut DefaultHasher) {
        hasher.write(self.as_bytes());
    }

    fn key_eq(&self, other: &Self) -> (r: bool) {
        let a = self.as_bytes();
        let b = other.as_bytes();
        if a.len() != b.len() {
            return false;
        }
        let mut i: usize = 0;
        while i < a.len()
            invariant
                i <= a@.len(),
                a@.len() == b@.len(),
                a@ == self.key_id(),
                b@ == other.key_id(),
                forall|j: int| 0 <= j < i ==> a@[j] == b@[j],
            decreases a@.len() - i,
        {
            if a[i] != b[i] {
                return false;
            }
            i += 1;
        }
        proof {
            assert(a@ =~= b@);
        }
        true
    }
}

/// String keys with different characters have different identities: the
/// UTF-8 bytes a string feeds to the hasher determine its characters.
pub proof fn lemma_str_key_id_injective(a: &'static str, b: &'static str)
    requires
        a@ != b@,
    ensures
        a.key_id() != b.key_id(),
{
    if a.key_id() == b.key_id() {
        vstd::utf8::encode_utf8_decode_utf8(a@);
        vstd::utf8::encode_utf8_decode_utf8(b@);
        assert(false);
    }
}

/// Different integer keys have different identities: the bytes an integer
/// feeds to the hasher determine its value.
pub proof fn lemma_u64_key_id_injective(a: u64, b: u64)
    requires
        a != b,
    ensures
        a.key_id() != b.key_id(),
{
    vstd::bytes::lemma_auto_spec_u64_to_from_le_bytes();
}

impl HashKey for u64 {
    open spec fn key_id(self) -> Seq<u8> {
        vstd::bytes::spec_u64_to_le_bytes(self)
    }

    fn write_to(&self, hasher: &mut DefaultHasher) {
        let bytes = vstd::bytes::u64_to_le_bytes(*self);
        hasher.write(bytes.as_slice());
    }

    fn key_eq(&self, other: &Self) -> (r: bool) {
        proof {
            vstd::bytes::lemma_auto_spec_u64_to_from_le_bytes();
        }
        *self == *other
    }
}

} // verus!
