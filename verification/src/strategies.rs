//! Ready-made identity strategies: pairs of an equality test and a hash
//! function, each with the identity that describes it.

use crate::filedata::{FileData, FileDataCompareOption, Sha2Value};
use crate::identity::Identity;
use std::collections::hash_map::DefaultHasher;
use std::hash::Hasher;
use vstd::bytes::{spec_u64_to_le_bytes, u64_to_le_bytes};
use vstd::prelude::*;
use vstd::std_specs::hash::DefaultHasherAdditionalSpecFns;
use vstd::utf8::encode_utf8;

verus! {

/// Thirty-two bytes, compared and hashed as a whole.
#[derive(Debug, Clone, Copy, PartialEq, Eq, Hash)]
pub struct SmallArray {
    pub data: [u8; 32],
}

/// What the standard hasher, started afresh, answers after the writes
/// `written`.
pub open spec fn hash_of_writes(written: Seq<Seq<u8>>) -> usize {
    DefaultHasher::spec_finish(written) as usize
}

/// The first eight bytes read as one number, the first byte highest.
pub open spec fn leading_bits(bytes: Seq<u8>) -> u64 {
    (bytes[0] as u64) << 56 | (bytes[1] as u64) << 48 | (bytes[2] as u64) << 40 | (bytes[3] as u64)
        << 32 | (bytes[4] as u64) << 24 | (bytes[5] as u64) << 16 | (bytes[6] as u64) << 8 | (
    bytes[7] as u64)
}

/// The bytes of an optional digest.
pub open spec fn digest_bytes(digest: Option<Sha2Value>) -> Option<Seq<u8>> {
    match digest {
        Some(d) => Some(d.hash@),
        None => None,
    }
}

/// Tells whether two arrays hold the same bytes.
fn same_bytes(a: &[u8; 32], b: &[u8; 32]) -> (same: bool)
    ensures
        same == (a@ == b@),
{
    let mut i: usize = 0;
    while i < 32
        invariant
            i <= 32,
            forall|k: int| 0 <= k < i ==> a@[k] == b@[k],
        decreases 32 - i,
    {
        if a[i] != b[i] {
            return false;
        }
        i += 1;
    }
    assert(a@ =~= b@);
    true
}

/// The first eight bytes of `bytes` read as one number, the first byte
/// highest, cut to the width of `usize`.
fn leading(bytes: &[u8; 32]) -> (bits: usize)
    ensures
        bits == leading_bits(bytes@) as usize,
{
    let wide: u64 = (bytes[0] as u64) << 56 | (bytes[1] as u64) << 48 | (bytes[2] as u64) << 40 | (
    bytes[3] as u64) << 32 | (bytes[4] as u64) << 24 | (bytes[5] as u64) << 16 | (bytes[6] as u64)
        << 8 | (bytes[7] as u64);
    #[verifier::truncate]
    (wide as usize)
}

/// Identity of files by base name.
pub open spec fn name_identity() -> Identity<FileData> {
    Identity {
        same: |a: FileData, b: FileData| a.name@ == b.name@,
        hash: |a: FileData| hash_of_writes(seq![encode_utf8(a.name@)]),
    }
}

/// Identity of files by base name and size.
pub open spec fn name_size_identity() -> Identity<FileData> {
    Identity {
        same: |a: FileData, b: FileData| a.name@ == b.name@ && a.size == b.size,
        hash: |a: FileData|
            hash_of_writes(seq![encode_utf8(a.name@), spec_u64_to_le_bytes(a.size)]),
    }
}

/// Identity of files by the digest of their content. The whole digest is
/// compared; its leading bits are the hash. Files without a digest are the
/// same as each other and as no file with one.
pub open spec fn digest_identity() -> Identity<FileData> {
    Identity {
        same: |a: FileData, b: FileData| digest_bytes(a.digest) == digest_bytes(b.digest),
        hash: |a: FileData|
            match a.digest {
                Some(d) => leading_bits(d.hash@) as usize,
                None => 0usize,
            },
    }
}

/// The identity that a comparison stands for.
pub open spec fn identity_for(comparer: FileDataCompareOption) -> Identity<FileData> {
    match comparer {
        FileDataCompareOption::Name => name_identity(),
        FileDataCompareOption::NameSize => name_size_identity(),
        FileDataCompareOption::Hash => digest_identity(),
    }
}

/// Two files are the same where their base names are.
pub fn eq_by_name(a: &FileData, b: &FileData) -> (same: bool)
    ensures
        same == (name_identity().same)(*a, *b),
{
    a.name == b.name
}

/// The hash of the base name.
pub fn hash_by_name(a: &FileData) -> (hash: usize)
    ensures
        hash == (name_identity().hash)(*a),
{
    let mut hasher = DefaultHasher::new();
    hasher.write(a.name.as_str().as_bytes());
    #[verifier::truncate]
    (hasher.finish() as usize)
}

/// Two files are the same where their base names and their sizes are.
pub fn eq_by_name_size(a: &FileData, b: &FileData) -> (same: bool)
    ensures
        same == (name_size_identity().same)(*a, *b),
{
    a.name == b.name && a.size == b.size
}

/// The hash of the base name and the size.
pub fn hash_by_name_size(a: &FileData) -> (hash: usize)
    ensures
        hash == (name_size_identity().hash)(*a),
{
    let mut hasher = DefaultHasher::new();
    hasher.write(a.name.as_str().as_bytes());
    let size = u64_to_le_bytes(a.size);
    hasher.write(size.as_slice());
    assert(hasher@ =~= seq![encode_utf8(a.name@), spec_u64_to_le_bytes(a.size)]);
    #[verifier::truncate]
    (hasher.finish() as usize)
}

/// Two files are the same where their digests are, byte for byte.
pub fn eq_by_digest(a: &FileData, b: &FileData) -> (same: bool)
    ensures
        same == (digest_identity().same)(*a, *b),
{
    match (&a.digest, &b.digest) {
        (Some(x), Some(y)) => same_bytes(&x.hash, &y.hash),
        (None, None) => true,
        _ => false,
    }
}

/// The leading bits of the digest; 0 for a file without one.
pub fn hash_by_digest(a: &FileData) -> (hash: usize)
    ensures
        hash == (digest_identity().hash)(*a),
{
    match &a.digest {
        Some(d) => leading(&d.hash),
        None => 0,
    }
}

/// Each of the three file identities is an equivalence that describes its
/// pair of functions.
pub proof fn lemma_file_identities()
    ensures
        name_identity().describes(eq_by_name, hash_by_name),
        name_size_identity().describes(eq_by_name_size, hash_by_name_size),
        digest_identity().describes(eq_by_digest, hash_by_digest),
        forall|c: FileDataCompareOption|
            {
                &&& (#[trigger] identity_for(c)).valid()
                &&& identity_for(c).reflexive()
                &&& identity_for(c).symmetric()
                &&& identity_for(c).transitive()
            },
{
    assert(name_identity().valid());
    assert(name_size_identity().valid());
    assert(digest_identity().valid()) by {
        assert forall|a: FileData, b: FileData| #[trigger]
            (digest_identity().same)(a, b) implies (digest_identity().hash)(a) == (
        digest_identity().hash)(b) by {}
    }
    assert forall|c: FileDataCompareOption|
        {
            &&& (#[trigger] identity_for(c)).valid()
            &&& identity_for(c).reflexive()
            &&& identity_for(c).symmetric()
            &&& identity_for(c).transitive()
        } by {
        match c {
            FileDataCompareOption::Name => {},
            FileDataCompareOption::NameSize => {},
            FileDataCompareOption::Hash => {},
        }
    }
}

/// Identity of 32-bit integers by value.
pub open spec fn int_identity() -> Identity<i32> {
    Identity { same: |a: i32, b: i32| a == b, hash: |a: i32| a as usize }
}

/// Identity of strings by their text.
pub open spec fn string_identity() -> Identity<String> {
    Identity {
        same: |a: String, b: String| a@ == b@,
        hash: |a: String| hash_of_writes(seq![encode_utf8(a@)]),
    }
}

/// Identity of byte arrays by their bytes, hashed by their leading bits.
pub open spec fn array_identity() -> Identity<SmallArray> {
    Identity {
        same: |a: SmallArray, b: SmallArray| a.data@ == b.data@,
        hash: |a: SmallArray| leading_bits(a.data@) as usize,
    }
}

/// Two integers are the same where they are equal.
pub fn eq_int(a: &i32, b: &i32) -> (same: bool)
    ensures
        same == (int_identity().same)(*a, *b),
{
    *a == *b
}

/// An integer is its own hash, widened.
pub fn hash_int(a: &i32) -> (hash: usize)
    ensures
        hash == (int_identity().hash)(*a),
{
    #[verifier::truncate]
    (*a as usize)
}

/// Two strings are the same where their text is.
pub fn eq_string(a: &String, b: &String) -> (same: bool)
    ensures
        same == (string_identity().same)(*a, *b),
{
    *a == *b
}

/// The hash of the text of a string.
pub fn hash_string(a: &String) -> (hash: usize)
    ensures
        hash == (string_identity().hash)(*a),
{
    let mut hasher = DefaultHasher::new();
    hasher.write(a.as_str().as_bytes());
    #[verifier::truncate]
    (hasher.finish() as usize)
}

/// Two arrays are the same where their bytes are.
pub fn eq_array(a: &SmallArray, b: &SmallArray) -> (same: bool)
    ensures
        same == (array_identity().same)(*a, *b),
{
    same_bytes(&a.data, &b.data)
}

/// The leading bits of an array.
pub fn hash_array(a: &SmallArray) -> (hash: usize)
    ensures
        hash == (array_identity().hash)(*a),
{
    leading(&a.data)
}

/// Each of the three plain identities is an equivalence that describes its
/// pair of functions.
pub proof fn lemma_plain_identities()
    ensures
        int_identity().describes(eq_int, hash_int),
        string_identity().describes(eq_string, hash_string),
        array_identity().describes(eq_array, hash_array),
        int_identity().reflexive() && int_identity().symmetric() && int_identity().transitive(),
        string_identity().reflexive() && string_identity().symmetric()
            && string_identity().transitive(),
        array_identity().reflexive() && array_identity().symmetric()
            && array_identity().transitive(),
{
    assert(int_identity().valid());
    assert(string_identity().valid());
    assert(array_identity().valid());
}

} // verus!
