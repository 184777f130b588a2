//! The values that a scan produces and the ways to compare them.

use vstd::prelude::*;
use vstd::slice::slice_index_get;
use vstd::string::{StringExecFns, StringSliceAdditionalSpecFns};
use vstd::utf8::encode_utf8;

verus! {

/// A SHA-256 digest: 32 bytes.
#[derive(Debug, Eq, Hash)]
pub struct Sha2Value {
    pub hash: [u8; 32],
}

/// The way two files are held to be the same file.
#[derive(Debug, Copy, Clone, PartialEq, Eq, Structural)]
pub enum FileDataCompareOption {
    /// by base name
    Name,
    /// by base name and size
    NameSize,
    /// by the digest of the content
    Hash,
}

/// The failure to recognise a comparison.
#[derive(Debug, Copy, Clone, PartialEq, Eq, Structural)]
pub enum ParseError {
    /// the text names none of the comparisons
    VariantNotFound,
}

/// A file path.
#[derive(Debug)]
pub struct FilePath(pub String);

/// One file found by a scan.
#[derive(Debug)]
pub struct FileData {
    /// the base name
    pub name: String,
    /// the full path, for reporting
    pub path: FilePath,
    /// the length in bytes
    pub size: u64,
    /// the digest of the content, where the comparison asks for it
    pub digest: Option<Sha2Value>,
}

impl PartialEq for Sha2Value {
    fn eq(&self, other: &Self) -> (same: bool) {
        let mut i: usize = 0;
        while i < 32
            invariant
                i <= 32,
                forall|k: int| 0 <= k < i ==> self.hash@[k] == other.hash@[k],
            decreases 32 - i,
        {
            if self.hash[i] != other.hash[i] {
                return false;
            }
            i += 1;
        }
        assert(self.hash@ =~= other.hash@);
        true
    }
}

impl vstd::std_specs::cmp::PartialEqSpecImpl for Sha2Value {
    open spec fn obeys_eq_spec() -> bool {
        true
    }

    open spec fn eq_spec(&self, other: &Self) -> bool {
        self.hash@ == other.hash@
    }
}

impl Clone for Sha2Value {
    fn clone(&self) -> (copy: Self)
        ensures
            copy == *self,
    {
        Sha2Value { hash: self.hash }
    }
}

/// The character that stands for a value below 16 in lower-case hexadecimal.
pub open spec fn hex_digit(nibble: u8) -> char {
    if nibble < 10 {
        (48 + nibble) as char
    } else {
        (87 + nibble) as char
    }
}

/// The 64 hexadecimal digits of a digest: two for each byte, the high half
/// first.
pub open spec fn hex_of(bytes: Seq<u8>) -> Seq<char> {
    Seq::new(
        2 * bytes.len(),
        |i: int|
            if i % 2 == 0 {
                hex_digit(bytes[i / 2] / 16)
            } else {
                hex_digit(bytes[i / 2] % 16)
            },
    )
}

/// The digit of a value below 16, as text.
fn hex_text(nibble: u8) -> (text: &'static str)
    requires
        nibble < 16,
    ensures
        text@ == seq![hex_digit(nibble)],
{
    proof {
        reveal_strlit("0");
        reveal_strlit("1");
        reveal_strlit("2");
        reveal_strlit("3");
        reveal_strlit("4");
        reveal_strlit("5");
        reveal_strlit("6");
        reveal_strlit("7");
        reveal_strlit("8");
        reveal_strlit("9");
        reveal_strlit("a");
        reveal_strlit("b");
        reveal_strlit("c");
        reveal_strlit("d");
        reveal_strlit("e");
        reveal_strlit("f");
    }
    let text = match nibble {
        0 => "0",
        1 => "1",
        2 => "2",
        3 => "3",
        4 => "4",
        5 => "5",
        6 => "6",
        7 => "7",
        8 => "8",
        9 => "9",
        10 => "a",
        11 => "b",
        12 => "c",
        13 => "d",
        14 => "e",
        _ => "f",
    };
    assert(text@ =~= seq![hex_digit(nibble)]);
    text
}

impl Sha2Value {
    /// Makes a digest of the 32 bytes of `slice`.
    pub fn new(slice: &[u8]) -> (value: Self)
        requires
            slice@.len() == 32,
        ensures
            value.hash@ == slice@,
    {
        let mut hash = [0u8; 32];
        let mut i: usize = 0;
        while i < 32
            invariant
                i <= 32,
                slice@.len() == 32,
                forall|k: int| 0 <= k < i ==> hash@[k] == slice@[k],
            decreases 32 - i,
        {
            hash[i] = *slice_index_get(slice, i);
            i += 1;
        }
        assert(hash@ =~= slice@);
        Sha2Value { hash }
    }

    /// The digest as 64 lower-case hexadecimal digits.
    pub fn to_hex(&self) -> (text: String)
        ensures
            text@ == hex_of(self.hash@),
    {
        let mut text = String::new();
        let mut i: usize = 0;
        while i < 32
            invariant
                i <= 32,
                text@ == hex_of(self.hash@.take(i as int)),
            decreases 32 - i,
        {
            let byte = self.hash[i];
            let ghost before = text@;
            text.append(hex_text(byte / 16));
            text.append(hex_text(byte % 16));
            proof {
                let seen = self.hash@.take(i as int);
                let next = self.hash@.take(i + 1);
                assert(text@ =~= before.push(hex_digit(byte / 16)).push(hex_digit(byte % 16)));
                assert(next =~= seen.push(byte));
                assert(text@ =~= hex_of(next));
            }
            i += 1;
        }
        proof {
            assert(self.hash@.take(32) =~= self.hash@);
        }
        text
    }
}

impl FileDataCompareOption {
    /// Tells whether the comparison reads the digest of the content, so that
    /// a scan has to compute it.
    pub fn needs_digest(self) -> (needed: bool)
        ensures
            needed == (self == FileDataCompareOption::Hash),
    {
        match self {
            FileDataCompareOption::Hash => true,
            _ => false,
        }
    }
}

impl FileData {
    /// What a scan under `comparer` owes of a record: the name is not empty,
    /// and the digest is there exactly if the comparison reads it.
    pub open spec fn well_formed(&self, comparer: FileDataCompareOption) -> bool {
        &&& self.name@.len() > 0
        &&& self.digest is Some <==> comparer == FileDataCompareOption::Hash
    }

    /// Makes the record of a file found by a scan under `comparer`. There is
    /// no record for an empty name, nor for a digest that the comparison does
    /// not read or for the lack of one that it reads.
    pub fn new(
        name: String,
        path: FilePath,
        size: u64,
        digest: Option<Sha2Value>,
        comparer: FileDataCompareOption,
    ) -> (record: Option<FileData>)
        ensures
            match record {
                Some(r) => r == (FileData { name, path, size, digest }) && r.well_formed(comparer),
                None => !(FileData { name, path, size, digest }).well_formed(comparer),
            },
    {
        if name.as_str().is_empty() || digest.is_some() != comparer.needs_digest() {
            None
        } else {
            Some(FileData { name, path, size, digest })
        }
    }
}

impl FilePath {
    /// The path as text.
    pub fn as_str(&self) -> (text: &str)
        ensures
            text@ == self.0@,
    {
        self.0.as_str()
    }
}

impl Clone for FilePath {
    fn clone(&self) -> (copy: Self)
        ensures
            copy == *self,
    {
        FilePath(self.0.clone())
    }
}

impl From<&str> for FilePath {
    fn from(s: &str) -> (path: Self)
        ensures
            path.0@ == s@,
    {
        FilePath(String::from_str(s))
    }
}

impl vstd::std_specs::convert::FromSpecImpl<&str> for FilePath {
    open spec fn obeys_from_spec() -> bool {
        false
    }

    open spec fn from_spec(s: &str) -> Self {
        arbitrary()
    }
}

impl Clone for FileData {
    fn clone(&self) -> (copy: Self)
        ensures
            copy == *self,
    {
        FileData {
            name: self.name.clone(),
            path: self.path.clone(),
            size: self.size,
            digest: match &self.digest {
                Some(d) => Some(d.clone()),
                None => None,
            },
        }
    }
}

/// The lower-case form of an ASCII letter; any other byte is itself.
pub open spec fn ascii_lower(b: u8) -> u8 {
    if 65 <= b <= 90 {
        (b + 32) as u8
    } else {
        b
    }
}

/// `text` is `token` up to the case of ASCII letters.
pub open spec fn matches_token(text: Seq<u8>, token: Seq<u8>) -> bool {
    &&& text.len() == token.len()
    &&& forall|i: int| 0 <= i < text.len() ==> ascii_lower(#[trigger] text[i]) == ascii_lower(token[i])
}

/// The bytes of the token `name`.
pub open spec fn token_name() -> Seq<u8> {
    seq![110u8, 97u8, 109u8, 101u8]
}

/// The bytes of the token `namesize`.
pub open spec fn token_namesize() -> Seq<u8> {
    seq![110u8, 97u8, 109u8, 101u8, 115u8, 105u8, 122u8, 101u8]
}

/// The bytes of the token `hash`.
pub open spec fn token_hash() -> Seq<u8> {
    seq![104u8, 97u8, 115u8, 104u8]
}

/// The comparison that the bytes of a text name: one of the three tokens, in
/// any mix of upper and lower case. The empty text names the default.
pub open spec fn comparer_of(text: Seq<u8>) -> Result<FileDataCompareOption, ParseError> {
    if text.len() == 0 || matches_token(text, token_name()) {
        Ok(FileDataCompareOption::Name)
    } else if matches_token(text, token_namesize()) {
        Ok(FileDataCompareOption::NameSize)
    } else if matches_token(text, token_hash()) {
        Ok(FileDataCompareOption::Hash)
    } else {
        Err(ParseError::VariantNotFound)
    }
}

/// Tells whether `text` is `token` up to the case of ASCII letters.
fn is_token(text: &[u8], token: &[u8]) -> (same: bool)
    ensures
        same == matches_token(text@, token@),
{
    if text.len() != token.len() {
        return false;
    }
    let mut i: usize = 0;
    while i < text.len()
        invariant
            i <= text.len(),
            text.len() == token.len(),
            forall|k: int| 0 <= k < i ==> ascii_lower(#[trigger] text@[k]) == ascii_lower(token@[k]),
        decreases text.len() - i,
    {
        if to_lower(*slice_index_get(text, i)) != to_lower(*slice_index_get(token, i)) {
            return false;
        }
        i += 1;
    }
    true
}

/// The lower-case form of an ASCII letter; any other byte is itself.
fn to_lower(b: u8) -> (lower: u8)
    ensures
        lower == ascii_lower(b),
{
    if 65 <= b && b <= 90 {
        b + 32
    } else {
        b
    }
}

/// Reads the comparison that an optional text names. No text, or the empty
/// text, names the default, `Name`.
pub fn parse_comparer(comparer_str: &Option<String>) -> (parsed: Result<
    FileDataCompareOption,
    ParseError,
>)
    ensures
        parsed == match comparer_str {
            Some(s) => comparer_of(encode_utf8(s@)),
            None => Ok::<FileDataCompareOption, ParseError>(FileDataCompareOption::Name),
        },
{
    match comparer_str {
        Some(s) => {
            let text = s.as_str().as_bytes();
            let name: [u8; 4] = [110, 97, 109, 101];
            let namesize: [u8; 8] = [110, 97, 109, 101, 115, 105, 122, 101];
            let hash: [u8; 4] = [104, 97, 115, 104];
            assert(name@ =~= token_name());
            assert(namesize@ =~= token_namesize());
            assert(hash@ =~= token_hash());
            if text.len() == 0 || is_token(text, name.as_slice()) {
                Ok(FileDataCompareOption::Name)
            } else if is_token(text, namesize.as_slice()) {
                Ok(FileDataCompareOption::NameSize)
            } else if is_token(text, hash.as_slice()) {
                Ok(FileDataCompareOption::Hash)
            } else {
                Err(ParseError::VariantNotFound)
            }
        },
        None => Ok(FileDataCompareOption::Name),
    }
}

} // verus!
