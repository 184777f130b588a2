//! Content digests, the run's configuration, and the comparison of two
//! scans.

use crate::customhashset::{referents, CustomHashSet};
use crate::filedata::{FileData, FileDataCompareOption, FilePath, Sha2Value};
use crate::identity::{callable, Identity};
use crate::laws::lemma_difference_of_filled;
use crate::layout::lemma_flatten_empty;
use crate::model::TableModel;
use crate::strategies::{
    eq_by_digest, eq_by_name, eq_by_name_size, hash_by_digest, hash_by_name, hash_by_name_size,
    identity_for, lemma_file_identities,
};
use sha2::Digest;
use vstd::bytes::{spec_u64_to_le_bytes, u64_to_le_bytes};
use vstd::prelude::*;
use vstd::string::StrSliceExecFns;
use vstd::utf8::encode_utf8;

verus! {

/// What a run is asked to do.
pub struct Config {
    /// the first folder, as a canonical path
    pub folder1: FilePath,
    /// the second folder, as a canonical path
    pub folder2: FilePath,
    /// how to compare files
    pub comparer: FileDataCompareOption,
    /// raw output, for piping
    pub raw: bool,
    /// report only the files of the first folder that the second lacks
    pub first_only: bool,
    /// scan the folders one after the other
    pub one_thread: bool,
}

/// What is wrong with a configuration.
#[derive(Debug, Copy, Clone, PartialEq, Eq, Structural)]
pub enum ConfigError {
    /// both folders are the same place
    SameFolders,
}

/// The outcome of a comparison: for each direction the paths, in table
/// order, of the files that one scan has and the other lacks, and how many
/// there are in all.
pub struct Differences {
    /// paths of the files of the first scan that the second lacks
    pub first: Vec<FilePath>,
    /// paths of the files of the second scan that the first lacks; empty where
    /// only the first direction was asked for
    pub second: Vec<FilePath>,
    /// the number of paths in both
    pub count: usize,
}

/// The SHA-256 digest of a sequence of bytes.
pub uninterp spec fn sha256_digest(data: Seq<u8>) -> Seq<u8>;

/// Calls `sha2::Sha256::digest`, the one-shot form of the hasher, on `data`.
/// Taken on trust: the 32 bytes returned are the SHA-256 digest of `data`,
/// a function of the bytes alone.
#[verifier::external_body]
fn sha256(data: &[u8]) -> (digest: [u8; 32])
    ensures
        digest@ == sha256_digest(data@),
{
    sha2::Sha256::digest(data).into()
}

/// The number of buckets for a scan of `files` files: one for each file, and
/// one for none.
pub open spec fn buckets_for(files: nat) -> nat {
    if files == 0 {
        1
    } else {
        files
    }
}

/// The table of a scan, read under `id`: the records inserted one after
/// another into an empty table.
pub open spec fn scanned(id: Identity<FileData>, records: Seq<FileData>) -> TableModel<FileData> {
    TableModel::empty(id, buckets_for(records.len())).insert_all(records)
}

/// The paths of a sequence of records.
pub open spec fn paths_of(records: Seq<FileData>) -> Seq<FilePath> {
    records.map_values(|record: FileData| record.path)
}

/// What a comparison reports, in terms of the records scanned: a record has
/// a match among those of one direction exactly if it has a match in the
/// scan of that side and none in the other scan. The order in which either
/// folder was scanned does not matter.
pub proof fn lemma_compared(
    comparer: FileDataCompareOption,
    first: Seq<FileData>,
    second: Seq<FileData>,
    record: FileData,
)
    ensures
        identity_for(comparer).among(
            scanned(identity_for(comparer), first).difference(
                scanned(identity_for(comparer), second),
            ),
            record,
        ) == (identity_for(comparer).among(first, record) && !identity_for(comparer).among(
            second,
            record,
        )),
{
    lemma_file_identities();
    lemma_difference_of_filled(
        identity_for(comparer),
        first,
        second,
        buckets_for(first.len()),
        buckets_for(second.len()),
        record,
    );
}

/// The digest of the content of a file, given the content.
pub fn hash_bytes(content: &[u8]) -> (value: Sha2Value)
    ensures
        value.hash@ == sha256_digest(content@),
{
    let digest = sha256(content);
    Sha2Value::new(digest.as_slice())
}

/// The digest of the bytes of a text.
pub fn hash_string(text: &str) -> (value: Sha2Value)
    ensures
        value.hash@ == sha256_digest(encode_utf8(text@)),
{
    let digest = sha256(text.as_bytes());
    Sha2Value::new(digest.as_slice())
}

/// The digest of the bytes of a text followed by the eight bytes of a size,
/// lowest byte first.
pub fn hash_string_and_size(text: &str, size: u64) -> (value: Sha2Value)
    ensures
        value.hash@ == sha256_digest(encode_utf8(text@) + spec_u64_to_le_bytes(size)),
{
    let mut bytes = text.as_bytes_vec();
    let mut tail = u64_to_le_bytes(size);
    bytes.append(&mut tail);
    let digest = sha256(bytes.as_slice());
    Sha2Value::new(digest.as_slice())
}

impl Config {
    /// Refuses a comparison of a folder with itself.
    pub fn validate(&self) -> (checked: Result<(), ConfigError>)
        ensures
            checked == if self.folder1.0@ == self.folder2.0@ {
                Err::<(), ConfigError>(ConfigError::SameFolders)
            } else {
                Ok::<(), ConfigError>(())
            },
    {
        if self.folder1.0 == self.folder2.0 {
            Err(ConfigError::SameFolders)
        } else {
            Ok(())
        }
    }
}

/// The paths of the records of `a` that `b` does not contain, in the order
/// of `a`.
pub fn hashmap_difference<'a, E: Fn(&FileData, &FileData) -> bool, H: Fn(&FileData) -> usize>(
    a: &'a CustomHashSet<FileData, E, H>,
    b: &'a CustomHashSet<FileData, E, H>,
) -> (diff: Vec<&'a FilePath>)
    requires
        b.wf(),
    ensures
        diff@.len() <= a.elements().len(),
        forall|id: Identity<FileData>| #[trigger]
            b.obeys(id) ==> referents(diff@) == paths_of(a.model(id).difference(b.model(id))),
{
    let records = a.difference(b);
    let mut diff: Vec<&FilePath> = Vec::with_capacity(records.len());
    let mut i: usize = 0;
    while i < records.len()
        invariant
            i <= records.len(),
            diff@.len() == i,
            referents(diff@) == paths_of(referents(records@).take(i as int)),
        decreases records.len() - i,
    {
        let ghost before = referents(diff@);
        diff.push(&records[i].path);
        proof {
            let all = referents(records@);
            assert(referents(diff@) =~= before.push(records@[i as int].path));
            assert(paths_of(all.take(i + 1)) =~= paths_of(all.take(i as int)).push(
                all[i as int].path,
            ));
        }
        i += 1;
    }
    proof {
        assert(referents(records@).take(records@.len() as int) =~= referents(records@));
    }
    diff
}

/// Builds the table of a scan: every record is inserted, in order, into an
/// empty table of one bucket for each record.
pub fn populate<E: Fn(&FileData, &FileData) -> bool, H: Fn(&FileData) -> usize>(
    records: Vec<FileData>,
    eq_fn: E,
    hash_fn: H,
) -> (table: CustomHashSet<FileData, E, H>)
    requires
        callable(eq_fn, hash_fn),
    ensures
        table.wf(),
        table.eq_fn() == eq_fn,
        table.hash_fn() == hash_fn,
        table.elements().len() <= records@.len(),
        forall|id: Identity<FileData>| #[trigger]
            id.describes(eq_fn, hash_fn) ==> table@ == scanned(id, records@).buckets,
{
    let count = if records.len() == 0 {
        1
    } else {
        records.len()
    };
    let mut table = CustomHashSet::new(eq_fn, hash_fn, count, 1);
    let ghost all = records@;
    proof {
        lemma_flatten_empty(table@);
    }
    for record in it: records
        invariant
            it.seq() == all,
            count == buckets_for(all.len()),
            table.wf(),
            table.eq_fn() == eq_fn,
            table.hash_fn() == hash_fn,
            table.elements().len() <= it.index(),
            forall|id: Identity<FileData>| #[trigger]
                id.describes(eq_fn, hash_fn) ==> table@ == TableModel::empty(
                    id,
                    count as nat,
                ).insert_all(all.take(it.index())).buckets,
    {
        let ghost before = table;
        table.insert(record);
        proof {
            assert(all.take(it.index() + 1).drop_last() =~= all.take(it.index()));
            assert forall|id: Identity<FileData>| #[trigger]
                id.describes(eq_fn, hash_fn) implies table@ == TableModel::empty(
                id,
                count as nat,
            ).insert_all(all.take(it.index() + 1)).buckets by {
                let start = TableModel::empty(id, count as nat);
                start.lemma_insert_all_shape(all.take(it.index()));
                assert(before.obeys(id));
                assert(before.model(id) == start.insert_all(all.take(it.index())));
            }
        }
    }
    proof {
        assert(all.take(all.len() as int) =~= all);
    }
    table
}

/// Copies the paths out of a difference.
fn owned_paths(paths: &Vec<&FilePath>) -> (owned: Vec<FilePath>)
    ensures
        owned@ == referents(paths@),
{
    let mut owned: Vec<FilePath> = Vec::with_capacity(paths.len());
    let mut i: usize = 0;
    while i < paths.len()
        invariant
            i <= paths.len(),
            owned@ == referents(paths@).take(i as int),
        decreases paths.len() - i,
    {
        owned.push(paths[i].clone());
        proof {
            assert(owned@ =~= referents(paths@).take(i + 1));
        }
        i += 1;
    }
    proof {
        assert(referents(paths@).take(paths@.len() as int) =~= referents(paths@));
    }
    owned
}

/// Compares two scans under a pair of functions: builds a table of each,
/// takes the difference of the first from the second and, unless
/// `first_only`, of the second from the first, and counts the paths found.
pub fn compare_with<
    E: Fn(&FileData, &FileData) -> bool + Copy,
    H: Fn(&FileData) -> usize + Copy,
>(first: Vec<FileData>, second: Vec<FileData>, eq_fn: E, hash_fn: H, first_only: bool) -> (found:
    Differences)
    requires
        callable(eq_fn, hash_fn),
        first.len() + second.len() <= usize::MAX,
    ensures
        found.count == found.first@.len() + found.second@.len(),
        forall|id: Identity<FileData>| #[trigger]
            id.describes(eq_fn, hash_fn) ==> {
                &&& found.first@ == paths_of(
                    scanned(id, first@).difference(scanned(id, second@)),
                )
                &&& found.second@ == if first_only {
                    Seq::<FilePath>::empty()
                } else {
                    paths_of(scanned(id, second@).difference(scanned(id, first@)))
                }
            },
{
    let files1 = populate(first, eq_fn, hash_fn);
    let files2 = populate(second, eq_fn, hash_fn);
    let diff1 = hashmap_difference(&files1, &files2);
    let first_paths = owned_paths(&diff1);
    let second_paths = if first_only {
        Vec::new()
    } else {
        let diff2 = hashmap_difference(&files2, &files1);
        owned_paths(&diff2)
    };
    proof {
        assert forall|id: Identity<FileData>| #[trigger]
            id.describes(eq_fn, hash_fn) implies {
            &&& first_paths@ == paths_of(scanned(id, first@).difference(scanned(id, second@)))
            &&& second_paths@ == if first_only {
                Seq::<FilePath>::empty()
            } else {
                paths_of(scanned(id, second@).difference(scanned(id, first@)))
            }
        } by {
            TableModel::empty(id, buckets_for(first@.len())).lemma_insert_all_shape(first@);
            TableModel::empty(id, buckets_for(second@.len())).lemma_insert_all_shape(second@);
            assert(files1.obeys(id) && files2.obeys(id));
            assert(files1.model(id) == scanned(id, first@));
            assert(files2.model(id) == scanned(id, second@));
        }
    }
    let count = first_paths.len() + second_paths.len();
    Differences { first: first_paths, second: second_paths, count }
}

/// Compares two scans under `comparer`: the paths of the files of each scan
/// that the other lacks, and their number. With `first_only` the second
/// direction is left out.
pub fn compare_folders(
    first: Vec<FileData>,
    second: Vec<FileData>,
    comparer: FileDataCompareOption,
    first_only: bool,
) -> (found: Differences)
    requires
        first.len() + second.len() <= usize::MAX,
    ensures
        found.first@ == paths_of(
            scanned(identity_for(comparer), first@).difference(
                scanned(identity_for(comparer), second@),
            ),
        ),
        found.second@ == if first_only {
            Seq::<FilePath>::empty()
        } else {
            paths_of(
                scanned(identity_for(comparer), second@).difference(
                    scanned(identity_for(comparer), first@),
                ),
            )
        },
        found.count == found.first@.len() + found.second@.len(),
{
    proof {
        lemma_file_identities();
    }
    match comparer {
        FileDataCompareOption::Name => compare_with(
            first,
            second,
            eq_by_name,
            hash_by_name,
            first_only,
        ),
        FileDataCompareOption::NameSize => compare_with(
            first,
            second,
            eq_by_name_size,
            hash_by_name_size,
            first_only,
        ),
        FileDataCompareOption::Hash => compare_with(
            first,
            second,
            eq_by_digest,
            hash_by_digest,
            first_only,
        ),
    }
}

} // verus!
