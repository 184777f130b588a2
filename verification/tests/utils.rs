use folder_compare::customhashset::CustomHashSet;
use folder_compare::filedata::{FileData, FileDataCompareOption, FilePath, Sha2Value};
use folder_compare::strategies::{
    eq_by_digest, eq_by_name, eq_by_name_size, hash_by_digest, hash_by_name, hash_by_name_size,
};
use folder_compare::utils::{
    compare_folders, compare_with, hash_bytes, hash_string, hash_string_and_size,
    hashmap_difference, populate, Config, ConfigError, Differences,
};

fn file(root: &str, name: &str, size: u64) -> FileData {
    FileData {
        name: String::from(name),
        path: FilePath(format!("{root}/{name}")),
        size,
        digest: None,
    }
}

fn file_with_content(root: &str, name: &str, content: &[u8]) -> FileData {
    FileData {
        name: String::from(name),
        path: FilePath(format!("{root}/{name}")),
        size: content.len() as u64,
        digest: Some(hash_bytes(content)),
    }
}

fn sorted(paths: &[FilePath]) -> Vec<String> {
    let mut texts: Vec<String> = paths.iter().map(|p| p.0.clone()).collect();
    texts.sort();
    texts
}

fn config(folder1: &str, folder2: &str) -> Config {
    Config {
        folder1: FilePath::from(folder1),
        folder2: FilePath::from(folder2),
        comparer: FileDataCompareOption::Name,
        raw: false,
        first_only: false,
        one_thread: false,
    }
}

#[test]
fn digest_of_a_text() {
    assert_eq!(
        hash_string("abc").to_hex(),
        "ba7816bf8f01cfea414140de5dae2223b00361a396177a9cb410ff61f20015ad"
    );
    assert_eq!(
        hash_string("").to_hex(),
        "e3b0c44298fc1c149afbf4c8996fb92427ae41e4649b934ca495991b7852b855"
    );
}

#[test]
fn digest_of_bytes() {
    assert_eq!(
        hash_bytes(b"hello world").to_hex(),
        "b94d27b9934d3e08a52e52d7da7dabfac484efe37a5380ee9088f7ace2efcde9"
    );
    assert_eq!(
        hash_bytes(b"abc").hash,
        [
            186, 120, 22, 191, 143, 1, 207, 234, 65, 65, 64, 222, 93, 174, 34, 35, 176, 3, 97,
            163, 150, 23, 122, 156, 180, 16, 255, 97, 242, 0, 21, 173
        ]
    );
    assert_eq!(hash_bytes(b"abc"), hash_string("abc"));
}

#[test]
fn digest_of_a_text_and_a_size() {
    assert_eq!(
        hash_string_and_size("abc", 1).to_hex(),
        "b02182b7d683e5925f77054403e9338d22ec1d0ff031867c01953fed4d89a596"
    );
    assert_eq!(
        hash_string_and_size("a.txt", 10).to_hex(),
        "59a36467ebd52e093d44aa3fbbcb31bd4b5a9c24ec5e684cbaf018e698dd7ef6"
    );
    assert_eq!(hash_string_and_size("abc", 1), hash_bytes(b"abc\x01\0\0\0\0\0\0\0"));
    assert_ne!(hash_string_and_size("abc", 1), hash_string_and_size("abc", 2));
    assert_ne!(hash_string_and_size("abc", 1), hash_string("abc"));
}

#[test]
fn a_folder_is_not_compared_with_itself() {
    assert_eq!(config("/data/a", "/data/a").validate(), Err(ConfigError::SameFolders));
    assert_eq!(config("/data/a", "/data/b").validate(), Ok(()));
    assert_eq!(config("/data/a", "/data/a/").validate(), Ok(()));
}

#[test]
fn file_strategies_compare_what_they_name() {
    let a = file("A", "a.txt", 10);
    let same_name = file("B", "a.txt", 11);
    let other = file("B", "b.txt", 10);
    assert!(eq_by_name(&a, &same_name));
    assert!(!eq_by_name(&a, &other));
    assert_eq!(hash_by_name(&a), hash_by_name(&same_name));
    assert!(!eq_by_name_size(&a, &same_name));
    assert!(eq_by_name_size(&a, &file("C", "a.txt", 10)));
    assert_eq!(hash_by_name_size(&a), hash_by_name_size(&file("C", "a.txt", 10)));
    let x = file_with_content("A", "x.bin", b"same bytes");
    let y = file_with_content("B", "y.bin", b"same bytes");
    let z = file_with_content("B", "x.bin", b"other bytes");
    assert!(eq_by_digest(&x, &y));
    assert!(!eq_by_digest(&x, &z));
    assert_eq!(hash_by_digest(&x), hash_by_digest(&y));
    assert!(eq_by_digest(&a, &other));
    assert!(!eq_by_digest(&a, &x));
    assert_eq!(hash_by_digest(&a), 0);
}

#[test]
fn digest_hash_is_the_leading_bytes() {
    let mut hash = [0u8; 32];
    hash[5] = 0x12;
    hash[7] = 0x34;
    hash[8] = 0xff;
    let record = FileData {
        name: String::from("n"),
        path: FilePath::from("p"),
        size: 0,
        digest: Some(Sha2Value { hash }),
    };
    assert_eq!(hash_by_digest(&record) as u64, 0x12_0034);
}

#[test]
fn populate_keeps_the_first_of_equal_records() {
    let records = vec![
        file("A", "a.txt", 10),
        file("A/sub", "a.txt", 99),
        file("A", "b.txt", 20),
    ];
    let table = populate(records, eq_by_name, hash_by_name);
    assert_eq!(table.len(), 2);
    assert_eq!(table.get_buckets().len(), 3);
    let mut it = table.iter();
    let mut paths = Vec::new();
    while let Some(record) = it.next() {
        paths.push(record.path.0.clone());
    }
    paths.sort();
    assert_eq!(paths, vec!["A/a.txt", "A/b.txt"]);
}

#[test]
fn populate_of_nothing_has_one_bucket() {
    let table = populate(Vec::new(), eq_by_name, hash_by_name);
    assert!(table.is_empty());
    assert_eq!(table.get_buckets().len(), 1);
}

#[test]
fn difference_of_tables_gives_paths() {
    let a = populate(
        vec![file("A", "a.txt", 10), file("A", "b.txt", 20)],
        eq_by_name,
        hash_by_name,
    );
    let b = populate(
        vec![file("B", "a.txt", 10), file("B", "c.txt", 5)],
        eq_by_name,
        hash_by_name,
    );
    let diff = hashmap_difference(&a, &b);
    assert_eq!(diff.len(), 1);
    assert_eq!(diff[0].as_str(), "A/b.txt");
    let back = hashmap_difference(&b, &a);
    assert_eq!(back.len(), 1);
    assert_eq!(back[0].as_str(), "B/c.txt");
    let empty: CustomHashSet<FileData, _, _> = CustomHashSet::new(eq_by_name, hash_by_name, 1, 0);
    assert_eq!(hashmap_difference(&a, &empty).len(), 2);
    assert!(hashmap_difference(&empty, &a).is_empty());
}

#[test]
fn two_folders_by_name() {
    let first = vec![file("A", "a.txt", 10), file("A", "b.txt", 20)];
    let second = vec![file("B", "a.txt", 10), file("B", "c.txt", 5)];
    let found = compare_folders(first, second, FileDataCompareOption::Name, false);
    assert_eq!(sorted(&found.first), vec!["A/b.txt"]);
    assert_eq!(sorted(&found.second), vec!["B/c.txt"]);
    assert_eq!(found.count, 2);
}

#[test]
fn two_folders_by_name_ignore_the_size() {
    let first = vec![file("A", "a.txt", 10), file("A", "b.txt", 20)];
    let second = vec![file("B", "a.txt", 11), file("B", "c.txt", 5)];
    let found = compare_folders(first, second, FileDataCompareOption::Name, false);
    assert_eq!(sorted(&found.first), vec!["A/b.txt"]);
    assert_eq!(sorted(&found.second), vec!["B/c.txt"]);
    assert_eq!(found.count, 2);
}

#[test]
fn two_folders_by_name_and_size() {
    let first = vec![file("A", "a.txt", 10), file("A", "b.txt", 20)];
    let second = vec![file("B", "a.txt", 11), file("B", "c.txt", 5)];
    let found = compare_folders(first, second, FileDataCompareOption::NameSize, false);
    assert_eq!(sorted(&found.first), vec!["A/a.txt", "A/b.txt"]);
    assert_eq!(sorted(&found.second), vec!["B/a.txt", "B/c.txt"]);
    assert_eq!(found.count, 4);
}

#[test]
fn two_folders_by_name_and_size_with_one_more_file() {
    let first = vec![file("A", "a.txt", 10), file("A", "b.txt", 20)];
    let second = vec![
        file("B", "a.txt", 10),
        file("B", "c.txt", 5),
        file("B/sub", "a.txt", 11),
    ];
    let found = compare_folders(first, second, FileDataCompareOption::NameSize, false);
    assert_eq!(sorted(&found.first), vec!["A/b.txt"]);
    assert_eq!(sorted(&found.second), vec!["B/c.txt", "B/sub/a.txt"]);
    assert_eq!(found.count, 3);
}

#[test]
fn two_folders_by_content() {
    let first = vec![
        file_with_content("A", "report.txt", b"the same bytes"),
        file_with_content("A", "only-here.txt", b"first"),
    ];
    let mut twin = file_with_content("B", "copy-of-report.doc", b"the same bytes");
    twin.size = 999;
    let second = vec![twin, file_with_content("B", "only-there.txt", b"second")];
    let found = compare_folders(first, second, FileDataCompareOption::Hash, false);
    assert_eq!(sorted(&found.first), vec!["A/only-here.txt"]);
    assert_eq!(sorted(&found.second), vec!["B/only-there.txt"]);
    assert_eq!(found.count, 2);
}

#[test]
fn same_name_with_other_content_differs_by_content() {
    let first = vec![file_with_content("A", "a.txt", b"one")];
    let second = vec![file_with_content("B", "a.txt", b"two")];
    let by_hash = compare_folders(first.clone(), second.clone(), FileDataCompareOption::Hash, false);
    assert_eq!(by_hash.count, 2);
    let by_name = compare_folders(first, second, FileDataCompareOption::Name, false);
    assert_eq!(by_name.count, 0);
    assert!(by_name.first.is_empty());
    assert!(by_name.second.is_empty());
}

#[test]
fn first_only_leaves_the_second_direction_out() {
    let first = vec![file("A", "a.txt", 10), file("A", "b.txt", 20)];
    let second = vec![file("B", "a.txt", 10), file("B", "c.txt", 5), file("B", "d.txt", 5)];
    let found = compare_folders(first, second, FileDataCompareOption::Name, true);
    assert_eq!(sorted(&found.first), vec!["A/b.txt"]);
    assert!(found.second.is_empty());
    assert_eq!(found.count, 1);
}

#[test]
fn empty_folders_have_no_difference() {
    let found = compare_folders(Vec::new(), Vec::new(), FileDataCompareOption::NameSize, false);
    assert!(found.first.is_empty());
    assert!(found.second.is_empty());
    assert_eq!(found.count, 0);
    let one_side = compare_folders(
        vec![file("A", "a.txt", 1)],
        Vec::new(),
        FileDataCompareOption::Name,
        false,
    );
    assert_eq!(sorted(&one_side.first), vec!["A/a.txt"]);
    assert_eq!(one_side.count, 1);
}

#[test]
fn the_same_scans_give_the_same_outcome() {
    let first: Vec<FileData> = (0..200).map(|i| file("A", &format!("f{i}.txt"), i)).collect();
    let second: Vec<FileData> = (100..300).map(|i| file("B", &format!("f{i}.txt"), i)).collect();
    let once = compare_folders(first.clone(), second.clone(), FileDataCompareOption::NameSize, false);
    let again = compare_folders(first, second, FileDataCompareOption::NameSize, false);
    assert_eq!(once.count, 200);
    assert_eq!(once.count, again.count);
    let paths = |d: &Differences| -> (Vec<String>, Vec<String>) {
        (
            d.first.iter().map(|p| p.0.clone()).collect(),
            d.second.iter().map(|p| p.0.clone()).collect(),
        )
    };
    assert_eq!(paths(&once), paths(&again));
    assert_eq!(sorted(&once.first).len(), 100);
    assert_eq!(sorted(&once.first)[0], "A/f0.txt");
}

#[test]
fn compare_with_takes_any_pair_of_functions() {
    let first = vec![file("A", "a.txt", 10), file("A", "b.txt", 20)];
    let second = vec![file("B", "a.txt", 11)];
    let found = compare_with(first, second, eq_by_name_size, hash_by_name_size, false);
    assert_eq!(sorted(&found.first), vec!["A/a.txt", "A/b.txt"]);
    assert_eq!(sorted(&found.second), vec!["B/a.txt"]);
    assert_eq!(found.count, 3);
    let by_digest = compare_with(
        vec![file("A", "a.txt", 10)],
        vec![file("B", "b.txt", 20)],
        eq_by_digest,
        hash_by_digest,
        false,
    );
    assert_eq!(by_digest.count, 0);
}

#[test]
fn the_order_of_a_scan_does_not_matter() {
    let first: Vec<FileData> = (0..50).map(|i| file("A", &format!("f{i}.txt"), i)).collect();
    let second: Vec<FileData> = (25..75).map(|i| file("B", &format!("f{i}.txt"), i)).collect();
    let mut first_reversed = first.clone();
    first_reversed.reverse();
    let mut second_rotated = second.clone();
    second_rotated.rotate_left(17);
    let straight = compare_folders(first, second, FileDataCompareOption::Name, false);
    let mixed = compare_folders(first_reversed, second_rotated, FileDataCompareOption::Name, false);
    assert_eq!(straight.count, 50);
    assert_eq!(mixed.count, 50);
    assert_eq!(sorted(&straight.first), sorted(&mixed.first));
    assert_eq!(sorted(&straight.second), sorted(&mixed.second));
}
