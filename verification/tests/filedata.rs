use folder_compare::filedata::{
    parse_comparer, FileData, FileDataCompareOption, FilePath, ParseError, Sha2Value,
};

#[test]
fn absent_or_empty_comparison_is_name() {
    assert_eq!(parse_comparer(&None), Ok(FileDataCompareOption::Name));
    assert_eq!(parse_comparer(&Some(String::new())), Ok(FileDataCompareOption::Name));
}

#[test]
fn the_three_tokens_are_read() {
    assert_eq!(parse_comparer(&Some(String::from("name"))), Ok(FileDataCompareOption::Name));
    assert_eq!(
        parse_comparer(&Some(String::from("namesize"))),
        Ok(FileDataCompareOption::NameSize)
    );
    assert_eq!(parse_comparer(&Some(String::from("hash"))), Ok(FileDataCompareOption::Hash));
}

#[test]
fn case_does_not_matter() {
    assert_eq!(parse_comparer(&Some(String::from("Name"))), Ok(FileDataCompareOption::Name));
    assert_eq!(parse_comparer(&Some(String::from("NAME"))), Ok(FileDataCompareOption::Name));
    assert_eq!(
        parse_comparer(&Some(String::from("NameSize"))),
        Ok(FileDataCompareOption::NameSize)
    );
    assert_eq!(
        parse_comparer(&Some(String::from("nAMEsIZE"))),
        Ok(FileDataCompareOption::NameSize)
    );
    assert_eq!(parse_comparer(&Some(String::from("HaSh"))), Ok(FileDataCompareOption::Hash));
}

#[test]
fn other_text_is_refused() {
    for text in ["size", "names", "nam", "name ", " name", "hash1", "n\u{e4}me", "h@sh", "NAME_SIZE"] {
        assert_eq!(parse_comparer(&Some(String::from(text))), Err(ParseError::VariantNotFound));
    }
}

#[test]
fn only_ascii_letters_fold() {
    // '@' is 0x40 and '`' is 0x60: 32 apart as 'A' and 'a' are, and no letters
    assert_eq!(parse_comparer(&Some(String::from("h`sh"))), Err(ParseError::VariantNotFound));
    // the Kelvin sign lower-cases to 'k' in Unicode, not in ASCII
    assert_eq!(parse_comparer(&Some(String::from("\u{212a}"))), Err(ParseError::VariantNotFound));
}

#[test]
fn only_the_hash_comparison_needs_a_digest() {
    assert!(!FileDataCompareOption::Name.needs_digest());
    assert!(!FileDataCompareOption::NameSize.needs_digest());
    assert!(FileDataCompareOption::Hash.needs_digest());
}

#[test]
fn digest_holds_the_bytes_given() {
    let mut bytes = [0u8; 32];
    for (i, b) in bytes.iter_mut().enumerate() {
        *b = (i * 8) as u8;
    }
    let value = Sha2Value::new(&bytes);
    assert_eq!(value.hash, bytes);
    assert_eq!(value, Sha2Value { hash: bytes });
    assert_eq!(value.clone(), value);
    bytes[31] ^= 1;
    assert_ne!(value, Sha2Value::new(&bytes));
}

#[test]
fn digest_prints_as_hexadecimal() {
    let mut bytes = [0u8; 32];
    bytes[0] = 0x01;
    bytes[1] = 0xab;
    bytes[2] = 0xf0;
    bytes[31] = 0x9c;
    let text = Sha2Value::new(&bytes).to_hex();
    assert_eq!(text.len(), 64);
    assert_eq!(
        text,
        "01abf0000000000000000000000000000000000000000000000000000000009c"
    );
    assert_eq!(Sha2Value { hash: [0xff; 32] }.to_hex(), "ff".repeat(32));
}

#[test]
fn path_keeps_its_text() {
    let path = FilePath::from("some/dir/file.txt");
    assert_eq!(path.as_str(), "some/dir/file.txt");
    assert_eq!(path.0, "some/dir/file.txt");
    assert_eq!(path.clone().as_str(), "some/dir/file.txt");
    let by_into: FilePath = "x".into();
    assert_eq!(by_into.as_str(), "x");
}

#[test]
fn record_clone_keeps_every_field() {
    let record = FileData {
        name: String::from("a.txt"),
        path: FilePath::from("root/a.txt"),
        size: 10,
        digest: Some(Sha2Value { hash: [3; 32] }),
    };
    let copy = record.clone();
    assert_eq!(copy.name, "a.txt");
    assert_eq!(copy.path.as_str(), "root/a.txt");
    assert_eq!(copy.size, 10);
    assert_eq!(copy.digest, Some(Sha2Value { hash: [3; 32] }));
}

#[test]
fn record_is_made_for_a_name_and_a_fitting_digest() {
    let digest = Some(Sha2Value { hash: [1; 32] });
    let made = FileData::new(
        String::from("a.txt"),
        FilePath::from("root/a.txt"),
        10,
        None,
        FileDataCompareOption::Name,
    );
    let record = made.unwrap();
    assert_eq!(record.name, "a.txt");
    assert_eq!(record.path.as_str(), "root/a.txt");
    assert_eq!(record.size, 10);
    assert_eq!(record.digest, None);
    let hashed = FileData::new(
        String::from("a.txt"),
        FilePath::from("root/a.txt"),
        10,
        digest.clone(),
        FileDataCompareOption::Hash,
    );
    assert_eq!(hashed.unwrap().digest, digest);
    assert!(FileData::new(
        String::from("a.txt"),
        FilePath::from("root/a.txt"),
        0,
        None,
        FileDataCompareOption::NameSize,
    )
    .is_some());
}

#[test]
fn record_is_refused_for_an_empty_name_or_a_misfit_digest() {
    let digest = Some(Sha2Value { hash: [1; 32] });
    assert!(FileData::new(
        String::new(),
        FilePath::from("root/"),
        10,
        None,
        FileDataCompareOption::Name,
    )
    .is_none());
    assert!(FileData::new(
        String::from("a.txt"),
        FilePath::from("root/a.txt"),
        10,
        digest.clone(),
        FileDataCompareOption::Name,
    )
    .is_none());
    assert!(FileData::new(
        String::from("a.txt"),
        FilePath::from("root/a.txt"),
        10,
        digest,
        FileDataCompareOption::NameSize,
    )
    .is_none());
    assert!(FileData::new(
        String::from("a.txt"),
        FilePath::from("root/a.txt"),
        10,
        None,
        FileDataCompareOption::Hash,
    )
    .is_none());
}
