use smart_archive::archive::{archive_key, check_copied_file, copy_target, key_relative_path, prepare, CopyTarget, Prepared};
use smart_archive::checksum_map::ChecksumMap;
use smart_archive::error::ArchiveError;

fn map_of(entries: &[(&str, &str)]) -> ChecksumMap {
    ChecksumMap::from_entries(entries.iter().map(|(k, v)| (k.to_string(), v.to_string())).collect())
}

#[test]
fn prepare_without_file_generates_it() {
    let a = map_of(&[("./file2.txt", "b"), ("./file1.txt", "a")]);
    match prepare(None, &a) {
        Ok(Prepared::Generated { text }) => assert_eq!(text, "./file1.txt\ta\n./file2.txt\tb\n"),
        other => panic!("unexpected {:?}", other),
    }
}

#[test]
fn prepare_twice_verifies() {
    let a = map_of(&[("./file1.txt", "a"), ("./file2.txt", "b"), ("./file3.txt", "c")]);
    let text = match prepare(None, &a) {
        Ok(Prepared::Generated { text }) => text,
        other => panic!("unexpected {:?}", other),
    };
    assert!(matches!(prepare(Some(&text), &a), Ok(Prepared::Verified)));
}

#[test]
fn prepare_with_stale_file_fails() {
    let a = map_of(&[("./file1.txt", "a")]);
    let r = prepare(Some("./file1.txt\tz\n"), &a);
    assert!(matches!(r, Err(ArchiveError::ChecksumMismatch { .. })));
    let r = prepare(Some("./file0.txt\tz\n./file1.txt\ta\n"), &a);
    assert!(matches!(r, Err(ArchiveError::MissingFile(p)) if p == "./file0.txt"));
}

#[test]
fn keys_and_relative_paths() {
    assert_eq!(archive_key("dir/f.txt"), "./dir/f.txt");
    assert_eq!(key_relative_path("./dir/f.txt"), "dir/f.txt");
    assert_eq!(key_relative_path("././a"), "a");
    assert_eq!(key_relative_path("a"), "a");
    assert_eq!(key_relative_path("."), ".");
    assert_eq!(key_relative_path(&archive_key("x")), "x");
}

#[test]
fn copy_targets() {
    assert!(matches!(copy_target(true, false, false, Some("s".to_string())), CopyTarget::NotADirectory));
    assert!(matches!(copy_target(true, true, false, None), CopyTarget::UnknownSourceName));
    assert!(matches!(copy_target(true, true, false, Some("s".to_string())), CopyTarget::Into { name } if name == "s"));
    assert!(matches!(copy_target(false, false, false, None), CopyTarget::Direct));
}

#[test]
fn copy_into_empty_destination_is_direct() {
    assert!(matches!(copy_target(true, true, true, Some("s".to_string())), CopyTarget::Direct));
    assert!(matches!(copy_target(true, true, true, None), CopyTarget::Direct));
}

#[test]
fn copied_file_check() {
    assert!(check_copied_file("/d/f".to_string(), "x".to_string(), "x".to_string()).is_ok());
    let r = check_copied_file("/d/f".to_string(), "x".to_string(), "y".to_string());
    assert!(matches!(r, Err(ArchiveError::ChecksumMismatch { file_name, expected_sum, actual_sum })
        if file_name == "/d/f" && expected_sum == "x" && actual_sum == "y"));
}
