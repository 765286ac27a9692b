//! The archive's usual scenarios, on a directory of three files whose
//! checksums are computed from their contents.
use smart_archive::archive::{prepare, Prepared};
use smart_archive::checksum_file::{format_checksums, parse_checksums};
use smart_archive::checksum_map::ChecksumMap;
use smart_archive::digest::file_checksum;
use smart_archive::error::ArchiveError;
use smart_archive::reconcile::{check_conformity, find_discrepancies, Discrepancy, Review};

/// The record of a directory holding `files` (name, content).
fn directory(files: &[(&str, &str)]) -> ChecksumMap {
    ChecksumMap::from_entries(
        files
            .iter()
            .map(|(name, content)| (format!("./{}", name), file_checksum(content.as_bytes())))
            .collect(),
    )
}

fn initial_files() -> Vec<(&'static str, &'static str)> {
    vec![
        ("file1.txt", "contenu de file1"),
        ("file2.txt", "contenu de file2"),
        ("file3.txt", "contenu de file3"),
    ]
}

fn prepared_text() -> String {
    match prepare(None, &directory(&initial_files())) {
        Ok(Prepared::Generated { text }) => text,
        other => panic!("unexpected {:?}", other),
    }
}

fn same(a: &ChecksumMap, b: &ChecksumMap) -> bool {
    a.len() == b.len() && a.keys().iter().all(|k| a.get(k) == b.get(k))
}

/// Runs an interactive review answering `answers` in turn; returns the
/// review and the kinds of the differences met.
fn review(actual: &ChecksumMap, answers: &[bool]) -> (Review, Vec<&'static str>) {
    let expected = parse_checksums(&prepared_text());
    let ds = find_discrepancies(&expected, actual);
    assert_eq!(ds.len(), answers.len());
    let mut kinds = Vec::new();
    let mut r = Review::new(expected);
    for (d, a) in ds.iter().zip(answers) {
        kinds.push(match d {
            Discrepancy::Missing { .. } => "missing",
            Discrepancy::Unexpected { .. } => "unexpected",
            Discrepancy::Mismatch { .. } => "changed",
        });
        r.record(d, *a);
    }
    (r, kinds)
}

#[test]
fn scenario_prepare_lists_every_file() {
    let text = prepared_text();
    assert!(text.contains("./file1.txt"));
    assert!(text.contains("./file2.txt"));
    assert!(text.contains("./file3.txt"));
    assert_eq!(text.lines().count(), 3);
}

#[test]
fn scenario_prepare_again_verifies() {
    let text = prepared_text();
    assert!(matches!(prepare(Some(&text), &directory(&initial_files())), Ok(Prepared::Verified)));
}

#[test]
fn scenario_delete_one_accept() {
    let actual = directory(&initial_files()[1..]);
    let (r, kinds) = review(&actual, &[true]);
    assert_eq!(kinds, vec!["missing"]);
    assert!(r.modified);
    assert!(same(&r.updated, &actual));
    let rewritten = parse_checksums(&format_checksums(&r.updated));
    assert!(check_conformity(&rewritten, &actual).is_ok());
}

#[test]
fn scenario_delete_one_refuse() {
    let actual = directory(&initial_files()[1..]);
    let (r, _) = review(&actual, &[false]);
    assert!(!r.modified);
    assert!(same(&r.updated, &directory(&initial_files())));
}

#[test]
fn scenario_delete_two_accept_first_refuse_second() {
    let actual = directory(&initial_files()[2..]);
    let (r, kinds) = review(&actual, &[true, false]);
    assert_eq!(kinds, vec!["missing", "missing"]);
    assert!(r.modified);
    assert_eq!(r.updated.len(), 2);
    assert!(r.updated.contains_key("./file3.txt"));
}

#[test]
fn scenario_add_two_accept_both() {
    let mut files = initial_files();
    files.push(("extra1.txt", "contenu extra 1"));
    files.push(("extra2.txt", "contenu extra 2"));
    let actual = directory(&files);
    let (r, kinds) = review(&actual, &[true, true]);
    assert_eq!(kinds, vec!["unexpected", "unexpected"]);
    assert!(same(&r.updated, &actual));
}

#[test]
fn scenario_alter_one_refuse() {
    let mut files = initial_files();
    files[0] = ("file1.txt", "contenu modifié de file1");
    let actual = directory(&files);
    let (r, kinds) = review(&actual, &[false]);
    assert_eq!(kinds, vec!["changed"]);
    assert!(!r.modified);
    assert!(matches!(check_conformity(&r.updated, &actual), Err(ArchiveError::ChecksumMismatch { .. })));
}

#[test]
fn scenario_combined_accept_all() {
    let actual = directory(&[
        ("file2.txt", "contenu altéré"),
        ("file3.txt", "contenu de file3"),
        ("nouveau.txt", "fichier ajouté"),
    ]);
    let (r, kinds) = review(&actual, &[true, true, true]);
    assert_eq!(kinds, vec!["missing", "unexpected", "changed"]);
    assert!(r.modified);
    assert!(same(&r.updated, &actual));
}

#[test]
fn scenario_non_interactive_errors() {
    let expected = parse_checksums(&prepared_text());
    let missing = directory(&initial_files()[1..]);
    assert!(matches!(check_conformity(&expected, &missing),
        Err(ArchiveError::MissingFile(p)) if p == "./file1.txt"));
    let mut files = initial_files();
    files.push(("extra.txt", "contenu inattendu"));
    assert!(matches!(check_conformity(&expected, &directory(&files)),
        Err(ArchiveError::UnexpectedFile(p)) if p == "./extra.txt"));
    let mut files = initial_files();
    files[0] = ("file1.txt", "contenu modifié");
    assert!(matches!(check_conformity(&expected, &directory(&files)),
        Err(ArchiveError::ChecksumMismatch { file_name, expected_sum, actual_sum })
            if file_name == "./file1.txt"
                && expected_sum == file_checksum(b"contenu de file1")
                && actual_sum == file_checksum("contenu modifié".as_bytes())));
}
