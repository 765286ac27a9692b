use smart_archive::checksum_map::ChecksumMap;
use smart_archive::error::ArchiveError;
use smart_archive::checksum_file::parse_checksums;
use smart_archive::reconcile::{accept, check_conformity, find_discrepancies, review_all, Discrepancy, Review};

fn map_of(entries: &[(&str, &str)]) -> ChecksumMap {
    ChecksumMap::from_entries(entries.iter().map(|(k, v)| (k.to_string(), v.to_string())).collect())
}

fn same(a: &ChecksumMap, b: &ChecksumMap) -> bool {
    a.len() == b.len() && a.keys().iter().all(|k| a.get(k) == b.get(k))
}

#[test]
fn discrepancies_in_kind_order() {
    let e = map_of(&[("./a", "1"), ("./b", "2"), ("./c", "3")]);
    let a = map_of(&[("./b", "2"), ("./c", "4"), ("./d", "5")]);
    let ds = find_discrepancies(&e, &a);
    assert_eq!(ds.len(), 3);
    assert!(matches!(&ds[0], Discrepancy::Missing { path } if path == "./a"));
    assert!(matches!(&ds[1], Discrepancy::Unexpected { path, actual_sum } if path == "./d" && actual_sum == "5"));
    assert!(matches!(&ds[2], Discrepancy::Mismatch { path, expected_sum, actual_sum }
        if path == "./c" && expected_sum == "3" && actual_sum == "4"));
    assert_eq!(ds[2].path(), "./c");
}

#[test]
fn no_discrepancy_between_equal_maps() {
    let e = map_of(&[("./a", "1"), ("./b", "2")]);
    let a = map_of(&[("./b", "2"), ("./a", "1")]);
    assert!(find_discrepancies(&e, &a).is_empty());
    assert!(check_conformity(&e, &a).is_ok());
}

#[test]
fn conformity_reports_missing_first() {
    let e = map_of(&[("./a", "1"), ("./c", "3")]);
    let a = map_of(&[("./c", "4"), ("./d", "5")]);
    let r = check_conformity(&e, &a);
    assert!(matches!(r, Err(ArchiveError::MissingFile(p)) if p == "./a"));
}

#[test]
fn conformity_reports_unexpected_before_mismatch() {
    let e = map_of(&[("./c", "3")]);
    let a = map_of(&[("./c", "4"), ("./d", "5")]);
    let r = check_conformity(&e, &a);
    assert!(matches!(r, Err(ArchiveError::UnexpectedFile(p)) if p == "./d"));
}

#[test]
fn conformity_reports_mismatch() {
    let e = map_of(&[("./c", "3")]);
    let a = map_of(&[("./c", "4")]);
    let r = check_conformity(&e, &a);
    assert!(matches!(r, Err(ArchiveError::ChecksumMismatch { file_name, expected_sum, actual_sum })
        if file_name == "./c" && expected_sum == "3" && actual_sum == "4"));
}

#[test]
fn accepting_everything_makes_record_match() {
    let e = map_of(&[("./a", "1"), ("./b", "2"), ("./c", "3")]);
    let a = map_of(&[("./b", "2"), ("./c", "4"), ("./d", "5")]);
    let ds = find_discrepancies(&e, &a);
    let mut review = Review::new(map_of(&[("./a", "1"), ("./b", "2"), ("./c", "3")]));
    for d in &ds {
        review.record(d, true);
    }
    assert!(review.modified);
    assert!(same(&review.updated, &a));
    assert!(find_discrepancies(&review.updated, &a).is_empty());
}

#[test]
fn refusing_everything_keeps_record() {
    let e = map_of(&[("./a", "1"), ("./c", "3")]);
    let a = map_of(&[("./c", "4"), ("./d", "5")]);
    let ds = find_discrepancies(&e, &a);
    let mut review = Review::new(map_of(&[("./a", "1"), ("./c", "3")]));
    for d in &ds {
        review.record(d, false);
    }
    assert!(!review.modified);
    assert!(same(&review.updated, &e));
}

#[test]
fn accepting_some_changes_only_their_paths() {
    let e = map_of(&[("./a", "1"), ("./c", "3")]);
    let a = map_of(&[("./c", "4"), ("./d", "5")]);
    let ds = find_discrepancies(&e, &a);
    let mut updated = map_of(&[("./a", "1"), ("./c", "3")]);
    for d in &ds {
        if d.path() != "./c" {
            accept(&mut updated, d);
        }
    }
    assert!(same(&updated, &map_of(&[("./c", "3"), ("./d", "5")])));
}

#[test]
fn whole_review_with_mixed_answers() {
    let e = map_of(&[("./a", "1"), ("./b", "2"), ("./c", "3")]);
    let a = map_of(&[("./b", "2"), ("./c", "4"), ("./d", "5")]);
    let ds = find_discrepancies(&e, &a);
    let r = review_all(map_of(&[("./a", "1"), ("./b", "2"), ("./c", "3")]), &ds, &vec![true, false, true]);
    assert!(r.modified);
    assert!(same(&r.updated, &map_of(&[("./b", "2"), ("./c", "4")])));
    let text = r.rewritten_file().expect("rewritten");
    assert_eq!(text, "./b\t2\n./c\t4\n");
    assert!(same(&parse_checksums(&text), &r.updated));
}

#[test]
fn whole_review_refusing_everything_rewrites_nothing() {
    let e = map_of(&[("./a", "1")]);
    let a = map_of(&[("./b", "2")]);
    let ds = find_discrepancies(&e, &a);
    let r = review_all(map_of(&[("./a", "1")]), &ds, &vec![false, false]);
    assert!(!r.modified);
    assert!(r.rewritten_file().is_none());
    assert!(same(&r.updated, &e));
}
