use smart_archive::filter::{is_archivable_entry, is_excluded, is_hidden, should_include, should_include_under};

fn pats(p: &[&str]) -> Vec<String> {
    p.iter().map(|s| s.to_string()).collect()
}

#[test]
fn hidden_components() {
    assert!(is_hidden("/tmp/x/.git/config"));
    assert!(is_hidden("/tmp/x/.checksums"));
    assert!(is_hidden("./a"));
    assert!(is_hidden("/a/../b"));
    assert!(is_hidden("."));
    assert!(!is_hidden("/tmp/x/a.txt"));
    assert!(!is_hidden("a/./b"));
    assert!(!is_hidden("/"));
    assert!(!is_hidden(""));
    assert!(!is_hidden("a.b/c."));
}

#[test]
fn include_plain_files() {
    assert!(should_include("/tmp/x/a.txt", &[]));
    assert!(!should_include("/tmp/x/.hidden/a.txt", &[]));
}

#[test]
fn exclusion_patterns() {
    let ex = pats(&["**/target", "*.log"]);
    assert!(!should_include("/tmp/x/target", &ex));
    assert!(!should_include("/tmp/x/run.log", &ex));
    assert!(should_include("/tmp/x/src/main.rs", &ex));
}

#[test]
fn invalid_patterns_are_ignored() {
    let ex = pats(&["a[", "***"]);
    assert!(should_include("/tmp/x/a[", &ex));
    assert!(should_include("/tmp/x/b", &ex));
}

#[test]
fn archivable_entries() {
    assert!(is_archivable_entry("a.txt", true, false));
    assert!(!is_archivable_entry("a.txt", true, true));
    assert!(!is_archivable_entry("dir", false, false));
    assert!(!is_archivable_entry(".checksums", true, false));
}

#[test]
fn hidden_components_count_below_the_root_only() {
    let root = "/tmp/.tmpX";
    assert!(should_include_under(root, "/tmp/.tmpX", &[]));
    assert!(should_include_under(root, "/tmp/.tmpX/file1.txt", &[]));
    assert!(should_include_under(root, "/tmp/.tmpX/dir/file.txt", &[]));
    assert!(!should_include_under(root, "/tmp/.tmpX/.checksums", &[]));
    assert!(!should_include_under(root, "/tmp/.tmpX/.git/config", &[]));
    assert!(!should_include_under("/data", "/elsewhere/.x", &[]));
    assert!(!should_include_under(root, "/tmp/.tmpX/target", &pats(&["**/target"])));
}

#[test]
fn exclusion_alone() {
    assert!(is_excluded("/tmp/x/run.log", &pats(&["*.log"])));
    assert!(!is_excluded("/tmp/x/.hidden", &pats(&["*.log"])));
}
