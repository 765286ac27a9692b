use smart_archive::checksum_file::{format_checksums, parse_checksums, CHECKSUM_FILE};
use smart_archive::checksum_map::ChecksumMap;

fn map_of(entries: &[(&str, &str)]) -> ChecksumMap {
    ChecksumMap::from_entries(entries.iter().map(|(k, v)| (k.to_string(), v.to_string())).collect())
}

#[test]
fn parse_reads_two_field_lines_and_skips_others() {
    let text = "./a.txt\tabc\n./b.txt\tdef\r\n\nbad line\n./c\t1\t2\n./a.txt\tzzz";
    let m = parse_checksums(text);
    assert_eq!(m.len(), 2);
    assert_eq!(m.get("./a.txt").map(|s| s.as_str()), Some("zzz"));
    assert_eq!(m.get("./b.txt").map(|s| s.as_str()), Some("def"));
    assert!(!m.contains_key("./c"));
    assert!(!m.contains_key("bad line"));
}

#[test]
fn parse_keeps_carriage_return_of_unterminated_last_line() {
    let m = parse_checksums("./a\tx\r\n./b\ty\r");
    assert_eq!(m.get("./a").map(|s| s.as_str()), Some("x"));
    assert_eq!(m.get("./b").map(|s| s.as_str()), Some("y\r"));
}

#[test]
fn parse_empty_text_gives_empty_map() {
    assert_eq!(parse_checksums("").len(), 0);
    assert_eq!(parse_checksums("\n\n").len(), 0);
}

#[test]
fn parse_accepts_empty_fields() {
    let m = parse_checksums("\t\n./x\t\n");
    assert_eq!(m.get("").map(|s| s.as_str()), Some(""));
    assert_eq!(m.get("./x").map(|s| s.as_str()), Some(""));
}

#[test]
fn format_sorts_lines_by_path() {
    let m = map_of(&[("./b.txt", "2"), ("./a/z.txt", "3"), ("./a.txt", "1")]);
    assert_eq!(format_checksums(&m), "./a.txt\t1\n./a/z.txt\t3\n./b.txt\t2\n");
}

#[test]
fn format_orders_like_byte_order_of_strings() {
    let m = map_of(&[("./é", "1"), ("./z", "2"), ("./Z", "3")]);
    let text = format_checksums(&m);
    assert_eq!(text, "./Z\t3\n./z\t2\n./é\t1\n");
    let mut keys = vec!["./é", "./z", "./Z"];
    keys.sort();
    assert_eq!(keys, vec!["./Z", "./z", "./é"]);
}

#[test]
fn format_of_empty_map_is_empty() {
    assert_eq!(format_checksums(&ChecksumMap::new()), "");
}

#[test]
fn written_file_reads_back() {
    let m = map_of(&[("./file1.txt", "aa"), ("./file2.txt", "bb"), ("./dir/file3.txt", "cc")]);
    let back = parse_checksums(&format_checksums(&m));
    assert_eq!(back.len(), 3);
    for k in ["./file1.txt", "./file2.txt", "./dir/file3.txt"] {
        assert_eq!(back.get(k), m.get(k));
    }
}

#[test]
fn checksum_file_name() {
    assert_eq!(CHECKSUM_FILE, ".checksums");
}
