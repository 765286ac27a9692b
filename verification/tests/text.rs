use smart_archive::order::sorted_order;
use smart_archive::text::{bytes_less, bytes_of, chars_of, split_chars, string_from_chars};

fn cv(s: &str) -> Vec<char> {
    s.chars().collect()
}

#[test]
fn split_like_str_split() {
    for (s, sep) in [("a\tb", '\t'), ("", '\t'), ("\t", '\t'), ("a,,b,", ','), ("abc", ',')] {
        let got: Vec<String> = split_chars(&cv(s), sep).iter().map(|p| p.iter().collect()).collect();
        let want: Vec<String> = s.split(sep).map(|p| p.to_string()).collect();
        assert_eq!(got, want);
    }
}

#[test]
fn lexicographic_byte_order() {
    let lt = |a: &str, b: &str| bytes_less(a.as_bytes(), b.as_bytes());
    assert!(lt("a", "b"));
    assert!(lt("a", "ab"));
    assert!(!lt("ab", "a"));
    assert!(!lt("a", "a"));
    assert!(lt("", "a"));
    assert!(lt("z", "é"));
    for (a, b) in [("a", "b"), ("é", "z"), ("Z", "a"), ("ab", "a"), ("x", "x")] {
        assert_eq!(lt(a, b), a < b);
    }
}

#[test]
fn sorting_indices_by_key() {
    let keys = vec![bytes_of("./b"), bytes_of("./a"), bytes_of("./c"), bytes_of("./a/x")];
    assert_eq!(sorted_order(&keys), vec![1, 3, 0, 2]);
    assert!(sorted_order(&Vec::new()).is_empty());
}

#[test]
fn chars_and_back() {
    assert_eq!(chars_of("héllo"), cv("héllo"));
    assert_eq!(string_from_chars(&cv("héllo")), "héllo");
    assert_eq!(bytes_of("hé"), "hé".as_bytes().to_vec());
}
