use smart_archive::digest::{file_checksum, to_hex_lower};

#[test]
fn md5_of_empty_content() {
    assert_eq!(file_checksum(b""), "d41d8cd98f00b204e9800998ecf8427e");
}

#[test]
fn md5_of_known_contents() {
    assert_eq!(file_checksum(b"abc"), "900150983cd24fb0d6963f7d28e17f72");
    assert_eq!(
        file_checksum(b"The quick brown fox jumps over the lazy dog"),
        "9e107d9d372bb6826bd81d3542a419d6"
    );
}

#[test]
fn hex_is_lowercase_two_digits_per_byte() {
    assert_eq!(to_hex_lower(&[0x00, 0x0f, 0xa0, 0xff]), "000fa0ff");
    assert_eq!(to_hex_lower(&[]), "");
}

#[test]
fn checksum_is_lowercase_hex() {
    let c = file_checksum(b"some file content\n");
    assert_eq!(c.len(), 32);
    assert!(c.chars().all(|ch| ch.is_ascii_digit() || ('a'..='f').contains(&ch)));
}
