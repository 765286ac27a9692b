//! Checksums of file contents: the MD5 digest, written as lowercase hex.
use vstd::prelude::*;
use crate::text::push_char;

verus! {

/// The MD5 digest of `data`, as the `md5` crate computes it.
pub uninterp spec fn md5_digest_of(data: Seq<u8>) -> Seq<u8>;

/// Calls `md5::compute`, which returns the 16 bytes of the MD5 digest of
/// its input (`md5::Digest(pub [u8; 16])`). The contract names the digest
/// and states its length; the digest algorithm itself is trusted.
#[verifier::external_body]
fn md5_digest(data: &[u8]) -> (r: Vec<u8>)
    ensures
        r@ == md5_digest_of(data@),
        r@.len() == 16,
{
    md5::compute(data).0.to_vec()
}

/// The lowercase hex digit of `n`, for `n < 16`.
pub open spec fn hex_digit(n: u8) -> char {
    if n < 10 {
        ((n + 48) as u8) as char
    } else {
        ((n + 87) as u8) as char
    }
}

/// `bytes` in lowercase hex, two digits per byte, high digit first: what
/// `format!("{:x}", digest)` writes for an `md5::Digest`.
pub open spec fn hex_lower(bytes: Seq<u8>) -> Seq<char>
    decreases bytes.len(),
{
    if bytes.len() == 0 {
        Seq::empty()
    } else {
        hex_lower(bytes.drop_last()) + seq![hex_digit(bytes.last() / 16), hex_digit(bytes.last() % 16)]
    }
}

fn hex_digit_exec(n: u8) -> (c: char)
    requires
        n < 16,
    ensures
        c == hex_digit(n),
{
    if n < 10 {
        (n + 48) as char
    } else {
        (n + 87) as char
    }
}

/// Writes `bytes` in lowercase hex.
pub fn to_hex_lower(bytes: &[u8]) -> (r: String)
    ensures
        r@ == hex_lower(bytes@),
        r@.len() == 2 * bytes@.len(),
        forall|i: int| 0 <= i < bytes@.len() ==> #[trigger] r@[2 * i] == lower_hex_digits()[(bytes@[i] / 16) as int],
        forall|i: int| 0 <= i < bytes@.len() ==> #[trigger] r@[2 * i + 1] == lower_hex_digits()[(bytes@[i] % 16) as int],
{
    let mut r = String::new();
    let mut i: usize = 0;
    while i < bytes.len()
        invariant
            i <= bytes.len(),
            r@ == hex_lower(bytes@.take(i as int)),
        decreases bytes.len() - i,
    {
        let b = bytes[i];
        push_char(&mut r, hex_digit_exec(b / 16));
        push_char(&mut r, hex_digit_exec(b % 16));
        proof {
            let t = bytes@.take(i + 1);
            assert(t.drop_last() =~= bytes@.take(i as int));
            assert(t.last() == b);
        }
        i = i + 1;
    }
    assert(bytes@.take(bytes.len() as int) =~= bytes@);
    proof {
        lemma_hex_lower_digits(bytes@);
    }
    r
}

/// The checksum recorded for a file whose content is `content`.
pub fn file_checksum(content: &[u8]) -> (r: String)
    ensures
        r@ == hex_lower(md5_digest_of(content@)),
        r@.len() == 32,
        is_hex_text(r@),
        forall|i: int| 0 <= i < 16 ==> #[trigger] r@[2 * i] == lower_hex_digits()[(md5_digest_of(content@)[i] / 16) as int],
        forall|i: int| 0 <= i < 16 ==> #[trigger] r@[2 * i + 1] == lower_hex_digits()[(md5_digest_of(content@)[i] % 16) as int],
{
    let digest = md5_digest(content);
    let r = to_hex_lower(digest.as_slice());
    proof {
        lemma_hex_lower_len(digest@);
        lemma_hex_lower_digits(digest@);
        lemma_hex_lower_is_hex(digest@);
    }
    r
}

/// Two digits per byte.
pub proof fn lemma_hex_lower_len(bytes: Seq<u8>)
    ensures
        hex_lower(bytes).len() == 2 * bytes.len(),
    decreases bytes.len(),
{
    if bytes.len() > 0 {
        lemma_hex_lower_len(bytes.drop_last());
    }
}

/// A lowercase hex digit: `0` to `9` or `a` to `f`.
pub open spec fn is_hex_char(c: char) -> bool {
    ('0' <= c && c <= '9') || ('a' <= c && c <= 'f')
}

/// Every character of `s` is a lowercase hex digit.
pub open spec fn is_hex_text(s: Seq<char>) -> bool {
    forall|i: int| 0 <= i < s.len() ==> #[trigger] is_hex_char(s[i])
}

proof fn lemma_hex_digit(n: u8)
    requires
        n < 16,
    ensures
        is_hex_char(hex_digit(n)),
{
}

/// A checksum written in hex holds only hex digits.
pub proof fn lemma_hex_lower_is_hex(bytes: Seq<u8>)
    ensures
        is_hex_text(hex_lower(bytes)),
    decreases bytes.len(),
{
    if bytes.len() > 0 {
        lemma_hex_lower_is_hex(bytes.drop_last());
        lemma_hex_digit(bytes.last() / 16);
        lemma_hex_digit(bytes.last() % 16);
        let h = hex_lower(bytes);
        let p = hex_lower(bytes.drop_last());
        assert forall|i: int| 0 <= i < h.len() implies #[trigger] is_hex_char(h[i]) by {
            if i < p.len() {
                assert(h[i] == p[i]);
            }
        }
    }
}

/// The sixteen lowercase hex digits, by value.
pub open spec fn lower_hex_digits() -> Seq<char> {
    seq!['0', '1', '2', '3', '4', '5', '6', '7', '8', '9', 'a', 'b', 'c', 'd', 'e', 'f']
}

proof fn lemma_hex_digit_value(n: u8)
    requires
        n < 16,
    ensures
        hex_digit(n) == lower_hex_digits()[n as int],
{
    let d = lower_hex_digits();
    if n == 0 { assert(hex_digit(n) == d[0]); }
    else if n == 1 { assert(hex_digit(n) == d[1]); }
    else if n == 2 { assert(hex_digit(n) == d[2]); }
    else if n == 3 { assert(hex_digit(n) == d[3]); }
    else if n == 4 { assert(hex_digit(n) == d[4]); }
    else if n == 5 { assert(hex_digit(n) == d[5]); }
    else if n == 6 { assert(hex_digit(n) == d[6]); }
    else if n == 7 { assert(hex_digit(n) == d[7]); }
    else if n == 8 { assert(hex_digit(n) == d[8]); }
    else if n == 9 { assert(hex_digit(n) == d[9]); }
    else if n == 10 { assert(hex_digit(n) == d[10]); }
    else if n == 11 { assert(hex_digit(n) == d[11]); }
    else if n == 12 { assert(hex_digit(n) == d[12]); }
    else if n == 13 { assert(hex_digit(n) == d[13]); }
    else if n == 14 { assert(hex_digit(n) == d[14]); }
    else { assert(hex_digit(n) == d[15]); }
}

/// Hex text is written byte by byte, high digit first: for each byte at
/// `i`, the characters at `2 * i` and `2 * i + 1` are the digits of its
/// high and low nibble.
pub proof fn lemma_hex_lower_digits(bytes: Seq<u8>)
    ensures
        hex_lower(bytes).len() == 2 * bytes.len(),
        forall|i: int| 0 <= i < bytes.len() ==> #[trigger] hex_lower(bytes)[2 * i] == lower_hex_digits()[(bytes[i] / 16) as int],
        forall|i: int| 0 <= i < bytes.len() ==> #[trigger] hex_lower(bytes)[2 * i + 1] == lower_hex_digits()[(bytes[i] % 16) as int],
    decreases bytes.len(),
{
    lemma_hex_lower_len(bytes);
    if bytes.len() > 0 {
        let init = bytes.drop_last();
        let n = init.len();
        lemma_hex_lower_digits(init);
        lemma_hex_digit_value(bytes.last() / 16);
        lemma_hex_digit_value(bytes.last() % 16);
        let h = hex_lower(bytes);
        let p = hex_lower(init);
        assert forall|i: int| 0 <= i < bytes.len() implies #[trigger] h[2 * i] == lower_hex_digits()[(bytes[i] / 16) as int] by {
            if i < n {
                assert(h[2 * i] == p[2 * i]);
                assert(init[i] == bytes[i]);
            } else {
                assert(h[2 * i] == hex_digit(bytes.last() / 16));
            }
        }
        assert forall|i: int| 0 <= i < bytes.len() implies #[trigger] h[2 * i + 1] == lower_hex_digits()[(bytes[i] % 16) as int] by {
            if i < n {
                assert(h[2 * i + 1] == p[2 * i + 1]);
                assert(init[i] == bytes[i]);
            } else {
                assert(h[2 * i + 1] == hex_digit(bytes.last() % 16));
            }
        }
    }
}

} // verus!
