//! Character-level tools on which the file format and the path rules rest.
use vstd::prelude::*;
use vstd::utf8::{encode_utf8, encode_utf8_decode_utf8};

verus! {

/// Appends `c` to `s`: a call of `String::push`, which, as std documents it,
/// appends the given character to the end of the string. Trusted, not proved.
#[verifier::external_body]
pub(crate) fn push_char(s: &mut String, c: char)
    ensures
        final(s)@ == old(s)@.push(c),
{
    s.push(c)
}

/// The characters of `s`, in order.
pub fn chars_of(s: &str) -> (r: Vec<char>)
    ensures
        r@ == s@,
{
    let mut r: Vec<char> = Vec::new();
    for c in it: s.chars()
        invariant
            r@ == it.seq().take(it.index() as int),
    {
        r.push(c);
    }
    r
}

/// The string made of the characters of `cs`.
pub fn string_from_chars(cs: &[char]) -> (r: String)
    ensures
        r@ == cs@,
{
    let mut r = String::new();
    let mut i: usize = 0;
    while i < cs.len()
        invariant
            i <= cs.len(),
            r@ == cs@.take(i as int),
        decreases cs.len() - i,
    {
        push_char(&mut r, cs[i]);
        i = i + 1;
        assert(r@ =~= cs@.take(i as int));
    }
    assert(cs@.take(cs.len() as int) =~= cs@);
    r
}

/// Appends the characters of `t` to `s`.
pub fn push_all(s: &mut String, t: &str)
    ensures
        final(s)@ == old(s)@ + t@,
{
    let cs = chars_of(t);
    let mut i: usize = 0;
    while i < cs.len()
        invariant
            i <= cs.len(),
            cs@ == t@,
            s@ == old(s)@ + t@.take(i as int),
        decreases cs.len() - i,
    {
        push_char(s, cs[i]);
        i = i + 1;
        assert(s@ =~= old(s)@ + t@.take(i as int));
    }
    assert(t@.take(cs.len() as int) =~= t@);
}

/// The pieces of `s` between occurrences of `sep`, as `str::split` gives
/// them: there is always at least one piece, and `k` separators make `k + 1`
/// pieces, some of which may be empty.
pub open spec fn split_on(s: Seq<char>, sep: char) -> Seq<Seq<char>>
    decreases s.len(),
{
    if s.len() == 0 {
        seq![Seq::<char>::empty()]
    } else {
        let rest = split_on(s.drop_first(), sep);
        if s[0] == sep {
            seq![Seq::<char>::empty()] + rest
        } else {
            rest.update(0, seq![s[0]] + rest[0])
        }
    }
}

/// `split_on` never gives an empty list of pieces.
pub proof fn lemma_split_on_nonempty(s: Seq<char>, sep: char)
    ensures
        split_on(s, sep).len() >= 1,
    decreases s.len(),
{
    if s.len() > 0 {
        lemma_split_on_nonempty(s.drop_first(), sep);
    }
}

/// A piece that holds no separator is its own only piece; a separator after
/// it ends it.
pub proof fn lemma_split_on_prefix(a: Seq<char>, b: Seq<char>, sep: char)
    requires
        !a.contains(sep),
    ensures
        split_on(a + b, sep) == split_on(b, sep).update(0, a + split_on(b, sep)[0]),
        split_on(a + seq![sep] + b, sep) == seq![a] + split_on(b, sep),
    decreases a.len(),
{
    lemma_split_on_nonempty(b, sep);
    if a.len() == 0 {
        assert(a + b =~= b);
        assert(split_on(b, sep).update(0, a + split_on(b, sep)[0]) =~= split_on(b, sep));
        assert(a + seq![sep] + b =~= seq![sep] + b);
        assert((seq![sep] + b).drop_first() =~= b);
        assert((seq![sep] + b)[0] == sep);
        assert(a =~= Seq::<char>::empty());
        assert(split_on(seq![sep] + b, sep) == seq![Seq::<char>::empty()] + split_on(b, sep));
    } else {
        let a2 = a.drop_first();
        assert(!a2.contains(sep)) by {
            if a2.contains(sep) {
                let j = choose|j: int| 0 <= j < a2.len() && a2[j] == sep;
                assert(a[j + 1] == sep);
            }
        }
        assert(a[0] != sep) by {
            if a[0] == sep {
                assert(a.contains(sep));
            }
        }
        lemma_split_on_prefix(a2, b, sep);
        lemma_split_on_nonempty(a2 + b, sep);
        assert((a + b).drop_first() =~= a2 + b);
        assert((a + b)[0] == a[0]);
        assert(seq![a[0]] + (a2 + split_on(b, sep)[0]) =~= a + split_on(b, sep)[0]);
        assert(split_on(a + b, sep) =~= split_on(b, sep).update(0, a + split_on(b, sep)[0]));
        assert((a + seq![sep] + b).drop_first() =~= a2 + seq![sep] + b);
        assert((a + seq![sep] + b)[0] == a[0]);
        assert(seq![a[0]] + a2 =~= a);
        assert(split_on(a + seq![sep] + b, sep) =~= seq![a] + split_on(b, sep));
    }
}

/// Splitting around one separator splits each side on its own.
pub proof fn lemma_split_on_concat(x: Seq<char>, y: Seq<char>, sep: char)
    ensures
        split_on(x + seq![sep] + y, sep) == split_on(x, sep) + split_on(y, sep),
    decreases x.len(),
{
    lemma_split_on_nonempty(y, sep);
    if x.len() == 0 {
        assert(x + seq![sep] + y =~= seq![sep] + y);
        assert((seq![sep] + y).drop_first() =~= y);
        assert((seq![sep] + y)[0] == sep);
        assert(split_on(x, sep) =~= seq![Seq::<char>::empty()]);
    } else {
        let x2 = x.drop_first();
        lemma_split_on_concat(x2, y, sep);
        lemma_split_on_nonempty(x2, sep);
        assert((x + seq![sep] + y).drop_first() =~= x2 + seq![sep] + y);
        assert((x + seq![sep] + y)[0] == x[0]);
        if x[0] == sep {
            assert(split_on(x + seq![sep] + y, sep) =~= split_on(x, sep) + split_on(y, sep));
        } else {
            assert(split_on(x + seq![sep] + y, sep) =~= split_on(x, sep) + split_on(y, sep));
        }
    }
}

/// A sequence without the separator is its own only piece.
pub proof fn lemma_split_on_single(x: Seq<char>, sep: char)
    requires
        !x.contains(sep),
    ensures
        split_on(x, sep) == seq![x],
{
    lemma_split_on_prefix(x, Seq::<char>::empty(), sep);
    assert(x + Seq::<char>::empty() =~= x);
    assert(split_on(Seq::<char>::empty(), sep) =~= seq![Seq::<char>::empty()]);
    assert(split_on(x, sep) =~= seq![x]);
}

/// The pieces `parts` put back together, one `sep` between each two.
pub open spec fn joined(parts: Seq<Seq<char>>, sep: char) -> Seq<char>
    decreases parts.len(),
{
    if parts.len() == 0 {
        Seq::empty()
    } else if parts.len() == 1 {
        parts[0]
    } else {
        parts[0] + seq![sep] + joined(parts.drop_first(), sep)
    }
}

/// Splitting cuts `s` at each separator and nowhere else: no piece holds
/// the separator, and joining the pieces with it gives `s` back.
pub proof fn lemma_split_on_joined(s: Seq<char>, sep: char)
    ensures
        joined(split_on(s, sep), sep) == s,
        forall|i: int| 0 <= i < split_on(s, sep).len() ==> !(#[trigger] split_on(s, sep)[i]).contains(sep),
    decreases s.len(),
{
    if s.len() > 0 {
        let t = s.drop_first();
        let rest = split_on(t, sep);
        lemma_split_on_joined(t, sep);
        lemma_split_on_nonempty(t, sep);
        let parts = split_on(s, sep);
        if s[0] == sep {
            assert(parts == seq![Seq::<char>::empty()] + rest);
            assert(parts.drop_first() =~= rest);
            assert(joined(parts, sep) =~= s);
            assert forall|i: int| 0 <= i < parts.len() implies !(#[trigger] parts[i]).contains(sep) by {
                if i > 0 {
                    assert(parts[i] == rest[i - 1]);
                } else {
                    assert(parts[0] =~= Seq::<char>::empty());
                }
            }
        } else {
            let first = seq![s[0]] + rest[0];
            assert(parts == rest.update(0, first));
            assert(parts.drop_first() =~= rest.drop_first());
            if rest.len() == 1 {
                assert(joined(rest, sep) == rest[0]);
                assert(joined(parts, sep) =~= s);
            } else {
                assert(joined(rest, sep) == rest[0] + seq![sep] + joined(rest.drop_first(), sep));
                assert(parts.len() == rest.len());
                assert(parts[0] == first);
                assert(joined(parts, sep) == first + seq![sep] + joined(rest.drop_first(), sep));
                assert(s =~= seq![s[0]] + t);
                assert(joined(parts, sep) =~= s);
            }
            assert forall|i: int| 0 <= i < parts.len() implies !(#[trigger] parts[i]).contains(sep) by {
                if i > 0 {
                    assert(parts[i] == rest[i]);
                } else {
                    assert(!rest[0].contains(sep));
                    if first.contains(sep) {
                        let j = choose|j: int| 0 <= j < first.len() && first[j] == sep;
                        if j > 0 {
                            assert(rest[0][j - 1] == sep);
                        }
                    }
                }
            }
        }
    }
}

/// `piece` stands in `s` from index `j`, with a separator (or the start)
/// right before it and a separator (or the end) right after it.
pub open spec fn piece_at(s: Seq<char>, sep: char, j: int, piece: Seq<char>) -> bool {
    &&& 0 <= j
    &&& j + piece.len() <= s.len()
    &&& s.subrange(j, j + piece.len()) == piece
    &&& (j == 0 || s[j - 1] == sep)
    &&& (j + piece.len() == s.len() || s[j + piece.len()] == sep)
}

/// Where each piece stands in `s`: the first at the start, each later one
/// right after a separator.
pub proof fn lemma_split_on_piece_start(s: Seq<char>, sep: char, i: int) -> (j: int)
    requires
        0 <= i < split_on(s, sep).len(),
    ensures
        piece_at(s, sep, j, split_on(s, sep)[i]),
        (j == 0) == (i == 0),
    decreases s.len(),
{
    if s.len() == 0 {
        assert(s.subrange(0, 0) =~= split_on(s, sep)[0]);
        0
    } else {
        let t = s.drop_first();
        let rest = split_on(t, sep);
        lemma_split_on_nonempty(t, sep);
        let parts = split_on(s, sep);
        if s[0] == sep {
            assert(parts == seq![Seq::<char>::empty()] + rest);
            if i == 0 {
                assert(s.subrange(0, 0) =~= parts[0]);
                0
            } else {
                let j1 = lemma_split_on_piece_start(t, sep, i - 1);
                let piece = parts[i];
                assert(piece == rest[i - 1]);
                assert(s.subrange(j1 + 1, j1 + 1 + piece.len()) =~= t.subrange(j1, j1 + piece.len()));
                if j1 + piece.len() < t.len() {
                    assert(s[j1 + 1 + piece.len()] == t[j1 + piece.len()]);
                }
                if j1 > 0 {
                    assert(s[j1] == t[j1 - 1]);
                }
                j1 + 1
            }
        } else {
            let first = seq![s[0]] + rest[0];
            assert(parts == rest.update(0, first));
            if i == 0 {
                let j1 = lemma_split_on_piece_start(t, sep, 0);
                let l: int = rest[0].len() as int;
                assert(s.subrange(0, l + 1) =~= seq![s[0]] + t.subrange(0, l));
                if l < t.len() {
                    assert(s[l + 1] == t[l]);
                }
                0
            } else {
                let j1 = lemma_split_on_piece_start(t, sep, i);
                let piece = parts[i];
                assert(piece == rest[i]);
                assert(s.subrange(j1 + 1, j1 + 1 + piece.len()) =~= t.subrange(j1, j1 + piece.len()));
                if j1 + piece.len() < t.len() {
                    assert(s[j1 + 1 + piece.len()] == t[j1 + piece.len()]);
                }
                assert(s[j1] == t[j1 - 1]);
                j1 + 1
            }
        }
    }
}

/// The views of a sequence of character vectors.
pub open spec fn char_vec_views(v: Seq<Vec<char>>) -> Seq<Seq<char>> {
    v.map_values(|x: Vec<char>| x@)
}

/// Splits `s` at every `sep`, as `split_on` says.
pub fn split_chars(s: &[char], sep: char) -> (r: Vec<Vec<char>>)
    ensures
        char_vec_views(r@) == split_on(s@, sep),
{
    let mut parts: Vec<Vec<char>> = Vec::new();
    let mut cur: Vec<char> = Vec::new();
    let mut i: usize = 0;
    proof {
        lemma_split_on_nonempty(s@, sep);
        assert(s@.skip(0) =~= s@);
        assert(split_on(s@, sep).update(0, cur@ + split_on(s@, sep)[0]) =~= split_on(s@, sep));
    }
    while i < s.len()
        invariant
            i <= s.len(),
            split_on(s@, sep) == char_vec_views(parts@) + split_on(s@.skip(i as int), sep).update(
                0,
                cur@ + split_on(s@.skip(i as int), sep)[0],
            ),
        decreases s.len() - i,
    {
        let ghost rest = s@.skip(i as int);
        let ghost rest2 = s@.skip(i + 1);
        let ghost old_parts = char_vec_views(parts@);
        let ghost old_cur = cur@;
        proof {
            assert(rest.drop_first() =~= rest2);
            assert(rest[0] == s@[i as int]);
            lemma_split_on_nonempty(rest2, sep);
        }
        if s[i] == sep {
            let done = cur;
            cur = Vec::new();
            parts.push(done);
            proof {
                let sr2 = split_on(rest2, sep);
                assert(split_on(rest, sep) == seq![Seq::<char>::empty()] + sr2);
                assert(char_vec_views(parts@) =~= old_parts.push(old_cur));
                assert(split_on(rest, sep).update(0, old_cur + split_on(rest, sep)[0])
                    =~= seq![old_cur] + sr2);
                assert(sr2.update(0, cur@ + sr2[0]) =~= sr2);
                assert(old_parts + (seq![old_cur] + sr2) =~= old_parts.push(old_cur) + sr2);
            }
        } else {
            cur.push(s[i]);
            proof {
                let sr2 = split_on(rest2, sep);
                let c = s@[i as int];
                assert(split_on(rest, sep) == sr2.update(0, seq![c] + sr2[0]));
                assert(char_vec_views(parts@) == old_parts);
                assert(old_cur + (seq![c] + sr2[0]) =~= cur@ + sr2[0]);
                assert(split_on(rest, sep).update(0, old_cur + split_on(rest, sep)[0])
                    =~= sr2.update(0, cur@ + sr2[0]));
            }
        }
        i = i + 1;
    }
    let ghost before = char_vec_views(parts@);
    let ghost last = cur@;
    parts.push(cur);
    proof {
        assert(s@.skip(s.len() as int) =~= Seq::<char>::empty());
        assert(split_on(Seq::<char>::empty(), sep).update(0, last + Seq::<char>::empty())
            =~= seq![last]);
        assert(char_vec_views(parts@) =~= before.push(last));
        assert(before + seq![last] =~= before.push(last));
    }
    parts
}

/// Lexicographic order on byte sequences: the order of `str` and `String`,
/// which std documents as lexicographic by byte values.
pub open spec fn bytes_lt(a: Seq<u8>, b: Seq<u8>) -> bool
    decreases a.len(),
{
    if a.len() == 0 {
        b.len() > 0
    } else if b.len() == 0 {
        false
    } else if a[0] != b[0] {
        a[0] < b[0]
    } else {
        bytes_lt(a.drop_first(), b.drop_first())
    }
}

/// Nothing comes before itself, and two sequences are never each before the other.
pub proof fn lemma_bytes_lt_asymmetric(a: Seq<u8>, b: Seq<u8>)
    ensures
        !(bytes_lt(a, b) && bytes_lt(b, a)),
        !bytes_lt(a, a),
    decreases a.len(),
{
    if a.len() > 0 && b.len() > 0 && a[0] == b[0] {
        lemma_bytes_lt_asymmetric(a.drop_first(), b.drop_first());
    }
    if a.len() > 0 {
        lemma_bytes_lt_asymmetric(a.drop_first(), a.drop_first());
    }
}

/// The order is transitive.
pub proof fn lemma_bytes_lt_transitive(a: Seq<u8>, b: Seq<u8>, c: Seq<u8>)
    requires
        bytes_lt(a, b),
        bytes_lt(b, c),
    ensures
        bytes_lt(a, c),
    decreases a.len(),
{
    if a.len() > 0 && b.len() > 0 && c.len() > 0 {
        if a[0] == b[0] && b[0] == c[0] {
            lemma_bytes_lt_transitive(a.drop_first(), b.drop_first(), c.drop_first());
        }
    }
}

/// Two different sequences are ordered one way or the other.
pub proof fn lemma_bytes_lt_total(a: Seq<u8>, b: Seq<u8>)
    requires
        a != b,
    ensures
        bytes_lt(a, b) || bytes_lt(b, a),
    decreases a.len(),
{
    if a.len() > 0 && b.len() > 0 {
        if a[0] == b[0] {
            if a.drop_first() == b.drop_first() {
                assert(a =~= seq![a[0]] + a.drop_first());
                assert(b =~= seq![b[0]] + b.drop_first());
            }
            lemma_bytes_lt_total(a.drop_first(), b.drop_first());
        }
    } else if a.len() == 0 && b.len() == 0 {
        assert(a =~= b);
    }
}

/// Where two byte sequences first differ, the smaller byte comes first:
/// with equal bytes before index `i` and different bytes at `i`, `a` is
/// before `b` exactly when `a[i] < b[i]`.
pub proof fn lemma_bytes_lt_first_difference(a: Seq<u8>, b: Seq<u8>, i: int)
    requires
        0 <= i < a.len(),
        i < b.len(),
        a.take(i) == b.take(i),
        a[i] != b[i],
    ensures
        bytes_lt(a, b) == (a[i] < b[i]),
    decreases i,
{
    if i > 0 {
        assert(a[0] == a.take(i)[0]);
        assert(b[0] == b.take(i)[0]);
        assert(a.drop_first().take(i - 1) =~= a.take(i).drop_first());
        assert(b.drop_first().take(i - 1) =~= b.take(i).drop_first());
        lemma_bytes_lt_first_difference(a.drop_first(), b.drop_first(), i - 1);
    }
}

/// A proper prefix comes first, and nothing comes before one of its
/// prefixes.
pub proof fn lemma_bytes_lt_prefix(a: Seq<u8>, b: Seq<u8>)
    requires
        a.len() <= b.len(),
        b.take(a.len() as int) == a,
    ensures
        bytes_lt(a, b) == (a.len() < b.len()),
        !bytes_lt(b, a),
    decreases a.len(),
{
    if a.len() > 0 {
        assert(a[0] == b.take(a.len() as int)[0]);
        assert(b.drop_first().take(a.len() - 1) =~= a.drop_first());
        lemma_bytes_lt_prefix(a.drop_first(), b.drop_first());
    }
}

/// Whether `a` comes before `b` in lexicographic byte order.
pub fn bytes_less(a: &[u8], b: &[u8]) -> (r: bool)
    ensures
        r == bytes_lt(a@, b@),
{
    let mut i: usize = 0;
    assert(a@.skip(0) =~= a@);
    assert(b@.skip(0) =~= b@);
    while i < a.len() && i < b.len()
        invariant
            i <= a.len(),
            i <= b.len(),
            bytes_lt(a@, b@) == bytes_lt(a@.skip(i as int), b@.skip(i as int)),
        decreases a.len() - i,
    {
        let ghost sa = a@.skip(i as int);
        let ghost sb = b@.skip(i as int);
        assert(sa[0] == a@[i as int]);
        assert(sb[0] == b@[i as int]);
        if a[i] != b[i] {
            return a[i] < b[i];
        }
        assert(sa.drop_first() =~= a@.skip(i + 1));
        assert(sb.drop_first() =~= b@.skip(i + 1));
        i = i + 1;
    }
    i < b.len()
}

/// The order of paths: `String`'s order, on their UTF-8 encodings.
pub open spec fn path_lt(a: Seq<char>, b: Seq<char>) -> bool {
    bytes_lt(encode_utf8(a), encode_utf8(b))
}

/// `path_lt` is a strict total order.
pub proof fn lemma_path_lt_order(a: Seq<char>, b: Seq<char>, c: Seq<char>)
    ensures
        !(path_lt(a, b) && path_lt(b, a)),
        !path_lt(a, a),
        path_lt(a, b) && path_lt(b, c) ==> path_lt(a, c),
        a != b ==> path_lt(a, b) || path_lt(b, a),
{
    lemma_bytes_lt_asymmetric(encode_utf8(a), encode_utf8(b));
    if path_lt(a, b) && path_lt(b, c) {
        lemma_bytes_lt_transitive(encode_utf8(a), encode_utf8(b), encode_utf8(c));
    }
    if a != b {
        encode_utf8_decode_utf8(a);
        encode_utf8_decode_utf8(b);
        lemma_bytes_lt_total(encode_utf8(a), encode_utf8(b));
    }
}

/// The views of a sequence of byte vectors.
pub open spec fn byte_vec_views(v: Seq<Vec<u8>>) -> Seq<Seq<u8>> {
    v.map_values(|x: Vec<u8>| x@)
}

/// The UTF-8 encoding of `s`.
pub fn bytes_of(s: &str) -> (r: Vec<u8>)
    ensures
        r@ == encode_utf8(s@),
{
    vstd::slice::slice_to_vec(s.as_bytes())
}

} // verus!
