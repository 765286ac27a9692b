//! The `.checksums` file: one line per file, `{path}\t{checksum}`, sorted
//! by path.
use vstd::prelude::*;
use vstd::utf8::{encode_utf8, encode_utf8_decode_utf8};
use crate::checksum_map::{ChecksumMap, lists_keys_of, string_views};
use crate::digest::{is_hex_char, is_hex_text};
use crate::order::{sorted_order, in_range, key_lt};
use crate::text::{
    bytes_of, byte_vec_views, chars_of, char_vec_views, lemma_path_lt_order, lemma_split_on_nonempty, path_lt,
    lemma_split_on_prefix, push_all, push_char, split_chars, split_on, string_from_chars,
};

verus! {

broadcast use vstd::seq_lib::group_seq_properties;

/// The name of the checksum file at the root of an archived directory.
pub const CHECKSUM_FILE: &'static str = ".checksums";

// ---------------------------------------------------------------- reading

/// A line as `BufRead::lines` hands it out: without its `\n`, and without
/// a `\r` just before that `\n`.
pub open spec fn strip_cr(line: Seq<char>) -> Seq<char> {
    if line.len() > 0 && line.last() == '\r' {
        line.drop_last()
    } else {
        line
    }
}

/// The lines of `text` as `BufRead::lines` gives them: every piece ended by
/// `\n` (stripped of a final `\r`), then the rest if it is not empty.
pub open spec fn text_lines(text: Seq<char>) -> Seq<Seq<char>> {
    let parts = split_on(text, '\n');
    let ended = parts.take(parts.len() - 1).map_values(|l: Seq<char>| strip_cr(l));
    if parts.last().len() == 0 {
        ended
    } else {
        ended.push(parts.last())
    }
}

/// What one line adds: a line of exactly two tab-separated fields records
/// the second as the checksum of the first; any other line is skipped.
pub open spec fn apply_line(m: Map<Seq<char>, Seq<char>>, line: Seq<char>) -> Map<Seq<char>, Seq<char>> {
    let fields = split_on(line, '\t');
    if fields.len() == 2 {
        m.insert(fields[0], fields[1])
    } else {
        m
    }
}

/// The map after reading `lines` in order onto `m`: a later line for a path
/// replaces an earlier one.
pub open spec fn apply_lines(m: Map<Seq<char>, Seq<char>>, lines: Seq<Seq<char>>) -> Map<Seq<char>, Seq<char>>
    decreases lines.len(),
{
    if lines.len() == 0 {
        m
    } else {
        apply_line(apply_lines(m, lines.drop_last()), lines.last())
    }
}

/// The checksums that a checksum file holding `text` lists.
pub open spec fn parse_checksum_text(text: Seq<char>) -> Map<Seq<char>, Seq<char>> {
    apply_lines(Map::empty(), text_lines(text))
}

/// Reads one line into `m`.
fn read_line(m: &mut ChecksumMap, line: &[char])
    ensures
        final(m)@ == apply_line(old(m)@, line@),
{
    let fields = split_chars(line, '\t');
    if fields.len() == 2 {
        let k = string_from_chars(fields[0].as_slice());
        let v = string_from_chars(fields[1].as_slice());
        proof {
            assert(char_vec_views(fields@)[0] == fields@[0]@);
            assert(char_vec_views(fields@)[1] == fields@[1]@);
        }
        m.insert(k, v);
    }
}

/// Reads the text of a checksum file.
pub fn parse_checksums(text: &str) -> (r: ChecksumMap)
    ensures
        r@ == parse_checksum_text(text@),
{
    let cs = chars_of(text);
    let parts = split_chars(cs.as_slice(), '\n');
    let ghost pv = split_on(text@, '\n');
    let ghost ended = pv.take(pv.len() - 1).map_values(|l: Seq<char>| strip_cr(l));
    proof {
        lemma_split_on_nonempty(text@, '\n');
    }
    let n = parts.len();
    let mut m = ChecksumMap::new();
    let mut i: usize = 0;
    while i + 1 < n
        invariant
            n == parts@.len(),
            n >= 1,
            char_vec_views(parts@) == pv,
            ended == pv.take(pv.len() - 1).map_values(|l: Seq<char>| strip_cr(l)),
            i + 1 <= n,
            m@ == apply_lines(Map::empty(), ended.take(i as int)),
        decreases n - i,
    {
        let part = &parts[i];
        let len = part.len();
        let end = if len > 0 && part[len - 1] == '\r' {
            len - 1
        } else {
            len
        };
        let line = vstd::slice::slice_subrange(part.as_slice(), 0, end);
        proof {
            assert(pv[i as int] == part@);
            assert(line@ =~= strip_cr(part@));
            assert(ended[i as int] == strip_cr(pv[i as int]));
            assert(ended.take(i + 1).drop_last() =~= ended.take(i as int));
        }
        read_line(&mut m, line);
        i = i + 1;
    }
    proof {
        assert(ended.take(i as int) =~= ended);
        assert(pv.last() == parts@[n - 1]@);
    }
    if parts[n - 1].len() > 0 {
        read_line(&mut m, parts[n - 1].as_slice());
        proof {
            assert(ended.push(pv.last()).drop_last() =~= ended);
        }
    }
    m
}

// ---------------------------------------------------------------- writing

/// The line of the checksum file for `path`.
pub open spec fn checksum_line(path: Seq<char>, sum: Seq<char>) -> Seq<char> {
    path + seq!['\t'] + sum + seq!['\n']
}

/// The lines for `keys`, in that order.
pub open spec fn render_entries(keys: Seq<Seq<char>>, m: Map<Seq<char>, Seq<char>>) -> Seq<char>
    decreases keys.len(),
{
    if keys.len() == 0 {
        Seq::empty()
    } else {
        checksum_line(keys[0], m[keys[0]]) + render_entries(keys.drop_first(), m)
    }
}

/// `keys` lists the paths of `m`, each once, in strictly increasing order
/// of `path_lt`, the order in which `String`s sort.
pub open spec fn is_sorted_listing(keys: Seq<Seq<char>>, m: Map<Seq<char>, Seq<char>>) -> bool {
    &&& lists_keys_of(keys, m)
    &&& forall|i: int, j: int| 0 <= i < j < keys.len() ==> #[trigger] path_lt(keys[i], keys[j])
}

/// The paths of `m` in increasing order of `path_lt`.
pub open spec fn sorted_paths(m: Map<Seq<char>, Seq<char>>) -> Seq<Seq<char>> {
    choose|keys: Seq<Seq<char>>| is_sorted_listing(keys, m)
}

/// The text of the checksum file for `m`.
pub open spec fn checksum_file_text(m: Map<Seq<char>, Seq<char>>) -> Seq<char> {
    render_entries(sorted_paths(m), m)
}

/// Appending a path appends its line.
pub proof fn lemma_render_push(keys: Seq<Seq<char>>, k: Seq<char>, m: Map<Seq<char>, Seq<char>>)
    ensures
        render_entries(keys.push(k), m) == render_entries(keys, m) + checksum_line(k, m[k]),
    decreases keys.len(),
{
    if keys.len() == 0 {
        assert(keys.push(k).drop_first() =~= Seq::<Seq<char>>::empty());
        assert(render_entries(Seq::<Seq<char>>::empty(), m) == Seq::<char>::empty());
        assert(keys.push(k)[0] == k);
        assert(render_entries(keys, m) == Seq::<char>::empty());
        assert(render_entries(keys.push(k), m) =~= checksum_line(k, m[k]));
    } else {
        assert(keys.push(k).drop_first() =~= keys.drop_first().push(k));
        lemma_render_push(keys.drop_first(), k, m);
        assert(render_entries(keys.push(k), m) =~= render_entries(keys, m) + checksum_line(k, m[k]));
    }
}

/// A set of paths has only one sorted listing.
pub proof fn lemma_sorted_listing_unique(a: Seq<Seq<char>>, b: Seq<Seq<char>>, m: Map<Seq<char>, Seq<char>>)
    requires
        is_sorted_listing(a, m),
        is_sorted_listing(b, m),
    ensures
        a == b,
    decreases a.len(),
{
    if a.len() == 0 {
        if b.len() > 0 {
            assert(m.contains_key(b[0]));
            assert(a.contains(b[0]));
        }
        assert(a =~= b);
    } else {
        assert(m.contains_key(a[0]));
        assert(b.contains(a[0]));
        let q = choose|q: int| 0 <= q < b.len() && b[q] == a[0];
        assert(m.contains_key(b[0]));
        assert(a.contains(b[0]));
        let p = choose|p: int| 0 <= p < a.len() && a[p] == b[0];
        if q > 0 {
            assert(path_lt(b[0], b[q]));
            if p > 0 {
                assert(path_lt(a[0], a[p]));
                lemma_path_lt_order(a[0], b[0], b[0]);
            } else {
                lemma_path_lt_order(a[0], a[0], a[0]);
            }
        }
        assert(a[0] == b[0]);
        let m2 = m.remove(a[0]);
        let a2 = a.drop_first();
        let b2 = b.drop_first();
        assert forall|k: Seq<char>| m2.contains_key(k) implies a2.contains(k) by {
            assert(m.contains_key(k));
            assert(a.contains(k));
            let j = choose|j: int| 0 <= j < a.len() && a[j] == k;
            assert(j != 0);
            assert(a2[j - 1] == k);
        }
        assert forall|k: Seq<char>| m2.contains_key(k) implies b2.contains(k) by {
            assert(m.contains_key(k));
            assert(b.contains(k));
            let j = choose|j: int| 0 <= j < b.len() && b[j] == k;
            assert(j != 0);
            assert(b2[j - 1] == k);
        }
        assert forall|i: int| 0 <= i < a2.len() implies m2.contains_key(#[trigger] a2[i]) by {
            assert(a[i + 1] == a2[i]);
            assert(a[i + 1] != a[0]);
        }
        assert forall|i: int| 0 <= i < b2.len() implies m2.contains_key(#[trigger] b2[i]) by {
            assert(b[i + 1] == b2[i]);
            assert(b[i + 1] != b[0]);
        }
        assert forall|i: int, j: int| 0 <= i < j < a2.len() implies #[trigger] path_lt(a2[i], a2[j]) by {
            assert(path_lt(a[i + 1], a[j + 1]));
        }
        assert forall|i: int, j: int| 0 <= i < j < b2.len() implies #[trigger] path_lt(b2[i], b2[j]) by {
            assert(path_lt(b[i + 1], b[j + 1]));
        }
        lemma_sorted_listing_unique(a2, b2, m2);
        assert(a =~= b);
    }
}

/// The text of the checksum file listing `checksums`.
pub fn format_checksums(checksums: &ChecksumMap) -> (text: String)
    ensures
        text@ == checksum_file_text(checksums@),
{
    let keys = checksums.keys();
    let ghost m = checksums@;
    let ghost kv = string_views(keys@);
    let ghost kb = kv.map_values(|k: Seq<char>| encode_utf8(k));
    let mut kc: Vec<Vec<u8>> = Vec::new();
    let mut i: usize = 0;
    while i < keys.len()
        invariant
            i <= keys@.len(),
            kv == string_views(keys@),
            kb == kv.map_values(|k: Seq<char>| encode_utf8(k)),
            byte_vec_views(kc@) == kb.take(i as int),
        decreases keys@.len() - i,
    {
        let c = bytes_of(keys[i].as_str());
        let ghost old_kc = kc@;
        kc.push(c);
        proof {
            assert(kv[i as int] == keys@[i as int]@);
            assert(kc@ == old_kc.push(c));
            assert(byte_vec_views(kc@) =~= byte_vec_views(old_kc).push(c@));
            assert(byte_vec_views(kc@) =~= kb.take(i + 1));
        }
        i = i + 1;
    }
    proof {
        assert(kb.take(keys@.len() as int) =~= kb);
        assert(byte_vec_views(kc@) == kb);
        assert forall|a: int, b: int| 0 <= a < kb.len() && 0 <= b < kb.len() && a != b implies kb[a] != kb[b] by {
            assert(kv[a] != kv[b]);
            encode_utf8_decode_utf8(kv[a]);
            encode_utf8_decode_utf8(kv[b]);
        }
    }
    let order = sorted_order(&kc);
    let ghost ks = order@.map_values(|j: usize| kv[j as int]);
    let mut text = String::new();
    let mut p: usize = 0;
    proof {
        assert(render_entries(ks.take(0), m) =~= Seq::<char>::empty());
    }
    while p < order.len()
        invariant
            p <= order@.len(),
            in_range(order@, kv.len() as int),
            kv == string_views(keys@),
            kv.len() == keys@.len(),
            m == checksums@,
            lists_keys_of(kv, m),
            ks == order@.map_values(|j: usize| kv[j as int]),
            text@ == render_entries(ks.take(p as int), m),
        decreases order@.len() - p,
    {
        let idx = order[p];
        let k = &keys[idx];
        proof {
            assert(idx < kv.len());
            assert(kv[idx as int] == k@);
            assert(m.contains_key(kv[idx as int]));
        }
        let v = checksums.get(k.as_str()).unwrap();
        push_all(&mut text, k.as_str());
        push_char(&mut text, '\t');
        push_all(&mut text, v.as_str());
        push_char(&mut text, '\n');
        proof {
            assert(ks[p as int] == k@);
            assert(ks.take(p + 1) =~= ks.take(p as int).push(k@));
            lemma_render_push(ks.take(p as int), k@, m);
            assert(text@ =~= render_entries(ks.take(p as int), m) + checksum_line(k@, m[k@]));
        }
        p = p + 1;
    }
    proof {
        assert(ks.take(order@.len() as int) =~= ks);
        assert forall|a: int, b: int| 0 <= a < b < ks.len() implies #[trigger] path_lt(ks[a], ks[b]) by {
            assert(key_lt(kb, order@[a], order@[b]));
        }
        assert forall|a: int, b: int| 0 <= a < ks.len() && 0 <= b < ks.len() && a != b implies ks[a] != ks[b] by {
            if a < b {
                assert(path_lt(ks[a], ks[b]));
                lemma_path_lt_order(ks[a], ks[a], ks[a]);
            } else {
                assert(path_lt(ks[b], ks[a]));
                lemma_path_lt_order(ks[b], ks[b], ks[b]);
            }
        }
        assert forall|a: int| 0 <= a < ks.len() implies m.contains_key(#[trigger] ks[a]) by {
            assert(order@[a] < kv.len());
        }
        assert forall|k: Seq<char>| m.contains_key(k) implies ks.contains(k) by {
            assert(kv.contains(k));
            let j = choose|j: int| 0 <= j < kv.len() && kv[j] == k;
            let ju = j as usize;
            assert(ju as int == j);
            assert(kc@.len() == kv.len());
            assert(order@.contains(ju));
            let q = choose|q: int| 0 <= q < order@.len() && order@[q] == ju;
            assert(ks[q] == kv[j]);
        }
        assert(is_sorted_listing(ks, m));
        lemma_sorted_listing_unique(ks, sorted_paths(m), m);
    }
    text
}

// ---------------------------------------------------------------- laws

/// A path or a checksum that the file can hold: no tab, no newline.
pub open spec fn is_field(s: Seq<char>) -> bool {
    !s.contains('\t') && !s.contains('\n')
}

/// Every entry of `m` can be written and read back: its path and its
/// checksum are fields, and the checksum does not end with `\r`.
pub open spec fn is_writable(m: Map<Seq<char>, Seq<char>>) -> bool {
    &&& m.dom().finite()
    &&& forall|k: Seq<char>| #[trigger] m.contains_key(k) ==> is_field(k) && is_field(m[k]) && !(m[k].len() > 0 && m[k].last() == '\r')
}

/// Inserting `k` into a strictly increasing sequence at its place.
pub open spec fn insert_sorted(l: Seq<Seq<char>>, k: Seq<char>) -> Seq<Seq<char>>
    decreases l.len(),
{
    if l.len() == 0 {
        seq![k]
    } else if path_lt(k, l[0]) {
        seq![k] + l
    } else {
        seq![l[0]] + insert_sorted(l.drop_first(), k)
    }
}

proof fn lemma_insert_sorted(l: Seq<Seq<char>>, k: Seq<char>)
    requires
        forall|i: int, j: int| 0 <= i < j < l.len() ==> #[trigger] path_lt(l[i], l[j]),
        !l.contains(k),
    ensures
        forall|i: int, j: int| 0 <= i < j < insert_sorted(l, k).len() ==> #[trigger] path_lt(insert_sorted(l, k)[i], insert_sorted(l, k)[j]),
        forall|x: Seq<char>| insert_sorted(l, k).contains(x) <==> (l.contains(x) || x == k),
        insert_sorted(l, k).len() == l.len() + 1,
    decreases l.len(),
{
    let r = insert_sorted(l, k);
    if l.len() == 0 {
        assert forall|x: Seq<char>| r.contains(x) <==> (l.contains(x) || x == k) by {
            if r.contains(x) {
                assert(r[0] == x);
            }
            if x == k {
                assert(r[0] == x);
            }
        }
    } else if path_lt(k, l[0]) {
        assert forall|i: int, j: int| 0 <= i < j < r.len() implies #[trigger] path_lt(r[i], r[j]) by {
            if i == 0 {
                if j > 1 {
                    assert(path_lt(l[0], l[j - 1]));
                    lemma_path_lt_order(k, l[0], l[j - 1]);
                }
            } else {
                assert(path_lt(l[i - 1], l[j - 1]));
            }
        }
        assert forall|x: Seq<char>| r.contains(x) <==> (l.contains(x) || x == k) by {
            if r.contains(x) {
                let i = choose|i: int| 0 <= i < r.len() && r[i] == x;
                if i > 0 {
                    assert(l[i - 1] == x);
                }
            }
            if l.contains(x) {
                let i = choose|i: int| 0 <= i < l.len() && l[i] == x;
                assert(r[i + 1] == x);
            }
            if x == k {
                assert(r[0] == x);
            }
        }
    } else {
        let t = l.drop_first();
        assert forall|i: int, j: int| 0 <= i < j < t.len() implies #[trigger] path_lt(t[i], t[j]) by {
            assert(path_lt(l[i + 1], l[j + 1]));
        }
        assert(!t.contains(k)) by {
            if t.contains(k) {
                let i = choose|i: int| 0 <= i < t.len() && t[i] == k;
                assert(l[i + 1] == k);
            }
        }
        lemma_insert_sorted(t, k);
        let rt = insert_sorted(t, k);
        assert(l[0] != k) by {
            if l[0] == k {
                assert(l.contains(k));
            }
        }
        lemma_path_lt_order(k, l[0], l[0]);
        assert forall|i: int, j: int| 0 <= i < j < r.len() implies #[trigger] path_lt(r[i], r[j]) by {
            if i == 0 {
                assert(r[j] == rt[j - 1]);
                assert(rt.contains(rt[j - 1]));
                if rt[j - 1] != k {
                    assert(t.contains(rt[j - 1]));
                    let q = choose|q: int| 0 <= q < t.len() && t[q] == rt[j - 1];
                    assert(path_lt(l[0], l[q + 1]));
                }
            } else {
                assert(path_lt(rt[i - 1], rt[j - 1]));
            }
        }
        assert forall|x: Seq<char>| r.contains(x) <==> (l.contains(x) || x == k) by {
            if r.contains(x) {
                let i = choose|i: int| 0 <= i < r.len() && r[i] == x;
                if i > 0 {
                    assert(rt[i - 1] == x);
                    assert(rt.contains(x));
                    if t.contains(x) {
                        let q = choose|q: int| 0 <= q < t.len() && t[q] == x;
                        assert(l[q + 1] == x);
                    }
                }
            }
            if l.contains(x) {
                let i = choose|i: int| 0 <= i < l.len() && l[i] == x;
                if i == 0 {
                    assert(r[0] == x);
                } else {
                    assert(t[i - 1] == x);
                    assert(t.contains(x));
                    assert(rt.contains(x));
                    let q = choose|q: int| 0 <= q < rt.len() && rt[q] == x;
                    assert(r[q + 1] == x);
                }
            }
            if x == k {
                assert(rt.contains(x));
                let q = choose|q: int| 0 <= q < rt.len() && rt[q] == x;
                assert(r[q + 1] == x);
            }
        }
    }
}

/// Every finite map has a sorted listing of its paths.
pub proof fn lemma_sorted_listing_exists(m: Map<Seq<char>, Seq<char>>)
    requires
        m.dom().finite(),
    ensures
        is_sorted_listing(sorted_paths(m), m),
    decreases m.dom().len(),
{
    if m.dom().len() == 0 {
        let e = Seq::<Seq<char>>::empty();
        assert forall|k: Seq<char>| m.contains_key(k) implies e.contains(k) by {
            assert(m.dom().contains(k));
        }
        assert(is_sorted_listing(e, m));
    } else {
        let k = m.dom().choose();
        let m2 = m.remove(k);
        assert(m2.dom() =~= m.dom().remove(k));
        lemma_sorted_listing_exists(m2);
        let l = sorted_paths(m2);
        assert(!l.contains(k)) by {
            if l.contains(k) {
                let i = choose|i: int| 0 <= i < l.len() && l[i] == k;
                assert(m2.contains_key(l[i]));
            }
        }
        lemma_insert_sorted(l, k);
        let r = insert_sorted(l, k);
        assert forall|i: int, j: int| 0 <= i < r.len() && 0 <= j < r.len() && i != j implies r[i] != r[j] by {
            if i < j {
                assert(path_lt(r[i], r[j]));
                lemma_path_lt_order(r[i], r[i], r[i]);
            } else {
                assert(path_lt(r[j], r[i]));
                lemma_path_lt_order(r[j], r[j], r[j]);
            }
        }
        assert forall|i: int| 0 <= i < r.len() implies m.contains_key(#[trigger] r[i]) by {
            assert(r.contains(r[i]));
            if r[i] != k {
                assert(l.contains(r[i]));
                let q = choose|q: int| 0 <= q < l.len() && l[q] == r[i];
                assert(m2.contains_key(l[q]));
            }
        }
        assert forall|x: Seq<char>| m.contains_key(x) implies r.contains(x) by {
            if x != k {
                assert(m2.contains_key(x));
                assert(l.contains(x));
            }
            assert(r.contains(x));
        }
        assert(is_sorted_listing(r, m));
    }
}

/// The lines, without their newline, that the file of `keys` holds.
pub open spec fn entry_lines(keys: Seq<Seq<char>>, m: Map<Seq<char>, Seq<char>>) -> Seq<Seq<char>> {
    keys.map_values(|k: Seq<char>| k + seq!['\t'] + m[k])
}

proof fn lemma_split_rendered(keys: Seq<Seq<char>>, m: Map<Seq<char>, Seq<char>>)
    requires
        forall|i: int| 0 <= i < keys.len() ==> is_field(#[trigger] keys[i]) && is_field(m[keys[i]]),
    ensures
        split_on(render_entries(keys, m), '\n') == entry_lines(keys, m).push(Seq::<char>::empty()),
    decreases keys.len(),
{
    if keys.len() == 0 {
        assert(split_on(Seq::<char>::empty(), '\n') =~= seq![Seq::<char>::empty()]);
        assert(entry_lines(keys, m).push(Seq::<char>::empty()) =~= seq![Seq::<char>::empty()]);
    } else {
        let k = keys[0];
        let a = k + seq!['\t'] + m[k];
        let rest = keys.drop_first();
        assert forall|i: int| 0 <= i < rest.len() implies is_field(#[trigger] rest[i]) && is_field(m[rest[i]]) by {
            assert(rest[i] == keys[i + 1]);
        }
        lemma_split_rendered(rest, m);
        assert(is_field(k) && is_field(m[k]));
        assert(!a.contains('\n')) by {
            if a.contains('\n') {
                let j = choose|j: int| 0 <= j < a.len() && a[j] == '\n';
                if j < k.len() {
                    assert(k[j] == '\n');
                } else if j > k.len() {
                    assert(m[k][j - k.len() - 1] == '\n');
                }
            }
        }
        lemma_split_on_prefix(a, render_entries(rest, m), '\n');
        assert(render_entries(keys, m) =~= a + seq!['\n'] + render_entries(rest, m));
        assert(entry_lines(keys, m).push(Seq::<char>::empty()) =~= seq![a] + entry_lines(rest, m).push(Seq::<char>::empty()));
    }
}

proof fn lemma_split_entry(k: Seq<char>, v: Seq<char>)
    requires
        is_field(k),
        is_field(v),
    ensures
        split_on(k + seq!['\t'] + v, '\t') == seq![k, v],
{
    lemma_split_on_prefix(k, v, '\t');
    lemma_split_on_prefix(v, Seq::<char>::empty(), '\t');
    assert(v + Seq::<char>::empty() =~= v);
    assert(split_on(Seq::<char>::empty(), '\t') =~= seq![Seq::<char>::empty()]);
    assert(split_on(v, '\t') =~= seq![v]);
}

proof fn lemma_apply_entry_lines(keys: Seq<Seq<char>>, m: Map<Seq<char>, Seq<char>>, j: int)
    requires
        0 <= j <= keys.len(),
        forall|i: int| 0 <= i < keys.len() ==> is_field(#[trigger] keys[i]) && is_field(m[keys[i]]),
    ensures
        apply_lines(Map::empty(), entry_lines(keys.take(j), m)) == Map::new(
            |k: Seq<char>| keys.take(j).contains(k),
            |k: Seq<char>| m[k],
        ),
    decreases j,
{
    if j == 0 {
        assert(entry_lines(keys.take(0), m) =~= Seq::<Seq<char>>::empty());
        assert(Map::new(|k: Seq<char>| keys.take(0).contains(k), |k: Seq<char>| m[k]) =~= Map::<Seq<char>, Seq<char>>::empty());
    } else {
        lemma_apply_entry_lines(keys, m, j - 1);
        let k = keys[j - 1];
        assert(entry_lines(keys.take(j), m).drop_last() =~= entry_lines(keys.take(j - 1), m));
        assert(entry_lines(keys.take(j), m).last() == k + seq!['\t'] + m[k]);
        lemma_split_entry(k, m[k]);
        assert(keys.take(j) =~= keys.take(j - 1).push(k));
        assert(Map::new(|x: Seq<char>| keys.take(j).contains(x), |x: Seq<char>| m[x]) =~= Map::new(
            |x: Seq<char>| keys.take(j - 1).contains(x),
            |x: Seq<char>| m[x],
        ).insert(k, m[k]));
    }
}

/// The checksum file holds one line per path, in increasing order of path.
pub proof fn lemma_checksum_file_sorted(m: Map<Seq<char>, Seq<char>>)
    requires
        is_writable(m),
    ensures
        is_sorted_listing(sorted_paths(m), m),
        text_lines(checksum_file_text(m)) == entry_lines(sorted_paths(m), m),
{
    lemma_sorted_listing_exists(m);
    let ks = sorted_paths(m);
    assert forall|i: int| 0 <= i < ks.len() implies is_field(#[trigger] ks[i]) && is_field(m[ks[i]]) by {
        assert(m.contains_key(ks[i]));
    }
    lemma_split_rendered(ks, m);
    let parts = split_on(checksum_file_text(m), '\n');
    let lines = entry_lines(ks, m);
    assert(parts.take(parts.len() - 1) =~= lines);
    assert forall|i: int| 0 <= i < lines.len() implies strip_cr(#[trigger] lines[i]) == lines[i] by {
        let k = ks[i];
        assert(m.contains_key(k));
        let l = lines[i];
        if m[k].len() > 0 {
            assert(l.last() == m[k].last());
        } else {
            assert(l.last() == '\t');
        }
    }
    assert(lines.map_values(|l: Seq<char>| strip_cr(l)) =~= lines);
}

/// What a checksum file gives back is what was written to it, for every map
/// whose paths and checksums the format can hold.
pub proof fn lemma_checksum_file_roundtrip(m: Map<Seq<char>, Seq<char>>)
    requires
        is_writable(m),
    ensures
        parse_checksum_text(checksum_file_text(m)) == m,
{
    lemma_checksum_file_sorted(m);
    let ks = sorted_paths(m);
    assert forall|i: int| 0 <= i < ks.len() implies is_field(#[trigger] ks[i]) && is_field(m[ks[i]]) by {
        assert(m.contains_key(ks[i]));
    }
    lemma_apply_entry_lines(ks, m, ks.len() as int);
    assert(ks.take(ks.len() as int) =~= ks);
    assert(Map::new(|k: Seq<char>| ks.contains(k), |k: Seq<char>| m[k]) =~= m);
}

/// A record of a directory as the walk builds it: finitely many paths, none
/// holding a tab or a newline, each with a checksum written in hex.
pub open spec fn is_directory_record(m: Map<Seq<char>, Seq<char>>) -> bool {
    &&& m.dom().finite()
    &&& forall|k: Seq<char>| #[trigger] m.contains_key(k) ==> is_field(k) && is_hex_text(m[k])
}

/// Such a record can be written and read back.
pub proof fn lemma_directory_record_writable(m: Map<Seq<char>, Seq<char>>)
    requires
        is_directory_record(m),
    ensures
        is_writable(m),
{
    assert forall|k: Seq<char>| #[trigger] m.contains_key(k) implies is_field(k) && is_field(m[k])
        && !(m[k].len() > 0 && m[k].last() == '\r') by {
        let v = m[k];
        assert(!v.contains('\t')) by {
            if v.contains('\t') {
                let i = choose|i: int| 0 <= i < v.len() && v[i] == '\t';
                assert(is_hex_char(v[i]));
            }
        }
        assert(!v.contains('\n')) by {
            if v.contains('\n') {
                let i = choose|i: int| 0 <= i < v.len() && v[i] == '\n';
                assert(is_hex_char(v[i]));
            }
        }
        if v.len() > 0 {
            assert(is_hex_char(v[v.len() - 1]));
        }
    }
}

} // verus!
