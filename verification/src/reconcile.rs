//! Comparing the recorded checksums of an archive with those of the files
//! now present, and bringing the record up to date.
use vstd::prelude::*;
use crate::checksum_map::{ChecksumMap, lists_keys_of, string_views};
use crate::error::ArchiveError;
use crate::checksum_file::{
    checksum_file_text, format_checksums, is_directory_record, is_writable, lemma_checksum_file_roundtrip,
    lemma_directory_record_writable, parse_checksum_text,
};

verus! {

broadcast use vstd::seq_lib::group_seq_properties;

/// A difference between the recorded checksums and the directory.
#[derive(Debug)]
pub enum Discrepancy {
    /// A recorded file is absent from the directory.
    Missing { path: String },
    /// A file of the directory is not recorded.
    Unexpected { path: String, actual_sum: String },
    /// A recorded file now has another checksum.
    Mismatch { path: String, expected_sum: String, actual_sum: String },
}

/// Which kind of difference there is at `k`: 0 for a missing file, 1 for an
/// unexpected one, 2 for a changed one.
pub open spec fn difference_kind(e: Map<Seq<char>, Seq<char>>, a: Map<Seq<char>, Seq<char>>, k: Seq<char>) -> int {
    if e.contains_key(k) && !a.contains_key(k) {
        0
    } else if !e.contains_key(k) && a.contains_key(k) {
        1
    } else {
        2
    }
}

/// The two maps differ at `k`.
pub open spec fn differs_at(e: Map<Seq<char>, Seq<char>>, a: Map<Seq<char>, Seq<char>>, k: Seq<char>) -> bool {
    ||| e.contains_key(k) != a.contains_key(k)
    ||| (e.contains_key(k) && a.contains_key(k) && e[k] != a[k])
}

impl Discrepancy {
    /// The path the difference is about.
    pub open spec fn path_view(&self) -> Seq<char> {
        match self {
            Discrepancy::Missing { path } => path@,
            Discrepancy::Unexpected { path, .. } => path@,
            Discrepancy::Mismatch { path, .. } => path@,
        }
    }

    /// The kind of difference, as `difference_kind` numbers them.
    pub open spec fn kind(&self) -> int {
        match self {
            Discrepancy::Missing { .. } => 0,
            Discrepancy::Unexpected { .. } => 1,
            Discrepancy::Mismatch { .. } => 2,
        }
    }

    /// The difference between `e` (recorded) and `a` (present) at this path,
    /// told exactly.
    pub open spec fn describes(&self, e: Map<Seq<char>, Seq<char>>, a: Map<Seq<char>, Seq<char>>) -> bool {
        match self {
            Discrepancy::Missing { path } => e.contains_key(path@) && !a.contains_key(path@),
            Discrepancy::Unexpected { path, actual_sum } => {
                &&& !e.contains_key(path@)
                &&& a.contains_key(path@)
                &&& actual_sum@ == a[path@]
            },
            Discrepancy::Mismatch { path, expected_sum, actual_sum } => {
                &&& e.contains_key(path@)
                &&& a.contains_key(path@)
                &&& expected_sum@ == e[path@]
                &&& actual_sum@ == a[path@]
                &&& e[path@] != a[path@]
            },
        }
    }

    /// The path the difference is about.
    pub fn path(&self) -> (r: &String)
        ensures
            r@ == self.path_view(),
    {
        match self {
            Discrepancy::Missing { path } => path,
            Discrepancy::Unexpected { path, .. } => path,
            Discrepancy::Mismatch { path, .. } => path,
        }
    }
}

/// Some element of `ds` is about `k`.
pub open spec fn covers(ds: Seq<Discrepancy>, k: Seq<char>) -> bool {
    exists|i: int| 0 <= i < ds.len() && #[trigger] ds[i].path_view() == k
}

/// `ds` tells each difference between `e` and `a` once, exactly: first the
/// missing files, then the unexpected ones, then the changed ones.
pub open spec fn lists_discrepancies(ds: Seq<Discrepancy>, e: Map<Seq<char>, Seq<char>>, a: Map<Seq<char>, Seq<char>>) -> bool {
    &&& forall|i: int| 0 <= i < ds.len() ==> #[trigger] ds[i].describes(e, a)
    &&& forall|i: int, j: int| 0 <= i < j < ds.len() ==> #[trigger] ds[i].path_view() != #[trigger] ds[j].path_view()
    &&& forall|k: Seq<char>| differs_at(e, a, k) ==> covers(ds, k)
    &&& forall|i: int, j: int| 0 <= i < j < ds.len() ==> #[trigger] ds[i].kind() <= #[trigger] ds[j].kind()
}

/// `ds` tells, each once and exactly, the differences of kind `kind`.
pub open spec fn lists_kind(ds: Seq<Discrepancy>, e: Map<Seq<char>, Seq<char>>, a: Map<Seq<char>, Seq<char>>, kind: int) -> bool {
    &&& forall|i: int| 0 <= i < ds.len() ==> #[trigger] ds[i].describes(e, a) && ds[i].kind() == kind
    &&& forall|i: int, j: int| 0 <= i < j < ds.len() ==> #[trigger] ds[i].path_view() != #[trigger] ds[j].path_view()
    &&& forall|k: Seq<char>| differs_at(e, a, k) && difference_kind(e, a, k) == kind ==> covers(ds, k)
}

proof fn lemma_kind_of_description(d: Discrepancy, e: Map<Seq<char>, Seq<char>>, a: Map<Seq<char>, Seq<char>>)
    requires
        d.describes(e, a),
    ensures
        differs_at(e, a, d.path_view()),
        difference_kind(e, a, d.path_view()) == d.kind(),
{
}

/// The difference of kind `kind` at `key`, if there is one.
fn discrepancy_at(expected: &ChecksumMap, actual: &ChecksumMap, key: &String, kind: u8) -> (r: Option<Discrepancy>)
    requires
        kind <= 2,
        expected@.contains_key(key@) || actual@.contains_key(key@),
    ensures
        r is Some <==> differs_at(expected@, actual@, key@) && difference_kind(expected@, actual@, key@) == kind,
        r matches Some(d) ==> d.describes(expected@, actual@) && d.kind() == kind && d.path_view() == key@,
{
    let in_expected = expected.contains_key(key.as_str());
    let in_actual = actual.contains_key(key.as_str());
    if kind == 0 {
        if in_expected && !in_actual {
            Some(Discrepancy::Missing { path: key.clone() })
        } else {
            None
        }
    } else if kind == 1 {
        if !in_expected && in_actual {
            let v = actual.get(key.as_str()).unwrap();
            Some(Discrepancy::Unexpected { path: key.clone(), actual_sum: v.clone() })
        } else {
            None
        }
    } else if in_expected && in_actual {
        let ev = expected.get(key.as_str()).unwrap();
        let av = actual.get(key.as_str()).unwrap();
        if *ev != *av {
            Some(Discrepancy::Mismatch { path: key.clone(), expected_sum: ev.clone(), actual_sum: av.clone() })
        } else {
            None
        }
    } else {
        None
    }
}

/// One pass over the keys of one of the maps, keeping the differences of
/// kind `kind`.
fn collect_kind(expected: &ChecksumMap, actual: &ChecksumMap, kind: u8) -> (ds: Vec<Discrepancy>)
    requires
        kind <= 2,
    ensures
        lists_kind(ds@, expected@, actual@, kind as int),
{
    let ghost e = expected@;
    let ghost a = actual@;
    let walked = if kind == 1 { actual } else { expected };
    let ghost w = walked@;
    let keys = walked.keys();
    let ghost kv = string_views(keys@);
    let mut ds: Vec<Discrepancy> = Vec::new();
    let ghost mut src: Seq<int> = Seq::empty();
    let mut p: usize = 0;
    while p < keys.len()
        invariant
            kind <= 2,
            e == expected@,
            a == actual@,
            w == walked@,
            w == (if kind == 1 { a } else { e }),
            kv == string_views(keys@),
            lists_keys_of(kv, w),
            p <= keys@.len(),
            src.len() == ds@.len(),
            forall|i: int| 0 <= i < ds@.len() ==> #[trigger] ds@[i].describes(e, a),
            forall|i: int| 0 <= i < ds@.len() ==> #[trigger] ds@[i].kind() == kind,
            forall|i: int| 0 <= i < ds@.len() ==> 0 <= #[trigger] src[i] < p,
            forall|i: int| 0 <= i < ds@.len() ==> #[trigger] ds@[i].path_view() == kv[src[i]],
            forall|i: int, j: int| 0 <= i < j < ds@.len() ==> #[trigger] src[i] < #[trigger] src[j],
            forall|q: int| 0 <= q < p && differs_at(e, a, kv[q]) && difference_kind(e, a, kv[q]) == kind
                ==> covers(ds@, #[trigger] kv[q]),
        decreases keys@.len() - p,
    {
        let k = &keys[p];
        proof {
            assert(kv[p as int] == k@);
            assert(w.contains_key(k@));
        }
        let found = discrepancy_at(expected, actual, k, kind);
        let ghost old_ds = ds@;
        let ghost old_src = src;
        if let Some(d) = found {
            let ghost dg = d;
            ds.push(d);
            proof {
                src = src.push(p as int);
                assert forall|i: int| 0 <= i < ds@.len() implies #[trigger] ds@[i].describes(e, a) by {
                    if i < old_ds.len() {
                        assert(old_ds[i] == ds@[i]);
                    }
                }
                assert forall|i: int| 0 <= i < ds@.len() implies #[trigger] ds@[i].kind() == kind by {
                    if i < old_ds.len() {
                        assert(old_ds[i] == ds@[i]);
                    }
                }
                assert forall|i: int| 0 <= i < ds@.len() implies 0 <= #[trigger] src[i] < p + 1 by {
                    if i < old_ds.len() {
                        assert(src[i] == old_src[i]);
                    }
                }
                assert forall|i: int| 0 <= i < ds@.len() implies #[trigger] ds@[i].path_view() == kv[src[i]] by {
                    if i < old_ds.len() {
                        assert(old_ds[i] == ds@[i]);
                        assert(src[i] == old_src[i]);
                    }
                }
                assert forall|i: int, j: int| 0 <= i < j < ds@.len() implies #[trigger] src[i] < #[trigger] src[j] by {
                    if j < old_ds.len() {
                        assert(old_src[i] < old_src[j]);
                    } else {
                        assert(old_src[i] < p);
                    }
                }
                assert forall|q: int| 0 <= q < p + 1 && differs_at(e, a, kv[q]) && difference_kind(e, a, kv[q]) == kind
                    implies covers(ds@, #[trigger] kv[q]) by {
                    if q == p {
                        assert(ds@[ds@.len() - 1].path_view() == kv[q]);
                    } else {
                        assert(covers(old_ds, kv[q]));
                        let i = choose|i: int| 0 <= i < old_ds.len() && #[trigger] old_ds[i].path_view() == kv[q];
                        assert(ds@[i].path_view() == kv[q]);
                    }
                }
            }
        }
        p = p + 1;
    }
    proof {
        assert forall|i: int, j: int| 0 <= i < j < ds@.len() implies #[trigger] ds@[i].path_view() != #[trigger] ds@[j].path_view() by {
            assert(src[i] < src[j]);
            assert(ds@[i].path_view() == kv[src[i]]);
            assert(ds@[j].path_view() == kv[src[j]]);
        }
        assert forall|k: Seq<char>| differs_at(e, a, k) && difference_kind(e, a, k) == kind implies covers(ds@, k) by {
            assert(w.contains_key(k));
            assert(kv.contains(k));
            let q = choose|q: int| 0 <= q < kv.len() && kv[q] == k;
            assert(covers(ds@, kv[q]));
        }
    }
    ds
}

/// Lists the differences between the recorded checksums and those of the
/// files present.
pub fn find_discrepancies(expected: &ChecksumMap, actual: &ChecksumMap) -> (ds: Vec<Discrepancy>)
    ensures
        lists_discrepancies(ds@, expected@, actual@),
{
    let ghost e = expected@;
    let ghost a = actual@;
    let mut ds = collect_kind(expected, actual, 0);
    let mut unexpected = collect_kind(expected, actual, 1);
    let mut changed = collect_kind(expected, actual, 2);
    let ghost s0 = ds@;
    let ghost s1 = unexpected@;
    let ghost s2 = changed@;
    ds.append(&mut unexpected);
    ds.append(&mut changed);
    proof {
        let all = ds@;
        assert(all =~= s0 + s1 + s2);
        assert forall|i: int| 0 <= i < all.len() implies #[trigger] all[i].describes(e, a)
            && (i < s0.len() ==> all[i].kind() == 0)
            && (s0.len() <= i < s0.len() + s1.len() ==> all[i].kind() == 1)
            && (s0.len() + s1.len() <= i ==> all[i].kind() == 2) by {
            if i < s0.len() {
                assert(all[i] == s0[i]);
                assert(s0[i].describes(e, a));
            } else if i < s0.len() + s1.len() {
                assert(all[i] == s1[i - s0.len()]);
                assert(s1[i - s0.len()].describes(e, a));
            } else {
                assert(all[i] == s2[i - s0.len() - s1.len()]);
                assert(s2[i - s0.len() - s1.len()].describes(e, a));
            }
        }
        assert forall|i: int, j: int| 0 <= i < j < all.len() implies #[trigger] all[i].kind() <= #[trigger] all[j].kind() by {
            assert(all[i].describes(e, a));
            assert(all[j].describes(e, a));
        }
        assert forall|i: int, j: int| 0 <= i < j < all.len() implies #[trigger] all[i].path_view() != #[trigger] all[j].path_view() by {
            assert(all[i].describes(e, a));
            assert(all[j].describes(e, a));
            lemma_kind_of_description(all[i], e, a);
            lemma_kind_of_description(all[j], e, a);
            if all[i].kind() == all[j].kind() {
                if i < s0.len() && j < s0.len() {
                    assert(all[i] == s0[i] && all[j] == s0[j]);
                } else if s0.len() <= i && j < s0.len() + s1.len() {
                    assert(all[i] == s1[i - s0.len()] && all[j] == s1[j - s0.len()]);
                } else {
                    assert(all[i] == s2[i - s0.len() - s1.len()] && all[j] == s2[j - s0.len() - s1.len()]);
                }
            }
        }
        assert forall|k: Seq<char>| differs_at(e, a, k) implies covers(all, k) by {
            let kd = difference_kind(e, a, k);
            if kd == 0 {
                assert(covers(s0, k));
                let i = choose|i: int| 0 <= i < s0.len() && #[trigger] s0[i].path_view() == k;
                assert(all[i] == s0[i]);
            } else if kd == 1 {
                assert(covers(s1, k));
                let i = choose|i: int| 0 <= i < s1.len() && #[trigger] s1[i].path_view() == k;
                assert(all[i + s0.len()] == s1[i]);
            } else {
                assert(covers(s2, k));
                let i = choose|i: int| 0 <= i < s2.len() && #[trigger] s2[i].path_view() == k;
                assert(all[i + s0.len() + s1.len()] == s2[i]);
            }
        }
    }
    ds
}

/// The record after accepting `d`: a missing file is dropped from it, an
/// unexpected or changed file is recorded with its present checksum.
pub open spec fn resolve(m: Map<Seq<char>, Seq<char>>, d: Discrepancy) -> Map<Seq<char>, Seq<char>> {
    match d {
        Discrepancy::Missing { path } => m.remove(path@),
        Discrepancy::Unexpected { path, actual_sum } => m.insert(path@, actual_sum@),
        Discrepancy::Mismatch { path, actual_sum, .. } => m.insert(path@, actual_sum@),
    }
}

/// The record after accepting each of `ds`, in order.
pub open spec fn resolve_all(m: Map<Seq<char>, Seq<char>>, ds: Seq<Discrepancy>) -> Map<Seq<char>, Seq<char>>
    decreases ds.len(),
{
    if ds.len() == 0 {
        m
    } else {
        resolve(resolve_all(m, ds.drop_last()), ds.last())
    }
}

/// Brings the record `checksums` in line with the directory at the path of `d`.
pub fn accept(checksums: &mut ChecksumMap, d: &Discrepancy)
    ensures
        final(checksums)@ == resolve(old(checksums)@, *d),
{
    match d {
        Discrepancy::Missing { path } => checksums.remove(path),
        Discrepancy::Unexpected { path, actual_sum } => checksums.insert(path.clone(), actual_sum.clone()),
        Discrepancy::Mismatch { path, actual_sum, .. } => checksums.insert(path.clone(), actual_sum.clone()),
    }
}

/// An interactive review of the differences: the record as the accepted
/// changes leave it, and whether any change was accepted.
pub struct Review {
    pub updated: ChecksumMap,
    pub modified: bool,
}

impl Review {
    /// A review that starts from the recorded checksums.
    pub fn new(expected: ChecksumMap) -> (r: Review)
        ensures
            r.updated@ == expected@,
            !r.modified,
    {
        Review { updated: expected, modified: false }
    }

    /// The new text of the checksum file when some change was accepted;
    /// `None` when the file stays as it is.
    pub fn rewritten_file(&self) -> (r: Option<String>)
        ensures
            r is Some <==> self.modified,
            r matches Some(text) ==> text@ == checksum_file_text(self.updated@),
    {
        if self.modified {
            Some(format_checksums(&self.updated))
        } else {
            None
        }
    }

    /// Records the answer given for `d`: when it was accepted, the record
    /// takes the directory's side at that path.
    pub fn record(&mut self, d: &Discrepancy, accepted: bool)
        ensures
            final(self).updated@ == (if accepted { resolve(old(self).updated@, *d) } else { old(self).updated@ }),
            final(self).modified == (old(self).modified || accepted),
    {
        if accepted {
            accept(&mut self.updated, d);
            self.modified = true;
        }
    }
}

/// `err` is what a non-interactive check reports for a record `e` and a
/// directory `a`: a missing file if there is one, else an unexpected file
/// if there is one, else a file whose checksum changed, told exactly.
pub open spec fn is_conformity_error(e: Map<Seq<char>, Seq<char>>, a: Map<Seq<char>, Seq<char>>, err: ArchiveError) -> bool {
    match err {
        ArchiveError::MissingFile(p) => e.contains_key(p@) && !a.contains_key(p@),
        ArchiveError::UnexpectedFile(p) => {
            &&& !e.contains_key(p@)
            &&& a.contains_key(p@)
            &&& forall|k: Seq<char>| e.contains_key(k) ==> a.contains_key(k)
        },
        ArchiveError::ChecksumMismatch { file_name, expected_sum, actual_sum } => {
            &&& e.dom() == a.dom()
            &&& e.contains_key(file_name@)
            &&& expected_sum@ == e[file_name@]
            &&& actual_sum@ == a[file_name@]
            &&& expected_sum@ != actual_sum@
        },
        _ => false,
    }
}

/// Checks without asking anything that the directory matches its record:
/// the first difference found is the error, missing files first, then
/// unexpected ones, then changed ones.
pub fn check_conformity(expected: &ChecksumMap, actual: &ChecksumMap) -> (r: Result<(), ArchiveError>)
    ensures
        r is Ok <==> expected@ == actual@,
        r matches Err(err) ==> is_conformity_error(expected@, actual@, err),
{
    let ds = find_discrepancies(expected, actual);
    proof {
        lemma_listed_discrepancies_empty(ds@, expected@, actual@);
    }
    if ds.len() == 0 {
        return Ok(());
    }
    let ghost e = expected@;
    let ghost a = actual@;
    proof {
        assert(ds@[0].describes(e, a));
        assert forall|k: Seq<char>| #[trigger] differs_at(e, a, k) implies difference_kind(e, a, k) >= ds@[0].kind() by {
            assert(covers(ds@, k));
            let i = choose|i: int| 0 <= i < ds@.len() && #[trigger] ds@[i].path_view() == k;
            assert(ds@[i].describes(e, a));
            lemma_kind_of_description(ds@[i], e, a);
            if i > 0 {
                assert(ds@[0].kind() <= ds@[i].kind());
            }
        }
    }
    match &ds[0] {
        Discrepancy::Missing { path } => Err(ArchiveError::MissingFile(path.clone())),
        Discrepancy::Unexpected { path, .. } => {
            proof {
                assert forall|k: Seq<char>| e.contains_key(k) implies a.contains_key(k) by {
                    if !a.contains_key(k) {
                        assert(differs_at(e, a, k));
                    }
                }
            }
            Err(ArchiveError::UnexpectedFile(path.clone()))
        },
        Discrepancy::Mismatch { path, expected_sum, actual_sum } => {
            proof {
                assert forall|k: Seq<char>| e.dom().contains(k) <==> a.dom().contains(k) by {
                    if e.contains_key(k) != a.contains_key(k) {
                        assert(differs_at(e, a, k));
                    }
                }
                assert(e.dom() =~= a.dom());
            }
            Err(ArchiveError::ChecksumMismatch {
                file_name: path.clone(),
                expected_sum: expected_sum.clone(),
                actual_sum: actual_sum.clone(),
            })
        },
    }
}

// ---------------------------------------------------------------- laws

/// There is no difference to list exactly when the directory matches its record.
pub proof fn lemma_listed_discrepancies_empty(ds: Seq<Discrepancy>, e: Map<Seq<char>, Seq<char>>, a: Map<Seq<char>, Seq<char>>)
    requires
        lists_discrepancies(ds, e, a),
    ensures
        ds.len() == 0 <==> e == a,
{
    if ds.len() == 0 {
        assert forall|k: Seq<char>| e.contains_key(k) == a.contains_key(k) && (e.contains_key(k) ==> e[k] == a[k]) by {
            if differs_at(e, a, k) {
                assert(covers(ds, k));
            }
        }
        assert forall|k: Seq<char>| e.dom().contains(k) <==> a.dom().contains(k) by {
            if differs_at(e, a, k) {
                assert(covers(ds, k));
            }
        }
        assert(e.dom() =~= a.dom());
        assert forall|k: Seq<char>| e.dom().contains(k) implies e[k] == a[k] by {
            if differs_at(e, a, k) {
                assert(covers(ds, k));
            }
        }
        assert(e =~= a);
    } else {
        assert(ds[0].describes(e, a));
        lemma_kind_of_description(ds[0], e, a);
    }
}

/// The record after accepting some of the listed differences: at their
/// paths it says what the directory holds, elsewhere what it said before.
pub open spec fn reconciled_at(e: Map<Seq<char>, Seq<char>>, a: Map<Seq<char>, Seq<char>>, accepted: Seq<Discrepancy>) -> Map<Seq<char>, Seq<char>> {
    Map::new(
        |k: Seq<char>| if covers(accepted, k) { a.contains_key(k) } else { e.contains_key(k) },
        |k: Seq<char>| if covers(accepted, k) { a[k] } else { e[k] },
    )
}

/// Accepting differences between a record and its directory, each about
/// another path, puts the directory's side at exactly those paths.
pub proof fn lemma_accepting_some(e: Map<Seq<char>, Seq<char>>, a: Map<Seq<char>, Seq<char>>, accepted: Seq<Discrepancy>)
    requires
        forall|i: int| 0 <= i < accepted.len() ==> #[trigger] accepted[i].describes(e, a),
        forall|i: int, j: int| 0 <= i < j < accepted.len() ==> #[trigger] accepted[i].path_view() != #[trigger] accepted[j].path_view(),
    ensures
        resolve_all(e, accepted) == reconciled_at(e, a, accepted),
    decreases accepted.len(),
{
    if accepted.len() == 0 {
        assert(reconciled_at(e, a, accepted) =~= e);
    } else {
        let init = accepted.drop_last();
        let d = accepted.last();
        assert forall|i: int| 0 <= i < init.len() implies #[trigger] init[i].describes(e, a) by {
            assert(init[i] == accepted[i]);
        }
        assert forall|i: int, j: int| 0 <= i < j < init.len() implies #[trigger] init[i].path_view() != #[trigger] init[j].path_view() by {
            assert(init[i] == accepted[i]);
            assert(init[j] == accepted[j]);
        }
        lemma_accepting_some(e, a, init);
        assert(d.describes(e, a));
        let p = d.path_view();
        assert(!covers(init, p)) by {
            if covers(init, p) {
                let i = choose|i: int| 0 <= i < init.len() && #[trigger] init[i].path_view() == p;
                assert(accepted[i].path_view() == accepted[accepted.len() - 1].path_view());
            }
        }
        assert forall|k: Seq<char>| covers(accepted, k) <==> (covers(init, k) || k == p) by {
            if covers(accepted, k) {
                let i = choose|i: int| 0 <= i < accepted.len() && #[trigger] accepted[i].path_view() == k;
                if i < init.len() {
                    assert(init[i] == accepted[i]);
                }
            }
            if covers(init, k) {
                let i = choose|i: int| 0 <= i < init.len() && #[trigger] init[i].path_view() == k;
                assert(accepted[i] == init[i]);
            }
            if k == p {
                assert(accepted[accepted.len() - 1].path_view() == k);
            }
        }
        assert(resolve_all(e, accepted) =~= reconciled_at(e, a, accepted));
    }
}

/// Accepting every listed difference makes the record match the directory:
/// a verification run right after finds nothing.
pub proof fn lemma_accepting_all(ds: Seq<Discrepancy>, e: Map<Seq<char>, Seq<char>>, a: Map<Seq<char>, Seq<char>>)
    requires
        lists_discrepancies(ds, e, a),
    ensures
        resolve_all(e, ds) == a,
{
    lemma_accepting_some(e, a, ds);
    assert forall|k: Seq<char>| reconciled_at(e, a, ds).contains_key(k) == a.contains_key(k)
        && (a.contains_key(k) ==> reconciled_at(e, a, ds)[k] == a[k]) by {
        if !covers(ds, k) {
            assert(!differs_at(e, a, k));
        }
    }
    assert(reconciled_at(e, a, ds) =~= a);
}

/// Once every difference is accepted and the record rewritten, reading
/// the new checksum file back gives exactly the directory's checksums, so
/// the next check finds nothing.
pub proof fn lemma_rewritten_record_conforms(ds: Seq<Discrepancy>, e: Map<Seq<char>, Seq<char>>, a: Map<Seq<char>, Seq<char>>)
    requires
        lists_discrepancies(ds, e, a),
        is_writable(a),
    ensures
        parse_checksum_text(checksum_file_text(resolve_all(e, ds))) == a,
{
    lemma_accepting_all(ds, e, a);
    lemma_checksum_file_roundtrip(a);
}

/// After an interactive check of a directory whose paths hold no tab or
/// newline, in which every difference was accepted, the record left is the
/// directory's checksums, the rewritten checksum file reads back as them,
/// and a following check (with nothing changed) lists no difference: it is
/// `Ok` without asking.
pub proof fn lemma_accept_all_then_verify(
    ds: Seq<Discrepancy>,
    answers: Seq<bool>,
    e: Map<Seq<char>, Seq<char>>,
    a: Map<Seq<char>, Seq<char>>,
    next: Seq<Discrepancy>,
)
    requires
        lists_discrepancies(ds, e, a),
        answers.len() == ds.len(),
        forall|i: int| 0 <= i < answers.len() ==> #[trigger] answers[i],
        is_directory_record(a),
        lists_discrepancies(next, parse_checksum_text(checksum_file_text(review_outcome(e, ds, answers))), a),
    ensures
        review_outcome(e, ds, answers) == a,
        parse_checksum_text(checksum_file_text(review_outcome(e, ds, answers))) == a,
        next.len() == 0,
{
    lemma_directory_record_writable(a);
    lemma_review_run(e, a, ds, answers);
    let r = review_outcome(e, ds, answers);
    assert forall|k: Seq<char>| #[trigger] r.contains_key(k) == a.contains_key(k)
        && (r.contains_key(k) ==> r[k] == a[k]) by {
        if covers(ds, k) {
            let i = choose|i: int| 0 <= i < ds.len() && #[trigger] ds[i].path_view() == k;
            assert(answers[i]);
            assert(accepted_at(ds, answers, k));
        } else {
            assert(!differs_at(e, a, k));
            if accepted_at(ds, answers, k) {
                let j = choose|j: int| 0 <= j < ds.len() && answers[j] && #[trigger] ds[j].path_view() == k;
                assert(covers(ds, k));
            }
        }
    }
    assert(r =~= a);
    lemma_checksum_file_roundtrip(a);
    lemma_listed_discrepancies_empty(next, parse_checksum_text(checksum_file_text(r)), a);
}

// ---------------------------------------------------------------- whole review

/// The differences of `ds` whose answer in `answers` (one per difference)
/// was yes, in order.
pub open spec fn accepted_of(ds: Seq<Discrepancy>, answers: Seq<bool>) -> Seq<Discrepancy>
    decreases ds.len(),
{
    if ds.len() == 0 {
        Seq::empty()
    } else if answers.last() {
        accepted_of(ds.drop_last(), answers.drop_last()).push(ds.last())
    } else {
        accepted_of(ds.drop_last(), answers.drop_last())
    }
}

/// The record after a review of `ds` that gave `answers`: every accepted
/// difference resolved, in order.
pub open spec fn review_outcome(e: Map<Seq<char>, Seq<char>>, ds: Seq<Discrepancy>, answers: Seq<bool>) -> Map<Seq<char>, Seq<char>> {
    resolve_all(e, accepted_of(ds, answers))
}

/// Some difference of `ds` about `k` was accepted.
pub open spec fn accepted_at(ds: Seq<Discrepancy>, answers: Seq<bool>, k: Seq<char>) -> bool {
    exists|j: int| 0 <= j < ds.len() && answers[j] && #[trigger] ds[j].path_view() == k
}

/// Runs a whole review: the answer for `ds[i]` is `answers[i]`.
pub fn review_all(expected: ChecksumMap, ds: &Vec<Discrepancy>, answers: &Vec<bool>) -> (r: Review)
    requires
        answers@.len() == ds@.len(),
    ensures
        r.updated@ == review_outcome(expected@, ds@, answers@),
        r.modified == answers@.contains(true),
{
    let ghost e = expected@;
    let mut review = Review::new(expected);
    let mut i: usize = 0;
    proof {
        assert(ds@.take(0) =~= Seq::<Discrepancy>::empty());
        assert(answers@.take(0) =~= Seq::<bool>::empty());
    }
    while i < ds.len()
        invariant
            answers@.len() == ds@.len(),
            i <= ds@.len(),
            review.updated@ == resolve_all(e, accepted_of(ds@.take(i as int), answers@.take(i as int))),
            review.modified == answers@.take(i as int).contains(true),
        decreases ds@.len() - i,
    {
        let ghost prev = accepted_of(ds@.take(i as int), answers@.take(i as int));
        review.record(&ds[i], answers[i]);
        proof {
            let dt = ds@.take(i + 1);
            let at = answers@.take(i + 1);
            assert(dt.drop_last() =~= ds@.take(i as int));
            assert(at.drop_last() =~= answers@.take(i as int));
            assert(dt.last() == ds@[i as int]);
            assert(at.last() == answers@[i as int]);
            if answers@[i as int] {
                assert(prev.push(ds@[i as int]).drop_last() =~= prev);
                assert(at[i as int] == true);
            } else {
                assert forall|j: int| 0 <= j < at.len() && at[j] == true implies j < i by {}
                if at.contains(true) {
                    let j = choose|j: int| 0 <= j < at.len() && at[j] == true;
                    assert(answers@.take(i as int)[j] == true);
                }
            }
            if answers@.take(i as int).contains(true) {
                let j = choose|j: int| 0 <= j < i && answers@.take(i as int)[j] == true;
                assert(at[j] == true);
            }
        }
        i = i + 1;
    }
    proof {
        assert(ds@.take(ds@.len() as int) =~= ds@);
        assert(answers@.take(ds@.len() as int) =~= answers@);
    }
    review
}

proof fn lemma_accepted_of(ds: Seq<Discrepancy>, answers: Seq<bool>, e: Map<Seq<char>, Seq<char>>, a: Map<Seq<char>, Seq<char>>)
    requires
        answers.len() == ds.len(),
        forall|i: int| 0 <= i < ds.len() ==> #[trigger] ds[i].describes(e, a),
        forall|i: int, j: int| 0 <= i < j < ds.len() ==> #[trigger] ds[i].path_view() != #[trigger] ds[j].path_view(),
    ensures
        forall|i: int| 0 <= i < accepted_of(ds, answers).len() ==> #[trigger] accepted_of(ds, answers)[i].describes(e, a),
        forall|i: int, j: int| 0 <= i < j < accepted_of(ds, answers).len()
            ==> #[trigger] accepted_of(ds, answers)[i].path_view() != #[trigger] accepted_of(ds, answers)[j].path_view(),
        forall|k: Seq<char>| covers(accepted_of(ds, answers), k) <==> accepted_at(ds, answers, k),
    decreases ds.len(),
{
    if ds.len() > 0 {
        let di = ds.drop_last();
        let ai = answers.drop_last();
        assert forall|i: int| 0 <= i < di.len() implies #[trigger] di[i].describes(e, a) by {
            assert(di[i] == ds[i]);
        }
        assert forall|i: int, j: int| 0 <= i < j < di.len() implies #[trigger] di[i].path_view() != #[trigger] di[j].path_view() by {
            assert(di[i] == ds[i]);
            assert(di[j] == ds[j]);
        }
        lemma_accepted_of(di, ai, e, a);
        let prev = accepted_of(di, ai);
        let n = ds.len() - 1;
        let d = ds[n];
        assert(d == ds.last());
        assert forall|k: Seq<char>| accepted_at(ds, answers, k) <==> (accepted_at(di, ai, k) || (answers[n] && d.path_view() == k)) by {
            if accepted_at(ds, answers, k) {
                let j = choose|j: int| 0 <= j < ds.len() && answers[j] && #[trigger] ds[j].path_view() == k;
                if j < n {
                    assert(di[j] == ds[j] && ai[j] == answers[j]);
                }
            }
            if accepted_at(di, ai, k) {
                let j = choose|j: int| 0 <= j < di.len() && ai[j] && #[trigger] di[j].path_view() == k;
                assert(di[j] == ds[j] && ai[j] == answers[j]);
            }
            if answers[n] && d.path_view() == k {
                assert(ds[n].path_view() == k);
            }
        }
        if answers.last() {
            let acc = prev.push(d);
            assert(accepted_of(ds, answers) == acc);
            assert forall|k: Seq<char>| accepted_at(di, ai, k) implies k != d.path_view() by {
                let j = choose|j: int| 0 <= j < di.len() && ai[j] && #[trigger] di[j].path_view() == k;
                assert(di[j] == ds[j]);
            }
            assert forall|i: int| 0 <= i < acc.len() implies #[trigger] acc[i].describes(e, a) by {
                if i < prev.len() {
                    assert(acc[i] == prev[i]);
                }
            }
            assert forall|i: int, j: int| 0 <= i < j < acc.len() implies #[trigger] acc[i].path_view() != #[trigger] acc[j].path_view() by {
                assert(acc[i] == prev[i]);
                if j < prev.len() {
                    assert(acc[j] == prev[j]);
                } else {
                    assert(covers(prev, prev[i].path_view()));
                    assert(accepted_at(di, ai, prev[i].path_view()));
                }
            }
            assert forall|k: Seq<char>| covers(acc, k) <==> accepted_at(ds, answers, k) by {
                if covers(acc, k) {
                    let i = choose|i: int| 0 <= i < acc.len() && #[trigger] acc[i].path_view() == k;
                    if i < prev.len() {
                        assert(acc[i] == prev[i]);
                        assert(covers(prev, k));
                    }
                }
                if covers(prev, k) {
                    let i = choose|i: int| 0 <= i < prev.len() && #[trigger] prev[i].path_view() == k;
                    assert(acc[i] == prev[i]);
                }
                if k == d.path_view() {
                    assert(acc[acc.len() - 1].path_view() == k);
                }
            }
        } else {
            assert(accepted_of(ds, answers) == prev);
        }
    }
}

/// A whole interactive review: the record it leaves holds, at each path
/// whose difference was accepted, what the directory holds, and elsewhere
/// what it held before; when any answer was yes the checksum file is
/// rewritten, and when that record can be written, reading the new file
/// back gives it exactly.
pub proof fn lemma_review_run(
    e: Map<Seq<char>, Seq<char>>,
    a: Map<Seq<char>, Seq<char>>,
    ds: Seq<Discrepancy>,
    answers: Seq<bool>,
)
    requires
        lists_discrepancies(ds, e, a),
        answers.len() == ds.len(),
    ensures
        forall|k: Seq<char>| #[trigger] review_outcome(e, ds, answers).contains_key(k)
            == (if accepted_at(ds, answers, k) { a.contains_key(k) } else { e.contains_key(k) }),
        forall|k: Seq<char>| #[trigger] review_outcome(e, ds, answers).contains_key(k)
            ==> review_outcome(e, ds, answers)[k] == (if accepted_at(ds, answers, k) { a[k] } else { e[k] }),
        is_writable(review_outcome(e, ds, answers))
            ==> parse_checksum_text(checksum_file_text(review_outcome(e, ds, answers))) == review_outcome(e, ds, answers),
{
    lemma_accepted_of(ds, answers, e, a);
    let acc = accepted_of(ds, answers);
    lemma_accepting_some(e, a, acc);
    if is_writable(review_outcome(e, ds, answers)) {
        lemma_checksum_file_roundtrip(review_outcome(e, ds, answers));
    }
}

} // verus!
