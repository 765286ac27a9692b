//! The archive operations' own decisions: preparing a directory, naming
//! its files in the record, and checking a copy.
use vstd::prelude::*;
use crate::checksum_file::{
    checksum_file_text, format_checksums, is_directory_record, is_writable, lemma_checksum_file_roundtrip,
    entry_lines, is_sorted_listing, lemma_checksum_file_sorted, lemma_directory_record_writable,
    parse_checksum_text, parse_checksums, sorted_paths, text_lines,
};
use crate::checksum_map::ChecksumMap;
use crate::error::ArchiveError;
use crate::reconcile::{check_conformity, is_conformity_error, lemma_listed_discrepancies_empty, lists_discrepancies, Discrepancy};
use crate::text::{chars_of, push_all, push_char, string_from_chars};

verus! {

/// What preparing a directory came to.
#[derive(Debug)]
pub enum Prepared {
    /// A checksum file was there already, and the directory matches it.
    Verified,
    /// There was no checksum file; this is the text to write as one.
    Generated { text: String },
}

/// Prepares a directory whose files have the checksums `actual`:
/// `existing` is the text of its checksum file, if it has one. Without one,
/// the text of a new file is returned; with one, the directory is checked
/// against it.
pub fn prepare(existing: Option<&str>, actual: &ChecksumMap) -> (r: Result<Prepared, ArchiveError>)
    ensures
        existing is None ==> (r matches Ok(Prepared::Generated { text }) && text@ == checksum_file_text(actual@)),
        existing matches Some(t) ==> {
            &&& (r is Ok <==> parse_checksum_text(t@) == actual@)
            &&& (r is Ok ==> r matches Ok(Prepared::Verified))
            &&& (r matches Err(err) ==> is_conformity_error(parse_checksum_text(t@), actual@, err))
        },
{
    match existing {
        Some(text) => {
            let expected = parse_checksums(text);
            match check_conformity(&expected, actual) {
                Ok(()) => Ok(Prepared::Verified),
                Err(err) => Err(err),
            }
        },
        None => Ok(Prepared::Generated { text: format_checksums(actual) }),
    }
}

/// Preparing a directory a second time, with the file the first time
/// wrote, finds it matching: the text generated for `actual` reads back as
/// `actual`, which is when `prepare` answers `Verified`.
pub proof fn lemma_prepare_twice(actual: Map<Seq<char>, Seq<char>>)
    requires
        is_writable(actual),
    ensures
        parse_checksum_text(checksum_file_text(actual)) == actual,
{
    lemma_checksum_file_roundtrip(actual);
}

/// Preparing a directory and then verifying it, with nothing changed in
/// between, finds it matching: for a record whose paths hold no tab or
/// newline, the file written reads back as the directory's checksums, so
/// the check is `Ok` and no difference is listed, nothing is asked.
pub proof fn lemma_prepare_then_verify(actual: Map<Seq<char>, Seq<char>>, ds: Seq<Discrepancy>)
    requires
        is_directory_record(actual),
        lists_discrepancies(ds, parse_checksum_text(checksum_file_text(actual)), actual),
    ensures
        parse_checksum_text(checksum_file_text(actual)) == actual,
        ds.len() == 0,
        is_sorted_listing(sorted_paths(actual), actual),
        text_lines(checksum_file_text(actual)) == entry_lines(sorted_paths(actual), actual),
{
    lemma_directory_record_writable(actual);
    lemma_checksum_file_sorted(actual);
    lemma_checksum_file_roundtrip(actual);
    lemma_listed_discrepancies_empty(ds, parse_checksum_text(checksum_file_text(actual)), actual);
}

/// The key of a file in the record: its path relative to the archived
/// directory, behind `./`.
pub open spec fn key_of(relative: Seq<char>) -> Seq<char> {
    seq!['.', '/'] + relative
}

/// `s` without its leading `./` prefixes, as `str::trim_start_matches("./")`
/// removes them: as many times as they repeat.
pub open spec fn trim_dot_slash(s: Seq<char>) -> Seq<char>
    decreases s.len(),
{
    if s.len() >= 2 && s[0] == '.' && s[1] == '/' {
        trim_dot_slash(s.skip(2))
    } else {
        s
    }
}

/// The key under which the file at `relative` is recorded.
pub fn archive_key(relative: &str) -> (r: String)
    ensures
        r@ == key_of(relative@),
        r@.len() == relative@.len() + 2,
        r@[0] == '.',
        r@[1] == '/',
        r@.skip(2) == relative@,
{
    let mut r = String::new();
    push_char(&mut r, '.');
    push_char(&mut r, '/');
    push_all(&mut r, relative);
    assert(r@ =~= key_of(relative@));
    proof {
        lemma_key_shape(relative@);
    }
    r
}

/// A key is `./` followed by the relative path, once.
pub proof fn lemma_key_shape(relative: Seq<char>)
    ensures
        key_of(relative).len() == relative.len() + 2,
        key_of(relative)[0] == '.',
        key_of(relative)[1] == '/',
        key_of(relative).skip(2) == relative,
{
    assert(key_of(relative).skip(2) =~= relative);
}

/// Trimming removes whole `./` prefixes from the front and nothing else,
/// and leaves no `./` at the front: `s` is `n` copies of `./` followed by
/// the result.
pub proof fn lemma_trim_dot_slash(s: Seq<char>) -> (n: int)
    ensures
        n >= 0,
        s.len() == trim_dot_slash(s).len() + 2 * n,
        s.skip(2 * n) == trim_dot_slash(s),
        forall|k: int| 0 <= k < n ==> #[trigger] s[2 * k] == '.' && s[2 * k + 1] == '/',
        !(trim_dot_slash(s).len() >= 2 && trim_dot_slash(s)[0] == '.' && trim_dot_slash(s)[1] == '/'),
    decreases s.len(),
{
    if s.len() >= 2 && s[0] == '.' && s[1] == '/' {
        let t = s.skip(2);
        let m = lemma_trim_dot_slash(t);
        assert(s.skip(2 * (m + 1)) =~= t.skip(2 * m));
        assert forall|k: int| 0 <= k < m + 1 implies #[trigger] s[2 * k] == '.' && s[2 * k + 1] == '/' by {
            if k > 0 {
                assert(s[2 * k] == t[2 * (k - 1)]);
                assert(s[2 * k + 1] == t[2 * (k - 1) + 1]);
            }
        }
        m + 1
    } else {
        assert(s.skip(0) =~= s);
        0
    }
}

/// The path, relative to the archived directory, of the file recorded
/// under `key`.
pub fn key_relative_path(key: &str) -> (r: String)
    ensures
        r@ == trim_dot_slash(key@),
{
    let cs = chars_of(key);
    let mut i: usize = 0;
    assert(key@.skip(0) =~= key@);
    while i < cs.len() && cs.len() - i >= 2 && cs[i] == '.' && cs[i + 1] == '/'
        invariant
            i <= cs@.len(),
            cs@ == key@,
            trim_dot_slash(key@) == trim_dot_slash(key@.skip(i as int)),
        decreases cs@.len() - i,
    {
        proof {
            let t = key@.skip(i as int);
            assert(t[0] == cs@[i as int] && t[1] == cs@[i + 1]);
            assert(t.skip(2) =~= key@.skip(i + 2));
        }
        i = i + 2;
    }
    let rest = vstd::slice::slice_subrange(cs.as_slice(), i, cs.len());
    proof {
        let t = key@.skip(i as int);
        assert(rest@ =~= t);
        if t.len() >= 2 {
            assert(t[0] == cs@[i as int] && t[1] == cs@[i + 1]);
        }
    }
    string_from_chars(rest)
}

/// A key made by `archive_key` gives back the relative path it was made
/// from, when that path does not itself start with `./`.
pub proof fn lemma_key_roundtrip(relative: Seq<char>)
    requires
        !(relative.len() >= 2 && relative[0] == '.' && relative[1] == '/'),
    ensures
        trim_dot_slash(key_of(relative)) == relative,
{
    let k = key_of(relative);
    assert(k[0] == '.' && k[1] == '/');
    assert(k.skip(2) =~= relative);
    assert(trim_dot_slash(relative) == relative);
}

/// Where the files of a copy go.
#[derive(Debug)]
pub enum CopyTarget {
    /// The destination exists and is not a directory: the copy is refused.
    NotADirectory,
    /// The destination is a directory that holds something, but the source
    /// has no name to give the copy inside it.
    UnknownSourceName,
    /// Into a directory of this name inside the destination, which already
    /// holds something.
    Into { name: String },
    /// Into the destination itself: it does not exist yet, or it is an
    /// empty directory.
    Direct,
}

/// Decides where a copy goes, given what the destination is and the name
/// of the source directory: into the destination itself unless it is a
/// directory that already holds something, in which case into a directory
/// named after the source inside it.
pub fn copy_target(
    destination_exists: bool,
    destination_is_dir: bool,
    destination_is_empty: bool,
    source_name: Option<String>,
) -> (r: CopyTarget)
    ensures
        destination_exists && !destination_is_dir ==> r is NotADirectory,
        destination_exists && destination_is_dir && destination_is_empty ==> r is Direct,
        destination_exists && destination_is_dir && !destination_is_empty && source_name is None ==> r is UnknownSourceName,
        destination_exists && destination_is_dir && !destination_is_empty ==> (source_name matches Some(n) ==> (r matches CopyTarget::Into { name } && name@ == n@)),
        !destination_exists ==> r is Direct,
{
    if destination_exists {
        if !destination_is_dir {
            CopyTarget::NotADirectory
        } else if destination_is_empty {
            CopyTarget::Direct
        } else {
            match source_name {
                Some(name) => CopyTarget::Into { name },
                None => CopyTarget::UnknownSourceName,
            }
        }
    } else {
        CopyTarget::Direct
    }
}

/// Checks a copied file against its record: an error naming the copy and
/// both checksums when they differ.
pub fn check_copied_file(file_name: String, expected_sum: String, actual_sum: String) -> (r: Result<(), ArchiveError>)
    ensures
        r is Ok <==> expected_sum@ == actual_sum@,
        r matches Err(err) ==> (err matches ArchiveError::ChecksumMismatch { file_name: f, expected_sum: es, actual_sum: acs }
            && f@ == file_name@ && es@ == expected_sum@ && acs@ == actual_sum@),
{
    if expected_sum == actual_sum {
        Ok(())
    } else {
        Err(ArchiveError::ChecksumMismatch { file_name, expected_sum, actual_sum })
    }
}

} // verus!
