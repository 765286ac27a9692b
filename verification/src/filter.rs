//! Which paths of a directory tree are archived: hidden paths and paths
//! that an exclusion pattern matches are left out.
use vstd::prelude::*;
use crate::checksum_file::CHECKSUM_FILE;
use crate::text::{chars_of, char_vec_views, string_from_chars, lemma_split_on_concat, lemma_split_on_joined, lemma_split_on_nonempty, lemma_split_on_piece_start, lemma_split_on_single, split_chars, split_on};

verus! {

/// `glob::Pattern`, carried as an opaque value.
#[verifier::external_type_specification]
#[verifier::external_body]
pub struct ExGlobPattern(glob::Pattern);

/// Whether `glob::Pattern::new` accepts `pattern`.
pub uninterp spec fn glob_compiles(pattern: Seq<char>) -> bool;

/// Whether the pattern compiled from `pattern` matches `path`, with the
/// default match options of `glob::Pattern::matches_path`.
pub uninterp spec fn glob_matches(pattern: Seq<char>, path: Seq<char>) -> bool;

/// A compiled exclusion pattern, with the text it was compiled from.
pub struct ExcludePattern {
    source: String,
    compiled: glob::Pattern,
}

impl View for ExcludePattern {
    type V = Seq<char>;

    closed spec fn view(&self) -> Seq<char> {
        self.source@
    }
}

/// Calls `glob::Pattern::new`: `Some` exactly when the crate accepts the
/// pattern, and then the compiled pattern with its source text. The rules
/// of the pattern language are not stated; `glob_compiles` names them.
/// `compile_pattern` is the only place that builds an `ExcludePattern`, so
/// its `compiled` field is always the compilation of its `source`.
#[verifier::external_body]
fn compile_pattern(source: &String) -> (r: Option<ExcludePattern>)
    ensures
        r is Some <==> glob_compiles(source@),
        r matches Some(p) ==> p@ == source@,
{
    match glob::Pattern::new(source) {
        Ok(compiled) => Some(ExcludePattern { source: source.clone(), compiled }),
        Err(_) => None,
    }
}

/// Calls `glob::Pattern::matches_path` on `path`. What the result is, is
/// named by `glob_matches` over the pattern's source text and the path,
/// and not stated further.
#[verifier::external_body]
fn pattern_matches(pattern: &ExcludePattern, path: &str) -> (r: bool)
    ensures
        r == glob_matches(pattern@, path@),
{
    pattern.compiled.matches_path(std::path::Path::new(path))
}

/// Some pattern of `patterns` compiles and matches `path`.
pub open spec fn excluded_by(patterns: Seq<Seq<char>>, path: Seq<char>) -> bool {
    exists|i: int| 0 <= i < patterns.len() && glob_compiles(#[trigger] patterns[i]) && glob_matches(patterns[i], path)
}

/// The `i`th `/`-separated piece of a path is one of its components, as
/// `Path::components` gives them on Unix: empty pieces are not, and a
/// `.` is one only at the start of a relative path.
pub open spec fn is_component(parts: Seq<Seq<char>>, i: int) -> bool {
    parts[i].len() > 0 && (parts[i] != seq!['.'] || i == 0)
}

/// Some component of `path` starts with a dot (`.git`, `..`, `.checksums`).
pub open spec fn has_hidden_component(path: Seq<char>) -> bool {
    let parts = split_on(path, '/');
    exists|i: int| 0 <= i < parts.len() && #[trigger] is_component(parts, i) && parts[i][0] == '.'
}

/// A dot at index `j` of `path` starts a hidden component: it is at the
/// start of the path, or right after a `/` and followed by a character
/// other than `/` (a lone `.` inside a path is no component).
pub open spec fn dot_component_at(path: Seq<char>, j: int) -> bool {
    &&& 0 <= j < path.len()
    &&& path[j] == '.'
    &&& (j == 0 || (path[j - 1] == '/' && j + 1 < path.len() && path[j + 1] != '/'))
}

/// A path is hidden exactly when a dot starts one of its components: a
/// path in which no component starts with a dot is never hidden, whatever
/// else its names start with.
pub proof fn lemma_hidden_iff_dot_component(path: Seq<char>)
    ensures
        has_hidden_component(path) <==> exists|j: int| #[trigger] dot_component_at(path, j),
{
    let parts = split_on(path, '/');
    lemma_split_on_nonempty(path, '/');
    if has_hidden_component(path) {
        let i = choose|i: int| 0 <= i < parts.len() && #[trigger] is_component(parts, i) && parts[i][0] == '.';
        let j = lemma_split_on_piece_start(path, '/', i);
        let piece = parts[i];
        assert(path[j] == path.subrange(j, j + piece.len())[0]);
        if i > 0 {
            lemma_split_on_joined(path, '/');
            assert(!piece.contains('/'));
            if piece.len() == 1 {
                assert(piece =~= seq!['.']);
            }
            assert(path[j + 1] == path.subrange(j, j + piece.len())[1]);
            assert(piece[1] != '/');
        }
        assert(dot_component_at(path, j));
    }
    if exists|j: int| #[trigger] dot_component_at(path, j) {
        let j = choose|j: int| #[trigger] dot_component_at(path, j);
        if j == 0 {
            let j0 = lemma_split_on_piece_start(path, '/', 0);
            let piece = parts[0];
            assert(piece.len() > 0);
            assert(piece[0] == path.subrange(0, piece.len() as int)[0]);
            assert(is_component(parts, 0) && parts[0][0] == '.');
            assert(has_hidden_component(path));
        } else {
            let x = path.take(j - 1);
            let y = path.skip(j);
            assert(path =~= x + seq!['/'] + y);
            lemma_split_on_concat(x, y, '/');
            lemma_split_on_nonempty(x, '/');
            lemma_split_on_nonempty(y, '/');
            let n = split_on(x, '/').len() as int;
            assert(parts[n] == split_on(y, '/')[0]);
            let j0 = lemma_split_on_piece_start(y, '/', 0);
            let piece = split_on(y, '/')[0];
            assert(y[0] == '.');
            assert(y[1] != '/');
            assert(piece.len() > 1);
            assert(piece[0] == y.subrange(0, piece.len() as int)[0]);
            assert(piece != seq!['.']);
            assert(is_component(parts, n) && parts[n][0] == '.');
            assert(has_hidden_component(path));
        }
    }
}

/// Whether `path` has a component that starts with a dot.
pub fn is_hidden(path: &str) -> (r: bool)
    ensures
        r == has_hidden_component(path@),
{
    let cs = chars_of(path);
    let parts = split_chars(cs.as_slice(), '/');
    let ghost pv = split_on(path@, '/');
    let mut i: usize = 0;
    while i < parts.len()
        invariant
            i <= parts@.len(),
            char_vec_views(parts@) == pv,
            pv == split_on(path@, '/'),
            forall|j: int| 0 <= j < i ==> !(#[trigger] is_component(pv, j) && pv[j][0] == '.'),
        decreases parts@.len() - i,
    {
        let part = &parts[i];
        proof {
            assert(pv[i as int] == part@);
        }
        let is_dot = part.len() == 1 && part[0] == '.';
        proof {
            if part@.len() == 1 && part@[0] == '.' {
                assert(part@ =~= seq!['.']);
            }
            if is_dot {
                assert(part@ =~= seq!['.']);
            } else {
                assert(part@ != seq!['.']) by {
                    if part@ == seq!['.'] {
                        assert(part@.len() == 1 && part@[0] == '.');
                    }
                }
            }
        }
        if part.len() > 0 && (!is_dot || i == 0) && part[0] == '.' {
            proof {
                assert(pv == split_on(path@, '/'));
                assert(is_component(pv, i as int) && pv[i as int][0] == '.');
            }
            return true;
        }
        i = i + 1;
    }
    false
}

/// Whether some exclusion pattern (among those that compile) matches `path`.
pub fn is_excluded(path: &str, exclude: &[String]) -> (r: bool)
    ensures
        r == excluded_by(exclude@.map_values(|p: String| p@), path@),
{
    let ghost pats = exclude@.map_values(|p: String| p@);
    let mut i: usize = 0;
    let mut matched = false;
    while i < exclude.len()
        invariant
            i <= exclude@.len(),
            pats == exclude@.map_values(|p: String| p@),
            matched == exists|j: int| 0 <= j < i && glob_compiles(#[trigger] pats[j]) && glob_matches(pats[j], path@),
        decreases exclude@.len() - i,
    {
        proof {
            assert(pats[i as int] == exclude@[i as int]@);
        }
        if !matched {
            match compile_pattern(&exclude[i]) {
                Some(p) => {
                    if pattern_matches(&p, path) {
                        matched = true;
                    }
                },
                None => {},
            }
        }
        proof {
            if matched {
                if !(exists|j: int| 0 <= j < i && glob_compiles(#[trigger] pats[j]) && glob_matches(pats[j], path@)) {
                    assert(glob_compiles(pats[i as int]) && glob_matches(pats[i as int], path@));
                }
            } else {
                assert forall|j: int| 0 <= j < i + 1 implies !(glob_compiles(#[trigger] pats[j]) && glob_matches(pats[j], path@)) by {
                }
            }
        }
        i = i + 1;
    }
    matched
}

/// Whether the walk keeps `path`: no exclusion pattern (among those that
/// compile) matches it and none of its components is hidden.
pub fn should_include(path: &str, exclude: &[String]) -> (r: bool)
    ensures
        r == (!excluded_by(exclude@.map_values(|p: String| p@), path@) && !has_hidden_component(path@)),
{
    !is_excluded(path, exclude) && !is_hidden(path)
}

/// The part of `path` below `root`: what follows `root` when `path` starts
/// with it, the whole of `path` otherwise.
pub open spec fn relative_part(root: Seq<char>, path: Seq<char>) -> Seq<char> {
    if root.len() <= path.len() && path.take(root.len() as int) == root {
        path.skip(root.len() as int)
    } else {
        path
    }
}

/// Whether the walk of the archived directory `root` keeps its entry
/// `path`: no exclusion pattern (among those that compile) matches the
/// whole path, and no component below `root` is hidden, wherever `root`
/// itself stands.
pub fn should_include_under(root: &str, path: &str, exclude: &[String]) -> (r: bool)
    ensures
        r == (!excluded_by(exclude@.map_values(|p: String| p@), path@)
            && !has_hidden_component(relative_part(root@, path@))),
{
    if is_excluded(path, exclude) {
        return false;
    }
    let rc = chars_of(root);
    let pc = chars_of(path);
    let mut prefix = rc.len() <= pc.len();
    let mut i: usize = 0;
    while prefix && i < rc.len()
        invariant
            rc@ == root@,
            pc@ == path@,
            i <= rc@.len(),
            prefix ==> rc@.len() <= pc@.len(),
            prefix ==> rc@.take(i as int) == pc@.take(i as int),
            !prefix ==> !(root@.len() <= path@.len() && path@.take(root@.len() as int) == root@),
        decreases rc@.len() - i + (if prefix { 1int } else { 0int }),
    {
        if rc[i] != pc[i] {
            proof {
                if root@.len() <= path@.len() && path@.take(root@.len() as int) == root@ {
                    assert(path@.take(root@.len() as int)[i as int] == pc@[i as int]);
                }
            }
            prefix = false;
        } else {
            proof {
                assert(rc@.take(i + 1) =~= rc@.take(i as int).push(rc@[i as int]));
                assert(pc@.take(i + 1) =~= pc@.take(i as int).push(pc@[i as int]));
            }
            i = i + 1;
        }
    }
    if prefix {
        proof {
            assert(rc@.take(rc@.len() as int) =~= root@);
        }
        let rest = vstd::slice::slice_subrange(pc.as_slice(), rc.len(), pc.len());
        let rel = string_from_chars(rest);
        proof {
            assert(rel@ =~= relative_part(root@, path@));
        }
        !is_hidden(rel.as_str())
    } else {
        !is_hidden(path)
    }
}

/// Whether a walked entry is checksummed: a regular file, not a symbolic
/// link, and not the checksum file itself.
pub fn is_archivable_entry(file_name: &str, is_file: bool, is_symlink: bool) -> (r: bool)
    ensures
        r == (is_file && !is_symlink && file_name@ != CHECKSUM_FILE@),
{
    if !is_file || is_symlink {
        return false;
    }
    let name = file_name.to_owned();
    let reserved = CHECKSUM_FILE.to_owned();
    name != reserved
}

/// A file whose name starts with a dot, such as the checksum file or the
/// log file, is hidden wherever it stands, so the walk never records it.
pub proof fn lemma_dot_file_hidden(dir: Seq<char>, name: Seq<char>)
    requires
        name.len() > 0,
        name[0] == '.',
        name != seq!['.'],
        !name.contains('/'),
    ensures
        has_hidden_component(dir + seq!['/'] + name),
{
    lemma_split_on_concat(dir, name, '/');
    lemma_split_on_single(name, '/');
    lemma_split_on_nonempty(dir, '/');
    let parts = split_on(dir + seq!['/'] + name, '/');
    let i = split_on(dir, '/').len() as int;
    assert(parts[i] == name);
    assert(is_component(parts, i));
}

/// Below the archived directory, whatever its own path, a file whose name
/// starts with a dot (the checksum file, the log file) is hidden, so the
/// walk never records it.
pub proof fn lemma_dot_file_hidden_under(root: Seq<char>, name: Seq<char>)
    requires
        name.len() > 0,
        name[0] == '.',
        name != seq!['.'],
        !name.contains('/'),
    ensures
        has_hidden_component(relative_part(root, root + seq!['/'] + name)),
{
    let path = root + seq!['/'] + name;
    assert(path.take(root.len() as int) =~= root);
    assert(path.skip(root.len() as int) =~= Seq::<char>::empty() + seq!['/'] + name);
    lemma_dot_file_hidden(Seq::<char>::empty(), name);
}

} // verus!
