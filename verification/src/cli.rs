//! The command line as plain values, and the decisions taken on it before
//! any file is touched.
use vstd::prelude::*;
use crate::checksum_map::string_views;
use crate::error::ArchiveError;
use crate::text::{chars_of, char_vec_views, joined, lemma_split_on_joined, split_chars, split_on, string_from_chars};

verus! {

/// The name of the log file written in the directory that a command works on.
pub const LOG_FILE_NAME: &'static str = ".archivage-historique.log";

/// The number of worker threads used when none is asked for.
pub const DEFAULT_THREADS: usize = 4;

/// The parsed command line.
pub struct Cli {
    /// Where the log is written; worked out from the command's paths.
    pub log_file: String,
    /// No log on the console, only in the log file.
    pub quiet: bool,
    /// Comma-separated UNIX glob patterns of paths to leave out.
    pub exclude: Option<String>,
    /// Number of worker threads.
    pub threads: Option<usize>,
    pub command: Commands,
}

/// What to do.
pub enum Commands {
    /// Write the checksum file of a directory.
    Prepare { path: String },
    /// Check a directory against its checksum file.
    Verify { path: String, interactive: bool },
    /// Copy a directory and check the copy.
    Copy { source: String, destination: String },
}

impl Commands {
    /// The directory the log file goes in: the destination of a copy, the
    /// directory worked on otherwise.
    pub fn log_directory(&self) -> (r: &String)
        ensures
            r@ == match self {
                Commands::Prepare { path } => path@,
                Commands::Verify { path, .. } => path@,
                Commands::Copy { destination, .. } => destination@,
            },
    {
        match self {
            Commands::Prepare { path } => path,
            Commands::Verify { path, .. } => path,
            Commands::Copy { destination, .. } => destination,
        }
    }
}

impl Cli {
    /// The number of worker threads to start.
    pub fn worker_threads(&self) -> (r: usize)
        ensures
            r == match self.threads {
                Some(n) => n,
                None => DEFAULT_THREADS,
            },
    {
        match self.threads {
            Some(n) => n,
            None => DEFAULT_THREADS,
        }
    }
}

/// The non-empty pieces of `parts`, in order.
pub open spec fn nonempty_pieces(parts: Seq<Seq<char>>) -> Seq<Seq<char>>
    decreases parts.len(),
{
    if parts.len() == 0 {
        Seq::empty()
    } else if parts.last().len() > 0 {
        nonempty_pieces(parts.drop_last()).push(parts.last())
    } else {
        nonempty_pieces(parts.drop_last())
    }
}

/// The exclusion patterns given by the `--exclude` option: its
/// comma-separated pieces, empty ones left out.
pub open spec fn exclude_patterns(exclude: Option<Seq<char>>) -> Seq<Seq<char>> {
    match exclude {
        Some(s) => nonempty_pieces(split_on(s, ',')),
        None => Seq::empty(),
    }
}

/// Keeping the non-empty pieces is filtering on non-emptiness: the pieces
/// kept are exactly the non-empty ones, in their order.
pub proof fn lemma_nonempty_pieces(parts: Seq<Seq<char>>)
    ensures
        nonempty_pieces(parts) == parts.filter(|p: Seq<char>| p.len() > 0),
        forall|x: Seq<char>| nonempty_pieces(parts).contains(x) <==> (parts.contains(x) && x.len() > 0),
    decreases parts.len(),
{
    reveal_with_fuel(Seq::filter, 1);
    if parts.len() > 0 {
        let init = parts.drop_last();
        lemma_nonempty_pieces(init);
        let r = nonempty_pieces(parts);
        let ri = nonempty_pieces(init);
        let last = parts.last();
        if last.len() > 0 {
            assert(r == ri.push(last));
        } else {
            assert(r == ri);
        }
        assert forall|x: Seq<char>| r.contains(x) <==> (parts.contains(x) && x.len() > 0) by {
            if r.contains(x) {
                let j = choose|j: int| 0 <= j < r.len() && r[j] == x;
                if j < ri.len() {
                    assert(ri[j] == x);
                    assert(ri.contains(x));
                    assert(init.contains(x));
                    let k = choose|k: int| 0 <= k < init.len() && init[k] == x;
                    assert(parts[k] == init[k]);
                } else {
                    assert(parts[parts.len() - 1] == x);
                }
            }
            if parts.contains(x) && x.len() > 0 {
                let k = choose|k: int| 0 <= k < parts.len() && parts[k] == x;
                if k < init.len() {
                    assert(init[k] == x);
                    assert(init.contains(x));
                    assert(ri.contains(x));
                    let j = choose|j: int| 0 <= j < ri.len() && ri[j] == x;
                    assert(r[j] == ri[j]);
                    assert(r.contains(x));
                } else {
                    assert(x == last);
                    assert(r[r.len() - 1] == x);
                    assert(r.contains(x));
                }
            }
        }
    }
}

/// The `--exclude` option gives exactly its non-empty comma-separated
/// pieces, in order, none of which holds a comma; and joined back with
/// commas, the pieces of the option give the option.
pub proof fn lemma_exclude_patterns(s: Seq<char>)
    ensures
        exclude_patterns(Some(s)) == split_on(s, ',').filter(|p: Seq<char>| p.len() > 0),
        forall|x: Seq<char>| exclude_patterns(Some(s)).contains(x) <==> (split_on(s, ',').contains(x) && x.len() > 0),
        forall|i: int| 0 <= i < exclude_patterns(Some(s)).len() ==> !(#[trigger] exclude_patterns(Some(s))[i]).contains(','),
        joined(split_on(s, ','), ',') == s,
        exclude_patterns(None) == Seq::<Seq<char>>::empty(),
{
    lemma_nonempty_pieces(split_on(s, ','));
    lemma_split_on_joined(s, ',');
    let r = exclude_patterns(Some(s));
    let parts = split_on(s, ',');
    assert forall|i: int| 0 <= i < r.len() implies !(#[trigger] r[i]).contains(',') by {
        assert(r.contains(r[i]));
        assert(parts.contains(r[i]));
        let k = choose|k: int| 0 <= k < parts.len() && parts[k] == r[i];
        assert(!parts[k].contains(','));
    }
}

/// The view of an optional string.
pub open spec fn option_view(s: Option<String>) -> Option<Seq<char>> {
    match s {
        Some(x) => Some(x@),
        None => None,
    }
}

/// Splits the `--exclude` option into its patterns.
pub fn parse_exclude_list(exclude: &Option<String>) -> (r: Vec<String>)
    ensures
        string_views(r@) == exclude_patterns(option_view(*exclude)),
{
    let mut r: Vec<String> = Vec::new();
    match exclude {
        None => {
            assert(string_views(r@) =~= Seq::<Seq<char>>::empty());
        },
        Some(s) => {
            let cs = chars_of(s.as_str());
            let parts = split_chars(cs.as_slice(), ',');
            let ghost pv = split_on(s@, ',');
            let mut i: usize = 0;
            assert(pv.take(0) =~= Seq::<Seq<char>>::empty());
            assert(string_views(r@) =~= Seq::<Seq<char>>::empty());
            while i < parts.len()
                invariant
                    i <= parts@.len(),
                    char_vec_views(parts@) == pv,
                    string_views(r@) == nonempty_pieces(pv.take(i as int)),
                decreases parts@.len() - i,
            {
                let part = &parts[i];
                proof {
                    assert(pv[i as int] == part@);
                    assert(pv.take(i + 1).drop_last() =~= pv.take(i as int));
                    assert(pv.take(i + 1).last() == part@);
                }
                if part.len() > 0 {
                    let piece = string_from_chars(part.as_slice());
                    let ghost before = r@;
                    r.push(piece);
                    proof {
                        assert(string_views(r@) =~= string_views(before).push(piece@));
                    }
                }
                i = i + 1;
            }
            proof {
                assert(pv.take(parts@.len() as int) =~= pv);
            }
        },
    }
    r
}

/// A command ready to run: the directories it works on and the exclusion
/// patterns that apply.
pub enum Task {
    Prepare { path: String, exclude: Vec<String> },
    Verify { path: String, interactive: bool, exclude: Vec<String> },
    Copy { source: String, destination: String, exclude: Vec<String> },
}

/// Turns the command line into the task to run.
pub fn entry_point(cli: Cli) -> (t: Task)
    ensures
        match (t, cli.command) {
            (Task::Prepare { path, exclude }, Commands::Prepare { path: p }) => {
                &&& path@ == p@
                &&& string_views(exclude@) == exclude_patterns(option_view(cli.exclude))
            },
            (Task::Verify { path, interactive, exclude }, Commands::Verify { path: p, interactive: i }) => {
                &&& path@ == p@
                &&& interactive == i
                &&& string_views(exclude@) == exclude_patterns(option_view(cli.exclude))
            },
            (Task::Copy { source, destination, exclude }, Commands::Copy { source: s, destination: d }) => {
                &&& source@ == s@
                &&& destination@ == d@
                &&& string_views(exclude@) == exclude_patterns(option_view(cli.exclude))
            },
            _ => false,
        },
{
    let exclude = parse_exclude_list(&cli.exclude);
    match cli.command {
        Commands::Prepare { path } => Task::Prepare { path, exclude },
        Commands::Verify { path, interactive } => Task::Verify { path, interactive, exclude },
        Commands::Copy { source, destination } => Task::Copy { source, destination, exclude },
    }
}

/// Refuses a path that is not a directory.
pub fn require_directory(is_dir: bool, display: String) -> (r: Result<(), ArchiveError>)
    ensures
        r is Ok <==> is_dir,
        r matches Err(err) ==> (err matches ArchiveError::InvalidSourceDir(d) && d@ == display@),
{
    if is_dir {
        Ok(())
    } else {
        Err(ArchiveError::InvalidSourceDir(display))
    }
}

/// What to do with the destination of a copy before it starts.
#[derive(Debug)]
pub enum DestinationPlan {
    /// Use the destination as it is: an empty directory.
    Keep,
    /// Create the destination, which does not exist.
    Create,
    /// Copy into a directory of this name inside the destination, which
    /// already holds something.
    Append { name: String },
}

/// Decides what the destination of a copy becomes: a destination that
/// holds files gets the source's name appended, so that nothing lands
/// among its files.
pub fn plan_destination(
    destination_exists: bool,
    destination_is_empty: bool,
    source_name: Option<String>,
    source_display: String,
) -> (r: Result<DestinationPlan, ArchiveError>)
    ensures
        !destination_exists ==> r matches Ok(DestinationPlan::Create),
        destination_exists && destination_is_empty ==> r matches Ok(DestinationPlan::Keep),
        destination_exists && !destination_is_empty ==> match source_name {
            Some(n) => r matches Ok(DestinationPlan::Append { name }) && name@ == n@,
            None => r matches Err(ArchiveError::InvalidSourceDir(d)) && d@ == source_display@,
        },
{
    if !destination_exists {
        return Ok(DestinationPlan::Create);
    }
    if destination_is_empty {
        return Ok(DestinationPlan::Keep);
    }
    match source_name {
        Some(name) => Ok(DestinationPlan::Append { name }),
        None => Err(ArchiveError::InvalidSourceDir(source_display)),
    }
}

} // verus!
