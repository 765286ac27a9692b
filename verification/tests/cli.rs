use smart_archive::cli::{
    entry_point, parse_exclude_list, plan_destination, require_directory, Cli, Commands, DestinationPlan, Task,
    LOG_FILE_NAME,
};
use smart_archive::error::ArchiveError;

fn cli(exclude: Option<&str>, command: Commands) -> Cli {
    Cli { log_file: String::new(), quiet: false, exclude: exclude.map(|s| s.to_string()), threads: None, command }
}

#[test]
fn exclude_list_splits_on_commas() {
    assert_eq!(parse_exclude_list(&Some("**/target,,**/.git,".to_string())), vec!["**/target", "**/.git"]);
    assert!(parse_exclude_list(&None).is_empty());
    assert!(parse_exclude_list(&Some(String::new())).is_empty());
}

#[test]
fn entry_point_builds_tasks() {
    match entry_point(cli(Some("a,b"), Commands::Verify { path: "/d".to_string(), interactive: true })) {
        Task::Verify { path, interactive, exclude } => {
            assert_eq!(path, "/d");
            assert!(interactive);
            assert_eq!(exclude, vec!["a", "b"]);
        }
        _ => panic!("wrong task"),
    }
    match entry_point(cli(None, Commands::Prepare { path: "/p".to_string() })) {
        Task::Prepare { path, exclude } => {
            assert_eq!(path, "/p");
            assert!(exclude.is_empty());
        }
        _ => panic!("wrong task"),
    }
    match entry_point(cli(None, Commands::Copy { source: "/s".to_string(), destination: "/t".to_string() })) {
        Task::Copy { source, destination, .. } => {
            assert_eq!(source, "/s");
            assert_eq!(destination, "/t");
        }
        _ => panic!("wrong task"),
    }
}

#[test]
fn log_directory_and_threads() {
    let c = cli(None, Commands::Copy { source: "/s".to_string(), destination: "/t".to_string() });
    assert_eq!(c.command.log_directory(), "/t");
    assert_eq!(c.worker_threads(), 4);
    let mut c = cli(None, Commands::Verify { path: "/v".to_string(), interactive: false });
    c.threads = Some(9);
    assert_eq!(c.command.log_directory(), "/v");
    assert_eq!(c.worker_threads(), 9);
    assert_eq!(LOG_FILE_NAME, ".archivage-historique.log");
}

#[test]
fn destination_plans() {
    assert!(matches!(plan_destination(false, false, None, "/s".to_string()), Ok(DestinationPlan::Create)));
    assert!(matches!(plan_destination(true, true, None, "/s".to_string()), Ok(DestinationPlan::Keep)));
    assert!(matches!(plan_destination(true, false, Some("s".to_string()), "/s".to_string()),
        Ok(DestinationPlan::Append { name }) if name == "s"));
    assert!(matches!(plan_destination(true, false, None, "/".to_string()),
        Err(ArchiveError::InvalidSourceDir(d)) if d == "/"));
}

#[test]
fn directories_required() {
    assert!(require_directory(true, "/d".to_string()).is_ok());
    assert!(matches!(require_directory(false, "/f".to_string()), Err(ArchiveError::InvalidSourceDir(d)) if d == "/f"));
}
