use missing_files::config::{Args, DEFAULT_MAX_DEPTH};
use missing_files::error::{exit_status, CompareError};
use missing_files::generator::ChecksumGenerator;

#[test]
fn defaults_of_a_comparison() {
    let args = Args::new("old".to_string(), "new".to_string());
    assert_eq!(args.old_folder, "old");
    assert_eq!(args.new_folder, "new");
    assert_eq!(args.max_depth, 1000);
    assert_eq!(DEFAULT_MAX_DEPTH, 1000);
    assert_eq!(args.generator, ChecksumGenerator::CRC32);
}

#[test]
fn both_roots_present() {
    let args = Args::new("old".to_string(), "new".to_string());
    assert_eq!(args.check_roots(true, true), Ok(()));
}

#[test]
fn missing_old_folder_is_a_configuration_error() {
    let args = Args::new("does/not/exist".to_string(), "new".to_string());
    assert_eq!(
        args.check_roots(false, true),
        Err(CompareError::Configuration { path: "does/not/exist".to_string() })
    );
}

#[test]
fn missing_new_folder_is_a_configuration_error() {
    let args = Args::new("old".to_string(), "gone".to_string());
    assert_eq!(
        args.check_roots(true, false),
        Err(CompareError::Configuration { path: "gone".to_string() })
    );
}

#[test]
fn old_folder_is_reported_where_both_are_missing() {
    let args = Args::new("old".to_string(), "new".to_string());
    assert_eq!(
        args.check_roots(false, false),
        Err(CompareError::Configuration { path: "old".to_string() })
    );
}

#[test]
fn messages_name_the_path() {
    let error = CompareError::Configuration { path: "old".to_string() };
    assert_eq!(error.message(), "not a directory: old");
    assert_eq!(error.path(), "old");
    let error = CompareError::Traversal { path: "old/locked".to_string() };
    assert_eq!(error.message(), "cannot list directory: old/locked");
    assert_eq!(error.path(), "old/locked");
    let error = CompareError::Hashing { path: "old/a.txt".to_string() };
    assert_eq!(error.message(), "cannot read file: old/a.txt");
    assert_eq!(error.path(), "old/a.txt");
}

#[test]
fn exit_status_is_zero_whenever_the_comparison_was_made() {
    assert_eq!(exit_status(&Ok(Vec::new())), 0);
    assert_eq!(exit_status(&Ok(vec!["old/b.txt".to_string()])), 0);
}

#[test]
fn exit_status_is_not_zero_after_a_failure() {
    let args = Args::new("does/not/exist".to_string(), "new".to_string());
    let failure = args.check_roots(false, true).map(|_| Vec::new());
    assert_eq!(exit_status(&failure), 1);
    assert_eq!(exit_status(&Err(CompareError::Traversal { path: "d".to_string() })), 1);
    assert_eq!(exit_status(&Err(CompareError::Hashing { path: "f".to_string() })), 1);
}
