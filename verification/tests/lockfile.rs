use reforge::lockfile::{
    check_dependency, soldeer_warning, DepIdentifier, DepObservation, DepWarning, IntegrityStatus,
    LockEntry, Lockfile, LockfileError, SoldeerWarning, FOUNDRY_LOCK,
};

fn entry(path: &str, rev: &str) -> LockEntry {
    LockEntry { path: path.to_string(), identifier: DepIdentifier::Tag { name: "v1".to_string(), rev: rev.to_string(), overrides: false } }
}

#[test]
fn new_lockfile_is_empty_and_lives_in_the_root() {
    let lock = Lockfile::new("/project");
    assert_eq!(lock.lockfile_path(), "/project/foundry.lock");
    assert_eq!(FOUNDRY_LOCK, "foundry.lock");
    assert!(lock.deps().is_empty());
    assert_eq!(Lockfile::new("/project/").lockfile_path(), "/project/foundry.lock");
}

#[test]
fn reading_a_missing_lockfile_names_its_path() {
    let mut lock = Lockfile::new("/project");
    match lock.read(None) {
        Err(LockfileError::NotFound { path }) => assert_eq!(path, "/project/foundry.lock"),
        _ => panic!("expected NotFound"),
    }
    assert!(lock.deps().is_empty());
}

#[test]
fn reading_a_bad_lockfile_keeps_the_deps() {
    let mut lock = Lockfile::new("/p");
    assert!(lock.read(Some(Ok(vec![entry("lib/a", "abc")]))).is_ok());
    match lock.read(Some(Err("expected value at line 1".to_string()))) {
        Err(LockfileError::Invalid { message }) => assert_eq!(message, "expected value at line 1"),
        _ => panic!("expected Invalid"),
    }
    assert_eq!(lock.deps().len(), 1);
    assert_eq!(lock.deps()[0].path, "lib/a");
}

#[test]
fn only_missing_lockfiles_go_unwarned() {
    assert!(!LockfileError::NotFound { path: "/p/foundry.lock".to_string() }.deserves_warning());
    assert!(LockfileError::Invalid { message: "bad json".to_string() }.deserves_warning());
    assert!(!LockfileError::Invalid { message: "Lockfile not found at /x".to_string() }.deserves_warning());
}

#[test]
fn dependency_checks() {
    let e = entry("lib/forge-std", "abc123");
    assert!(matches!(check_dependency(&e, &DepObservation::Missing), Some(DepWarning::NotFound { path }) if path == "lib/forge-std"));
    assert!(matches!(check_dependency(&e, &DepObservation::RevisionUnavailable), Some(DepWarning::RevisionUnavailable { .. })));
    assert!(check_dependency(&e, &DepObservation::Revision("abc123".to_string())).is_none());
    match check_dependency(&e, &DepObservation::Revision("def456".to_string())) {
        Some(DepWarning::RevisionMismatch { path, expected, actual }) => {
            assert_eq!((path.as_str(), expected.as_str(), actual.as_str()), ("lib/forge-std", "abc123", "def456"));
        },
        _ => panic!("expected a mismatch"),
    }
    let branch = LockEntry { path: "lib/b".to_string(), identifier: DepIdentifier::Branch { name: "main".to_string(), rev: "r1".to_string(), overrides: true } };
    assert!(check_dependency(&branch, &DepObservation::Revision("r1".to_string())).is_none());
    let rev = LockEntry { path: "lib/c".to_string(), identifier: DepIdentifier::Rev { rev: "r2".to_string(), overrides: false } };
    assert_eq!(rev.identifier.rev(), "r2");
}

#[test]
fn soldeer_checks() {
    assert!(soldeer_warning("dep", Ok(IntegrityStatus::Installed)).is_none());
    assert!(matches!(soldeer_warning("dep", Ok(IntegrityStatus::Missing)), Some(SoldeerWarning::IntegrityFailed { status: IntegrityStatus::Missing, .. })));
    assert!(matches!(soldeer_warning("dep", Ok(IntegrityStatus::FailedIntegrity)), Some(SoldeerWarning::IntegrityFailed { status: IntegrityStatus::FailedIntegrity, .. })));
    match soldeer_warning("dep", Err("io".to_string())) {
        Some(SoldeerWarning::CheckFailed { name, message }) => assert_eq!((name.as_str(), message.as_str()), ("dep", "io")),
        _ => panic!("expected CheckFailed"),
    }
}

#[test]
fn warning_messages() {
    let w = DepWarning::RevisionMismatch { path: "lib/a".to_string(), expected: "r1".to_string(), actual: "r2".to_string() };
    assert_eq!(w.message(), "Dependency 'lib/a' revision mismatch: expected 'r1', found 'r2'");
    assert_eq!(DepWarning::NotFound { path: "lib/a".to_string() }.message(), "Dependency 'lib/a' not found at expected path");
    assert_eq!(DepWarning::RevisionUnavailable { path: "lib/a".to_string() }.message(), "Failed to get git revision for dependency 'lib/a'");
    assert_eq!(LockfileError::NotFound { path: "/p/foundry.lock".to_string() }.message(), "Lockfile not found at /p/foundry.lock");
    let s = SoldeerWarning::IntegrityFailed { name: "dep".to_string(), status: IntegrityStatus::FailedIntegrity };
    assert_eq!(s.message(), "Dependency 'dep' integrity check failed: FailedIntegrity");
    let s = SoldeerWarning::CheckFailed { name: "dep".to_string(), message: "io".to_string() };
    assert_eq!(s.message(), "Dependency 'dep' integrity check error: io");
}
