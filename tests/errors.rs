use cpx::cli::{CLIArgs, CopyOptions};
use cpx::error::{CopyError, ExcludeError, PreserveError};
use std::io::ErrorKind;

fn args(destination: Option<&str>, target: Option<&str>, concurrency: usize) -> CLIArgs {
    CLIArgs {
        sources: vec!["a".to_string()],
        destination: destination.map(String::from),
        target_directory: target.map(String::from),
        style: None,
        recursive: true,
        concurrency,
        continue_copy: true,
        force: false,
        interactive: false,
        parents: true,
    }
}

#[test]
fn kinds_of_copy_errors() {
    assert_eq!(CopyError::FileExists("x".into()).kind(), ErrorKind::AlreadyExists);
    assert_eq!(CopyError::PermissionDenied("x".into()).kind(), ErrorKind::PermissionDenied);
    assert_eq!(CopyError::InvalidSource("x".into()).kind(), ErrorKind::NotFound);
    assert_eq!(
        CopyError::ReflinkFailed { source: "a".into(), destination: "b".into() }.kind(),
        ErrorKind::Unsupported
    );
    assert_eq!(
        CopyError::SymlinkFailed { source: "a".into(), destination: "b".into() }.kind(),
        ErrorKind::Other
    );
    let io = std::io::Error::new(ErrorKind::TimedOut, "slow");
    assert_eq!(CopyError::Io(io).kind(), ErrorKind::TimedOut);
}

#[test]
fn messages_of_errors() {
    assert_eq!(CopyError::FileExists("f".into()).message(), "File already exists: f");
    assert_eq!(
        CopyError::InvalidDestination("d".into()).message(),
        "Invalid destination path: d"
    );
    let p = PreserveError::FailedToPreserve { path: "p".into(), attribute: "mode".into() };
    assert_eq!(p.message(), "Failed to preserve 'mode' for 'p'");
    let c: CopyError = PreserveError::UnsupportedAttribute("acl".into()).into();
    assert_eq!(c.message(), "Preserve failed: Unsupported preserve attribute: acl");
    assert_eq!(ExcludeError::InvalidPattern("[".into()).message(), "Invalid exclude pattern: [");
}

#[test]
fn validate_prefers_target_directory() {
    let (sources, dest, options) = args(Some("last"), Some("target"), 3).validate().unwrap();
    assert_eq!(sources, vec!["a".to_string()]);
    assert_eq!(dest, "target");
    assert_eq!(
        options,
        CopyOptions { recursive: true, concurrency: 3, resume: true, force: false, interactive: false, parents: true }
    );
}

#[test]
fn validate_uses_last_argument() {
    let (_, dest, _) = args(Some("last"), None, 4).validate().unwrap();
    assert_eq!(dest, "last");
}

#[test]
fn validate_requires_destination() {
    let e = args(None, None, 4).validate().unwrap_err();
    assert_eq!(e, "Missing destination: specify last argument or use --target-directory");
}

#[test]
fn validate_requires_a_worker() {
    assert!(args(Some("d"), None, 0).validate().is_err());
}

#[test]
fn options_from_arguments() {
    let a = args(Some("d"), None, 8);
    let o = CopyOptions::from(&a);
    assert_eq!(o.concurrency, 8);
    assert!(o.resume && o.parents && o.recursive && !o.force);
}
