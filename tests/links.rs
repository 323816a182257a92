use cpx::error::CopyError;
use cpx::link::{
    after_clone, relative_parts_of, select_strategy, strategy_failure, symlink_target,
    CloneOutcome, FollowMode, LinkRequest, ReflinkMode, Strategy, SymlinkKind, SymlinkMode,
};

fn req(follow: FollowMode, symlink: Option<SymlinkMode>, hardlink: bool, reflink: ReflinkMode) -> LinkRequest {
    LinkRequest { follow, symlink, hardlink, reflink }
}

#[test]
fn unfollowed_link_stays_a_link() {
    let r = req(FollowMode::NoDereference, None, false, ReflinkMode::Auto);
    assert_eq!(select_strategy(true, true, &r), Strategy::Symlink(SymlinkKind::PreserveExact));
    let r = req(FollowMode::NoDereference, Some(SymlinkMode::Relative), false, ReflinkMode::Auto);
    assert_eq!(select_strategy(true, false, &r), Strategy::Symlink(SymlinkKind::RelativeToSource));
}

#[test]
fn command_line_links_are_followed_only_at_top() {
    let r = req(FollowMode::CommandLineSymlink, None, false, ReflinkMode::Never);
    assert_eq!(select_strategy(true, true, &r), Strategy::Copy);
    assert_eq!(select_strategy(true, false, &r), Strategy::Symlink(SymlinkKind::PreserveExact));
}

#[test]
fn hardlink_and_reflink_requests() {
    let r = req(FollowMode::Dereference, None, true, ReflinkMode::Always);
    assert_eq!(select_strategy(false, false, &r), Strategy::Hardlink);
    let r = req(FollowMode::Dereference, None, false, ReflinkMode::Always);
    assert_eq!(select_strategy(false, false, &r), Strategy::Reflink { fallback: false });
    let r = req(FollowMode::Dereference, None, false, ReflinkMode::Auto);
    assert_eq!(select_strategy(true, false, &r), Strategy::Reflink { fallback: true });
    let r = req(FollowMode::Dereference, Some(SymlinkMode::Absolute), false, ReflinkMode::Auto);
    assert_eq!(select_strategy(false, false, &r), Strategy::Symlink(SymlinkKind::AbsoluteToSource));
}

#[test]
fn clone_fallback() {
    assert_eq!(after_clone(true, true), CloneOutcome::Cloned);
    assert_eq!(after_clone(true, false), CloneOutcome::CopyInstead);
    assert_eq!(after_clone(false, false), CloneOutcome::Failed);
}

#[test]
fn failures_name_the_pair() {
    let e = strategy_failure(Strategy::Hardlink, "s", "d", "exists");
    assert!(matches!(e, CopyError::HardlinkFailed { ref source, ref destination } if source == "s" && destination == "d"));
    assert_eq!(e.message(), "Hardlink failed from 's' to 'd'");
    let e = strategy_failure(Strategy::Copy, "s", "d", "disk full");
    assert_eq!(e.message(), "Failed to copy 's' to 'd': disk full");
}

#[test]
fn relative_way_between_directories() {
    let from: Vec<String> = vec!["a".into(), "b".into(), "c".into()];
    let to: Vec<String> = vec!["a".into(), "x".into(), "f".into()];
    assert_eq!(relative_parts_of(&from, &to), vec!["..", "..", "x", "f"]);
}

#[test]
fn symlink_targets_by_kind() {
    assert_eq!(
        symlink_target(SymlinkKind::RelativeToSource, "", "/w", "out/deep/dir", "src/f"),
        "../../../src/f"
    );
    assert_eq!(symlink_target(SymlinkKind::AbsoluteToSource, "", "/w", "out", "src/f"), "/w/src/f");
    assert_eq!(symlink_target(SymlinkKind::AbsoluteToSource, "", "/w", "out", "/abs/f"), "/abs/f");
    assert_eq!(symlink_target(SymlinkKind::PreserveExact, "../t", "/w", "out", "src/f"), "../t");
    assert_eq!(symlink_target(SymlinkKind::RelativeToSource, "", "/w", "a", "a"), ".");
}
