use cpx::attrs::{
    preserve_context, preserve_steps, settle_facet, xattr_result, Facet, FacetResult,
    PreserveAttr, PreserveRun, XattrTrouble,
};

#[test]
fn test_preserve_attr_from_string() {
    let attr = PreserveAttr::from_string("mode,timestamps").unwrap();
    assert!(attr.mode);
    assert!(attr.timestamps);
    assert!(!attr.ownership);
    assert!(!attr.xattr);
}

#[test]
fn test_preserve_attr_all() {
    let attr = PreserveAttr::from_string("all").unwrap();
    assert!(attr.mode);
    assert!(attr.ownership);
    assert!(attr.timestamps);
    assert!(attr.links);
    assert!(attr.context);
    assert!(attr.xattr);
}

#[test]
fn test_preserve_attr_default() {
    let attr = PreserveAttr::from_string("").unwrap();
    assert!(attr.mode);
    assert!(attr.ownership);
    assert!(attr.timestamps);
    assert!(!attr.links);
    assert!(!attr.context);
    assert!(!attr.xattr);
}

#[test]
fn test_preserve_attr_none() {
    let attr = PreserveAttr::none();
    assert!(!attr.mode);
    assert!(!attr.ownership);
    assert!(!attr.timestamps);
    assert!(!attr.links);
    assert!(!attr.context);
    assert!(!attr.xattr);
}

#[test]
fn test_preserve_attr_from_string_with_spaces() {
    let attr = PreserveAttr::from_string("mode , timestamps , xattr").unwrap();
    assert!(attr.mode);
    assert!(attr.timestamps);
    assert!(attr.xattr);
    assert!(!attr.ownership);
}

#[test]
fn test_preserve_attr_from_string_invalid() {
    let result = PreserveAttr::from_string("mode,invalid_attr");
    assert!(result.is_err());
    assert!(result.unwrap_err().contains("Unknown attribute"));
}

#[test]
fn unknown_token_message_is_exact_and_trimmed() {
    let result = PreserveAttr::from_string("mode,  bogus ,all");
    assert_eq!(result.unwrap_err(), "Unknown attribute: bogus");
}

#[test]
fn all_token_inside_list_gives_every_facet() {
    let attr = PreserveAttr::from_string("mode,all,invalid").unwrap();
    assert_eq!(attr, PreserveAttr::all());
}

#[test]
fn blank_tokens_are_skipped() {
    let attr = PreserveAttr::from_string(",links,,context,").unwrap();
    assert!(attr.links);
    assert!(attr.context);
    assert!(!attr.mode);
    assert!(!attr.timestamps);
}

#[test]
fn only_separators_give_no_facet() {
    let attr = PreserveAttr::from_string(" , ").unwrap();
    assert_eq!(attr, PreserveAttr::none());
}

#[test]
fn default_is_mode_ownership_timestamps() {
    let attr = PreserveAttr::default();
    assert!(attr.mode && attr.ownership && attr.timestamps);
    assert!(!attr.links && !attr.context && !attr.xattr);
}

#[test]
fn steps_for_none_are_empty() {
    assert!(preserve_steps(PreserveAttr::none()).is_empty());
}

#[test]
fn steps_for_all_run_timestamps_first() {
    let steps = preserve_steps(PreserveAttr::all());
    assert_eq!(
        steps,
        vec![Facet::Timestamps, Facet::Mode, Facet::Ownership, Facet::Xattr, Facet::Context]
    );
}

#[test]
fn steps_for_default_skip_links() {
    let steps = preserve_steps(PreserveAttr::default());
    assert_eq!(steps, vec![Facet::Timestamps, Facet::Mode, Facet::Ownership]);
}

#[test]
fn ownership_without_privilege_is_swallowed() {
    let e = std::io::Error::from_raw_os_error(1);
    assert!(settle_facet(Facet::Ownership, FacetResult::Failed { error: e, code: Some(1) }).is_ok());
    let e = std::io::Error::from_raw_os_error(13);
    assert!(settle_facet(Facet::Ownership, FacetResult::Failed { error: e, code: Some(13) }).is_ok());
}

#[test]
fn other_ownership_failures_are_reported() {
    let e = std::io::Error::from_raw_os_error(2);
    assert!(settle_facet(Facet::Ownership, FacetResult::Failed { error: e, code: Some(2) }).is_err());
}

#[test]
fn mode_failure_is_fatal_even_without_permission() {
    let e = std::io::Error::from_raw_os_error(1);
    assert!(settle_facet(Facet::Mode, FacetResult::Failed { error: e, code: Some(1) }).is_err());
}

#[test]
fn unsupported_facet_is_success() {
    assert!(settle_facet(Facet::Xattr, FacetResult::Unsupported).is_ok());
    assert!(settle_facet(Facet::Timestamps, FacetResult::Applied).is_ok());
}

#[test]
fn context_without_support_is_success() {
    assert!(preserve_context("a", "b").is_ok());
}

#[test]
fn preserve_run_stops_at_first_fatal_facet() {
    let mut run = PreserveRun::new(PreserveAttr::all());
    assert_eq!(run.next_facet(), Some(Facet::Timestamps));
    assert!(run.record(FacetResult::Applied).is_ok());
    assert_eq!(run.next_facet(), Some(Facet::Mode));
    let e = std::io::Error::from_raw_os_error(2);
    assert!(run.record(FacetResult::Failed { error: e, code: Some(2) }).is_err());
    assert_eq!(run.next_facet(), None);
}

#[test]
fn preserve_run_for_none_has_nothing_to_do() {
    let run = PreserveRun::new(PreserveAttr::none());
    assert_eq!(run.next_facet(), None);
}

#[test]
fn preserve_run_goes_past_swallowed_ownership() {
    let mut run = PreserveRun::new(PreserveAttr::from_string("ownership,xattr").unwrap());
    assert_eq!(run.next_facet(), Some(Facet::Ownership));
    let e = std::io::Error::from_raw_os_error(1);
    assert!(run.record(FacetResult::Failed { error: e, code: Some(1) }).is_ok());
    assert_eq!(run.next_facet(), Some(Facet::Xattr));
}

#[test]
fn xattr_rules() {
    assert!(matches!(xattr_result(XattrTrouble::Nothing), FacetResult::Applied));
    assert!(matches!(xattr_result(XattrTrouble::WriteFailed), FacetResult::Applied));
    assert!(matches!(xattr_result(XattrTrouble::ListingUnsupported), FacetResult::Unsupported));
    let e = std::io::Error::from_raw_os_error(5);
    assert!(matches!(
        xattr_result(XattrTrouble::ReadFailed { error: e, code: Some(5) }),
        FacetResult::Failed { code: Some(5), .. }
    ));
}
