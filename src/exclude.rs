//! Exclusion of entries by glob patterns, matched on paths relative to the
//! root of the tree being copied.
use vstd::prelude::*;
use crate::error::ExcludeError;

verus! {

#[verifier::external_type_specification]
#[verifier::external_body]
pub struct ExGlobError(globset::Error);

#[verifier::external_type_specification]
#[verifier::external_body]
pub struct ExGlobSet(globset::GlobSet);

/// The patterns that a compiled glob set holds, in the order they were given.
pub uninterp spec fn glob_set_patterns(s: globset::GlobSet) -> Seq<Seq<char>>;

/// Whether the glob `pattern` matches `path` under globset's default options.
pub uninterp spec fn glob_matches(pattern: Seq<char>, path: Seq<char>) -> bool;

/// Whether globset compiles the pattern list `pats` into a set.
pub uninterp spec fn glob_list_compiles(pats: Seq<Seq<char>>) -> bool;

/// Whether some pattern of `pats` matches `path`.
pub open spec fn excluded_by(pats: Seq<Seq<char>>, path: Seq<char>) -> bool {
    exists|i: int| 0 <= i < pats.len() && glob_matches(#[trigger] pats[i], path)
}

/// Relies on `globset::Glob::new`, `GlobSetBuilder::add` and
/// `GlobSetBuilder::build`: a set built from the patterns, in their order.
#[verifier::external_body]
fn compile_glob_set(patterns: &Vec<String>) -> (r: Result<globset::GlobSet, globset::Error>)
    ensures
        r is Ok <==> glob_list_compiles(patterns.deep_view()),
        r matches Ok(s) ==> glob_set_patterns(s) == patterns.deep_view(),
{
    let mut builder = globset::GlobSetBuilder::new();
    for p in patterns.iter() {
        builder.add(globset::Glob::new(p)?);
    }
    builder.build()
}

/// Relies on `globset::GlobSet::is_match`: true when any glob of the set
/// matches the path.
#[verifier::external_body]
fn glob_set_is_match(s: &globset::GlobSet, path: &str) -> (r: bool)
    ensures
        r == (exists|i: int| 0 <= i < glob_set_patterns(*s).len()
            && glob_matches(#[trigger] glob_set_patterns(*s)[i], path@)),
{
    s.is_match(path)
}

/// Relies on `Display` for `globset::Error`: a description of why a pattern
/// was refused. Nothing is claimed of the text.
#[verifier::external_body]
pub(crate) fn glob_error_text(e: &globset::Error) -> String {
    e.to_string()
}

/// A compiled list of exclusion patterns.
pub struct ExcludeMatcher {
    set: globset::GlobSet,
}

impl View for ExcludeMatcher {
    type V = Seq<Seq<char>>;

    closed spec fn view(&self) -> Seq<Seq<char>> {
        glob_set_patterns(self.set)
    }
}

impl ExcludeMatcher {
    /// Compiles `patterns`; a malformed one fails the whole list before any
    /// walk starts.
    pub fn new(patterns: &Vec<String>) -> (r: Result<Self, ExcludeError>)
        ensures
            r is Ok <==> glob_list_compiles(patterns.deep_view()),
            r matches Ok(m) ==> m@ == patterns.deep_view(),
            r matches Err(e) ==> e is PatternCompilation,
    {
        match compile_glob_set(patterns) {
            Ok(set) => Ok(ExcludeMatcher { set }),
            Err(e) => Err(ExcludeError::PatternCompilation(e)),
        }
    }

    /// Whether `relative_path` is excluded: some pattern matches it.
    pub fn is_excluded(&self, relative_path: &str) -> (r: bool)
        ensures
            r == excluded_by(self@, relative_path@),
    {
        glob_set_is_match(&self.set, relative_path)
    }
}

} // verus!
