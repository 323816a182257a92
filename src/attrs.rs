//! The metadata facets that can be carried from a source entry to its copy,
//! how a facet list is parsed, and in which order the facets are applied.
use vstd::prelude::*;
use crate::error::PreserveError;
use crate::text::{lemma_split_first, span_eq, split_on, trim, trim_bounds};

verus! {

/// Which classes of metadata are replicated after the data of an entry is in
/// place. Each facet is independent of the others.
#[derive(Clone, Copy, Debug, PartialEq, Eq, Structural)]
pub struct PreserveAttr {
    pub mode: bool,
    pub ownership: bool,
    pub timestamps: bool,
    pub links: bool,
    pub context: bool,
    pub xattr: bool,
}

/// No facet at all.
pub open spec fn no_facets() -> PreserveAttr {
    PreserveAttr {
        mode: false,
        ownership: false,
        timestamps: false,
        links: false,
        context: false,
        xattr: false,
    }
}

/// Every facet.
pub open spec fn all_facets() -> PreserveAttr {
    PreserveAttr {
        mode: true,
        ownership: true,
        timestamps: true,
        links: true,
        context: true,
        xattr: true,
    }
}

/// The facets kept when nothing is asked for: mode, ownership, timestamps.
pub open spec fn default_facets() -> PreserveAttr {
    PreserveAttr {
        mode: true,
        ownership: true,
        timestamps: true,
        links: false,
        context: false,
        xattr: false,
    }
}

/// `a` with the facet called `t` switched on, where `t` names one.
pub open spec fn with_facet(a: PreserveAttr, t: Seq<char>) -> Option<PreserveAttr> {
    if t == "mode"@ {
        Some(PreserveAttr { mode: true, ..a })
    } else if t == "ownership"@ {
        Some(PreserveAttr { ownership: true, ..a })
    } else if t == "timestamps"@ {
        Some(PreserveAttr { timestamps: true, ..a })
    } else if t == "xattr"@ {
        Some(PreserveAttr { xattr: true, ..a })
    } else if t == "context"@ {
        Some(PreserveAttr { context: true, ..a })
    } else if t == "links"@ {
        Some(PreserveAttr { links: true, ..a })
    } else {
        None
    }
}

/// Reads the tokens of a facet list from left to right, starting from `acc`:
/// blank tokens are skipped, `all` ends the list with every facet, and the
/// first token that names no facet is the error.
pub open spec fn read_facets(toks: Seq<Seq<char>>, acc: PreserveAttr) -> Result<
    PreserveAttr,
    Seq<char>,
>
    decreases toks.len(),
{
    if toks.len() == 0 {
        Ok(acc)
    } else {
        let t = trim(toks[0]);
        if t.len() == 0 {
            read_facets(toks.drop_first(), acc)
        } else if t == "all"@ {
            Ok(all_facets())
        } else {
            match with_facet(acc, t) {
                Some(a) => read_facets(toks.drop_first(), a),
                None => Err(t),
            }
        }
    }
}

/// The meaning of a comma-separated facet list: empty gives the default set,
/// `all` every facet, otherwise the named facets; `Err` holds the first
/// unknown token, trimmed.
pub open spec fn parse_facets(s: Seq<char>) -> Result<PreserveAttr, Seq<char>> {
    if s.len() == 0 {
        Ok(default_facets())
    } else if s == "all"@ {
        Ok(all_facets())
    } else {
        read_facets(split_on(s, ','), no_facets())
    }
}

/// The message that reports an unknown facet token.
pub open spec fn unknown_facet_message(t: Seq<char>) -> Seq<char> {
    "Unknown attribute: "@ + t
}

impl Default for PreserveAttr {
    fn default() -> (r: Self)
        ensures
            r == default_facets(),
    {
        PreserveAttr {
            mode: true,
            ownership: true,
            timestamps: true,
            links: false,
            context: false,
            xattr: false,
        }
    }
}

impl PreserveAttr {
    /// No facet: the destination's metadata is left as the transfer made it.
    pub fn none() -> (r: Self)
        ensures
            r == no_facets(),
    {
        PreserveAttr {
            mode: false,
            ownership: false,
            timestamps: false,
            links: false,
            context: false,
            xattr: false,
        }
    }

    /// Every facet.
    pub fn all() -> (r: Self)
        ensures
            r == all_facets(),
    {
        PreserveAttr {
            mode: true,
            ownership: true,
            timestamps: true,
            links: true,
            context: true,
            xattr: true,
        }
    }

    /// Parses a facet list such as `"mode, timestamps"`.
    pub fn from_string(s: &str) -> (r: Result<Self, String>)
        ensures
            match parse_facets(s@) {
                Ok(a) => r == Ok::<PreserveAttr, String>(a),
                Err(t) => r is Err && r->Err_0@ == unknown_facet_message(t),
            },
    {
        let n = s.unicode_len();
        if n == 0 {
            return Ok(PreserveAttr::default());
        }
        if span_eq(s, 0, n, "all") {
            assert(s@.subrange(0, n as int) =~= s@);
            return Ok(PreserveAttr::all());
        }
        assert(s@.subrange(0, n as int) =~= s@);
        assert(s@ != "all"@);
        let mut attr = PreserveAttr::none();
        let mut start: usize = 0;
        loop
            invariant
                start <= n,
                n == s@.len(),
                s@.len() > 0,
                s@ != "all"@,
                parse_facets(s@) == read_facets(
                    split_on(s@.subrange(start as int, n as int), ','),
                    attr,
                ),
            decreases n - start,
        {
            let mut j = start;
            while j < n && s.get_char(j) != ','
                invariant
                    start <= j <= n,
                    n == s@.len(),
                    forall|k: int| start <= k < j ==> s@[k] != ',',
                decreases n - j,
            {
                j = j + 1;
            }
            let ghost rest = s@.subrange(start as int, n as int);
            proof {
                lemma_split_first(rest, ',', j - start);
                assert(rest.subrange(0, j - start) =~= s@.subrange(start as int, j as int));
                if j < n {
                    assert(rest.subrange(j - start + 1, rest.len() as int) =~= s@.subrange(
                        j + 1,
                        n as int,
                    ));
                }
            }
            let ghost toks = split_on(rest, ',');
            assert(toks[0] == s@.subrange(start as int, j as int));
            assert(toks.drop_first() == if j < n {
                split_on(s@.subrange(j + 1, n as int), ',')
            } else {
                Seq::<Seq<char>>::empty()
            });
            let (a, b) = trim_bounds(s, start, j);
            if a < b {
                if span_eq(s, a, b, "all") {
                    return Ok(PreserveAttr::all());
                } else if span_eq(s, a, b, "mode") {
                    attr.mode = true;
                } else if span_eq(s, a, b, "ownership") {
                    attr.ownership = true;
                } else if span_eq(s, a, b, "timestamps") {
                    attr.timestamps = true;
                } else if span_eq(s, a, b, "xattr") {
                    attr.xattr = true;
                } else if span_eq(s, a, b, "context") {
                    attr.context = true;
                } else if span_eq(s, a, b, "links") {
                    attr.links = true;
                } else {
                    let msg = String::from_str("Unknown attribute: ");
                    return Err(msg.concat(s.substring_char(a, b)));
                }
            }
            if j == n {
                assert(read_facets(Seq::<Seq<char>>::empty(), attr) == Ok::<PreserveAttr, Seq<char>>(
                    attr,
                ));
                return Ok(attr);
            }
            start = j + 1;
        }
    }
}

/// One preservation pass over a destination.
#[derive(Clone, Copy, Debug, PartialEq, Eq, Structural)]
pub enum Facet {
    Timestamps,
    Mode,
    Ownership,
    Xattr,
    Context,
}

/// The passes that `a` asks for, in the order they run: timestamps first,
/// then mode, ownership, extended attributes and security context. Links are
/// a matter of the transfer itself, not of a pass.
pub open spec fn facet_plan(a: PreserveAttr) -> Seq<Facet> {
    (if a.timestamps { seq![Facet::Timestamps] } else { Seq::empty() })
        + (if a.mode { seq![Facet::Mode] } else { Seq::empty() })
        + (if a.ownership { seq![Facet::Ownership] } else { Seq::empty() })
        + (if a.xattr { seq![Facet::Xattr] } else { Seq::empty() })
        + (if a.context { seq![Facet::Context] } else { Seq::empty() })
}

/// The passes to run for `attrs`, in order.
pub fn preserve_steps(attrs: PreserveAttr) -> (r: Vec<Facet>)
    ensures
        r@ == facet_plan(attrs),
{
    let mut r: Vec<Facet> = Vec::new();
    if attrs.timestamps {
        r.push(Facet::Timestamps);
    }
    if attrs.mode {
        r.push(Facet::Mode);
    }
    if attrs.ownership {
        r.push(Facet::Ownership);
    }
    if attrs.xattr {
        r.push(Facet::Xattr);
    }
    if attrs.context {
        r.push(Facet::Context);
    }
    assert(r@ =~= facet_plan(attrs));
    r
}

/// With no facet asked for, no pass runs, so nothing of the destination's
/// metadata is touched; with every facet, timestamps come first and mode
/// follows.
pub proof fn lemma_facet_plan_presets()
    ensures
        facet_plan(no_facets()).len() == 0,
        facet_plan(all_facets()) == seq![
            Facet::Timestamps,
            Facet::Mode,
            Facet::Ownership,
            Facet::Xattr,
            Facet::Context,
        ],
{
    assert(facet_plan(no_facets()) =~= Seq::<Facet>::empty());
    assert(facet_plan(all_facets()) =~= seq![
        Facet::Timestamps,
        Facet::Mode,
        Facet::Ownership,
        Facet::Xattr,
        Facet::Context,
    ]);
}

/// The operating system's code for "operation not permitted".
pub const EPERM_CODE: i32 = 1;

/// The operating system's code for "permission denied".
pub const EACCES_CODE: i32 = 13;

/// How one pass went.
#[derive(Debug)]
pub enum FacetResult {
    Applied,
    /// The platform or the filesystem does not support the facet.
    Unsupported,
    /// The pass failed with `error`, whose operating-system code is `code`.
    Failed { error: std::io::Error, code: Option<i32> },
}

/// Whether a pass that failed with `code` is an expected limit of an
/// unprivileged process rather than an error: only for ownership, and only
/// when the change was not permitted or permission was denied.
pub open spec fn failure_swallowed(facet: Facet, code: Option<i32>) -> bool {
    facet == Facet::Ownership && (code == Some(EPERM_CODE) || code == Some(EACCES_CODE))
}

/// What a pass means for the whole preservation call: success where it was
/// applied, where the facet is unsupported, or where an ownership change was
/// refused for lack of privilege; otherwise the failure is reported.
pub fn settle_facet(facet: Facet, result: FacetResult) -> (r: Result<(), PreserveError>)
    ensures
        result is Applied ==> r is Ok,
        result is Unsupported ==> r is Ok,
        result matches FacetResult::Failed { error, code } ==> (if failure_swallowed(facet, code) {
            r is Ok
        } else {
            r == Err::<(), PreserveError>(PreserveError::Io(error))
        }),
{
    match result {
        FacetResult::Applied => Ok(()),
        FacetResult::Unsupported => Ok(()),
        FacetResult::Failed { error, code } => {
            let swallowed = match facet {
                Facet::Ownership => match code {
                    Some(c) => c == EPERM_CODE || c == EACCES_CODE,
                    None => false,
                },
                _ => false,
            };
            if swallowed {
                Ok(())
            } else {
                Err(PreserveError::Io(error))
            }
        },
    }
}

/// What went wrong, if anything, while copying extended attributes.
#[derive(Debug)]
pub enum XattrTrouble {
    Nothing,
    /// The source's filesystem keeps no extended attributes.
    ListingUnsupported,
    ListingFailed { error: std::io::Error, code: Option<i32> },
    ReadFailed { error: std::io::Error, code: Option<i32> },
    /// Some value could not be written to the destination.
    WriteFailed,
}

/// How the extended-attribute facet went: nothing to list is no failure, a
/// value that cannot be written is left behind, but a failed listing or
/// read fails the facet.
pub fn xattr_result(trouble: XattrTrouble) -> (r: FacetResult)
    ensures
        trouble is Nothing ==> r is Applied,
        trouble is WriteFailed ==> r is Applied,
        trouble is ListingUnsupported ==> r is Unsupported,
        trouble matches XattrTrouble::ListingFailed { error, code } ==> r == (FacetResult::Failed {
            error,
            code,
        }),
        trouble matches XattrTrouble::ReadFailed { error, code } ==> r == (FacetResult::Failed {
            error,
            code,
        }),
{
    match trouble {
        XattrTrouble::Nothing => FacetResult::Applied,
        XattrTrouble::WriteFailed => FacetResult::Applied,
        XattrTrouble::ListingUnsupported => FacetResult::Unsupported,
        XattrTrouble::ListingFailed { error, code } => FacetResult::Failed { error, code },
        XattrTrouble::ReadFailed { error, code } => FacetResult::Failed { error, code },
    }
}

/// The attribute pass over one destination: the facets of `facet_plan`, one
/// at a time, stopping at the first failure that is not swallowed.
pub struct PreserveRun {
    steps: Vec<Facet>,
    next: usize,
}

impl PreserveRun {
    /// The facets still to run, in order.
    pub closed spec fn remaining(&self) -> Seq<Facet> {
        self.steps@.subrange(self.next as int, self.steps@.len() as int)
    }

    pub closed spec fn wf(&self) -> bool {
        self.next <= self.steps@.len()
    }

    /// A pass that runs the facets that `attrs` asks for.
    pub fn new(attrs: PreserveAttr) -> (r: Self)
        ensures
            r.wf(),
            r.remaining() == facet_plan(attrs),
    {
        let steps = preserve_steps(attrs);
        let r = PreserveRun { steps, next: 0 };
        assert(r.steps@.subrange(0, r.steps@.len() as int) =~= r.steps@);
        r
    }

    /// The facet to run next, if any is left.
    pub fn next_facet(&self) -> (r: Option<Facet>)
        requires
            self.wf(),
        ensures
            self.remaining().len() == 0 ==> r is None,
            self.remaining().len() > 0 ==> r == Some(self.remaining()[0]),
    {
        if self.next < self.steps.len() {
            Some(self.steps[self.next])
        } else {
            None
        }
    }

    /// Records how the facet named by `next_facet` went: a settled facet
    /// leaves the rest to run, a failure ends the pass with that error.
    pub fn record(&mut self, result: FacetResult) -> (r: Result<(), PreserveError>)
        requires
            old(self).wf(),
            old(self).remaining().len() > 0,
        ensures
            final(self).wf(),
            ({
                let facet = old(self).remaining()[0];
                &&& result is Applied ==> r is Ok
                &&& result is Unsupported ==> r is Ok
                &&& result matches FacetResult::Failed { error, code } ==> if failure_swallowed(
                    facet,
                    code,
                ) {
                    r is Ok
                } else {
                    r == Err::<(), PreserveError>(PreserveError::Io(error))
                }
            }),
            r is Ok ==> final(self).remaining() == old(self).remaining().drop_first(),
            r is Err ==> final(self).remaining().len() == 0,
    {
        let n = self.steps.len();
        assert(self.next < n);
        let facet = self.steps[self.next];
        let r = settle_facet(facet, result);
        if r.is_ok() {
            self.next = self.next + 1;
            assert(self.steps@.subrange(self.next as int, self.steps@.len() as int) =~= old(
                self,
            ).steps@.subrange(old(self).next as int, old(self).steps@.len() as int).drop_first());
        } else {
            self.next = n;
            assert(self.steps@.subrange(self.next as int, self.steps@.len() as int).len() == 0);
        }
        r
    }
}

/// Preserves the security context of `source` on `destination` in a build
/// without security-context support: there is nothing to carry, and that
/// is success.
pub fn preserve_context(source: &str, destination: &str) -> (r: Result<(), PreserveError>)
    ensures
        r is Ok,
{
    Ok(())
}

} // verus!
