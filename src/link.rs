//! Which transfer mechanism serves an entry, and where a symbolic link made
//! for it points.
use vstd::prelude::*;
use crate::error::CopyError;
use crate::paths::{
    is_absolute, is_component, join, join_all, join_parts, join_path, lemma_parts_are_components,
    lemma_joined_relative, lemma_parts_of_joined, path_parts, path_parts_of, scan_parts,
};

verus! {

/// How the target of a symbolic link to a source is written.
#[derive(Clone, Copy, Debug, PartialEq, Eq, Structural)]
pub enum SymlinkMode {
    Auto,
    Absolute,
    Relative,
}

/// When a symbolic link among the sources is followed to what it names.
#[derive(Clone, Copy, Debug, PartialEq, Eq, Structural)]
pub enum FollowMode {
    /// Never: links are reproduced as links.
    NoDereference,
    /// Always: links are copied as what they point to.
    Dereference,
    /// Only links named on the command line are followed.
    CommandLineSymlink,
}

/// Whether copy-on-write cloning is asked for.
#[derive(Clone, Copy, Debug, PartialEq, Eq, Structural)]
pub enum ReflinkMode {
    /// Clone where the filesystem can, copy bytes elsewhere.
    Auto,
    /// Clone or fail.
    Always,
    /// Always copy bytes.
    Never,
}

/// How the target of a new symbolic link is computed.
#[derive(Clone, Copy, Debug, PartialEq, Eq, Structural)]
pub enum SymlinkKind {
    /// The target of the source link, word for word.
    PreserveExact,
    /// The absolute path of the source.
    AbsoluteToSource,
    /// The path of the source relative to the link's own directory.
    RelativeToSource,
}

/// The mechanism that moves one entry.
#[derive(Clone, Copy, Debug, PartialEq, Eq, Structural)]
pub enum Strategy {
    Copy,
    /// Clone; `fallback` says whether a byte copy may stand in for it.
    Reflink { fallback: bool },
    Hardlink,
    Symlink(SymlinkKind),
}

/// What the configuration asks of every entry.
#[derive(Clone, Copy, Debug, PartialEq, Eq, Structural)]
pub struct LinkRequest {
    pub follow: FollowMode,
    /// Make symbolic links to the sources instead of copies, written this way.
    pub symlink: Option<SymlinkMode>,
    /// Make hard links to the sources instead of copies.
    pub hardlink: bool,
    pub reflink: ReflinkMode,
}

/// Whether a link is followed: always, or only at the command line.
pub open spec fn dereferences(follow: FollowMode, on_command_line: bool) -> bool {
    follow == FollowMode::Dereference || (follow == FollowMode::CommandLineSymlink
        && on_command_line)
}

pub open spec fn kind_for(mode: SymlinkMode) -> SymlinkKind {
    match mode {
        SymlinkMode::Auto => SymlinkKind::PreserveExact,
        SymlinkMode::Absolute => SymlinkKind::AbsoluteToSource,
        SymlinkMode::Relative => SymlinkKind::RelativeToSource,
    }
}

/// The mechanism for an entry. A link that is not followed is reproduced as
/// a link; otherwise a hard-link request comes first, then a symbolic-link
/// request, and else the reflink mode decides between cloning and copying.
pub open spec fn strategy_for(is_symlink: bool, on_command_line: bool, req: LinkRequest) -> Strategy {
    if is_symlink && !dereferences(req.follow, on_command_line) {
        match req.symlink {
            Some(m) => Strategy::Symlink(kind_for(m)),
            None => Strategy::Symlink(SymlinkKind::PreserveExact),
        }
    } else if req.hardlink {
        Strategy::Hardlink
    } else if req.symlink is Some {
        Strategy::Symlink(kind_for(req.symlink->Some_0))
    } else {
        match req.reflink {
            ReflinkMode::Never => Strategy::Copy,
            ReflinkMode::Auto => Strategy::Reflink { fallback: true },
            ReflinkMode::Always => Strategy::Reflink { fallback: false },
        }
    }
}

fn symlink_kind(mode: SymlinkMode) -> (r: SymlinkKind)
    ensures
        r == kind_for(mode),
{
    match mode {
        SymlinkMode::Auto => SymlinkKind::PreserveExact,
        SymlinkMode::Absolute => SymlinkKind::AbsoluteToSource,
        SymlinkMode::Relative => SymlinkKind::RelativeToSource,
    }
}

/// The mechanism for an entry that is a symbolic link or not, named on the
/// command line or reached by a walk.
pub fn select_strategy(is_symlink: bool, on_command_line: bool, req: &LinkRequest) -> (r: Strategy)
    ensures
        r == strategy_for(is_symlink, on_command_line, *req),
{
    let follows = match req.follow {
        FollowMode::Dereference => true,
        FollowMode::CommandLineSymlink => on_command_line,
        FollowMode::NoDereference => false,
    };
    if is_symlink && !follows {
        match req.symlink {
            Some(m) => Strategy::Symlink(symlink_kind(m)),
            None => Strategy::Symlink(SymlinkKind::PreserveExact),
        }
    } else if req.hardlink {
        Strategy::Hardlink
    } else if let Some(m) = req.symlink {
        Strategy::Symlink(symlink_kind(m))
    } else {
        match req.reflink {
            ReflinkMode::Never => Strategy::Copy,
            ReflinkMode::Auto => Strategy::Reflink { fallback: true },
            ReflinkMode::Always => Strategy::Reflink { fallback: false },
        }
    }
}

/// What follows an attempt to clone.
#[derive(Clone, Copy, Debug, PartialEq, Eq, Structural)]
pub enum CloneOutcome {
    Cloned,
    /// Cloning is unavailable; copy the bytes instead.
    CopyInstead,
    /// Cloning is unavailable and nothing may stand in for it.
    Failed,
}

/// The outcome of a clone attempt under a reflink strategy.
pub fn after_clone(fallback: bool, cloned: bool) -> (r: CloneOutcome)
    ensures
        cloned ==> r == CloneOutcome::Cloned,
        !cloned && fallback ==> r == CloneOutcome::CopyInstead,
        !cloned && !fallback ==> r == CloneOutcome::Failed,
{
    if cloned {
        CloneOutcome::Cloned
    } else if fallback {
        CloneOutcome::CopyInstead
    } else {
        CloneOutcome::Failed
    }
}

/// `e` is the failure of `strategy` from `s` to `d`: it names the pair, and a
/// failed byte copy also carries `reason`.
pub open spec fn reports_failure(
    e: CopyError,
    strategy: Strategy,
    s: Seq<char>,
    d: Seq<char>,
    reason: Seq<char>,
) -> bool {
    match strategy {
        Strategy::Copy => e matches CopyError::CopyFailed { source, destination, reason: w }
            && source@ == s && destination@ == d && w@ == reason,
        Strategy::Reflink { .. } => e matches CopyError::ReflinkFailed { source, destination }
            && source@ == s && destination@ == d,
        Strategy::Hardlink => e matches CopyError::HardlinkFailed { source, destination }
            && source@ == s && destination@ == d,
        Strategy::Symlink(_) => e matches CopyError::SymlinkFailed { source, destination }
            && source@ == s && destination@ == d,
    }
}

/// The failure of `strategy` from `source` to `destination`, as reported
/// when the transfer, or the removal of an existing destination before it,
/// fails for `reason`.
pub fn strategy_failure(strategy: Strategy, source: &str, destination: &str, reason: &str) -> (r:
    CopyError)
    ensures
        reports_failure(r, strategy, source@, destination@, reason@),
{
    let s = String::from_str(source);
    let d = String::from_str(destination);
    match strategy {
        Strategy::Copy => CopyError::CopyFailed {
            source: s,
            destination: d,
            reason: String::from_str(reason),
        },
        Strategy::Reflink { .. } => CopyError::ReflinkFailed { source: s, destination: d },
        Strategy::Hardlink => CopyError::HardlinkFailed { source: s, destination: d },
        Strategy::Symlink(_) => CopyError::SymlinkFailed { source: s, destination: d },
    }
}

/// The components reached from the components `base` by following those of
/// `rel` one by one: `..` steps up, any other steps down.
pub open spec fn resolve(base: Seq<Seq<char>>, rel: Seq<Seq<char>>) -> Seq<Seq<char>>
    decreases rel.len(),
{
    if rel.len() == 0 {
        base
    } else {
        let b = resolve(base, rel.drop_last());
        if rel.last() == ".."@ {
            if b.len() > 0 {
                b.drop_last()
            } else {
                b
            }
        } else {
            b.push(rel.last())
        }
    }
}

/// How many leading components `a` and `b` share.
pub open spec fn common_len(a: Seq<Seq<char>>, b: Seq<Seq<char>>) -> nat
    decreases a.len(),
{
    if a.len() == 0 || b.len() == 0 || a[0] != b[0] {
        0
    } else {
        1 + common_len(a.drop_first(), b.drop_first())
    }
}

/// `n` components `..`.
pub open spec fn ups(n: nat) -> Seq<Seq<char>> {
    Seq::new(n, |i: int| ".."@)
}

/// The components of the way from the directory `from` to `to`: up to what
/// they share, then down to `to`.
pub open spec fn relative_parts(from: Seq<Seq<char>>, to: Seq<Seq<char>>) -> Seq<Seq<char>> {
    let k = common_len(from, to);
    ups((from.len() - k) as nat) + to.subrange(k as int, to.len() as int)
}

/// No component is `..`.
pub open spec fn no_ups(s: Seq<Seq<char>>) -> bool {
    forall|i: int| 0 <= i < s.len() ==> s[i] != ".."@
}

proof fn lemma_common_len(a: Seq<Seq<char>>, b: Seq<Seq<char>>)
    ensures
        common_len(a, b) <= a.len(),
        common_len(a, b) <= b.len(),
        a.subrange(0, common_len(a, b) as int) == b.subrange(0, common_len(a, b) as int),
    decreases a.len(),
{
    if !(a.len() == 0 || b.len() == 0 || a[0] != b[0]) {
        lemma_common_len(a.drop_first(), b.drop_first());
        let k = common_len(a, b) as int;
        assert(a.subrange(0, k) =~= seq![a[0]] + a.drop_first().subrange(0, k - 1));
        assert(b.subrange(0, k) =~= seq![b[0]] + b.drop_first().subrange(0, k - 1));
    } else {
        assert(a.subrange(0, 0) =~= b.subrange(0, 0));
    }
}

proof fn lemma_resolve_concat(base: Seq<Seq<char>>, a: Seq<Seq<char>>, b: Seq<Seq<char>>)
    ensures
        resolve(base, a + b) == resolve(resolve(base, a), b),
    decreases b.len(),
{
    if b.len() == 0 {
        assert(a + b =~= a);
    } else {
        lemma_resolve_concat(base, a, b.drop_last());
        assert((a + b).drop_last() =~= a + b.drop_last());
    }
}

proof fn lemma_resolve_ups(base: Seq<Seq<char>>, n: nat)
    requires
        n <= base.len(),
    ensures
        resolve(base, ups(n)) == base.subrange(0, base.len() - n),
    decreases n,
{
    if n == 0 {
        assert(base.subrange(0, base.len() as int) =~= base);
    } else {
        assert(ups(n).drop_last() =~= ups((n - 1) as nat));
        lemma_resolve_ups(base, (n - 1) as nat);
        assert(base.subrange(0, base.len() - (n - 1)).drop_last() =~= base.subrange(
            0,
            base.len() - n,
        ));
    }
}

proof fn lemma_resolve_down(base: Seq<Seq<char>>, rel: Seq<Seq<char>>)
    requires
        no_ups(rel),
    ensures
        resolve(base, rel) == base + rel,
    decreases rel.len(),
{
    if rel.len() == 0 {
        assert(base + rel =~= base);
    } else {
        lemma_resolve_down(base, rel.drop_last());
        assert(base + rel =~= (base + rel.drop_last()).push(rel.last()));
    }
}

/// Following the relative way from the directory `from` to `to` leads to
/// `to`, where neither holds a `..` component.
pub proof fn lemma_relative_resolves(from: Seq<Seq<char>>, to: Seq<Seq<char>>)
    requires
        no_ups(from),
        no_ups(to),
    ensures
        resolve(from, relative_parts(from, to)) == to,
{
    lemma_common_len(from, to);
    let k = common_len(from, to) as int;
    let up = ups((from.len() - k) as nat);
    let down = to.subrange(k, to.len() as int);
    lemma_resolve_concat(from, up, down);
    lemma_resolve_ups(from, (from.len() - k) as nat);
    assert(from.subrange(0, from.len() - (from.len() - k)) =~= from.subrange(0, k));
    lemma_resolve_down(from.subrange(0, k), down);
    assert(to.subrange(0, k) + down =~= to);
}

/// The components of the way from the directory `from` to `to`.
pub fn relative_parts_of(from: &Vec<String>, to: &Vec<String>) -> (r: Vec<String>)
    ensures
        r.deep_view() == relative_parts(from.deep_view(), to.deep_view()),
{
    let mut k: usize = 0;
    assert(from.deep_view().subrange(0, from@.len() as int) =~= from.deep_view());
    assert(to.deep_view().subrange(0, to@.len() as int) =~= to.deep_view());
    while k < from.len() && k < to.len() && from[k] == to[k]
        invariant
            k <= from@.len(),
            k <= to@.len(),
            common_len(from.deep_view(), to.deep_view()) == k + common_len(
                from.deep_view().subrange(k as int, from@.len() as int),
                to.deep_view().subrange(k as int, to@.len() as int),
            ),
        decreases from@.len() - k,
    {
        let ghost a = from.deep_view().subrange(k as int, from@.len() as int);
        let ghost b = to.deep_view().subrange(k as int, to@.len() as int);
        assert(a.drop_first() =~= from.deep_view().subrange(k + 1, from@.len() as int));
        assert(b.drop_first() =~= to.deep_view().subrange(k + 1, to@.len() as int));
        k = k + 1;
    }
    proof {
        let a = from.deep_view().subrange(k as int, from@.len() as int);
        let b = to.deep_view().subrange(k as int, to@.len() as int);
        if k < from@.len() && k < to@.len() {
            assert(a[0] == from@[k as int]@ && b[0] == to@[k as int]@);
        }
        assert(common_len(a, b) == 0);
    }
    let ghost kk = k as int;
    let mut r: Vec<String> = Vec::new();
    let mut i: usize = k;
    while i < from.len()
        invariant
            k <= i <= from@.len(),
            r.deep_view() =~= ups((i - k) as nat),
        decreases from@.len() - i,
    {
        let ghost r0 = r.deep_view();
        proof {
            reveal_strlit("..");
        }
        r.push(String::from_str(".."));
        assert(r.deep_view() =~= r0.push(".."@));
        i = i + 1;
    }
    let ghost ups_part = r.deep_view();
    let mut j: usize = k;
    while j < to.len()
        invariant
            k <= j <= to@.len(),
            kk == k,
            r.deep_view() =~= ups_part + to.deep_view().subrange(kk, j as int),
        decreases to@.len() - j,
    {
        let ghost r0 = r.deep_view();
        r.push(to[j].clone());
        assert(r.deep_view() =~= r0.push(to.deep_view()[j as int]));
        j = j + 1;
    }
    r
}

/// The target text of a link at `link_dir` that points at `source` by a
/// relative way, both taken below the working directory `cwd`; `.` where
/// the way is empty.
pub open spec fn relative_target(cwd: Seq<char>, link_dir: Seq<char>, source: Seq<char>) -> Seq<
    char,
> {
    let ps = relative_parts(path_parts(join(cwd, link_dir)), path_parts(join(cwd, source)));
    if ps.len() == 0 {
        "."@
    } else {
        join_parts(ps)
    }
}

/// The target of a new symbolic link at `link_dir` for `source`: the text
/// of the source link itself (`link_text`), the absolute path of the source,
/// or the relative way to it, as `kind` says. Relative paths are taken below
/// the working directory `cwd`.
pub fn symlink_target(
    kind: SymlinkKind,
    link_text: &str,
    cwd: &str,
    link_dir: &str,
    source: &str,
) -> (r: String)
    ensures
        kind == SymlinkKind::PreserveExact ==> r@ == link_text@,
        kind == SymlinkKind::AbsoluteToSource ==> r@ == join(cwd@, source@),
        kind == SymlinkKind::RelativeToSource ==> r@ == relative_target(cwd@, link_dir@, source@),
{
    match kind {
        SymlinkKind::PreserveExact => String::from_str(link_text),
        SymlinkKind::AbsoluteToSource => join_path(cwd, source),
        SymlinkKind::RelativeToSource => {
            let from_path = join_path(cwd, link_dir);
            let to_path = join_path(cwd, source);
            let from = path_parts_of(from_path.as_str());
            let to = path_parts_of(to_path.as_str());
            let ps = relative_parts_of(&from, &to);
            if ps.len() == 0 {
                proof {
                    assert(ps.deep_view().len() == 0);
                }
                String::from_str(".")
            } else {
                proof {
                    assert(ps.deep_view().len() == ps@.len());
                }
                join_all(&ps)
            }
        },
    }
}

/// A source named below an absolute working directory has an absolute path.
pub proof fn lemma_absolute_target(cwd: Seq<char>, source: Seq<char>)
    requires
        is_absolute(cwd),
    ensures
        is_absolute(join(cwd, source)),
{
    if !is_absolute(source) {
        assert((cwd + source)[0] == cwd[0]);
        assert((cwd + "/"@ + source)[0] == cwd[0]);
    }
}

/// A link written with the relative target for `source` at `link_dir`,
/// read from the link's own directory, leads to the source, where neither
/// path holds a `..` component.
pub proof fn lemma_relative_target_resolves(cwd: Seq<char>, link_dir: Seq<char>, source: Seq<char>)
    requires
        no_ups(path_parts(join(cwd, link_dir))),
        no_ups(path_parts(join(cwd, source))),
    ensures
        resolve(path_parts(join(cwd, link_dir)), path_parts(relative_target(cwd, link_dir, source)))
            == path_parts(join(cwd, source)),
        !is_absolute(relative_target(cwd, link_dir, source)),
{
    let from = path_parts(join(cwd, link_dir));
    let to = path_parts(join(cwd, source));
    let ps = relative_parts(from, to);
    lemma_relative_resolves(from, to);
    lemma_common_len(from, to);
    lemma_parts_are_components(join(cwd, source));
    reveal_strlit("..");
    reveal_strlit(".");
    if ps.len() == 0 {
        assert(path_parts("."@) =~= Seq::<Seq<char>>::empty()) by {
            assert("."@.drop_last() =~= Seq::<char>::empty());
            assert(scan_parts("."@) == (Seq::<Seq<char>>::empty(), "."@)) by {
                assert("."@.drop_last() =~= Seq::<char>::empty());
                assert("."@.last() == '.');
                assert(scan_parts(Seq::<char>::empty()) == (
                    Seq::<Seq<char>>::empty(),
                    Seq::<char>::empty(),
                ));
                assert(Seq::<char>::empty().push('.') =~= "."@);
            }
        }
        assert(ps =~= Seq::<Seq<char>>::empty());
    } else {
        let k = common_len(from, to) as int;
        assert forall|i: int| 0 <= i < ps.len() implies is_component(#[trigger] ps[i]) by {
            if i < from.len() - k {
                assert(ps[i] == ".."@);
            } else {
                assert(ps[i] == to[k + i - (from.len() - k)]);
            }
        }
        lemma_parts_of_joined(ps);
        lemma_joined_relative(ps);
    }
}

} // verus!
