//! The execution side of a plan: the order in which directories are created,
//! what happens to a task whose destination already exists, and the bound on
//! how many transfers run at once.
use vstd::prelude::*;
use crate::cli::CopyOptions;
use crate::error::{CopyError, PreserveError};
use crate::link::{reports_failure, strategy_failure, Strategy};
use crate::plan::FileTask;
use crate::paths::{path_depth, path_parts, path_parts_of};
use crate::text::{trim, trim_bounds};

verus! {

/// Depth never decreases along `s`.
pub open spec fn depth_ordered(s: Seq<String>) -> bool {
    forall|i: int, j: int| 0 <= i < j < s.len() ==> path_depth(s[i]@) <= path_depth(s[j]@)
}

/// No two entries of `s` are the same path.
pub open spec fn distinct_paths(s: Seq<String>) -> bool {
    forall|i: int, j: int| 0 <= i < j < s.len() ==> s[i]@ != s[j]@
}

/// Some entry of `s` is the path `p`.
pub open spec fn holds_path(s: Seq<String>, p: Seq<char>) -> bool {
    exists|i: int| 0 <= i < s.len() && (#[trigger] s[i])@ == p
}

/// `x` occurs in `s` before every occurrence of `y`.
pub open spec fn occurs_first(s: Seq<String>, x: Seq<char>, y: Seq<char>) -> bool {
    exists|a: int|
        0 <= a < s.len() && (#[trigger] s[a])@ == x && forall|b: int|
            0 <= b < s.len() && (#[trigger] s[b])@ == y ==> a < b
}

/// The components of `a` come first in those of `b`, and `b` has more:
/// `b` lies inside `a`.
pub open spec fn is_ancestor(a: Seq<char>, b: Seq<char>) -> bool {
    let pa = path_parts(a);
    let pb = path_parts(b);
    pa.len() < pb.len() && pb.subrange(0, pa.len() as int) == pa
}

/// The directories of a plan as the directory phase creates them: each path
/// once, shallower paths first, paths of equal depth in their first order.
#[verifier::rlimit(40)]
pub fn directory_order(dirs: &Vec<String>) -> (r: Vec<String>)
    ensures
        depth_ordered(r@),
        distinct_paths(r@),
        forall|i: int| 0 <= i < r@.len() ==> holds_path(dirs@, (#[trigger] r@[i])@),
        forall|k: int| 0 <= k < dirs@.len() ==> holds_path(r@, (#[trigger] dirs@[k])@),
        forall|i: int, j: int|
            0 <= i < j < r@.len() && path_depth(r@[i]@) == path_depth(r@[j]@) ==> occurs_first(
                dirs@,
                r@[i]@,
                r@[j]@,
            ),
{
    let ghost mut firsts: Seq<int> = Seq::empty();
    let mut out: Vec<String> = Vec::new();
    let mut depths: Vec<usize> = Vec::new();
    let mut k: usize = 0;
    while k < dirs.len()
        invariant
            k <= dirs@.len(),
            depths@.len() == out@.len(),
            forall|i: int| 0 <= i < out@.len() ==> depths@[i] == path_depth((#[trigger] out@[i])@),
            depth_ordered(out@),
            distinct_paths(out@),
            forall|i: int| 0 <= i < out@.len() ==> holds_path(dirs@, (#[trigger] out@[i])@),
            forall|q: int| 0 <= q < k ==> holds_path(out@, (#[trigger] dirs@[q])@),
            firsts.len() == out@.len(),
            forall|i: int|
                0 <= i < out@.len() ==> 0 <= #[trigger] firsts[i] < k && dirs@[firsts[i]]@
                    == out@[i]@,
            forall|i: int, b: int|
                #![trigger dirs@[b], out@[i]]
                0 <= i < out@.len() && 0 <= b < firsts[i] ==> dirs@[b]@ != out@[i]@,
            forall|i: int, j: int|
                0 <= i < j < out@.len() && path_depth(out@[i]@) == path_depth(out@[j]@)
                    ==> firsts[i] < firsts[j],
        decreases dirs@.len() - k,
    {
        let mut seen = false;
        let mut i: usize = 0;
        while i < out.len()
            invariant
                i <= out@.len(),
                k < dirs@.len(),
                seen ==> holds_path(out@, dirs@[k as int]@),
                !seen ==> forall|m: int| 0 <= m < i ==> out@[m]@ != dirs@[k as int]@,
            decreases out@.len() - i,
        {
            if out[i] == dirs[k] {
                seen = true;
            }
            i = i + 1;
        }
        if !seen {
            let d = dirs[k].clone();
            let depth = path_parts_of(d.as_str()).len();
            let mut p = out.len();
            while p > 0 && depths[p - 1] > depth
                invariant
                    p <= out@.len(),
                    depths@.len() == out@.len(),
                    forall|m: int| p <= m < out@.len() ==> depths@[m] > depth,
                decreases p,
            {
                p = p - 1;
            }
            let ghost o0 = out@;
            let ghost f0 = firsts;
            out.insert(p, d);
            depths.insert(p, depth);
            proof {
                let o1 = out@;
                firsts = f0.insert(p as int, k as int);
                assert forall|b: int| 0 <= b < k implies dirs@[b]@ != dirs@[k as int]@ by {
                    if dirs@[b]@ == dirs@[k as int]@ {
                        assert(holds_path(o0, dirs@[b]@));
                    }
                }
                assert forall|i: int| 0 <= i < o1.len() implies 0 <= #[trigger] firsts[i] < k + 1
                    && dirs@[firsts[i]]@ == o1[i]@ by {
                    if i < p {
                        assert(o1[i] == o0[i]);
                    } else if i > p {
                        assert(o1[i] == o0[i - 1]);
                    }
                }
                assert forall|i: int, b: int|
                    #![trigger dirs@[b], o1[i]]
                    0 <= i < o1.len() && 0 <= b < firsts[i] implies dirs@[b]@ != o1[i]@ by {
                    if i < p {
                        assert(o1[i] == o0[i]);
                    } else if i > p {
                        assert(o1[i] == o0[i - 1]);
                    }
                }
                assert forall|a: int, b: int|
                    0 <= a < b < o1.len() && path_depth(o1[a]@) == path_depth(o1[b]@) implies firsts[a]
                    < firsts[b] by {
                    assert(depths@[a] == path_depth(o1[a]@));
                    assert(depths@[b] == path_depth(o1[b]@));
                    if b < p {
                        assert(o1[a] == o0[a] && o1[b] == o0[b]);
                    } else if b == p {
                        assert(o1[a] == o0[a]);
                    } else if a < p {
                        assert(o1[a] == o0[a] && o1[b] == o0[b - 1]);
                    } else if a == p {
                        assert(o1[b] == o0[b - 1]);
                    } else {
                        assert(o1[a] == o0[a - 1] && o1[b] == o0[b - 1]);
                    }
                }
                assert(o1[p as int]@ == dirs@[k as int]@);
                assert forall|i: int| 0 <= i < o1.len() implies depths@[i] == path_depth(
                    (#[trigger] o1[i])@,
                ) by {
                    if i < p {
                        assert(o1[i] == o0[i]);
                    } else if i > p {
                        assert(o1[i] == o0[i - 1]);
                    }
                }
                assert forall|a: int, b: int| 0 <= a < b < o1.len() implies path_depth(o1[a]@)
                    <= path_depth(o1[b]@) by {
                    assert(depths@[a] == path_depth(o1[a]@));
                    assert(depths@[b] == path_depth(o1[b]@));
                    if b < p {
                        assert(o1[a] == o0[a] && o1[b] == o0[b]);
                    } else if b == p {
                        assert(o1[a] == o0[a]);
                        assert(path_depth(o0[a]@) <= path_depth(o0[p - 1]@) || a == p - 1);
                    } else if a < p {
                        assert(o1[a] == o0[a] && o1[b] == o0[b - 1]);
                    } else if a == p {
                        assert(o1[b] == o0[b - 1]);
                    } else {
                        assert(o1[a] == o0[a - 1] && o1[b] == o0[b - 1]);
                    }
                }
                assert forall|a: int, b: int| 0 <= a < b < o1.len() implies o1[a]@ != o1[b]@ by {
                    if b < p {
                        assert(o1[a] == o0[a] && o1[b] == o0[b]);
                    } else if b == p {
                        assert(o1[a] == o0[a]);
                    } else if a < p {
                        assert(o1[a] == o0[a] && o1[b] == o0[b - 1]);
                    } else if a == p {
                        assert(o1[b] == o0[b - 1]);
                    } else {
                        assert(o1[a] == o0[a - 1] && o1[b] == o0[b - 1]);
                    }
                }
                assert forall|i: int| 0 <= i < o1.len() implies holds_path(
                    dirs@,
                    (#[trigger] o1[i])@,
                ) by {
                    if i < p {
                        assert(o1[i] == o0[i]);
                    } else if i > p {
                        assert(o1[i] == o0[i - 1]);
                    } else {
                        assert(dirs@[k as int]@ == o1[i]@);
                    }
                }
                assert forall|q: int| 0 <= q < k + 1 implies holds_path(
                    o1,
                    (#[trigger] dirs@[q])@,
                ) by {
                    if q < k {
                        let m = choose|m: int| 0 <= m < o0.len() && (#[trigger] o0[m])@ == dirs@[q]@;
                        if m < p {
                            assert(o1[m] == o0[m]);
                        } else {
                            assert(o1[m + 1] == o0[m]);
                        }
                    } else {
                        assert(o1[p as int]@ == dirs@[q]@);
                    }
                }
            }
        }
        k = k + 1;
    }
    proof {
        assert forall|i: int, j: int|
            0 <= i < j < out@.len() && path_depth(out@[i]@) == path_depth(out@[j]@) implies occurs_first(
            dirs@,
            out@[i]@,
            out@[j]@,
        ) by {
            let a = firsts[i];
            assert(dirs@[a]@ == out@[i]@);
            assert forall|b: int| 0 <= b < dirs@.len() && (#[trigger] dirs@[b])@ == out@[j]@ implies a
                < b by {
                if b < firsts[j] {
                    assert(dirs@[b]@ != out@[j]@);
                }
            }
        }
    }
    out
}

/// In a depth-ordered list no directory comes after one that lies inside it.
pub proof fn lemma_parents_first(s: Seq<String>, i: int, j: int)
    requires
        depth_ordered(s),
        0 <= i < j < s.len(),
    ensures
        !is_ancestor(s[j]@, s[i]@),
{
}

/// What a task does next about its destination.
#[derive(Clone, Copy, Debug, PartialEq, Eq, Structural)]
pub enum TaskStep {
    /// Write the destination.
    Transfer,
    /// Leave the destination as it is; the task is skipped, not failed.
    Skip,
    /// Ask whether the existing destination may be overwritten.
    Prompt,
    /// Remove the existing destination, then transfer once more.
    RemoveThenTransfer,
    /// Leave the destination as it is; the task fails because it exists.
    Refuse,
}

/// The first step of a task, given the size of the destination where one
/// exists. An existing destination is skipped when resuming and already as
/// large as the source; otherwise it is asked about when interactive,
/// replaced when forced, and refused when none of these is set.
pub open spec fn first_step_of(existing: Option<u64>, source_size: u64, opts: CopyOptions) -> TaskStep {
    match existing {
        None => TaskStep::Transfer,
        Some(size) => if opts.resume && size == source_size {
            TaskStep::Skip
        } else if opts.interactive {
            TaskStep::Prompt
        } else if opts.force {
            TaskStep::RemoveThenTransfer
        } else {
            TaskStep::Refuse
        },
    }
}

/// The first step of a task whose destination has `existing` bytes, if it
/// exists, and whose source has `source_size`.
pub fn first_step(existing: Option<u64>, source_size: u64, opts: &CopyOptions) -> (r: TaskStep)
    ensures
        r == first_step_of(existing, source_size, *opts),
{
    match existing {
        None => TaskStep::Transfer,
        Some(size) => {
            if opts.resume && size == source_size {
                TaskStep::Skip
            } else if opts.interactive {
                TaskStep::Prompt
            } else if opts.force {
                TaskStep::RemoveThenTransfer
            } else {
                TaskStep::Refuse
            }
        },
    }
}

/// The step after the user answered the overwrite question: an accepted
/// overwrite transfers, a declined one skips.
pub fn step_after_prompt(accepted: bool) -> (r: TaskStep)
    ensures
        accepted ==> r == TaskStep::Transfer,
        !accepted ==> r == TaskStep::Skip,
{
    if accepted {
        TaskStep::Transfer
    } else {
        TaskStep::Skip
    }
}

/// How one task ended.
#[derive(Debug)]
pub enum TaskOutcome {
    /// The destination was written; `bytes` is how many.
    Done { bytes: u64 },
    /// The destination was left alone on purpose.
    Skipped,
    Failed(CopyError),
}

/// The outcome of a task whose step leaves the destination alone: a skip,
/// or the failure that reports an existing `destination`.
pub fn settle_without_transfer(step: TaskStep, destination: &str) -> (r: TaskOutcome)
    requires
        step == TaskStep::Skip || step == TaskStep::Refuse,
    ensures
        step == TaskStep::Skip ==> r is Skipped,
        step == TaskStep::Refuse ==> (r matches TaskOutcome::Failed(CopyError::FileExists(p))
            && p@ == destination@),
{
    if step == TaskStep::Skip {
        TaskOutcome::Skipped
    } else {
        TaskOutcome::Failed(CopyError::FileExists(String::from_str(destination)))
    }
}

/// A destination that already holds as many bytes as its source is skipped
/// when resuming: it is neither written nor reported as failed.
pub proof fn lemma_resume_skips_complete(size: u64, opts: CopyOptions)
    requires
        opts.resume,
    ensures
        first_step_of(Some(size), size, opts) == TaskStep::Skip,
{
}

/// With none of resume, interactive and force set, an existing destination
/// is refused and left alone, whatever its size.
pub proof fn lemma_existing_refused(existing: u64, source_size: u64, opts: CopyOptions)
    requires
        !opts.resume,
        !opts.interactive,
        !opts.force,
    ensures
        first_step_of(Some(existing), source_size, opts) == TaskStep::Refuse,
{
}

/// The bookkeeping of the transfer phase: tasks `0..total` are handed out in
/// order, at most `width` at a time.
pub struct WorkerPool {
    width: usize,
    total: usize,
    next: usize,
    in_flight: usize,
    done: usize,
}

impl WorkerPool {
    pub closed spec fn width(&self) -> nat {
        self.width as nat
    }

    pub closed spec fn total(&self) -> nat {
        self.total as nat
    }

    /// How many tasks have been handed out.
    pub closed spec fn started(&self) -> nat {
        self.next as nat
    }

    /// How many handed-out tasks have not reported back.
    pub closed spec fn running(&self) -> nat {
        self.in_flight as nat
    }

    /// How many tasks have reported back.
    pub closed spec fn finished(&self) -> nat {
        self.done as nat
    }

    pub closed spec fn wf(&self) -> bool {
        &&& 0 < self.width
        &&& self.in_flight <= self.width
        &&& self.done + self.in_flight == self.next
        &&& self.next <= self.total
    }

    /// A pool of `width` workers for `total` tasks, none started.
    pub fn new(width: usize, total: usize) -> (r: Self)
        requires
            width > 0,
        ensures
            r.wf(),
            r.width() == width,
            r.total() == total,
            r.started() == 0,
            r.running() == 0,
            r.finished() == 0,
    {
        WorkerPool { width, total, next: 0, in_flight: 0, done: 0 }
    }

    /// Hands out the next task where a worker is free and a task is left.
    pub fn try_start(&mut self) -> (r: Option<usize>)
        requires
            old(self).wf(),
        ensures
            final(self).wf(),
            final(self).width() == old(self).width(),
            final(self).total() == old(self).total(),
            final(self).finished() == old(self).finished(),
            (old(self).running() < old(self).width() && old(self).started() < old(self).total())
                ==> (r == Some(old(self).started() as usize) && final(self).started()
                == old(self).started() + 1 && final(self).running() == old(self).running() + 1),
            !(old(self).running() < old(self).width() && old(self).started() < old(self).total())
                ==> (r is None && final(self).started() == old(self).started()
                && final(self).running() == old(self).running()),
    {
        if self.in_flight < self.width && self.next < self.total {
            let i = self.next;
            self.next = self.next + 1;
            self.in_flight = self.in_flight + 1;
            Some(i)
        } else {
            None
        }
    }

    /// Records that a running task reported back.
    pub fn complete(&mut self)
        requires
            old(self).wf(),
            old(self).running() > 0,
        ensures
            final(self).wf(),
            final(self).width() == old(self).width(),
            final(self).total() == old(self).total(),
            final(self).started() == old(self).started(),
            final(self).running() == old(self).running() - 1,
            final(self).finished() == old(self).finished() + 1,
    {
        self.in_flight = self.in_flight - 1;
        self.done = self.done + 1;
    }

    /// How many tasks are running now.
    pub fn running_now(&self) -> (r: usize)
        requires
            self.wf(),
        ensures
            r == self.running(),
    {
        self.in_flight
    }

    /// Whether every task has reported back.
    pub fn all_done(&self) -> (r: bool)
        requires
            self.wf(),
        ensures
            r == (self.finished() == self.total()),
    {
        self.done == self.total
    }
}

/// However the pool is driven, no more tasks run at once than it has workers.
pub proof fn lemma_pool_bound(p: &WorkerPool)
    requires
        p.wf(),
    ensures
        p.running() <= p.width(),
        p.finished() + p.running() == p.started(),
        p.started() <= p.total(),
{
}

/// Whether an answer to the overwrite question accepts: after trimming it
/// is a single `y`, in either case.
pub open spec fn accepts(answer: Seq<char>) -> bool {
    trim(answer) == seq!['y'] || trim(answer) == seq!['Y']
}

/// Reads the user's answer to the overwrite question.
pub fn answer_is_yes(answer: &str) -> (r: bool)
    ensures
        r == accepts(answer@),
{
    let n = answer.unicode_len();
    let (a, b) = trim_bounds(answer, 0, n);
    assert(answer@.subrange(0, n as int) =~= answer@);
    if b - a != 1 {
        assert(trim(answer@).len() != 1);
        return false;
    }
    let c = answer.get_char(a);
    assert(trim(answer@) =~= seq![c]);
    proof {
        if seq![c] == seq!['y'] {
            assert(seq![c][0] == seq!['y'][0]);
        }
        if seq![c] == seq!['Y'] {
            assert(seq![c][0] == seq!['Y'][0]);
        }
        if c == 'y' {
            assert(seq![c] =~= seq!['y']);
        }
        if c == 'Y' {
            assert(seq![c] =~= seq!['Y']);
        }
    }
    c == 'y' || c == 'Y'
}

/// Copying several sources needs an existing directory to put them in.
pub fn require_directory(destination: &str, is_dir: bool) -> (r: Result<(), CopyError>)
    ensures
        is_dir ==> r is Ok,
        !is_dir ==> (r matches Err(CopyError::InvalidDestination(p)) && p@ == destination@),
{
    if is_dir {
        Ok(())
    } else {
        Err(CopyError::InvalidDestination(String::from_str(destination)))
    }
}

/// What the directory phase does after trying to create one directory.
#[derive(Clone, Copy, Debug, PartialEq, Eq, Structural)]
pub enum DirAction {
    /// The directory is there; go on.
    Done,
    /// A parent is missing: create the directory with all its ancestors.
    CreateWithAncestors,
    /// Any other failure stops the whole copy.
    Abort,
}

/// The action after creating a directory ended with `failure`, the kind of
/// the error if there was one: success and "already exists" go on, "not
/// found" fills in the missing ancestors, anything else aborts.
pub fn after_create_dir(failure: Option<std::io::ErrorKind>) -> (r: DirAction)
    ensures
        failure is None ==> r == DirAction::Done,
        failure == Some(std::io::ErrorKind::AlreadyExists) ==> r == DirAction::Done,
        failure == Some(std::io::ErrorKind::NotFound) ==> r == DirAction::CreateWithAncestors,
        (failure is Some && failure != Some(std::io::ErrorKind::AlreadyExists) && failure != Some(
            std::io::ErrorKind::NotFound,
        )) ==> r == DirAction::Abort,
{
    match failure {
        None => DirAction::Done,
        Some(std::io::ErrorKind::AlreadyExists) => DirAction::Done,
        Some(std::io::ErrorKind::NotFound) => DirAction::CreateWithAncestors,
        Some(_) => DirAction::Abort,
    }
}

/// Where a task stands.
#[derive(Clone, Copy, Debug, PartialEq, Eq, Structural)]
pub enum TaskStage {
    /// Waiting to learn whether the destination exists.
    Checking,
    /// Waiting for the answer to the overwrite question.
    Asking,
    /// Waiting for the existing destination to be removed.
    Removing,
    /// Waiting for the destination to be written.
    Writing,
    /// Waiting for the attribute pass; `bytes` were written.
    Preserving { bytes: u64 },
    Finished,
}

/// What the runner of a task reports back.
#[derive(Debug)]
pub enum TaskEvent {
    /// The destination exists with `existing` bytes, or does not.
    Checked { existing: Option<u64> },
    Answered { accepted: bool },
    /// The removal succeeded, or failed for the given reason.
    Removed { failure: Option<String> },
    /// The destination was written with this many bytes, or writing failed
    /// for the given reason.
    Written { result: Result<u64, String> },
    Preserved { status: Result<(), PreserveError> },
}

/// What the runner of a task does next.
#[derive(Debug)]
pub enum TaskAction {
    Ask,
    RemoveDestination,
    Write,
    Preserve,
    Finish(TaskOutcome),
}

/// The event that a task waits for at `stage`.
pub open spec fn awaits(stage: TaskStage, ev: TaskEvent) -> bool {
    match stage {
        TaskStage::Checking => ev is Checked,
        TaskStage::Asking => ev is Answered,
        TaskStage::Removing => ev is Removed,
        TaskStage::Writing => ev is Written,
        TaskStage::Preserving { .. } => ev is Preserved,
        TaskStage::Finished => false,
    }
}

/// The decisions of one transfer task, from the check of its destination to
/// its outcome. Whoever runs it performs each action and reports the event
/// it led to; nothing here touches the filesystem.
pub struct TaskRun {
    pub task: FileTask,
    pub strategy: Strategy,
    pub options: CopyOptions,
    pub stage: TaskStage,
}

impl TaskRun {
    /// A task that first needs to know about its destination.
    pub fn new(task: FileTask, strategy: Strategy, options: CopyOptions) -> (r: Self)
        ensures
            r.task == task,
            r.strategy == strategy,
            r.options == options,
            r.stage == TaskStage::Checking,
    {
        TaskRun { task, strategy, options, stage: TaskStage::Checking }
    }

    /// Whether the task has its outcome.
    pub fn is_finished(&self) -> (r: bool)
        ensures
            r == (self.stage == TaskStage::Finished),
    {
        match self.stage {
            TaskStage::Finished => true,
            _ => false,
        }
    }

    fn fail(&self, reason: &str) -> (r: TaskAction)
        ensures
            r matches TaskAction::Finish(TaskOutcome::Failed(e)) && reports_failure(
                e,
                self.strategy,
                self.task.source@,
                self.task.destination@,
                reason@,
            ),
    {
        TaskAction::Finish(
            TaskOutcome::Failed(
                strategy_failure(
                    self.strategy,
                    self.task.source.as_str(),
                    self.task.destination.as_str(),
                    reason,
                ),
            ),
        )
    }

    /// Takes in what the last action led to and says what comes next.
    pub fn on_event(&mut self, ev: TaskEvent) -> (r: TaskAction)
        requires
            awaits(old(self).stage, ev),
        ensures
            final(self).task == old(self).task,
            final(self).strategy == old(self).strategy,
            final(self).options == old(self).options,
            (r is Finish) == (final(self).stage == TaskStage::Finished),
            r is Write ==> final(self).stage == TaskStage::Writing,
            r is Ask ==> final(self).stage == TaskStage::Asking,
            r is RemoveDestination ==> final(self).stage == TaskStage::Removing,
            r is Preserve ==> final(self).stage is Preserving,
            ev matches TaskEvent::Checked { existing } ==> match first_step_of(
                existing,
                old(self).task.size,
                old(self).options,
            ) {
                TaskStep::Transfer => r is Write,
                TaskStep::Prompt => r is Ask,
                TaskStep::RemoveThenTransfer => r is RemoveDestination,
                TaskStep::Skip => r matches TaskAction::Finish(TaskOutcome::Skipped),
                TaskStep::Refuse => (r matches TaskAction::Finish(
                    TaskOutcome::Failed(CopyError::FileExists(p)),
                ) && p@ == old(self).task.destination@),
            },
            ev matches TaskEvent::Answered { accepted } ==> if accepted {
                r is Write
            } else {
                r matches TaskAction::Finish(TaskOutcome::Skipped)
            },
            ev matches TaskEvent::Removed { failure } ==> match failure {
                None => r is Write,
                Some(reason) => (r matches TaskAction::Finish(TaskOutcome::Failed(e))
                    && reports_failure(
                    e,
                    old(self).strategy,
                    old(self).task.source@,
                    old(self).task.destination@,
                    reason@,
                )),
            },
            ev matches TaskEvent::Written { result } ==> match result {
                Ok(bytes) => r is Preserve && final(self).stage == (TaskStage::Preserving {
                    bytes,
                }),
                Err(reason) => (r matches TaskAction::Finish(TaskOutcome::Failed(e))
                    && reports_failure(
                    e,
                    old(self).strategy,
                    old(self).task.source@,
                    old(self).task.destination@,
                    reason@,
                )),
            },
            ev matches TaskEvent::Preserved { status } ==> match status {
                Ok(_) => (r matches TaskAction::Finish(TaskOutcome::Done { bytes })
                    && old(self).stage == (TaskStage::Preserving { bytes })),
                Err(e) => r matches TaskAction::Finish(
                    TaskOutcome::Failed(CopyError::PreserveFailed(p)),
                ) && p == e,
            },
    {
        match ev {
            TaskEvent::Checked { existing } => {
                let step = first_step(existing, self.task.size, &self.options);
                match step {
                    TaskStep::Transfer => {
                        self.stage = TaskStage::Writing;
                        TaskAction::Write
                    },
                    TaskStep::Prompt => {
                        self.stage = TaskStage::Asking;
                        TaskAction::Ask
                    },
                    TaskStep::RemoveThenTransfer => {
                        self.stage = TaskStage::Removing;
                        TaskAction::RemoveDestination
                    },
                    _ => {
                        self.stage = TaskStage::Finished;
                        TaskAction::Finish(
                            settle_without_transfer(step, self.task.destination.as_str()),
                        )
                    },
                }
            },
            TaskEvent::Answered { accepted } => {
                if step_after_prompt(accepted) == TaskStep::Transfer {
                    self.stage = TaskStage::Writing;
                    TaskAction::Write
                } else {
                    self.stage = TaskStage::Finished;
                    TaskAction::Finish(TaskOutcome::Skipped)
                }
            },
            TaskEvent::Removed { failure } => match failure {
                None => {
                    self.stage = TaskStage::Writing;
                    TaskAction::Write
                },
                Some(reason) => {
                    self.stage = TaskStage::Finished;
                    self.fail(reason.as_str())
                },
            },
            TaskEvent::Written { result } => match result {
                Ok(bytes) => {
                    self.stage = TaskStage::Preserving { bytes };
                    TaskAction::Preserve
                },
                Err(reason) => {
                    self.stage = TaskStage::Finished;
                    self.fail(reason.as_str())
                },
            },
            TaskEvent::Preserved { status } => {
                let bytes = match self.stage {
                    TaskStage::Preserving { bytes } => bytes,
                    _ => 0,
                };
                self.stage = TaskStage::Finished;
                match status {
                    Ok(()) => TaskAction::Finish(TaskOutcome::Done { bytes }),
                    Err(e) => TaskAction::Finish(TaskOutcome::Failed(CopyError::PreserveFailed(e))),
                }
            },
        }
    }
}

} // verus!
