//! The copy plan: the flat list of file transfers and directory creations
//! built before any byte is moved, with its running totals.
use vstd::prelude::*;

verus! {

broadcast use {vstd::seq_lib::group_to_multiset_ensures, vstd::seq_lib::to_multiset_remove, vstd::seq_lib::to_multiset_insert};

/// One regular-file transfer.
#[derive(Clone, Debug)]
pub struct FileTask {
    pub source: String,
    pub destination: String,
    pub size: u64,
}

/// The work list of one invocation: file transfers, directories to create,
/// and the number of bytes and files that the transfers move.
#[derive(Debug)]
pub struct CopyPlan {
    pub files: Vec<FileTask>,
    pub directories: Vec<String>,
    pub total_size: u64,
    pub total_files: usize,
}

/// The number of bytes that the tasks of `s` move.
pub open spec fn size_sum(s: Seq<FileTask>) -> int
    decreases s.len(),
{
    if s.len() == 0 {
        0
    } else {
        size_sum(s.drop_last()) + s.last().size
    }
}

/// Sizes never grow from one task to a later one.
pub open spec fn sizes_non_increasing(s: Seq<FileTask>) -> bool {
    forall|i: int, j: int| 0 <= i < j < s.len() ==> s[i].size >= s[j].size
}

/// `new` holds the tasks of `old` at the positions `perm`, and tasks of
/// equal size stand in `new` in the order they had in `old`.
pub open spec fn stable_arrangement(old: Seq<FileTask>, new: Seq<FileTask>, perm: Seq<int>) -> bool {
    &&& perm.len() == new.len()
    &&& new.len() == old.len()
    &&& forall|k: int| 0 <= k < new.len() ==> 0 <= #[trigger] perm[k] < old.len() && new[k] == old[perm[k]]
    &&& forall|a: int, b: int| 0 <= a < b < new.len() ==> perm[a] != perm[b]
    &&& forall|a: int, b: int|
        0 <= a < b < new.len() && new[a].size == new[b].size ==> perm[a] < perm[b]
}

/// The bytes of two task lists together are the bytes of each, added.
pub proof fn lemma_size_sum_concat(a: Seq<FileTask>, b: Seq<FileTask>)
    ensures
        size_sum(a + b) == size_sum(a) + size_sum(b),
    decreases b.len(),
{
    if b.len() == 0 {
        assert(a + b =~= a);
    } else {
        lemma_size_sum_concat(a, b.drop_last());
        assert((a + b).drop_last() =~= a + b.drop_last());
    }
}

proof fn lemma_size_sum_remove(s: Seq<FileTask>, i: int)
    requires
        0 <= i < s.len(),
    ensures
        size_sum(s.remove(i)) == size_sum(s) - s[i].size,
{
    let a = s.subrange(0, i);
    let b = s.subrange(i + 1, s.len() as int);
    assert(s =~= a + (seq![s[i]] + b));
    assert(s.remove(i) =~= a + b);
    let one = seq![s[i]];
    assert(one.drop_last() =~= Seq::<FileTask>::empty());
    assert(size_sum(one.drop_last()) == 0);
    assert(one.last() == s[i]);
    assert(size_sum(one) == s[i].size);
    lemma_size_sum_concat(a, one + b);
    lemma_size_sum_concat(one, b);
    lemma_size_sum_concat(a, b);
}

proof fn lemma_size_sum_insert(s: Seq<FileTask>, i: int, x: FileTask)
    requires
        0 <= i <= s.len(),
    ensures
        size_sum(s.insert(i, x)) == size_sum(s) + x.size,
{
    let t = s.insert(i, x);
    assert(t.remove(i) =~= s);
    lemma_size_sum_remove(t, i);
}

/// Moving task `i` of a list whose first `i` tasks are arranged stably in
/// front of those that follow, to position `p`, past tasks that are all
/// smaller, keeps the arrangement stable.
proof fn lemma_stable_step(o: Seq<FileTask>, s0: Seq<FileTask>, perm0: Seq<int>, i: int, p: int)
    requires
        stable_arrangement(o, s0, perm0),
        0 <= p <= i < s0.len(),
        forall|k: int| i <= k < s0.len() ==> perm0[k] == k,
        forall|k: int| 0 <= k < i ==> perm0[k] < i,
        forall|k: int| p <= k < i ==> s0[k].size < s0[i].size,
    ensures
        ({
            let s2 = s0.remove(i).insert(p, s0[i]);
            let perm2 = perm0.remove(i).insert(p, i);
            &&& stable_arrangement(o, s2, perm2)
            &&& forall|k: int| i + 1 <= k < s0.len() ==> perm2[k] == k
            &&& forall|k: int| 0 <= k < i + 1 ==> perm2[k] < i + 1
        }),
{
    let s2 = s0.remove(i).insert(p, s0[i]);
    let perm2 = perm0.remove(i).insert(p, i);
    assert forall|k: int| 0 <= k < s2.len() implies 0 <= #[trigger] perm2[k] < o.len() && s2[k]
        == o[perm2[k]] by {
        if k < p {
            assert(s2[k] == s0[k] && perm2[k] == perm0[k]);
        } else if k == p {
            assert(perm2[k] == i && s2[k] == s0[i]);
        } else if k <= i {
            assert(s2[k] == s0[k - 1] && perm2[k] == perm0[k - 1]);
        } else {
            assert(s2[k] == s0[k] && perm2[k] == perm0[k]);
        }
    }
    assert forall|a: int, b: int| 0 <= a < b < s2.len() implies perm2[a] != perm2[b] by {
        if a < p && b < p {
            assert(perm2[a] == perm0[a] && perm2[b] == perm0[b]);
        } else if a < p && b == p {
            assert(perm2[a] == perm0[a]);
        } else if a < p && b <= i {
            assert(perm2[a] == perm0[a] && perm2[b] == perm0[b - 1]);
        } else if a < p {
            assert(perm2[a] == perm0[a] && perm2[b] == b);
        } else if a == p && b <= i {
            assert(perm2[b] == perm0[b - 1]);
        } else if a == p {
            assert(perm2[b] == b);
        } else if b <= i {
            assert(perm2[a] == perm0[a - 1] && perm2[b] == perm0[b - 1]);
        } else if a <= i {
            assert(perm2[a] == perm0[a - 1] && perm2[b] == b);
        } else {
            assert(perm2[a] == perm0[a] && perm2[b] == perm0[b]);
        }
    }
    assert forall|a: int, b: int| 0 <= a < b < s2.len() && s2[a].size == s2[b].size implies perm2[a]
        < perm2[b] by {
        if a < p && b < p {
            assert(s2[a] == s0[a] && s2[b] == s0[b]);
            assert(perm2[a] == perm0[a] && perm2[b] == perm0[b]);
        } else if a < p && b == p {
            assert(perm2[a] == perm0[a]);
        } else if a < p && b <= i {
            assert(perm2[a] == perm0[a] && perm2[b] == perm0[b - 1]);
        } else if a < p {
            assert(perm2[a] == perm0[a] && perm2[b] == b);
        } else if a == p && b <= i {
            assert(s2[b] == s0[b - 1]);
        } else if a == p {
            assert(perm2[b] == b);
        } else if b <= i {
            assert(s2[a] == s0[a - 1] && s2[b] == s0[b - 1]);
            assert(perm2[a] == perm0[a - 1] && perm2[b] == perm0[b - 1]);
        } else if a <= i {
            assert(perm2[a] == perm0[a - 1] && perm2[b] == b);
        } else {
            assert(s2[a] == s0[a] && s2[b] == s0[b]);
            assert(perm2[a] == perm0[a] && perm2[b] == perm0[b]);
        }
    }
    assert forall|k: int| i + 1 <= k < s0.len() implies perm2[k] == k by {
        assert(perm2[k] == perm0[k]);
    }
    assert forall|k: int| 0 <= k < i + 1 implies perm2[k] < i + 1 by {
        if k < p {
            assert(perm2[k] == perm0[k]);
        } else if k > p {
            assert(perm2[k] == perm0[k - 1]);
        }
    }
}

impl CopyPlan {
    /// The totals agree with the file list.
    pub open spec fn wf(&self) -> bool {
        &&& self.total_size == size_sum(self.files@)
        &&& self.total_files == self.files@.len()
    }

    pub fn new() -> (r: Self)
        ensures
            r.wf(),
            r.files@.len() == 0,
            r.directories@.len() == 0,
    {
        CopyPlan { files: Vec::new(), directories: Vec::new(), total_size: 0, total_files: 0 }
    }

    /// Appends one file transfer and counts it in the totals.
    pub fn add_file(&mut self, source: String, destination: String, size: u64)
        requires
            old(self).wf(),
            old(self).total_size + size <= u64::MAX,
            old(self).total_files < usize::MAX,
        ensures
            final(self).wf(),
            final(self).files@ == old(self).files@.push(
                FileTask { source: source, destination: destination, size: size },
            ),
            final(self).directories@ == old(self).directories@,
            final(self).total_size == old(self).total_size + size,
            final(self).total_files == old(self).total_files + 1,
    {
        let ghost before = self.files@;
        self.files.push(FileTask { source, destination, size });
        assert(self.files@.drop_last() =~= before);
        self.total_size = self.total_size + size;
        self.total_files = self.total_files + 1;
    }

    /// Appends one directory to create.
    pub fn add_directory(&mut self, path: String)
        ensures
            final(self).directories@ == old(self).directories@.push(path),
            final(self).files@ == old(self).files@,
            final(self).total_size == old(self).total_size,
            final(self).total_files == old(self).total_files,
    {
        self.directories.push(path);
    }

    /// Moves every task and directory of `other` to the end of this plan.
    pub fn absorb(&mut self, other: CopyPlan)
        requires
            old(self).wf(),
            other.wf(),
            old(self).total_size + other.total_size <= u64::MAX,
            old(self).total_files + other.total_files <= usize::MAX,
        ensures
            final(self).wf(),
            final(self).files@ == old(self).files@ + other.files@,
            final(self).directories@ == old(self).directories@ + other.directories@,
            final(self).total_size == old(self).total_size + other.total_size,
            final(self).total_files == old(self).total_files + other.total_files,
    {
        let CopyPlan { files, directories, total_size, total_files } = other;
        let mut files = files;
        let mut directories = directories;
        proof {
            lemma_size_sum_concat(self.files@, files@);
        }
        self.files.append(&mut files);
        self.directories.append(&mut directories);
        self.total_size = self.total_size + total_size;
        self.total_files = self.total_files + total_files;
    }

    /// Orders the file tasks by size, largest first, keeping tasks of equal
    /// size in their current order.
    pub fn sort_by_size_desc(&mut self)
        requires
            old(self).wf(),
        ensures
            final(self).wf(),
            final(self).files@.to_multiset() == old(self).files@.to_multiset(),
            sizes_non_increasing(final(self).files@),
            exists|perm: Seq<int>| stable_arrangement(old(self).files@, final(self).files@, perm),
            final(self).directories@ == old(self).directories@,
            final(self).total_size == old(self).total_size,
            final(self).total_files == old(self).total_files,
    {
        let n = self.files.len();
        let ghost mut perm: Seq<int> = Seq::new(n as nat, |k: int| k);
        let mut i: usize = 1;
        while i < n
            invariant
                n == self.files@.len(),
                1 <= i || n == 0,
                self.files@.to_multiset() == old(self).files@.to_multiset(),
                size_sum(self.files@) == size_sum(old(self).files@),
                self.directories@ == old(self).directories@,
                self.total_size == old(self).total_size,
                self.total_files == old(self).total_files,
                n == 0 || forall|a: int, b: int|
                    0 <= a < b < i && b < n ==> self.files@[a].size >= self.files@[b].size,
                stable_arrangement(old(self).files@, self.files@, perm),
                forall|k: int| i <= k < n ==> perm[k] == k,
                forall|k: int| 0 <= k < i && k < n ==> perm[k] < i,
            decreases n - i,
        {
            let ghost s0 = self.files@;
            let x = self.files.remove(i);
            proof {
                lemma_size_sum_remove(s0, i as int);
            }
            let mut p = i;
            while p > 0 && self.files[p - 1].size < x.size
                invariant
                    p <= i < n,
                    s0.len() == n,
                    self.files@ == s0.remove(i as int),
                    forall|k: int| p <= k < i ==> self.files@[k].size < x.size,
                decreases p,
            {
                p = p - 1;
            }
            let ghost s1 = self.files@;
            self.files.insert(p, x);
            proof {
                lemma_size_sum_insert(s1, p as int, x);
                let s2 = self.files@;
                let perm2 = perm.remove(i as int).insert(p as int, i as int);
                assert(x == s0[i as int]);
                assert forall|k: int| p <= k < i implies s0[k].size < s0[i as int].size by {
                    assert(s1[k] == s0[k]);
                }
                lemma_stable_step(old(self).files@, s0, perm, i as int, p as int);
                assert(s2 == s0.remove(i as int).insert(p as int, s0[i as int]));
                perm = perm2;
                assert forall|a: int, b: int|
                    0 <= a < b < i + 1 && b < n implies s2[a].size >= s2[b].size by {
                    if b < p {
                        assert(s2[a] == s0[a] && s2[b] == s0[b]);
                    } else if b == p {
                        assert(s2[a] == s0[a]);
                        assert(s1[p - 1] == s0[p - 1]);
                        assert(s0[a].size >= s0[p - 1].size || a == p - 1);
                    } else if a < p {
                        assert(s2[a] == s0[a]);
                        assert(s2[b] == s0[b - 1]);
                    } else if a == p {
                        assert(s2[b] == s1[b - 1]);
                    } else {
                        assert(s2[a] == s0[a - 1] && s2[b] == s0[b - 1]);
                    }
                }
            }
            i = i + 1;
        }
    }
}

} // verus!
