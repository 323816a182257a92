//! Building a copy plan by walking source trees.
//!
//! The walk keeps its own stack of directories still to list, so depth is
//! never limited by the call stack. Whoever drives it lists each directory
//! that `next_directory` names and hands every entry to `add_entry`; the walk
//! decides what the entry becomes in the plan.
use vstd::prelude::*;
use crate::error::CopyError;
use crate::exclude::{excluded_by, ExcludeMatcher};
use crate::paths::{
    file_name, final_name, is_component, join, join_path, lemma_parts_join, parts_prefix, path_parts,
    path_parts_of, prefix_of,
};
use crate::plan::{sizes_non_increasing, stable_arrangement, CopyPlan, FileTask};

verus! {

broadcast use vstd::seq_lib::group_to_multiset_ensures;

/// What a directory entry is, as far as planning cares.
#[derive(Clone, Copy, Debug, PartialEq, Eq, Structural)]
pub enum EntryKind {
    File,
    Directory,
    /// Device nodes, sockets, pipes and anything else that is neither.
    Other,
}

/// A directory that the walk has reached: where it is read from, where its
/// copy goes, and its path relative to the root it was reached from.
#[derive(Debug)]
pub struct PendingDir {
    pub source: String,
    pub destination: String,
    pub relative: String,
}

/// `base` followed by each of `names` in turn.
pub open spec fn descend(base: Seq<char>, names: Seq<Seq<char>>) -> Seq<char>
    decreases names.len(),
{
    if names.len() == 0 {
        base
    } else {
        join(descend(base, names.drop_last()), names.last())
    }
}

/// No step along `names`, from the first one down, is excluded by `pats`.
pub open spec fn clear_of(pats: Seq<Seq<char>>, names: Seq<Seq<char>>) -> bool {
    forall|k: int|
        1 <= k <= names.len() ==> !excluded_by(pats, #[trigger] descend(""@, names.subrange(0, k)))
}

/// `src` and `dest` lie along `names` below root `r` of `roots`, and no step
/// of the way is excluded.
pub open spec fn reached(
    src: Seq<char>,
    dest: Seq<char>,
    roots: Seq<(Seq<char>, Seq<char>)>,
    pats: Seq<Seq<char>>,
    r: int,
    names: Seq<Seq<char>>,
) -> bool {
    &&& 0 <= r < roots.len()
    &&& src == descend(roots[r].0, names)
    &&& dest == descend(roots[r].1, names)
    &&& clear_of(pats, names)
}

/// The task copies an entry reached from one of `roots`.
pub open spec fn task_reached(
    t: FileTask,
    roots: Seq<(Seq<char>, Seq<char>)>,
    pats: Seq<Seq<char>>,
) -> bool {
    exists|r: int, names: Seq<Seq<char>>| reached(t.source@, t.destination@, roots, pats, r, names)
}

/// The directory is the copy of one reached from one of `roots`.
pub open spec fn dir_reached(
    d: Seq<char>,
    roots: Seq<(Seq<char>, Seq<char>)>,
    pats: Seq<Seq<char>>,
) -> bool {
    exists|r: int, names: Seq<Seq<char>>|
        0 <= r < roots.len() && d == descend(roots[r].1, names) && clear_of(pats, names)
}

proof fn lemma_descend_push(base: Seq<char>, names: Seq<Seq<char>>, n: Seq<char>)
    ensures
        descend(base, names.push(n)) == join(descend(base, names), n),
{
    assert(names.push(n).drop_last() =~= names);
}

proof fn lemma_clear_push(pats: Seq<Seq<char>>, names: Seq<Seq<char>>, n: Seq<char>)
    requires
        clear_of(pats, names),
        !excluded_by(pats, descend(""@, names.push(n))),
    ensures
        clear_of(pats, names.push(n)),
{
    let m = names.push(n);
    assert forall|k: int| 1 <= k <= m.len() implies !excluded_by(
        pats,
        #[trigger] descend(""@, m.subrange(0, k)),
    ) by {
        if k <= names.len() {
            assert(m.subrange(0, k) =~= names.subrange(0, k));
        } else {
            assert(m.subrange(0, k) =~= m);
        }
    }
}

proof fn lemma_task_roots_grow(
    t: FileTask,
    roots: Seq<(Seq<char>, Seq<char>)>,
    pats: Seq<Seq<char>>,
    x: (Seq<char>, Seq<char>),
)
    requires
        task_reached(t, roots, pats),
    ensures
        task_reached(t, roots.push(x), pats),
{
    let (r, names) = choose|r: int, names: Seq<Seq<char>>|
        reached(t.source@, t.destination@, roots, pats, r, names);
    assert(reached(t.source@, t.destination@, roots.push(x), pats, r, names));
}

proof fn lemma_dir_roots_grow(
    d: Seq<char>,
    roots: Seq<(Seq<char>, Seq<char>)>,
    pats: Seq<Seq<char>>,
    x: (Seq<char>, Seq<char>),
)
    requires
        dir_reached(d, roots, pats),
    ensures
        dir_reached(d, roots.push(x), pats),
{
    let (r, names) = choose|r: int, names: Seq<Seq<char>>|
        0 <= r < roots.len() && d == descend(roots[r].1, names) && clear_of(pats, names);
    assert(0 <= r < roots.push(x).len() && d == descend(roots.push(x)[r].1, names) && clear_of(
        pats,
        names,
    ));
}

/// `t` lies strictly below `s`: same root, and the names of `s` begin those
/// of `t`.
pub open spec fn extends(t: (int, Seq<Seq<char>>), s: (int, Seq<Seq<char>>)) -> bool {
    t.0 == s.0 && s.1.len() < t.1.len() && t.1.subrange(0, s.1.len() as int) == s.1
}

/// `t` is claimed by a planned file, a listed directory or a pending one.
pub open spec fn in_any(
    f: Seq<(int, Seq<Seq<char>>)>,
    d: Seq<(int, Seq<Seq<char>>)>,
    st: Seq<(int, Seq<Seq<char>>)>,
    t: (int, Seq<Seq<char>>),
) -> bool {
    f.contains(t) || d.contains(t) || st.contains(t)
}

pub open spec fn no_dups<A>(s: Seq<A>) -> bool {
    forall|a: int, b: int| 0 <= a < b < s.len() ==> s[a] != s[b]
}

pub open spec fn all_components(ns: Seq<Seq<char>>) -> bool {
    forall|k: int| 0 <= k < ns.len() ==> is_component(#[trigger] ns[k])
}

/// The ways from the roots claimed by files `f`, listed directories `d` and
/// pending directories `st` are each claimed once; nothing lies below a
/// pending directory yet; below the directory being listed (`cur`) there is
/// only what its listing gave so far, named in `listed`.
pub open spec fn claims_ok(
    f: Seq<(int, Seq<Seq<char>>)>,
    d: Seq<(int, Seq<Seq<char>>)>,
    st: Seq<(int, Seq<Seq<char>>)>,
    cur: Option<(int, Seq<Seq<char>>)>,
    listed: Seq<Seq<char>>,
    nroots: int,
) -> bool {
    &&& forall|t: (int, Seq<Seq<char>>)|
        #[trigger] in_any(f, d, st, t) ==> 0 <= t.0 < nroots && all_components(t.1)
    &&& no_dups(f)
    &&& no_dups(d)
    &&& no_dups(st)
    &&& forall|t: (int, Seq<Seq<char>>)| #[trigger] f.contains(t) ==> !d.contains(t) && !st.contains(t)
    &&& forall|t: (int, Seq<Seq<char>>)| #[trigger] d.contains(t) ==> !st.contains(t)
    &&& forall|s: (int, Seq<Seq<char>>), t: (int, Seq<Seq<char>>)|
        #[trigger] st.contains(s) && #[trigger] in_any(f, d, st, t) ==> !extends(t, s)
    &&& cur matches Some(c) ==> {
        &&& d.len() > 0
        &&& d.last() == c
        &&& forall|t: (int, Seq<Seq<char>>)|
            #[trigger] in_any(f, d, st, t) && extends(t, c) ==> t.1.len() == c.1.len() + 1
                && listed.contains(t.1.last())
    }
}

proof fn lemma_push_no_dups<A>(s: Seq<A>, x: A)
    requires
        no_dups(s),
        !s.contains(x),
    ensures
        no_dups(s.push(x)),
{
    assert forall|a: int, b: int| 0 <= a < b < s.push(x).len() implies s.push(x)[a] != s.push(x)[b] by {
        if b == s.len() {
            assert(s.push(x)[a] == s[a]);
        } else {
            assert(s.push(x)[a] == s[a] && s.push(x)[b] == s[b]);
        }
    }
}

/// A new entry `name` below the directory being listed claims a way that
/// nothing claimed before, and may be planned as a file, queued as a
/// directory, or left out.
proof fn lemma_claims_entry(
    f: Seq<(int, Seq<Seq<char>>)>,
    d: Seq<(int, Seq<Seq<char>>)>,
    st: Seq<(int, Seq<Seq<char>>)>,
    c: (int, Seq<Seq<char>>),
    listed: Seq<Seq<char>>,
    nroots: int,
    name: Seq<char>,
)
    requires
        claims_ok(f, d, st, Some(c), listed, nroots),
        is_component(name),
        !listed.contains(name),
    ensures
        ({
            let n = (c.0, c.1.push(name));
            let l2 = listed.push(name);
            &&& !in_any(f, d, st, n)
            &&& 0 <= n.0 < nroots
            &&& all_components(n.1)
            &&& claims_ok(f, d, st, Some(c), l2, nroots)
            &&& claims_ok(f.push(n), d, st, Some(c), l2, nroots)
            &&& claims_ok(f, d, st.push(n), Some(c), l2, nroots)
        }),
{
    let n = (c.0, c.1.push(name));
    let l2 = listed.push(name);
    assert(d.contains(c)) by {
        assert(d[d.len() - 1] == c);
    }
    assert(in_any(f, d, st, c));
    assert(n.1.subrange(0, c.1.len() as int) =~= c.1);
    assert(extends(n, c));
    assert(n.1.last() == name);
    assert(!in_any(f, d, st, n));
    assert(all_components(n.1)) by {
        assert forall|k: int| 0 <= k < n.1.len() implies is_component(#[trigger] n.1[k]) by {
            if k < c.1.len() {
                assert(n.1[k] == c.1[k]);
            }
        }
    }
    assert(forall|x: Seq<char>| listed.contains(x) ==> l2.contains(x)) by {
        assert forall|x: Seq<char>| listed.contains(x) implies l2.contains(x) by {
            let k = choose|k: int| 0 <= k < listed.len() && listed[k] == x;
            assert(l2[k] == x);
        }
    }
    assert(l2.contains(name)) by {
        assert(l2[listed.len() as int] == name);
    }
    // No pending directory lies above the new way.
    assert forall|s: (int, Seq<Seq<char>>)| st.contains(s) implies !extends(n, s) by {
        if extends(n, s) {
            if s.1.len() == c.1.len() {
                assert(s.1 =~= c.1);
                assert(s == c);
            } else {
                assert(c.1.subrange(0, s.1.len() as int) =~= n.1.subrange(0, s.1.len() as int));
                assert(extends(c, s));
            }
        }
    }
    // Nothing claimed lies below the new way.
    assert forall|t: (int, Seq<Seq<char>>)| in_any(f, d, st, t) implies !extends(t, n) by {
        if extends(t, n) {
            assert(t.1.subrange(0, c.1.len() as int) =~= n.1.subrange(0, c.1.len() as int));
            assert(extends(t, c));
        }
    }
    let f2 = f.push(n);
    let st2 = st.push(n);
    lemma_push_no_dups(f, n);
    lemma_push_no_dups(st, n);
    assert forall|t: (int, Seq<Seq<char>>)| f2.contains(t) implies f.contains(t) || t == n by {
        let k = choose|k: int| 0 <= k < f2.len() && f2[k] == t;
        if k < f.len() {
            assert(f[k] == t);
        }
    }
    assert forall|t: (int, Seq<Seq<char>>)| st2.contains(t) implies st.contains(t) || t == n by {
        let k = choose|k: int| 0 <= k < st2.len() && st2[k] == t;
        if k < st.len() {
            assert(st[k] == t);
        }
    }
    assert forall|t: (int, Seq<Seq<char>>)| f.contains(t) implies f2.contains(t) by {
        let k = choose|k: int| 0 <= k < f.len() && f[k] == t;
        assert(f2[k] == t);
    }
    assert forall|t: (int, Seq<Seq<char>>)| st.contains(t) implies st2.contains(t) by {
        let k = choose|k: int| 0 <= k < st.len() && st[k] == t;
        assert(st2[k] == t);
    }
    assert(f2.contains(n)) by {
        assert(f2[f.len() as int] == n);
    }
    assert(st2.contains(n)) by {
        assert(st2[st.len() as int] == n);
    }
    assert forall|t: (int, Seq<Seq<char>>)| #[trigger] in_any(f2, d, st, t) implies in_any(f, d, st, t)
        || t == n by {}
    assert forall|t: (int, Seq<Seq<char>>)| #[trigger] in_any(f, d, st2, t) implies in_any(f, d, st, t)
        || t == n by {}
    assert forall|t: (int, Seq<Seq<char>>)| #[trigger] in_any(f, d, st, t) implies in_any(f2, d, st, t)
        && in_any(f, d, st2, t) by {}
    // the old claims carry over with the longer listing
    assert forall|t: (int, Seq<Seq<char>>)| #[trigger] in_any(f, d, st, t) && extends(t, c) implies t.1.len()
        == c.1.len() + 1 && l2.contains(t.1.last()) by {}
    assert(claims_ok(f, d, st, Some(c), l2, nroots));
    assert forall|t: (int, Seq<Seq<char>>)| #[trigger] in_any(f2, d, st, t) implies 0 <= t.0 < nroots
        && all_components(t.1) by {
        if t != n {
            assert(in_any(f, d, st, t));
        }
    }
    assert forall|t: (int, Seq<Seq<char>>)| #[trigger] f2.contains(t) implies !d.contains(t)
        && !st.contains(t) by {
        if t != n {
            assert(f.contains(t));
        }
    }
    assert forall|sd: (int, Seq<Seq<char>>), t: (int, Seq<Seq<char>>)|
        #[trigger] st.contains(sd) && #[trigger] in_any(f2, d, st, t) implies !extends(t, sd) by {
        if t != n {
            assert(in_any(f, d, st, t));
        }
    }
    assert forall|t: (int, Seq<Seq<char>>)| #[trigger] in_any(f2, d, st, t) && extends(t, c) implies t.1.len()
        == c.1.len() + 1 && l2.contains(t.1.last()) by {
        if t != n {
            assert(in_any(f, d, st, t));
        }
    }
    assert(claims_ok(f2, d, st, Some(c), l2, nroots));
    assert forall|t: (int, Seq<Seq<char>>)| #[trigger] in_any(f, d, st2, t) implies 0 <= t.0 < nroots
        && all_components(t.1) by {
        if t != n {
            assert(in_any(f, d, st, t));
        }
    }
    assert forall|t: (int, Seq<Seq<char>>)| #[trigger] f.contains(t) implies !d.contains(t)
        && !st2.contains(t) by {
        if st2.contains(t) && t != n {
            assert(st.contains(t));
        }
    }
    assert forall|t: (int, Seq<Seq<char>>)| #[trigger] d.contains(t) implies !st2.contains(t) by {
        if st2.contains(t) && t != n {
            assert(st.contains(t));
        }
    }
    assert forall|sd: (int, Seq<Seq<char>>), t: (int, Seq<Seq<char>>)|
        #[trigger] st2.contains(sd) && #[trigger] in_any(f, d, st2, t) implies !extends(t, sd) by {
        if sd == n {
            if t != n {
                assert(in_any(f, d, st, t));
            }
        } else {
            assert(st.contains(sd));
            if t != n {
                assert(in_any(f, d, st, t));
            }
        }
    }
    assert forall|t: (int, Seq<Seq<char>>)| #[trigger] in_any(f, d, st2, t) && extends(t, c) implies t.1.len()
        == c.1.len() + 1 && l2.contains(t.1.last()) by {
        if t != n {
            assert(in_any(f, d, st, t));
        }
    }
    assert(claims_ok(f, d, st2, Some(c), l2, nroots));
}

/// Taking the last pending directory to list keeps every way claimed once.
proof fn lemma_claims_pop(
    f: Seq<(int, Seq<Seq<char>>)>,
    d: Seq<(int, Seq<Seq<char>>)>,
    st: Seq<(int, Seq<Seq<char>>)>,
    cur: Option<(int, Seq<Seq<char>>)>,
    listed: Seq<Seq<char>>,
    nroots: int,
)
    requires
        claims_ok(f, d, st, cur, listed, nroots),
        st.len() > 0,
    ensures
        claims_ok(f, d.push(st.last()), st.drop_last(), Some(st.last()), Seq::empty(), nroots),
{
    let x = st.last();
    let d2 = d.push(x);
    let st2 = st.drop_last();
    assert(st.contains(x)) by {
        assert(st[st.len() - 1] == x);
    }
    assert forall|t: (int, Seq<Seq<char>>)| #[trigger] d2.contains(t) implies d.contains(t) || t == x by {
        let k = choose|k: int| 0 <= k < d2.len() && d2[k] == t;
        if k < d.len() {
            assert(d[k] == t);
        }
    }
    assert forall|t: (int, Seq<Seq<char>>)| #[trigger] st2.contains(t) implies st.contains(t) && t != x by {
        let k = choose|k: int| 0 <= k < st2.len() && st2[k] == t;
        assert(st[k] == t);
    }
    assert forall|t: (int, Seq<Seq<char>>)| #[trigger] d.contains(t) implies d2.contains(t) by {
        let k = choose|k: int| 0 <= k < d.len() && d[k] == t;
        assert(d2[k] == t);
    }
    assert(d2.contains(x)) by {
        assert(d2[d.len() as int] == x);
    }
    assert forall|t: (int, Seq<Seq<char>>)| #[trigger] st.contains(t) && t != x implies st2.contains(t) by {
        let k = choose|k: int| 0 <= k < st.len() && st[k] == t;
        assert(k != st.len() - 1);
        assert(st2[k] == t);
    }
    assert forall|t: (int, Seq<Seq<char>>)| #[trigger] in_any(f, d2, st2, t) <==> in_any(f, d, st, t) by {
        if in_any(f, d, st, t) && st.contains(t) && t != x {
            assert(st2.contains(t));
        }
    }
    lemma_push_no_dups(d, x);
    assert(no_dups(st2)) by {
        assert forall|a: int, b: int| 0 <= a < b < st2.len() implies st2[a] != st2[b] by {
            assert(st2[a] == st[a] && st2[b] == st[b]);
        }
    }
    assert forall|t: (int, Seq<Seq<char>>)| #[trigger] f.contains(t) implies !d2.contains(t)
        && !st2.contains(t) by {}
    assert forall|t: (int, Seq<Seq<char>>)| #[trigger] d2.contains(t) implies !st2.contains(t) by {}
    assert forall|sd: (int, Seq<Seq<char>>), t: (int, Seq<Seq<char>>)|
        #[trigger] st2.contains(sd) && #[trigger] in_any(f, d2, st2, t) implies !extends(t, sd) by {
        assert(st.contains(sd));
        assert(in_any(f, d, st, t));
    }
    assert forall|t: (int, Seq<Seq<char>>)| #[trigger] in_any(f, d2, st2, t) && extends(t, x) implies t.1.len()
        == x.1.len() + 1 && Seq::<Seq<char>>::empty().contains(t.1.last()) by {
        assert(in_any(f, d, st, t));
    }
    assert forall|t: (int, Seq<Seq<char>>)| #[trigger] in_any(f, d2, st2, t) implies 0 <= t.0 < nroots
        && all_components(t.1) by {
        assert(in_any(f, d, st, t));
    }
}

/// A new root claims a way of its own.
proof fn lemma_claims_root(
    f: Seq<(int, Seq<Seq<char>>)>,
    d: Seq<(int, Seq<Seq<char>>)>,
    st: Seq<(int, Seq<Seq<char>>)>,
    cur: Option<(int, Seq<Seq<char>>)>,
    listed: Seq<Seq<char>>,
    nroots: int,
)
    requires
        claims_ok(f, d, st, cur, listed, nroots),
        nroots >= 0,
    ensures
        ({
            let n = (nroots, Seq::<Seq<char>>::empty());
            &&& claims_ok(f, d, st, cur, listed, nroots + 1)
            &&& claims_ok(f.push(n), d, st, cur, listed, nroots + 1)
            &&& claims_ok(f, d, st.push(n), cur, listed, nroots + 1)
        }),
{
    let n = (nroots, Seq::<Seq<char>>::empty());
    let f2 = f.push(n);
    let st2 = st.push(n);
    assert(!in_any(f, d, st, n));
    assert(all_components(n.1));
    lemma_push_no_dups(f, n);
    lemma_push_no_dups(st, n);
    assert forall|t: (int, Seq<Seq<char>>)| #[trigger] f2.contains(t) implies f.contains(t) || t == n by {
        let k = choose|k: int| 0 <= k < f2.len() && f2[k] == t;
        if k < f.len() {
            assert(f[k] == t);
        }
    }
    assert forall|t: (int, Seq<Seq<char>>)| #[trigger] st2.contains(t) implies st.contains(t) || t == n by {
        let k = choose|k: int| 0 <= k < st2.len() && st2[k] == t;
        if k < st.len() {
            assert(st[k] == t);
        }
    }
    assert forall|t: (int, Seq<Seq<char>>)| #[trigger] f.contains(t) implies f2.contains(t) by {
        let k = choose|k: int| 0 <= k < f.len() && f[k] == t;
        assert(f2[k] == t);
    }
    assert forall|t: (int, Seq<Seq<char>>)| #[trigger] st.contains(t) implies st2.contains(t) by {
        let k = choose|k: int| 0 <= k < st.len() && st[k] == t;
        assert(st2[k] == t);
    }
    assert(f2.contains(n)) by {
        assert(f2[f.len() as int] == n);
    }
    assert(st2.contains(n)) by {
        assert(st2[st.len() as int] == n);
    }
    assert forall|t: (int, Seq<Seq<char>>)| #[trigger] in_any(f2, d, st, t) implies in_any(f, d, st, t)
        || t == n by {}
    assert forall|t: (int, Seq<Seq<char>>)| #[trigger] in_any(f, d, st2, t) implies in_any(f, d, st, t)
        || t == n by {}
    assert forall|t: (int, Seq<Seq<char>>)| #[trigger] in_any(f2, d, st, t) implies 0 <= t.0 < nroots + 1
        && all_components(t.1) by {
        if t != n {
            assert(in_any(f, d, st, t));
        }
    }
    assert forall|t: (int, Seq<Seq<char>>)| #[trigger] in_any(f, d, st2, t) implies 0 <= t.0 < nroots + 1
        && all_components(t.1) by {
        if t != n {
            assert(in_any(f, d, st, t));
        }
    }
    assert forall|t: (int, Seq<Seq<char>>)| #[trigger] f2.contains(t) implies !d.contains(t)
        && !st.contains(t) by {
        if t != n {
            assert(f.contains(t));
        }
    }
    assert forall|t: (int, Seq<Seq<char>>)| #[trigger] f.contains(t) implies !d.contains(t)
        && !st2.contains(t) by {
        if st2.contains(t) && t != n {
            assert(st.contains(t));
        }
    }
    assert forall|t: (int, Seq<Seq<char>>)| #[trigger] d.contains(t) implies !st2.contains(t) by {
        if st2.contains(t) && t != n {
            assert(st.contains(t));
        }
    }
    assert forall|sd: (int, Seq<Seq<char>>), t: (int, Seq<Seq<char>>)|
        #[trigger] st.contains(sd) && #[trigger] in_any(f2, d, st, t) implies !extends(t, sd) by {
        if t != n {
            assert(in_any(f, d, st, t));
        } else {
            assert(in_any(f, d, st, sd));
        }
    }
    assert forall|sd: (int, Seq<Seq<char>>), t: (int, Seq<Seq<char>>)|
        #[trigger] st2.contains(sd) && #[trigger] in_any(f, d, st2, t) implies !extends(t, sd) by {
        if sd == n {
            if t != n {
                assert(in_any(f, d, st, t));
            }
        } else {
            assert(st.contains(sd));
            if t != n {
                assert(in_any(f, d, st, t));
            } else {
                assert(in_any(f, d, st, sd));
            }
        }
    }
    if cur is Some {
        let c = cur->Some_0;
        assert(d.contains(c)) by {
            assert(d[d.len() - 1] == c);
        }
        assert(in_any(f, d, st, c));
        assert forall|t: (int, Seq<Seq<char>>)| #[trigger] in_any(f2, d, st, t) && extends(t, c) implies t.1.len()
            == c.1.len() + 1 && listed.contains(t.1.last()) by {
            if t != n {
                assert(in_any(f, d, st, t));
            }
        }
        assert forall|t: (int, Seq<Seq<char>>)| #[trigger] in_any(f, d, st2, t) && extends(t, c) implies t.1.len()
            == c.1.len() + 1 && listed.contains(t.1.last()) by {
            if t != n {
                assert(in_any(f, d, st, t));
            }
        }
    }
}

/// No root's destination is, or lies inside, another root's destination.
pub open spec fn roots_apart(roots: Seq<(Seq<char>, Seq<char>)>) -> bool {
    forall|a: int, b: int|
        0 <= a < roots.len() && 0 <= b < roots.len() && a != b ==> !prefix_of(
            path_parts(#[trigger] roots[a].1),
            path_parts(#[trigger] roots[b].1),
        )
}

/// `dest` is, contains, or lies inside the destination of one of `roots`.
pub open spec fn overlaps_root(roots: Seq<(Seq<char>, Seq<char>)>, dest: Seq<char>) -> bool {
    exists|k: int|
        0 <= k < roots.len() && (prefix_of(path_parts(dest), path_parts(#[trigger] roots[k].1))
            || prefix_of(path_parts(roots[k].1), path_parts(dest)))
}

proof fn lemma_descend_parts(b: Seq<char>, names: Seq<Seq<char>>)
    requires
        all_components(names),
    ensures
        path_parts(descend(b, names)) == path_parts(b) + names,
    decreases names.len(),
{
    if names.len() == 0 {
        assert(path_parts(b) + names =~= path_parts(b));
    } else {
        let front = names.drop_last();
        assert(all_components(front)) by {
            assert forall|k: int| 0 <= k < front.len() implies is_component(#[trigger] front[k]) by {
                assert(front[k] == names[k]);
            }
        }
        assert(is_component(names[names.len() - 1]));
        lemma_descend_parts(b, front);
        lemma_parts_join(descend(b, front), names.last());
        assert((path_parts(b) + front).push(names.last()) =~= path_parts(b) + names);
    }
}

/// Two different claimed ways from roots that lie apart end at different
/// destinations.
proof fn lemma_dests_differ(
    roots: Seq<(Seq<char>, Seq<char>)>,
    t1: (int, Seq<Seq<char>>),
    t2: (int, Seq<Seq<char>>),
)
    requires
        roots_apart(roots),
        t1 != t2,
        0 <= t1.0 < roots.len(),
        0 <= t2.0 < roots.len(),
        all_components(t1.1),
        all_components(t2.1),
    ensures
        descend(roots[t1.0].1, t1.1) != descend(roots[t2.0].1, t2.1),
{
    let p1 = path_parts(roots[t1.0].1);
    let p2 = path_parts(roots[t2.0].1);
    lemma_descend_parts(roots[t1.0].1, t1.1);
    lemma_descend_parts(roots[t2.0].1, t2.1);
    if descend(roots[t1.0].1, t1.1) == descend(roots[t2.0].1, t2.1) {
        let q = p1 + t1.1;
        assert(q == p2 + t2.1);
        if t1.0 == t2.0 {
            assert(t1.1 =~= q.subrange(p1.len() as int, q.len() as int));
            assert(t2.1 =~= (p2 + t2.1).subrange(p2.len() as int, q.len() as int));
            assert(t1 == t2);
        } else if p1.len() <= p2.len() {
            assert(q.subrange(0, p1.len() as int) =~= p1);
            assert((p2 + t2.1).subrange(0, p1.len() as int) =~= p2.subrange(0, p1.len() as int));
            assert(prefix_of(p1, p2));
        } else {
            assert((p2 + t2.1).subrange(0, p2.len() as int) =~= p2);
            assert(q.subrange(0, p2.len() as int) =~= p1.subrange(0, p2.len() as int));
            assert(prefix_of(p2, p1));
        }
    }
}

/// A walk over one or more source roots that fills a copy plan.
pub struct PlanWalk {
    plan: CopyPlan,
    stack: Vec<PendingDir>,
    current: Option<PendingDir>,
    matcher: ExcludeMatcher,
    /// The components of each root's destination.
    root_parts: Vec<Vec<String>>,
    roots: Ghost<Seq<(Seq<char>, Seq<char>)>>,
    trail: Ghost<Seq<(int, Seq<Seq<char>>)>>,
    current_trail: Ghost<(int, Seq<Seq<char>>)>,
    file_trails: Ghost<Seq<(int, Seq<Seq<char>>)>>,
    dir_trails: Ghost<Seq<(int, Seq<Seq<char>>)>>,
    listed: Ghost<Seq<Seq<char>>>,
}

impl PlanWalk {
    /// The plan built so far.
    pub closed spec fn planned(&self) -> CopyPlan {
        self.plan
    }

    /// The roots added so far: each source with the destination of its copy.
    pub closed spec fn roots(&self) -> Seq<(Seq<char>, Seq<char>)> {
        self.roots@
    }

    /// The exclusion patterns in force.
    pub closed spec fn patterns(&self) -> Seq<Seq<char>> {
        self.matcher@
    }

    /// How many reached directories are still to be listed.
    pub closed spec fn pending(&self) -> nat {
        self.stack@.len()
    }

    /// The reached directories still to be listed, as source and destination,
    /// the one listed next last.
    pub closed spec fn pending_dirs(&self) -> Seq<(Seq<char>, Seq<char>)> {
        self.stack@.map_values(|d: PendingDir| (d.source@, d.destination@))
    }

    /// The directory being listed: source, destination, relative path.
    pub closed spec fn listing(&self) -> Option<(Seq<char>, Seq<char>, Seq<char>)> {
        match self.current {
            Some(c) => Some((c.source@, c.destination@, c.relative@)),
            None => None,
        }
    }

    /// The names handed over so far from the directory being listed.
    pub closed spec fn listed(&self) -> Seq<Seq<char>> {
        self.listed@
    }

    closed spec fn cur_trail(&self) -> Option<(int, Seq<Seq<char>>)> {
        match self.current {
            Some(_) => Some(self.current_trail@),
            None => None,
        }
    }

    pub closed spec fn wf(&self) -> bool {
        let pats = self.matcher@;
        let roots = self.roots@;
        &&& self.file_trails@.len() == self.plan.files@.len()
        &&& forall|i: int|
            0 <= i < self.plan.files@.len() ==> (#[trigger] self.plan.files@[i]).destination@
                == descend(roots[self.file_trails@[i].0].1, self.file_trails@[i].1)
        &&& self.dir_trails@.len() == self.plan.directories@.len()
        &&& forall|i: int|
            0 <= i < self.plan.directories@.len() ==> (#[trigger] self.plan.directories@[i])@
                == descend(roots[self.dir_trails@[i].0].1, self.dir_trails@[i].1)
        &&& claims_ok(
            self.file_trails@,
            self.dir_trails@,
            self.trail@,
            self.cur_trail(),
            self.listed@,
            roots.len() as int,
        )
        &&& roots_apart(roots)
        &&& self.root_parts@.len() == roots.len()
        &&& forall|k: int|
            0 <= k < roots.len() ==> (#[trigger] self.root_parts@[k]).deep_view() == path_parts(
                roots[k].1,
            )
        &&& self.plan.wf()
        &&& self.stack@.len() == self.trail@.len()
        &&& forall|j: int|
            0 <= j < self.stack@.len() ==> {
                let d = #[trigger] self.stack@[j];
                &&& reached(
                    d.source@,
                    d.destination@,
                    roots,
                    pats,
                    self.trail@[j].0,
                    self.trail@[j].1,
                )
                &&& d.relative@ == descend(""@, self.trail@[j].1)
            }
        &&& self.current matches Some(c) ==> {
            &&& reached(
                c.source@,
                c.destination@,
                roots,
                pats,
                self.current_trail@.0,
                self.current_trail@.1,
            )
            &&& c.relative@ == descend(""@, self.current_trail@.1)
        }
        &&& forall|i: int|
            0 <= i < self.plan.files@.len() ==> task_reached(
                #[trigger] self.plan.files@[i],
                roots,
                pats,
            )
        &&& forall|i: int|
            0 <= i < self.plan.directories@.len() ==> dir_reached(
                #[trigger] self.plan.directories@[i]@,
                roots,
                pats,
            )
    }

    /// The totals of the plan being built agree with its file list.
    pub proof fn lemma_planned_wf(&self)
        requires
            self.wf(),
        ensures
            self.planned().wf(),
    {
    }

    /// A walk with no root yet, which leaves out what `matcher` excludes.
    pub fn new(matcher: ExcludeMatcher) -> (r: Self)
        ensures
            r.wf(),
            r.planned().files@.len() == 0,
            r.planned().directories@.len() == 0,
            r.roots().len() == 0,
            r.patterns() == matcher@,
            r.pending() == 0,
            r.listing() is None,
    {
        PlanWalk {
            plan: CopyPlan::new(),
            stack: Vec::new(),
            current: None,
            matcher,
            root_parts: Vec::new(),
            roots: Ghost(Seq::empty()),
            trail: Ghost(Seq::empty()),
            current_trail: Ghost((0, Seq::empty())),
            file_trails: Ghost(Seq::empty()),
            dir_trails: Ghost(Seq::empty()),
            listed: Ghost(Seq::empty()),
        }
    }

    /// The number of bytes planned so far.
    pub fn total_size(&self) -> (r: u64)
        ensures
            r == self.planned().total_size,
    {
        self.plan.total_size
    }

    /// The number of files planned so far.
    pub fn total_files(&self) -> (r: usize)
        ensures
            r == self.planned().total_files,
    {
        self.plan.total_files
    }

    /// Adds a source root copied to `destination`: a file becomes one task, a
    /// directory is queued for listing, anything else is left out. A
    /// destination that is, contains, or lies inside that of an earlier root
    /// is refused and the walk is left as it was, so no two tasks ever share
    /// a destination.
    pub fn add_root(&mut self, source: String, destination: String, kind: EntryKind, size: u64) -> (r:
        Result<(), CopyError>)
        requires
            old(self).wf(),
            kind is File ==> old(self).planned().total_size + size <= u64::MAX,
            kind is File ==> old(self).planned().total_files < usize::MAX,
        ensures
            final(self).wf(),
            r is Err <==> overlaps_root(old(self).roots(), destination@),
            r matches Err(e) ==> (e matches CopyError::InvalidDestination(p) && p@ == destination@),
            final(self).patterns() == old(self).patterns(),
            final(self).listing() == old(self).listing(),
            final(self).listed() == old(self).listed(),
            final(self).planned().directories@ == old(self).planned().directories@,
            r is Err ==> {
                &&& final(self).roots() == old(self).roots()
                &&& final(self).planned().files@ == old(self).planned().files@
                &&& final(self).pending() == old(self).pending()
            },
            r is Ok ==> {
                &&& final(self).roots() == old(self).roots().push((source@, destination@))
                &&& kind is File ==> final(self).planned().files@ == old(self).planned().files@.push(
                    FileTask { source: source, destination: destination, size: size },
                )
                &&& !(kind is File) ==> final(self).planned().files@ == old(self).planned().files@
                &&& kind is Directory ==> final(self).pending_dirs() == old(self).pending_dirs().push(
                    (source@, destination@),
                )
                &&& !(kind is Directory) ==> final(self).pending_dirs() == old(self).pending_dirs()
            },
    {
        let parts = path_parts_of(destination.as_str());
        let mut k: usize = 0;
        while k < self.root_parts.len()
            invariant
                self.wf(),
                self == old(self),
                parts.deep_view() == path_parts(destination@),
                k <= self.root_parts@.len(),
                forall|q: int|
                    0 <= q < k ==> !(prefix_of(path_parts(destination@), path_parts(
                        #[trigger] self.roots@[q].1,
                    )) || prefix_of(path_parts(self.roots@[q].1), path_parts(destination@))),
            decreases self.root_parts@.len() - k,
        {
            if parts_prefix(&parts, &self.root_parts[k]) || parts_prefix(&self.root_parts[k], &parts) {
                return Err(CopyError::InvalidDestination(destination));
            }
            k = k + 1;
        }
        self.push_root(source, destination, kind, size, parts);
        Ok(())
    }

    /// Adds a root whose destination lies apart from every earlier root's.
    fn push_root(
        &mut self,
        source: String,
        destination: String,
        kind: EntryKind,
        size: u64,
        parts: Vec<String>,
    )
        requires
            old(self).wf(),
            !overlaps_root(old(self).roots(), destination@),
            parts.deep_view() == path_parts(destination@),
            kind is File ==> old(self).planned().total_size + size <= u64::MAX,
            kind is File ==> old(self).planned().total_files < usize::MAX,
        ensures
            final(self).wf(),
            final(self).listed() == old(self).listed(),
            final(self).roots() == old(self).roots().push((source@, destination@)),
            final(self).patterns() == old(self).patterns(),
            final(self).listing() == old(self).listing(),
            final(self).planned().directories@ == old(self).planned().directories@,
            kind is File ==> final(self).planned().files@ == old(self).planned().files@.push(
                FileTask { source: source, destination: destination, size: size },
            ),
            !(kind is File) ==> final(self).planned().files@ == old(self).planned().files@,
            kind is Directory ==> final(self).pending_dirs() == old(self).pending_dirs().push(
                (source@, destination@),
            ),
            !(kind is Directory) ==> final(self).pending_dirs() == old(self).pending_dirs(),
    {
        let ghost pats = self.matcher@;
        let ghost old_roots = self.roots@;
        let ghost x = (source@, destination@);
        let ghost r = old_roots.len() as int;
        let ghost before = self.plan.files@;
        let ghost roots = old_roots.push(x);
        let ghost ft0 = self.file_trails@;
        let ghost dt0 = self.dir_trails@;
        let ghost st0 = self.trail@;
        let ghost rp0 = self.root_parts@;
        let ghost nt = (r, Seq::<Seq<char>>::empty());
        proof {
            assert(clear_of(pats, Seq::<Seq<char>>::empty()));
            assert(reached(source@, destination@, roots, pats, r, Seq::empty()));
            lemma_claims_root(ft0, dt0, st0, self.cur_trail(), self.listed@, r);
        }
        self.root_parts.push(parts);
        match kind {
            EntryKind::File => {
                self.plan.add_file(source, destination, size);
                proof {
                    self.file_trails@ = ft0.push(nt);
                }
            },
            EntryKind::Directory => {
                let relative = String::new();
                let ghost sv = source@;
                let ghost dv = destination@;
                self.stack.push(PendingDir { source, destination, relative });
                assert(self.stack@.map_values(|x: PendingDir| (x.source@, x.destination@))
                    =~= old(self).stack@.map_values(|x: PendingDir| (x.source@, x.destination@)).push(
                    (sv, dv),
                ));
                proof {
                    self.trail@ = self.trail@.push((r, Seq::empty()));
                }
            },
            EntryKind::Other => {},
        }
        proof {
            self.roots@ = roots;
            assert(roots_apart(roots)) by {
                assert forall|a: int, b: int|
                    0 <= a < roots.len() && 0 <= b < roots.len() && a != b implies !prefix_of(
                    path_parts(#[trigger] roots[a].1),
                    path_parts(#[trigger] roots[b].1),
                ) by {
                    if a == r {
                        assert(!(prefix_of(path_parts(destination@), path_parts(old_roots[b].1))
                            || prefix_of(path_parts(old_roots[b].1), path_parts(destination@))));
                    } else if b == r {
                        assert(!(prefix_of(path_parts(destination@), path_parts(old_roots[a].1))
                            || prefix_of(path_parts(old_roots[a].1), path_parts(destination@))));
                    } else {
                        assert(roots[a] == old_roots[a] && roots[b] == old_roots[b]);
                    }
                }
            }
            assert forall|k: int| 0 <= k < roots.len() implies (
            #[trigger] self.root_parts@[k]).deep_view() == path_parts(roots[k].1) by {
                if k < r {
                    assert(self.root_parts@[k] == rp0[k]);
                }
            }
            assert forall|i: int| 0 <= i < self.plan.files@.len() implies (
            #[trigger] self.plan.files@[i]).destination@ == descend(
                roots[self.file_trails@[i].0].1,
                self.file_trails@[i].1,
            ) by {
                if i < before.len() {
                    assert(self.plan.files@[i] == before[i]);
                    assert(self.file_trails@[i] == ft0[i]);
                    assert(in_any(ft0, dt0, st0, ft0[i])) by {
                        assert(ft0.contains(ft0[i]));
                    }
                }
            }
            assert forall|i: int| 0 <= i < self.plan.directories@.len() implies (
            #[trigger] self.plan.directories@[i])@ == descend(
                roots[self.dir_trails@[i].0].1,
                self.dir_trails@[i].1,
            ) by {
                assert(in_any(ft0, dt0, st0, dt0[i])) by {
                    assert(dt0.contains(dt0[i]));
                }
            }
            assert forall|i: int| 0 <= i < self.plan.files@.len() implies task_reached(
                #[trigger] self.plan.files@[i],
                roots,
                pats,
            ) by {
                if i < before.len() {
                    assert(self.plan.files@[i] == before[i]);
                    lemma_task_roots_grow(before[i], old_roots, pats, x);
                } else {
                    let t = self.plan.files@[i];
                    assert(reached(t.source@, t.destination@, roots, pats, r, Seq::empty()));
                }
            }
            assert forall|i: int| 0 <= i < self.plan.directories@.len() implies dir_reached(
                #[trigger] self.plan.directories@[i]@,
                roots,
                pats,
            ) by {
                lemma_dir_roots_grow(self.plan.directories@[i]@, old_roots, pats, x);
            }
            assert forall|j: int| 0 <= j < self.stack@.len() implies reached(
                (#[trigger] self.stack@[j]).source@,
                self.stack@[j].destination@,
                roots,
                pats,
                self.trail@[j].0,
                self.trail@[j].1,
            ) && self.stack@[j].relative@ == descend(""@, self.trail@[j].1) by {
                reveal_strlit("");
            }
            if self.current is Some {
                let c = self.current->Some_0;
                assert(reached(
                    c.source@,
                    c.destination@,
                    roots,
                    pats,
                    self.current_trail@.0,
                    self.current_trail@.1,
                ));
            }
        }
    }

    /// Takes the next directory to list, records it as a directory to
    /// create, and returns the path to read its entries from; `None` when
    /// every reached directory has been taken.
    pub fn next_directory(&mut self) -> (r: Option<String>)
        requires
            old(self).wf(),
        ensures
            final(self).wf(),
            final(self).roots() == old(self).roots(),
            final(self).patterns() == old(self).patterns(),
            final(self).planned().files@ == old(self).planned().files@,
            old(self).pending() == 0 <==> r is None,
            r is None ==> final(self).planned().directories@ == old(self).planned().directories@,
            r is None ==> final(self).listing() is None,
            r is None ==> final(self).pending() == 0,
            r matches Some(s) ==> {
                &&& final(self).listing() matches Some(c)
                &&& c.0 == s@
                &&& final(self).planned().directories@.map_values(|d: String| d@)
                    == old(self).planned().directories@.map_values(|d: String| d@).push(c.1)
                &&& final(self).pending() == old(self).pending() - 1
                &&& (c.0, c.1) == old(self).pending_dirs().last()
                &&& final(self).pending_dirs() == old(self).pending_dirs().drop_last()
            },
    {
        let ghost pats = self.matcher@;
        let ghost ft0 = self.file_trails@;
        let ghost dt0 = self.dir_trails@;
        let ghost st0 = self.trail@;
        let ghost cur0 = self.cur_trail();
        let ghost n = self.roots@.len() as int;
        match self.stack.pop() {
            None => {
                self.current = None;
                proof {
                    assert(claims_ok(ft0, dt0, st0, None, self.listed@, n));
                }
                None
            },
            Some(d) => {
                let ghost t = self.trail@.last();
                proof {
                    assert(self.trail@[self.trail@.len() - 1] == t);
                    lemma_claims_pop(ft0, dt0, st0, cur0, self.listed@, n);
                    self.trail@ = self.trail@.drop_last();
                    self.current_trail@ = t;
                    self.dir_trails@ = dt0.push(t);
                    self.listed@ = Seq::empty();
                }
                let ghost before = self.plan.directories@;
                self.plan.add_directory(d.destination.clone());
                proof {
                    assert(dir_reached(d.destination@, self.roots@, pats));
                    assert forall|i: int|
                        0 <= i < self.plan.directories@.len() implies dir_reached(
                        #[trigger] self.plan.directories@[i]@,
                        self.roots@,
                        pats,
                    ) by {
                        if i < before.len() {
                            assert(self.plan.directories@[i] == before[i]);
                        }
                    }
                    assert forall|i: int| 0 <= i < self.plan.directories@.len() implies (
                    #[trigger] self.plan.directories@[i])@ == descend(
                        self.roots@[self.dir_trails@[i].0].1,
                        self.dir_trails@[i].1,
                    ) by {
                        if i < before.len() {
                            assert(self.plan.directories@[i] == before[i]);
                            assert(self.dir_trails@[i] == dt0[i]);
                        }
                    }
                    assert(self.plan.directories@.map_values(|x: String| x@) =~= before.map_values(
                        |x: String| x@,
                    ).push(d.destination@));
                }
                proof {
                    assert(self.stack@.map_values(|x: PendingDir| (x.source@, x.destination@))
                        =~= old(self).stack@.map_values(
                        |x: PendingDir| (x.source@, x.destination@),
                    ).drop_last());
                }
                let s = d.source.clone();
                self.current = Some(d);
                Some(s)
            },
        }
    }

    /// Hands over one entry, called `name`, of the directory being listed;
    /// a listing names each entry once, as a single component:
    /// an excluded entry is left out; otherwise a file becomes one task, a
    /// directory is queued for listing, anything else is left out.
    pub fn add_entry(&mut self, name: &str, kind: EntryKind, size: u64)
        requires
            old(self).wf(),
            old(self).listing() is Some,
            is_component(name@),
            !old(self).listed().contains(name@),
            kind is File ==> old(self).planned().total_size + size <= u64::MAX,
            kind is File ==> old(self).planned().total_files < usize::MAX,
        ensures
            final(self).wf(),
            final(self).roots() == old(self).roots(),
            final(self).patterns() == old(self).patterns(),
            final(self).listing() == old(self).listing(),
            final(self).listed() == old(self).listed().push(name@),
            final(self).planned().directories@ == old(self).planned().directories@,
            ({
                let c = old(self).listing()->Some_0;
                let planned = !excluded_by(old(self).patterns(), join(c.2, name@));
                let files = final(self).planned().files@;
                &&& (planned && kind is File) ==> {
                    &&& files.len() == old(self).planned().files@.len() + 1
                    &&& files.drop_last() == old(self).planned().files@
                    &&& files.last().source@ == join(c.0, name@)
                    &&& files.last().destination@ == join(c.1, name@)
                    &&& files.last().size == size
                }
                &&& !(planned && kind is File) ==> files == old(self).planned().files@
                &&& (planned && kind is Directory) ==> final(self).pending_dirs() == old(
                    self,
                ).pending_dirs().push((join(c.0, name@), join(c.1, name@)))
                &&& !(planned && kind is Directory) ==> final(self).pending_dirs() == old(
                    self,
                ).pending_dirs()
            }),
    {
        let ghost pats = self.matcher@;
        let ghost roots = self.roots@;
        let ghost (r, names) = self.current_trail@;
        let ghost names2 = names.push(name@);
        let ghost ft0 = self.file_trails@;
        let ghost dt0 = self.dir_trails@;
        let ghost st0 = self.trail@;
        let ghost l0 = self.listed@;
        let ghost nt = (r, names2);
        proof {
            assert(self.cur_trail() == Some(self.current_trail@));
            lemma_claims_entry(ft0, dt0, st0, self.current_trail@, l0, roots.len() as int, name@);
            self.listed@ = l0.push(name@);
        }
        let (src, dest, rel) = match &self.current {
            Some(c) => (
                join_path(c.source.as_str(), name),
                join_path(c.destination.as_str(), name),
                join_path(c.relative.as_str(), name),
            ),
            None => {
                assert(false);
                return ;
            },
        };
        if self.matcher.is_excluded(rel.as_str()) {
            return ;
        }
        proof {
            lemma_descend_push(roots[r].0, names, name@);
            lemma_descend_push(roots[r].1, names, name@);
            lemma_descend_push(""@, names, name@);
            lemma_clear_push(pats, names, name@);
            assert(reached(src@, dest@, roots, pats, r, names2));
        }
        match kind {
            EntryKind::File => {
                let ghost before = self.plan.files@;
                self.plan.add_file(src, dest, size);
                proof {
                    self.file_trails@ = ft0.push(nt);
                    assert forall|i: int| 0 <= i < self.plan.files@.len() implies (
                    #[trigger] self.plan.files@[i]).destination@ == descend(
                        roots[self.file_trails@[i].0].1,
                        self.file_trails@[i].1,
                    ) by {
                        if i < before.len() {
                            assert(self.plan.files@[i] == before[i]);
                            assert(self.file_trails@[i] == ft0[i]);
                        }
                    }
                }
                assert forall|i: int| 0 <= i < self.plan.files@.len() implies task_reached(
                    #[trigger] self.plan.files@[i],
                    roots,
                    pats,
                ) by {
                    if i < before.len() {
                        assert(self.plan.files@[i] == before[i]);
                    } else {
                        let t = self.plan.files@[i];
                        assert(reached(t.source@, t.destination@, roots, pats, r, names2));
                    }
                }
            },
            EntryKind::Directory => {
                let ghost sv = src@;
                let ghost dv = dest@;
                self.stack.push(PendingDir { source: src, destination: dest, relative: rel });
                assert(self.stack@.map_values(|x: PendingDir| (x.source@, x.destination@))
                    =~= old(self).stack@.map_values(|x: PendingDir| (x.source@, x.destination@)).push(
                    (sv, dv),
                ));
                proof {
                    self.trail@ = st0.push(nt);
                }
            },
            EntryKind::Other => {},
        }
    }

    /// The finished plan, its file tasks ordered largest first. Every task
    /// and every directory of it was reached from a root along a way of which
    /// no step is excluded.
    pub fn finish(self) -> (r: CopyPlan)
        requires
            self.wf(),
        ensures
            r.wf(),
            r.files@.to_multiset() == self.planned().files@.to_multiset(),
            sizes_non_increasing(r.files@),
            exists|perm: Seq<int>| stable_arrangement(self.planned().files@, r.files@, perm),
            r.directories@ == self.planned().directories@,
            r.total_size == self.planned().total_size,
            r.total_files == self.planned().total_files,
            forall|i: int|
                0 <= i < r.files@.len() ==> task_reached(
                    #[trigger] r.files@[i],
                    self.roots(),
                    self.patterns(),
                ),
            forall|i: int|
                0 <= i < r.directories@.len() ==> dir_reached(
                    #[trigger] r.directories@[i]@,
                    self.roots(),
                    self.patterns(),
                ),
            forall|i: int, j: int|
                0 <= i < j < r.files@.len() ==> r.files@[i].destination@ != r.files@[j].destination@,
            forall|i: int, j: int|
                0 <= i < j < r.directories@.len() ==> r.directories@[i]@ != r.directories@[j]@,
            forall|i: int, j: int|
                0 <= i < r.files@.len() && 0 <= j < r.directories@.len() ==> r.files@[i].destination@
                    != r.directories@[j]@,
    {
        let ghost roots = self.roots@;
        let ghost pats = self.matcher@;
        let ghost before = self.plan.files@;
        let mut plan = self.plan;
        plan.sort_by_size_desc();
        proof {
            assert forall|i: int| 0 <= i < plan.files@.len() implies task_reached(
                #[trigger] plan.files@[i],
                roots,
                pats,
            ) by {
                let t = plan.files@[i];
                assert(plan.files@.contains(t));
                assert(plan.files@.to_multiset().count(t) > 0);
                assert(before.contains(t));
                let j = choose|j: int| 0 <= j < before.len() && before[j] == t;
                assert(task_reached(before[j], roots, pats));
            }
            let ft = self.file_trails@;
            let dt = self.dir_trails@;
            let st = self.trail@;
            let dirs = plan.directories@;
            assert forall|a: int| 0 <= a < ft.len() implies 0 <= #[trigger] ft[a].0 < roots.len()
                && all_components(ft[a].1) by {
                assert(ft.contains(ft[a]));
                assert(in_any(ft, dt, st, ft[a]));
            }
            assert forall|a: int| 0 <= a < dt.len() implies 0 <= #[trigger] dt[a].0 < roots.len()
                && all_components(dt[a].1) by {
                assert(dt.contains(dt[a]));
                assert(in_any(ft, dt, st, dt[a]));
            }
            let perm = choose|perm: Seq<int>| stable_arrangement(before, plan.files@, perm);
            assert forall|i: int, j: int| 0 <= i < j < plan.files@.len() implies plan.files@[
                i
            ].destination@ != plan.files@[j].destination@ by {
                let a = perm[i];
                let b = perm[j];
                assert(plan.files@[i] == before[a] && plan.files@[j] == before[b]);
                assert(before[a] == self.plan.files@[a]);
                assert(before[a].destination@ == descend(roots[ft[a].0].1, ft[a].1));
                assert(before[b].destination@ == descend(roots[ft[b].0].1, ft[b].1));
                assert(ft[a] != ft[b]);
                assert(0 <= ft[a].0 < roots.len() && 0 <= ft[b].0 < roots.len());
                lemma_dests_differ(roots, ft[a], ft[b]);
            }
            assert forall|i: int, j: int| 0 <= i < j < dirs.len() implies dirs[i]@ != dirs[j]@ by {
                assert(dirs[i]@ == descend(roots[dt[i].0].1, dt[i].1));
                assert(dirs[j]@ == descend(roots[dt[j].0].1, dt[j].1));
                assert(0 <= dt[i].0 < roots.len() && 0 <= dt[j].0 < roots.len());
                lemma_dests_differ(roots, dt[i], dt[j]);
            }
            assert forall|i: int, j: int| 0 <= i < plan.files@.len() && 0 <= j < dirs.len() implies plan.files@[
                i
            ].destination@ != dirs[j]@ by {
                let a = perm[i];
                assert(plan.files@[i] == before[a]);
                assert(before[a] == self.plan.files@[a]);
                assert(before[a].destination@ == descend(roots[ft[a].0].1, ft[a].1));
                assert(dirs[j]@ == descend(roots[dt[j].0].1, dt[j].1));
                assert(ft.contains(ft[a]));
                assert(ft[a] != dt[j]) by {
                    assert(dt.contains(dt[j]));
                }
                assert(0 <= ft[a].0 < roots.len() && 0 <= dt[j].0 < roots.len());
                lemma_dests_differ(roots, ft[a], dt[j]);
            }
        }
        plan
    }
}

/// Where a source lands inside the directory `destination_dir`: below it,
/// under the source's final name.
pub open spec fn target_in(source: Seq<char>, destination_dir: Seq<char>) -> Option<Seq<char>> {
    match final_name(source) {
        Some(n) => Some(join(destination_dir, n)),
        None => None,
    }
}

/// The path that `source` is copied to inside the directory
/// `destination_dir`; a source without a final name is refused.
pub fn target_in_directory(source: &str, destination_dir: &str) -> (r: Result<String, CopyError>)
    ensures
        match target_in(source@, destination_dir@) {
            Some(t) => r matches Ok(p) && p@ == t,
            None => r matches Err(CopyError::InvalidSource(p)) && p@ == source@,
        },
{
    match file_name(source) {
        Some(n) => Ok(join_path(destination_dir, n.as_str())),
        None => Err(CopyError::InvalidSource(String::from_str(source))),
    }
}

/// A directory named as a source is copied only in recursive mode.
pub fn admit_source(source: &str, kind: EntryKind, recursive: bool) -> (r: Result<(), CopyError>)
    ensures
        kind is Directory && !recursive ==> (r matches Err(CopyError::InvalidSource(p)) && p@
            == source@),
        !(kind is Directory && !recursive) ==> r is Ok,
{
    if kind == EntryKind::Directory && !recursive {
        Err(CopyError::InvalidSource(String::from_str(source)))
    } else {
        Ok(())
    }
}

/// The plan that copies one non-directory source of `size` bytes. Where the
/// destination is an existing directory the copy goes inside it under the
/// source's name; otherwise the destination path is used as it is. A
/// directory source is refused: copying one takes a recursive walk.
pub fn plan_single_file(
    source: &str,
    source_kind: EntryKind,
    size: u64,
    destination: &str,
    destination_is_dir: bool,
) -> (r: Result<CopyPlan, CopyError>)
    ensures
        source_kind is Directory ==> (r matches Err(CopyError::InvalidSource(p)) && p@ == source@),
        !(source_kind is Directory) && destination_is_dir && target_in(source@, destination@) is None
            ==> (r matches Err(CopyError::InvalidSource(p)) && p@ == source@),
        !(source_kind is Directory) && !(destination_is_dir && target_in(
            source@,
            destination@,
        ) is None) ==> (r matches Ok(plan) && {
            &&& plan.wf()
            &&& plan.files@.len() == 1
            &&& plan.directories@.len() == 0
            &&& plan.files@[0].source@ == source@
            &&& plan.files@[0].size == size
            &&& plan.files@[0].destination@ == if destination_is_dir {
                target_in(source@, destination@)->Some_0
            } else {
                destination@
            }
        }),
{
    if source_kind == EntryKind::Directory {
        return Err(CopyError::InvalidSource(String::from_str(source)));
    }
    let target = if destination_is_dir {
        match target_in_directory(source, destination) {
            Ok(t) => t,
            Err(e) => return Err(e),
        }
    } else {
        String::from_str(destination)
    };
    let mut plan = CopyPlan::new();
    plan.add_file(String::from_str(source), target, size);
    Ok(plan)
}

impl PlanWalk {
    /// Adds `source` as a root copied inside the directory `destination_dir`
    /// under its final name. A source without a final name is refused and
    /// the walk is left as it was.
    pub fn add_source_into(
        &mut self,
        source: &str,
        kind: EntryKind,
        size: u64,
        destination_dir: &str,
    ) -> (r: Result<(), CopyError>)
        requires
            old(self).wf(),
            kind is File ==> old(self).planned().total_size + size <= u64::MAX,
            kind is File ==> old(self).planned().total_files < usize::MAX,
        ensures
            final(self).wf(),
            final(self).patterns() == old(self).patterns(),
            final(self).listing() == old(self).listing(),
            final(self).listed() == old(self).listed(),
            final(self).planned().directories@ == old(self).planned().directories@,
            r is Err ==> {
                &&& final(self).roots() == old(self).roots()
                &&& final(self).planned().files@ == old(self).planned().files@
                &&& final(self).pending() == old(self).pending()
            },
            match target_in(source@, destination_dir@) {
                None => r matches Err(CopyError::InvalidSource(p)) && p@ == source@,
                Some(t) => {
                    &&& r is Err <==> overlaps_root(old(self).roots(), t)
                    &&& r matches Err(e) ==> (e matches CopyError::InvalidDestination(p) && p@ == t)
                    &&& r is Ok ==> {
                        &&& final(self).roots() == old(self).roots().push((source@, t))
                        &&& kind is File ==> {
                            let files = final(self).planned().files@;
                            &&& files.len() == old(self).planned().files@.len() + 1
                            &&& files.drop_last() == old(self).planned().files@
                            &&& files.last().source@ == source@
                            &&& files.last().destination@ == t
                            &&& files.last().size == size
                        }
                        &&& !(kind is File) ==> final(self).planned().files@ == old(
                            self,
                        ).planned().files@
                        &&& kind is Directory ==> final(self).pending_dirs() == old(
                            self,
                        ).pending_dirs().push((source@, t))
                        &&& !(kind is Directory) ==> final(self).pending_dirs() == old(
                            self,
                        ).pending_dirs()
                    }
                },
            },
    {
        let target = match target_in_directory(source, destination_dir) {
            Ok(t) => t,
            Err(e) => return Err(e),
        };
        self.add_root(String::from_str(source), target, kind, size)
    }
}

} // verus!
