//! Paths as text: their named components, joining, and the final name.
//!
//! A path is a string whose components are separated by `/`. Repeated
//! separators and `.` segments name nothing; `..` is kept as a component.
use vstd::prelude::*;
use crate::text::span_eq;

verus! {

/// Adds the piece `c` to the finished components `d` when it names something.
pub open spec fn close_part(d: Seq<Seq<char>>, c: Seq<char>) -> Seq<Seq<char>> {
    if c.len() == 0 || c == "."@ {
        d
    } else {
        d.push(c)
    }
}

/// Reading `s` from the left: the components finished so far and the piece
/// being read.
pub open spec fn scan_parts(s: Seq<char>) -> (Seq<Seq<char>>, Seq<char>)
    decreases s.len(),
{
    if s.len() == 0 {
        (Seq::empty(), Seq::empty())
    } else {
        let (d, c) = scan_parts(s.drop_last());
        if s.last() == '/' {
            (close_part(d, c), Seq::empty())
        } else {
            (d, c.push(s.last()))
        }
    }
}

/// The named components of `s`, in order.
pub open spec fn path_parts(s: Seq<char>) -> Seq<Seq<char>> {
    close_part(scan_parts(s).0, scan_parts(s).1)
}

/// The number of named components: how deep `s` lies below its root.
pub open spec fn path_depth(s: Seq<char>) -> nat {
    path_parts(s).len()
}

pub open spec fn is_absolute(s: Seq<char>) -> bool {
    s.len() > 0 && s[0] == '/'
}

/// `base` extended by `name`, as `Path::join` does: an absolute `name`
/// replaces `base`, and a separator is put between the two where `base` is
/// not empty and does not end with one.
pub open spec fn join(base: Seq<char>, name: Seq<char>) -> Seq<char> {
    if is_absolute(name) {
        name
    } else if base.len() == 0 {
        name
    } else if base.last() == '/' {
        base + name
    } else {
        base + "/"@ + name
    }
}

/// The components `ps` written one after the other with `/` between them.
pub open spec fn join_parts(ps: Seq<Seq<char>>) -> Seq<char>
    decreases ps.len(),
{
    if ps.len() == 0 {
        Seq::empty()
    } else if ps.len() == 1 {
        ps[0]
    } else {
        join_parts(ps.drop_last()) + "/"@ + ps.last()
    }
}

/// The final component of `s`, unless `s` ends at its root or in `..`.
pub open spec fn final_name(s: Seq<char>) -> Option<Seq<char>> {
    let ps = path_parts(s);
    if ps.len() > 0 && ps.last() != ".."@ {
        Some(ps.last())
    } else {
        None
    }
}

/// Where a source lands under `dest` when its whole path is kept: every
/// component of `source`, its root left out, below `dest`.
pub open spec fn under_with_parents(dest: Seq<char>, source: Seq<char>) -> Seq<char> {
    join(dest, join_parts(path_parts(source)))
}

/// The named components of `p`.
pub fn path_parts_of(p: &str) -> (r: Vec<String>)
    ensures
        r.deep_view() == path_parts(p@),
{
    let n = p.unicode_len();
    let mut done: Vec<String> = Vec::new();
    let mut start: usize = 0;
    let mut i: usize = 0;
    while i < n
        invariant
            n == p@.len(),
            start <= i <= n,
            scan_parts(p@.subrange(0, i as int)) == (done.deep_view(), p@.subrange(
                start as int,
                i as int,
            )),
        decreases n - i,
    {
        let ghost pre = p@.subrange(0, i as int);
        assert(p@.subrange(0, i + 1).drop_last() =~= pre);
        if p.get_char(i) == '/' {
            if start < i && !span_eq(p, start, i, ".") {
                let ghost d0 = done.deep_view();
                done.push(String::from_str(p.substring_char(start, i)));
                assert(done.deep_view() =~= d0.push(p@.subrange(start as int, i as int)));
            }
            start = i + 1;
            assert(p@.subrange(start as int, i + 1) =~= Seq::<char>::empty());
        } else {
            assert(p@.subrange(start as int, i + 1) =~= p@.subrange(start as int, i as int).push(
                p@[i as int],
            ));
        }
        i = i + 1;
    }
    assert(p@.subrange(0, n as int) =~= p@);
    if start < n && !span_eq(p, start, n, ".") {
        let ghost d0 = done.deep_view();
        done.push(String::from_str(p.substring_char(start, n)));
        assert(done.deep_view() =~= d0.push(p@.subrange(start as int, n as int)));
    }
    done
}

/// `base` extended by `name`.
pub fn join_path(base: &str, name: &str) -> (r: String)
    ensures
        r@ == join(base@, name@),
{
    let nb = base.unicode_len();
    let nn = name.unicode_len();
    if nn > 0 && name.get_char(0) == '/' {
        return String::from_str(name);
    }
    if nb == 0 {
        return String::from_str(name);
    }
    if base.get_char(nb - 1) == '/' {
        String::from_str(base).concat(name)
    } else {
        proof {
            reveal_strlit("/");
        }
        String::from_str(base).concat("/").concat(name)
    }
}

/// The components `ps` joined by `/`.
pub fn join_all(ps: &Vec<String>) -> (r: String)
    ensures
        r@ == join_parts(ps.deep_view()),
{
    let mut r = String::new();
    let mut i: usize = 0;
    while i < ps.len()
        invariant
            i <= ps@.len(),
            r@ == join_parts(ps.deep_view().subrange(0, i as int)),
        decreases ps@.len() - i,
    {
        let ghost pre = ps.deep_view().subrange(0, i as int);
        let ghost next = ps.deep_view().subrange(0, i + 1);
        assert(next.drop_last() =~= pre);
        if i == 0 {
            assert(pre =~= Seq::<Seq<char>>::empty());
            r = ps[i].clone();
        } else {
            proof {
                reveal_strlit("/");
            }
            r = r.concat("/").concat(ps[i].as_str());
        }
        i = i + 1;
    }
    assert(ps.deep_view().subrange(0, ps@.len() as int) =~= ps.deep_view());
    r
}

/// The final component of `p`, as `Path::file_name` gives it.
pub fn file_name(p: &str) -> (r: Option<String>)
    ensures
        match final_name(p@) {
            Some(n) => r is Some && r->Some_0@ == n,
            None => r is None,
        },
{
    let ps = path_parts_of(p);
    let k = ps.len();
    if k == 0 {
        return None;
    }
    if span_eq(ps[k - 1].as_str(), 0, ps[k - 1].as_str().unicode_len(), "..") {
        assert(ps[k - 1 as int]@.subrange(0, ps[k - 1 as int]@.len() as int) =~= ps[k - 1 as int]@);
        assert(ps.deep_view()[k - 1] == ps[k - 1 as int]@);
        return None;
    }
    assert(ps[k - 1 as int]@.subrange(0, ps[k - 1 as int]@.len() as int) =~= ps[k - 1 as int]@);
    assert(ps.deep_view()[k - 1] == ps[k - 1 as int]@);
    Some(ps[k - 1].clone())
}

/// The destination of `source` when its full path is kept below `dest`:
/// every component of `source`, its root left out, is appended to `dest`.
pub fn with_parents(dest: &str, source: &str) -> (r: String)
    ensures
        r@ == under_with_parents(dest@, source@),
{
    let ps = path_parts_of(source);
    let rel = join_all(&ps);
    join_path(dest, rel.as_str())
}

/// A component as `path_parts` yields one: not empty, not `.`, no separator.
pub open spec fn is_component(c: Seq<char>) -> bool {
    c.len() > 0 && c != "."@ && !c.contains('/')
}

proof fn lemma_scan_plain(p: Seq<char>, x: Seq<char>)
    requires
        !x.contains('/'),
    ensures
        scan_parts(p + x) == (scan_parts(p).0, scan_parts(p).1 + x),
    decreases x.len(),
{
    if x.len() == 0 {
        assert(p + x =~= p);
        assert(scan_parts(p).1 + x =~= scan_parts(p).1);
    } else {
        let y = x.drop_last();
        assert(!y.contains('/')) by {
            if y.contains('/') {
                let i = choose|i: int| 0 <= i < y.len() && y[i] == '/';
                assert(x[i] == '/');
            }
        }
        lemma_scan_plain(p, y);
        assert((p + x).drop_last() =~= p + y);
        assert((p + x).last() == x.last());
        assert(x.last() != '/') by {
            assert(x[x.len() - 1] == x.last());
        }
        assert((scan_parts(p).1 + y).push(x.last()) =~= scan_parts(p).1 + x);
    }
}

/// Reading back the text that joins well-formed components gives the same
/// components.
pub proof fn lemma_parts_of_joined(ps: Seq<Seq<char>>)
    requires
        forall|i: int| 0 <= i < ps.len() ==> is_component(#[trigger] ps[i]),
    ensures
        path_parts(join_parts(ps)) == ps,
    decreases ps.len(),
{
    reveal_strlit("/");
    reveal_strlit(".");
    if ps.len() == 0 {
        assert(path_parts(Seq::<char>::empty()) =~= ps);
    } else if ps.len() == 1 {
        let x = ps[0];
        assert(is_component(ps[0]));
        lemma_scan_plain(Seq::empty(), x);
        assert(Seq::<char>::empty() + x =~= x);
        assert(scan_parts(x) == (Seq::<Seq<char>>::empty(), x));
        assert(seq![x] =~= ps);
        assert(Seq::<Seq<char>>::empty().push(x) =~= seq![x]);
    } else {
        let front = ps.drop_last();
        let x = ps.last();
        assert(is_component(ps[ps.len() - 1]));
        lemma_parts_of_joined(front);
        let j = join_parts(front);
        let js = j + "/"@;
        assert(js.drop_last() =~= j);
        assert(js.last() == '/');
        assert(scan_parts(js) == (close_part(scan_parts(j).0, scan_parts(j).1), Seq::<char>::empty()));
        lemma_scan_plain(js, x);
        assert(Seq::<char>::empty() + x =~= x);
        assert(close_part(scan_parts(j).0, scan_parts(j).1) == front);
        assert(front.push(x) =~= ps);
    }
}

proof fn lemma_scan_components(s: Seq<char>)
    ensures
        forall|i: int|
            0 <= i < scan_parts(s).0.len() ==> is_component(#[trigger] scan_parts(s).0[i]),
        !scan_parts(s).1.contains('/'),
    decreases s.len(),
{
    reveal_strlit(".");
    if s.len() > 0 {
        lemma_scan_components(s.drop_last());
        let (d, c) = scan_parts(s.drop_last());
        if s.last() != '/' {
            assert(!c.push(s.last()).contains('/')) by {
                if c.push(s.last()).contains('/') {
                    let i = choose|i: int| 0 <= i < c.push(s.last()).len() && c.push(s.last())[i] == '/';
                    if i < c.len() {
                        assert(c[i] == '/');
                    }
                }
            }
        } else {
            assert(!Seq::<char>::empty().contains('/'));
        }
    } else {
        assert(!Seq::<char>::empty().contains('/'));
    }
}

/// Every component that `path_parts` yields is well formed.
pub proof fn lemma_parts_are_components(s: Seq<char>)
    ensures
        forall|i: int| 0 <= i < path_parts(s).len() ==> is_component(#[trigger] path_parts(s)[i]),
{
    lemma_scan_components(s);
}

/// `a` is `b` or a leading part of it.
pub open spec fn prefix_of(a: Seq<Seq<char>>, b: Seq<Seq<char>>) -> bool {
    a.len() <= b.len() && b.subrange(0, a.len() as int) == a
}

/// Joining a well-formed component adds exactly that component.
pub proof fn lemma_parts_join(b: Seq<char>, n: Seq<char>)
    requires
        is_component(n),
    ensures
        path_parts(join(b, n)) == path_parts(b).push(n),
{
    reveal_strlit("/");
    reveal_strlit(".");
    assert(!is_absolute(n)) by {
        if n.len() > 0 && n[0] == '/' {
            assert(n.contains('/'));
        }
    }
    if b.len() == 0 {
        lemma_scan_plain(Seq::empty(), n);
        assert(Seq::<char>::empty() + n =~= n);
        assert(scan_parts(Seq::<char>::empty()) == (Seq::<Seq<char>>::empty(), Seq::<char>::empty()));
        assert(path_parts(b) =~= Seq::<Seq<char>>::empty());
        assert(Seq::<Seq<char>>::empty().push(n) =~= path_parts(b).push(n));
    } else if b.last() == '/' {
        lemma_scan_plain(b, n);
        assert(scan_parts(b).1 =~= Seq::<char>::empty());
        assert(Seq::<char>::empty() + n =~= n);
    } else {
        let bs = b + "/"@;
        assert(bs.drop_last() =~= b);
        assert(bs.last() == '/');
        lemma_scan_plain(bs, n);
        assert(Seq::<char>::empty() + n =~= n);
    }
}

/// Entry names as a directory listing gives them: a well-formed component.
pub fn is_entry_name(name: &str) -> (r: bool)
    ensures
        r == is_component(name@),
{
    let n = name.unicode_len();
    if n == 0 {
        return false;
    }
    if span_eq(name, 0, n, ".") {
        assert(name@.subrange(0, n as int) =~= name@);
        return false;
    }
    assert(name@.subrange(0, n as int) =~= name@);
    let mut i: usize = 0;
    while i < n
        invariant
            i <= n,
            n == name@.len(),
            forall|k: int| 0 <= k < i ==> name@[k] != '/',
        decreases n - i,
    {
        if name.get_char(i) == '/' {
            assert(name@.contains('/'));
            return false;
        }
        i = i + 1;
    }
    assert(!name@.contains('/'));
    true
}

/// Whether the components `a` are `b` or a leading part of it.
pub fn parts_prefix(a: &Vec<String>, b: &Vec<String>) -> (r: bool)
    ensures
        r == prefix_of(a.deep_view(), b.deep_view()),
{
    if a.len() > b.len() {
        return false;
    }
    let mut i: usize = 0;
    while i < a.len()
        invariant
            i <= a@.len() <= b@.len(),
            forall|k: int| 0 <= k < i ==> a.deep_view()[k] == b.deep_view()[k],
        decreases a@.len() - i,
    {
        if a[i] != b[i] {
            assert(b.deep_view().subrange(0, a@.len() as int)[i as int] != a.deep_view()[i as int]);
            return false;
        }
        i = i + 1;
    }
    assert(b.deep_view().subrange(0, a@.len() as int) =~= a.deep_view());
    true
}

/// Text joined from well-formed components does not start at the root.
pub proof fn lemma_joined_relative(ps: Seq<Seq<char>>)
    requires
        ps.len() > 0,
        forall|i: int| 0 <= i < ps.len() ==> is_component(#[trigger] ps[i]),
    ensures
        join_parts(ps).len() > 0,
        join_parts(ps)[0] == ps[0][0],
        !is_absolute(join_parts(ps)),
    decreases ps.len(),
{
    assert(is_component(ps[0]));
    if ps.len() > 1 {
        let front = ps.drop_last();
        assert forall|i: int| 0 <= i < front.len() implies is_component(#[trigger] front[i]) by {
            assert(front[i] == ps[i]);
        }
        lemma_joined_relative(front);
        assert(front[0] == ps[0]);
    }
    if ps[0][0] == '/' {
        assert(ps[0].contains('/'));
    }
}

} // verus!
