//! `relpath`: the relative path from one location to another.
use vstd::prelude::*;
use crate::scan::DOT;
use crate::algebra::{views, to_bytes};
use crate::resolve::bytes_eq;
use crate::norm::{comps, join_comps, abspath_spec, components, abspath, push_joined};

verus! {

/// The non-empty members of `cs`, in order.
pub open spec fn nonempty(cs: Seq<Seq<u8>>) -> Seq<Seq<u8>>
    decreases cs.len(),
{
    if cs.len() == 0 {
        Seq::empty()
    } else if cs.last().len() > 0 {
        nonempty(cs.drop_last()).push(cs.last())
    } else {
        nonempty(cs.drop_last())
    }
}

/// The length of the longest common prefix of `a` and `b`.
pub open spec fn common_len(a: Seq<Seq<u8>>, b: Seq<Seq<u8>>) -> nat
    decreases a.len(),
{
    if a.len() == 0 || b.len() == 0 || a[0] != b[0] {
        0
    } else {
        1 + common_len(a.skip(1), b.skip(1))
    }
}

/// The path from `start` to `path`, both made absolute against `cwd`: one
/// `..` for each component of `start` past the common prefix, then the rest
/// of `path`; `.` when they are the same.
pub open spec fn relpath_spec(path: Seq<u8>, start: Seq<u8>, cwd: Seq<u8>) -> Seq<u8> {
    let s = nonempty(comps(abspath_spec(start, cwd)));
    let t = nonempty(comps(abspath_spec(path, cwd)));
    let i = common_len(s, t) as int;
    let rel = Seq::new((s.len() - i) as nat, |k: int| seq![DOT, DOT]) + t.skip(i);
    if rel.len() == 0 {
        seq![DOT]
    } else {
        join_comps(rel)
    }
}

/// The common prefix is a prefix of both, and nothing longer is.
pub proof fn lemma_common_len(a: Seq<Seq<u8>>, b: Seq<Seq<u8>>)
    ensures
        common_len(a, b) <= a.len(),
        common_len(a, b) <= b.len(),
        forall|j: int| 0 <= j < common_len(a, b) ==> a[j] == b[j],
        common_len(a, b) < a.len() && common_len(a, b) < b.len() ==> a[common_len(a, b) as int]
            != b[common_len(a, b) as int],
    decreases a.len(),
{
    if !(a.len() == 0 || b.len() == 0 || a[0] != b[0]) {
        lemma_common_len(a.skip(1), b.skip(1));
        assert forall|j: int| 0 <= j < common_len(a, b) implies a[j] == b[j] by {
            if j > 0 {
                assert(a.skip(1)[j - 1] == b.skip(1)[j - 1]);
            }
        }
    }
}

/// `i` components equal in both, followed by a difference or an end, is the
/// common prefix.
pub proof fn lemma_common_len_at(a: Seq<Seq<u8>>, b: Seq<Seq<u8>>, i: int)
    requires
        0 <= i <= a.len(),
        i <= b.len(),
        forall|j: int| 0 <= j < i ==> a[j] == b[j],
        i == a.len() || i == b.len() || a[i] != b[i],
    ensures
        common_len(a, b) == i,
    decreases a.len(),
{
    if i > 0 {
        assert(a[0] == b[0]);
        assert forall|j: int| 0 <= j < i - 1 implies a.skip(1)[j] == b.skip(1)[j] by {
            assert(a[j + 1] == b[j + 1]);
        }
        lemma_common_len_at(a.skip(1), b.skip(1), i - 1);
    }
}

/// Viewing commutes with pushing.
pub proof fn lemma_views_push(v: Seq<Vec<u8>>, x: Vec<u8>)
    ensures
        views(v.push(x)) == views(v).push(x@),
{
    assert(views(v.push(x)) =~= views(v).push(x@));
}

/// The longest common prefix of two component lists.
pub fn commonprefix(a: &Vec<Vec<u8>>, b: &Vec<Vec<u8>>) -> (r: Vec<Vec<u8>>)
    ensures
        views(r@) == views(a@).take(common_len(views(a@), views(b@)) as int),
{
    let mut i: usize = 0;
    while i < a.len() && i < b.len() && bytes_eq(a[i].as_slice(), b[i].as_slice())
        invariant
            i <= a@.len(),
            i <= b@.len(),
            forall|j: int| 0 <= j < i ==> views(a@)[j] == views(b@)[j],
        decreases a@.len() - i,
    {
        i = i + 1;
    }
    proof {
        lemma_common_len_at(views(a@), views(b@), i as int);
    }
    let mut r: Vec<Vec<u8>> = Vec::new();
    let mut k: usize = 0;
    while k < i
        invariant
            k <= i <= a@.len(),
            views(r@) == views(a@).take(k as int),
        decreases i - k,
    {
        let ghost before = r@;
        let x = to_bytes(a[k].as_slice());
        r.push(x);
        proof {
            lemma_views_push(before, x);
            assert(views(a@).take(k + 1) =~= views(a@).take(k as int).push(a@[k as int]@));
        }
        k = k + 1;
        assert(views(r@) =~= views(a@).take(k as int));
    }
    r
}

/// The non-empty components of `p`.
fn nonempty_components(p: &[u8]) -> (r: Vec<Vec<u8>>)
    ensures
        views(r@) == nonempty(comps(p@)),
{
    let cs = components(p);
    let mut r: Vec<Vec<u8>> = Vec::new();
    let mut i: usize = 0;
    assert(views(r@) =~= nonempty(views(cs@).take(0)));
    while i < cs.len()
        invariant
            i <= cs@.len(),
            views(r@) == nonempty(views(cs@).take(i as int)),
        decreases cs@.len() - i,
    {
        let ghost t = views(cs@).take(i + 1);
        assert(t.drop_last() =~= views(cs@).take(i as int));
        assert(t.last() == cs@[i as int]@);
        if cs[i].len() > 0 {
            let ghost before = r@;
            r.push(to_bytes(cs[i].as_slice()));
            proof {
                lemma_views_push(before, r@[r@.len() - 1]);
            }
            assert(views(r@) =~= nonempty(t));
        }
        i = i + 1;
    }
    assert(views(cs@).take(i as int) =~= views(cs@));
    r
}

/// The relative path that leads from `start` to `path`, where `cwd` is the
/// current working directory against which relative inputs are taken.
pub fn relpath(path: &[u8], start: &[u8], cwd: &[u8]) -> (r: Vec<u8>)
    ensures
        r@ == relpath_spec(path@, start@, cwd@),
{
    let s = nonempty_components(abspath(start, cwd).as_slice());
    let t = nonempty_components(abspath(path, cwd).as_slice());
    let prefix = commonprefix(&s, &t);
    proof {
        lemma_common_len(views(s@), views(t@));
        assert(views(prefix@).len() == prefix@.len());
    }
    let i = prefix.len();
    let ghost rel = Seq::new((views(s@).len() - i) as nat, |k: int| seq![DOT, DOT]) + views(
        t@,
    ).skip(i as int);
    let mut out: Vec<Vec<u8>> = Vec::new();
    let mut k: usize = 0;
    while k < s.len() - i
        invariant
            i <= s@.len(),
            i <= t@.len(),
            k <= s@.len() - i,
            views(out@) == rel.take(k as int),
            rel == Seq::new((views(s@).len() - i) as nat, |k: int| seq![DOT, DOT]) + views(
                t@,
            ).skip(i as int),
        decreases s@.len() - i - k,
    {
        let dd = vec![DOT, DOT];
        assert(dd@ =~= seq![DOT, DOT]);
        let ghost before = out@;
        out.push(dd);
        proof {
            lemma_views_push(before, dd);
        }
        k = k + 1;
        assert(views(out@) =~= rel.take(k as int));
    }
    let mut j: usize = i;
    while j < t.len()
        invariant
            i <= j <= t@.len(),
            i <= s@.len(),
            views(out@) == rel.take(s@.len() - i + j - i),
            rel == Seq::new((views(s@).len() - i) as nat, |k: int| seq![DOT, DOT]) + views(
                t@,
            ).skip(i as int),
        decreases t@.len() - j,
    {
        let ghost before = out@;
        out.push(to_bytes(t[j].as_slice()));
        proof {
            lemma_views_push(before, out@[out@.len() - 1]);
        }
        j = j + 1;
        assert(views(out@) =~= rel.take(s@.len() - i + j - i));
    }
    assert(rel.take(s@.len() - i + j - i) =~= rel);
    let mut r: Vec<u8> = Vec::new();
    if out.len() == 0 {
        r.push(DOT);
        assert(r@ =~= seq![DOT]);
    } else {
        push_joined(&mut r, &out);
        assert(r@ =~= join_comps(rel));
    }
    r
}

} // verus!
