//! `normpath`: collapsing separators, `.` and `..` components.
use vstd::prelude::*;
use crate::scan::{SEP, DOT, has_byte, first_index};
use crate::algebra::{is_abs, views, join2, join_into, push_all, to_bytes};

verus! {

/// The components of `p`: the maximal runs between separators, empty ones
/// included (`"/a//b"` gives `["", "a", "", "b"]`, `""` gives `[""]`).
pub open spec fn comps(p: Seq<u8>) -> Seq<Seq<u8>>
    decreases p.len(),
{
    if p.len() == 0 {
        seq![Seq::<u8>::empty()]
    } else {
        let c = comps(p.drop_last());
        if p.last() == SEP {
            c.push(Seq::<u8>::empty())
        } else {
            c.update(c.len() - 1, c.last().push(p.last()))
        }
    }
}

/// The component `.`.
pub open spec fn is_dot(c: Seq<u8>) -> bool {
    c == seq![DOT]
}

/// The component `..`.
pub open spec fn is_dotdot(c: Seq<u8>) -> bool {
    c == seq![DOT, DOT]
}

/// One component folded into the stack of kept components: empty and `.`
/// are dropped; `..` cancels the last kept component, unless nothing is kept
/// in a relative path or the last kept component is itself `..`, in which
/// case it is kept (at the root of an absolute path it is dropped).
pub open spec fn norm_step(acc: Seq<Seq<u8>>, c: Seq<u8>, abs: bool) -> Seq<Seq<u8>> {
    if c.len() == 0 || is_dot(c) {
        acc
    } else if !is_dotdot(c) || (!abs && acc.len() == 0) || (acc.len() > 0 && is_dotdot(
        acc.last(),
    )) {
        acc.push(c)
    } else if acc.len() > 0 {
        acc.drop_last()
    } else {
        acc
    }
}

/// `norm_step` folded from the left over `cs`, starting from `acc`.
pub open spec fn norm_fold(acc: Seq<Seq<u8>>, cs: Seq<Seq<u8>>, abs: bool) -> Seq<Seq<u8>>
    decreases cs.len(),
{
    if cs.len() == 0 {
        acc
    } else {
        norm_step(norm_fold(acc, cs.drop_last(), abs), cs.last(), abs)
    }
}

/// The components that `normpath` keeps.
pub open spec fn norm_comps(p: Seq<u8>) -> Seq<Seq<u8>> {
    norm_fold(Seq::empty(), comps(p), is_abs(p))
}

/// Components joined with one separator between neighbours.
pub open spec fn join_comps(cs: Seq<Seq<u8>>) -> Seq<u8>
    decreases cs.len(),
{
    if cs.len() == 0 {
        Seq::empty()
    } else if cs.len() == 1 {
        cs[0]
    } else {
        join_comps(cs.drop_last()) + seq![SEP] + cs.last()
    }
}

/// The leading separators that `normpath` keeps: exactly two when the path
/// starts with `//` but not `///`, one for any other absolute path, none for
/// a relative one.
pub open spec fn lead(p: Seq<u8>) -> Seq<u8> {
    if is_abs(p) {
        if p.len() >= 2 && p[1] == SEP && !(p.len() >= 3 && p[2] == SEP) {
            seq![SEP, SEP]
        } else {
            seq![SEP]
        }
    } else {
        Seq::empty()
    }
}

/// The normal form of a path.
pub open spec fn normpath_spec(p: Seq<u8>) -> Seq<u8> {
    if p.len() == 0 {
        seq![DOT]
    } else {
        let body = join_comps(norm_comps(p));
        if is_abs(p) {
            lead(p) + body
        } else if body.len() == 0 {
            seq![DOT]
        } else {
            body
        }
    }
}

// ---------------------------------------------------------------------------
// Lemmas on components
// ---------------------------------------------------------------------------

/// There is always at least one component.
pub proof fn lemma_comps_nonempty(p: Seq<u8>)
    ensures
        comps(p).len() >= 1,
    decreases p.len(),
{
    if p.len() > 0 {
        lemma_comps_nonempty(p.drop_last());
    }
}

/// A string without separators is a single component.
pub proof fn lemma_comps_single(s: Seq<u8>)
    requires
        !has_byte(s, SEP),
    ensures
        comps(s) == seq![s],
    decreases s.len(),
{
    if s.len() > 0 {
        assert(!has_byte(s.drop_last(), SEP)) by {
            if has_byte(s.drop_last(), SEP) {
                let i = choose|i: int| 0 <= i < s.drop_last().len() && s.drop_last()[i] == SEP;
                assert(s[i] == SEP);
            }
        }
        lemma_comps_single(s.drop_last());
        assert(s[s.len() - 1] != SEP);
        assert(s.drop_last().push(s.last()) =~= s);
        assert(seq![s.drop_last()].update(0, s.drop_last().push(s.last())) =~= seq![s]);
    } else {
        assert(s =~= Seq::<u8>::empty());
    }
}

/// A separator splits the components in two.
pub proof fn lemma_comps_concat(a: Seq<u8>, b: Seq<u8>)
    ensures
        comps(a + seq![SEP] + b) == comps(a) + comps(b),
    decreases b.len(),
{
    let s = a + seq![SEP] + b;
    if b.len() == 0 {
        assert(s.drop_last() =~= a);
        assert(comps(a).push(Seq::<u8>::empty()) =~= comps(a) + comps(b));
    } else {
        lemma_comps_concat(a, b.drop_last());
        assert(s.drop_last() =~= a + seq![SEP] + b.drop_last());
        lemma_comps_nonempty(b.drop_last());
        lemma_comps_nonempty(a);
        let ca = comps(a);
        let cb = comps(b.drop_last());
        if b.last() == SEP {
            assert((ca + cb).push(Seq::<u8>::empty()) =~= ca + cb.push(Seq::<u8>::empty()));
        } else {
            assert((ca + cb).update((ca + cb).len() - 1, (ca + cb).last().push(b.last())) =~= ca
                + cb.update(cb.len() - 1, cb.last().push(b.last())));
        }
    }
}

/// Every component is free of separators.
pub proof fn lemma_comps_no_sep(p: Seq<u8>)
    ensures
        forall|i: int| 0 <= i < comps(p).len() ==> !has_byte(#[trigger] comps(p)[i], SEP),
    decreases p.len(),
{
    if p.len() > 0 {
        lemma_comps_no_sep(p.drop_last());
        lemma_comps_nonempty(p.drop_last());
        let c = comps(p.drop_last());
        if p.last() != SEP {
            let l = c.last().push(p.last());
            assert(!has_byte(l, SEP)) by {
                assert(!has_byte(c[c.len() - 1], SEP));
                if has_byte(l, SEP) {
                    let i = choose|i: int| 0 <= i < l.len() && l[i] == SEP;
                    if i < l.len() - 1 {
                        assert(c.last()[i] == SEP);
                    }
                }
            }
            assert forall|i: int| 0 <= i < comps(p).len() implies !has_byte(
                #[trigger] comps(p)[i],
                SEP,
            ) by {
                if i < c.len() - 1 {
                    assert(comps(p)[i] == c[i]);
                }
            }
        } else {
            assert forall|i: int| 0 <= i < comps(p).len() implies !has_byte(
                #[trigger] comps(p)[i],
                SEP,
            ) by {
                if i < c.len() {
                    assert(comps(p)[i] == c[i]);
                } else {
                    assert(comps(p)[i] =~= Seq::<u8>::empty());
                }
            }
        }
    }
}

// ---------------------------------------------------------------------------
// Lemmas on the fold
// ---------------------------------------------------------------------------

/// A stack of components as `normpath` leaves it: no empty, `.` or
/// separator-holding component; `..` only as a leading run, and not at all in
/// an absolute path.
pub open spec fn normal(acc: Seq<Seq<u8>>, abs: bool) -> bool {
    &&& forall|i: int|
        0 <= i < acc.len() ==> {
            &&& (#[trigger] acc[i]).len() > 0
            &&& !is_dot(acc[i])
            &&& !has_byte(acc[i], SEP)
            &&& (abs ==> !is_dotdot(acc[i]))
        }
    &&& forall|i: int, j: int|
        0 <= i < j < acc.len() && is_dotdot(#[trigger] acc[j]) ==> is_dotdot(#[trigger] acc[i])
}

/// Folding components without separators keeps a stack normal.
pub proof fn lemma_fold_normal(acc: Seq<Seq<u8>>, cs: Seq<Seq<u8>>, abs: bool)
    requires
        normal(acc, abs),
        forall|i: int| 0 <= i < cs.len() ==> !has_byte(#[trigger] cs[i], SEP),
    ensures
        normal(norm_fold(acc, cs, abs), abs),
    decreases cs.len(),
{
    if cs.len() > 0 {
        let d = cs.drop_last();
        assert forall|i: int| 0 <= i < d.len() implies !has_byte(#[trigger] d[i], SEP) by {
            assert(d[i] == cs[i]);
        }
        lemma_fold_normal(acc, d, abs);
        let a = norm_fold(acc, d, abs);
        let c = cs.last();
        assert(!has_byte(c, SEP));
        let r = norm_step(a, c, abs);
        if c.len() == 0 || is_dot(c) {
        } else if !is_dotdot(c) || (!abs && a.len() == 0) || (a.len() > 0 && is_dotdot(a.last())) {
            assert(r == a.push(c));
            assert forall|i: int, j: int|
                0 <= i < j < r.len() && is_dotdot(#[trigger] r[j]) implies is_dotdot(
                #[trigger] r[i],
            ) by {
                if j == r.len() - 1 && is_dotdot(c) && a.len() > 0 {
                    assert(is_dotdot(a[a.len() - 1]));
                    if i < a.len() - 1 {
                        assert(is_dotdot(a[i]));
                    }
                } else {
                    assert(r[j] == a[j]);
                }
            }
            assert forall|i: int| 0 <= i < r.len() implies {
                &&& (#[trigger] r[i]).len() > 0
                &&& !is_dot(r[i])
                &&& !has_byte(r[i], SEP)
                &&& (abs ==> !is_dotdot(r[i]))
            } by {
                if i < a.len() {
                    assert(r[i] == a[i]);
                } else {
                    if abs && is_dotdot(c) {
                        assert(is_dotdot(a[a.len() - 1]));
                    }
                }
            }
        } else if a.len() > 0 {
            let r = a.drop_last();
            assert forall|i: int, j: int|
                0 <= i < j < r.len() && is_dotdot(#[trigger] r[j]) implies is_dotdot(
                #[trigger] r[i],
            ) by {
                assert(r[j] == a[j] && r[i] == a[i]);
            }
            assert forall|i: int| 0 <= i < r.len() implies {
                &&& (#[trigger] r[i]).len() > 0
                &&& !is_dot(r[i])
                &&& !has_byte(r[i], SEP)
                &&& (abs ==> !is_dotdot(r[i]))
            } by {
                assert(r[i] == a[i]);
            }
        }
    }
}

/// Folding a normal stack from nothing gives it back.
pub proof fn lemma_fold_identity(cs: Seq<Seq<u8>>, abs: bool)
    requires
        normal(cs, abs),
    ensures
        norm_fold(Seq::empty(), cs, abs) == cs,
    decreases cs.len(),
{
    if cs.len() > 0 {
        let d = cs.drop_last();
        assert(normal(d, abs)) by {
            assert forall|i: int, j: int|
                0 <= i < j < d.len() && is_dotdot(#[trigger] d[j]) implies is_dotdot(
                #[trigger] d[i],
            ) by {
                assert(d[j] == cs[j] && d[i] == cs[i]);
            }
            assert forall|i: int| 0 <= i < d.len() implies {
                &&& (#[trigger] d[i]).len() > 0
                &&& !is_dot(d[i])
                &&& !has_byte(d[i], SEP)
                &&& (abs ==> !is_dotdot(d[i]))
            } by {
                assert(d[i] == cs[i]);
            }
        }
        lemma_fold_identity(d, abs);
        let c = cs.last();
        assert(c == cs[cs.len() - 1]);
        if is_dotdot(c) && d.len() > 0 {
            assert(is_dotdot(cs[d.len() - 1]));
        }
        assert(d.push(c) =~= cs);
    }
}

/// Folding over a concatenation is folding twice.
pub proof fn lemma_fold_concat(acc: Seq<Seq<u8>>, a: Seq<Seq<u8>>, b: Seq<Seq<u8>>, abs: bool)
    ensures
        norm_fold(acc, a + b, abs) == norm_fold(norm_fold(acc, a, abs), b, abs),
    decreases b.len(),
{
    if b.len() == 0 {
        assert(a + b =~= a);
    } else {
        assert((a + b).drop_last() =~= a + b.drop_last());
        lemma_fold_concat(acc, a, b.drop_last(), abs);
    }
}

/// Empty components change nothing.
pub proof fn lemma_fold_empties(acc: Seq<Seq<u8>>, e: Seq<Seq<u8>>, abs: bool)
    requires
        forall|i: int| 0 <= i < e.len() ==> (#[trigger] e[i]).len() == 0,
    ensures
        norm_fold(acc, e, abs) == acc,
    decreases e.len(),
{
    if e.len() > 0 {
        let d = e.drop_last();
        assert forall|i: int| 0 <= i < d.len() implies (#[trigger] d[i]).len() == 0 by {
            assert(d[i] == e[i]);
        }
        lemma_fold_empties(acc, d, abs);
        assert(e[e.len() - 1].len() == 0);
    }
}

/// Joined components without separators split back into themselves.
pub proof fn lemma_comps_join(cs: Seq<Seq<u8>>)
    requires
        cs.len() > 0,
        forall|i: int| 0 <= i < cs.len() ==> !has_byte(#[trigger] cs[i], SEP),
    ensures
        comps(join_comps(cs)) == cs,
    decreases cs.len(),
{
    if cs.len() == 1 {
        lemma_comps_single(cs[0]);
        assert(seq![cs[0]] =~= cs);
    } else {
        let d = cs.drop_last();
        assert forall|i: int| 0 <= i < d.len() implies !has_byte(#[trigger] d[i], SEP) by {
            assert(d[i] == cs[i]);
        }
        lemma_comps_join(d);
        assert(!has_byte(cs[cs.len() - 1], SEP));
        lemma_comps_single(cs.last());
        lemma_comps_concat(join_comps(d), cs.last());
        assert(d + seq![cs.last()] =~= cs);
    }
}

/// A join starts with the first byte of its first component.
pub proof fn lemma_join_first(cs: Seq<Seq<u8>>)
    requires
        cs.len() > 0,
        cs[0].len() > 0,
    ensures
        join_comps(cs).len() > 0,
        join_comps(cs)[0] == cs[0][0],
    decreases cs.len(),
{
    if cs.len() > 1 {
        let d = cs.drop_last();
        assert(d[0] == cs[0]);
        lemma_join_first(d);
    }
}

/// The components that `normpath` keeps form a normal stack.
pub proof fn lemma_norm_comps_normal(p: Seq<u8>)
    ensures
        normal(norm_comps(p), is_abs(p)),
{
    lemma_comps_no_sep(p);
    lemma_fold_normal(Seq::empty(), comps(p), is_abs(p));
}

/// `normpath` is idempotent: normalising a normal form changes nothing.
pub proof fn law_normpath_idempotent(p: Seq<u8>)
    ensures
        normpath_spec(normpath_spec(p)) == normpath_spec(p),
{
    let q = normpath_spec(p);
    let acc = norm_comps(p);
    let abs = is_abs(p);
    let j = join_comps(acc);
    lemma_norm_comps_normal(p);
    let e = Seq::<u8>::empty();
    assert(comps(e) =~= seq![e]);
    assert(comps(seq![DOT]) =~= seq![seq![DOT]]) by {
        assert(seq![DOT].drop_last() =~= e);
        assert(seq![e].update(0, e.push(DOT)) =~= seq![seq![DOT]]);
    }
    assert(norm_comps(seq![DOT]) =~= Seq::<Seq<u8>>::empty()) by {
        let cs = seq![seq![DOT]];
        assert(cs.drop_last() =~= Seq::<Seq<u8>>::empty());
        assert(!is_abs(seq![DOT]));
        assert(is_dot(cs.last()));
        assert(norm_fold(Seq::empty(), cs.drop_last(), false) == Seq::<Seq<u8>>::empty());
        assert(norm_fold(Seq::empty(), cs, false) == Seq::<Seq<u8>>::empty());
    }
    if p.len() == 0 || (!abs && j.len() == 0) {
        assert(q == seq![DOT]);
        assert(join_comps(Seq::<Seq<u8>>::empty()) =~= e);
        return;
    }
    // Components of `q` beyond its leading separators are `acc` again.
    if acc.len() > 0 {
        lemma_comps_join(acc);
        assert(acc[0].len() > 0);
        lemma_join_first(acc);
        assert(j[0] != SEP) by {
            assert(!has_byte(acc[0], SEP));
            assert(acc[0][0] != SEP);
        }
    } else {
        assert(j =~= e);
    }
    lemma_fold_identity(acc, abs);
    if abs {
        let l = lead(p);
        assert(q == l + j);
        // q = [] + "/" + rest, where rest = j or "/" + j.
        let rest = if l.len() == 2 {
            seq![SEP] + j
        } else {
            j
        };
        assert(q =~= e + seq![SEP] + rest);
        lemma_comps_concat(e, rest);
        let cj = comps(j);
        let pre = if l.len() == 2 {
            assert(rest =~= e + seq![SEP] + j);
            lemma_comps_concat(e, j);
            seq![e, e]
        } else {
            seq![e]
        };
        assert(comps(q) =~= pre + cj);
        lemma_fold_concat(Seq::empty(), pre, cj, true);
        lemma_fold_empties(Seq::empty(), pre, true);
        if acc.len() == 0 {
            lemma_fold_empties(Seq::empty(), cj, true);
        }
        assert(norm_comps(q) == acc);
        assert(lead(q) == l);
    } else {
        assert(q == j);
        assert(!is_abs(q));
        assert(norm_comps(q) == acc);
    }
}

// ---------------------------------------------------------------------------
// Executable normpath
// ---------------------------------------------------------------------------

pub(crate) fn is_dot_exec(c: &[u8]) -> (r: bool)
    ensures
        r == is_dot(c@),
{
    let r = c.len() == 1 && c[0] == DOT;
    proof {
        if c@.len() == 1 && c@[0] == DOT {
            assert(c@ =~= seq![DOT]);
        }
    }
    r
}

pub(crate) fn is_dotdot_exec(c: &[u8]) -> (r: bool)
    ensures
        r == is_dotdot(c@),
{
    let r = c.len() == 2 && c[0] == DOT && c[1] == DOT;
    proof {
        if c@.len() == 2 && c@[0] == DOT && c@[1] == DOT {
            assert(c@ =~= seq![DOT, DOT]);
        }
    }
    r
}

/// Folds one component into `stack` as `norm_step` does.
fn push_comp(stack: &mut Vec<Vec<u8>>, c: &[u8], abs: bool)
    ensures
        views(final(stack)@) == norm_step(views(old(stack)@), c@, abs),
{
    let ghost before = views(stack@);
    if c.len() == 0 || is_dot_exec(c) {
    } else if !is_dotdot_exec(c) || (!abs && stack.len() == 0) || (stack.len() > 0
        && is_dotdot_exec(stack[stack.len() - 1].as_slice())) {
        stack.push(to_bytes(c));
        assert(views(stack@) =~= before.push(c@));
    } else if stack.len() > 0 {
        stack.pop();
        assert(views(stack@) =~= before.drop_last());
    }
}

/// The components of `cs` joined with single separators, after `out`.
pub fn push_joined(out: &mut Vec<u8>, cs: &Vec<Vec<u8>>)
    ensures
        final(out)@ == old(out)@ + join_comps(views(cs@)),
{
    let ghost start = out@;
    let mut i: usize = 0;
    while i < cs.len()
        invariant
            i <= cs@.len(),
            out@ == start + join_comps(views(cs@).take(i as int)),
        decreases cs@.len() - i,
    {
        let ghost prev = out@;
        if i > 0 {
            out.push(SEP);
        }
        push_all(out, cs[i].as_slice());
        i = i + 1;
        proof {
            let t = views(cs@).take(i as int);
            assert(t.drop_last() =~= views(cs@).take(i - 1));
            assert(t.last() == cs[i - 1]@);
            if i == 1 {
                assert(out@ =~= start + join_comps(t));
            } else {
                assert(out@ =~= start + join_comps(t));
            }
        }
    }
    assert(views(cs@).take(i as int) =~= views(cs@));
}

/// The components of `p`, as `comps` gives them.
pub fn components(p: &[u8]) -> (r: Vec<Vec<u8>>)
    ensures
        views(r@) == comps(p@),
{
    let mut out: Vec<Vec<u8>> = Vec::new();
    let mut pos: usize = 0;
    let mut finished = false;
    let ghost mut done: Seq<Seq<u8>> = Seq::empty();
    assert(views(out@) =~= Seq::<Seq<u8>>::empty());
    while !finished
        invariant
            pos <= p@.len(),
            !finished ==> (pos == 0 ==> done == Seq::<Seq<u8>>::empty()),
            !finished ==> (pos > 0 ==> p@[pos - 1] == SEP && done == comps(p@.take(pos - 1))),
            finished ==> done == comps(p@),
            views(out@) == done,
        decreases p@.len() + 1 - pos, (if finished { 0int } else { 1int }),
    {
        let rest = vstd::slice::slice_subrange(p, pos, p.len());
        let ghost old_done = done;
        match first_index(SEP, rest) {
            Some(j) => {
                let c = vstd::slice::slice_subrange(rest, 0, j);
                assert(!has_byte(c@, SEP)) by {
                    if has_byte(c@, SEP) {
                        let k = choose|k: int| 0 <= k < c@.len() && c@[k] == SEP;
                        assert(rest@[k] == SEP);
                    }
                }
                out.push(to_bytes(c));
                proof {
                    done = done.push(c@);
                    assert(views(out@) =~= done);
                    lemma_comps_single(c@);
                    if pos > 0 {
                        assert(p@.take(pos + j) =~= p@.take(pos - 1) + seq![SEP] + c@);
                        lemma_comps_concat(p@.take(pos - 1), c@);
                        assert(comps(p@.take(pos + j)) =~= done);
                    } else {
                        assert(p@.take(pos + j) =~= c@);
                        assert(comps(p@.take(pos + j)) =~= done);
                    }
                }
                pos = pos + j + 1;
            },
            None => {
                out.push(to_bytes(rest));
                proof {
                    done = done.push(rest@);
                    assert(views(out@) =~= done);
                    lemma_comps_single(rest@);
                    if pos > 0 {
                        assert(p@ =~= p@.take(pos - 1) + seq![SEP] + rest@);
                        lemma_comps_concat(p@.take(pos - 1), rest@);
                        assert(comps(p@) =~= done);
                    } else {
                        assert(p@ =~= rest@);
                        assert(comps(p@) =~= done);
                    }
                }
                finished = true;
            },
        }
    }
    out
}

/// The normal form of `p`: runs of separators collapsed (but for a leading
/// `//`), `.` components dropped and `..` components resolved lexically; `.`
/// for an empty result.
pub fn normpath(p: &[u8]) -> (r: Vec<u8>)
    ensures
        r@ == normpath_spec(p@),
{
    if p.len() == 0 {
        let r = vec![DOT];
        assert(r@ =~= seq![DOT]);
        return r;
    }
    let abs = p[0] == SEP;
    let cs = components(p);
    let mut stack: Vec<Vec<u8>> = Vec::new();
    let mut i: usize = 0;
    assert(views(stack@) =~= Seq::<Seq<u8>>::empty());
    while i < cs.len()
        invariant
            abs == is_abs(p@),
            i <= cs@.len(),
            views(cs@) == comps(p@),
            views(stack@) == norm_fold(Seq::empty(), views(cs@).take(i as int), abs),
        decreases cs@.len() - i,
    {
        push_comp(&mut stack, cs[i].as_slice(), abs);
        i = i + 1;
        assert(views(cs@).take(i as int).drop_last() =~= views(cs@).take(i - 1));
    }
    assert(views(cs@).take(i as int) =~= views(cs@));
    let mut out: Vec<u8> = Vec::new();
    if abs {
        out.push(SEP);
        if p.len() >= 2 && p[1] == SEP && !(p.len() >= 3 && p[2] == SEP) {
            out.push(SEP);
        }
        proof {
            assert(out@ =~= lead(p@));
        }
        push_joined(&mut out, &stack);
        out
    } else {
        push_joined(&mut out, &stack);
        if out.len() == 0 {
            out.push(DOT);
            assert(out@ =~= seq![DOT]);
        } else {
            assert(out@ =~= join_comps(views(stack@)));
        }
        out
    }
}

/// `p` made absolute against the working directory `cwd`, then normalised.
pub open spec fn abspath_spec(p: Seq<u8>, cwd: Seq<u8>) -> Seq<u8> {
    if is_abs(p) {
        normpath_spec(p)
    } else {
        normpath_spec(join2(cwd, p))
    }
}

/// The absolute, normal form of `p`, where `cwd` is the current working
/// directory (read only for a relative `p`).
pub fn abspath(p: &[u8], cwd: &[u8]) -> (r: Vec<u8>)
    ensures
        r@ == abspath_spec(p@, cwd@),
{
    if p.len() > 0 && p[0] == SEP {
        normpath(p)
    } else {
        let mut full = to_bytes(cwd);
        join_into(&mut full, p);
        normpath(full.as_slice())
    }
}

} // verus!
