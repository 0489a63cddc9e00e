//! Lenient resolution terminates.
//!
//! Against a filesystem with finitely many symlinks, each answer that
//! describes it truthfully strictly lowers a natural-number measure of a
//! lenient resolver, until the resolver is finished. The measure weighs what
//! each frame has left to walk by a power of the longest symlink target, and
//! frames cannot nest deeper than there are symlinks: the symlinks under
//! resolution are all different, as each of them stays marked "in progress"
//! while it is resolved.
use vstd::prelude::*;
use vstd::set_lib::lemma_len_subset;
use crate::resolve::{
    Phase, FrameView, Record, ResolverView, AnswerView, lookup, answer_spec, run_spec, micro,
    top_rest_len, lemma_part_rest_shorter, set_top_ret, enter_target, with_phase, initial,
};

verus! {

/// The answers that a filesystem whose symlinks are `links` gives to the
/// question a resolver waits on.
pub open spec fn truthful(links: Map<Seq<u8>, Seq<u8>>, s: ResolverView, a: AnswerView) -> bool {
    match s.phase {
        Phase::Lstat => if links.contains_key(s.cand) {
            a == AnswerView::Symlink
        } else {
            a == AnswerView::NotSymlink || a == AnswerView::Failed
        },
        Phase::Target => links.contains_key(s.cand) && a == AnswerView::Target(links[s.cand]),
        _ => false,
    }
}

/// `b` to the power `e`.
pub open spec fn weight(b: nat, e: nat) -> nat
    decreases e,
{
    if e == 0 {
        1
    } else {
        b * weight(b, (e - 1) as nat)
    }
}

/// What the frames have left to walk, frame `i` weighing `b^(d - i)`.
pub open spec fn walk_measure(fs: Seq<FrameView>, b: nat, d: nat) -> nat
    decreases fs.len(),
{
    if fs.len() == 0 {
        0
    } else {
        walk_measure(fs.drop_last(), b, d) + fs.last().rest.len() * weight(
            b,
            (d - (fs.len() - 1)) as nat,
        )
    }
}

/// The measure of a resolver against symlinks `links` whose targets are at
/// most `bound` long: the walk still to do, and a reserve for the frame that
/// a pending question may open.
pub open spec fn measure(links: Map<Seq<u8>, Seq<u8>>, bound: nat, s: ResolverView) -> nat {
    let b = bound + 2;
    let d = links.dom().len() + 1;
    let r = (bound + 1) * weight(b, (d - s.frames.len()) as nat);
    walk_measure(s.frames, b, d) + match s.phase {
        Phase::Lstat => r + 1,
        Phase::Target => r,
        _ => 0,
    }
}

/// What a lenient resolver keeps true as it resolves against `links`: every
/// inner frame resolves a distinct symlink of `links`, which stays marked in
/// progress (no later record resolves it) for as long as its frame lives.
pub open spec fn tracks(links: Map<Seq<u8>, Seq<u8>>, s: ResolverView) -> bool {
    let n = s.frames.len();
    let rs = s.records;
    &&& !s.strict
    &&& s.phase != Phase::Exists
    &&& forall|i: int| 0 <= i < n ==> (#[trigger] s.frames[i]).mark <= rs.len()
    &&& forall|i: int, j: int|
        0 <= i < j < n ==> (#[trigger] s.frames[i]).mark <= (#[trigger] s.frames[j]).mark
    &&& forall|i: int|
        1 <= i < n ==> {
            &&& links.contains_key((#[trigger] s.frames[i]).link)
            &&& s.frames[i].mark >= 1
            &&& rs[s.frames[i].mark - 1] == (s.frames[i].link, None::<Seq<u8>>)
            &&& forall|j: int|
                s.frames[i].mark <= j < rs.len() && (#[trigger] rs[j]).0 == s.frames[i].link
                    ==> rs[j].1 is None
        }
    &&& forall|i: int, j: int|
        1 <= i < j < n ==> (#[trigger] s.frames[i]).link != (#[trigger] s.frames[j]).link
    &&& s.phase == Phase::Target ==> {
        &&& rs.len() >= 1
        &&& rs.last() == (s.cand, None::<Seq<u8>>)
        &&& links.contains_key(s.cand)
        &&& forall|i: int| 1 <= i < n ==> (#[trigger] s.frames[i]).link != s.cand
    }
}

/// A key last recorded as in progress is looked up as in progress.
proof fn lemma_lookup_in_progress(rs: Seq<Record>, k: Seq<u8>, j: int)
    requires
        0 <= j < rs.len(),
        rs[j] == (k, None::<Seq<u8>>),
        forall|m: int| j <= m < rs.len() && (#[trigger] rs[m]).0 == k ==> rs[m].1 is None,
    ensures
        lookup(rs, k) == Some(None::<Seq<u8>>),
    decreases rs.len(),
{
    if rs.last().0 != k {
        let d = rs.drop_last();
        assert forall|m: int| j <= m < d.len() && (#[trigger] d[m]).0 == k implies d[m].1 is None by {
            assert(d[m] == rs[m]);
        }
        lemma_lookup_in_progress(d, k, j);
    } else {
        assert(rs[rs.len() - 1].1 is None);
    }
}

/// Frames nest no deeper than there are symlinks, plus one.
proof fn lemma_depth(links: Map<Seq<u8>, Seq<u8>>, s: ResolverView)
    requires
        links.dom().finite(),
        tracks(links, s),
    ensures
        s.frames.len() <= links.dom().len() + 1,
{
    let n = s.frames.len();
    if n > 1 {
        let ls = Seq::new((n - 1) as nat, |i: int| s.frames[i + 1].link);
        assert(ls.no_duplicates()) by {
            assert forall|i: int, j: int|
                0 <= i < ls.len() && 0 <= j < ls.len() && i != j implies ls[i] != ls[j] by {
                if i < j {
                    assert(s.frames[i + 1].link != s.frames[j + 1].link);
                } else {
                    assert(s.frames[j + 1].link != s.frames[i + 1].link);
                }
            }
        }
        ls.unique_seq_to_set();
        assert(ls.to_set().subset_of(links.dom())) by {
            assert forall|k: Seq<u8>| ls.to_set().contains(k) implies links.dom().contains(k) by {
                let i = choose|i: int| 0 <= i < ls.len() && ls[i] == k;
                assert(links.contains_key(s.frames[i + 1].link));
            }
        }
        lemma_len_subset(ls.to_set(), links.dom());
    }
}

/// Powers of a positive base are positive, and one more power is a factor
/// `b` more.
proof fn lemma_weight(b: nat, e: nat)
    requires
        b >= 1,
    ensures
        weight(b, e) >= 1,
        weight(b, e + 1) == b * weight(b, e),
    decreases e,
{
    assert(((e + 1) - 1) as nat == e);
    if e > 0 {
        lemma_weight(b, (e - 1) as nat);
        assert(weight(b, e) == b * weight(b, (e - 1) as nat));
        assert(b * weight(b, (e - 1) as nat) >= 1) by (nonlinear_arith)
            requires
                b >= 1,
                weight(b, (e - 1) as nat) >= 1,
        ;
    }
}

/// Replacing the innermost frame changes only its own term.
proof fn lemma_walk_top(fs: Seq<FrameView>, f: FrameView, b: nat, d: nat)
    requires
        fs.len() > 0,
    ensures
        walk_measure(fs.drop_last().push(f), b, d) == walk_measure(fs.drop_last(), b, d)
            + f.rest.len() * weight(b, (d - (fs.len() - 1)) as nat),
        walk_measure(fs, b, d) == walk_measure(fs.drop_last(), b, d) + fs.last().rest.len()
            * weight(b, (d - (fs.len() - 1)) as nat),
{
    assert(fs.drop_last().push(f).drop_last() =~= fs.drop_last());
}

/// One move of a walk keeps what a lenient resolver tracks, and does not
/// raise the measure; a move that stops opens a question or finishes.
proof fn lemma_micro(links: Map<Seq<u8>, Seq<u8>>, bound: nat, s: ResolverView)
    requires
        links.dom().finite(),
        tracks(links, s),
        s.phase == Phase::Running,
    ensures
        tracks(links, micro(s).1),
        measure(links, bound, micro(s).1) <= measure(links, bound, s),
        micro(s).0 ==> micro(s).1.phase == Phase::Running,
        !micro(s).0 ==> (micro(s).1.phase == Phase::Lstat || micro(s).1.phase == Phase::Over),
{
    let m = micro(s);
    let t = m.1;
    let n = s.frames.len();
    let b = bound + 2;
    let d = links.dom().len() + 1;
    let rs = s.records;
    lemma_depth(links, s);
    if n == 0 {
        return;
    }
    let f = s.frames.last();
    let fs = s.frames.drop_last();
    if f.rest.len() == 0 {
        if n == 1 {
            return;
        }
        // The innermost frame returns into its parent.
        let p = fs.last();
        let p2 = FrameView { ret: f.ret, rest: p.rest, mark: p.mark, link: p.link };
        assert(t.frames == fs.drop_last().push(p2));
        assert(f == s.frames[n - 1]);
        assert(p == s.frames[n - 2]);
        assert(f.mark <= rs.len());
        let rs2 = rs.take(f.mark as int).push((f.link, Some(f.ret)));
        assert(t.records == rs2);
        assert forall|i: int| 0 <= i < n - 1 implies #[trigger] t.frames[i] == (if i == n - 2 {
            p2
        } else {
            s.frames[i]
        }) by {}
        assert forall|i: int| 0 <= i < n - 1 implies (#[trigger] t.frames[i]).mark <= f.mark by {
            assert(s.frames[i].mark <= s.frames[n - 1].mark);
        }
        assert forall|i: int| 1 <= i < n - 1 implies {
            &&& links.contains_key((#[trigger] t.frames[i]).link)
            &&& t.frames[i].mark >= 1
            &&& rs2[t.frames[i].mark - 1] == (t.frames[i].link, None::<Seq<u8>>)
            &&& forall|j: int|
                t.frames[i].mark <= j < rs2.len() && (#[trigger] rs2[j]).0 == t.frames[i].link
                    ==> rs2[j].1 is None
        } by {
            let fi = s.frames[i];
            assert(t.frames[i].link == fi.link && t.frames[i].mark == fi.mark);
            assert(fi.mark <= f.mark);
            assert(fi.link != s.frames[n - 1].link);
            assert(rs2[fi.mark - 1] == rs[fi.mark - 1]);
            assert forall|j: int|
                fi.mark <= j < rs2.len() && (#[trigger] rs2[j]).0 == fi.link implies rs2[j].1 is None by {
                if j < f.mark {
                    assert(rs2[j] == rs[j]);
                }
            }
        }
        assert forall|i: int, j: int|
            1 <= i < j < n - 1 implies (#[trigger] t.frames[i]).link != (
            #[trigger] t.frames[j]).link by {
            assert(s.frames[i].link != s.frames[j].link);
        }
        assert forall|i: int, j: int|
            0 <= i < j < n - 1 implies (#[trigger] t.frames[i]).mark <= (
            #[trigger] t.frames[j]).mark by {
            assert(s.frames[i].mark <= s.frames[j].mark);
        }
        assert(tracks(links, t));
        // The returning frame had nothing left; its parent keeps its walk.
        lemma_walk_top(fs, p2, b, d);
        lemma_walk_top(s.frames, f, b, d);
        assert(measure(links, bound, t) <= measure(links, bound, s));
    } else {
        lemma_part_rest_shorter(f.rest);
        let f2 = t.frames.last();
        assert(t.frames == fs.push(f2));
        assert(f2.rest.len() + 1 <= f.rest.len());
        assert(f2.mark == f.mark && f2.link == f.link);
        assert(t.records == rs);
        assert forall|i: int| 0 <= i < n implies (#[trigger] t.frames[i]).mark == s.frames[i].mark
            && t.frames[i].link == s.frames[i].link by {
            if i < n - 1 {
                assert(t.frames[i] == s.frames[i]);
            }
        }
        assert(tracks(links, t));
        lemma_walk_top(s.frames, f2, b, d);
        let w = weight(b, (d - (n - 1)) as nat);
        let w0 = weight(b, (d - n) as nat);
        lemma_weight(b, (d - n) as nat);
        assert((d - (n - 1)) as nat == ((d - n) as nat + 1) as nat);
        assert(w == b * w0);
        let k = f.rest.len();
        let k2 = f2.rest.len();
        assert(k2 * w + (bound + 1) * w0 + 1 <= k * w) by (nonlinear_arith)
            requires
                k2 + 1 <= k,
                w == (bound + 2) * w0,
                w0 >= 1,
        ;
        assert(k2 * w <= k * w) by (nonlinear_arith)
            requires
                k2 + 1 <= k,
        ;
    }
}

/// A whole walk keeps what a lenient resolver tracks, does not raise the
/// measure, and ends at a question about a symlink or finished.
proof fn lemma_run(links: Map<Seq<u8>, Seq<u8>>, bound: nat, s: ResolverView)
    requires
        links.dom().finite(),
        tracks(links, s),
        s.phase == Phase::Running,
    ensures
        tracks(links, run_spec(s).0),
        measure(links, bound, run_spec(s).0) <= measure(links, bound, s),
        run_spec(s).0.phase == Phase::Lstat || run_spec(s).0.phase == Phase::Over,
    decreases s.frames.len(), top_rest_len(s),
{
    lemma_micro(links, bound, s);
    let m = micro(s);
    if m.0 {
        if s.frames.len() > 0 && s.frames.last().rest.len() > 0 {
            lemma_part_rest_shorter(s.frames.last().rest);
            assert(m.1.frames.len() == s.frames.len());
        }
        lemma_run(links, bound, m.1);
    }
}

/// Lenient resolution terminates. Let `links` be the symlinks of a
/// filesystem (finitely many, with targets at most `bound` long). A resolver
/// started in lenient mode tracks `links`. Each truthful answer to its
/// question keeps that, and leaves the resolver finished or waiting on a new
/// question with a strictly smaller measure. So no more answers are needed
/// than the measure of the first question.
pub proof fn law_lenient_terminates(
    links: Map<Seq<u8>, Seq<u8>>,
    bound: nat,
    base: Seq<u8>,
    rest: Seq<u8>,
    s: ResolverView,
    a: AnswerView,
)
    requires
        links.dom().finite(),
        forall|k: Seq<u8>| links.contains_key(k) ==> (#[trigger] links[k]).len() <= bound,
        tracks(links, s),
        s.phase == Phase::Lstat || s.phase == Phase::Target,
        truthful(links, s, a),
    ensures
        tracks(links, run_spec(initial(base, rest, false)).0),
        tracks(links, answer_spec(s, a).0),
        answer_spec(s, a).0.phase == Phase::Over || (answer_spec(s, a).0.phase != Phase::Running
            && measure(links, bound, answer_spec(s, a).0) < measure(links, bound, s)),
{
    let s0 = initial(base, rest, false);
    assert(tracks(links, s0));
    lemma_run(links, bound, s0);
    lemma_depth(links, s);
    let n = s.frames.len();
    let b = bound + 2;
    let d = links.dom().len() + 1;
    let w0 = weight(b, (d - n) as nat);
    lemma_weight(b, (d - n) as nat);
    let rs = s.records;
    let r = answer_spec(s, a);
    if s.phase == Phase::Lstat {
        match a {
            AnswerView::Symlink => {
                match lookup(rs, s.cand) {
                    Some(Some(v)) => {
                        let t = with_phase(set_top_ret(s, v), Phase::Running);
                        assert(t.frames.len() == n);
                        assert forall|i: int| 0 <= i < n implies (#[trigger] t.frames[i]).mark
                            == s.frames[i].mark && t.frames[i].link == s.frames[i].link
                            && t.frames[i].rest == s.frames[i].rest by {
                            if i < n - 1 {
                                assert(t.frames[i] == s.frames[i]);
                            }
                        }
                        assert(tracks(links, t));
                        assert(walk_measure(t.frames, b, d) == walk_measure(s.frames, b, d)) by {
                            if n > 0 {
                                lemma_walk_top(s.frames, t.frames.last(), b, d);
                                assert(t.frames =~= s.frames.drop_last().push(t.frames.last()));
                            } else {
                                assert(t.frames == s.frames);
                            }
                        }
                        lemma_run(links, bound, t);
                        assert(r == run_spec(t));
                    },
                    Some(None) => {},
                    None => {
                        // The candidate is in no frame: those are all in progress.
                        assert forall|i: int| 1 <= i < n implies (#[trigger] s.frames[i]).link
                            != s.cand by {
                            let fi = s.frames[i];
                            lemma_lookup_in_progress(rs, fi.link, fi.mark - 1);
                        }
                        let rs2 = rs.push((s.cand, None::<Seq<u8>>));
                        assert(r.0.records == rs2);
                        assert forall|i: int| 1 <= i < n implies {
                            &&& rs2[(#[trigger] s.frames[i]).mark - 1] == (
                                s.frames[i].link,
                                None::<Seq<u8>>,
                            )
                            &&& forall|j: int|
                                s.frames[i].mark <= j < rs2.len() && (#[trigger] rs2[j]).0
                                    == s.frames[i].link ==> rs2[j].1 is None
                        } by {
                            let fi = s.frames[i];
                            assert(rs2[fi.mark - 1] == rs[fi.mark - 1]);
                            assert forall|j: int|
                                fi.mark <= j < rs2.len() && (#[trigger] rs2[j]).0
                                    == fi.link implies rs2[j].1 is None by {
                                if j < rs.len() {
                                    assert(rs2[j] == rs[j]);
                                }
                            }
                        }
                        assert(tracks(links, r.0));
                    },
                }
            },
            AnswerView::NotSymlink | AnswerView::Failed => {
                let t = with_phase(set_top_ret(s, s.cand), Phase::Running);
                assert(t.frames.len() == n);
                assert forall|i: int| 0 <= i < n implies (#[trigger] t.frames[i]).mark
                    == s.frames[i].mark && t.frames[i].link == s.frames[i].link
                    && t.frames[i].rest == s.frames[i].rest by {
                    if i < n - 1 {
                        assert(t.frames[i] == s.frames[i]);
                    }
                }
                assert(tracks(links, t));
                assert(walk_measure(t.frames, b, d) == walk_measure(s.frames, b, d)) by {
                    if n > 0 {
                        lemma_walk_top(s.frames, t.frames.last(), b, d);
                        assert(t.frames =~= s.frames.drop_last().push(t.frames.last()));
                    } else {
                        assert(t.frames == s.frames);
                    }
                }
                lemma_run(links, bound, t);
                assert(r == run_spec(t));
            },
            _ => {},
        }
    } else {
        // A new frame for the target, with the reserve's weight.
        let tg = links[s.cand];
        assert(a == AnswerView::Target(tg));
        let t = enter_target(s, tg);
        let nf = t.frames.last();
        assert(t.frames == s.frames.push(nf));
        assert(nf.rest.len() <= tg.len());
        assert(nf.mark == rs.len() && nf.link == s.cand);
        assert(t.records == rs);
        assert forall|i: int| 0 <= i < n implies #[trigger] t.frames[i] == s.frames[i] by {}
        assert forall|i: int, j: int|
            1 <= i < j < n + 1 implies (#[trigger] t.frames[i]).link != (
            #[trigger] t.frames[j]).link by {
            if j < n {
                assert(s.frames[i].link != s.frames[j].link);
            }
        }
        assert forall|i: int, j: int|
            0 <= i < j < n + 1 implies (#[trigger] t.frames[i]).mark <= (
            #[trigger] t.frames[j]).mark by {
            if j < n {
                assert(s.frames[i].mark <= s.frames[j].mark);
            }
        }
        assert(tracks(links, t));
        assert(t.frames.drop_last() =~= s.frames);
        assert(walk_measure(t.frames, b, d) == walk_measure(s.frames, b, d) + nf.rest.len()
            * weight(b, (d - n) as nat));
        let k = nf.rest.len();
        assert(k * w0 < (bound + 1) * w0) by (nonlinear_arith)
            requires
                k <= bound,
                w0 >= 1,
        ;
        lemma_run(links, bound, t);
        assert(r == run_spec(t));
    }
}

} // verus!
