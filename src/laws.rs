//! Laws that relate several functions of the path algebra.
use vstd::prelude::*;
use crate::scan::{SEP, rfind, has_byte, lemma_rfind};
use crate::algebra::{
    is_abs, all_sep, trim_end_sep, split_head, split_tail, join2, lemma_trim_end_sep,
};
use crate::resolve::{
    Phase, ResolverView, StepView, AnswerView, micro, run_spec, answer_spec, initial, lookup,
    unwind, with_phase, top_rest_len, lemma_part_rest_shorter,
};
use crate::norm::{
    comps, norm_fold, normpath_spec, lead, lemma_comps_concat, lemma_fold_concat,
    lemma_fold_empties,
};

verus! {

/// A run of separators before `t` adds one empty component per separator.
proof fn lemma_comps_after_seps(s: Seq<u8>, t: Seq<u8>)
    requires
        all_sep(s),
    ensures
        comps(s + t) == Seq::new(s.len(), |i: int| Seq::<u8>::empty()) + comps(t),
    decreases s.len(),
{
    let e = Seq::<u8>::empty();
    if s.len() == 0 {
        assert(s + t =~= t);
        assert(Seq::new(s.len(), |i: int| e) + comps(t) =~= comps(t));
    } else {
        let s1 = s.skip(1);
        assert(all_sep(s1));
        lemma_comps_after_seps(s1, t);
        assert(s + t =~= e + seq![SEP] + (s1 + t));
        lemma_comps_concat(e, s1 + t);
        assert(comps(e) =~= seq![e]);
        assert(seq![e] + (Seq::new(s1.len(), |i: int| e) + comps(t)) =~= Seq::new(
            s.len(),
            |i: int| e,
        ) + comps(t));
    }
}

/// Two paths that agree on their leading bytes up to a non-separator byte,
/// or on their first three bytes, have the same leading separators.
proof fn lemma_same_lead(x: Seq<u8>, y: Seq<u8>, h: Seq<u8>)
    requires
        h.len() > 0,
        h.last() != SEP,
        x.len() >= h.len() + 2,
        y.len() >= h.len() + 2,
        x.take(h.len() + 1int) == h + seq![SEP],
        y.take(h.len() + 1int) == h + seq![SEP],
    ensures
        is_abs(x) == is_abs(y),
        lead(x) == lead(y),
{
    assert(x[0] == x.take(h.len() + 1int)[0]);
    assert(y[0] == y.take(h.len() + 1int)[0]);
    if h.len() >= 2 {
        assert(x[1] == x.take(h.len() + 1int)[1]);
        assert(y[1] == y.take(h.len() + 1int)[1]);
        assert(x[2] == x.take(h.len() + 1int)[2]);
        assert(y[2] == y.take(h.len() + 1int)[2]);
    }
}

/// Joining the two halves of `split` gives back the path, up to
/// normalisation of its separators, whenever the tail is not empty.
pub proof fn law_split_join(p: Seq<u8>)
    requires
        split_tail(p).len() > 0,
    ensures
        normpath_spec(join2(split_head(p), split_tail(p))) == normpath_spec(p),
{
    lemma_rfind(p, SEP);
    let k = rfind(p, SEP);
    let t = split_tail(p);
    let hh = p.take(k + 1);
    assert(p =~= hh + t);
    assert(!has_byte(t, SEP)) by {
        if has_byte(t, SEP) {
            let j = choose|j: int| 0 <= j < t.len() && t[j] == SEP;
            assert(p[k + 1 + j] == SEP);
        }
    }
    assert(!is_abs(t)) by {
        if is_abs(t) {
            assert(t[0] == SEP);
        }
    }
    if hh.len() == 0 {
        assert(join2(split_head(p), t) =~= p);
    } else if all_sep(hh) {
        assert(hh.last() == SEP);
        assert(join2(split_head(p), t) =~= p);
    } else {
        lemma_trim_end_sep(hh);
        let h = trim_end_sep(hh);
        let s = hh.skip(h.len() as int);
        assert(s.len() >= 1);
        let s1 = s.skip(1);
        assert(all_sep(s1)) by {
            assert forall|i: int| 0 <= i < s1.len() implies s1[i] == SEP by {
                assert(s1[i] == hh[h.len() + 1 + i]);
            }
        }
        let x = join2(h, t);
        assert(x == h + seq![SEP] + t);
        assert(hh =~= h + s);
        assert(s[0] == SEP) by {
            assert(s[0] == hh[h.len() as int]);
        }
        assert(p =~= h + seq![SEP] + (s1 + t));
        lemma_comps_concat(h, t);
        lemma_comps_concat(h, s1 + t);
        lemma_comps_after_seps(s1, t);
        let e = Seq::new(s1.len(), |i: int| Seq::<u8>::empty());
        let ch = comps(h);
        assert(comps(p) =~= (ch + e) + comps(t));
        assert(comps(x) =~= ch + comps(t));
        assert(x.take(h.len() + 1int) =~= h + seq![SEP]);
        assert(p.take(h.len() + 1int) =~= h + seq![SEP]);
        lemma_same_lead(x, p, h);
        let abs = is_abs(p);
        let empty = Seq::<Seq<u8>>::empty();
        lemma_fold_concat(empty, ch + e, comps(t), abs);
        lemma_fold_concat(empty, ch, e, abs);
        lemma_fold_empties(norm_fold(empty, ch, abs), e, abs);
        lemma_fold_concat(empty, ch, comps(t), abs);
    }
}

/// The steps that a walk can stop at: a question about a symlink, or the end.
pub open spec fn walk_stop(st: StepView) -> bool {
    st is Lstat || st is Done
}

/// The steps that a lenient resolver can take: never an existence check,
/// never an error.
pub open spec fn lenient_step(st: StepView) -> bool {
    !(st is Exists || st is NotFound || st is Invalid)
}

/// A walk keeps the mode and stops only at a question about a symlink or at
/// the end.
proof fn lemma_run_outcome(s: ResolverView)
    ensures
        run_spec(s).0.strict == s.strict,
        run_spec(s).0.phase == Phase::Exists ==> s.phase == Phase::Exists,
        walk_stop(run_spec(s).1),
    decreases s.frames.len(), top_rest_len(s),
{
    let m = micro(s);
    if m.0 {
        if s.frames.len() > 0 && s.frames.last().rest.len() > 0 {
            lemma_part_rest_shorter(s.frames.last().rest);
            assert(m.1.frames.len() == s.frames.len());
        }
        lemma_run_outcome(m.1);
    }
}

/// A lenient resolver: not strict, and so never waiting to learn whether a
/// path exists.
pub open spec fn lenient(s: ResolverView) -> bool {
    !s.strict && s.phase != Phase::Exists
}

/// Lenient resolution never fails: a resolver started in lenient mode is
/// lenient, and after any answer whatsoever a lenient resolver stays so and
/// neither asks whether a path exists nor reports a missing or cyclic path.
pub proof fn law_lenient_never_fails(base: Seq<u8>, rest: Seq<u8>, s: ResolverView, a: AnswerView)
    requires
        lenient(s),
    ensures
        lenient(run_spec(initial(base, rest, false)).0),
        lenient_step(run_spec(initial(base, rest, false)).1),
        lenient(answer_spec(s, a).0),
        lenient_step(answer_spec(s, a).1),
{
    lemma_run_outcome(initial(base, rest, false));
    let r = answer_spec(s, a);
    match s.phase {
        Phase::Lstat => match a {
            AnswerView::Symlink => match lookup(s.records, s.cand) {
                Some(Some(v)) => {
                    let t = with_phase(crate::resolve::set_top_ret(s, v), Phase::Running);
                    lemma_run_outcome(t);
                    assert(r == run_spec(t));
                },
                Some(None) => assert(r.1 is Done),
                None => assert(r.1 is ReadLink),
            },
            AnswerView::NotSymlink | AnswerView::Failed => {
                let t = with_phase(crate::resolve::set_top_ret(s, s.cand), Phase::Running);
                lemma_run_outcome(t);
                assert(r == run_spec(t));
            },
            _ => {},
        },
        Phase::Target => match a {
            AnswerView::Target(t) => {
                lemma_run_outcome(crate::resolve::enter_target(s, t));
                assert(r == run_spec(crate::resolve::enter_target(s, t)));
            },
            _ => {},
        },
        _ => {},
    }
}

/// A symlink met again while it is still being resolved closes a cycle. A
/// lenient resolver stops there at once: it returns the path reached, with
/// what each level had left to walk appended, as not fully resolved, and
/// ignores any later answer. A strict one asks whether the path exists, and
/// fails when it does not.
pub proof fn law_cycle_stops(s: ResolverView, later: AnswerView)
    requires
        s.phase == Phase::Lstat,
        lookup(s.records, s.cand) == Some(None::<Seq<u8>>),
    ensures
        !s.strict ==> answer_spec(s, AnswerView::Symlink) == (
            with_phase(s, Phase::Over),
            StepView::Done(unwind(s.frames, s.cand), false),
        ),
        !s.strict ==> answer_spec(answer_spec(s, AnswerView::Symlink).0, later).1
            == StepView::Ignored,
        s.strict ==> answer_spec(s, AnswerView::Symlink).1 == StepView::Exists(s.cand),
        s.strict ==> answer_spec(answer_spec(s, AnswerView::Symlink).0, AnswerView::Exists(false)).1
            == StepView::Invalid(s.cand),
{
}

} // verus!
