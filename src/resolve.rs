//! `realpath` as a step machine.
//!
//! A [`Resolver`] walks a path component by component and resolves symlinks
//! recursively. It never touches the filesystem itself: whenever it needs to
//! know whether a path is a symlink, what a symlink points to, or whether a
//! path exists, it stops and returns the question as a [`Step`]; the caller
//! asks the filesystem and hands the answer back through
//! [`Resolver::answer`].
//!
//! `Resolver::start(base, rest, strict)` resolves `rest` against `base`
//! (`joinrealpath`); `realpath(p)` is the path it ends with for `("", p)`,
//! made absolute with `abspath`.
//!
//! Each symlink under resolution gets a frame of its own. The `seen` records
//! of a frame (symlink path to "in progress" or to its resolved path) are kept
//! in one arena; a frame sees every record made before it started, and its
//! own records are dropped when it returns, so that sibling resolutions never
//! share what they learned.
use vstd::prelude::*;
use crate::scan::{SEP, DOT, find, lemma_find, first_index};
use crate::algebra::{
    is_abs, join2, split_head, split_tail, to_bytes, join_into, split,
};
use crate::norm::{is_dot, is_dotdot, is_dot_exec, is_dotdot_exec};

verus! {

// ---------------------------------------------------------------------------
// Models
// ---------------------------------------------------------------------------

/// What a resolver is doing.
#[derive(Clone, Copy, PartialEq, Eq, Structural)]
pub enum Phase {
    /// Walking components; never seen between calls.
    Running,
    /// Waiting to learn whether the candidate is a symlink.
    Lstat,
    /// Waiting for the candidate symlink's target.
    Target,
    /// Waiting to learn whether the candidate exists (strict mode, cycle).
    Exists,
    /// Finished: a result or an error has been returned.
    Over,
}

/// One level of resolution, as values.
pub struct FrameView {
    /// The path resolved so far.
    pub ret: Seq<u8>,
    /// What is left to walk.
    pub rest: Seq<u8>,
    /// Number of `seen` records that existed when this frame started.
    pub mark: nat,
    /// The symlink whose target this frame resolves (empty for the outermost).
    pub link: Seq<u8>,
}

/// A `seen` record: a symlink path, and its resolved path once known.
pub type Record = (Seq<u8>, Option<Seq<u8>>);

/// A resolver, as values.
pub struct ResolverView {
    pub frames: Seq<FrameView>,
    pub records: Seq<Record>,
    pub strict: bool,
    /// The path last asked about.
    pub cand: Seq<u8>,
    pub phase: Phase,
}

/// A request to the caller, or the outcome.
pub enum StepView {
    Lstat(Seq<u8>),
    ReadLink(Seq<u8>),
    Exists(Seq<u8>),
    Done(Seq<u8>, bool),
    NotFound(Seq<u8>),
    Invalid(Seq<u8>),
    Ignored,
}

/// An answer from the caller, as values.
pub enum AnswerView {
    Symlink,
    NotSymlink,
    Failed,
    Target(Seq<u8>),
    Exists(bool),
}

/// The component before the first separator (the whole string if none).
pub open spec fn part_name(r: Seq<u8>) -> Seq<u8> {
    if find(r, SEP) < 0 {
        r
    } else {
        r.take(find(r, SEP))
    }
}

/// What follows the first separator (empty if none).
pub open spec fn part_rest(r: Seq<u8>) -> Seq<u8> {
    if find(r, SEP) < 0 {
        Seq::empty()
    } else {
        r.skip(find(r, SEP) + 1)
    }
}

/// The resolved path after a `..` component: `..` for an empty path; else
/// the path's head, with `../..` appended when its last component was `..`.
pub open spec fn pop_ret(ret: Seq<u8>) -> Seq<u8> {
    if ret.len() == 0 {
        seq![DOT, DOT]
    } else if is_dotdot(split_tail(ret)) {
        join2(join2(split_head(ret), seq![DOT, DOT]), seq![DOT, DOT])
    } else {
        split_head(ret)
    }
}

/// The first records, `m` of them (all of them when there are fewer).
pub open spec fn truncate(r: Seq<Record>, m: nat) -> Seq<Record> {
    if m <= r.len() {
        r.take(m as int)
    } else {
        r
    }
}

/// The latest record for `k`: `None` if there is none.
pub open spec fn lookup(r: Seq<Record>, k: Seq<u8>) -> Option<Option<Seq<u8>>>
    decreases r.len(),
{
    if r.len() == 0 {
        None
    } else if r.last().0 == k {
        Some(r.last().1)
    } else {
        lookup(r.drop_last(), k)
    }
}

/// The result when a cycle stops the walk at `p`: each frame, from the
/// innermost out, appends what it had left to walk.
pub open spec fn unwind(frames: Seq<FrameView>, p: Seq<u8>) -> Seq<u8>
    decreases frames.len(),
{
    if frames.len() == 0 {
        p
    } else {
        unwind(frames.drop_last(), join2(p, frames.last().rest))
    }
}

/// A frame that resolves `rest` against `base`: an absolute `rest` starts
/// again from the root.
pub open spec fn new_frame(base: Seq<u8>, rest: Seq<u8>, mark: nat, link: Seq<u8>) -> FrameView {
    if is_abs(rest) {
        FrameView { ret: seq![SEP], rest: rest.skip(1), mark, link }
    } else {
        FrameView { ret: base, rest, mark, link }
    }
}

pub open spec fn with_frames(s: ResolverView, frames: Seq<FrameView>) -> ResolverView {
    ResolverView { frames, records: s.records, strict: s.strict, cand: s.cand, phase: s.phase }
}

pub open spec fn with_phase(s: ResolverView, phase: Phase) -> ResolverView {
    ResolverView { frames: s.frames, records: s.records, strict: s.strict, cand: s.cand, phase }
}

/// The resolved path of the innermost frame.
pub open spec fn top_ret(s: ResolverView) -> Seq<u8> {
    if s.frames.len() > 0 {
        s.frames.last().ret
    } else {
        Seq::empty()
    }
}

/// What the innermost frame has left to walk.
pub open spec fn top_rest_len(s: ResolverView) -> nat {
    if s.frames.len() > 0 {
        s.frames.last().rest.len()
    } else {
        0
    }
}

/// The innermost frame's resolved path replaced by `v`.
pub open spec fn set_top_ret(s: ResolverView, v: Seq<u8>) -> ResolverView {
    if s.frames.len() > 0 {
        let f = s.frames.last();
        with_frames(
            s,
            s.frames.drop_last().push(FrameView { ret: v, rest: f.rest, mark: f.mark, link: f.link }),
        )
    } else {
        s
    }
}

/// One move of the walk: `(true, t, _)` goes on from `t`; `(false, t, st)`
/// stops in `t` and returns `st`.
pub open spec fn micro(s: ResolverView) -> (bool, ResolverView, StepView) {
    if s.frames.len() == 0 {
        (false, with_phase(s, Phase::Over), StepView::Done(Seq::empty(), true))
    } else {
        let f = s.frames.last();
        if f.rest.len() == 0 {
            if s.frames.len() == 1 {
                (false, with_phase(s, Phase::Over), StepView::Done(f.ret, true))
            } else {
                // The frame returns its path to the one that waited for it,
                // which records it for the symlink.
                let fs = s.frames.drop_last();
                let p = fs.last();
                (
                    true,
                    ResolverView {
                        frames: fs.drop_last().push(
                            FrameView { ret: f.ret, rest: p.rest, mark: p.mark, link: p.link },
                        ),
                        records: truncate(s.records, f.mark).push((f.link, Some(f.ret))),
                        strict: s.strict,
                        cand: s.cand,
                        phase: s.phase,
                    },
                    StepView::Ignored,
                )
            }
        } else {
            let name = part_name(f.rest);
            let rest = part_rest(f.rest);
            let fs = s.frames.drop_last();
            if name.len() == 0 || is_dot(name) {
                (
                    true,
                    with_frames(
                        s,
                        fs.push(FrameView { ret: f.ret, rest, mark: f.mark, link: f.link }),
                    ),
                    StepView::Ignored,
                )
            } else if is_dotdot(name) {
                (
                    true,
                    with_frames(
                        s,
                        fs.push(FrameView { ret: pop_ret(f.ret), rest, mark: f.mark, link: f.link }),
                    ),
                    StepView::Ignored,
                )
            } else {
                let c = join2(f.ret, name);
                (
                    false,
                    ResolverView {
                        frames: fs.push(FrameView { ret: f.ret, rest, mark: f.mark, link: f.link }),
                        records: s.records,
                        strict: s.strict,
                        cand: c,
                        phase: Phase::Lstat,
                    },
                    StepView::Lstat(c),
                )
            }
        }
    }
}

/// The walk goes on until it needs the filesystem or has finished.
pub open spec fn run_spec(s: ResolverView) -> (ResolverView, StepView)
    decreases s.frames.len(), top_rest_len(s),
    via run_spec_decreases
{
    let m = micro(s);
    if m.0 {
        run_spec(m.1)
    } else {
        (m.1, m.2)
    }
}

/// Each move that goes on drops a frame or shortens what the innermost one
/// has left.
#[via_fn]
proof fn run_spec_decreases(s: ResolverView) {
    let m = micro(s);
    if m.0 && s.frames.len() > 0 {
        let f = s.frames.last();
        if f.rest.len() > 0 {
            lemma_part_rest_shorter(f.rest);
            assert(m.1.frames.len() == s.frames.len());
            assert(m.1.frames.last().rest == part_rest(f.rest));
        }
    }
}

/// What follows the first separator is shorter than the whole.
pub proof fn lemma_part_rest_shorter(r: Seq<u8>)
    requires
        r.len() > 0,
    ensures
        part_rest(r).len() < r.len(),
{
    lemma_find(r, SEP);
}

/// A symlink's target arrives: a frame for it starts after the records made
/// so far.
pub open spec fn enter_target(s: ResolverView, t: Seq<u8>) -> ResolverView {
    with_phase(
        with_frames(s, s.frames.push(new_frame(top_ret(s), t, s.records.len(), s.cand))),
        Phase::Running,
    )
}

/// The candidate is marked in progress and its target is asked for.
pub open spec fn ask_target(s: ResolverView) -> (ResolverView, StepView) {
    (
        ResolverView {
            frames: s.frames,
            records: s.records.push((s.cand, None)),
            strict: s.strict,
            cand: s.cand,
            phase: Phase::Target,
        },
        StepView::ReadLink(s.cand),
    )
}

/// What an answer does. An answer of the wrong kind, or one after the end,
/// is ignored and leaves the resolver as it was.
pub open spec fn answer_spec(s: ResolverView, a: AnswerView) -> (ResolverView, StepView) {
    match s.phase {
        Phase::Lstat => match a {
            AnswerView::Symlink => match lookup(s.records, s.cand) {
                Some(Some(v)) => run_spec(with_phase(set_top_ret(s, v), Phase::Running)),
                Some(None) => if s.strict {
                    (with_phase(s, Phase::Exists), StepView::Exists(s.cand))
                } else {
                    (with_phase(s, Phase::Over), StepView::Done(unwind(s.frames, s.cand), false))
                },
                None => ask_target(s),
            },
            AnswerView::NotSymlink => run_spec(
                with_phase(set_top_ret(s, s.cand), Phase::Running),
            ),
            AnswerView::Failed => if s.strict {
                (with_phase(s, Phase::Over), StepView::NotFound(s.cand))
            } else {
                run_spec(with_phase(set_top_ret(s, s.cand), Phase::Running))
            },
            _ => (s, StepView::Ignored),
        },
        Phase::Target => match a {
            AnswerView::Target(t) => run_spec(enter_target(s, t)),
            _ => (s, StepView::Ignored),
        },
        Phase::Exists => match a {
            AnswerView::Exists(b) => if b {
                ask_target(s)
            } else {
                (with_phase(s, Phase::Over), StepView::Invalid(s.cand))
            },
            _ => (s, StepView::Ignored),
        },
        _ => (s, StepView::Ignored),
    }
}

/// The resolver that resolves `rest` against `base`, before its first move.
pub open spec fn initial(base: Seq<u8>, rest: Seq<u8>, strict: bool) -> ResolverView {
    ResolverView {
        frames: seq![new_frame(base, rest, 0, Seq::empty())],
        records: Seq::empty(),
        strict,
        cand: Seq::empty(),
        phase: Phase::Running,
    }
}

// ---------------------------------------------------------------------------
// Executable types
// ---------------------------------------------------------------------------

struct Frame {
    ret: Vec<u8>,
    rest: Vec<u8>,
    mark: usize,
    link: Vec<u8>,
}

impl View for Frame {
    type V = FrameView;

    closed spec fn view(&self) -> FrameView {
        FrameView { ret: self.ret@, rest: self.rest@, mark: self.mark as nat, link: self.link@ }
    }
}

struct Entry {
    key: Vec<u8>,
    value: Option<Vec<u8>>,
}

impl View for Entry {
    type V = Record;

    closed spec fn view(&self) -> Record {
        (
            self.key@,
            match self.value {
                Some(v) => Some(v@),
                None => None,
            },
        )
    }
}

spec fn frames_view(v: Seq<Frame>) -> Seq<FrameView> {
    Seq::new(v.len(), |i: int| v[i]@)
}

spec fn records_view(v: Seq<Entry>) -> Seq<Record> {
    Seq::new(v.len(), |i: int| v[i]@)
}

/// Resolves a path to its canonical, symlink-free form, one filesystem
/// question at a time.
pub struct Resolver {
    frames: Vec<Frame>,
    records: Vec<Entry>,
    strict: bool,
    cand: Vec<u8>,
    phase: Phase,
}

impl View for Resolver {
    type V = ResolverView;

    closed spec fn view(&self) -> ResolverView {
        ResolverView {
            frames: frames_view(self.frames@),
            records: records_view(self.records@),
            strict: self.strict,
            cand: self.cand@,
            phase: self.phase,
        }
    }
}

/// What the resolver needs next, or how it ended.
pub enum Step {
    /// Is this path a symlink? Ask without following it.
    Lstat(Vec<u8>),
    /// What does this symlink point to?
    ReadLink(Vec<u8>),
    /// Does this path exist (following symlinks)?
    Exists(Vec<u8>),
    /// The resolved path, and whether it is fully resolved (false when a
    /// symlink cycle stopped the walk).
    Done(Vec<u8>, bool),
    /// Strict mode: a component does not exist.
    NotFound(Vec<u8>),
    /// Strict mode: a symlink cycle that does not lead anywhere.
    Invalid(Vec<u8>),
    /// The answer was not for the question asked, or came after the end.
    Ignored,
}

impl View for Step {
    type V = StepView;

    open spec fn view(&self) -> StepView {
        match self {
            Step::Lstat(p) => StepView::Lstat(p@),
            Step::ReadLink(p) => StepView::ReadLink(p@),
            Step::Exists(p) => StepView::Exists(p@),
            Step::Done(p, b) => StepView::Done(p@, *b),
            Step::NotFound(p) => StepView::NotFound(p@),
            Step::Invalid(p) => StepView::Invalid(p@),
            Step::Ignored => StepView::Ignored,
        }
    }
}

/// The caller's answer to the last [`Step`].
pub enum Answer {
    /// For `Lstat`: the path is a symlink.
    Symlink,
    /// For `Lstat`: the path exists and is not a symlink.
    NotSymlink,
    /// For `Lstat`: the query failed (the path does not exist).
    Failed,
    /// For `ReadLink`: the symlink's target.
    Target(Vec<u8>),
    /// For `Exists`.
    Exists(bool),
}

impl View for Answer {
    type V = AnswerView;

    open spec fn view(&self) -> AnswerView {
        match self {
            Answer::Symlink => AnswerView::Symlink,
            Answer::NotSymlink => AnswerView::NotSymlink,
            Answer::Failed => AnswerView::Failed,
            Answer::Target(t) => AnswerView::Target(t@),
            Answer::Exists(b) => AnswerView::Exists(*b),
        }
    }
}

// ---------------------------------------------------------------------------
// Executable helpers
// ---------------------------------------------------------------------------

/// Whether two byte strings are equal.
pub fn bytes_eq(a: &[u8], b: &[u8]) -> (r: bool)
    ensures
        r == (a@ == b@),
{
    if a.len() != b.len() {
        return false;
    }
    let mut i: usize = 0;
    while i < a.len()
        invariant
            a@.len() == b@.len(),
            i <= a@.len(),
            forall|j: int| 0 <= j < i ==> a@[j] == b@[j],
        decreases a@.len() - i,
    {
        if a[i] != b[i] {
            return false;
        }
        i = i + 1;
    }
    assert(a@ =~= b@);
    true
}

/// The first component of `r` and what follows its separator.
fn partition(r: &[u8]) -> (out: (Vec<u8>, Vec<u8>))
    ensures
        out.0@ == part_name(r@),
        out.1@ == part_rest(r@),
{
    proof {
        lemma_find(r@, SEP);
    }
    let n = r.len();
    match first_index(SEP, r) {
        Some(k) => (
            to_bytes(vstd::slice::slice_subrange(r, 0, k)),
            to_bytes(vstd::slice::slice_subrange(r, k + 1, r.len())),
        ),
        None => {
            let e: Vec<u8> = Vec::new();
            assert(e@ =~= Seq::<u8>::empty());
            (to_bytes(r), e)
        },
    }
}

/// `join2` into a fresh vector.
fn join_pair(a: &[u8], b: &[u8]) -> (r: Vec<u8>)
    ensures
        r@ == join2(a@, b@),
{
    let mut out = to_bytes(a);
    join_into(&mut out, b);
    out
}

fn dotdot() -> (r: Vec<u8>)
    ensures
        r@ == seq![DOT, DOT],
{
    let r = vec![DOT, DOT];
    assert(r@ =~= seq![DOT, DOT]);
    r
}

/// The resolved path after a `..` component.
fn pop_ret_exec(ret: &[u8]) -> (r: Vec<u8>)
    ensures
        r@ == pop_ret(ret@),
{
    if ret.len() == 0 {
        return dotdot();
    }
    let (head, tail) = split(ret);
    let dd = dotdot();
    if bytes_eq(tail.as_slice(), dd.as_slice()) {
        let mut out = head;
        join_into(&mut out, dd.as_slice());
        join_into(&mut out, dd.as_slice());
        out
    } else {
        head
    }
}

/// A fresh frame for resolving `rest` against `base`.
fn make_frame(base: &[u8], rest: &[u8], mark: usize, link: Vec<u8>) -> (f: Frame)
    ensures
        f@ == new_frame(base@, rest@, mark as nat, link@),
{
    if rest.len() > 0 && rest[0] == SEP {
        let root = vec![SEP];
        assert(root@ =~= seq![SEP]);
        Frame { ret: root, rest: to_bytes(vstd::slice::slice_subrange(rest, 1, rest.len())), mark, link }
    } else {
        Frame { ret: to_bytes(base), rest: to_bytes(rest), mark, link }
    }
}

/// The cycle result: `p` with each frame's remaining walk appended, from
/// the innermost frame out.
fn unwind_exec(frames: &Vec<Frame>, p: Vec<u8>) -> (r: Vec<u8>)
    ensures
        r@ == unwind(frames_view(frames@), p@),
{
    let mut out = p;
    let mut i: usize = frames.len();
    assert(frames_view(frames@).take(i as int) =~= frames_view(frames@));
    while i > 0
        invariant
            i <= frames@.len(),
            unwind(frames_view(frames@).take(i as int), out@) == unwind(
                frames_view(frames@),
                p@,
            ),
        decreases i,
    {
        let ghost before = out@;
        join_into(&mut out, frames[i - 1].rest.as_slice());
        proof {
            let fv = frames_view(frames@).take(i as int);
            assert(fv.drop_last() =~= frames_view(frames@).take(i - 1));
            assert(fv.last() == frames@[i - 1]@);
        }
        i = i - 1;
    }
    proof {
        assert(frames_view(frames@).take(0) =~= Seq::<FrameView>::empty());
    }
    out
}

/// The latest record for `k`.
fn lookup_exec(records: &Vec<Entry>, k: &[u8]) -> (r: Option<Option<Vec<u8>>>)
    ensures
        match r {
            None => lookup(records_view(records@), k@) is None,
            Some(None) => lookup(records_view(records@), k@) == Some(None::<Seq<u8>>),
            Some(Some(v)) => lookup(records_view(records@), k@) == Some(Some(v@)),
        },
{
    let mut i: usize = records.len();
    assert(records_view(records@).take(i as int) =~= records_view(records@));
    while i > 0
        invariant
            i <= records@.len(),
            lookup(records_view(records@), k@) == lookup(records_view(records@).take(i as int), k@),
        decreases i,
    {
        let e = &records[i - 1];
        proof {
            let rv = records_view(records@).take(i as int);
            assert(rv.drop_last() =~= records_view(records@).take(i - 1));
            assert(rv.last() == records@[i - 1]@);
        }
        if bytes_eq(e.key.as_slice(), k) {
            return match &e.value {
                Some(v) => Some(Some(to_bytes(v.as_slice()))),
                None => Some(None),
            };
        }
        i = i - 1;
    }
    proof {
        assert(records_view(records@).take(0) =~= Seq::<Record>::empty());
    }
    None
}

impl Resolver {
    /// Walks until the filesystem is needed or the walk is over.
    fn run(&mut self) -> (r: Step)
        ensures
            (final(self)@, r@) == run_spec(old(self)@),
    {
        let ghost start = self@;
        loop
            invariant
                run_spec(self@) == run_spec(start),
                start == old(self)@,
            decreases self@.frames.len(), top_rest_len(self@),
        {
            let ghost prev = self@;
            if self.frames.len() == 0 {
                self.phase = Phase::Over;
                let e: Vec<u8> = Vec::new();
                assert(e@ =~= Seq::<u8>::empty());
                assert(self@ == micro(prev).1);
                assert(run_spec(prev) == (micro(prev).1, micro(prev).2));
                return Step::Done(e, true);
            }
            let f = self.frames.pop().unwrap();
            proof {
                assert(frames_view(self.frames@) =~= prev.frames.drop_last());
                assert(f@ == prev.frames.last());
            }
            if f.rest.len() == 0 {
                if self.frames.len() == 0 {
                    let r = to_bytes(f.ret.as_slice());
                    self.frames.push(f);
                    self.phase = Phase::Over;
                    assert(frames_view(self.frames@) =~= prev.frames);
                    assert(self@ == micro(prev).1);
                    assert(run_spec(prev) == (micro(prev).1, micro(prev).2));
                    return Step::Done(r, true);
                }
                let p = self.frames.pop().unwrap();
                proof {
                    assert(frames_view(self.frames@) =~= prev.frames.drop_last().drop_last());
                    assert(p@ == prev.frames.drop_last().last());
                }
                self.records.truncate(f.mark);
                let rv = to_bytes(f.ret.as_slice());
                self.records.push(Entry { key: f.link, value: Some(rv) });
                self.frames.push(Frame { ret: f.ret, rest: p.rest, mark: p.mark, link: p.link });
                proof {
                    let m = micro(prev);
                    assert(frames_view(self.frames@) =~= m.1.frames);
                    assert(records_view(self.records@) =~= m.1.records);
                    assert(self@ == m.1);
                }
            } else {
                let (name, rest) = partition(f.rest.as_slice());
                proof {
                    lemma_part_rest_shorter(f.rest@);
                }
                if name.len() == 0 || is_dot_exec(name.as_slice()) {
                    self.frames.push(Frame { ret: f.ret, rest, mark: f.mark, link: f.link });
                } else if is_dotdot_exec(name.as_slice()) {
                    let nr = pop_ret_exec(f.ret.as_slice());
                    self.frames.push(Frame { ret: nr, rest, mark: f.mark, link: f.link });
                } else {
                    let c = join_pair(f.ret.as_slice(), name.as_slice());
                    self.frames.push(Frame { ret: f.ret, rest, mark: f.mark, link: f.link });
                    self.cand = to_bytes(c.as_slice());
                    self.phase = Phase::Lstat;
                    proof {
                        assert(frames_view(self.frames@) =~= micro(prev).1.frames);
                        assert(self@ == micro(prev).1);
                        assert(run_spec(prev) == (micro(prev).1, micro(prev).2));
                    }
                    return Step::Lstat(c);
                }
                proof {
                    let m = micro(prev);
                    assert(frames_view(self.frames@) =~= m.1.frames);
                    assert(self@ == m.1);
                }
            }
        }
    }

    /// Starts resolving `rest` against `base` (an absolute `rest` starts
    /// from the root), and walks up to the first question.
    pub fn start(base: &[u8], rest: &[u8], strict: bool) -> (r: (Resolver, Step))
        ensures
            (r.0@, r.1@) == run_spec(initial(base@, rest@, strict)),
    {
        let f = make_frame(base, rest, 0, Vec::new());
        let mut frames: Vec<Frame> = Vec::new();
        frames.push(f);
        let mut r = Resolver {
            frames,
            records: Vec::new(),
            strict,
            cand: Vec::new(),
            phase: Phase::Running,
        };
        proof {
            assert(frames_view(r.frames@) =~= initial(base@, rest@, strict).frames);
            assert(records_view(r.records@) =~= Seq::<Record>::empty());
            assert(r.cand@ =~= Seq::<u8>::empty());
            assert(r@ == initial(base@, rest@, strict));
        }
        let st = r.run();
        (r, st)
    }

    fn set_top_ret(&mut self, v: Vec<u8>)
        ensures
            final(self)@ == set_top_ret(old(self)@, v@),
    {
        let ghost prev = self@;
        if self.frames.len() > 0 {
            let f = self.frames.pop().unwrap();
            proof {
                assert(frames_view(self.frames@) =~= prev.frames.drop_last());
                assert(f@ == prev.frames.last());
            }
            self.frames.push(Frame { ret: v, rest: f.rest, mark: f.mark, link: f.link });
            assert(frames_view(self.frames@) =~= set_top_ret(prev, v@).frames);
        }
    }

    fn ask_target(&mut self) -> (r: Step)
        ensures
            (final(self)@, r@) == ask_target(old(self)@),
    {
        let ghost prev = self@;
        let key = to_bytes(self.cand.as_slice());
        self.records.push(Entry { key, value: None });
        self.phase = Phase::Target;
        assert(records_view(self.records@) =~= prev.records.push((prev.cand, None)));
        Step::ReadLink(to_bytes(self.cand.as_slice()))
    }

    fn top_ret_exec(&self) -> (r: Vec<u8>)
        ensures
            r@ == top_ret(self@),
    {
        let n = self.frames.len();
        if n > 0 {
            assert(self.frames@[n - 1]@ == self@.frames.last());
            to_bytes(self.frames[n - 1].ret.as_slice())
        } else {
            let e: Vec<u8> = Vec::new();
            assert(e@ =~= Seq::<u8>::empty());
            e
        }
    }

    /// Hands the resolver the answer to its last question and walks on to
    /// the next one, or to the end.
    pub fn answer(&mut self, a: Answer) -> (r: Step)
        ensures
            (final(self)@, r@) == answer_spec(old(self)@, a@),
    {
        let ghost prev = self@;
        match self.phase {
            Phase::Lstat => match a {
                Answer::Symlink => match lookup_exec(&self.records, self.cand.as_slice()) {
                    Some(Some(v)) => {
                        self.set_top_ret(v);
                        self.phase = Phase::Running;
                        self.run()
                    },
                    Some(None) => {
                        let c = to_bytes(self.cand.as_slice());
                        if self.strict {
                            self.phase = Phase::Exists;
                            Step::Exists(c)
                        } else {
                            self.phase = Phase::Over;
                            Step::Done(unwind_exec(&self.frames, c), false)
                        }
                    },
                    None => self.ask_target(),
                },
                Answer::NotSymlink => {
                    let c = to_bytes(self.cand.as_slice());
                    self.set_top_ret(c);
                    self.phase = Phase::Running;
                    self.run()
                },
                Answer::Failed => {
                    let c = to_bytes(self.cand.as_slice());
                    if self.strict {
                        self.phase = Phase::Over;
                        Step::NotFound(c)
                    } else {
                        self.set_top_ret(c);
                        self.phase = Phase::Running;
                        self.run()
                    }
                },
                _ => Step::Ignored,
            },
            Phase::Target => match a {
                Answer::Target(t) => {
                    let base = self.top_ret_exec();
                    let link = to_bytes(self.cand.as_slice());
                    let f = make_frame(base.as_slice(), t.as_slice(), self.records.len(), link);
                    self.frames.push(f);
                    self.phase = Phase::Running;
                    assert(frames_view(self.frames@) =~= enter_target(prev, t@).frames);
                    self.run()
                },
                _ => Step::Ignored,
            },
            Phase::Exists => match a {
                Answer::Exists(b) => {
                    if b {
                        self.ask_target()
                    } else {
                        self.phase = Phase::Over;
                        Step::Invalid(to_bytes(self.cand.as_slice()))
                    }
                },
                _ => Step::Ignored,
            },
            _ => Step::Ignored,
        }
    }
}

} // verus!
