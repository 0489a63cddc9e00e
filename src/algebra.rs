//! Pure path algebra over byte strings: `isabs`, `join`, `split`,
//! `dirname`, `basename`, `splitext`, `normpath` and `abspath`.
use vstd::prelude::*;
use crate::scan::{SEP, DOT, rfind, lemma_rfind, last_index};

verus! {

// ---------------------------------------------------------------------------
// Models
// ---------------------------------------------------------------------------

/// A path is absolute when it starts with the separator.
pub open spec fn is_abs(p: Seq<u8>) -> bool {
    p.len() > 0 && p[0] == SEP
}

/// The byte strings held by a vector of byte vectors.
pub open spec fn views(v: Seq<Vec<u8>>) -> Seq<Seq<u8>> {
    Seq::new(v.len(), |i: int| v[i]@)
}

/// Every byte of `s` is the separator (true of the empty string).
pub open spec fn all_sep(s: Seq<u8>) -> bool {
    forall|i: int| 0 <= i < s.len() ==> s[i] == SEP
}

/// `s` without its trailing run of separators.
pub open spec fn trim_end_sep(s: Seq<u8>) -> Seq<u8>
    decreases s.len(),
{
    if s.len() > 0 && s.last() == SEP {
        trim_end_sep(s.drop_last())
    } else {
        s
    }
}

/// Where the last component starts: just after the last separator.
pub open spec fn tail_start(p: Seq<u8>) -> int {
    rfind(p, SEP) + 1
}

/// The head of `split`: everything up to the last separator, with trailing
/// separators trimmed unless the head is made of separators only.
pub open spec fn split_head(p: Seq<u8>) -> Seq<u8> {
    let h = p.take(tail_start(p));
    if h.len() > 0 && !all_sep(h) {
        trim_end_sep(h)
    } else {
        h
    }
}

/// The tail of `split`: everything after the last separator.
pub open spec fn split_tail(p: Seq<u8>) -> Seq<u8> {
    p.skip(tail_start(p))
}

/// Appends one part to a path: an absolute part replaces the path, otherwise
/// exactly one separator is put between them unless the path is empty or
/// already ends with one.
pub open spec fn join2(a: Seq<u8>, b: Seq<u8>) -> Seq<u8> {
    if is_abs(b) {
        b
    } else if a.len() == 0 || a.last() == SEP {
        a + b
    } else {
        a + seq![SEP] + b
    }
}

/// `join` as a left fold of `join2` over the parts.
pub open spec fn join_all(base: Seq<u8>, parts: Seq<Seq<u8>>) -> Seq<u8>
    decreases parts.len(),
{
    if parts.len() == 0 {
        base
    } else {
        join2(join_all(base, parts.drop_last()), parts.last())
    }
}

/// Where the extension of `p` starts: its last `.`, when that comes after the
/// last separator and some byte other than `.` stands between the two;
/// -1 when `p` has no extension (`.bashrc`, `a/..b` do not).
pub open spec fn ext_start(p: Seq<u8>) -> int {
    let s = rfind(p, SEP);
    let d = rfind(p, DOT);
    if d > s && exists|k: int| s + 1 <= k < d && p[k] != DOT {
        d
    } else {
        -1
    }
}

/// The root of `splitext`: `p` without its extension.
pub open spec fn ext_root(p: Seq<u8>) -> Seq<u8> {
    if ext_start(p) >= 0 {
        p.take(ext_start(p))
    } else {
        p
    }
}

/// The extension of `p`, from its `.` to the end; empty if it has none.
pub open spec fn ext_of(p: Seq<u8>) -> Seq<u8> {
    if ext_start(p) >= 0 {
        p.skip(ext_start(p))
    } else {
        Seq::empty()
    }
}

// ---------------------------------------------------------------------------
// Small lemmas
// ---------------------------------------------------------------------------

/// Trimming removes exactly a trailing run of separators.
pub proof fn lemma_trim_end_sep(s: Seq<u8>)
    ensures
        trim_end_sep(s).len() <= s.len(),
        trim_end_sep(s) =~= s.take(trim_end_sep(s).len() as int),
        trim_end_sep(s).len() > 0 ==> trim_end_sep(s).last() != SEP,
        forall|i: int| trim_end_sep(s).len() <= i < s.len() ==> s[i] == SEP,
        trim_end_sep(s).len() == 0 <==> all_sep(s),
    decreases s.len(),
{
    if s.len() > 0 && s.last() == SEP {
        lemma_trim_end_sep(s.drop_last());
        let t = trim_end_sep(s.drop_last());
        assert(t =~= s.take(t.len() as int));
        assert forall|i: int| t.len() <= i < s.len() implies s[i] == SEP by {
            if i < s.len() - 1 {
                assert(s.drop_last()[i] == SEP);
            }
        }
        if all_sep(s.drop_last()) {
            assert forall|i: int| 0 <= i < s.len() implies s[i] == SEP by {
                if i < s.len() - 1 {
                    assert(s.drop_last()[i] == SEP);
                }
            }
        }
        if all_sep(s) {
            assert(all_sep(s.drop_last()));
        }
    } else {
        assert(s =~= s.take(s.len() as int));
        if s.len() > 0 {
            assert(!all_sep(s));
        }
    }
}

// ---------------------------------------------------------------------------
// Executable helpers
// ---------------------------------------------------------------------------

/// Appends the bytes of `s` to `out`.
pub fn push_all(out: &mut Vec<u8>, s: &[u8])
    ensures
        final(out)@ == old(out)@ + s@,
{
    let mut i: usize = 0;
    while i < s.len()
        invariant
            i <= s@.len(),
            out@ == old(out)@ + s@.take(i as int),
        decreases s@.len() - i,
    {
        out.push(s[i]);
        i = i + 1;
        assert(s@.take(i as int) =~= s@.take(i - 1) + seq![s@[i - 1]]);
        assert(out@ =~= old(out)@ + s@.take(i as int));
    }
    assert(s@.take(i as int) =~= s@);
}

/// A fresh vector holding the bytes of `s`.
pub fn to_bytes(s: &[u8]) -> (r: Vec<u8>)
    ensures
        r@ == s@,
{
    let mut r: Vec<u8> = Vec::new();
    push_all(&mut r, s);
    assert(r@ =~= s@);
    r
}

/// The length of `s` without its trailing separators.
pub fn trimmed_len(s: &[u8]) -> (n: usize)
    ensures
        n == trim_end_sep(s@).len(),
{
    let mut n: usize = s.len();
    assert(s@.take(n as int) =~= s@);
    while n > 0 && s[n - 1] == SEP
        invariant
            n <= s@.len(),
            trim_end_sep(s@.take(n as int)) == trim_end_sep(s@),
        decreases n,
    {
        assert(s@.take(n as int).drop_last() =~= s@.take(n - 1));
        n = n - 1;
    }
    proof {
        assert(trim_end_sep(s@.take(n as int)) == s@.take(n as int));
    }
    n
}

// ---------------------------------------------------------------------------
// Public functions
// ---------------------------------------------------------------------------

/// Whether `p` is absolute.
pub fn isabs(p: &[u8]) -> (r: bool)
    ensures
        r == is_abs(p@),
{
    p.len() > 0 && p[0] == SEP
}

/// The head and tail of `p` around its last separator.
pub fn split(p: &[u8]) -> (r: (Vec<u8>, Vec<u8>))
    ensures
        r.0@ == split_head(p@),
        r.1@ == split_tail(p@),
{
    proof {
        lemma_rfind(p@, SEP);
    }
    let len = p.len();
    let i: usize = match last_index(SEP, p) {
        Some(v) => v + 1,
        None => 0,
    };
    let head = vstd::slice::slice_subrange(p, 0, i);
    let tail = vstd::slice::slice_subrange(p, i, p.len());
    let n = trimmed_len(head);
    proof {
        lemma_trim_end_sep(head@);
        assert(head@ =~= p@.take(tail_start(p@)));
        assert(tail@ =~= split_tail(p@));
    }
    let h = if n == 0 {
        to_bytes(head)
    } else {
        to_bytes(vstd::slice::slice_subrange(head, 0, n))
    };
    (h, to_bytes(tail))
}

/// The directory part of `p`: the head of `split`.
pub fn dirname(p: &[u8]) -> (r: Vec<u8>)
    ensures
        r@ == split_head(p@),
{
    let (h, _t) = split(p);
    h
}

/// The final component of `p`: the tail of `split`.
pub fn basename(p: &[u8]) -> (r: Vec<u8>)
    ensures
        r@ == split_tail(p@),
{
    proof {
        lemma_rfind(p@, SEP);
    }
    let len = p.len();
    let i: usize = match last_index(SEP, p) {
        Some(v) => v + 1,
        None => 0,
    };
    to_bytes(vstd::slice::slice_subrange(p, i, p.len()))
}

/// `p` split before the `.` of its extension: `(root, ext)` with
/// `root + ext == p`; `(p, "")` when it has none.
pub fn splitext(p: &[u8]) -> (r: (Vec<u8>, Vec<u8>))
    ensures
        r.0@ == ext_root(p@),
        r.1@ == ext_of(p@),
        r.0@ + r.1@ == p@,
{
    proof {
        lemma_rfind(p@, SEP);
        lemma_rfind(p@, DOT);
    }
    let len = p.len();
    let start: usize = match last_index(SEP, p) {
        Some(v) => v + 1,
        None => 0,
    };
    match last_index(DOT, p) {
        Some(d) => {
            if d >= start {
                let mut k: usize = start;
                while k < d
                    invariant
                        start <= k <= d < p@.len(),
                        len == p@.len(),
                        start == rfind(p@, SEP) + 1,
                        d == rfind(p@, DOT),
                        forall|j: int| start <= j < k ==> p@[j] == DOT,
                    decreases d - k,
                {
                    if p[k] != DOT {
                        let root = to_bytes(vstd::slice::slice_subrange(p, 0, d));
                        let ext = to_bytes(vstd::slice::slice_subrange(p, d, len));
                        assert(ext_start(p@) == d);
                        assert(root@ + ext@ =~= p@);
                        return (root, ext);
                    }
                    k = k + 1;
                }
            }
            assert(ext_start(p@) == -1);
        },
        None => {},
    }
    let e: Vec<u8> = Vec::new();
    assert(e@ + p@ =~= p@);
    assert(p@ + e@ =~= p@);
    (to_bytes(p), e)
}

/// Appends `b` to `out` as `join2` does.
pub fn join_into(out: &mut Vec<u8>, b: &[u8])
    ensures
        final(out)@ == join2(old(out)@, b@),
{
    if b.len() > 0 && b[0] == SEP {
        out.clear();
        push_all(out, b);
        assert(final(out)@ =~= b@);
    } else if out.len() == 0 || out[out.len() - 1] == SEP {
        push_all(out, b);
    } else {
        out.push(SEP);
        push_all(out, b);
    }
}

/// Joins `parts` onto `base`: an absolute part restarts the path, and exactly
/// one separator goes between parts unless the path so far is empty or
/// already ends with one.
pub fn join(base: &[u8], parts: &Vec<Vec<u8>>) -> (r: Vec<u8>)
    ensures
        r@ == join_all(base@, views(parts@)),
{
    let mut out = to_bytes(base);
    let mut i: usize = 0;
    while i < parts.len()
        invariant
            i <= parts@.len(),
            out@ == join_all(base@, views(parts@).take(i as int)),
        decreases parts@.len() - i,
    {
        join_into(&mut out, parts[i].as_slice());
        i = i + 1;
        assert(views(parts@).take(i as int).drop_last() =~= views(parts@).take(i - 1));
    }
    assert(views(parts@).take(i as int) =~= views(parts@));
    out
}

} // verus!
