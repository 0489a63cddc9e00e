//! Byte scanning: the first and last occurrence of a byte in a path.
use vstd::prelude::*;

verus! {

/// The path separator.
pub const SEP: u8 = 47;

/// The extension marker.
pub const DOT: u8 = 46;

/// Index of the last occurrence of `c` in `s`, or -1 when there is none.
pub open spec fn rfind(s: Seq<u8>, c: u8) -> int
    decreases s.len(),
{
    if s.len() == 0 {
        -1
    } else if s.last() == c {
        s.len() - 1
    } else {
        rfind(s.drop_last(), c)
    }
}

/// Index of the first occurrence of `c` in `s`, or -1 when there is none.
pub open spec fn find(s: Seq<u8>, c: u8) -> int
    decreases s.len(),
{
    if s.len() == 0 {
        -1
    } else if find(s.drop_last(), c) >= 0 {
        find(s.drop_last(), c)
    } else if s.last() == c {
        s.len() - 1
    } else {
        -1
    }
}

/// `find` names the first occurrence, and -1 means that there is none.
pub proof fn lemma_find(s: Seq<u8>, c: u8)
    ensures
        -1 <= find(s, c) < s.len(),
        find(s, c) == -1 <==> !has_byte(s, c),
        find(s, c) >= 0 ==> s[find(s, c)] == c,
        forall|j: int| 0 <= j < find(s, c) ==> s[j] != c,
        find(s, c) == -1 ==> forall|j: int| 0 <= j < s.len() ==> s[j] != c,
    decreases s.len(),
{
    if s.len() > 0 {
        let d = s.drop_last();
        lemma_find(d, c);
        if find(d, c) >= 0 {
            assert(s[find(d, c)] == d[find(d, c)]);
            assert forall|j: int| 0 <= j < find(s, c) implies s[j] != c by {
                assert(d[j] == s[j]);
            }
        } else {
            assert forall|j: int| 0 <= j < s.len() - 1 implies s[j] != c by {
                assert(d[j] == s[j]);
            }
            if has_byte(s, c) {
                let i = choose|i: int| 0 <= i < s.len() && s[i] == c;
                assert(i == s.len() - 1);
            }
        }
    }
}

/// Whether `c` occurs in `s`.
pub open spec fn has_byte(s: Seq<u8>, c: u8) -> bool {
    exists|i: int| 0 <= i < s.len() && s[i] == c
}

/// `rfind` names the last occurrence, and -1 means that there is none.
pub proof fn lemma_rfind(s: Seq<u8>, c: u8)
    ensures
        -1 <= rfind(s, c) < s.len(),
        rfind(s, c) == -1 <==> !has_byte(s, c),
        rfind(s, c) >= 0 ==> s[rfind(s, c)] == c,
        forall|j: int| rfind(s, c) < j < s.len() ==> s[j] != c,
    decreases s.len(),
{
    if s.len() > 0 && s.last() != c {
        lemma_rfind(s.drop_last(), c);
        assert forall|j: int| rfind(s, c) < j < s.len() implies s[j] != c by {
            if j < s.len() - 1 {
                assert(s.drop_last()[j] != c);
            }
        }
        if has_byte(s, c) {
            let i = choose|i: int| 0 <= i < s.len() && s[i] == c;
            assert(s.drop_last()[i] == c);
        }
    }
}

/// A position holding `c` with no `c` after it is where `rfind` points.
pub proof fn lemma_rfind_at(s: Seq<u8>, c: u8, i: int)
    requires
        0 <= i < s.len(),
        s[i] == c,
        forall|j: int| i < j < s.len() ==> s[j] != c,
    ensures
        rfind(s, c) == i,
{
    lemma_rfind(s, c);
}

/// With no `c` in `s`, `rfind` is -1.
pub proof fn lemma_rfind_none(s: Seq<u8>, c: u8)
    requires
        forall|j: int| 0 <= j < s.len() ==> s[j] != c,
    ensures
        rfind(s, c) == -1,
{
    lemma_rfind(s, c);
}

/// Relies on memchr::memrchr: the index of the last occurrence of `needle`
/// in `haystack`, or `None` when it does not occur.
#[verifier::external_body]
fn memrchr_byte(needle: u8, haystack: &[u8]) -> (r: Option<usize>)
    ensures
        match r {
            Some(i) => i < haystack@.len() && haystack@[i as int] == needle && forall|j: int|
                i < j < haystack@.len() ==> haystack@[j] != needle,
            None => forall|j: int| 0 <= j < haystack@.len() ==> haystack@[j] != needle,
        },
{
    memchr::memrchr(needle, haystack)
}

/// Relies on memchr::memchr: the index of the first occurrence of `needle`
/// in `haystack`, or `None` when it does not occur.
#[verifier::external_body]
fn memchr_byte(needle: u8, haystack: &[u8]) -> (r: Option<usize>)
    ensures
        match r {
            Some(i) => i < haystack@.len() && haystack@[i as int] == needle && forall|j: int|
                0 <= j < i ==> haystack@[j] != needle,
            None => forall|j: int| 0 <= j < haystack@.len() ==> haystack@[j] != needle,
        },
{
    memchr::memchr(needle, haystack)
}

/// The last index of `c` in `s`, as `rfind` gives it.
pub fn last_index(c: u8, s: &[u8]) -> (r: Option<usize>)
    ensures
        rfind(s@, c) < 0 ==> r is None,
        rfind(s@, c) >= 0 ==> r == Some(rfind(s@, c) as usize),
        r matches Some(i) ==> i < s@.len(),
{
    proof {
        lemma_rfind(s@, c);
    }
    let r = memrchr_byte(c, s);
    proof {
        match r {
            Some(i) => lemma_rfind_at(s@, c, i as int),
            None => lemma_rfind_none(s@, c),
        }
    }
    r
}

/// The first index of `c` in `s`: `Some(i)` where `s[i] == c` and no earlier
/// byte is `c`, `None` where `c` does not occur.
pub fn first_index(c: u8, s: &[u8]) -> (r: Option<usize>)
    ensures
        match r {
            Some(i) => i < s@.len() && s@[i as int] == c && forall|j: int|
                0 <= j < i ==> s@[j] != c,
            None => !has_byte(s@, c),
        },
        find(s@, c) < 0 ==> r is None,
        find(s@, c) >= 0 ==> r == Some(find(s@, c) as usize),
{
    let r = memchr_byte(c, s);
    proof {
        lemma_find(s@, c);
        match r {
            Some(i) => {
                if find(s@, c) != i {
                    assert(s@[find(s@, c)] == c);
                }
            },
            None => {
                if find(s@, c) >= 0 {
                    assert(s@[find(s@, c)] == c);
                }
            },
        }
    }
    r
}

} // verus!
