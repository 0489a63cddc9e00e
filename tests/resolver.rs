use fpath::{abspath, isabs, normpath, Answer, Resolver, Step};
use std::collections::{HashMap, HashSet};

/// An in-memory filesystem: plain paths that exist, and symlinks with their
/// targets.
struct FakeFs {
    plain: HashSet<Vec<u8>>,
    links: HashMap<Vec<u8>, Vec<u8>>,
}

impl FakeFs {
    fn new(plain: &[&str], links: &[(&str, &str)]) -> FakeFs {
        FakeFs {
            plain: plain.iter().map(|p| p.as_bytes().to_vec()).collect(),
            links: links
                .iter()
                .map(|(a, b)| (a.as_bytes().to_vec(), b.as_bytes().to_vec()))
                .collect(),
        }
    }

    /// Follows symlinks, with a bound on their number.
    fn reaches(&self, p: &[u8]) -> bool {
        let mut cur = normpath(p);
        for _ in 0..40 {
            if self.plain.contains(&cur) {
                return true;
            }
            match self.links.get(&cur) {
                Some(t) => {
                    let (head, _) = fpath::split(&cur);
                    cur = if isabs(t) { normpath(t) } else { abspath(t, &head) };
                }
                None => return false,
            }
        }
        false
    }
}

#[derive(Debug, PartialEq)]
enum Outcome {
    Done(Vec<u8>, bool),
    NotFound(Vec<u8>),
    Invalid(Vec<u8>),
}

/// Runs a resolver to its end against `fs`, counting the questions.
fn drive(fs: &FakeFs, base: &str, rest: &str, strict: bool) -> (Outcome, usize) {
    let (mut r, mut step) = Resolver::start(base.as_bytes(), rest.as_bytes(), strict);
    let mut asked = 0;
    loop {
        assert!(asked < 1000, "resolver did not finish");
        let answer = match step {
            Step::Lstat(p) => {
                if fs.links.contains_key(&p) {
                    Answer::Symlink
                } else if fs.plain.contains(&p) {
                    Answer::NotSymlink
                } else {
                    Answer::Failed
                }
            }
            Step::ReadLink(p) => Answer::Target(fs.links[&p].clone()),
            Step::Exists(p) => Answer::Exists(fs.reaches(&p)),
            Step::Done(p, ok) => return (Outcome::Done(p, ok), asked),
            Step::NotFound(p) => return (Outcome::NotFound(p), asked),
            Step::Invalid(p) => return (Outcome::Invalid(p), asked),
            Step::Ignored => panic!("answer ignored"),
        };
        asked += 1;
        step = r.answer(answer);
    }
}

fn real_path(fs: &FakeFs, p: &str, strict: bool, cwd: &str) -> Outcome {
    match drive(fs, "", p, strict).0 {
        Outcome::Done(q, _) => Outcome::Done(abspath(&q, cwd.as_bytes()), true),
        other => other,
    }
}

fn v(s: &str) -> Vec<u8> {
    s.as_bytes().to_vec()
}

#[test]
fn realpath() {
    let fs = FakeFs::new(&[], &[]);
    let result_str = match real_path(&fs, "//", false, "/cwd") {
        Outcome::Done(p, _) => p,
        other => panic!("{:?}", other),
    };
    assert_eq!(result_str, v("/"));
}

#[test]
fn test_joinrealpath() {
    let (_r, step) = Resolver::start(b"", b"//", false);
    match step {
        Step::Done(p, ok) => assert_eq!((p, ok), (v("/"), true)),
        _ => panic!("joinrealpath error"),
    }
}

#[test]
fn plain_components_are_walked() {
    let fs = FakeFs::new(&["/a", "/a/b"], &[]);
    assert_eq!(drive(&fs, "", "/a/./b//", false), (Outcome::Done(v("/a/b"), true), 2));
}

#[test]
fn relative_path_keeps_leading_dotdot() {
    let fs = FakeFs::new(&[], &[]);
    assert_eq!(drive(&fs, "", "../x/..", false).0, Outcome::Done(v(".."), true));
    assert_eq!(drive(&fs, "", "../..", false).0, Outcome::Done(v("../.."), true));
    assert_eq!(real_path(&fs, "../x", false, "/w/c"), Outcome::Done(v("/w/x"), true));
}

#[test]
fn symlink_is_followed() {
    let fs = FakeFs::new(&["/d", "/d/real", "/d/real/f"], &[("/d/ln", "real")]);
    assert_eq!(drive(&fs, "", "/d/ln/f", false).0, Outcome::Done(v("/d/real/f"), true));
    let fs = FakeFs::new(&["/t", "/d"], &[("/d/abs", "/t")]);
    assert_eq!(drive(&fs, "", "/d/abs/x", false).0, Outcome::Done(v("/t/x"), true));
}

#[test]
fn link_to_dotdot_climbs() {
    let fs = FakeFs::new(&["/a", "/a/b"], &[("/a/b/up", "..")]);
    assert_eq!(drive(&fs, "", "/a/b/up", false).0, Outcome::Done(v("/a"), true));
}

#[test]
fn self_link_lenient_stops() {
    let fs = FakeFs::new(&["/tmp"], &[("/tmp/x", "x")]);
    let (out, asked) = drive(&fs, "", "/tmp/x", false);
    assert_eq!(out, Outcome::Done(v("/tmp/x/"), false));
    assert!(asked < 10);
    assert_eq!(real_path(&fs, "/tmp/x/y", false, "/"), Outcome::Done(v("/tmp/x/y"), true));
}

#[test]
fn self_link_strict_fails() {
    let fs = FakeFs::new(&["/tmp"], &[("/tmp/x", "x")]);
    assert_eq!(drive(&fs, "", "/tmp/x", true).0, Outcome::Invalid(v("/tmp/x")));
}

#[test]
fn two_link_cycle() {
    let fs = FakeFs::new(&["/c"], &[("/c/a", "b"), ("/c/b", "a")]);
    assert_eq!(drive(&fs, "", "/c/a/z", false).0, Outcome::Done(v("/c/a/z"), false));
    assert_eq!(drive(&fs, "", "/c/a/z", true).0, Outcome::Invalid(v("/c/a")));
}

#[test]
fn missing_component() {
    let fs = FakeFs::new(&["/a"], &[]);
    assert_eq!(drive(&fs, "", "/a/nope/q", false).0, Outcome::Done(v("/a/nope/q"), true));
    assert_eq!(drive(&fs, "", "/a/nope/q", true).0, Outcome::NotFound(v("/a/nope")));
}

#[test]
fn resolved_link_is_reused() {
    let fs = FakeFs::new(&["/d", "/d/t"], &[("/d/l", "t")]);
    let (out, asked) = drive(&fs, "", "/d/l/../l", false);
    assert_eq!(out, Outcome::Done(v("/d/t"), true));
    // Lstat /d, Lstat /d/l, ReadLink, Lstat /d/t, Lstat /d/l (known now).
    assert_eq!(asked, 5);
}

#[test]
fn answers_of_the_wrong_kind_are_ignored() {
    let (mut r, step) = Resolver::start(b"", b"/a", false);
    assert!(matches!(step, Step::Lstat(ref p) if p == b"/a"));
    assert!(matches!(r.answer(Answer::Exists(true)), Step::Ignored));
    assert!(matches!(r.answer(Answer::NotSymlink), Step::Done(ref p, true) if p == b"/a"));
    assert!(matches!(r.answer(Answer::NotSymlink), Step::Ignored));
}

#[test]
fn broken_link_lenient_and_strict() {
    let fs = FakeFs::new(&["/d"], &[("/d/bad", "missing/x")]);
    assert_eq!(drive(&fs, "", "/d/bad/y", false).0, Outcome::Done(v("/d/missing/x/y"), true));
    assert_eq!(drive(&fs, "", "/d/bad/y", true).0, Outcome::NotFound(v("/d/missing")));
}

#[test]
fn base_is_used_for_relative_rest() {
    let fs = FakeFs::new(&["/b", "/b/c"], &[]);
    assert_eq!(drive(&fs, "/b", "c", false).0, Outcome::Done(v("/b/c"), true));
    assert_eq!(drive(&fs, "/b", "/b", false).0, Outcome::Done(v("/b"), true));
}

#[test]
fn link_to_dot() {
    let fs = FakeFs::new(&["/e"], &[("/e/l", ".")]);
    assert_eq!(drive(&fs, "", "/e/l", true).0, Outcome::Done(v("/e"), true));
    assert_eq!(drive(&fs, "", "/e/l", false).0, Outcome::Done(v("/e"), true));
}
