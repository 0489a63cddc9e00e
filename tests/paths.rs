use fpath::{
    basename, commonprefix, components, expand_home_with, expanduser, expandvars,
    expandvars_with, isabs, lookup_var, join, normpath, relpath, split, splitext, tilde_user,
};

fn v(s: &str) -> Vec<u8> {
    s.as_bytes().to_vec()
}

fn parts(ps: &[&str]) -> Vec<Vec<u8>> {
    ps.iter().map(|p| v(p)).collect()
}

#[test]
fn dirname() {
    let fname = "/path/to/test.txt";
    let result_str = fpath::dirname(fname.as_bytes());
    assert_eq!(result_str, v("/path/to"));

    let fname = "/";
    let result_str = fpath::dirname(fname.as_bytes());
    assert_eq!(result_str, v("/"));

    let fname = "//";
    let result_str = fpath::dirname(fname.as_bytes());
    assert_eq!(result_str, v("//"));

    let fname = "path/to/test.txt";
    let result_str = fpath::dirname(fname.as_bytes());
    assert_eq!(result_str, v("path/to"));

    let dpath = "/path/to/dirname/";
    let result_str = fpath::dirname(dpath.as_bytes());
    assert_eq!(result_str, v("/path/to/dirname"));
}

#[test]
fn abspath_against_cwd() {
    assert_eq!(fpath::abspath(b"test.txt", b"/home/u"), v("/home/u/test.txt"));
    assert_eq!(fpath::abspath(b"/path/to/test.txt", b"/home/u"), v("/path/to/test.txt"));
    assert_eq!(fpath::abspath(b"../a/./b", b"/home/u/"), v("/home/a/b"));
    assert_eq!(fpath::abspath(b"", b"/home/u"), v("/home/u"));
}

#[test]
fn isabs_cases() {
    assert!(isabs(b"/a"));
    assert!(isabs(b"//"));
    assert!(!isabs(b"a/b"));
    assert!(!isabs(b""));
}

#[test]
fn split_cases() {
    assert_eq!(split(b"/a/b/"), (v("/a/b"), v("")));
    assert_eq!(split(b"/a/b"), (v("/a"), v("b")));
    assert_eq!(split(b"a//b"), (v("a"), v("b")));
    assert_eq!(split(b"b"), (v(""), v("b")));
    assert_eq!(split(b"/"), (v("/"), v("")));
    assert_eq!(split(b"//x"), (v("//"), v("x")));
    assert_eq!(split(b""), (v(""), v("")));
}

#[test]
fn dirname_and_basename_are_split() {
    for p in ["/a/b/c", "a//b", "/", "//", "x", "", "/a/b/", "///q"] {
        let (h, t) = split(p.as_bytes());
        assert_eq!(fpath::dirname(p.as_bytes()), h);
        assert_eq!(basename(p.as_bytes()), t);
    }
}

#[test]
fn basename_cases() {
    assert_eq!(basename(b"/path/to/test.txt"), v("test.txt"));
    assert_eq!(basename(b"/path/to/"), v(""));
    assert_eq!(basename(b"name"), v("name"));
}

#[test]
fn dirname_examples() {
    assert_eq!(fpath::dirname(b"/"), v("/"));
    assert_eq!(fpath::dirname(b"//"), v("//"));
    assert_eq!(fpath::dirname(b"/path/to/x"), v("/path/to"));
}

#[test]
fn splitext_examples() {
    assert_eq!(splitext(b"a.tar.gz"), (v("a.tar"), v(".gz")));
    assert_eq!(splitext(b".bashrc"), (v(".bashrc"), v("")));
    assert_eq!(splitext(b"/a/.b/c"), (v("/a/.b/c"), v("")));
}

#[test]
fn splitext_edges() {
    assert_eq!(splitext(b"..."), (v("..."), v("")));
    assert_eq!(splitext(b"a/..b"), (v("a/..b"), v("")));
    assert_eq!(splitext(b"a/x..b"), (v("a/x."), v(".b")));
    assert_eq!(splitext(b"a.b/c"), (v("a.b/c"), v("")));
    assert_eq!(splitext(b"file."), (v("file"), v(".")));
    assert_eq!(splitext(b""), (v(""), v("")));
}

#[test]
fn normpath_examples() {
    assert_eq!(normpath(b"/a/b/../c"), v("/a/c"));
    assert_eq!(normpath(b"../a"), v("../a"));
    assert_eq!(normpath(b"a/../../b"), v("../b"));
}

#[test]
fn normpath_edges() {
    assert_eq!(normpath(b""), v("."));
    assert_eq!(normpath(b"."), v("."));
    assert_eq!(normpath(b"a/.."), v("."));
    assert_eq!(normpath(b"/"), v("/"));
    assert_eq!(normpath(b"//"), v("//"));
    assert_eq!(normpath(b"///"), v("/"));
    assert_eq!(normpath(b"//a//b/"), v("//a/b"));
    assert_eq!(normpath(b"///a/./b"), v("/a/b"));
    assert_eq!(normpath(b"/../.."), v("/"));
    assert_eq!(normpath(b"../../x/.."), v("../.."));
}

#[test]
fn normpath_twice_is_once() {
    for p in ["", ".", "//", "///a/../b", "a/../../b/./c/", "/x/y/../../..", "../a/..", "//.."] {
        let once = normpath(p.as_bytes());
        assert_eq!(normpath(&once), once);
    }
}

#[test]
fn split_then_join_normalises_to_input() {
    for p in ["/a/b", "a//b", "//x", "///x", "a///b", "x", "/a/b//c"] {
        let (h, t) = split(p.as_bytes());
        assert!(!t.is_empty());
        let joined = join(&h, &vec![t]);
        assert_eq!(normpath(&joined), normpath(p.as_bytes()));
    }
    let (h, t) = split(b"a///b");
    assert_eq!(join(&h, &vec![t]), v("a/b"));
}

#[test]
fn join_cases() {
    assert_eq!(join(b"a", &parts(&[])), v("a"));
    assert_eq!(join(b"a", &parts(&["b", "c"])), v("a/b/c"));
    assert_eq!(join(b"a/", &parts(&["b"])), v("a/b"));
    assert_eq!(join(b"a", &parts(&["/b", "c"])), v("/b/c"));
    assert_eq!(join(b"", &parts(&["b"])), v("b"));
    assert_eq!(join(b"a", &parts(&[""])), v("a/"));
}

#[test]
fn components_cases() {
    assert_eq!(components(b"/a//b"), parts(&["", "a", "", "b"]));
    assert_eq!(components(b""), parts(&[""]));
    assert_eq!(components(b"x/"), parts(&["x", ""]));
}

#[test]
fn relpath_examples() {
    assert_eq!(relpath(b"/a/b/c", b"/a/x", b"/"), v("../b/c"));
}

#[test]
fn relpath_edges() {
    assert_eq!(relpath(b"/a/b", b"/a/b", b"/"), v("."));
    assert_eq!(relpath(b"/a", b"/a/b/c", b"/"), v("../.."));
    assert_eq!(relpath(b"b/c", b"/w", b"/w"), v("b/c"));
    assert_eq!(relpath(b"/", b"/", b"/"), v("."));
    assert_eq!(relpath(b"x", b"y", b"/cwd"), v("../x"));
}

#[test]
fn commonprefix_cases() {
    let a = parts(&["a", "b", "c"]);
    let b = parts(&["a", "b", "d", "e"]);
    assert_eq!(commonprefix(&a, &b), parts(&["a", "b"]));
    assert_eq!(commonprefix(&a, &parts(&[])), parts(&[]));
    assert_eq!(commonprefix(&a, &parts(&["a", "b", "c", "z"])), a);
}

#[test]
fn tilde_user_cases() {
    assert_eq!(tilde_user(b"~"), Some(v("")));
    assert_eq!(tilde_user(b"~bob/x"), Some(v("bob")));
    assert_eq!(tilde_user(b"a/~b"), None);
}

#[test]
fn expand_home_cases() {
    assert_eq!(expand_home_with(b"~", Some(v("/home/me/"))), v("/home/me"));
    assert_eq!(expand_home_with(b"~/x", Some(v("/home/me"))), v("/home/me/x"));
    assert_eq!(expand_home_with(b"~bob/x", Some(v("/users/bob//"))), v("/users/bob/x"));
    assert_eq!(expand_home_with(b"~", Some(v("/"))), v("/"));
    assert_eq!(expand_home_with(b"~bob/x", None), v("~bob/x"));
    assert_eq!(expand_home_with(b"x/~", Some(v("/h"))), v("x/~"));
}

#[test]
fn expanduser_current_user() {
    assert_eq!(expanduser(b"~", Some(v("/home/me/"))), v("/home/me"));
    assert_eq!(expanduser(b"~/a", Some(v("/home/me"))), v("/home/me/a"));
    assert_eq!(expanduser(b"plain", Some(v("/home/me"))), v("plain"));
}

#[test]
fn expanduser_unknown_user() {
    assert_eq!(expanduser(b"~unknownuser/x", None), v("~unknownuser/x"));
}

fn env(pairs: &[(&str, &str)]) -> Vec<(String, String)> {
    pairs.iter().map(|(k, v)| (k.to_string(), v.to_string())).collect()
}

#[test]
fn expandvars_keeps_unknown_references() {
    let e = env(&[("HOME", "/h")]);
    assert_eq!(expandvars("$HOME/$UNDEF", &e), "/h/$UNDEF");
    assert_eq!(expandvars("${HOME}x/${UNDEF}", &e), "/hx/${UNDEF}");
}

#[test]
fn expandvars_cases() {
    let e = env(&[("A", "va"), ("B", ""), ("A", "second")]);
    assert_eq!(expandvars("no/vars/here", &e), "no/vars/here");
    assert_eq!(expandvars("$A/x", &e), "va/x");
    assert_eq!(expandvars("$B/x", &e), "/x");
    assert_eq!(expandvars("$Z", &env(&[])), "$Z");
    assert_eq!(expandvars_with("$A/x", "va/x".to_string()), "va/x");
    assert_eq!(expandvars_with("a/x", "other".to_string()), "a/x");
}

#[test]
fn lookup_var_takes_the_first() {
    let e = env(&[("A", "1"), ("B", "2"), ("A", "3")]);
    assert_eq!(lookup_var(&e, "A"), Some(&"1".to_string()));
    assert_eq!(lookup_var(&e, "B"), Some(&"2".to_string()));
    assert_eq!(lookup_var(&e, "C"), None);
}
