use rivia::errors::{IterError, PathError, RvError};
use rivia::expand::{expand_in, home_dir_in};
use rivia::path::{
    base, clean, dir, ext, first, has, has_prefix, has_suffix, is_empty, last, mash, name,
    relative, trim_ext, trim_first, trim_last, trim_prefix, trim_protocol, trim_suffix,
};

fn env() -> Vec<(String, String)> {
    vec![("HOME".to_string(), "/home/tester".to_string())]
}

/// Joins the parts as `std::path::PathBuf::join` does: an absolute part replaces what came before.
fn join(parts: &[&str]) -> String {
    let mut buf = std::path::PathBuf::new();
    for p in parts {
        buf = buf.join(p);
    }
    buf.to_str().unwrap().to_string()
}

fn item_not_found() -> RvError {
    RvError::Iter(IterError::ItemNotFound)
}

fn clean_cases() -> Vec<(&'static str, &'static str)> {
    vec![
    ("/", "/"),
    ("/", "//"),
    ("/", "///"),
    (".", ".//"),
    ("/", "//.."),
    ("..", "..//"),
    ("/", "/..//"),
    ("foo/bar/blah", "foo//bar///blah"),
    ("/foo/bar/blah", "/foo//bar///blah"),
    ("/", "/.//./"),
    (".", "././/./"),
    (".", "./"),
    ("/", "/./"),
    ("foo", "./foo"),
    ("foo/bar", "./foo/./bar"),
    ("/foo/bar", "/foo/./bar"),
    ("foo/bar", "foo/bar/."),
    ("/", "/.."),
    ("/foo", "/../foo"),
    (".", "foo/.."),
    ("../foo", "../foo"),
    ("/bar", "/foo/../bar"),
    ("foo", "foo/bar/.."),
    ("bar", "foo/../bar"),
    ("/bar", "/foo/../bar"),
    (".", "foo/bar/../../"),
    ("..", "foo/bar/../../.."),
    ("/", "/foo/bar/../../.."),
    ("/", "/foo/bar/../../../.."),
    ("../..", "foo/bar/../../../.."),
    ("blah/bar", "foo/bar/../../blah/bar"),
    ("blah", "foo/bar/../../blah/bar/.."),
    ("../foo", "../foo"),
    ("../foo", "../foo/"),
    ("../foo/bar", "../foo/bar"),
    ("..", "../foo/.."),
    ("~/foo", "~/foo"),
    ]
}

#[test]
fn test_pathext_base() {
    assert_eq!(base("").unwrap_err(), item_not_found());
    assert_eq!(base("bar").unwrap(), "bar".to_string());
    assert_eq!(base("/foo/bar").unwrap(), "bar".to_string());
    assert_eq!(base("/foo/bar.bin").unwrap(), "bar.bin".to_string());
}

#[test]
fn test_pathext_clean() {
    for test in clean_cases() {
        assert_eq!(clean(test.1), test.0.to_string());
    }
}

#[test]
fn test_stdfs_clean() {
    for test in clean_cases() {
        assert_eq!(clean(test.1), test.0.to_string());
    }
}

#[test]
fn test_pathext_concat() {
    assert_eq!(rivia::path::concat("/foo/bar", ".rs"), "/foo/bar.rs".to_string());
    assert_eq!(rivia::path::concat("bar", ".rs"), "bar.rs".to_string());
}

#[test]
fn test_pathext_dir() {
    assert_eq!(dir("/foo/").unwrap(), "/".to_string());
    assert_eq!(dir("/foo/bar/").unwrap(), "/foo".to_string());
    assert_eq!(dir("/foo/bar").unwrap(), "/foo".to_string());
}

#[test]
fn test_sys_dirname() {
    assert_eq!(dir("/foo/").unwrap(), "/".to_string());
    assert_eq!(dir("/foo/bar").unwrap(), "/foo".to_string());
}

fn check_expand() {
    let env = env();
    let home = home_dir_in(&env).unwrap();

    // Multiple home symbols should fail
    assert_eq!(
        expand_in("~/~", &env).unwrap_err(),
        RvError::Path(PathError::MultipleHomeSymbols("~/~".to_string()))
    );

    // Only home expansion at the begining of the path is allowed
    assert_eq!(
        expand_in("foo/~", &env).unwrap_err(),
        RvError::Path(PathError::InvalidExpansion("foo/~".to_string()))
    );

    // Tilda only
    assert_eq!(expand_in("~", &env).unwrap(), home);

    // Standard prefix
    assert_eq!(expand_in("~/foo", &env).unwrap(), mash(&home, "foo"));

    // Variable expansion
    assert_eq!(expand_in("${HOME}", &env).unwrap(), home);
    assert_eq!(expand_in("${HOME}/foo", &env).unwrap(), mash(&home, "foo"));
    assert_eq!(expand_in("/foo/${HOME}", &env).unwrap(), join(&["/foo", &home]));
    assert_eq!(expand_in("/foo/${HOME}/bar", &env).unwrap(), join(&["/foo", &home, "bar"]));
    assert_eq!(expand_in("/foo${HOME}/bar", &env).unwrap(), "/foo".to_string() + &home + "/bar");
    assert_eq!(expand_in("/foo${HOME}${HOME}", &env).unwrap(), "/foo".to_string() + &home + &home);
    assert_eq!(expand_in("/foo$HOME$HOME", &env).unwrap(), "/foo".to_string() + &home + &home);
}

#[test]
fn test_pathext_expand() {
    check_expand();
}

#[test]
fn test_stdfs_expand() {
    check_expand();
}

#[test]
fn test_pathext_ext() {
    assert_eq!(ext("base").unwrap_err(), RvError::Path(PathError::ExtensionNotFound("base".to_string())));
    assert_eq!(ext("base.bin").unwrap(), "bin".to_string());
    assert_eq!(ext("/foo/bar/base.blah").unwrap(), "blah".to_string());
}

#[test]
fn test_pathext_first() {
    assert_eq!(first("").unwrap_err(), item_not_found());
    assert_eq!(first("foo").unwrap(), "foo".to_string());
    assert_eq!(first("/foo").unwrap(), "/".to_string());
}

#[test]
fn test_pathext_has() {
    assert_eq!(has("", ""), true);
    assert_eq!(has("/foo", "fo"), true);
    assert_eq!(has("/foo/bar", "bar"), true);
    assert_eq!(has("/foo/bar", "bar/"), false);
}

#[test]
fn test_pathext_has_prefix() {
    assert_eq!(has_prefix("", ""), true);
    assert_eq!(has_prefix("/foo", "/fo"), true);
    assert_eq!(has_prefix("/foo/bar", "bar/"), false);
}

#[test]
fn test_sys_has_prefix() {
    let path = "/foo/bar".to_string();
    assert_eq!(has_prefix(&path, "/foo"), true);
    assert_eq!(has_prefix(&path, "foo"), false);
}

#[test]
fn test_pathext_has_suffix() {
    assert_eq!(has_suffix("", ""), true);
    assert_eq!(has_suffix("/foo", "/fo"), false);
    assert_eq!(has_suffix("/foo/bar", "bar"), true);
}

#[test]
fn test_pathext_last() {
    assert_eq!(last("").unwrap_err(), item_not_found());
    assert_eq!(last("foo").unwrap(), "foo".to_string());
    assert_eq!(last("/foo").unwrap(), "foo".to_string());
}

#[test]
fn path_test_sys_home_dir() {
    let home = home_dir_in(&env()).unwrap();
    assert!(home != String::new());
    assert!(home.starts_with("/"));
    assert_eq!(mash(&home, "foo"), mash(&home, "foo"));
}

#[test]
fn test_pathext_is_empty() {
    assert_eq!(is_empty("/"), false);
    assert_eq!(is_empty(""), true);
    assert_eq!(is_empty(&String::new()), true);
}

#[test]
fn test_sys_is_empty() {
    assert_eq!(is_empty(""), true);
    assert_eq!(is_empty(&String::new()), true);
    assert_eq!(is_empty("/"), false);
}

#[test]
fn test_pathext_mash() {
    // mashing nothing should yield no change
    assert_eq!(mash("", ""), "".to_string());
    assert_eq!(mash("/foo", ""), "/foo".to_string());

    // strips off root on path
    assert_eq!(mash("/foo", "/bar"), "/foo/bar".to_string());

    // strips off trailing slashes
    assert_eq!(mash("/foo", "bar/"), "/foo/bar".to_string());
}

#[test]
fn test_sys_mash() {
    assert_eq!(mash("", ""), "".to_string());
    assert_eq!(mash("/foo", ""), "/foo".to_string());
    assert_eq!(mash("/foo", "/bar"), "/foo/bar".to_string());
    assert_eq!(mash("/foo", "bar/"), "/foo/bar".to_string());
}

#[test]
fn test_pathext_name() {
    assert_eq!(name("").unwrap_err(), item_not_found());
    assert_eq!(name("bar").unwrap(), "bar".to_string());
    assert_eq!(name("/foo/bar").unwrap(), "bar".to_string());
    assert_eq!(name("/foo/bar.bin").unwrap(), "bar".to_string());
}

#[test]
fn test_pathext_relative() {
    // share same directory
    assert_eq!(relative("bar1", "bar2"), "../bar1".to_string());
    assert_eq!(relative("foo/bar1", "foo/bar2"), "../bar1".to_string());
    assert_eq!(relative("~/foo/bar1", "~/foo/bar2"), "../bar1".to_string());
    assert_eq!(relative("../foo/bar1", "../foo/bar2"), "../bar1".to_string());

    // share parent directory
    assert_eq!(relative("foo1/bar1", "foo2/bar2"), "../../foo1/bar1".to_string());
    assert_eq!(relative("/foo1/bar1", "/foo2/bar2"), "../../foo1/bar1".to_string());

    // share grandparent directory
    assert_eq!(relative("blah1/foo1/bar1", "blah2/foo2/bar2"), "../../../blah1/foo1/bar1".to_string());
    assert_eq!(relative("/blah1/foo1/bar1", "/blah2/foo2/bar2"), "../../../blah1/foo1/bar1".to_string());

    // symlink is the opposite i.e. src.relative(dst)
    assert_eq!(relative("/dir1", "/dir1/dir2"), "..".to_string());
}

#[test]
fn test_pathext_trim_ext() {
    assert_eq!(trim_ext("/"), "/".to_string());
    assert_eq!(trim_ext("/foo"), "/foo".to_string());
    assert_eq!(trim_ext("/foo.bar"), "/foo".to_string());
    assert_eq!(trim_ext("/foo.bar.bar"), "/foo.bar".to_string());
}

#[test]
fn test_pathext_trim_first() {
    assert_eq!(trim_first("/"), "".to_string());
    assert_eq!(trim_first("foo/bar"), "bar".to_string());
    assert_eq!(trim_first("/foo/bar"), "foo/bar".to_string());
}

#[test]
fn test_sys_trim_first() {
    assert_eq!(trim_first("/"), String::new());
    assert_eq!(trim_first("/foo"), "foo".to_string());
}

#[test]
fn test_pathext_trim_last() {
    assert_eq!(trim_last("/"), "".to_string());
    assert_eq!(trim_last("foo/bar"), "foo".to_string());
    assert_eq!(trim_last("/foo/bar"), "/foo".to_string());
}

fn check_trim_prefix() {
    // drop root
    assert_eq!(trim_prefix("/", "/"), String::new());

    // drop start
    assert_eq!(trim_prefix("/foo/bar", "/foo"), "/bar".to_string());

    // no change
    assert_eq!(trim_prefix("/", ""), "/".to_string());
    assert_eq!(trim_prefix("/foo", "blah"), "/foo".to_string());
}

#[test]
fn test_pathext_trim_prefix() {
    check_trim_prefix();
}

#[test]
fn test_sys_trim_prefix() {
    check_trim_prefix();
}

fn check_trim_protocol() {
    // no change
    assert_eq!(trim_protocol("/foo"), "/foo".to_string());

    // file://
    assert_eq!(trim_protocol("file:///foo"), "/foo".to_string());

    // ftp://
    assert_eq!(trim_protocol("ftp://foo"), "foo".to_string());

    // http://
    assert_eq!(trim_protocol("http://foo"), "foo".to_string());

    // https://
    assert_eq!(trim_protocol("https://foo"), "foo".to_string());

    // Check case is being considered
    assert_eq!(trim_protocol("HTTPS://Foo"), "Foo".to_string());
    assert_eq!(trim_protocol("Https://Foo"), "Foo".to_string());
    assert_eq!(trim_protocol("HttpS://FoO"), "FoO".to_string());

    // Check non protocol matches are ignored
    assert_eq!(trim_protocol("foo"), "foo".to_string());
    assert_eq!(trim_protocol("foo/bar"), "foo/bar".to_string());
    assert_eq!(trim_protocol("foo//bar"), "foo//bar".to_string());
    assert_eq!(trim_protocol("ntp:://foo"), "ntp:://foo".to_string());
}

#[test]
fn test_pathext_trim_protocol() {
    check_trim_protocol();
}

#[test]
fn test_sys_trim_protocol() {
    check_trim_protocol();
}

#[test]
fn test_pathext_trim_suffix() {
    // drop root
    assert_eq!(trim_suffix("/", "/"), String::new());

    // drop start
    assert_eq!(trim_suffix("/foo/bar", "/bar"), "/foo".to_string());

    // no change
    assert_eq!(trim_suffix("/", ""), "/".to_string());
    assert_eq!(trim_suffix("/foo", "blah"), "/foo".to_string());
}
