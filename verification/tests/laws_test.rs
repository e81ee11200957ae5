use rivia::chmod::mode;
use rivia::copy::{copy_step_for, CopyOpts, CopyStep};
use rivia::entry::{MemfsEntry, VfsEntry};
use rivia::entry_iter::SortBy;
use rivia::errors::{PathError, RvError};
use rivia::expand::expand_in;
use rivia::memfs::{abs_in, needs_cwd, Memfs};
use rivia::path::{clean, mash, relative, trim_prefix, trim_suffix};

fn names_of(vfs: &Memfs, dir: &str, by: SortBy) -> Vec<String> {
    let mut iter = vfs.entry_iter(dir, false).unwrap();
    iter.sort(by);
    let mut out = Vec::new();
    while let Some(e) = iter.next() {
        out.push(e.unwrap().path().clone());
    }
    out
}

#[test]
fn law_clean_idempotent() {
    for p in ["", ".", "..", "/", "//foo/./bar/../baz/", "./a/../../b", "a/b/../../..", "/../x", "foo//bar/."] {
        let once = clean(p);
        assert_eq!(clean(&once), once, "{}", p);
    }
    assert_eq!(clean("/foo/./bar/../baz/"), "/foo/baz".to_string());
    assert_eq!(clean("a/b/../../.."), "..".to_string());
}

#[test]
fn law_trim_prefix_undo_and_suffix() {
    assert_eq!("/foo".to_string() + &trim_prefix("/foo/bar", "/foo"), "/foo/bar".to_string());
    assert_eq!(trim_suffix(&rivia::path::concat("/foo/bar", ".rs"), ".rs"), "/foo/bar".to_string());
    assert_eq!(trim_prefix(&("/usr".to_string() + "/lib"), "/usr"), "/lib".to_string());
}

#[test]
fn law_expand_plain_and_abs_fixed() {
    let env = vec![("HOME".to_string(), "/home/tester".to_string())];
    assert_eq!(expand_in("/a/b c/d", &env).unwrap(), "/a/b c/d".to_string());
    assert_eq!(expand_in("rel/path", &vec![]).unwrap(), "rel/path".to_string());
    assert_eq!(abs_in("/a/b", "/somewhere", &env).unwrap(), "/a/b".to_string());
    assert_eq!(abs_in("/", "/x", &vec![]).unwrap(), "/".to_string());
    // not clean: cleaned
    assert_eq!(abs_in("/a/./b/../c", "/x", &vec![]).unwrap(), "/a/c".to_string());
}

#[test]
fn law_write_then_read() {
    let mut vfs = Memfs::new();
    vfs.mkdir_p("/d").unwrap();
    vfs.write_all("/d/f", b"hello").unwrap();
    assert_eq!(vfs.read_all("/d/f").unwrap(), "hello".to_string());
    vfs.write_all("/d/f", b"again").unwrap();
    assert_eq!(vfs.read_all("/d/f").unwrap(), "again".to_string());
    vfs.write_all("/d/g", &[0xff, 0xfe]).unwrap();
    assert_eq!(vfs.read_all("/d/g").unwrap_err(), RvError::InvalidUtf8("/d/g".to_string()));
}

#[test]
fn law_mkfile_mkdir_remove() {
    let mut vfs = Memfs::new();
    assert_eq!(vfs.mkdir_p("/a/b/c").unwrap(), "/a/b/c".to_string());
    assert!(vfs.is_dir("/a/b/c"));
    assert!(vfs.is_dir("/a/b"));
    assert_eq!(vfs.mkfile("/a/b/f").unwrap(), "/a/b/f".to_string());
    assert!(vfs.is_file("/a/b/f"));
    vfs.remove("/a/b/f").unwrap();
    assert!(!vfs.path_exists("/a/b/f"));
    vfs.remove_all("/a").unwrap();
    assert!(!vfs.path_exists("/a"));
    assert!(!vfs.path_exists("/a/b/c"));
}

#[test]
fn law_symlink_readlink_abs() {
    let mut vfs = Memfs::new();
    vfs.mkdir_p("/d").unwrap();
    vfs.mkfile("/d/file").unwrap();
    assert_eq!(vfs.symlink("/d/link", "file").unwrap(), "/d/link".to_string());
    assert_eq!(vfs.readlink_abs("/d/link").unwrap(), "/d/file".to_string());
    assert_eq!(vfs.readlink("/d/link").unwrap(), "file".to_string());
}

#[test]
fn law_set_cwd_then_cwd() {
    let mut vfs = Memfs::new();
    vfs.mkdir_p("/w/x").unwrap();
    assert_eq!(vfs.set_cwd("/w/x").unwrap(), "/w/x".to_string());
    assert_eq!(vfs.cwd(), "/w/x".to_string());
    assert_eq!(vfs.abs("..").unwrap(), "/w".to_string());
    assert_eq!(vfs.set_cwd("/nope").unwrap_err(), RvError::Path(PathError::DoesNotExist("/nope".to_string())));
    assert_eq!(vfs.cwd(), "/w/x".to_string());
}

#[test]
fn law_sort_is_sorted_permutation() {
    let mut vfs = Memfs::new();
    vfs.mkdir_p("/s").unwrap();
    for n in ["b", "a", "c"] {
        vfs.mkfile(&mash("/s", n)).unwrap();
    }
    vfs.mkdir_p("/s/ab").unwrap();
    let asc = names_of(&vfs, "/s", SortBy::Name);
    assert_eq!(asc, vec!["/s/a", "/s/ab", "/s/b", "/s/c"]);
    let desc = names_of(&vfs, "/s", SortBy::NameDesc);
    assert_eq!(desc, vec!["/s/c", "/s/b", "/s/ab", "/s/a"]);
}

#[test]
fn law_dirs_filter_only_dirs() {
    let mut vfs = Memfs::new();
    vfs.mkdir_p("/t/d1/d2").unwrap();
    vfs.mkfile("/t/f1").unwrap();
    vfs.mkfile("/t/d1/f2").unwrap();
    let mut iter = vfs.entries("/t").unwrap().dirs().sort_by_name().into_iter();
    let mut seen = Vec::new();
    while let Some(e) = iter.next() {
        let e = e.unwrap();
        assert!(e.is_dir());
        seen.push(e.path().clone());
    }
    assert_eq!(seen, vec!["/t", "/t/d1", "/t/d1/d2"]);
    let mut iter = vfs.entries("/t").unwrap().files().sort_by_name().into_iter();
    while let Some(e) = iter.next() {
        assert!(e.unwrap().is_file());
    }
}

#[test]
fn law_follow_twice_is_once() {
    let mut vfs = Memfs::new();
    vfs.mkfile("/target").unwrap();
    vfs.symlink("/link", "/target").unwrap();
    let once = vfs.entry("/link").unwrap().follow(true);
    let twice = vfs.entry("/link").unwrap().follow(true).follow(true);
    assert_eq!(once.path(), twice.path());
    assert_eq!(once.alt(), twice.alt());
    assert_eq!(once.path(), &"/target".to_string());
    assert!(twice.following());
}

#[test]
fn law_octal_before_symbolic() {
    let entry: VfsEntry = MemfsEntry::opts("/x").file().build().upcast();
    assert_eq!(mode(&entry, 0o600, "f:u+x").unwrap(), 0o600);
    assert_eq!(mode(&entry, 0, "f:a+x").unwrap(), 0o100755);
}

#[test]
fn law_chmod_file_sets_mode() {
    let mut vfs = Memfs::new();
    vfs.mkfile("/f").unwrap();
    vfs.chmod("/f", 0o600).unwrap();
    assert_eq!(vfs.mode("/f").unwrap(), 0o100600);
}

#[test]
fn law_copy_file_contents() {
    let mut vfs = Memfs::new();
    vfs.mkdir_p("/src").unwrap();
    vfs.write_all("/src/f", b"data").unwrap();
    vfs.copy("/src/f", "/g").unwrap();
    assert_eq!(vfs.read_all("/g").unwrap(), "data".to_string());
    assert_eq!(vfs.read_all("/src/f").unwrap(), "data".to_string());
}

#[test]
fn law_relative_then_mash() {
    let cases = [
        ("/a/b/c", "/a/d"),
        ("/x", "/y/z"),
        ("/a/b", "/a"),
        ("/a", "/a/b/c"),
        ("/p/q", "/"),
        ("foo/bar1", "foo/bar2"),
        ("a", "b/c"),
        ("x/y", "x"),
    ];
    for (p, b) in cases {
        let r = relative(p, b);
        assert_eq!(clean(&mash(b, &r)), p.to_string(), "{} from {}", p, b);
    }
    assert_eq!(relative("/a/b/c", "/a/d"), "../b/c".to_string());
    assert_eq!(relative("/a", "/a/b/c"), "../..".to_string());
    assert_eq!(relative("foo/bar1", "foo/bar2"), "../bar1".to_string());
}

#[test]
fn law_abs_idempotent() {
    let env = vec![("HOME".to_string(), "/home/tester".to_string())];
    for p in ["~/x/../y", "rel/./a", "..", ".", "/abs//path/", "${HOME}/z", "file:///etc/hosts"] {
        let once = abs_in(p, "/w/cwd", &env).unwrap();
        assert_eq!(abs_in(&once, "/w/cwd", &env).unwrap(), once, "{}", p);
    }
    assert_eq!(abs_in("..", "/w/cwd", &env).unwrap(), "/w".to_string());
    assert_eq!(abs_in("file:///etc/hosts", "/", &env).unwrap(), "/etc/hosts".to_string());
}

#[test]
fn law_copy_file_into_dir() {
    let mut vfs = Memfs::new();
    vfs.mkdir_p("/src").unwrap();
    vfs.mkdir_p("/dst").unwrap();
    vfs.write_all("/src/f", b"into").unwrap();
    vfs.copy("/src/f", "/dst").unwrap();
    assert_eq!(vfs.read_all(&mash("/dst", "f")).unwrap(), "into".to_string());
    assert!(vfs.is_dir("/dst"));
}

#[test]
fn law_append_then_read() {
    let mut vfs = Memfs::new();
    let mut f = vfs.create("/log").unwrap();
    f.write(b"foobar");
    vfs.flush(&f).unwrap();
    let mut g = vfs.append("/log").unwrap();
    assert_eq!(g.pos, 6);
    g.write(b"123");
    vfs.flush(&g).unwrap();
    assert_eq!(vfs.read_all("/log").unwrap(), "foobar123".to_string());
}

#[test]
fn law_dirs_files_listed() {
    let mut vfs = Memfs::new();
    vfs.mkdir_p("/l/d1").unwrap();
    vfs.mkdir_p("/l/d2/deep").unwrap();
    vfs.mkfile("/l/f1").unwrap();
    vfs.mkfile("/l/d1/f2").unwrap();
    vfs.symlink("/l/link", "/l/f1").unwrap();
    let dirs = vfs.dirs("/l").unwrap();
    assert_eq!(dirs, vec!["/l/d1", "/l/d2"]);
    for d in dirs.iter() {
        assert!(vfs.is_dir(d));
    }
    let files = vfs.files("/l").unwrap();
    for f in files.iter() {
        assert!(vfs.entry(f).unwrap().is_file());
    }
    assert!(files.contains(&"/l/f1".to_string()));
}

#[test]
fn law_dir_then_base() {
    for p in ["/a/b/c", "/x", "/a/b.txt"] {
        let d = rivia::path::dir(p).unwrap();
        let b = rivia::path::base(p).unwrap();
        assert_eq!(mash(&d, &b), p.to_string());
    }
}

#[test]
fn law_mode_clauses_apply_to_their_targets() {
    let mut entry = MemfsEntry::opts("/x").file().build();
    entry.mode = 0o0300;
    let entry = entry.upcast();
    assert_eq!(mode(&entry, 0, "d:u+r,f:g+r").unwrap(), 0o0340);
    assert_eq!(mode(&entry, 0, "d:u+r").unwrap(), 0o0300);
    assert_eq!(mode(&entry, 0, "f:g+r,d:o+r,a:o+x").unwrap(), 0o0341);
    let mut dir = MemfsEntry::opts("/d").dir().build();
    dir.mode = 0o0700;
    let dir = dir.upcast();
    assert_eq!(mode(&dir, 0, "f:u-r,d:go+rx").unwrap(), 0o0755);
}

#[test]
fn law_revoking_read_or_execute() {
    assert!(rivia::chmod::revoking_mode(0o0177, 0o0477));
    assert!(rivia::chmod::revoking_mode(0o0700, 0o0600));
    assert!(!rivia::chmod::revoking_mode(0o0600, 0o0700));
    assert!(!rivia::chmod::revoking_mode(0o0222, 0o0000));
}

#[test]
fn law_copy_step_for_entries() {
    let cp = CopyOpts { src: "/s".to_string(), dst: "/d".to_string(), mode: Some(0o700), cdirs: true, cfiles: false, follow: false };
    let file = MemfsEntry::opts("/s/a/f").file().build().upcast();
    match copy_step_for(&cp, "/s", "/d", false, &file).unwrap() {
        CopyStep::File { dst, parent, parent_mode, mode } => {
            assert_eq!(dst, "/d/a/f".to_string());
            assert_eq!(parent, "/d/a".to_string());
            assert_eq!(parent_mode, Some(0o700));
            assert_eq!(mode, None);
        },
        other => panic!("{:?}", other),
    }
    let dir = MemfsEntry::opts("/s/a").dir().build().upcast();
    match copy_step_for(&cp, "/s", "/d", true, &dir).unwrap() {
        CopyStep::Dir { dst, mode } => {
            assert_eq!(dst, "/d/s/a".to_string());
            assert_eq!(mode, 0o700);
        },
        other => panic!("{:?}", other),
    }
}

#[test]
fn law_clean_shape_and_relative_shape() {
    for p in ["", "/", "a/..", "/a/../..", "../x", "./", "//a//b/"] {
        let c = clean(p);
        assert!(!c.is_empty());
        assert_eq!(c.starts_with('/'), p.starts_with('/'), "{}", p);
    }
    let r = relative("/dir1", "/dir1/dir2");
    assert_eq!(r, "..".to_string());
    assert!(!r.is_empty() && !r.starts_with('/'));
}

#[test]
fn law_parse_paths_split_filter() {
    for v in ["/foo1:/foo2/bar", "::a::b:", "", "x"] {
        let expected: Vec<String> = v.split(':').filter(|s| !s.is_empty()).map(|s| s.to_string()).collect();
        assert_eq!(rivia::path::parse_paths(v), expected);
    }
}

#[test]
fn law_depth_zero_and_exact_filters() {
    let mut vfs = Memfs::new();
    vfs.mkdir_p("/z/d").unwrap();
    vfs.mkfile("/z/f").unwrap();
    let mut iter = vfs.entries("/z").unwrap().max_depth(0).into_iter();
    assert_eq!(iter.next().unwrap().unwrap().path(), &"/z".to_string());
    assert!(iter.next().is_none());
    let all: Vec<String> = {
        let mut it = vfs.entries("/z").unwrap().sort_by_name().into_iter();
        let mut v = Vec::new();
        while let Some(e) = it.next() {
            let e = e.unwrap();
            if e.is_dir() {
                v.push(e.path().clone());
            }
        }
        v
    };
    let mut it = vfs.entries("/z").unwrap().sort_by_name().dirs().into_iter();
    let mut dirs = Vec::new();
    while let Some(e) = it.next() {
        dirs.push(e.unwrap().path().clone());
    }
    assert_eq!(dirs, all);
}

#[test]
fn law_abs_parent() {
    let env = vec![("HOME".to_string(), "/home/tester".to_string())];
    let root_err = RvError::Path(PathError::ParentNotFound("/".to_string()));
    // the working directory lies two below the root: two `..` reach it, a third fails
    assert_eq!(abs_in("../..", "/w/cwd", &env).unwrap(), "/".to_string());
    assert_eq!(abs_in("./../../x", "/w/cwd", &env).unwrap(), "/x".to_string());
    assert_eq!(abs_in("../../..", "/w/cwd", &env).unwrap_err(), root_err);
    assert_eq!(abs_in("../../../x", "/w/cwd", &env).unwrap_err(), root_err);
    assert_eq!(abs_in("..", "/", &env).unwrap_err(), root_err);
    // `..` inside a path cancels a name before it counts
    assert_eq!(abs_in("a/../../..", "/w/cwd", &env).unwrap(), "/".to_string());
    // an absolute path never fails this way
    assert_eq!(abs_in("/../../x", "/w", &env).unwrap(), "/x".to_string());
}

fn yielded(iter: rivia::entries::EntriesIter) -> Vec<String> {
    let mut iter = iter;
    let mut out = Vec::new();
    while let Some(e) = iter.next() {
        out.push(e.unwrap().path().clone());
    }
    out
}

#[test]
fn law_filter_p_as_filters() {
    let mut vfs = Memfs::new();
    let tmp = mash(&vfs.root(), "fp");
    let dir1 = mash(&tmp, "dir1");
    let dir2 = mash(&dir1, "dir2");
    assert!(vfs.mkdir_p(&dir2).is_ok());
    assert!(vfs.mkfile(&mash(&dir1, "file1")).is_ok());
    assert!(vfs.mkfile(&mash(&tmp, "file2")).is_ok());
    assert!(vfs.symlink(&mash(&tmp, "link1"), &dir2).is_ok());
    let by_dirs = yielded(vfs.entries(&tmp).unwrap().sort_by_name().dirs().into_iter());
    let by_pred = yielded(vfs.entries(&tmp).unwrap().sort_by_name().into_iter().filter_p(|x| x.is_dir()));
    assert_eq!(by_pred, by_dirs);
    assert_eq!(by_dirs, vec![tmp.clone(), dir1.clone(), dir2.clone(), mash(&tmp, "link1")]);
    let by_files = yielded(vfs.entries(&tmp).unwrap().sort_by_name().files().into_iter());
    let by_pred = yielded(vfs.entries(&tmp).unwrap().sort_by_name().into_iter().filter_p(|x| x.is_file()));
    assert_eq!(by_pred, by_files);
    // a predicate that keeps everything keeps what no filter keeps
    let all = yielded(vfs.entries(&tmp).unwrap().sort_by_name().into_iter());
    let by_pred = yielded(vfs.entries(&tmp).unwrap().sort_by_name().into_iter().filter_p(|_| true));
    assert_eq!(by_pred, all);
}

fn law_tree(vfs: &mut Memfs, name: &str) -> String {
    let tmp = mash(&vfs.root(), name);
    let dir1 = mash(&tmp, "dir1");
    let dir2 = mash(&dir1, "dir2");
    assert!(vfs.mkdir_p(&dir2).is_ok());
    assert!(vfs.mkdir_p(&mash(&tmp, "adir")).is_ok());
    assert!(vfs.mkfile(&mash(&dir1, "file1")).is_ok());
    assert!(vfs.mkfile(&mash(&dir2, "file2")).is_ok());
    assert!(vfs.mkfile(&mash(&tmp, "zfile")).is_ok());
    assert!(vfs.mkfile(&mash(&tmp, "bfile")).is_ok());
    tmp
}

#[test]
fn law_contents_first_moves_only() {
    let mut vfs = Memfs::new();
    let tmp = law_tree(&mut vfs, "cf");
    for min in [0usize, 1, 2] {
        let mut plain = yielded(vfs.entries(&tmp).unwrap().min_depth(min).into_iter());
        let after = yielded(vfs.entries(&tmp).unwrap().min_depth(min).contents_first().into_iter());
        // each directory comes after every entry below it
        for (i, p) in after.iter().enumerate() {
            for q in after[i + 1..].iter() {
                assert!(!q.starts_with(&format!("{}/", p)), "{} before {}", p, q);
            }
        }
        let mut moved = after.clone();
        plain.sort();
        moved.sort();
        assert_eq!(moved, plain);
    }
}

#[test]
fn law_siblings_in_listing_order() {
    let mut vfs = Memfs::new();
    let tmp = law_tree(&mut vfs, "sib");
    let below = |v: &Vec<String>| -> Vec<String> {
        v.iter().filter(|p| p.matches('/').count() == tmp.matches('/').count() + 1).cloned().collect()
    };
    let by_name = yielded(vfs.entries(&tmp).unwrap().sort_by_name().into_iter());
    assert_eq!(below(&by_name), vec![mash(&tmp, "adir"), mash(&tmp, "bfile"), mash(&tmp, "dir1"), mash(&tmp, "zfile")]);
    let dirs = yielded(vfs.entries(&tmp).unwrap().dirs_first().into_iter());
    assert_eq!(below(&dirs), vec![mash(&tmp, "adir"), mash(&tmp, "dir1"), mash(&tmp, "bfile"), mash(&tmp, "zfile")]);
    let files = yielded(vfs.entries(&tmp).unwrap().files_first().into_iter());
    assert_eq!(below(&files), vec![mash(&tmp, "bfile"), mash(&tmp, "zfile"), mash(&tmp, "adir"), mash(&tmp, "dir1")]);
    // below dir1 too: dir2 before file1 with directories first, after it with files first
    let dir1 = mash(&tmp, "dir1");
    let pos = |v: &Vec<String>, p: &str| v.iter().position(|x| x == p).unwrap();
    assert!(pos(&dirs, &mash(&dir1, "dir2")) < pos(&dirs, &mash(&dir1, "file1")));
    assert!(pos(&files, &mash(&dir1, "file1")) < pos(&files, &mash(&dir1, "dir2")));
}

#[test]
fn law_abs_cwd_unused() {
    let env = vec![("HOME".to_string(), "/home/tester".to_string())];
    assert!(!needs_cwd("/a/../b", &env));
    assert!(!needs_cwd("~/x", &env));
    assert!(!needs_cwd("file:///etc", &env));
    assert!(!needs_cwd("", &env));
    assert!(!needs_cwd("$NOPE/x", &env));
    assert!(needs_cwd("a/b", &env));
    assert!(needs_cwd(".", &env));
    // a path that does not read the working directory resolves alike against any
    for p in ["/a/../b", "~/x", "file:///etc", ""] {
        assert_eq!(abs_in(p, "/one", &env), abs_in(p, "/two/three", &env));
    }
}
