use rivia::entry::VfsEntry;
use rivia::errors::{PathError, RvError};
use rivia::memfs::Memfs;
use rivia::path::{dir, mash};

fn env() -> Vec<(String, String)> {
    vec![("HOME".to_string(), "/home/tester".to_string())]
}

fn path_err(e: PathError) -> RvError {
    RvError::Path(e)
}

fn assert_iter_eq(paths: Vec<String>, expected: Vec<String>) {
    assert_eq!(paths.len(), expected.len());
    for p in expected.iter() {
        assert!(paths.contains(p));
    }
}

fn has_data(fs: &Memfs, p: &str) -> bool {
    fs.data.iter().any(|d| d.path == p)
}

fn check_abs() {
    let mut memfs = Memfs::with_env(env());
    memfs.mkdir_p("foo").unwrap();
    memfs.set_cwd("foo").unwrap();
    let cwd = memfs.cwd(); // foo
    let prev = dir(&cwd).unwrap(); // /

    // expand relative directory
    assert_eq!(memfs.abs("foo").unwrap(), mash(&cwd, "foo"));

    // expand previous directory and drop trailing slashes
    assert_eq!(memfs.abs("..//").unwrap(), prev);
    assert_eq!(memfs.abs("../").unwrap(), prev);
    assert_eq!(memfs.abs("..").unwrap(), prev);

    // expand current directory and drop trailing slashes
    assert_eq!(memfs.abs(".//").unwrap(), cwd);
    assert_eq!(memfs.abs("./").unwrap(), cwd);
    assert_eq!(memfs.abs(".").unwrap(), cwd);

    // home dir
    let home = "/home/tester".to_string();
    assert_eq!(memfs.abs("~").unwrap(), home);
    assert_eq!(memfs.abs("~/").unwrap(), home);

    // expand home path
    assert_eq!(memfs.abs("~/foo").unwrap(), mash(&home, "foo"));

    // More complicated
    assert_eq!(memfs.abs("~/foo/bar/../.").unwrap(), mash(&home, "foo"));
    assert_eq!(memfs.abs("~/foo/bar/../").unwrap(), mash(&home, "foo"));
    assert_eq!(memfs.abs("~/foo/bar/../blah").unwrap(), mash(&home, "foo/blah"));

    // Move up the path multiple levels
    assert_eq!(memfs.abs("/foo/bar/blah/../../foo1").unwrap(), "/foo/foo1".to_string());
    assert_eq!(memfs.abs("/../../foo").unwrap(), "/foo".to_string());

    // Move up until invalid
    assert_eq!(
        memfs.abs("../../../../../../../foo").unwrap_err(),
        path_err(PathError::ParentNotFound("/".to_string()))
    );

    // absolute path doesn't exist
    assert_eq!(memfs.abs("").unwrap_err(), path_err(PathError::Empty));
}

#[test]
fn vfs_test_memfs_abs() {
    check_abs();
}

#[test]
fn test_memfs_debug() {
    let memfs = Memfs::new();
    assert_eq!(format!("{:?}", &memfs), format!("{:?}", &memfs));
}

#[test]
fn test_memfs_append() {
    let mut vfs = Memfs::new();
    let file = mash(&vfs.root(), "file");

    // abs fails
    if let Err(e) = vfs.append("") {
        assert_eq!(e, path_err(PathError::Empty));
    }

    // Append to a new file and check the data wrote to it
    let mut f = vfs.append(&file).unwrap();
    f.write(b"foobar");
    vfs.flush(&f).unwrap();
    assert_eq!(vfs.read_all(&file).unwrap(), "foobar".to_string());
    f.write(b"123");
    vfs.flush(&f).unwrap();
    assert_eq!(vfs.read_all(&file).unwrap(), "foobar123".to_string());

    // Append to the file in another trasaction
    let mut f = vfs.append(&file).unwrap();
    f.write(b" this is a test");
    vfs.flush(&f).unwrap();
    assert_eq!(vfs.read_all(&file).unwrap(), "foobar123 this is a test".to_string());
}

#[test]
fn test_memfs_chmod() {
    let mut vfs = Memfs::new();
    let file = mash(&vfs.root(), "file");

    // abs fails
    if let Err(e) = vfs.chmod("", 0) {
        assert_eq!(e, path_err(PathError::Empty));
    }

    assert!(vfs.mkfile(&file).is_ok());
    assert_eq!(vfs.mode(&file).unwrap(), 0o100644);
    assert!(vfs.chmod(&file, 0o555).is_ok());
    assert_eq!(vfs.mode(&file).unwrap(), 0o100555);
}

#[test]
fn test_memfs_chmod_b() {
    let mut vfs = Memfs::new();
    let dir = mash(&vfs.root(), "dir");
    let file = mash(&dir, "file");

    // abs fails
    if let Err(e) = vfs.chmod_b("") {
        assert_eq!(e, path_err(PathError::Empty));
    }

    assert!(vfs.mkdir_p(&dir).is_ok());
    assert!(vfs.mkfile(&file).is_ok());
    assert_eq!(vfs.mode(&dir).unwrap(), 0o40755);
    assert_eq!(vfs.mode(&file).unwrap(), 0o100644);
    let c = vfs.chmod_b(&dir).unwrap().recurse().all(0o777);
    assert!(c.exec(&mut vfs).is_ok());
    assert_eq!(vfs.mode(&dir).unwrap(), 0o40777);
    assert_eq!(vfs.mode(&file).unwrap(), 0o100777);
}

#[test]
fn test_memfs_copy_b() {
    let mut vfs = Memfs::new();
    let file1 = mash(&vfs.root(), "file1");
    let file2 = mash(&vfs.root(), "file2");

    // Empty src
    let c = vfs.copy_b("", &file2).unwrap();
    assert_eq!(c.exec(&mut vfs).unwrap_err(), path_err(PathError::Empty));

    // Empty dst
    let c = vfs.copy_b(&file1, "").unwrap();
    assert_eq!(c.exec(&mut vfs).unwrap_err(), path_err(PathError::Empty));

    // src == dst
    assert!(vfs.copy_b(&file1, &file1).is_ok());

    // Single file copy no modes given
    assert!(vfs.write_all(&file1, b"data: file1").is_ok());
    assert!(!vfs.is_file(&file2));
    let c = vfs.copy_b(&file1, &file2).unwrap();
    assert!(c.exec(&mut vfs).is_ok());
    assert_eq!(vfs.read_all(&file2).unwrap(), "data: file1".to_string());

    // Single file copy with `chmod_files`
    assert!(vfs.remove(&file2).is_ok());
    let c = vfs.copy_b(&file1, &file2).unwrap().chmod_files(0o755);
    assert!(c.exec(&mut vfs).is_ok());
    let efile1 = vfs.entry(&file1).unwrap();
    let efile2 = vfs.entry(&file2).unwrap();
    assert_eq!(vfs.read_all(&file1).unwrap(), vfs.read_all(&file2).unwrap());
    assert_eq!(efile1.path(), &file1);
    assert_eq!(efile2.path(), &file2);
    assert_eq!(efile1.alt(), &String::new());
    assert_eq!(efile2.alt(), &String::new());
    assert_eq!(efile1.rel(), &String::new());
    assert_eq!(efile2.rel(), &String::new());
    assert_eq!(efile1.is_dir(), efile2.is_dir());
    assert_eq!(efile1.is_file(), efile2.is_file());
    assert_eq!(efile1.is_symlink(), efile2.is_symlink());
    assert_eq!(efile1.following(), efile2.following());
    assert_eq!(efile1.mode(), 0o100644);
    assert_eq!(efile2.mode(), 0o100755);
    assert_eq!(
        rivia::entry::MemfsEntry::downcast(efile1).unwrap().files.is_none(),
        rivia::entry::MemfsEntry::downcast(efile2).unwrap().files.is_none()
    );

    // Single dir copy no modes given
    let dir1 = mash(&vfs.root(), "dir1");
    let dir2 = mash(&vfs.root(), "dir2");
    assert!(vfs.mkdir_p(&dir1).is_ok());
    assert!(!vfs.is_dir(&dir2));
    let c = vfs.copy_b(&dir1, &dir2).unwrap();
    assert!(c.exec(&mut vfs).is_ok());
    assert!(vfs.is_dir(&dir2));

    // Single dir copy with `chmod_dirs`
    assert!(vfs.remove(&dir2).is_ok());
    let c = vfs.copy_b(&dir1, &dir2).unwrap().chmod_dirs(0o777);
    assert!(c.exec(&mut vfs).is_ok());
    assert!(vfs.is_dir(&dir2));
    assert_eq!(vfs.mode(&dir1).unwrap(), 0o40755);
    assert_eq!(vfs.mode(&dir2).unwrap(), 0o40777);

    // Copy single file into dir
    let dir1file1 = mash(&dir1, &file1);
    assert!(!vfs.is_file(&dir1file1));
    let c = vfs.copy_b(&file1, &dir1).unwrap();
    assert!(c.exec(&mut vfs).is_ok());
    assert_eq!(vfs.read_all(&dir1file1).unwrap(), "data: file1".to_string());

    // Re-create single symlink no follow
    let link1 = mash(&vfs.root(), "link1");
    let dir1link1 = mash(&dir1, "link1");
    assert_eq!(vfs.symlink(&link1, &file1).unwrap(), link1);
    assert!(!vfs.path_exists(&dir1link1));
    let c = vfs.copy_b(&link1, &dir1).unwrap();
    assert!(c.exec(&mut vfs).is_ok());
    let elink1 = vfs.entry(&link1).unwrap();
    let elink2 = vfs.entry(&dir1link1).unwrap();
    assert_eq!(elink1.path(), &link1);
    assert_eq!(elink2.path(), &dir1link1);
    assert_eq!(elink1.alt(), &file1);
    assert_eq!(elink2.alt(), &file1);
    assert_eq!(elink1.rel(), &"file1".to_string());
    assert_eq!(elink2.rel(), &mash("..", "file1"));
    assert_eq!(elink1.is_dir(), elink2.is_dir());
    assert_eq!(elink1.is_file(), elink2.is_file());
    assert_eq!(elink1.is_symlink(), elink2.is_symlink());
    assert_eq!(elink1.following(), elink2.following());
    assert_eq!(elink1.mode(), elink2.mode());
    assert_eq!(
        rivia::entry::MemfsEntry::downcast(elink1).unwrap().files.is_none(),
        rivia::entry::MemfsEntry::downcast(elink2).unwrap().files.is_none()
    );

    // Re-create single symlink with follow
    let dir2 = mash(&vfs.root(), "dir2");
    let dir2file1 = mash(&dir2, "file1");
    assert!(vfs.mkdir_p(&dir2).is_ok());
    assert!(!vfs.path_exists(&dir2file1));
    let c = vfs.copy_b(&link1, &dir2).unwrap().follow(true);
    assert!(c.exec(&mut vfs).is_ok());
    assert!(vfs.is_file(&dir2file1));
    let efile1 = vfs.entry(&file1).unwrap();
    let efile2 = vfs.entry(&dir2file1).unwrap();
    assert_eq!(vfs.read_all(&file1).unwrap(), vfs.read_all(&dir2file1).unwrap());
    assert_eq!(efile1.path(), &file1);
    assert_eq!(efile2.path(), &dir2file1);
    assert_eq!(efile1.alt(), &String::new());
    assert_eq!(efile2.alt(), &String::new());
    assert_eq!(efile1.rel(), &String::new());
    assert_eq!(efile2.rel(), &String::new());
    assert_eq!(efile1.is_dir(), efile2.is_dir());
    assert_eq!(efile1.is_file(), efile2.is_file());
    assert_eq!(efile1.is_symlink(), efile2.is_symlink());
    assert_eq!(efile1.following(), efile2.following());
    assert_eq!(efile1.mode(), efile2.mode());
    assert_eq!(
        rivia::entry::MemfsEntry::downcast(efile1).unwrap().files.is_none(),
        rivia::entry::MemfsEntry::downcast(efile2).unwrap().files.is_none()
    );

    // Copy dir with files
    let dir3 = mash(&vfs.root(), "dir3");
    let dir3dir2 = mash(&dir3, "dir2");
    let dir3dir2file1 = mash(&dir3dir2, "file1");
    assert!(vfs.mkdir_p(&dir3).is_ok());
    let c = vfs.copy_b(&dir2, &dir3).unwrap();
    assert!(c.exec(&mut vfs).is_ok());
    assert!(vfs.is_file(&dir3dir2file1));
    assert_eq!(vfs.read_all(&file1).unwrap(), vfs.read_all(&dir3dir2file1).unwrap());
}

#[test]
fn test_memfs_create() {
    let mut vfs = Memfs::new();
    let file = mash(&vfs.root(), "file");

    // abs fails
    if let Err(e) = vfs.create("") {
        assert_eq!(e, path_err(PathError::Empty));
    }

    // Create a new file and check the data wrote to it
    let mut f = vfs.create(&file).unwrap();
    f.write(b"foobar");
    vfs.flush(&f).unwrap();
    assert_eq!(vfs.read_all(&file).unwrap(), "foobar".to_string());
    f.write(b"123");
    vfs.flush(&f).unwrap();
    assert_eq!(vfs.read_all(&file).unwrap(), "foobar123".to_string());

    // Overwrite the file
    let mut f = vfs.create(&file).unwrap();
    f.write(b"this is a test");
    vfs.flush(&f).unwrap();
    assert_eq!(vfs.read_all(&file).unwrap(), "this is a test".to_string());
}

#[test]
fn vfs_test_memfs_cwd() {
    let mut memfs = Memfs::new();
    assert_eq!(memfs.cwd(), memfs.root());
    memfs.mkdir_p("foo").unwrap();
    memfs.set_cwd("foo").unwrap();
    assert_eq!(memfs.cwd(), mash(&memfs.root(), "foo"));
}

#[test]
fn test_memfs_dirs() {
    let mut vfs = Memfs::new();
    let tmpdir = mash(&vfs.root(), "tmpdir");
    let dir1 = mash(&tmpdir, "dir1");
    let dir2 = mash(&tmpdir, "dir2");
    let file1 = mash(&tmpdir, "file1");

    // abs error
    assert_eq!(vfs.dirs("").unwrap_err(), path_err(PathError::IsNotDir("".to_string())));

    assert!(vfs.mkdir_p(&dir1).is_ok());
    assert!(vfs.mkdir_p(&dir2).is_ok());
    assert!(vfs.mkfile(&file1).is_ok());
    assert_iter_eq(vfs.dirs(&tmpdir).unwrap(), vec![dir1, dir2]);
}

#[test]
fn vfs_test_memfs_entries() {
    let mut memfs = Memfs::new();
    let dir1 = mash(&memfs.root(), "dir1");
    let dir2 = mash(&dir1, "dir2");
    let file = mash(&dir2, "file");
    assert_eq!(&memfs.mkdir_p(&dir2).unwrap(), &dir2);
    assert_eq!(&memfs.mkfile(&file).unwrap(), &file);

    // abs error
    assert_eq!(memfs.entries("").unwrap_err(), path_err(PathError::Empty));

    let root = memfs.root();
    let mut iter = memfs.entries(&root).unwrap().into_iter();
    assert_eq!(iter.next().unwrap().unwrap().path(), &root);
    assert_eq!(iter.next().unwrap().unwrap().path(), &dir1);
    assert_eq!(iter.next().unwrap().unwrap().path(), &dir2);
    assert_eq!(iter.next().unwrap().unwrap().path(), &file);
    assert_eq!(iter.next().is_none(), true);
}

#[test]
fn test_memfs_entry() {
    let mut vfs = Memfs::new();
    let file = mash(&vfs.root(), "file");

    // abs error
    assert_eq!(vfs.entry("").unwrap_err(), path_err(PathError::Empty));

    assert!(vfs.mkfile(&file).is_ok());
    assert!(vfs.entry(&file).unwrap().is_file());
}

#[test]
fn test_memfs_entry_iter() {
    let mut vfs = Memfs::new();
    let file = mash(&vfs.root(), "file");
    assert!(vfs.mkfile(&file).is_ok());
    let root = vfs.root();
    let mut iter = vfs.entry_iter(&root, false).unwrap();
    assert_eq!(iter.next().unwrap().unwrap().path(), &file);
    assert!(iter.next().is_none());
}

#[test]
fn test_memfs_exists() {
    let mut memfs = Memfs::new();
    let dir1 = mash(&memfs.root(), "dir1");

    // abs fails
    assert_eq!(memfs.path_exists(""), false);

    // Doesn't exist
    assert_eq!(memfs.path_exists(&dir1), false);

    // Exists
    assert_eq!(&memfs.mkdir_p(&dir1).unwrap(), &dir1);
    assert_eq!(memfs.path_exists(&dir1), true);
}

#[test]
fn test_memfs_files() {
    let mut vfs = Memfs::new();
    let tmpdir = mash(&vfs.root(), "tmpdir");
    let dir1 = mash(&tmpdir, "dir1");
    let file1 = mash(&tmpdir, "file1");
    let file2 = mash(&tmpdir, "file2");

    // abs error
    assert_eq!(vfs.files("").unwrap_err(), path_err(PathError::IsNotDir("".to_string())));

    assert!(vfs.mkdir_p(&dir1).is_ok());
    assert!(vfs.mkfile(&file1).is_ok());
    assert!(vfs.mkfile(&file2).is_ok());
    assert_iter_eq(vfs.files(&tmpdir).unwrap(), vec![file1, file2]);
}

#[test]
fn test_memfs_is_exec() {
    let mut vfs = Memfs::new();
    let file = mash(&vfs.root(), "file");

    // abs fails
    assert_eq!(vfs.is_exec(""), false);

    assert!(vfs.mkfile_m(&file, 0o644).is_ok());
    assert_eq!(vfs.is_exec(&file), false);
    assert!(vfs.chmod(&file, 0o777).is_ok());
    assert_eq!(vfs.is_exec(&file), true);
}

#[test]
fn test_memfs_is_dir() {
    let mut memfs = Memfs::new();
    let dir1 = mash(&memfs.root(), "dir1");

    // abs fails
    assert_eq!(memfs.is_dir(""), false);

    // Doesn't exist
    assert_eq!(memfs.is_dir(&dir1), false);

    // Exists
    assert_eq!(&memfs.mkdir_p(&dir1).unwrap(), &dir1);
    assert_eq!(memfs.is_dir(&dir1), true);
}

#[test]
fn test_memfs_is_file() {
    let mut memfs = Memfs::new();
    let file = mash(&memfs.root(), "file");

    // abs fails
    assert_eq!(memfs.is_file(""), false);

    // Doesn't exist
    assert_eq!(memfs.is_file(&file), false);

    // Exists
    assert_eq!(&memfs.mkfile(&file).unwrap(), &file);
    assert_eq!(memfs.is_file(&file), true);
}

#[test]
fn test_memfs_is_readonly() {
    let mut vfs = Memfs::new();
    let file = mash(&vfs.root(), "file");

    // abs fails
    assert_eq!(vfs.is_readonly(""), false);

    assert!(vfs.mkfile_m(&file, 0o644).is_ok());
    assert_eq!(vfs.is_readonly(&file), false);
    let c = vfs.chmod_b(&file).unwrap().readonly();
    assert!(c.exec(&mut vfs).is_ok());
    assert_eq!(vfs.mode(&file).unwrap(), 0o100444);
    assert_eq!(vfs.is_readonly(&file), true);
}

#[test]
fn test_memfs_is_symlink() {
    let mut memfs = Memfs::new();
    let file = mash(&memfs.root(), "file");
    let link = mash(&memfs.root(), "link");

    // abs fails
    assert_eq!(memfs.is_symlink(""), false);

    // Doesn't exist
    assert_eq!(memfs.is_symlink(&file), false);

    // Exists
    assert_eq!(&memfs.symlink(&link, &file).unwrap(), &link);
    assert_eq!(memfs.is_symlink(&link), true);
}

#[test]
fn test_memfs_mkdir_m() {
    let mut vfs = Memfs::new();
    let dir = mash(&vfs.root(), "dir");

    // abs error
    assert_eq!(vfs.mkdir_m("", 0).unwrap_err(), path_err(PathError::Empty));

    assert!(vfs.mkdir_m(&dir, 0o555).is_ok());
    assert_eq!(vfs.mode(&dir).unwrap(), 0o40555);
}

#[test]
fn vfs_test_memfs_mkdir_p() {
    let mut memfs = Memfs::new();
    let dir = mash(&memfs.root(), "dir");

    // Check single top level
    assert_eq!(memfs.path_exists(&dir), false);
    assert_eq!(&memfs.mkdir_p(&dir).unwrap(), &dir);
    assert_eq!(memfs.path_exists(&dir), true);
    assert_eq!(memfs.path_exists("dir"), true); // check relative

    // Check nested
    let dir1 = mash(&memfs.root(), "dir1");
    let dir2 = mash(&dir1, "dir2");
    let dir3 = mash(&dir2, "dir3");
    assert_eq!(&memfs.mkdir_p(&dir3).unwrap(), &dir3);
    assert_eq!(memfs.path_exists(&dir3), true);
    assert_eq!(memfs.path_exists(&dir2), true);
    assert_eq!(memfs.path_exists(&dir1), true);
}

#[test]
fn vfs_test_memfs_mkfile() {
    let mut memfs = Memfs::new();
    let dir1 = mash(&memfs.root(), "dir1");
    let file1 = mash(&dir1, "file1");

    // abs error
    assert_eq!(memfs.mkfile("").unwrap_err(), path_err(PathError::Empty));

    // parent directory doesn't exist
    assert_eq!(memfs.mkfile(&file1).unwrap_err(), path_err(PathError::DoesNotExist(dir1.clone())));

    // Error: target exists and is not a file
    assert_eq!(&memfs.mkdir_p(&dir1).unwrap(), &dir1);
    assert_eq!(memfs.mkfile(&dir1).unwrap_err(), path_err(PathError::IsNotFile(dir1.clone())));

    // Make a file in the root
    assert_eq!(memfs.path_exists("file2"), false);
    assert_eq!(memfs.mkfile("file2").unwrap(), mash(&memfs.root(), "file2"));
    assert_eq!(memfs.path_exists("file2"), true);

    // Make a file in a directory
    assert_eq!(memfs.path_exists(&file1), false);
    assert_eq!(&memfs.mkfile(&file1).unwrap(), &file1);
    assert_eq!(memfs.path_exists(&file1), true);

    // Error: parent exists and is not a directory
    let file2 = mash(&file1, "file2");
    assert_eq!(memfs.mkfile(&file2).unwrap_err(), path_err(PathError::IsNotDir(file1.clone())));
}

#[test]
fn test_memfs_mkfile_m() {
    let mut vfs = Memfs::new();
    let file = mash(&vfs.root(), "file");

    // abs error
    assert_eq!(vfs.mkfile_m("", 0).unwrap_err(), path_err(PathError::Empty));

    assert!(vfs.mkfile_m(&file, 0o555).is_ok());
    assert_eq!(vfs.mode(&file).unwrap(), 0o100555);
}

#[test]
fn test_memfs_mode() {
    let mut vfs = Memfs::new();
    let file = mash(&vfs.root(), "file");

    // abs error
    assert_eq!(vfs.mode("").unwrap_err(), path_err(PathError::Empty));

    assert!(vfs.mkfile(&file).is_ok());
    assert_eq!(vfs.mode(&file).unwrap(), 0o100644);
    assert!(vfs.chmod(&file, 0o555).is_ok());
    assert_eq!(vfs.mode(&file).unwrap(), 0o100555);
}

#[test]
fn test_memfs_open() {
    let mut vfs = Memfs::new();
    let file = mash(&vfs.root(), "file");

    // abs fails
    if let Err(e) = vfs.open("") {
        assert_eq!(e, path_err(PathError::Empty));
    }

    assert!(vfs.write_all(&file, b"foobar 1").is_ok());
    let mut file = vfs.open(&file).unwrap();
    let mut buf = vec![0u8; file.data.len()];
    let n = file.read(&mut buf);
    let text = String::from_utf8(buf[..n].to_vec()).unwrap();
    assert_eq!(text, "foobar 1".to_string());
}

#[test]
fn test_memfs_paths() {
    let mut vfs = Memfs::new();
    let tmpdir = mash(&vfs.root(), "tmpdir");
    let dir1 = mash(&tmpdir, "dir1");
    let dir2 = mash(&tmpdir, "dir2");
    let file1 = mash(&tmpdir, "file1");

    // abs error
    assert_eq!(vfs.paths("").unwrap_err(), path_err(PathError::IsNotDir("".to_string())));

    assert!(vfs.mkdir_p(&dir1).is_ok());
    assert!(vfs.mkdir_p(&dir2).is_ok());
    assert!(vfs.mkfile(&file1).is_ok());
    assert_iter_eq(vfs.paths(&tmpdir).unwrap(), vec![dir1, dir2, file1]);
}

#[test]
fn test_memfs_read_all() {
    let mut memfs = Memfs::new();
    let file = mash(&memfs.root(), "file");

    // Doesn't exist error
    assert_eq!(memfs.read_all(&file).unwrap_err(), path_err(PathError::DoesNotExist(file.clone())));

    // Isn't a file
    let dir = mash(&memfs.root(), "dir");
    assert_eq!(&memfs.mkdir_p(&dir).unwrap(), &dir);
    assert_eq!(memfs.read_all(&dir).unwrap_err(), path_err(PathError::IsNotFile(dir.clone())));

    // Create the file with the given data
    memfs.write_all(&file, b"foobar 1").unwrap();
    assert_eq!(memfs.read_all(&file).unwrap(), "foobar 1".to_string());

    // Read a second time
    assert_eq!(memfs.read_all(&file).unwrap(), "foobar 1".to_string());
}

#[test]
fn test_memfs_readlink() {
    let mut vfs = Memfs::new();
    let dir = mash(&vfs.root(), "dir");
    let file = mash(&vfs.root(), "file");
    let link = mash(&dir, "link");

    // Doesn't exist error
    assert_eq!(vfs.readlink("").unwrap_err(), path_err(PathError::Empty));

    assert!(vfs.mkdir_p(&dir).is_ok());
    assert!(vfs.mkfile(&file).is_ok());
    assert_eq!(vfs.symlink(&link, &file).unwrap(), link);
    assert_eq!(vfs.readlink(&link).unwrap(), mash("..", "file"));
}

#[test]
fn test_memfs_readlink_abs() {
    let mut vfs = Memfs::new();
    let dir = mash(&vfs.root(), "dir");
    let file = mash(&vfs.root(), "file");
    let link = mash(&dir, "link");

    // Doesn't exist error
    assert_eq!(vfs.readlink_abs("").unwrap_err(), path_err(PathError::Empty));

    assert!(vfs.mkdir_p(&dir).is_ok());
    assert!(vfs.mkfile(&file).is_ok());
    assert_eq!(vfs.symlink(&link, &file).unwrap(), link);
    assert_eq!(vfs.readlink_abs(&link).unwrap(), file);
}

#[test]
fn test_memfs_remove() {
    let mut vfs = Memfs::new();
    let dir1 = mash(&vfs.root(), "dir1");
    let file1 = mash(&dir1, "file1");
    let file2 = mash(&vfs.root(), "file2");

    // abs error
    assert_eq!(vfs.remove("").unwrap_err(), path_err(PathError::Empty));

    // Single file
    assert!(vfs.mkfile(&file2).is_ok());
    assert!(vfs.is_file(&file2));
    assert!(vfs.remove(&file2).is_ok());
    assert!(!vfs.is_file(&file2));

    // Directory with files
    assert!(vfs.mkdir_p(&dir1).is_ok());
    assert!(vfs.mkfile(&file1).is_ok());
    assert_eq!(vfs.remove(&dir1).unwrap_err(), path_err(PathError::DirContainsFiles(dir1.clone())));
    assert!(vfs.remove(&file1).is_ok());
    assert!(vfs.remove(&dir1).is_ok());
    assert!(!vfs.path_exists(&dir1));
}

#[test]
fn test_memfs_remove_all() {
    let mut vfs = Memfs::new();
    let dir = mash(&vfs.root(), "dir");
    let file = mash(&dir, "file");

    assert!(vfs.mkdir_p(&dir).is_ok());
    assert!(vfs.mkfile(&file).is_ok());
    assert!(vfs.is_file(&file));
    assert!(vfs.remove_all(&dir).is_ok());
    assert!(!vfs.path_exists(&file));
    assert!(!vfs.path_exists(&dir));
}

#[test]
fn test_memfs_symlink() {
    let mut vfs = Memfs::new();
    let dir1 = mash(&vfs.root(), "dir1");
    let file1 = mash(&dir1, "file1");
    let file2 = mash(&vfs.root(), "file2");
    let link1 = mash(&vfs.root(), "link1");
    let link2 = mash(&vfs.root(), "link2");
    assert!(vfs.mkdir_p(&dir1).is_ok());
    assert!(vfs.mkfile(&file1).is_ok());
    assert_eq!(vfs.symlink(&link1, &dir1).unwrap(), link1);

    // Creating a link without the file existing on purpose
    assert_eq!(vfs.symlink(&link2, &file2).unwrap(), link2);

    // Ensure that no file was created for the links
    assert_eq!(has_data(&vfs, &file1), true);
    assert_eq!(has_data(&vfs, &file2), false);
    assert_eq!(has_data(&vfs, &link1), false);
    assert_eq!(has_data(&vfs, &link2), false);

    // Ensure dir link has the right properties
    if let Ok(entry) = vfs.entry(&link1) {
        // Check the correct path is set for the link
        assert_eq!(entry.path(), &link1);

        // Check that the target is absolute
        assert_eq!(entry.alt(), &dir1);

        // Check that the target's relative path is accurate
        assert_eq!(entry.rel(), &"dir1".to_string());
    }

    // Ensure file link has the right properties
    if let Ok(entry) = vfs.entry(&link2) {
        // Check the correct path is set for the link
        assert_eq!(entry.path(), &link2);

        // Check that the target is absolute
        assert_eq!(entry.alt(), &file2);

        // Check that the target's relative path is accurate
        assert_eq!(entry.rel(), &"file2".to_string());
    }
}

#[test]
fn test_memfs_write_all() {
    let mut vfs = Memfs::new();
    let dir = mash(&vfs.root(), "dir");
    let file = mash(&dir, "file");

    // fail abs
    assert_eq!(vfs.write_all("", b"").unwrap_err(), path_err(PathError::Empty));

    // parent doesn't exist
    assert_eq!(vfs.write_all(&file, b"").unwrap_err(), path_err(PathError::DoesNotExist(dir.clone())));

    // exists but not a file
    assert!(vfs.mkdir_p(&dir).is_ok());
    assert_eq!(vfs.write_all(&dir, b"").unwrap_err(), path_err(PathError::IsNotFile(dir.clone())));

    // happy path
    assert!(vfs.write_all(&file, b"foobar 1").is_ok());
    assert!(vfs.is_file(&file));
    assert_eq!(vfs.read_all(&file).unwrap(), "foobar 1".to_string());
}

#[test]
fn fs_test_memfs_entries() {
    let mut memfs = Memfs::new();
    assert_eq!(memfs.mkdir_p("foo/bar").unwrap(), "/foo/bar".to_string());
    assert_eq!(memfs.mkfile("foo/bar/blah").unwrap(), "/foo/bar/blah".to_string());

    let mut iter = memfs.entries("/").unwrap().into_iter();
    assert_eq!(iter.next().unwrap().unwrap().path(), &"/".to_string());
    assert_eq!(iter.next().unwrap().unwrap().path(), &"/foo".to_string());
    assert_eq!(iter.next().unwrap().unwrap().path(), &"/foo/bar".to_string());
    assert_eq!(iter.next().unwrap().unwrap().path(), &"/foo/bar/blah".to_string());
    assert_eq!(iter.next().is_none(), true);
}

#[test]
fn fs_test_memfs_mkfile() {
    let mut memfs = Memfs::new();

    // Error: directory doesn't exist
    let err = memfs.mkfile("dir1/file1").unwrap_err();
    assert_eq!(err, path_err(PathError::DoesNotExist("/dir1".to_string())));

    // Error: target exists and is not a file
    memfs.mkdir_p("dir1").unwrap();
    let err = memfs.mkfile("dir1").unwrap_err();
    assert_eq!(err, path_err(PathError::IsNotFile("/dir1".to_string())));

    // Make a file in the root
    assert_eq!(memfs.path_exists("file1"), false);
    assert_eq!(memfs.mkfile("file1").unwrap(), "/file1".to_string());
    assert_eq!(memfs.path_exists("file1"), true);

    // Make a file in a directory
    assert_eq!(memfs.path_exists("dir1/file2"), false);
    assert_eq!(memfs.mkfile("dir1/file2").unwrap(), "/dir1/file2".to_string());
    assert_eq!(memfs.path_exists("dir1/file2"), true);

    // Error: parent exists and is not a directory
    let err = memfs.mkfile("file1/file2").unwrap_err();
    assert_eq!(err, path_err(PathError::IsNotDir("/file1".to_string())));
}

#[test]
fn fs_test_memfs_mkdir_p() {
    let mut memfs = Memfs::new();

    // Check single top level
    assert_eq!(memfs.path_exists("foo"), false);
    memfs.mkdir_p("foo").unwrap();
    assert_eq!(memfs.path_exists("foo"), true);
    assert_eq!(memfs.path_exists("/foo"), true);

    // Check nested
    memfs.mkdir_p("/bar/blah/ugh").unwrap();
    assert_eq!(memfs.path_exists("bar/blah/ugh"), true);
    assert_eq!(memfs.path_exists("/bar/blah/ugh"), true);
    assert_eq!(memfs.path_exists("/foo"), true);
}

#[test]
fn test_vfs_cwd() {
    let vfs = Memfs::new();
    assert_eq!(vfs.cwd(), "/".to_string());
}

fn setup(name: &str) -> (Memfs, String) {
    let mut vfs = Memfs::new();
    let tmpdir = mash(&vfs.root(), name);
    assert_eq!(vfs.mkdir_p(&tmpdir).unwrap(), tmpdir);
    (vfs, tmpdir)
}

fn teardown(vfs: &mut Memfs, tmpdir: &str) {
    assert!(vfs.remove_all(tmpdir).is_ok());
    assert!(!vfs.path_exists(tmpdir));
}

#[test]
fn vfs_test_vfs_dirs() {
    let (mut vfs, tmpdir) = setup("vfs_dirs");
    let dir1 = mash(&tmpdir, "dir1");
    let file1 = mash(&tmpdir, "file1");
    let file2 = mash(&tmpdir, "file2");
    assert!(vfs.mkdir_p(&dir1).is_ok());
    assert!(vfs.mkfile(&file1).is_ok());
    assert!(vfs.mkfile(&file2).is_ok());
    assert_iter_eq(vfs.dirs(&tmpdir).unwrap(), vec![dir1]);
    teardown(&mut vfs, &tmpdir);
}

#[test]
fn vfs_test_vfs_files() {
    let (mut vfs, tmpdir) = setup("vfs_files");
    let dir1 = mash(&tmpdir, "dir1");
    let file1 = mash(&tmpdir, "file1");
    let file2 = mash(&tmpdir, "file2");
    assert!(vfs.mkdir_p(&dir1).is_ok());
    assert!(vfs.mkfile(&file1).is_ok());
    assert!(vfs.mkfile(&file2).is_ok());
    assert_iter_eq(vfs.files(&tmpdir).unwrap(), vec![file1, file2]);
    teardown(&mut vfs, &tmpdir);
}

#[test]
fn test_vfs_paths() {
    let (mut vfs, tmpdir) = setup("vfs_paths");
    let dir1 = mash(&tmpdir, "dir1");
    let file1 = mash(&tmpdir, "file1");
    let file2 = mash(&tmpdir, "file2");
    assert!(vfs.mkdir_p(&dir1).is_ok());
    assert!(vfs.mkfile(&file1).is_ok());
    assert!(vfs.mkfile(&file2).is_ok());
    assert_iter_eq(vfs.paths(&tmpdir).unwrap(), vec![dir1, file1, file2]);
    teardown(&mut vfs, &tmpdir);
}

#[test]
fn test_vfs_root() {
    let (mut vfs, tmpdir) = setup("vfs_root");
    assert_eq!(vfs.root(), "/".to_string());
    teardown(&mut vfs, &tmpdir);
}

#[test]
fn test_vfs_entry_upcast() {
    let (mut vfs, tmpdir) = setup("entry_upcast");
    let file1 = mash(&tmpdir, "file1");
    assert!(vfs.mkfile(&file1).is_ok());
    assert_eq!(vfs.entry(&file1).unwrap().upcast().path(), &file1);
    teardown(&mut vfs, &tmpdir);
}

#[test]
fn test_vfs_entry_alt_rel() {
    let (mut vfs, tmpdir) = setup("entry_alt_rel");
    let dir1 = mash(&tmpdir, "dir1");
    let link1 = mash(&tmpdir, "link1");

    assert!(vfs.mkdir_p(&dir1).is_ok());
    assert_eq!(vfs.symlink(&link1, &dir1).unwrap(), link1);
    let entry = vfs.entry(&link1).unwrap();
    assert_eq!(entry.alt(), &dir1);
    assert_eq!(entry.alt_buf(), dir1);
    assert_eq!(entry.rel(), &"dir1".to_string());
    assert_eq!(entry.rel_buf(), "dir1".to_string());
    teardown(&mut vfs, &tmpdir);
}

#[test]
fn test_vfs_entry_is_dir() {
    let (mut vfs, tmpdir) = setup("entry_is_dir");
    let dir1 = mash(&tmpdir, "dir1");
    let file1 = mash(&tmpdir, "file1");

    assert!(vfs.mkfile(&file1).is_ok());
    assert_eq!(vfs.entry(&file1).unwrap().is_dir(), false);
    assert!(vfs.mkdir_p(&dir1).is_ok());
    assert_eq!(vfs.entry(&dir1).unwrap().is_dir(), true);
    teardown(&mut vfs, &tmpdir);
}

#[test]
fn test_vfs_entry_is_file() {
    let (mut vfs, tmpdir) = setup("entry_is_file");
    let dir1 = mash(&tmpdir, "dir1");
    let file1 = mash(&tmpdir, "file1");

    assert!(vfs.mkdir_p(&dir1).is_ok());
    assert_eq!(vfs.entry(&dir1).unwrap().is_file(), false);
    assert!(vfs.mkfile(&file1).is_ok());
    assert_eq!(vfs.entry(&file1).unwrap().is_file(), true);
    teardown(&mut vfs, &tmpdir);
}

#[test]
fn test_vfs_entry_is_readonly() {
    let (mut vfs, tmpdir) = setup("entry_is_readonly");
    let file1 = mash(&tmpdir, "file1");

    assert!(vfs.mkfile(&file1).is_ok());
    assert_eq!(vfs.entry(&file1).unwrap().is_readonly(), false);
    teardown(&mut vfs, &tmpdir);
}

#[test]
fn test_vfs_entry_is_symlink() {
    let (mut vfs, tmpdir) = setup("entry_is_symlink");
    let dir1 = mash(&tmpdir, "dir1");
    let link1 = mash(&tmpdir, "link1");

    assert!(vfs.mkdir_p(&dir1).is_ok());
    assert_eq!(vfs.entry(&dir1).unwrap().is_symlink(), false);
    assert_eq!(vfs.symlink(&link1, &dir1).unwrap(), link1);
    assert_eq!(vfs.entry(&link1).unwrap().is_symlink(), true);
    teardown(&mut vfs, &tmpdir);
}

#[test]
fn test_vfs_entry_is_symlink_dir() {
    let (mut vfs, tmpdir) = setup("entry_is_symlink_dir");
    let dir1 = mash(&tmpdir, "dir1");
    let link1 = mash(&tmpdir, "link1");

    // regular dir is not a symlink dir
    assert!(vfs.mkdir_p(&dir1).is_ok());
    assert_eq!(vfs.entry(&dir1).unwrap().is_symlink_dir(), false);

    // test absolute
    assert_eq!(vfs.symlink(&link1, &dir1).unwrap(), link1);
    assert_eq!(vfs.entry(&link1).unwrap().is_symlink_dir(), true);
    assert_eq!(vfs.entry(&link1).unwrap().is_symlink_file(), false);
    teardown(&mut vfs, &tmpdir);
}

#[test]
fn test_vfs_entry_is_symlink_file() {
    let (mut vfs, tmpdir) = setup("entry_is_symlink_file");
    let file1 = mash(&tmpdir, "file1");
    let link1 = mash(&tmpdir, "link1");

    // regular dir is not a symlink dir
    assert!(vfs.mkfile(&file1).is_ok());
    assert_eq!(vfs.entry(&file1).unwrap().is_symlink_file(), false);

    // test absolute
    assert_eq!(vfs.symlink(&link1, &file1).unwrap(), link1);
    assert_eq!(vfs.entry(&link1).unwrap().is_symlink_dir(), false);
    assert_eq!(vfs.entry(&link1).unwrap().is_symlink_file(), true);
    teardown(&mut vfs, &tmpdir);
}

#[test]
fn test_vfs_entry_follow() {
    let (mut vfs, tmpdir) = setup("entry_follow");
    let file1 = mash(&tmpdir, "file1");
    let link1 = mash(&tmpdir, "link1");

    assert!(vfs.mkfile(&file1).is_ok());
    assert_eq!(vfs.symlink(&link1, &file1).unwrap(), link1);
    let entry: VfsEntry = vfs.entry(&link1).unwrap();
    assert_eq!(entry.path(), &link1);
    assert_eq!(entry.following(), false);
    let entry = entry.follow(true);
    assert_eq!(entry.path(), &file1);
    assert_eq!(entry.following(), true);
    teardown(&mut vfs, &tmpdir);
}

#[test]
fn memfs_all_dirs_files_paths() {
    let mut vfs = Memfs::new();
    let tmpdir = rivia::path::mash(&vfs.root(), "below");
    let file1 = rivia::path::mash(&tmpdir, "file1");
    let dir1 = rivia::path::mash(&tmpdir, "dir1");
    let dir2 = rivia::path::mash(&dir1, "dir2");
    let file2 = rivia::path::mash(&dir1, "file2");
    let file3 = rivia::path::mash(&dir1, "file3");

    // not a directory
    assert_eq!(
        vfs.all_paths("").unwrap_err(),
        RvError::Path(PathError::IsNotDir(String::new()))
    );

    assert!(vfs.mkdir_p(&dir2).is_ok());
    assert!(vfs.mkfile(&file1).is_ok());
    assert!(vfs.mkfile(&file3).is_ok());
    assert!(vfs.mkfile(&file2).is_ok());
    assert_eq!(vfs.all_dirs(&tmpdir).unwrap(), vec![dir1.clone(), dir2.clone()]);
    assert_eq!(vfs.all_files(&tmpdir).unwrap(), vec![file2.clone(), file3.clone(), file1.clone()]);
    assert_eq!(vfs.all_paths(&tmpdir).unwrap(), vec![dir1.clone(), dir2.clone(), file2, file3, file1]);
    assert_eq!(vfs.all_paths(&dir2).unwrap(), Vec::<String>::new());
}
