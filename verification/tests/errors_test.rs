use rivia::chmod::mode;
use rivia::entry::{MemfsEntry, VfsEntry};
use rivia::errors::{PathError, RvError, VfsError};
use rivia::expand::expand_in;
use rivia::memfs::Memfs;

fn file_entry() -> VfsEntry {
    MemfsEntry::opts("/x").file().build().upcast()
}

#[test]
fn error_is_not_symlink() {
    let mut vfs = Memfs::new();
    vfs.mkfile("/file").unwrap();
    assert_eq!(
        vfs.readlink("/file").unwrap_err(),
        RvError::Path(PathError::IsNotSymlink("/file".to_string()))
    );
    assert_eq!(
        vfs.readlink_abs("/file").unwrap_err(),
        RvError::Path(PathError::IsNotSymlink("/file".to_string()))
    );
}

#[test]
fn error_link_looping() {
    let mut vfs = Memfs::new();
    vfs.mkdir_p("/top/sub").unwrap();
    vfs.symlink("/top/sub/back", "/top").unwrap();
    let mut iter = vfs.entries("/top").unwrap().follow(true).into_iter();
    let mut looped = false;
    while let Some(e) = iter.next() {
        if let Err(err) = e {
            assert_eq!(err, RvError::Path(PathError::LinkLooping("/top".to_string())));
            looped = true;
        }
    }
    assert!(looped);
}

#[test]
fn error_env_var_not_found() {
    let env = vec![("HOME".to_string(), "/home/tester".to_string())];
    assert_eq!(expand_in("/a/$NOPE/b", &env).unwrap_err(), RvError::EnvVarNotFound("NOPE".to_string()));
    assert_eq!(expand_in("~", &vec![]).unwrap_err(), RvError::EnvVarNotFound("HOME".to_string()));
}

#[test]
fn error_invalid_chmod_variants() {
    let e = file_entry();
    assert_eq!(mode(&e, 0, "f").unwrap_err(), RvError::Vfs(VfsError::InvalidChmod("f".to_string())));
    assert_eq!(mode(&e, 0, "f:u").unwrap_err(), RvError::Vfs(VfsError::InvalidChmod("f:u".to_string())));
    assert_eq!(
        mode(&e, 0, "x:u+r").unwrap_err(),
        RvError::Vfs(VfsError::InvalidChmodTarget("x:u+r".to_string()))
    );
    assert_eq!(
        mode(&e, 0, "f:z+r").unwrap_err(),
        RvError::Vfs(VfsError::InvalidChmodGroup("f:z+r".to_string()))
    );
    assert_eq!(
        mode(&e, 0, "f:+r").unwrap_err(),
        RvError::Vfs(VfsError::InvalidChmodGroup("f:+r".to_string()))
    );
    assert_eq!(
        mode(&e, 0, "f:u+q").unwrap_err(),
        RvError::Vfs(VfsError::InvalidChmodPermissions("f:u+q".to_string()))
    );
    // a target that does not match leaves the mode as it is
    assert_eq!(mode(&e, 0, "d:u+x").unwrap(), 0o100644);
}

#[test]
fn error_parent_not_found_and_empty() {
    let vfs = Memfs::new();
    assert_eq!(vfs.abs("..").unwrap_err(), RvError::Path(PathError::ParentNotFound("/".to_string())));
    assert_eq!(vfs.abs("").unwrap_err(), RvError::Path(PathError::Empty));
}

#[test]
fn error_messages() {
    assert_eq!(RvError::Path(PathError::Empty).message(), "path empty");
    assert_eq!(
        RvError::Path(PathError::IsNotDir("foo".to_string())).message(),
        "Target path is not a directory: foo"
    );
    assert_eq!(
        RvError::Vfs(VfsError::InvalidChmodTarget("sf:u+r".to_string())).message(),
        "Invalid chmod target given: sf:u+r"
    );
    let mut vfs = Memfs::new();
    vfs.write_all("/bad", &[0xff]).unwrap();
    assert_eq!(vfs.read_all("/bad").unwrap_err().message(), "stream did not contain valid UTF-8: /bad");
}
