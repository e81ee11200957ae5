use rivia::chmod::{mode, revoking_mode};
use rivia::entry::{MemfsEntry, StdfsEntry, VfsEntry};
use rivia::errors::{RvError, VfsError};
use rivia::memfs::Memfs;
use rivia::path::mash;

fn setup(name: &str) -> (Memfs, String) {
    let mut vfs = Memfs::new();
    let tmpdir = mash(&vfs.root(), name);
    assert_eq!(vfs.mkdir_p(&tmpdir).unwrap(), tmpdir);
    (vfs, tmpdir)
}

fn teardown(vfs: &mut Memfs, tmpdir: &str) {
    assert!(vfs.remove_all(tmpdir).is_ok());
    assert!(!vfs.path_exists(tmpdir));
}

#[test]
fn test_vfs_chmod() {
    let (mut vfs, tmpdir) = setup("chmod");
    let file1 = mash(&tmpdir, "file1");
    assert!(vfs.mkfile(&file1).is_ok());
    assert!(vfs.chmod(&file1, 0o644).is_ok());
    assert_eq!(vfs.mode(&file1).unwrap(), 0o100644);
    assert!(vfs.chmod(&file1, 0o555).is_ok());
    assert_eq!(vfs.mode(&file1).unwrap(), 0o100555);

    teardown(&mut vfs, &tmpdir);
}

#[test]
fn test_vfs_chmod_b() {
    let (mut vfs, tmpdir) = setup("chmod_b");
    let dir1 = mash(&tmpdir, "dir1");
    let file1 = mash(&dir1, "file1");
    let dir2 = mash(&dir1, "dir2");
    let file2 = mash(&dir2, "file2");

    // setup
    assert_eq!(vfs.mkdir_p(&dir1).unwrap(), dir1);
    assert_eq!(vfs.mkdir_p(&dir2).unwrap(), dir2);
    assert_eq!(vfs.mkfile_m(&file1, 0o644).unwrap(), file1);
    assert_eq!(vfs.mkfile_m(&file2, 0o644).unwrap(), file2);

    // all files
    let c = vfs.chmod_b(&dir1).unwrap().all(0o600);
    assert!(c.exec(&mut vfs).is_ok());
    assert_eq!(vfs.mode(&dir1).unwrap(), 0o40600);

    // now fix dirs only to allow for listing directries
    let c = vfs.chmod_b(&dir1).unwrap().dirs(0o755);
    assert!(c.exec(&mut vfs).is_ok());
    assert_eq!(vfs.mode(&dir1).unwrap(), 0o40755);
    assert_eq!(vfs.mode(&file1).unwrap(), 0o100600);
    assert_eq!(vfs.mode(&dir2).unwrap(), 0o40755);
    assert_eq!(vfs.mode(&file2).unwrap(), 0o100600);

    // now change just the files back to 644
    let c = vfs.chmod_b(&dir1).unwrap().files(0o644);
    assert!(c.exec(&mut vfs).is_ok());
    assert_eq!(vfs.mode(&dir1).unwrap(), 0o40755);
    assert_eq!(vfs.mode(&file1).unwrap(), 0o100644);
    assert_eq!(vfs.mode(&dir2).unwrap(), 0o40755);
    assert_eq!(vfs.mode(&file2).unwrap(), 0o100644);

    // set all back to 0o600 and then set both at the same time
    let c = vfs.chmod_b(&dir1).unwrap().all(0o600);
    assert!(c.exec(&mut vfs).is_ok());
    assert_eq!(vfs.mode(&dir1).unwrap(), 0o40600);
    let c = vfs.chmod_b(&dir1).unwrap().dirs(0o755).files(0o644);
    assert!(c.exec(&mut vfs).is_ok());
    assert_eq!(vfs.mode(&dir1).unwrap(), 0o40755);
    assert_eq!(vfs.mode(&file1).unwrap(), 0o100644);
    assert_eq!(vfs.mode(&dir2).unwrap(), 0o40755);
    assert_eq!(vfs.mode(&file2).unwrap(), 0o100644);

    // doesn't exist
    let c = vfs.chmod_b("bogus").unwrap().all(0o644);
    assert!(c.exec(&mut vfs).is_err());

    // no path given
    assert!(vfs.chmod_b("").is_err());

    // cleanup
    teardown(&mut vfs, &tmpdir);
}

#[test]
fn test_vfs_chmod_b_symbolic() {
    let (mut vfs, tmpdir) = setup("chmod_b_symbolic");
    let file1 = mash(&tmpdir, "file1");

    // setup
    assert!(vfs.mkfile_m(&file1, 0o644).is_ok());
    assert_eq!(vfs.mode(&file1).unwrap(), 0o100644);
    assert_eq!(vfs.is_exec(&file1), false);

    // add_x
    let c = vfs.chmod_b(&file1).unwrap().sym("f:a+x");
    assert!(c.exec(&mut vfs).is_ok());
    assert_eq!(vfs.mode(&file1).unwrap(), 0o100755);
    assert_eq!(vfs.is_exec(&file1), true);

    // sub_x
    let c = vfs.chmod_b(&file1).unwrap().sym("f:a-x");
    assert!(c.exec(&mut vfs).is_ok());
    assert_eq!(vfs.mode(&file1).unwrap(), 0o100644);
    assert_eq!(vfs.is_exec(&file1), false);

    // sub_w
    let c = vfs.chmod_b(&file1).unwrap().sym("f:a-w");
    assert!(c.exec(&mut vfs).is_ok());
    assert_eq!(vfs.mode(&file1).unwrap(), 0o100444);
    assert_eq!(vfs.is_readonly(&file1), true);

    // add_w
    let c = vfs.chmod_b(&file1).unwrap().sym("f:a+w");
    assert!(c.exec(&mut vfs).is_ok());
    assert_eq!(vfs.mode(&file1).unwrap(), 0o100666);
    assert_eq!(vfs.is_readonly(&file1), false);

    // sub_r
    let c = vfs.chmod_b(&file1).unwrap().sym("f:a-r");
    assert!(c.exec(&mut vfs).is_ok());
    assert_eq!(vfs.mode(&file1).unwrap(), 0o100222);

    // add_r
    let c = vfs.chmod_b(&file1).unwrap().sym("f:a+r");
    assert!(c.exec(&mut vfs).is_ok());
    assert_eq!(vfs.mode(&file1).unwrap(), 0o100666);

    // secure
    let c = vfs.chmod_b(&file1).unwrap().sym("f:a+rwx");
    assert!(c.exec(&mut vfs).is_ok());
    let c = vfs.chmod_b(&file1).unwrap().secure();
    assert!(c.exec(&mut vfs).is_ok());
    assert_eq!(vfs.mode(&file1).unwrap(), 0o100700);

    // readonly
    let c = vfs.chmod_b(&file1).unwrap().readonly();
    assert!(c.exec(&mut vfs).is_ok());
    assert_eq!(vfs.mode(&file1).unwrap(), 0o100444);
    assert_eq!(vfs.is_readonly(&file1), true);

    // cleanup
    teardown(&mut vfs, &tmpdir);
}

#[test]
fn test_vfs_chmod_follow() {
    let (mut vfs, tmpdir) = setup("chmod_follow");
    let dir1 = mash(&tmpdir, "dir1");
    let file1 = mash(&dir1, "file1");
    let link1 = mash(&tmpdir, "link1");

    assert_eq!(vfs.mkdir_m(&dir1, 0o777).unwrap(), dir1);
    assert_eq!(vfs.mkfile_m(&file1, 0o777).unwrap(), file1);
    assert_eq!(vfs.symlink(&link1, &dir1).unwrap(), link1);

    // no follow = no change for link, dir or file
    assert_eq!(vfs.mode(&link1).unwrap(), 0o120777);
    assert_eq!(vfs.mode(&dir1).unwrap(), 0o40777);
    assert!(vfs.chmod(&link1, 0o555).is_ok());
    assert_eq!(vfs.mode(&link1).unwrap(), 0o120777);
    assert_eq!(vfs.mode(&dir1).unwrap(), 0o40777);
    assert_eq!(vfs.mode(&file1).unwrap(), 0o100777);

    // follow but no recurse = no change for for link, dir or file
    let c = vfs.chmod_b(&link1).unwrap().no_recurse().dirs(0o755).files(0o444);
    assert!(c.exec(&mut vfs).is_ok());
    assert_eq!(vfs.mode(&link1).unwrap(), 0o120777);
    assert_eq!(vfs.mode(&dir1).unwrap(), 0o40777);
    assert_eq!(vfs.mode(&file1).unwrap(), 0o100777);

    // follow with recurse = no chang for link but change dir and file
    let c = vfs.chmod_b(&link1).unwrap().follow().dirs(0o755).files(0o444);
    assert!(c.exec(&mut vfs).is_ok());
    assert_eq!(vfs.mode(&link1).unwrap(), 0o120777);
    assert_eq!(vfs.mode(&dir1).unwrap(), 0o40755);
    assert_eq!(vfs.mode(&file1).unwrap(), 0o100444);

    teardown(&mut vfs, &tmpdir);
}

#[test]
fn test_vfs_chmod_recurse() {
    let (mut vfs, tmpdir) = setup("chmod_recurse");
    let dir1 = mash(&tmpdir, "dir1");
    let file1 = mash(&dir1, "file1");
    let dir2 = mash(&dir1, "dir2");
    let file2 = mash(&dir2, "file2");

    assert_eq!(vfs.mkdir_m(&dir2, 0o777).unwrap(), dir2);
    assert_eq!(vfs.mkfile_m(&file1, 0o777).unwrap(), file1);
    assert_eq!(vfs.mkfile_m(&file2, 0o777).unwrap(), file2);
    assert_eq!(vfs.mode(&dir1).unwrap(), 0o40777);
    assert_eq!(vfs.mode(&file1).unwrap(), 0o100777);
    assert_eq!(vfs.mode(&dir2).unwrap(), 0o40777);
    assert_eq!(vfs.mode(&file2).unwrap(), 0o100777);

    // no recurse = dir1 is the only chmod that will occur
    let c = vfs.chmod_b(&dir1).unwrap().no_recurse().dirs(0o755).files(0o644);
    assert!(c.exec(&mut vfs).is_ok());
    assert_eq!(vfs.mode(&dir1).unwrap(), 0o40755);
    assert_eq!(vfs.mode(&file1).unwrap(), 0o100777);
    assert_eq!(vfs.mode(&dir2).unwrap(), 0o40777);
    assert_eq!(vfs.mode(&file2).unwrap(), 0o100777);

    // recurse, default behavior
    let c = vfs.chmod_b(&dir1).unwrap().dirs(0o755).files(0o644);
    assert!(c.exec(&mut vfs).is_ok());
    assert_eq!(vfs.mode(&dir1).unwrap(), 0o40755);
    assert_eq!(vfs.mode(&file1).unwrap(), 0o100644);
    assert_eq!(vfs.mode(&dir2).unwrap(), 0o40755);
    assert_eq!(vfs.mode(&file2).unwrap(), 0o100644);

    teardown(&mut vfs, &tmpdir);
}

fn memfs_dir(m: u32) -> VfsEntry {
    let mut entry = MemfsEntry::opts("").dir().build();
    entry.mode = m;
    entry.upcast()
}

fn memfs_file(m: u32) -> VfsEntry {
    let mut entry = MemfsEntry::opts("").file().build();
    entry.mode = m;
    entry.upcast()
}

fn stdfs_entry(m: u32, dir: bool) -> VfsEntry {
    StdfsEntry {
        path: String::new(),
        alt: String::new(),
        rel: String::new(),
        dir,
        file: !dir,
        link: false,
        mode: m,
        follow: false,
        cached: false,
    }
    .upcast()
}

fn stdfs_dir(m: u32) -> VfsEntry {
    stdfs_entry(m, true)
}

fn stdfs_file(m: u32) -> VfsEntry {
    stdfs_entry(m, false)
}

fn check_chmod_symbolic(d: fn(u32) -> VfsEntry, f: fn(u32) -> VfsEntry) {
    assert_eq!(0o0700 & 0o0444 | 0o0000, 0o0400); // u+r
    assert_eq!(0o0770 & 0o0444 | 0o0000, 0o0440); // ug+r
    assert_eq!(!(0o0700 & 0o0444) & 0o0444, 0o0044); // u-r
    assert_eq!(!(0o0770 & 0o0444) & 0o0444, 0o0004); // ug-r

    // Repeating tests
    assert_eq!(mode(&f(0o0000), 0, "a:a=rwx,a:g=rw,a:o=r").unwrap(), 0o0764);
    assert_eq!(mode(&f(0o0077), 0, "f:u=rwx,f:g=rw,f:o=r").unwrap(), 0o0764);
    assert_eq!(mode(&f(0o0077), 0, "f:u=rwx,f:g=rw,f:o-rwx").unwrap(), 0o0760);

    // Target tests

    // bad target type
    assert_eq!(mode(&f(0o0300), 0, "sf:u+r").unwrap_err().message(), "Invalid chmod target given: sf:u+r");
    assert_eq!(
        mode(&f(0o0300), 0, "sf:u+r").unwrap_err(),
        RvError::Vfs(VfsError::InvalidChmodTarget("sf:u+r".to_string()))
    );

    // mismatch on target type
    assert_eq!(mode(&d(0o0300), 0, "f:u+r").unwrap(), 0o0300);
    assert_eq!(mode(&f(0o0300), 0, "d:u+r").unwrap(), 0o0300);

    // any target type
    assert_eq!(mode(&d(0o0300), 0, "a:u+r").unwrap(), 0o0700);
    assert_eq!(mode(&f(0o0300), 0, "a:u+r").unwrap(), 0o0700);

    // multiple targets
    assert_eq!(mode(&d(0o0300), 0, "ad:u+r").unwrap(), 0o0700);
    assert_eq!(mode(&f(0o0300), 0, "af:u+r").unwrap(), 0o0700);

    // Group tests

    // single group
    assert_eq!(mode(&d(0o0300), 0, "d:u+r").unwrap(), 0o0700);
    assert_eq!(mode(&d(0o0300), 0, "d:g+r").unwrap(), 0o0340);
    assert_eq!(mode(&d(0o0300), 0, "d:o+r").unwrap(), 0o0304);

    assert_eq!(mode(&f(0o0300), 0, "f:u+r").unwrap(), 0o0700);
    assert_eq!(mode(&f(0o0300), 0, "f:g+r").unwrap(), 0o0340);
    assert_eq!(mode(&f(0o0300), 0, "f:o+r").unwrap(), 0o0304);

    // multiple groups
    assert_eq!(mode(&f(0o0300), 0, "f:ug+r").unwrap(), 0o0740);
    assert_eq!(mode(&f(0o0300), 0, "f:uo+r").unwrap(), 0o0704);
    assert_eq!(mode(&f(0o0300), 0, "f:go+r").unwrap(), 0o0344);
    assert_eq!(mode(&f(0o0300), 0, "f:gu+r").unwrap(), 0o0740);
    assert_eq!(mode(&f(0o0300), 0, "f:gugugu+r").unwrap(), 0o0740);

    // all groups
    assert_eq!(mode(&f(0o0300), 0, "f:a+r").unwrap(), 0o0744);
    assert_eq!(mode(&f(0o0300), 0, "f:ugo+r").unwrap(), 0o0744);
    assert_eq!(mode(&f(0o0300), 0, "f:ugoa+r").unwrap(), 0o0744);

    // Permission tests

    // assign permissions
    assert_eq!(mode(&f(0o0000), 0, "f:u=rw").unwrap(), 0o0600);
    assert_eq!(mode(&f(0o0100), 0, "f:u=rw").unwrap(), 0o0600);
    assert_eq!(mode(&f(0o0200), 0, "f:u=rw").unwrap(), 0o0600);
    assert_eq!(mode(&f(0o0400), 0, "f:u=rw").unwrap(), 0o0600);
    assert_eq!(mode(&f(0o0400), 0, "f:u=rwrw").unwrap(), 0o0600);

    // sub user execute
    assert_eq!(mode(&f(0o0000), 0, "f:u-x").unwrap(), 0o0000);
    assert_eq!(mode(&f(0o0100), 0, "f:u-x").unwrap(), 0o0000);
    assert_eq!(mode(&f(0o0200), 0, "f:u-x").unwrap(), 0o0200);
    assert_eq!(mode(&f(0o0400), 0, "f:u-x").unwrap(), 0o0400);
    assert_eq!(mode(&f(0o0400), 0, "f:u-xx").unwrap(), 0o0400);

    // sub user write
    assert_eq!(mode(&f(0o0000), 0, "f:u-w").unwrap(), 0o0000);
    assert_eq!(mode(&f(0o0100), 0, "f:u-w").unwrap(), 0o0100);
    assert_eq!(mode(&f(0o0200), 0, "f:u-w").unwrap(), 0o0000);
    assert_eq!(mode(&f(0o0400), 0, "f:u-w").unwrap(), 0o0400);
    assert_eq!(mode(&f(0o0400), 0, "f:u-www").unwrap(), 0o0400);

    // add user write
    assert_eq!(mode(&f(0o0000), 0, "f:u+w").unwrap(), 0o0200);
    assert_eq!(mode(&f(0o0100), 0, "f:u+w").unwrap(), 0o0300);
    assert_eq!(mode(&f(0o0200), 0, "f:u+w").unwrap(), 0o0200);
    assert_eq!(mode(&f(0o0400), 0, "f:u+w").unwrap(), 0o0600);
    assert_eq!(mode(&f(0o0400), 0, "f:u+www").unwrap(), 0o0600);

    // add user execute
    assert_eq!(mode(&f(0o0000), 0, "f:u+x").unwrap(), 0o0100);
    assert_eq!(mode(&f(0o0100), 0, "f:u+x").unwrap(), 0o0100);
    assert_eq!(mode(&f(0o0200), 0, "f:u+x").unwrap(), 0o0300);
    assert_eq!(mode(&f(0o0400), 0, "f:u+x").unwrap(), 0o0500);
    assert_eq!(mode(&f(0o0400), 0, "f:u+xx").unwrap(), 0o0500);

    // add user all
    assert_eq!(mode(&f(0o0000), 0, "f:u+rwx").unwrap(), 0o0700);
    assert_eq!(mode(&f(0o0100), 0, "f:u+rwx").unwrap(), 0o0700);
    assert_eq!(mode(&f(0o0200), 0, "f:u+rwx").unwrap(), 0o0700);
    assert_eq!(mode(&f(0o0400), 0, "f:u+rwx").unwrap(), 0o0700);
    assert_eq!(mode(&f(0o0400), 0, "f:u+rwxrwx").unwrap(), 0o0700);
}

#[test]
fn test_vfs_chmod_symbolic() {
    check_chmod_symbolic(memfs_dir, memfs_file);
    check_chmod_symbolic(stdfs_dir, stdfs_file);
}

#[test]
fn test_revoking_mode() {
    // test other octet
    assert_eq!(revoking_mode(0o0777, 0o0777), false);
    assert_eq!(revoking_mode(0o0776, 0o0775), false);
    assert_eq!(revoking_mode(0o0770, 0o0771), false);
    assert_eq!(revoking_mode(0o0776, 0o0772), true);
    assert_eq!(revoking_mode(0o0775, 0o0776), true);
    assert_eq!(revoking_mode(0o0775, 0o0774), true);

    // Test group octet
    assert_eq!(revoking_mode(0o0777, 0o0777), false);
    assert_eq!(revoking_mode(0o0767, 0o0757), false);
    assert_eq!(revoking_mode(0o0707, 0o0717), false);
    assert_eq!(revoking_mode(0o0767, 0o0727), true);
    assert_eq!(revoking_mode(0o0757, 0o0767), true);
    assert_eq!(revoking_mode(0o0757, 0o0747), true);

    // Test owner octet
    assert_eq!(revoking_mode(0o0777, 0o0777), false);
    assert_eq!(revoking_mode(0o0677, 0o0577), false);
    assert_eq!(revoking_mode(0o0077, 0o0177), false);
    assert_eq!(revoking_mode(0o0677, 0o0277), true);
    assert_eq!(revoking_mode(0o0577, 0o0677), true);
    assert_eq!(revoking_mode(0o0577, 0o0477), true);
    assert_eq!(revoking_mode(0o0577, 0o0177), true);
}

#[test]
fn test_vfs_chown() {
    let (mut vfs, tmpdir) = setup("chown");
    let dir1 = mash(&tmpdir, "dir1");
    let file1 = mash(&tmpdir, "file1");
    let dir1file1 = mash(&dir1, "dir1file1");

    assert!(vfs.mkfile(&file1).is_ok());
    assert!(vfs.mkdir_p(&dir1).is_ok());
    assert!(vfs.mkfile(&dir1file1).is_ok());
    let (uid, gid) = vfs.owner(&file1).unwrap();

    // chown single file
    assert!(vfs.chown(&file1, uid, gid).is_ok());
    assert_eq!(vfs.uid(&file1).unwrap(), uid);
    assert_eq!(vfs.gid(&file1).unwrap(), gid);

    // recurse
    assert!(vfs.chown(&dir1, uid, gid).is_ok());
    assert_eq!(vfs.owner(&dir1).unwrap(), (uid, gid));
    assert_eq!(vfs.owner(&dir1file1).unwrap(), (uid, gid));

    teardown(&mut vfs, &tmpdir);
}

#[test]
fn test_vfs_chown_follow() {
    let (mut vfs, tmpdir) = setup("chown_follow");
    let dir1 = mash(&tmpdir, "dir1");
    let dir1file1 = mash(&dir1, "dir1file1");
    let link1 = mash(&tmpdir, "link1");

    assert!(vfs.mkdir_p(&dir1).is_ok());
    assert!(vfs.mkfile(&dir1file1).is_ok());
    assert_eq!(vfs.symlink(&link1, &dir1).unwrap(), link1);
    let (uid, gid) = vfs.owner(&dir1file1).unwrap();

    // no follow
    let c = vfs.chown_b(&link1).unwrap().owner(uid, gid);
    assert!(c.exec(&mut vfs).is_ok());
    assert_eq!(vfs.owner(&dir1).unwrap(), (uid, gid));
    assert_eq!(vfs.owner(&dir1file1).unwrap(), (uid, gid));

    // follow
    let c = vfs.chown_b(&link1).unwrap().owner(uid, gid);
    assert!(c.exec(&mut vfs).is_ok());
    assert_eq!(vfs.owner(&dir1).unwrap(), (uid, gid));
    assert_eq!(vfs.owner(&dir1file1).unwrap(), (uid, gid));

    teardown(&mut vfs, &tmpdir);
}
