use rivia::entries::EntriesIter;
use rivia::entry_iter::SortBy;
use rivia::errors::{PathError, RvError};
use rivia::memfs::Memfs;
use rivia::path::{has_suffix, mash};

fn setup(name: &str) -> (Memfs, String) {
    let mut vfs = Memfs::new();
    let tmpdir = mash(&vfs.root(), name);
    assert_eq!(vfs.mkdir_p(&tmpdir).unwrap(), tmpdir);
    (vfs, tmpdir)
}

fn teardown(vfs: &mut Memfs, tmpdir: &str) {
    assert!(vfs.remove_all(tmpdir).is_ok());
    assert!(!vfs.path_exists(tmpdir));
}

fn assert_iter_eq(iter: EntriesIter, paths: Vec<&String>) {
    // Using a vector here as there can be duplicates
    let mut iter = iter;
    let mut entries = Vec::new();
    while let Some(entry) = iter.next() {
        entries.push(entry.unwrap().path().clone());
    }

    assert_eq!(entries.len(), paths.len());
    for path in paths.iter() {
        assert!(entries.contains(path));
    }
}

#[test]
fn test_entries_debug() {
    let vfs = Memfs::new();
    let entries = vfs.entries(&vfs.root()).unwrap();
    assert_eq!(format!("{:?}", &entries), format!("{:?}", &entries));
}

#[test]
fn entries_test_vfs_dirs() {
    let (mut vfs, tmpdir) = setup("dirs");
    let dir1 = mash(&tmpdir, "zdir");
    let file1 = mash(&tmpdir, "file");
    assert!(vfs.mkdir_p(&dir1).is_ok());
    assert!(vfs.mkfile(&file1).is_ok());

    // Without dirs set, but sorted to get consistency
    let mut iter = vfs.entries(&tmpdir).unwrap().sort_by_name().into_iter();
    assert_eq!(iter.next().unwrap().unwrap().path(), &tmpdir);
    assert_eq!(iter.next().unwrap().unwrap().path(), &file1);
    assert_eq!(iter.next().unwrap().unwrap().path(), &dir1);
    assert!(iter.next().is_none());

    // Filter on dirs
    let mut iter = vfs.entries(&tmpdir).unwrap().dirs().sort_by_name().into_iter();
    assert_eq!(iter.next().unwrap().unwrap().path(), &tmpdir);
    assert_eq!(iter.next().unwrap().unwrap().path(), &dir1);
    assert!(iter.next().is_none());

    teardown(&mut vfs, &tmpdir);
}

#[test]
fn entries_test_vfs_files() {
    let (mut vfs, tmpdir) = setup("files");
    let dir1 = mash(&tmpdir, "zdir");
    let file1 = mash(&tmpdir, "file");
    assert!(vfs.mkdir_p(&dir1).is_ok());
    assert!(vfs.mkfile(&file1).is_ok());

    // Without files set, but sorted to get consistency
    let mut iter = vfs.entries(&tmpdir).unwrap().sort_by_name().into_iter();
    assert_eq!(iter.next().unwrap().unwrap().path(), &tmpdir);
    assert_eq!(iter.next().unwrap().unwrap().path(), &file1);
    assert_eq!(iter.next().unwrap().unwrap().path(), &dir1);
    assert!(iter.next().is_none());

    // Filter on files
    let mut iter = vfs.entries(&tmpdir).unwrap().files().sort_by_name().into_iter();
    assert_eq!(iter.next().unwrap().unwrap().path(), &file1);
    assert!(iter.next().is_none());

    teardown(&mut vfs, &tmpdir);
}

#[test]
fn test_vfs_follow() {
    let (mut vfs, tmpdir) = setup("follow");
    let dir1 = mash(&tmpdir, "dir1");
    let file1 = mash(&dir1, "file1");
    let link1 = mash(&tmpdir, "link1");
    assert!(vfs.mkdir_p(&dir1).is_ok());
    assert!(vfs.mkfile(&file1).is_ok());
    assert_eq!(vfs.symlink(&link1, &dir1).unwrap(), link1);

    // Without follow
    let mut iter = vfs.entries(&link1).unwrap().into_iter();
    assert_eq!(iter.next().unwrap().unwrap().path(), &link1);
    assert!(iter.next().is_none());

    // With follow
    let mut iter = vfs.entries(&link1).unwrap().follow(true).sort_by_name().into_iter();
    assert_eq!(iter.next().unwrap().unwrap().path(), &dir1);
    assert_eq!(iter.next().unwrap().unwrap().path(), &file1);
    assert!(iter.next().is_none());

    teardown(&mut vfs, &tmpdir);
}

#[test]
fn test_vfs_depth() {
    let (mut vfs, tmpdir) = setup("depth");
    let dir1 = mash(&tmpdir, "dir1");
    let dir1file1 = mash(&dir1, "file1");
    let file1 = mash(&tmpdir, "file1");
    let dir2 = mash(&dir1, "dir2");
    let dir2file1 = mash(&dir2, "file1");

    assert!(vfs.mkdir_p(&dir2).is_ok());
    assert!(vfs.mkfile(&dir1file1).is_ok());
    assert!(vfs.mkfile(&dir2file1).is_ok());
    assert!(vfs.mkfile(&file1).is_ok());

    // Min: 0, Max: 0 = only root
    let mut iter = vfs.entries(&tmpdir).unwrap().max_depth(0).into_iter();
    assert_eq!(iter.next().unwrap().unwrap().path(), &tmpdir);
    assert!(iter.next().is_none());

    // Min: 0, Max: 1 = root and immediate children
    let iter = vfs.entries(&tmpdir).unwrap().max_depth(1).into_iter();
    assert_iter_eq(iter, vec![&tmpdir, &file1, &dir1]);

    // Min: 0, Max: 2 = root, its immediate children and their immediate children
    let iter = vfs.entries(&tmpdir).unwrap().max_depth(2).into_iter();
    assert_iter_eq(iter, vec![&tmpdir, &file1, &dir1, &dir2, &dir1file1]);

    // Min: 1, Max: max = skip root, all rest
    let iter = vfs.entries(&tmpdir).unwrap().min_depth(1).into_iter();
    assert_iter_eq(iter, vec![&file1, &dir1, &dir2, &dir1file1, &dir2file1]);

    // Min: 1, Max: 1 = skip root, hit root's children only
    let iter = vfs.entries(&tmpdir).unwrap().min_depth(1).max_depth(1).into_iter();
    assert_iter_eq(iter, vec![&file1, &dir1]);

    // Min: 1, Max: 2 = skip root, hit root's chilren and theirs only
    let iter = vfs.entries(&tmpdir).unwrap().min_depth(1).max_depth(2).into_iter();
    assert_iter_eq(iter, vec![&file1, &dir1, &dir2, &dir1file1]);

    // Min: 2, Max: 1 - max should get corrected to 2 because of ordering
    let iter = vfs.entries(&tmpdir).unwrap().min_depth(2).max_depth(1).into_iter();
    assert_eq!(iter.opts.min_depth, 2);
    assert_eq!(iter.opts.max_depth, 2);
    assert_iter_eq(iter, vec![&dir2, &dir1file1]);

    // Min: 2, Max: 1 - min should get corrected to 1 because of ordering
    let iter = vfs.entries(&tmpdir).unwrap().max_depth(1).min_depth(2).into_iter();
    assert_eq!(iter.opts.min_depth, 1);
    assert_eq!(iter.opts.max_depth, 1);
    assert_iter_eq(iter, vec![&file1, &dir1]);

    teardown(&mut vfs, &tmpdir);
}

#[test]
fn test_vfs_contents_first() {
    let (mut vfs, tmpdir) = setup("contents_first");
    let dir1 = mash(&tmpdir, "dir1");
    let file1 = mash(&dir1, "file1");
    let dir2 = mash(&dir1, "dir2");
    let file2 = mash(&dir2, "file2");
    let file3 = mash(&tmpdir, "file3");
    let link1 = mash(&tmpdir, "link1");

    assert!(vfs.mkdir_p(&dir2).is_ok());
    assert!(vfs.mkfile(&file1).is_ok());
    assert!(vfs.mkfile(&file2).is_ok());
    assert!(vfs.mkfile(&file3).is_ok());
    assert_eq!(vfs.symlink(&link1, &file3).unwrap(), link1);

    // contents first un-sorted
    let iter = vfs.entries(&tmpdir).unwrap().contents_first().into_iter();
    assert_iter_eq(iter, vec![&link1, &file3, &file2, &dir2, &file1, &dir1, &tmpdir]);

    // contents first sorted
    let mut iter = vfs.entries(&tmpdir).unwrap().contents_first().sort_by_name().into_iter();
    assert_eq!(iter.next().unwrap().unwrap().path(), &file2);
    assert_eq!(iter.next().unwrap().unwrap().path(), &dir2);
    assert_eq!(iter.next().unwrap().unwrap().path(), &file1);
    assert_eq!(iter.next().unwrap().unwrap().path(), &dir1);
    assert_eq!(iter.next().unwrap().unwrap().path(), &file3);
    assert_eq!(iter.next().unwrap().unwrap().path(), &link1);
    assert_eq!(iter.next().unwrap().unwrap().path(), &tmpdir);
    assert!(iter.next().is_none());

    teardown(&mut vfs, &tmpdir);
}

#[test]
fn test_vfs_sort() {
    let (mut vfs, tmpdir) = setup("sort");
    let zdir1 = mash(&tmpdir, "zdir1");
    let dir1file1 = mash(&zdir1, "file1");
    let dir1file2 = mash(&zdir1, "file2");
    let zdir2 = mash(&tmpdir, "zdir2");
    let dir2file1 = mash(&zdir2, "file1");
    let dir2file2 = mash(&zdir2, "file2");
    let file1 = mash(&tmpdir, "file1");
    let file2 = mash(&tmpdir, "file2");

    assert!(vfs.mkdir_p(&zdir1).is_ok());
    assert!(vfs.mkdir_p(&zdir2).is_ok());
    assert!(vfs.mkfile(&dir1file1).is_ok());
    assert!(vfs.mkfile(&dir1file2).is_ok());
    assert!(vfs.mkfile(&dir2file1).is_ok());
    assert!(vfs.mkfile(&dir2file2).is_ok());
    assert!(vfs.mkfile(&file1).is_ok());
    assert!(vfs.mkfile(&file2).is_ok());

    // Without sorting
    let iter = vfs.entries(&tmpdir).unwrap().into_iter();
    assert_iter_eq(iter, vec![
        &tmpdir, &file2, &zdir1, &dir1file2, &dir1file1, &file1, &zdir2, &dir2file2, &dir2file1,
    ]);

    // with manual sorting on name
    let mut iter = vfs.entries(&tmpdir).unwrap().sort(SortBy::Name).into_iter();
    assert_eq!(iter.next().unwrap().unwrap().path(), &tmpdir);
    assert_eq!(iter.next().unwrap().unwrap().path(), &file1);
    assert_eq!(iter.next().unwrap().unwrap().path(), &file2);
    assert_eq!(iter.next().unwrap().unwrap().path(), &zdir1);
    assert_eq!(iter.next().unwrap().unwrap().path(), &dir1file1);
    assert_eq!(iter.next().unwrap().unwrap().path(), &dir1file2);
    assert_eq!(iter.next().unwrap().unwrap().path(), &zdir2);
    assert_eq!(iter.next().unwrap().unwrap().path(), &dir2file1);
    assert_eq!(iter.next().unwrap().unwrap().path(), &dir2file2);
    assert!(iter.next().is_none());

    // with sort by name default
    let mut iter = vfs.entries(&tmpdir).unwrap().sort_by_name().into_iter();
    assert_eq!(iter.next().unwrap().unwrap().path(), &tmpdir);
    assert_eq!(iter.next().unwrap().unwrap().path(), &file1);
    assert_eq!(iter.next().unwrap().unwrap().path(), &file2);
    assert_eq!(iter.next().unwrap().unwrap().path(), &zdir1);
    assert_eq!(iter.next().unwrap().unwrap().path(), &dir1file1);
    assert_eq!(iter.next().unwrap().unwrap().path(), &dir1file2);
    assert_eq!(iter.next().unwrap().unwrap().path(), &zdir2);
    assert_eq!(iter.next().unwrap().unwrap().path(), &dir2file1);
    assert_eq!(iter.next().unwrap().unwrap().path(), &dir2file2);
    assert!(iter.next().is_none());

    // sort dirs first
    let zdir3 = mash(&zdir1, "zdir3");
    let dir3file1 = mash(&zdir3, "file1");
    let dir3file2 = mash(&zdir3, "file2");
    assert!(vfs.mkdir_p(&zdir3).is_ok());
    assert!(vfs.mkfile(&dir3file1).is_ok());
    assert!(vfs.mkfile(&dir3file2).is_ok());

    let mut iter = vfs.entries(&tmpdir).unwrap().dirs_first().into_iter();
    assert_eq!(iter.next().unwrap().unwrap().path(), &tmpdir);
    assert_eq!(iter.next().unwrap().unwrap().path(), &zdir1);
    assert_eq!(iter.next().unwrap().unwrap().path(), &zdir3);
    assert_eq!(iter.next().unwrap().unwrap().path(), &dir3file1);
    assert_eq!(iter.next().unwrap().unwrap().path(), &dir3file2);
    assert_eq!(iter.next().unwrap().unwrap().path(), &dir1file1);
    assert_eq!(iter.next().unwrap().unwrap().path(), &dir1file2);
    assert_eq!(iter.next().unwrap().unwrap().path(), &zdir2);
    assert_eq!(iter.next().unwrap().unwrap().path(), &dir2file1);
    assert_eq!(iter.next().unwrap().unwrap().path(), &dir2file2);
    assert_eq!(iter.next().unwrap().unwrap().path(), &file1);
    assert_eq!(iter.next().unwrap().unwrap().path(), &file2);
    assert!(iter.next().is_none());

    // sort files first
    let mut iter = vfs.entries(&tmpdir).unwrap().files_first().into_iter();
    assert_eq!(iter.next().unwrap().unwrap().path(), &tmpdir);
    assert_eq!(iter.next().unwrap().unwrap().path(), &file1);
    assert_eq!(iter.next().unwrap().unwrap().path(), &file2);
    assert_eq!(iter.next().unwrap().unwrap().path(), &zdir1);
    assert_eq!(iter.next().unwrap().unwrap().path(), &dir1file1);
    assert_eq!(iter.next().unwrap().unwrap().path(), &dir1file2);
    assert_eq!(iter.next().unwrap().unwrap().path(), &zdir3);
    assert_eq!(iter.next().unwrap().unwrap().path(), &dir3file1);
    assert_eq!(iter.next().unwrap().unwrap().path(), &dir3file2);
    assert_eq!(iter.next().unwrap().unwrap().path(), &zdir2);
    assert_eq!(iter.next().unwrap().unwrap().path(), &dir2file1);
    assert_eq!(iter.next().unwrap().unwrap().path(), &dir2file2);
    assert!(iter.next().is_none());

    // sort files first but in reverse aphabetic order
    let mut iter = vfs.entries(&tmpdir).unwrap().files_first().sort(SortBy::NameDesc).into_iter();
    assert_eq!(iter.next().unwrap().unwrap().path(), &tmpdir);
    assert_eq!(iter.next().unwrap().unwrap().path(), &file2);
    assert_eq!(iter.next().unwrap().unwrap().path(), &file1);
    assert_eq!(iter.next().unwrap().unwrap().path(), &zdir2);
    assert_eq!(iter.next().unwrap().unwrap().path(), &dir2file2);
    assert_eq!(iter.next().unwrap().unwrap().path(), &dir2file1);
    assert_eq!(iter.next().unwrap().unwrap().path(), &zdir1);
    assert_eq!(iter.next().unwrap().unwrap().path(), &dir1file2);
    assert_eq!(iter.next().unwrap().unwrap().path(), &dir1file1);
    assert_eq!(iter.next().unwrap().unwrap().path(), &zdir3);
    assert_eq!(iter.next().unwrap().unwrap().path(), &dir3file2);
    assert_eq!(iter.next().unwrap().unwrap().path(), &dir3file1);
    assert!(iter.next().is_none());

    teardown(&mut vfs, &tmpdir);
}

#[test]
fn test_vfs_max_descriptors() {
    let (mut vfs, tmpdir) = setup("max_descriptors");
    let dir1 = mash(&tmpdir, "dir1");
    let file1 = mash(&dir1, "file1");
    let dir2 = mash(&dir1, "dir2");
    let file2 = mash(&dir2, "file2");
    let dir3 = mash(&dir2, "dir3");
    let file3 = mash(&dir3, "file3");

    assert!(vfs.mkdir_p(&dir3).is_ok());
    assert!(vfs.mkfile(&file1).is_ok());
    assert!(vfs.mkfile(&file2).is_ok());
    assert!(vfs.mkfile(&file3).is_ok());

    // Without descriptor cap
    let iter = vfs.entries(&tmpdir).unwrap().into_iter();
    assert_iter_eq(iter, vec![&tmpdir, &dir1, &dir2, &file2, &dir3, &file3, &file1]);

    // with descritor cap - should have the same pattern
    let mut paths = vfs.entries(&tmpdir).unwrap();
    paths.max_descriptors = 1;
    let iter = paths.into_iter();
    assert_iter_eq(iter, vec![&tmpdir, &dir1, &dir2, &file2, &dir3, &file3, &file1]);

    teardown(&mut vfs, &tmpdir);
}

#[test]
fn test_vfs_filter() {
    let (mut vfs, tmpdir) = setup("filter");
    let dir1 = mash(&tmpdir, "dir1");
    let file1 = mash(&dir1, "file1");
    let dir2 = mash(&dir1, "dir2");
    let file2 = mash(&dir2, "file2");
    let file3 = mash(&tmpdir, "file3");
    let link1 = mash(&tmpdir, "link1");
    let link2 = mash(&tmpdir, "link2");

    assert!(vfs.mkdir_p(&dir2).is_ok());
    assert!(vfs.mkfile(&file1).is_ok());
    assert!(vfs.mkfile(&file2).is_ok());
    assert!(vfs.mkfile(&file3).is_ok());
    assert_eq!(vfs.symlink(&link2, &dir2).unwrap(), link2);
    assert_eq!(vfs.symlink(&link1, &file1).unwrap(), link1);

    // Files only
    let iter = vfs.entries(&tmpdir).unwrap().files().into_iter();
    assert_iter_eq(iter, vec![&link1, &file3, &file2, &file1]);

    // Dirs only
    let iter = vfs.entries(&tmpdir).unwrap().dirs().into_iter();
    assert_iter_eq(iter, vec![&tmpdir, &link2, &dir1, &dir2]);

    // Custom links only
    let iter = vfs.entries(&tmpdir).unwrap().into_iter().filter_p(|x| x.is_symlink());
    assert_iter_eq(iter, vec![&link1, &link2]);

    // Custom name
    let iter = vfs.entries(&tmpdir).unwrap().into_iter().filter_p(|x| has_suffix(x.path(), "1"));
    assert_iter_eq(iter, vec![&link1, &dir1, &file1]);

    teardown(&mut vfs, &tmpdir);
}

#[test]
fn test_vfs_multiple() {
    let (mut vfs, tmpdir) = setup("multiple");
    let dir1 = mash(&tmpdir, "dir1");
    let file1 = mash(&dir1, "file1");
    let dir2 = mash(&dir1, "dir2");
    let file2 = mash(&dir2, "file2");
    let file3 = mash(&tmpdir, "file3");
    let link1 = mash(&tmpdir, "link1");

    assert!(vfs.mkdir_p(&dir2).is_ok());
    assert!(vfs.mkfile(&file1).is_ok());
    assert!(vfs.mkfile(&file2).is_ok());
    assert!(vfs.mkfile(&file3).is_ok());
    assert_eq!(vfs.symlink(&link1, &file3).unwrap(), link1);

    let iter = vfs.entries(&tmpdir).unwrap().into_iter();
    assert_iter_eq(iter, vec![&tmpdir, &file3, &dir1, &dir2, &file2, &file1, &link1]);
    teardown(&mut vfs, &tmpdir);
}

#[test]
fn test_vfs_single() {
    let (mut vfs, tmpdir) = setup("single");
    let file1 = mash(&tmpdir, "file1");

    // Single directory
    let mut iter = vfs.entries(&tmpdir).unwrap().into_iter();
    assert_eq!(iter.next().unwrap().unwrap().path(), &tmpdir);
    assert!(iter.next().is_none());

    // Single file
    assert!(vfs.mkfile(&file1).is_ok());
    let mut iter = vfs.entries(&file1).unwrap().into_iter();
    assert_eq!(iter.next().unwrap().unwrap().path(), &file1);
    assert!(iter.next().is_none());

    teardown(&mut vfs, &tmpdir);
}

#[test]
fn test_memfs_single() {
    let (mut vfs, tmpdir) = setup("memfs_single");
    let file1 = mash(&tmpdir, "file1");

    // Single directory
    let mut iter = vfs.entries(&tmpdir).unwrap().into_iter();
    assert_eq!(iter.next().unwrap().unwrap().path(), &tmpdir);
    assert!(iter.next().is_none());

    // Single file
    assert!(vfs.mkfile(&file1).is_ok());
    let mut iter = vfs.entries(&file1).unwrap().into_iter();
    assert_eq!(iter.next().unwrap().unwrap().path(), &file1);
    assert!(iter.next().is_none());

    teardown(&mut vfs, &tmpdir);
}

#[test]
fn test_entry_iter_error() {
    let vfs = Memfs::new();
    let tmpdir = String::new();
    if let Err(e) = vfs.entry_iter(&tmpdir, false) {
        assert_eq!(e, RvError::Path(PathError::Empty));
    }
}

#[test]
fn test_entry_iter_dirs_first() {
    let mut vfs = Memfs::new();
    let tmpdir = mash(&vfs.root(), "tmpdir");
    let dir1 = mash(&tmpdir, "dir1");
    let dir2 = mash(&tmpdir, "dir2");
    let file1 = mash(&tmpdir, "file1");
    let file2 = mash(&tmpdir, "file2");

    assert!(vfs.mkdir_p(&dir1).is_ok());
    assert!(vfs.mkdir_p(&dir2).is_ok());
    assert!(vfs.mkfile(&file1).is_ok());
    assert!(vfs.mkfile(&file2).is_ok());

    // dirs first
    let mut iter = vfs.entry_iter(&tmpdir, false).unwrap();
    iter.dirs_first(SortBy::Name);
    assert_eq!(iter.cached(), true);
    assert_eq!(iter.next().unwrap().unwrap().path(), &dir1);
    assert_eq!(iter.next().unwrap().unwrap().path(), &dir2);
    assert_eq!(iter.next().unwrap().unwrap().path(), &file1);
    assert_eq!(iter.next().unwrap().unwrap().path(), &file2);
    assert!(iter.next().is_none());

    // files first
    let mut iter = vfs.entry_iter(&tmpdir, false).unwrap();
    iter.files_first(SortBy::Name);
    assert_eq!(iter.cached(), true);
    assert_eq!(iter.next().unwrap().unwrap().path(), &file1);
    assert_eq!(iter.next().unwrap().unwrap().path(), &file2);
    assert_eq!(iter.next().unwrap().unwrap().path(), &dir1);
    assert_eq!(iter.next().unwrap().unwrap().path(), &dir2);
    assert!(iter.next().is_none());
}

#[test]
fn test_entry_sort() {
    let mut vfs = Memfs::new();
    let tmpdir = mash(&vfs.root(), "tmpdir");
    let file1 = mash(&tmpdir, "file1");
    let file2 = mash(&tmpdir, "file2");

    assert!(vfs.mkdir_p(&tmpdir).is_ok());
    assert!(vfs.mkfile(&file1).is_ok());
    assert!(vfs.mkfile(&file2).is_ok());

    // custom sort for files
    let mut iter = vfs.entry_iter(&tmpdir, false).unwrap();
    iter.sort_by(|x, y| x.file_name().cmp(&y.file_name()));
    assert_eq!(iter.cached(), true);
    assert_eq!(iter.next().unwrap().unwrap().path(), &file1);
    assert_eq!(iter.next().unwrap().unwrap().path(), &file2);
    assert!(iter.next().is_none());

    // the fixed order by name does the same
    let mut iter = vfs.entry_iter(&tmpdir, false).unwrap();
    iter.sort(SortBy::Name);
    assert_eq!(iter.cached(), true);
    assert_eq!(iter.next().unwrap().unwrap().path(), &file1);
    assert_eq!(iter.next().unwrap().unwrap().path(), &file2);
    assert!(iter.next().is_none());

    // a reversed comparator reverses the order
    let mut iter = vfs.entry_iter(&tmpdir, false).unwrap();
    iter.sort_by(|x, y| y.file_name().cmp(&x.file_name()));
    assert_eq!(iter.next().unwrap().unwrap().path(), &file2);
    assert_eq!(iter.next().unwrap().unwrap().path(), &file1);
    assert!(iter.next().is_none());
}

#[test]
fn test_entry_follow() {
    let mut vfs = Memfs::new();
    let tmpdir = mash(&vfs.root(), "tmpdir");
    let file1 = mash(&tmpdir, "file1");
    let file2 = mash(&tmpdir, "file2");
    let file3 = mash(&vfs.root(), "file3");
    let link1 = mash(&tmpdir, "link");

    assert!(vfs.mkdir_p(&tmpdir).is_ok());
    assert!(vfs.mkfile(&file1).is_ok());
    assert!(vfs.mkfile(&file2).is_ok());
    assert!(vfs.mkfile(&file3).is_ok());
    assert_eq!(vfs.symlink(&link1, &file3).unwrap(), link1);

    // custom sort for files
    let iter = vfs.entry_iter(&tmpdir, false).unwrap();
    assert_eq!(iter.following(), false);
    let mut iter = iter.follow(true);
    assert_eq!(iter.following(), true);
    iter.sort(SortBy::Name);
    assert_eq!(iter.cached(), true);

    // because we sort on the path and we have follow set which switches the path and alt
    // sort order will be based on the file name not the link name
    let item1 = iter.next().unwrap().unwrap();
    assert_eq!(item1.following(), false);
    assert_eq!(item1.path(), &file1);

    let item2 = iter.next().unwrap().unwrap();
    assert_eq!(item2.following(), false);
    assert_eq!(item2.path(), &file2);

    let item3 = iter.next().unwrap().unwrap();
    assert_eq!(item3.following(), true);
    assert_eq!(item3.path(), &file3);
    assert_eq!(item3.alt(), &link1);

    assert!(iter.next().is_none());
}

#[test]
fn test_vfs_pre_op() {
    let (mut vfs, tmpdir) = setup("pre_op");
    let dir1 = mash(&tmpdir, "dir1");
    let file1 = mash(&dir1, "file1");
    let dir2 = mash(&dir1, "dir2");
    let file2 = mash(&dir2, "file2");
    let file3 = mash(&tmpdir, "file3");
    assert!(vfs.mkdir_p(&dir2).is_ok());
    assert!(vfs.mkfile(&file1).is_ok());
    assert!(vfs.mkfile(&file2).is_ok());
    assert!(vfs.mkfile(&file3).is_ok());

    // an operation that never fails is run on each directory before it is entered
    let seen = std::cell::RefCell::new(Vec::new());
    let iter = vfs.entries(&tmpdir).unwrap().sort_by_name().pre_op(|x| {
        seen.borrow_mut().push(x.path().clone());
        Ok(())
    });
    assert_iter_eq(iter, vec![&tmpdir, &dir1, &dir2, &file2, &file1, &file3]);
    assert_eq!(*seen.borrow(), vec![tmpdir.clone(), dir1.clone(), dir2.clone()]);

    // a failing operation yields its error in place of the directory, which is not entered
    let err = RvError::Path(PathError::IsNotDir(dir2.clone()));
    let mut iter = vfs.entries(&tmpdir).unwrap().sort_by_name().pre_op(|x| {
        if x.path().ends_with("dir2") {
            Err(RvError::Path(PathError::IsNotDir(x.path().clone())))
        } else {
            Ok(())
        }
    });
    assert_eq!(iter.next().unwrap().unwrap().path(), &tmpdir);
    assert_eq!(iter.next().unwrap().unwrap().path(), &dir1);
    assert_eq!(iter.next().unwrap().unwrap_err(), err);
    assert_eq!(iter.next().unwrap().unwrap().path(), &file1);
    assert_eq!(iter.next().unwrap().unwrap().path(), &file3);
    assert!(iter.next().is_none());

    teardown(&mut vfs, &tmpdir);
}
