use rivia::entry::MemfsEntry;
use rivia::file::{MemfsFile, SeekFrom};
use rivia::memfs::Memfs;
use rivia::path::mash;

#[test]
fn test_uid() {
    // Default
    let mut entry = MemfsEntry::opts("").build();
    assert_eq!(entry.gid, 1000);
    assert_eq!(entry.uid, 1000);

    // Set gid and uid
    entry.gid = 5;
    entry.uid = 7;
    assert_eq!(entry.gid, 5);
    assert_eq!(entry.uid, 7);
}

#[test]
fn test_follow() {
    let memfs = Memfs::new();

    // Check that follow switchs the path and alt path
    let path = mash(&memfs.root(), "link");
    let target = mash(&memfs.root(), "target");
    let entry = MemfsEntry::opts(&path).link_to(&target).unwrap().build();
    assert_eq!(entry.path(), &path);
    assert_eq!(entry.alt(), &target);
    assert_eq!(entry.rel(), &"target".to_string());
    let entry = entry.follow(true);
    assert_eq!(entry.path(), &target);
    assert_eq!(entry.alt(), &path);
    assert_eq!(entry.rel(), &"target".to_string());
}

#[test]
fn test_file() {
    let vfs = Memfs::new();
    let path = mash(&vfs.root(), "file");
    let entry = MemfsEntry::opts(&path).file().build();

    assert_eq!(&entry.path, &path);
    assert_eq!(&entry.alt, &String::new());
    assert_eq!(&entry.rel, &String::new());
    assert_eq!(entry.dir, false);
    assert_eq!(entry.file, true);
    assert_eq!(entry.link, false);
    assert_eq!(entry.follow, false);
    assert_eq!(entry.cached, false);
    assert_eq!(entry.mode, 0o100644);
    assert_eq!(entry.files, None);
}

#[test]
fn test_dir() {
    let vfs = Memfs::new();
    let path = mash(&vfs.root(), "dir");
    let entry = MemfsEntry::opts(&path).dir().build();

    assert_eq!(&entry.path, &path);
    assert_eq!(&entry.alt, &String::new());
    assert_eq!(&entry.rel, &String::new());
    assert_eq!(entry.dir, true);
    assert_eq!(entry.file, false);
    assert_eq!(entry.link, false);
    assert_eq!(entry.follow, false);
    assert_eq!(entry.cached, false);
    assert_eq!(entry.mode, 0o40755);
    assert!(entry.files.is_some());
    assert!(entry.files.unwrap().is_empty());
}

#[test]
fn test_iter() {
    // The iterator over a directory is exercised through `Memfs::entry_iter`
    let mut vfs = Memfs::new();
    let dir = mash(&vfs.root(), "dir");
    let file = mash(&dir, "file");
    assert!(vfs.mkdir_p(&dir).is_ok());
    assert!(vfs.mkfile(&file).is_ok());
    let mut iter = vfs.entry_iter(&dir, false).unwrap();
    assert_eq!(iter.next().unwrap().unwrap().path(), &file);
    assert!(iter.next().is_none());
}

#[test]
fn test_read_write_seek_len() {
    let mut memfile = MemfsFile::default();

    // Write using the function
    assert_eq!(memfile.len(), 0);
    memfile.write(b"foobar1, ");
    assert_eq!(memfile.data, b"foobar1, ");
    assert_eq!(memfile.len(), 9);

    // Write out a second time
    memfile.write(b"foobar2, ");
    assert_eq!(memfile.len(), 18);
    assert_eq!(memfile.data, b"foobar1, foobar2, ");

    memfile.write(b"foobar3");
    assert_eq!(memfile.len(), 25);
    assert_eq!(memfile.data, b"foobar1, foobar2, foobar3");

    // read 1 byte
    let mut buf = [0; 1];
    memfile.read(&mut buf);
    assert_eq!(memfile.len(), 24);
    assert_eq!(&buf, b"f");

    // Seek back to start and try again
    memfile.seek(SeekFrom::Start(0));
    assert_eq!(memfile.len(), 25);
    let mut buf = [0; 9];
    memfile.read(&mut buf);
    assert_eq!(memfile.len(), 16);
    assert_eq!(&buf, b"foobar1, ");

    // Read the remaining data
    let mut buf = vec![0u8; memfile.len() as usize];
    memfile.read(&mut buf);
    assert_eq!(memfile.len(), 0);
    assert_eq!(&buf, b"foobar2, foobar3");

    // rewind and read into a String
    memfile.seek(SeekFrom::Start(0));
    assert_eq!(memfile.len(), 25);
    let mut bytes = vec![0u8; memfile.len() as usize];
    memfile.read(&mut bytes);
    let buf = String::from_utf8(bytes).unwrap();
    assert_eq!(memfile.len(), 0);
    assert_eq!(buf, "foobar1, foobar2, foobar3".to_string());
}
