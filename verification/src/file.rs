//! Handles on the contents of files of the memory filesystem.
use vstd::prelude::*;
use crate::errors::{PathError, RvErr, RvError};
use crate::memfs::{Memfs, add_spec, file_entry, lookup, lookup_dat, set_dat};
use crate::strs::string_of;

verus! {

/// Where a seek is counted from.
#[derive(Debug, Clone, Copy, PartialEq, Eq, Structural)]
pub enum SeekFrom {
    /// from the start of the data
    Start(u64),
    /// from the current position
    Current(i64),
    /// from the end of the data
    End(i64),
}

/// The contents of a file with a position for reading; written data is appended and reaches
/// the filesystem when the handle is flushed with `Memfs::flush`.
#[derive(Debug)]
pub struct MemfsFile {
    /// position in the data
    pub pos: u64,
    /// the file's data
    pub data: Vec<u8>,
    /// absolute path of the file the handle belongs to
    pub path: Option<String>,
}

impl Default for MemfsFile {
    /// An empty handle, at position 0 and tied to no path.
    fn default() -> (r: MemfsFile)
        ensures
            r.pos == 0,
            r.data@.len() == 0,
            r.path is None,
    {
        MemfsFile { pos: 0, data: Vec::new(), path: None }
    }
}

impl MemfsFile {
    /// Returns the length of the data left from the current position.
    pub fn len(&self) -> (r: u64)
        requires
            self.pos <= self.data.len(),
        ensures
            r == self.data.len() - self.pos,
    {
        self.data.len() as u64 - self.pos
    }

    /// Makes a copy of the handle.
    pub fn clone_file(&self) -> (r: MemfsFile)
        ensures
            r.pos == self.pos,
            r.data@ == self.data@,
            match (r.path, self.path) {
                (Some(a), Some(b)) => a@ == b@,
                (None, None) => true,
                _ => false,
            },
    {
        MemfsFile {
            pos: self.pos,
            data: self.data.clone(),
            path: match &self.path {
                Some(p) => Some(p.clone()),
                None => None,
            },
        }
    }

    /// Reads from the current position into `buf` as much as fits and is left; returns how much
    /// was read and advances the position by it.
    pub fn read(&mut self, buf: &mut [u8]) -> (r: usize)
        requires
            old(self).pos <= old(self).data.len(),
        ensures
            r == if old(buf)@.len() < old(self).data.len() - old(self).pos {
                old(buf)@.len() as int
            } else {
                old(self).data.len() - old(self).pos
            },
            final(buf)@ == old(self).data@.subrange(old(self).pos as int, old(self).pos + r) + old(
                buf,
            )@.skip(r as int),
            final(self).pos == old(self).pos + r,
            final(self).data@ == old(self).data@,
            final(self).path == old(self).path,
    {
        let left = self.data.len() - self.pos as usize;
        let n: usize = if buf.len() < left {
            buf.len()
        } else {
            left
        };
        let p = self.pos as usize;
        let ghost b0 = buf@;
        let mut i: usize = 0;
        while i < n
            invariant
                i <= n,
                n <= buf.len(),
                p + n <= self.data.len(),
                p == self.pos,
                buf@.len() == b0.len(),
                forall|k: int| 0 <= k < i ==> buf@[k] == self.data@[p + k],
                forall|k: int| i <= k < buf@.len() ==> buf@[k] == b0[k],
            decreases n - i,
        {
            buf[i] = self.data[p + i];
            i = i + 1;
        }
        self.pos = self.pos + n as u64;
        assert(buf@ =~= self.data@.subrange(p as int, p + n) + b0.skip(n as int));
        n
    }

    /// Moves the position; returns the new position.
    pub fn seek(&mut self, pos: SeekFrom) -> (r: u64)
        requires
            match pos {
                SeekFrom::Start(_) => true,
                SeekFrom::Current(off) => old(self).pos <= i64::MAX && i64::MIN <= old(self).pos
                    + off <= i64::MAX,
                SeekFrom::End(off) => old(self).data.len() <= i64::MAX && i64::MIN <= old(
                    self,
                ).data.len() + off <= i64::MAX,
            },
        ensures
            final(self).pos == match pos {
                SeekFrom::Start(o) => o,
                SeekFrom::Current(off) => (old(self).pos + off) as u64,
                SeekFrom::End(off) => (old(self).data.len() + off) as u64,
            },
            r == final(self).pos,
            final(self).data@ == old(self).data@,
            final(self).path == old(self).path,
    {
        match pos {
            SeekFrom::Start(o) => {
                self.pos = o;
            },
            SeekFrom::Current(off) => {
                let x: i64 = self.pos as i64 + off;
                self.pos = x as u64;
            },
            SeekFrom::End(off) => {
                let x: i64 = self.data.len() as i64 + off;
                self.pos = x as u64;
            },
        }
        self.pos
    }

    /// Appends the bytes to the data; returns how many were written.
    pub fn write(&mut self, buf: &[u8]) -> (r: usize)
        ensures
            final(self).data@ == old(self).data@ + buf@,
            r == buf@.len(),
            final(self).pos == old(self).pos,
            final(self).path == old(self).path,
    {
        let mut i: usize = 0;
        let ghost d0 = self.data@;
        while i < buf.len()
            invariant
                i <= buf.len(),
                self.data@ == d0 + buf@.subrange(0, i as int),
                self.pos == old(self).pos,
                self.path == old(self).path,
            decreases buf.len() - i,
        {
            self.data.push(buf[i]);
            i = i + 1;
            assert(self.data@ =~= d0 + buf@.subrange(0, i as int));
        }
        assert(buf@.subrange(0, buf.len() as int) =~= buf@);
        buf.len()
    }
}

/// The handle `create` returns: empty, at position 0, for the file at `a`.
pub open spec fn created(f: MemfsFile, a: Seq<char>) -> bool {
    &&& f.pos == 0
    &&& f.data@.len() == 0
    &&& f.path matches Some(p) && p@ == a
}

impl Memfs {
    /// Opens the file for reading: a handle on a copy of its contents at position 0.
    ///
    /// ### Errors
    /// * PathError::Empty when the path is empty
    /// * PathError::IsNotFile when the path exists and is not a file
    /// * PathError::DoesNotExist when the file holds no contents
    pub fn open(&self, path: &str) -> (r: Result<MemfsFile, RvError>)
        ensures
            match self.abs_of(path@) {
                Err(e) => (r matches Err(x) && x@ == e),
                Ok(a) => if lookup(self.ents(), a) matches Some(x) && !x.entry.file {
                    (r matches Err(y) && y@ == RvErr::IsNotFile(a))
                } else {
                    match lookup_dat(self.dats(), a) {
                        None => (r matches Err(y) && y@ == RvErr::DoesNotExist(a)),
                        Some(b) => (r matches Ok(f) && f.pos == 0 && f.data@ == b && (f.path matches Some(
                            p,
                        ) && p@ == a)),
                    }
                },
            },
    {
        let a = match self.abs_chars(path) {
            Ok(a) => a,
            Err(e) => return Err(e),
        };
        match self.find(&a) {
            Some(i) => {
                assert(self.ents()[i as int] == self.entries@[i as int]@);
                if !self.entries[i].file {
                    return Err(RvError::Path(PathError::IsNotFile(string_of(&a))));
                }
            },
            None => {},
        }
        match self.find_data(&a) {
            None => Err(RvError::Path(PathError::DoesNotExist(string_of(&a)))),
            Some(j) => {
                assert(self.dats()[j as int] == (self.data@[j as int].path@, self.data@[j as int].data@));
                Ok(MemfsFile { pos: 0, data: self.data[j].data.clone(), path: Some(string_of(&a)) })
            },
        }
    }

    /// Creates the file when it doesn't exist and returns an empty handle on it; flushing the
    /// handle replaces the file's contents.
    ///
    /// ### Errors
    /// * PathError::Empty when the path is empty
    /// * PathError::DoesNotExist when the parent doesn't exist
    /// * PathError::IsNotDir when the parent is not a directory
    /// * PathError::IsNotFile when the path exists and is not a file
    pub fn create(&mut self, path: &str) -> (r: Result<MemfsFile, RvError>)
        requires
            old(self).wf(),
        ensures
            final(self).wf(),
            final(self).cwd@ == old(self).cwd@,
            final(self).env@ == old(self).env@,
            match old(self).abs_of(path@) {
                Err(e) => (r matches Err(x) && x@ == e) && final(self).ents() == old(self).ents()
                    && final(self).dats() == old(self).dats(),
                Ok(a) => match add_spec(old(self).ents(), old(self).dats(), file_entry(a)) {
                    Ok((es, ds)) => (r matches Ok(f) && created(f, a)) && final(self).ents() == es
                        && final(self).dats() == ds,
                    Err(e) => (r matches Err(x) && x@ == e) && final(self).ents() == old(
                        self).ents() && final(self).dats() == old(self).dats(),
                },
            },
    {
        let p = match self.mkfile(path) {
            Ok(p) => p,
            Err(e) => return Err(e),
        };
        Ok(MemfsFile { pos: 0, data: Vec::new(), path: Some(p) })
    }

    /// Creates the file when it doesn't exist and returns a handle on a copy of its contents,
    /// positioned at the end; flushing the handle replaces the file's contents.
    ///
    /// ### Errors
    /// * PathError::Empty when the path is empty
    /// * PathError::DoesNotExist when the parent doesn't exist, or the file holds no contents
    /// * PathError::IsNotDir when the parent is not a directory
    /// * PathError::IsNotFile when the path exists and is not a file
    pub fn append(&mut self, path: &str) -> (r: Result<MemfsFile, RvError>)
        requires
            old(self).wf(),
        ensures
            final(self).wf(),
            final(self).cwd@ == old(self).cwd@,
            final(self).env@ == old(self).env@,
            match old(self).abs_of(path@) {
                Err(e) => (r matches Err(x) && x@ == e) && final(self).ents() == old(self).ents()
                    && final(self).dats() == old(self).dats(),
                Ok(a) => match add_spec(old(self).ents(), old(self).dats(), file_entry(a)) {
                    Ok((es, ds)) => final(self).ents() == es && final(self).dats() == ds && match lookup_dat(
                        ds,
                        a,
                    ) {
                        Some(b) => (r matches Ok(f) && f.data@ == b && f.pos == b.len()
                            && (f.path matches Some(p) && p@ == a)),
                        None => (r matches Err(x) && x@ == RvErr::DoesNotExist(a)),
                    },
                    Err(e) => (r matches Err(x) && x@ == e) && final(self).ents() == old(
                        self).ents() && final(self).dats() == old(self).dats(),
                },
            },
    {
        let p = match self.mkfile(path) {
            Ok(p) => p,
            Err(e) => return Err(e),
        };
        let a = crate::strs::chars_of(p.as_str());
        match self.find_data(&a) {
            None => Err(RvError::Path(PathError::DoesNotExist(p))),
            Some(j) => {
                assert(self.dats()[j as int] == (self.data@[j as int].path@, self.data@[j as int].data@));
                let d = self.data[j].data.clone();
                let n = d.len() as u64;
                Ok(MemfsFile { pos: n, data: d, path: Some(p) })
            },
        }
    }

    /// Writes the handle's data to the file it belongs to, replacing what it held; a handle that
    /// belongs to no file changes nothing.
    ///
    /// ### Errors
    /// * the errors of `write_all`
    pub fn flush(&mut self, f: &MemfsFile) -> (r: Result<(), RvError>)
        requires
            old(self).wf(),
        ensures
            final(self).wf(),
            final(self).cwd@ == old(self).cwd@,
            final(self).env@ == old(self).env@,
            match f.path {
                None => r is Ok && final(self).ents() == old(self).ents() && final(self).dats()
                    == old(self).dats(),
                Some(p) => match old(self).abs_of(p@) {
                    Err(e) => (r matches Err(x) && x@ == e) && final(self).ents() == old(
                        self).ents() && final(self).dats() == old(self).dats(),
                    Ok(a) => match add_spec(old(self).ents(), old(self).dats(), file_entry(a)) {
                        Ok((es, ds)) => r is Ok && final(self).ents() == es && final(self).dats()
                            == set_dat(ds, a, f.data@),
                        Err(e) => (r matches Err(x) && x@ == e) && final(self).ents() == old(
                            self).ents() && final(self).dats() == old(self).dats(),
                    },
                },
            },
    {
        match &f.path {
            None => Ok(()),
            Some(p) => self.write_all(p.as_str(), f.data.as_slice()),
        }
    }
}

} // verus!
