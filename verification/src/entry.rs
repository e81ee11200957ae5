//! Filesystem entries: a directory, file or symbolic link of a virtual filesystem.
use vstd::prelude::*;
use crate::errors::{PathError, RvErr, RvError};
use crate::path::{components, dir, join, relative, relative_spec};
use crate::strs::{chars_eq, chars_of, string_of};

verus! {

/// The model of an entry.
pub struct EntryV {
    /// absolute path of the entry
    pub path: Seq<char>,
    /// absolute path the link points to
    pub alt: Seq<char>,
    /// relative path the link points to
    pub rel: Seq<char>,
    pub dir: bool,
    pub file: bool,
    pub link: bool,
    pub mode: u32,
    /// whether path and alt have been switched by following the link
    pub follow: bool,
}

/// Following a link switches its path and target once.
pub open spec fn follow_spec(e: EntryV, follow: bool) -> EntryV {
    if follow && e.link && !e.follow {
        EntryV { path: e.alt, alt: e.path, follow: true, ..e }
    } else {
        e
    }
}

/// An entry of the standard filesystem as plain values.
#[derive(Debug)]
pub struct StdfsEntry {
    pub path: String,
    pub alt: String,
    pub rel: String,
    pub dir: bool,
    pub file: bool,
    pub link: bool,
    pub mode: u32,
    pub follow: bool,
    pub cached: bool,
}

impl View for StdfsEntry {
    type V = EntryV;

    open spec fn view(&self) -> EntryV {
        EntryV {
            path: self.path@,
            alt: self.alt@,
            rel: self.rel@,
            dir: self.dir,
            file: self.file,
            link: self.link,
            mode: self.mode,
            follow: self.follow,
        }
    }
}

impl StdfsEntry {
    /// Makes a copy of the entry.
    pub fn clone_entry(&self) -> (r: StdfsEntry)
        ensures
            r@ == self@,
            r.cached == self.cached,
    {
        StdfsEntry {
            path: self.path.clone(),
            alt: self.alt.clone(),
            rel: self.rel.clone(),
            dir: self.dir,
            file: self.file,
            link: self.link,
            mode: self.mode,
            follow: self.follow,
            cached: self.cached,
        }
    }

    /// Wraps the entry as a virtual filesystem entry.
    pub fn upcast(self) -> (r: VfsEntry)
        ensures
            r == VfsEntry::Stdfs(self),
    {
        VfsEntry::Stdfs(self)
    }
}

/// The default permission mode for an entry of the given kind, or-ed with its kind's type bits.
pub open spec fn mode_calc(dir: bool, file: bool, link: bool, mode: Option<u32>) -> u32 {
    let m = match mode {
        Some(x) => x,
        None => if link {
            0o120777u32
        } else if file {
            0o100644u32
        } else {
            0o40755u32
        },
    };
    if link {
        m | 0o120000u32
    } else if file {
        m | 0o100000u32
    } else if dir {
        m | 0o40000u32
    } else {
        m
    }
}

/// Computes `mode_calc`.
pub fn mode_for(dir: bool, file: bool, link: bool, mode: Option<u32>) -> (r: u32)
    ensures
        r == mode_calc(dir, file, link, mode),
{
    let m = match mode {
        Some(x) => x,
        None => if link {
            0o120777u32
        } else if file {
            0o100644u32
        } else {
            0o40755u32
        },
    };
    if link {
        m | 0o120000u32
    } else if file {
        m | 0o100000u32
    } else if dir {
        m | 0o40000u32
    } else {
        m
    }
}

/// The model of a memory filesystem entry.
pub struct MemEntryV {
    pub entry: EntryV,
    pub uid: u32,
    pub gid: u32,
    /// names of the entries of a directory
    pub files: Option<Seq<Seq<char>>>,
}

/// Following a memory filesystem entry that is a link switches its path and target once.
pub open spec fn follow_mem(e: MemEntryV, follow: bool) -> MemEntryV {
    MemEntryV { entry: follow_spec(e.entry, follow), ..e }
}

/// Following a link twice is following it once.
pub proof fn lemma_follow_twice(e: EntryV, follow: bool)
    ensures
        follow_spec(follow_spec(e, follow), follow) == follow_spec(e, follow),
{
}

/// Builder options for a memory filesystem entry.
#[derive(Debug)]
pub struct MemfsEntryOpts {
    pub path: String,
    pub alt: String,
    pub rel: String,
    pub dir: bool,
    pub file: bool,
    pub link: bool,
    pub mode: u32,
    pub gid: u32,
    pub uid: u32,
}

/// An entry of the memory filesystem.
#[derive(Debug)]
pub struct MemfsEntry {
    pub path: String,
    pub alt: String,
    pub rel: String,
    pub dir: bool,
    pub file: bool,
    pub link: bool,
    pub mode: u32,
    pub uid: u32,
    pub gid: u32,
    pub follow: bool,
    pub cached: bool,
    pub files: Option<Vec<String>>,
}

/// The names held by a directory's list.
pub open spec fn names_view(v: Seq<String>) -> Seq<Seq<char>> {
    v.map_values(|s: String| s@)
}

impl View for MemfsEntry {
    type V = MemEntryV;

    open spec fn view(&self) -> MemEntryV {
        MemEntryV {
            entry: EntryV {
                path: self.path@,
                alt: self.alt@,
                rel: self.rel@,
                dir: self.dir,
                file: self.file,
                link: self.link,
                mode: self.mode,
                follow: self.follow,
            },
            uid: self.uid,
            gid: self.gid,
            files: match self.files {
                Some(v) => Some(names_view(v@)),
                None => None,
            },
        }
    }
}

/// Copies a list of names.
pub fn clone_names(v: &Vec<String>) -> (r: Vec<String>)
    ensures
        names_view(r@) == names_view(v@),
{
    let mut r: Vec<String> = Vec::new();
    let mut i: usize = 0;
    while i < v.len()
        invariant
            i <= v.len(),
            names_view(r@) == names_view(v@).subrange(0, i as int),
        decreases v.len() - i,
    {
        let s = v[i].clone();
        let ghost r0 = r@;
        r.push(s);
        assert(names_view(r@) =~= names_view(r0).push(s@));
        i = i + 1;
        assert(names_view(r@) =~= names_view(v@).subrange(0, i as int));
    }
    assert(names_view(v@).subrange(0, v.len() as int) =~= names_view(v@));
    r
}

/// Returns the index of `name` in `v`, if any.
pub fn find_name(v: &Vec<String>, name: &str) -> (r: Option<usize>)
    ensures
        match r {
            Some(i) => i < v.len() && names_view(v@)[i as int] == name@ && forall|j: int|
                0 <= j < i ==> names_view(v@)[j] != name@,
            None => !names_view(v@).contains(name@),
        },
{
    let n = chars_of(name);
    let mut i: usize = 0;
    while i < v.len()
        invariant
            i <= v.len(),
            n@ == name@,
            forall|j: int| 0 <= j < i ==> names_view(v@)[j] != name@,
        decreases v.len() - i,
    {
        let vi: &String = &v[i];
        let c = chars_of(vi.as_str());
        assert(c@ == vi@);
        assert(names_view(v@)[i as int] == v@[i as int]@);
        let eq = chars_eq(&c, &n);
        assert(eq == (c@ == n@));
        assert(n@ == name@);
        if eq {
            assert(names_view(v@)[i as int] == name@);
            return Some(i);
        }
        assert(names_view(v@)[i as int] != name@);
        i = i + 1;
    }
    assert(!names_view(v@).contains(name@)) by {
        if names_view(v@).contains(name@) {
            let k = choose|k: int| 0 <= k < names_view(v@).len() && names_view(v@)[k] == name@;
            assert(names_view(v@)[k] != name@);
        }
    }
    None
}

impl MemfsEntryOpts {
    /// The permission mode recomputed for the entry's kind.
    pub fn mode(self, mode: Option<u32>) -> (r: MemfsEntryOpts)
        ensures
            r.mode == mode_calc(self.dir, self.file, self.link, mode),
            r.path@ == self.path@,
            r.alt@ == self.alt@,
            r.rel@ == self.rel@,
            r.dir == self.dir,
            r.file == self.file,
            r.link == self.link,
            r.uid == self.uid,
            r.gid == self.gid,
    {
        let m = mode_for(self.dir, self.file, self.link, mode);
        MemfsEntryOpts { mode: m, ..self }
    }

    /// Sets the mode with no adjustment.
    pub fn _mode(self, mode: u32) -> (r: MemfsEntryOpts)
        ensures
            r.mode == mode,
            r.path@ == self.path@,
            r.alt@ == self.alt@,
            r.rel@ == self.rel@,
            r.dir == self.dir,
            r.file == self.file,
            r.link == self.link,
            r.uid == self.uid,
            r.gid == self.gid,
    {
        MemfsEntryOpts { mode, ..self }
    }

    /// Makes the entry a directory.
    pub fn dir(self) -> (r: MemfsEntryOpts)
        ensures
            r.dir && !r.file,
            r.link == self.link,
            r.mode == mode_calc(true, false, self.link, if self.mode == 0 {
                None
            } else {
                Some(self.mode)
            }),
            r.path@ == self.path@,
            r.alt@ == self.alt@,
            r.rel@ == self.rel@,
            r.uid == self.uid,
            r.gid == self.gid,
    {
        let m = if self.mode == 0 {
            None
        } else {
            Some(self.mode)
        };
        let o = MemfsEntryOpts { dir: true, file: false, ..self };
        o.mode(m)
    }

    /// Makes the entry a file.
    pub fn file(self) -> (r: MemfsEntryOpts)
        ensures
            r.file && !r.dir,
            r.link == self.link,
            r.mode == mode_calc(false, true, self.link, if self.mode == 0 {
                None
            } else {
                Some(self.mode)
            }),
            r.path@ == self.path@,
            r.alt@ == self.alt@,
            r.rel@ == self.rel@,
            r.uid == self.uid,
            r.gid == self.gid,
    {
        let m = if self.mode == 0 {
            None
        } else {
            Some(self.mode)
        };
        let o = MemfsEntryOpts { file: true, dir: false, ..self };
        o.mode(m)
    }

    /// Makes the entry a link to `target`, recording the target relative to the link's directory.
    ///
    /// ### Errors
    /// * PathError::ParentNotFound when the link's path has no parent
    pub fn link_to(self, target: &str) -> (r: Result<MemfsEntryOpts, RvError>)
        ensures
            ({
                let cs = components(self.path@);
                match r {
                    Ok(o) => cs.len() > 0 && !(cs.last() is Root) && o.link && o.alt@ == target@
                        && o.rel@ == relative_spec(target@, join(cs.drop_last())) && o.mode
                        == mode_calc(self.dir, self.file, true, None) && o.path@ == self.path@
                        && o.dir == self.dir && o.file == self.file && o.uid == self.uid && o.gid
                        == self.gid,
                    Err(e) => (cs.len() == 0 || cs.last() is Root) && e@ == RvErr::ParentNotFound(
                        self.path@,
                    ),
                }
            }),
    {
        let d = match dir(self.path.as_str()) {
            Ok(d) => d,
            Err(e) => return Err(e),
        };
        let rel = relative(target, d.as_str());
        let o = MemfsEntryOpts {
            link: true,
            alt: String::from_str(target),
            rel: rel,
            ..self
        };
        Ok(o.mode(None))
    }

    /// Builds the entry; an entry of no kind becomes a directory.
    pub fn build(self) -> (r: MemfsEntry)
        ensures
            ({
                let o = if !self.dir && !self.file && !self.link {
                    (true, false, mode_calc(true, false, self.link, if self.mode == 0 {
                        None
                    } else {
                        Some(self.mode)
                    }))
                } else {
                    (self.dir, self.file, self.mode)
                };
                &&& r.path@ == self.path@
                &&& r.alt@ == self.alt@
                &&& r.rel@ == self.rel@
                &&& r.dir == o.0
                &&& r.file == o.1
                &&& r.link == self.link
                &&& r.mode == o.2
                &&& r.uid == self.uid
                &&& r.gid == self.gid
                &&& !r.follow
                &&& !r.cached
                &&& (r@.files == if o.0 {
                    Some(Seq::<Seq<char>>::empty())
                } else {
                    None::<Seq<Seq<char>>>
                })
            }),
    {
        let o = if !self.dir && !self.file && !self.link {
            self.dir()
        } else {
            self
        };
        let files: Option<Vec<String>> = if o.dir {
            Some(Vec::new())
        } else {
            None
        };
        let r = MemfsEntry {
            files: files,
            path: o.path,
            alt: o.alt,
            rel: o.rel,
            dir: o.dir,
            file: o.file,
            link: o.link,
            mode: o.mode,
            gid: o.gid,
            uid: o.uid,
            follow: false,
            cached: false,
        };
        proof {
            if o.dir {
                assert(names_view(Seq::<String>::empty()) =~= Seq::<Seq<char>>::empty());
            }
        }
        r
    }
}

impl MemfsEntry {
    /// Starts building an entry for `path` with user and group ids 1000.
    pub fn opts(path: &str) -> (r: MemfsEntryOpts)
        ensures
            r.path@ == path@,
            r.alt@.len() == 0,
            r.rel@.len() == 0,
            !r.dir && !r.file && !r.link,
            r.mode == 0,
            r.uid == 1000 && r.gid == 1000,
    {
        MemfsEntryOpts {
            path: String::from_str(path),
            alt: String::new(),
            rel: String::new(),
            dir: false,
            file: false,
            link: false,
            mode: 0,
            gid: 1000,
            uid: 1000,
        }
    }

    /// Adds the name of an entry to this directory; returns whether it was not there yet.
    ///
    /// ### Errors
    /// * PathError::IsNotDir when this entry is not a directory
    pub fn add(&mut self, name: &str) -> (r: Result<bool, RvError>)
        ensures
            old(self).dir ==> r is Ok,
            match r {
                Ok(added) => {
                    let old_names = match old(self)@.files {
                        Some(f) => f,
                        None => Seq::empty(),
                    };
                    &&& added == !old_names.contains(name@)
                    &&& final(self)@.files == Some(if added {
                        old_names.push(name@)
                    } else {
                        old_names
                    })
                    &&& final(self)@.entry == old(self)@.entry
                    &&& final(self)@.uid == old(self)@.uid
                    &&& final(self)@.gid == old(self)@.gid
                },
                Err(e) => !old(self).dir && e@ == RvErr::IsNotDir(old(self).path@) && final(self)@
                    == old(self)@,
            },
            final(self).cached == old(self).cached,
    {
        if !self.dir {
            return Err(RvError::Path(PathError::IsNotDir(self.path.clone())));
        }
        let n = String::from_str(name);
        match &mut self.files {
            Some(files) => {
                match find_name(files, name) {
                    Some(_) => Ok(false),
                    None => {
                        let ghost f0 = files@;
                        files.push(n);
                        assert(names_view(files@) =~= names_view(f0).push(name@));
                        Ok(true)
                    },
                }
            },
            None => {
                let mut files: Vec<String> = Vec::new();
                files.push(n);
                assert(names_view(files@) =~= Seq::<Seq<char>>::empty().push(name@));
                self.files = Some(files);
                Ok(true)
            },
        }
    }

    /// Removes the name of an entry from this directory.
    ///
    /// ### Errors
    /// * PathError::IsNotDir when this entry is not a directory
    pub fn remove(&mut self, name: &str) -> (r: Result<(), RvError>)
        ensures
            old(self).dir <==> r is Ok,
            match r {
                Ok(_) => {
                    &&& final(self)@.entry == old(self)@.entry
                    &&& final(self)@.uid == old(self)@.uid
                    &&& final(self)@.gid == old(self)@.gid
                    &&& match old(self)@.files {
                        Some(f) => final(self)@.files == Some(remove_name(f, name@)),
                        None => final(self)@.files is None,
                    }
                },
                Err(e) => e@ == RvErr::IsNotDir(old(self).path@) && final(self)@ == old(self)@,
            },
            final(self).cached == old(self).cached,
    {
        if !self.dir {
            return Err(RvError::Path(PathError::IsNotDir(self.path.clone())));
        }
        match &mut self.files {
            Some(files) => {
                match find_name(files, name) {
                    Some(i) => {
                        let ghost f0 = names_view(files@);
                        proof {
                            lemma_remove_name_at(f0, name@, i as int);
                        }
                        files.remove(i);
                        assert(names_view(files@) =~= f0.remove(i as int));
                        Ok(())
                    },
                    None => {
                        proof {
                            lemma_remove_name_absent(names_view(files@), name@);
                        }
                        Ok(())
                    },
                }
            },
            None => Ok(()),
        }
    }

    /// Sets the permission mode, keeping the entry kind's type bits.
    pub fn set_mode(&mut self, mode: Option<u32>)
        ensures
            final(self)@.entry == (EntryV {
                mode: mode_calc(old(self).dir, old(self).file, old(self).link, mode),
                ..old(self)@.entry
            }),
            final(self)@.files == old(self)@.files,
            final(self)@.uid == old(self)@.uid,
            final(self)@.gid == old(self)@.gid,
            final(self).cached == old(self).cached,
    {
        self.mode = mode_for(self.dir, self.file, self.link, mode);
    }

    /// Sets the user and group ids that are given.
    pub fn set_owner(&mut self, uid: Option<u32>, gid: Option<u32>)
        ensures
            final(self)@.entry == old(self)@.entry,
            final(self)@.files == old(self)@.files,
            final(self)@.uid == match uid {
                Some(u) => u,
                None => old(self)@.uid,
            },
            final(self)@.gid == match gid {
                Some(g) => g,
                None => old(self)@.gid,
            },
            final(self).cached == old(self).cached,
    {
        if let Some(u) = uid {
            self.uid = u;
        }
        if let Some(g) = gid {
            self.gid = g;
        }
    }

    /// Makes a copy of the entry.
    pub fn clone_entry(&self) -> (r: MemfsEntry)
        ensures
            r@ == self@,
            r.cached == self.cached,
    {
        MemfsEntry {
            path: self.path.clone(),
            alt: self.alt.clone(),
            rel: self.rel.clone(),
            dir: self.dir,
            file: self.file,
            link: self.link,
            mode: self.mode,
            uid: self.uid,
            gid: self.gid,
            follow: self.follow,
            cached: self.cached,
            files: match &self.files {
                Some(f) => Some(clone_names(f)),
                None => None,
            },
        }
    }

    /// The absolute path of the entry.
    pub fn path(&self) -> (r: &String)
        ensures
            r@ == self@.entry.path,
    {
        &self.path
    }

    /// The absolute path of the entry, as an owned value.
    pub fn path_buf(&self) -> (r: String)
        ensures
            r@ == self@.entry.path,
    {
        self.path.clone()
    }

    /// The absolute path the link points to.
    pub fn alt(&self) -> (r: &String)
        ensures
            r@ == self@.entry.alt,
    {
        &self.alt
    }

    /// The absolute path the link points to, as an owned value.
    pub fn alt_buf(&self) -> (r: String)
        ensures
            r@ == self@.entry.alt,
    {
        self.alt.clone()
    }

    /// The path the link points to, relative to the link's directory.
    pub fn rel(&self) -> (r: &String)
        ensures
            r@ == self@.entry.rel,
    {
        &self.rel
    }

    /// The path the link points to, relative to the link's directory, as an owned value.
    pub fn rel_buf(&self) -> (r: String)
        ensures
            r@ == self@.entry.rel,
    {
        self.rel.clone()
    }

    /// Returns true when the path and target of the link have been switched.
    pub fn following(&self) -> (r: bool)
        ensures
            r == self@.entry.follow,
    {
        self.follow
    }

    /// Returns true when the entry is a directory; links to directories are directories.
    pub fn is_dir(&self) -> (r: bool)
        ensures
            r == self@.entry.dir,
    {
        self.dir
    }

    /// Returns true when the entry is a file; links to files are files.
    pub fn is_file(&self) -> (r: bool)
        ensures
            r == self@.entry.file,
    {
        self.file
    }

    /// Returns true when the entry is a symbolic link.
    pub fn is_symlink(&self) -> (r: bool)
        ensures
            r == self@.entry.link,
    {
        self.link
    }

    /// The permission mode of the entry, with its type bits.
    pub fn mode(&self) -> (r: u32)
        ensures
            r == self@.entry.mode,
    {
        self.mode
    }

    /// Switches the path and the target of a link when `follow` is set and the link is not
    /// followed yet.
    pub fn follow(self, follow: bool) -> (r: MemfsEntry)
        ensures
            r@ == follow_mem(self@, follow),
            r.cached == self.cached,
    {
        let mut x = self;
        if follow && x.link && !x.follow {
            x.follow = true;
            let p = x.path;
            x.path = x.alt;
            x.alt = p;
        }
        x
    }

    /// Wraps the entry as a virtual filesystem entry.
    pub fn upcast(self) -> (r: VfsEntry)
        ensures
            r == VfsEntry::Memfs(self),
    {
        VfsEntry::Memfs(self)
    }

    /// Unwraps a virtual filesystem entry of the memory filesystem.
    pub fn downcast(entry: VfsEntry) -> (r: Option<MemfsEntry>)
        ensures
            match entry {
                VfsEntry::Memfs(m) => r == Some(m),
                VfsEntry::Stdfs(_) => r is None,
            },
    {
        match entry {
            VfsEntry::Memfs(m) => Some(m),
            VfsEntry::Stdfs(_) => None,
        }
    }
}

/// `f` without the first occurrence of `name`.
pub open spec fn remove_name(f: Seq<Seq<char>>, name: Seq<char>) -> Seq<Seq<char>>
    decreases f.len(),
{
    if f.len() == 0 {
        f
    } else if f[0] == name {
        f.drop_first()
    } else {
        seq![f[0]] + remove_name(f.drop_first(), name)
    }
}

/// Every name left after removing one was there before.
pub proof fn lemma_remove_name_subset(f: Seq<Seq<char>>, name: Seq<char>)
    ensures
        forall|k: int|
            0 <= k < remove_name(f, name).len() ==> f.contains(#[trigger] remove_name(f, name)[k]),
    decreases f.len(),
{
    if f.len() > 0 && f[0] != name {
        lemma_remove_name_subset(f.drop_first(), name);
        let r = remove_name(f, name);
        assert forall|k: int| 0 <= k < r.len() implies f.contains(#[trigger] r[k]) by {
            if k == 0 {
                assert(f[0] == r[0]);
            } else {
                let t = remove_name(f.drop_first(), name);
                assert(r[k] == t[k - 1]);
                let m = choose|m: int| 0 <= m < f.drop_first().len() && f.drop_first()[m] == t[k - 1];
                assert(f[m + 1] == r[k]);
            }
        }
    } else if f.len() > 0 {
        assert forall|k: int| 0 <= k < f.drop_first().len() implies f.contains(
            #[trigger] f.drop_first()[k],
        ) by {
            assert(f[k + 1] == f.drop_first()[k]);
        }
    }
}

/// Removing a name that is not there changes nothing.
pub proof fn lemma_remove_name_absent(f: Seq<Seq<char>>, name: Seq<char>)
    requires
        !f.contains(name),
    ensures
        remove_name(f, name) == f,
    decreases f.len(),
{
    if f.len() > 0 {
        assert(!f.drop_first().contains(name)) by {
            if f.drop_first().contains(name) {
                let k = choose|k: int| 0 <= k < f.drop_first().len() && f.drop_first()[k] == name;
                assert(f[k + 1] == name);
            }
        }
        lemma_remove_name_absent(f.drop_first(), name);
        assert(f =~= seq![f[0]] + f.drop_first());
    }
}

/// Removing the first occurrence, at index `i`, of a name.
pub proof fn lemma_remove_name_at(f: Seq<Seq<char>>, name: Seq<char>, i: int)
    requires
        0 <= i < f.len(),
        f[i] == name,
        forall|j: int| 0 <= j < i ==> f[j] != name,
    ensures
        remove_name(f, name) == f.remove(i),
    decreases i,
{
    if i == 0 {
        assert(f.drop_first() =~= f.remove(0));
    } else {
        lemma_remove_name_at(f.drop_first(), name, i - 1);
        assert(seq![f[0]] + f.drop_first().remove(i - 1) =~= f.remove(i));
    }
}

/// An entry of a virtual filesystem.
#[derive(Debug)]
pub enum VfsEntry {
    Stdfs(StdfsEntry),
    Memfs(MemfsEntry),
}

impl View for VfsEntry {
    type V = EntryV;

    open spec fn view(&self) -> EntryV {
        match self {
            VfsEntry::Stdfs(x) => x@,
            VfsEntry::Memfs(x) => x@.entry,
        }
    }
}

impl VfsEntry {
    /// Makes a copy of the entry.
    pub fn clone_entry(&self) -> (r: VfsEntry)
        ensures
            r@ == self@,
            match (self, r) {
                (VfsEntry::Memfs(a), VfsEntry::Memfs(b)) => a@ == b@,
                (VfsEntry::Stdfs(_), VfsEntry::Stdfs(_)) => true,
                _ => false,
            },
    {
        match self {
            VfsEntry::Stdfs(x) => VfsEntry::Stdfs(x.clone_entry()),
            VfsEntry::Memfs(x) => VfsEntry::Memfs(x.clone_entry()),
        }
    }

    /// The path of the entry.
    pub fn path(&self) -> (r: &String)
        ensures
            r@ == self@.path,
    {
        match self {
            VfsEntry::Stdfs(x) => &x.path,
            VfsEntry::Memfs(x) => &x.path,
        }
    }

    /// A copy of the path of the entry.
    pub fn path_buf(&self) -> (r: String)
        ensures
            r@ == self@.path,
    {
        self.path().clone()
    }

    /// The absolute path the link points to.
    pub fn alt(&self) -> (r: &String)
        ensures
            r@ == self@.alt,
    {
        match self {
            VfsEntry::Stdfs(x) => &x.alt,
            VfsEntry::Memfs(x) => &x.alt,
        }
    }

    /// A copy of the absolute path the link points to.
    pub fn alt_buf(&self) -> (r: String)
        ensures
            r@ == self@.alt,
    {
        self.alt().clone()
    }

    /// The relative path the link points to.
    pub fn rel(&self) -> (r: &String)
        ensures
            r@ == self@.rel,
    {
        match self {
            VfsEntry::Stdfs(x) => &x.rel,
            VfsEntry::Memfs(x) => &x.rel,
        }
    }

    /// A copy of the relative path the link points to.
    pub fn rel_buf(&self) -> (r: String)
        ensures
            r@ == self@.rel,
    {
        self.rel().clone()
    }

    /// The final component of the path when it is a normal one.
    pub fn file_name(&self) -> (r: Option<String>)
        ensures
            match r {
                Some(n) => crate::path::file_name(self@.path) == Some(n@),
                None => crate::path::file_name(self@.path) is None,
            },
    {
        let p = chars_of(self.path().as_str());
        let cs = crate::path::components_of(&p);
        if cs.len() == 0 {
            return None;
        }
        match &cs[cs.len() - 1] {
            crate::path::Comp::Normal(n) => Some(string_of(n)),
            _ => None,
        }
    }

    /// Switches the path and the target of a link, once, when `follow` is set.
    pub fn follow(self, follow: bool) -> (r: VfsEntry)
        ensures
            r@ == follow_spec(self@, follow),
            match (self, r) {
                (VfsEntry::Memfs(a), VfsEntry::Memfs(b)) => a@.files == b@.files && a@.uid
                    == b@.uid && a@.gid == b@.gid,
                (VfsEntry::Stdfs(_), VfsEntry::Stdfs(_)) => true,
                _ => false,
            },
    {
        match self {
            VfsEntry::Stdfs(mut x) => {
                if follow && x.link && !x.follow {
                    x.follow = true;
                    let p = x.path;
                    x.path = x.alt;
                    x.alt = p;
                }
                VfsEntry::Stdfs(x)
            },
            VfsEntry::Memfs(mut x) => {
                if follow && x.link && !x.follow {
                    x.follow = true;
                    let p = x.path;
                    x.path = x.alt;
                    x.alt = p;
                }
                VfsEntry::Memfs(x)
            },
        }
    }

    /// Whether the path and target have been switched by following the link.
    pub fn following(&self) -> (r: bool)
        ensures
            r == self@.follow,
    {
        match self {
            VfsEntry::Stdfs(x) => x.follow,
            VfsEntry::Memfs(x) => x.follow,
        }
    }

    /// Whether the entry is a directory.
    pub fn is_dir(&self) -> (r: bool)
        ensures
            r == self@.dir,
    {
        match self {
            VfsEntry::Stdfs(x) => x.dir,
            VfsEntry::Memfs(x) => x.dir,
        }
    }

    /// Whether the entry is a file.
    pub fn is_file(&self) -> (r: bool)
        ensures
            r == self@.file,
    {
        match self {
            VfsEntry::Stdfs(x) => x.file,
            VfsEntry::Memfs(x) => x.file,
        }
    }

    /// Whether the entry is a symbolic link.
    pub fn is_symlink(&self) -> (r: bool)
        ensures
            r == self@.link,
    {
        match self {
            VfsEntry::Stdfs(x) => x.link,
            VfsEntry::Memfs(x) => x.link,
        }
    }

    /// Whether the entry is a link to a directory.
    pub fn is_symlink_dir(&self) -> (r: bool)
        ensures
            r == (self@.link && self@.dir),
    {
        self.is_symlink() && self.is_dir()
    }

    /// Whether the entry is a link to a file.
    pub fn is_symlink_file(&self) -> (r: bool)
        ensures
            r == (self@.link && self@.file),
    {
        self.is_symlink() && self.is_file()
    }

    /// The permission mode of the entry.
    pub fn mode(&self) -> (r: u32)
        ensures
            r == self@.mode,
    {
        match self {
            VfsEntry::Stdfs(x) => x.mode,
            VfsEntry::Memfs(x) => x.mode,
        }
    }

    /// Whether any execute bit is set.
    pub fn is_exec(&self) -> (r: bool)
        ensures
            r == (self@.mode & 0o111u32 != 0),
    {
        self.mode() & 0o111u32 != 0
    }

    /// Whether no write bit is set.
    pub fn is_readonly(&self) -> (r: bool)
        ensures
            r == (self@.mode & 0o222u32 == 0),
    {
        self.mode() & 0o222u32 == 0
    }

    /// The entry itself.
    pub fn upcast(self) -> (r: VfsEntry)
        ensures
            r == self,
    {
        self
    }
}

} // verus!
