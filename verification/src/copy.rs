//! Copying within the memory filesystem: the `Copy` builder.
//!
//! The source is copied into the destination when the destination is an existing directory, else
//! the destination becomes a copy of the source. Links are recreated unless followed.
use vstd::prelude::*;
use crate::entries::{EntriesV, WalkV, Walked, emit, flush, no_pre, traverse, walk, walked_view};
use crate::entry::{EntryV, MemEntryV, VfsEntry, follow_mem, mode_calc};
use crate::errors::{PathError, RvErr, RvError};
use crate::memfs::{
    Memfs, abs_spec, add_spec, clean_abs, find_dat, lemma_abs_clean, lemma_abs_fixed, lemma_find_dat, lemma_find_dat_is,
    lemma_add_lookup, lemma_find_ent, lemma_set_dat_lookup, lookup, lookup_dat, mkdirs, names_nonempty, root_path,
    set_dat, symlink_spec, wf_parts,
};
use crate::expand::count_char;
use crate::path::{
    PComp, base_spec, clean_spec, comp_str, components, dir_spec, dot, join, lemma_prefix_trim, mash,
    mash_spec, trim_prefix, trim_prefix_spec,
};
use crate::path_lemmas::{joinable, lemma_clean_path, lemma_join_shape, lemma_mash_empty, valid_name};
use crate::strs::{chars_eq, chars_of, string_of};

verus! {

/// The options of a copy.
#[derive(Debug)]
pub struct CopyOpts {
    /// source path
    pub src: String,
    /// destination path
    pub dst: String,
    /// mode to give what is copied
    pub mode: Option<u32>,
    /// give the mode to directories only
    pub cdirs: bool,
    /// give the mode to files only
    pub cfiles: bool,
    /// follow links, copying what they point to
    pub follow: bool,
}

/// Provides a builder for copying within the memory filesystem. Complete the operation with
/// `exec`.
#[derive(Debug)]
pub struct Copy {
    pub cp: CopyOpts,
}

/// The model of the options of a copy.
pub struct CopyV {
    pub src: Seq<char>,
    pub dst: Seq<char>,
    pub mode: Option<u32>,
    pub cdirs: bool,
    pub cfiles: bool,
    pub follow: bool,
}

impl View for CopyOpts {
    type V = CopyV;

    open spec fn view(&self) -> CopyV {
        CopyV {
            src: self.src@,
            dst: self.dst@,
            mode: self.mode,
            cdirs: self.cdirs,
            cfiles: self.cfiles,
            follow: self.follow,
        }
    }
}

/// What a copy works with once the roots are resolved.
pub struct CopyCtx {
    pub cwd: Seq<char>,
    pub env: Seq<(Seq<char>, Seq<char>)>,
    pub src_root: Seq<char>,
    pub dst_root: Seq<char>,
    pub copy_into: bool,
    pub dir_mode: Option<u32>,
    pub file_mode: Option<u32>,
    pub follow: bool,
}

/// The mode given to directories: the mode unless it is for files only.
pub open spec fn dir_mode_of(cp: CopyV) -> Option<u32> {
    match cp.mode {
        Some(x) => if cp.cdirs || (!cp.cfiles && !cp.cdirs) {
            Some(x)
        } else {
            None
        },
        None => None,
    }
}

/// The mode given to files: the mode unless it is for directories only.
pub open spec fn file_mode_of(cp: CopyV) -> Option<u32> {
    match cp.mode {
        Some(x) => if cp.cfiles || (!cp.cfiles && !cp.cdirs) {
            Some(x)
        } else {
            None
        },
        None => None,
    }
}

/// The entry at the absolute form of `p`.
pub open spec fn entry_at_spec(
    cwd: Seq<char>,
    env: Seq<(Seq<char>, Seq<char>)>,
    es: Seq<MemEntryV>,
    p: Seq<char>,
) -> Option<MemEntryV> {
    match abs_spec(cwd, env, p) {
        Ok(a) => lookup(es, a),
        Err(_) => None,
    }
}

/// Where the source entry at `p` goes when `src_root` is copied to `dst_root`: below
/// `dst_root` by its path relative to the parent of `src_root` when copying into an existing
/// directory, else relative to `src_root` itself.
pub open spec fn dest_path(src_root: Seq<char>, dst_root: Seq<char>, copy_into: bool, p: Seq<char>) -> Result<
    Seq<char>,
    RvErr,
> {
    if copy_into {
        match dir_spec(src_root) {
            None => Err(RvErr::ParentNotFound(src_root)),
            Some(d) => Ok(mash_spec(dst_root, trim_prefix_spec(p, d))),
        }
    } else {
        Ok(mash_spec(dst_root, trim_prefix_spec(p, src_root)))
    }
}

/// Where the source entry at `p` is copied to.
pub open spec fn copy_dst(c: CopyCtx, p: Seq<char>) -> Result<Seq<char>, RvErr> {
    dest_path(c.src_root, c.dst_root, c.copy_into, p)
}

/// Computes `dest_path`: where the source entry at `p` goes.
pub fn copy_dest(src_root: &str, dst_root: &str, copy_into: bool, p: &str) -> (r: Result<String, RvError>)
    ensures
        match dest_path(src_root@, dst_root@, copy_into, p@) {
            Ok(d) => r matches Ok(x) && x@ == d,
            Err(e) => r matches Err(x) && x@ == e,
        },
{
    if copy_into {
        let sr = chars_of(src_root);
        match crate::path::dir_chars(&sr) {
            None => Err(RvError::Path(PathError::ParentNotFound(src_root.to_string()))),
            Some(d) => {
                let ds = string_of(&d);
                let t = trim_prefix(p, ds.as_str());
                Ok(mash(dst_root, t.as_str()))
            },
        }
    } else {
        let t = trim_prefix(p, src_root);
        Ok(mash(dst_root, t.as_str()))
    }
}

/// What to do for one entry of a copy: recreate a link, create a directory, or copy a file,
/// first creating its directory when missing.
#[derive(Debug)]
pub enum CopyStep {
    /// create a link at `dst` to `target`
    Link { dst: String, target: String },
    /// create the directory `dst` with `mode`
    Dir { dst: String, mode: u32 },
    /// copy the file to `dst`; when `parent` is missing, create it with `parent_mode`, or with the
    /// mode of the source's directory when that is `None`; then give the copy `mode` when set
    File { dst: String, parent: String, parent_mode: Option<u32>, mode: Option<u32> },
}

/// The model of a copy step.
pub enum CopyStepV {
    Link(Seq<char>, Seq<char>),
    Dir(Seq<char>, u32),
    File(Seq<char>, Seq<char>, Option<u32>, Option<u32>),
}

impl View for CopyStep {
    type V = CopyStepV;

    open spec fn view(&self) -> CopyStepV {
        match self {
            CopyStep::Link { dst, target } => CopyStepV::Link(dst@, target@),
            CopyStep::Dir { dst, mode } => CopyStepV::Dir(dst@, *mode),
            CopyStep::File { dst, parent, parent_mode, mode } => CopyStepV::File(
                dst@,
                parent@,
                *parent_mode,
                *mode,
            ),
        }
    }
}

/// The step a copy of `src_root` to `dst_root` takes for the source entry `e`: a link not
/// followed is recreated, a directory is created with the directory mode or its own, anything
/// else is copied as a file with the file mode, if any.
pub open spec fn copy_step_of(
    cp: CopyV,
    src_root: Seq<char>,
    dst_root: Seq<char>,
    copy_into: bool,
    e: EntryV,
) -> Result<CopyStepV, RvErr> {
    match dest_path(src_root, dst_root, copy_into, e.path) {
        Err(x) => Err(x),
        Ok(dp) => if !cp.follow && e.link {
            Ok(CopyStepV::Link(dp, e.alt))
        } else if e.dir {
            Ok(
                CopyStepV::Dir(
                    dp,
                    match dir_mode_of(cp) {
                        Some(m) => m,
                        None => e.mode,
                    },
                ),
            )
        } else {
            match dir_spec(dp) {
                None => Err(RvErr::ParentNotFound(dp)),
                Some(parent) => Ok(CopyStepV::File(dp, parent, dir_mode_of(cp), file_mode_of(cp))),
            }
        },
    }
}

/// The step a copy takes for one source entry carries the modes the options direct: a
/// directory is made with the mode given for all that is copied or for directories, else with
/// its own; a file gets the mode given for all or for files, if any, and its parent, where made,
/// the mode given for all or for directories. A link not followed is recreated, its target kept.
pub proof fn lemma_copy_step_modes(cp: CopyV, src_root: Seq<char>, dst_root: Seq<char>, copy_into: bool, e: EntryV)
    ensures
        copy_step_of(cp, src_root, dst_root, copy_into, e) matches Ok(CopyStepV::Dir(dp, dm)) ==> {
            &&& e.dir && (cp.follow || !e.link)
            &&& ((cp.cdirs || !cp.cfiles) ==> (cp.mode matches Some(m) ==> dm == m))
            &&& ((cp.mode is None || (cp.cfiles && !cp.cdirs)) ==> dm == e.mode)
        },
        copy_step_of(cp, src_root, dst_root, copy_into, e) matches Ok(CopyStepV::File(dp, parent, pm, fm)) ==> {
            &&& !e.dir && (cp.follow || !e.link)
            &&& ((cp.cfiles || !cp.cdirs) ==> fm == cp.mode)
            &&& ((cp.cdirs && !cp.cfiles) ==> fm is None)
            &&& ((cp.cdirs || !cp.cfiles) ==> pm == cp.mode)
            &&& ((cp.cfiles && !cp.cdirs) ==> pm is None)
        },
        copy_step_of(cp, src_root, dst_root, copy_into, e) matches Ok(CopyStepV::Link(dp, t)) ==> !cp.follow
            && e.link && t == e.alt,
{
}

/// Computes `copy_step_of`: what a copy does for one source entry.
pub fn copy_step_for(cp: &CopyOpts, src_root: &str, dst_root: &str, copy_into: bool, e: &VfsEntry) -> (r:
    Result<CopyStep, RvError>)
    ensures
        match copy_step_of(cp@, src_root@, dst_root@, copy_into, e@) {
            Ok(st) => r matches Ok(x) && x@ == st,
            Err(err) => r matches Err(x) && x@ == err,
        },
{
    let dp = match copy_dest(src_root, dst_root, copy_into, e.path().as_str()) {
        Ok(d) => d,
        Err(x) => return Err(x),
    };
    if !cp.follow && e.is_symlink() {
        Ok(CopyStep::Link { dst: dp, target: e.alt().clone() })
    } else if e.is_dir() {
        let m = match dir_mode_for(cp) {
            Some(m) => m,
            None => e.mode(),
        };
        Ok(CopyStep::Dir { dst: dp, mode: m })
    } else {
        let dc = chars_of(dp.as_str());
        match crate::path::dir_chars(&dc) {
            None => Err(RvError::Path(PathError::ParentNotFound(dp))),
            Some(parent) => Ok(
                CopyStep::File {
                    dst: dp,
                    parent: string_of(&parent),
                    parent_mode: dir_mode_for(cp),
                    mode: file_mode_for(cp),
                },
            ),
        }
    }
}

/// Computes `dir_mode_of`: the mode given to copied directories.
pub fn dir_mode_for(cp: &CopyOpts) -> (r: Option<u32>)
    ensures
        r == dir_mode_of(cp@),
{
    match cp.mode {
        Some(x) => if cp.cdirs || (!cp.cfiles && !cp.cdirs) {
            Some(x)
        } else {
            None
        },
        None => None,
    }
}

/// Computes `file_mode_of`: the mode given to copied files.
pub fn file_mode_for(cp: &CopyOpts) -> (r: Option<u32>)
    ensures
        r == file_mode_of(cp@),
{
    match cp.mode {
        Some(x) => if cp.cfiles || (!cp.cfiles && !cp.cdirs) {
            Some(x)
        } else {
            None
        },
        None => None,
    }
}

/// The copy of the entry `s` at `dp`, with the given mode or its own.
pub open spec fn copied_entry(s: MemEntryV, dp: Seq<char>, file_mode: Option<u32>) -> MemEntryV {
    let m = match file_mode {
        Some(m) => m,
        None => s.entry.mode,
    };
    MemEntryV {
        entry: EntryV {
            path: dp,
            mode: mode_calc(s.entry.dir, s.entry.file, s.entry.link, Some(m)),
            ..s.entry
        },
        ..s
    }
}

/// Copying the contents of the file at `sp` to `dp`.
pub open spec fn copy_data(
    c: CopyCtx,
    es: Seq<MemEntryV>,
    ds: Seq<(Seq<char>, Seq<u8>)>,
    sp: Seq<char>,
    dp: Seq<char>,
) -> (Seq<MemEntryV>, Seq<(Seq<char>, Seq<u8>)>, Option<RvErr>) {
    match abs_spec(c.cwd, c.env, sp) {
        Err(e) => (es, ds, Some(e)),
        Ok(fp) => if lookup(es, fp) matches Some(f) && !f.entry.file {
            (es, ds, Some(RvErr::IsNotFile(fp)))
        } else {
            match lookup_dat(ds, fp) {
                None => (es, ds, Some(RvErr::DoesNotExist(fp))),
                Some(b) => (es, set_dat(ds, dp, b), None),
            }
        },
    }
}

/// One step of a copy: a link not followed is recreated, a directory is created, a file or
/// followed link is added and a file's contents copied.
pub open spec fn copy_step(c: CopyCtx, es: Seq<MemEntryV>, ds: Seq<(Seq<char>, Seq<u8>)>, w: WalkV) -> (
    Seq<MemEntryV>,
    Seq<(Seq<char>, Seq<u8>)>,
    Option<RvErr>,
) {
    match w {
        WalkV::Pre(_) => (es, ds, None),
        WalkV::Error(e) => (es, ds, Some(e)),
        WalkV::Entry(x) | WalkV::Deferred(x) => match copy_dst(c, x.entry.path) {
            Err(e) => (es, ds, Some(e)),
            Ok(dp) => if !c.follow && x.entry.link {
                let out = symlink_spec(c.cwd, c.env, es, ds, dp, x.entry.alt);
                (
                    out.0,
                    out.1,
                    match out.2 {
                        Ok(_) => None,
                        Err(e) => Some(e),
                    },
                )
            } else {
                match abs_spec(c.cwd, c.env, x.entry.path) {
                    Err(e) => (es, ds, Some(e)),
                    Ok(sp) => match lookup(es, sp) {
                        None => (es, ds, Some(RvErr::DoesNotExist(sp))),
                        Some(s) => if s.entry.dir {
                            mkdirs(
                                es,
                                ds,
                                components(dp),
                                0,
                                Some(
                                    match c.dir_mode {
                                        Some(m) => m,
                                        None => s.entry.mode,
                                    },
                                ),
                            )
                        } else {
                            match add_spec(es, ds, copied_entry(s, dp, c.file_mode)) {
                                Err(e) => (es, ds, Some(e)),
                                Ok((es2, ds2)) => if s.entry.link {
                                    (es2, ds2, None)
                                } else {
                                    copy_data(c, es2, ds2, s.entry.path, dp)
                                },
                            }
                        },
                    },
                }
            },
        },
    }
}

/// The steps of a copy taken in turn, up to the first error.
pub open spec fn copy_run(c: CopyCtx, es: Seq<MemEntryV>, ds: Seq<(Seq<char>, Seq<u8>)>, ws: Seq<WalkV>) -> (
    Seq<MemEntryV>,
    Seq<(Seq<char>, Seq<u8>)>,
    Option<RvErr>,
)
    decreases ws.len(),
{
    if ws.len() == 0 {
        (es, ds, None)
    } else {
        let out = copy_step(c, es, ds, ws[0]);
        if out.2 is Some {
            out
        } else {
            copy_run(c, out.0, out.1, ws.drop_first())
        }
    }
}

/// The traversal a copy makes: the source and all it holds, links followed as directed.
pub open spec fn copy_walk(es: Seq<MemEntryV>, root: MemEntryV, follow: bool) -> EntriesV {
    EntriesV {
        es,
        root,
        dirs: false,
        files: false,
        follow,
        min_depth: 0,
        max_depth: usize::MAX as nat,
        dirs_first: false,
        files_first: false,
        sort_by_name: false,
        contents_first: false,
        sort: None,
        pre: no_pre(),
    }
}

/// A copy: the entries and contents after, and the error met.
pub open spec fn copy_spec(
    cwd: Seq<char>,
    env: Seq<(Seq<char>, Seq<char>)>,
    es: Seq<MemEntryV>,
    ds: Seq<(Seq<char>, Seq<u8>)>,
    cp: CopyV,
) -> (Seq<MemEntryV>, Seq<(Seq<char>, Seq<u8>)>, Option<RvErr>) {
    match abs_spec(cwd, env, cp.src) {
        Err(e) => (es, ds, Some(e)),
        Ok(sr) => match abs_spec(cwd, env, cp.dst) {
            Err(e) => (es, ds, Some(e)),
            Ok(dr) => if sr == dr {
                (es, ds, None)
            } else {
                let c = CopyCtx {
                    cwd,
                    env,
                    src_root: sr,
                    dst_root: dr,
                    copy_into: entry_at_spec(cwd, env, es, dr) matches Some(x) && x.entry.dir,
                    dir_mode: dir_mode_of(cp),
                    file_mode: file_mode_of(cp),
                    follow: cp.follow,
                };
                match abs_spec(cwd, env, sr) {
                    Err(e) => (es, ds, Some(e)),
                    Ok(a) => match lookup(es, a) {
                        None => (es, ds, Some(RvErr::DoesNotExist(a))),
                        Some(root) => copy_run(c, es, ds, traverse(copy_walk(es, root, cp.follow))),
                    },
                }
            },
        },
    }
}

impl Copy {
    /// Gives the mode to all that is copied.
    pub fn chmod_all(self, mode: u32) -> (r: Copy)
        ensures
            r.cp == (CopyOpts { cdirs: false, cfiles: false, mode: Some(mode), ..self.cp }),
    {
        let mut x = self;
        x.cp.cdirs = false;
        x.cp.cfiles = false;
        x.cp.mode = Some(mode);
        x
    }

    /// Gives the mode to the directories copied only.
    pub fn chmod_dirs(self, mode: u32) -> (r: Copy)
        ensures
            r.cp == (CopyOpts { cdirs: true, cfiles: false, mode: Some(mode), ..self.cp }),
    {
        let mut x = self;
        x.cp.cdirs = true;
        x.cp.cfiles = false;
        x.cp.mode = Some(mode);
        x
    }

    /// Gives the mode to the files copied only.
    pub fn chmod_files(self, mode: u32) -> (r: Copy)
        ensures
            r.cp == (CopyOpts { cdirs: false, cfiles: true, mode: Some(mode), ..self.cp }),
    {
        let mut x = self;
        x.cp.cdirs = false;
        x.cp.cfiles = true;
        x.cp.mode = Some(mode);
        x
    }

    /// Sets whether links are followed, copying what they point to.
    pub fn follow(self, yes: bool) -> (r: Copy)
        ensures
            r.cp == (CopyOpts { follow: yes, ..self.cp }),
    {
        let mut x = self;
        x.cp.follow = yes;
        x
    }

    /// Performs the copy on the filesystem.
    ///
    /// ### Errors
    /// * PathError::Empty when a path is empty
    /// * PathError::DoesNotExist when the source doesn't exist
    /// * the errors of creating what is copied
    pub fn exec(&self, fs: &mut Memfs) -> (r: Result<(), RvError>)
        requires
            old(fs).wf(),
        ensures
            final(fs).wf(),
            final(fs).cwd@ == old(fs).cwd@,
            final(fs).env@ == old(fs).env@,
            ({
                let out = copy_spec(old(fs).cwd@, old(fs).envv(), old(fs).ents(), old(fs).dats(), self.cp@);
                &&& final(fs).ents() == out.0
                &&& final(fs).dats() == out.1
                &&& match out.2 {
                    None => r is Ok,
                    Some(e) => (r matches Err(x) && x@ == e),
                }
            }),
    {
        fs.copy_exec(&self.cp)
    }
}

impl Memfs {
    /// Copies the contents of the file at `sp` to `dp`.
    fn copy_data_exec(&mut self, c: Ghost<CopyCtx>, sp: &String, dp: &Vec<char>) -> (r: Result<(), RvError>)
        requires
            old(self).wf(),
            c@.cwd == old(self).cwd@,
            c@.env == old(self).envv(),
        ensures
            final(self).wf(),
            final(self).cwd@ == old(self).cwd@,
            final(self).env@ == old(self).env@,
            ({
                let out = copy_data(c@, old(self).ents(), old(self).dats(), sp@, dp@);
                &&& final(self).ents() == out.0
                &&& final(self).dats() == out.1
                &&& match out.2 {
                    None => r is Ok,
                    Some(e) => (r matches Err(x) && x@ == e),
                }
            }),
    {
        let fp = match self.abs_chars(sp.as_str()) {
            Ok(p) => p,
            Err(e) => return Err(e),
        };
        match self.find(&fp) {
            Some(i) => {
                assert(self.ents()[i as int] == self.entries@[i as int]@);
                if !self.entries[i].file {
                    return Err(RvError::Path(PathError::IsNotFile(string_of(&fp))));
                }
            },
            None => {},
        }
        match self.find_data(&fp) {
            None => Err(RvError::Path(PathError::DoesNotExist(string_of(&fp)))),
            Some(j) => {
                assert(self.dats()[j as int] == (self.data@[j as int].path@, self.data@[j as int].data@));
                let b = self.data[j].data.clone();
                self.set_data(dp, b);
                Ok(())
            },
        }
    }

    /// Applies one step of a copy.
    fn copy_step_exec(&mut self, c: Ghost<CopyCtx>, src_root: &Vec<char>, dst_root: &Vec<char>, copy_into: bool, dir_mode: Option<u32>, file_mode: Option<u32>, follow: bool, w: &Walked) -> (r: Result<(), RvError>)
        requires
            old(self).wf(),
            c@.cwd == old(self).cwd@,
            c@.env == old(self).envv(),
            c@.src_root == src_root@,
            c@.dst_root == dst_root@,
            c@.copy_into == copy_into,
            c@.dir_mode == dir_mode,
            c@.file_mode == file_mode,
            c@.follow == follow,
        ensures
            final(self).wf(),
            final(self).cwd@ == old(self).cwd@,
            final(self).env@ == old(self).env@,
            ({
                let out = copy_step(c@, old(self).ents(), old(self).dats(), w@);
                &&& final(self).ents() == out.0
                &&& final(self).dats() == out.1
                &&& match out.2 {
                    None => r is Ok,
                    Some(e) => (r matches Err(x) && x@ == e),
                }
            }),
    {
        let x = match w {
            Walked::Pre(_) => return Ok(()),
            Walked::Error(e) => return Err(e.clone_error()),
            Walked::Entry(x) => x,
            Walked::Deferred(x) => x,
        };
        let srs = string_of(src_root);
        let drs = string_of(dst_root);
        let dp: String = match copy_dest(srs.as_str(), drs.as_str(), copy_into, x.path.as_str()) {
            Ok(d) => d,
            Err(e) => return Err(e),
        };
        if !follow && x.link {
            return match self.symlink(dp.as_str(), x.alt.as_str()) {
                Ok(_) => Ok(()),
                Err(e) => Err(e),
            };
        }
        let sp = match self.abs_chars(x.path.as_str()) {
            Ok(p) => p,
            Err(e) => return Err(e),
        };
        let i = match self.find(&sp) {
            None => return Err(RvError::Path(PathError::DoesNotExist(string_of(&sp)))),
            Some(i) => i,
        };
        assert(self.ents()[i as int] == self.entries@[i as int]@);
        let s = self.entries[i].clone_entry();
        let dpc = chars_of(dp.as_str());
        if s.dir {
            let m = match dir_mode {
                Some(m) => m,
                None => s.mode,
            };
            return self.mkdirs_exec(&dpc, Some(m));
        }
        let mut e = s.clone_entry();
        e.path = dp;
        let m = match file_mode {
            Some(m) => m,
            None => s.mode,
        };
        e.set_mode(Some(m));
        assert(e@ == copied_entry(s@, dpc@, file_mode));
        assert(names_nonempty(self.ents()[i as int]));
        match self.add_entry(e) {
            Ok(_) => {},
            Err(err) => return Err(err),
        }
        if s.link {
            return Ok(());
        }
        self.copy_data_exec(c, &s.path, &dpc)
    }

    /// Performs a copy.
    pub(crate) fn copy_exec(&mut self, cp: &CopyOpts) -> (r: Result<(), RvError>)
        requires
            old(self).wf(),
        ensures
            final(self).wf(),
            final(self).cwd@ == old(self).cwd@,
            final(self).env@ == old(self).env@,
            ({
                let out = copy_spec(old(self).cwd@, old(self).envv(), old(self).ents(), old(self).dats(), cp@);
                &&& final(self).ents() == out.0
                &&& final(self).dats() == out.1
                &&& match out.2 {
                    None => r is Ok,
                    Some(e) => (r matches Err(x) && x@ == e),
                }
            }),
    {
        let sr = match self.abs_chars(cp.src.as_str()) {
            Ok(p) => p,
            Err(e) => return Err(e),
        };
        let dr = match self.abs_chars(cp.dst.as_str()) {
            Ok(p) => p,
            Err(e) => return Err(e),
        };
        if chars_eq(&sr, &dr) {
            return Ok(());
        }
        let dir_mode = dir_mode_for(cp);
        let file_mode = file_mode_for(cp);
        let srs = string_of(&sr);
        let drs = string_of(&dr);
        let copy_into = self.is_dir(drs.as_str());
        let ghost c = CopyCtx {
            cwd: self.cwd@,
            env: self.envv(),
            src_root: sr@,
            dst_root: dr@,
            copy_into,
            dir_mode,
            file_mode,
            follow: cp.follow,
        };
        let ws = match self.entries(srs.as_str()) {
            Err(e) => return Err(e),
            Ok(en) => {
                let en = en.follow(cp.follow);
                en.walk_all()
            },
        };
        let ghost es0 = self.ents();
        let ghost ds0 = self.dats();
        let ghost wv = walked_view(ws@);
        let ghost out = copy_run(c, es0, ds0, wv);
        assert(wv.skip(0) =~= wv);
        assert(out == copy_spec(old(self).cwd@, old(self).envv(), old(self).ents(), old(self).dats(), cp@));
        let mut j: usize = 0;
        while j < ws.len()
            invariant
                self.wf(),
                self.cwd@ == old(self).cwd@,
                self.env@ == old(self).env@,
                c.cwd == self.cwd@,
                c.env == self.envv(),
                c.src_root == sr@,
                c.dst_root == dr@,
                c.copy_into == copy_into,
                c.dir_mode == dir_mode,
                c.file_mode == file_mode,
                c.follow == cp.follow,
                j <= ws.len(),
                wv == walked_view(ws@),
                out == copy_spec(old(self).cwd@, old(self).envv(), old(self).ents(), old(self).dats(), cp@),
                copy_run(c, self.ents(), self.dats(), wv.skip(j as int)) == out,
            decreases ws.len() - j,
        {
            assert(wv.skip(j as int)[0] == ws@[j as int]@);
            assert(wv.skip(j as int).drop_first() =~= wv.skip(j + 1));
            match self.copy_step_exec(Ghost(c), &sr, &dr, copy_into, dir_mode, file_mode, cp.follow, &ws[j]) {
                Ok(()) => {},
                Err(e) => return Err(e),
            }
            j = j + 1;
        }
        assert(wv.skip(j as int) =~= Seq::<WalkV>::empty());
        Ok(())
    }

    /// Returns a builder for copying `src` to `dst`.
    pub fn copy_b(&self, src: &str, dst: &str) -> (r: Result<Copy, RvError>)
        ensures
            r matches Ok(c) && c.cp@ == (CopyV {
                src: src@,
                dst: dst@,
                mode: None,
                cdirs: false,
                cfiles: false,
                follow: false,
            }),
    {
        Ok(
            Copy {
                cp: CopyOpts {
                    src: src.to_owned(),
                    dst: dst.to_owned(),
                    mode: None,
                    cdirs: false,
                    cfiles: false,
                    follow: false,
                },
            },
        )
    }

    /// Copies `src` to `dst` recursively: into `dst` when it is an existing directory, else as
    /// `dst`; links are recreated, not followed.
    ///
    /// ### Errors
    /// * PathError::Empty when a path is empty
    /// * PathError::DoesNotExist when the source doesn't exist
    pub fn copy(&mut self, src: &str, dst: &str) -> (r: Result<(), RvError>)
        requires
            old(self).wf(),
        ensures
            final(self).wf(),
            final(self).cwd@ == old(self).cwd@,
            final(self).env@ == old(self).env@,
            ({
                let out = copy_spec(
                    old(self).cwd@,
                    old(self).envv(),
                    old(self).ents(),
                    old(self).dats(),
                    CopyV { src: src@, dst: dst@, mode: None, cdirs: false, cfiles: false, follow: false },
                );
                &&& final(self).ents() == out.0
                &&& final(self).dats() == out.1
                &&& match out.2 {
                    None => r is Ok,
                    Some(e) => (r matches Err(x) && x@ == e),
                }
            }),
    {
        let c = match self.copy_b(src, dst) {
            Ok(c) => c,
            Err(e) => return Err(e),
        };
        c.exec(self)
    }
}


/// Setting the contents of one path leaves those found for every other path as they were.
proof fn lemma_set_dat_other(ds: Seq<(Seq<char>, Seq<u8>)>, p: Seq<char>, b: Seq<u8>, q: Seq<char>)
    requires
        q != p,
    ensures
        lookup_dat(set_dat(ds, p, b), q) == lookup_dat(ds, q),
{
    lemma_find_dat(ds, p, 0);
    lemma_find_dat(ds, q, 0);
    let k = find_dat(ds, p, 0);
    let kq = find_dat(ds, q, 0);
    let d2 = set_dat(ds, p, b);
    if kq < 0 {
        assert forall|j: int| 0 <= j < d2.len() implies (#[trigger] d2[j]).0 != q by {
            if j < ds.len() && j != k {
                assert(d2[j] == ds[j]);
            }
        }
        lemma_find_dat_is(d2, q, -1);
    } else {
        assert(kq != k);
        assert(d2[kq] == ds[kq]);
        assert forall|j: int| 0 <= j < kq implies (#[trigger] d2[j]).0 != q by {
            if j != k {
                assert(d2[j] == ds[j]);
            }
        }
        lemma_find_dat_is(d2, q, kq);
    }
}

/// The traversal a copy makes of a file that is not a link yields just the file.
proof fn lemma_copy_walk_file(es: Seq<MemEntryV>, f: MemEntryV, follow: bool)
    requires
        !f.entry.dir,
        !f.entry.link,
    ensures
        traverse(copy_walk(es, f, follow)) == seq![WalkV::Entry(f)],
{
    let o = copy_walk(es, f, follow);
    assert(follow_mem(f, follow) == f);
    assert(walk(o, f, 0, Seq::empty(), Seq::empty()) == emit(o, f, 0, Seq::empty()));
    assert(flush(Seq::<MemEntryV>::empty(), 0).0 =~= Seq::<WalkV>::empty());
    assert(traverse(o) =~= seq![WalkV::Entry(f)]);
}

/// Copying a single file that is not a link, when it succeeds, gives where it goes the file's
/// contents.
#[verifier::spinoff_prover]
proof fn lemma_copy_one_file(c: CopyCtx, es: Seq<MemEntryV>, ds: Seq<(Seq<char>, Seq<u8>)>, f: MemEntryV, dp: Seq<char>)
    requires
        abs_spec(c.cwd, c.env, f.entry.path) == Ok::<Seq<char>, RvErr>(f.entry.path),
        lookup(es, f.entry.path) == Some(f),
        f.entry.file,
        !f.entry.dir,
        !f.entry.link,
        copy_dst(c, f.entry.path) == Ok::<Seq<char>, RvErr>(dp),
        copy_run(c, es, ds, seq![WalkV::Entry(f)]).2 is None,
    ensures
        lookup_dat(copy_run(c, es, ds, seq![WalkV::Entry(f)]).1, dp) == lookup_dat(ds, f.entry.path),
{
    let sp = f.entry.path;
    let out = copy_step(c, es, ds, WalkV::Entry(f));
    let ws = seq![WalkV::Entry(f)];
    assert(ws[0] == WalkV::Entry(f));
    assert(ws.drop_first() =~= Seq::<WalkV>::empty());
    assert(copy_run(c, out.0, out.1, Seq::empty()) == (out.0, out.1, None::<RvErr>));
    let ad = add_spec(es, ds, copied_entry(f, dp, c.file_mode));
    if ad is Ok {
        let ds2 = ad->Ok_0.1;
        if dp != sp {
            assert(lookup_dat(ds2, sp) == lookup_dat(ds, sp)) by {
                if ds2 != ds {
                    lemma_set_dat_other(ds, dp, Seq::empty(), sp);
                }
            }
        }
        match lookup_dat(ds2, sp) {
            Some(b) => {
                lemma_set_dat_lookup(ds2, dp, b);
            },
            None => {},
        }
    }
}

/// Copying a file, that is not a link, to a path that is not a directory gives the destination
/// the file's contents, when the copy succeeds. The working directory is an absolute clean path,
/// and the absolute forms of the two paths hold neither `~` nor `$`.
#[verifier::spinoff_prover]
pub proof fn lemma_copy_file(
    cwd: Seq<char>,
    env: Seq<(Seq<char>, Seq<char>)>,
    es: Seq<MemEntryV>,
    ds: Seq<(Seq<char>, Seq<u8>)>,
    cp: CopyV,
)
    requires
        clean_abs(cwd),
        abs_spec(cwd, env, cp.src) matches Ok(s) && count_char(s, '~') == 0 && count_char(s, '$') == 0,
        abs_spec(cwd, env, cp.dst) matches Ok(d) && count_char(d, '~') == 0 && count_char(d, '$') == 0,
        lookup(es, abs_spec(cwd, env, cp.src)->Ok_0) matches Some(f) && f.entry.file && !f.entry.dir
            && !f.entry.link,
        !(lookup(es, abs_spec(cwd, env, cp.dst)->Ok_0) matches Some(x) && x.entry.dir),
        copy_spec(cwd, env, es, ds, cp).2 is None,
    ensures
        lookup_dat(copy_spec(cwd, env, es, ds, cp).1, abs_spec(cwd, env, cp.dst)->Ok_0) == lookup_dat(
            ds,
            abs_spec(cwd, env, cp.src)->Ok_0,
        ),
{
    let s = abs_spec(cwd, env, cp.src)->Ok_0;
    let d = abs_spec(cwd, env, cp.dst)->Ok_0;
    lemma_abs_clean(cwd, env, cp.src);
    lemma_abs_clean(cwd, env, cp.dst);
    if s != d {
        lemma_abs_fixed(cwd, env, s);
        lemma_abs_fixed(cwd, env, d);
        let f = lookup(es, s)->Some_0;
        lemma_find_ent(es, s, 0);
        let c = CopyCtx {
            cwd,
            env,
            src_root: s,
            dst_root: d,
            copy_into: false,
            dir_mode: dir_mode_of(cp),
            file_mode: file_mode_of(cp),
            follow: cp.follow,
        };
        lemma_copy_walk_file(es, f, cp.follow);
        assert(trim_prefix_spec(s, s) =~= Seq::<char>::empty());
        lemma_mash_empty(d);
        lemma_copy_one_file(c, es, ds, f, d);
    }
}

/// Copying a single file that is not a link to a path where nothing stands, when it succeeds,
/// puts there the file's entry with the copy's path and the mode given to files or its own.
#[verifier::spinoff_prover]
proof fn lemma_copy_one_file_entry(
    c: CopyCtx,
    es: Seq<MemEntryV>,
    ds: Seq<(Seq<char>, Seq<u8>)>,
    f: MemEntryV,
    dp: Seq<char>,
)
    requires
        wf_parts(es, ds),
        abs_spec(c.cwd, c.env, f.entry.path) == Ok::<Seq<char>, RvErr>(f.entry.path),
        lookup(es, f.entry.path) == Some(f),
        f.entry.file,
        !f.entry.dir,
        !f.entry.link,
        copy_dst(c, f.entry.path) == Ok::<Seq<char>, RvErr>(dp),
        lookup(es, dp) is None,
        dp != root_path(),
        copy_run(c, es, ds, seq![WalkV::Entry(f)]).2 is None,
    ensures
        lookup(copy_run(c, es, ds, seq![WalkV::Entry(f)]).0, dp) == Some(copied_entry(f, dp, c.file_mode)),
{
    let out = copy_step(c, es, ds, WalkV::Entry(f));
    let ws = seq![WalkV::Entry(f)];
    assert(ws[0] == WalkV::Entry(f));
    assert(ws.drop_first() =~= Seq::<WalkV>::empty());
    assert(copy_run(c, out.0, out.1, Seq::empty()) == (out.0, out.1, None::<RvErr>));
    let e = copied_entry(f, dp, c.file_mode);
    assert(add_spec(es, ds, e) is Ok);
    lemma_add_lookup(es, ds, e);
}

/// Copying a file, that is not a link, to a path where nothing stands gives the copy, when it
/// succeeds, the mode given to files: the copy's mode when one is given for all that is copied
/// or for files, else the file's own; a regular file's type bits are kept.
#[verifier::spinoff_prover]
pub proof fn lemma_copy_file_mode(
    cwd: Seq<char>,
    env: Seq<(Seq<char>, Seq<char>)>,
    es: Seq<MemEntryV>,
    ds: Seq<(Seq<char>, Seq<u8>)>,
    cp: CopyV,
)
    requires
        wf_parts(es, ds),
        clean_abs(cwd),
        abs_spec(cwd, env, cp.src) matches Ok(s) && count_char(s, '~') == 0 && count_char(s, '$') == 0,
        abs_spec(cwd, env, cp.dst) matches Ok(d) && count_char(d, '~') == 0 && count_char(d, '$') == 0,
        lookup(es, abs_spec(cwd, env, cp.src)->Ok_0) matches Some(f) && f.entry.file && !f.entry.dir
            && !f.entry.link,
        lookup(es, abs_spec(cwd, env, cp.dst)->Ok_0) is None,
        copy_spec(cwd, env, es, ds, cp).2 is None,
    ensures
        lookup(copy_spec(cwd, env, es, ds, cp).0, abs_spec(cwd, env, cp.dst)->Ok_0) matches Some(e) && {
            let f = lookup(es, abs_spec(cwd, env, cp.src)->Ok_0)->Some_0;
            &&& e.entry.path == abs_spec(cwd, env, cp.dst)->Ok_0
            &&& e.entry.file && !e.entry.dir && !e.entry.link
            &&& ((cp.cfiles || !cp.cdirs) ==> (cp.mode matches Some(m) ==> e.entry.mode == m | 0o100000u32))
            &&& (cp.mode is None || (cp.cdirs && !cp.cfiles) ==> e.entry.mode == f.entry.mode | 0o100000u32)
        },
{
    let s = abs_spec(cwd, env, cp.src)->Ok_0;
    let d = abs_spec(cwd, env, cp.dst)->Ok_0;
    lemma_abs_clean(cwd, env, cp.src);
    lemma_abs_clean(cwd, env, cp.dst);
    lemma_abs_fixed(cwd, env, s);
    lemma_abs_fixed(cwd, env, d);
    let f = lookup(es, s)->Some_0;
    lemma_find_ent(es, s, 0);
    lemma_find_ent(es, root_path(), 0);
    assert(s != d);
    assert(d != root_path());
    let c = CopyCtx {
        cwd,
        env,
        src_root: s,
        dst_root: d,
        copy_into: false,
        dir_mode: dir_mode_of(cp),
        file_mode: file_mode_of(cp),
        follow: cp.follow,
    };
    assert(!(entry_at_spec(cwd, env, es, d) matches Some(x) && x.entry.dir));
    lemma_copy_walk_file(es, f, cp.follow);
    assert(trim_prefix_spec(s, s) =~= Seq::<char>::empty());
    lemma_mash_empty(d);
    lemma_copy_one_file_entry(c, es, ds, f, d);
}

/// Where a copy into an existing directory puts its source: below the directory, under the
/// source's name.
#[verifier::spinoff_prover]
proof fn lemma_dest_into(src: Seq<char>, dst: Seq<char>)
    requires
        clean_abs(src),
        src != root_path(),
    ensures
        base_spec(src) is Some,
        dest_path(src, dst, true, src) == Ok::<Seq<char>, RvErr>(mash_spec(dst, base_spec(src)->Some_0)),
{
    assert(src != dot());
    lemma_clean_path(src);
    let sc = components(src);
    assert(sc[0] is Root);
    if sc.len() == 1 {
        assert(sc =~= seq![PComp::Root]);
        assert(join(sc) =~= seq!['/']);
        assert(src =~= root_path());
    }
    let name = comp_str(sc.last());
    let dc = sc.drop_last();
    let d = join(dc);
    assert(sc.last() is Normal) by {
        let l = sc.len() - 1;
        if sc[l] is Parent {
            assert(sc[0] is Parent);
        }
    }
    assert(valid_name(name));
    if seq!['/'].is_prefix_of(name) {
        assert(seq!['/'][0] == name[0]);
    }
    assert(trim_prefix_spec(name, seq!['/']) == name);
    assert(dir_spec(src) == Some(d));
    assert(base_spec(src) == Some(name));
    assert(joinable(dc)) by {
        assert forall|i: int| 0 <= i < dc.len() implies #[trigger] dc[i] == sc[i] by {}
    }
    lemma_join_shape(dc);
    let t = trim_prefix_spec(src, d);
    if d.last() == '/' {
        assert(src == d + name);
        lemma_prefix_trim(d, name);
        assert(t == name);
    } else {
        assert(src == d + seq!['/'] + name);
        assert(d + seq!['/'] + name =~= d + (seq!['/'] + name));
        lemma_prefix_trim(d, seq!['/'] + name);
        assert(t == seq!['/'] + name);
        lemma_prefix_trim(seq!['/'], name);
        assert(trim_prefix_spec(t, seq!['/']) == name);
    }
    assert(mash_spec(dst, t) == mash_spec(dst, name));
}

/// Copying a file, that is not a link, into an existing directory gives the path below the
/// directory named as the file the file's contents, when the copy succeeds. The working
/// directory is an absolute clean path, and the absolute forms of the two paths hold neither `~`
/// nor `$`.
#[verifier::spinoff_prover]
pub proof fn lemma_copy_file_into(
    cwd: Seq<char>,
    env: Seq<(Seq<char>, Seq<char>)>,
    es: Seq<MemEntryV>,
    ds: Seq<(Seq<char>, Seq<u8>)>,
    cp: CopyV,
)
    requires
        wf_parts(es, ds),
        clean_abs(cwd),
        abs_spec(cwd, env, cp.src) matches Ok(s) && count_char(s, '~') == 0 && count_char(s, '$') == 0,
        abs_spec(cwd, env, cp.dst) matches Ok(d) && count_char(d, '~') == 0 && count_char(d, '$') == 0,
        lookup(es, abs_spec(cwd, env, cp.src)->Ok_0) matches Some(f) && f.entry.file && !f.entry.dir
            && !f.entry.link,
        lookup(es, abs_spec(cwd, env, cp.dst)->Ok_0) matches Some(x) && x.entry.dir,
        copy_spec(cwd, env, es, ds, cp).2 is None,
    ensures
        base_spec(abs_spec(cwd, env, cp.src)->Ok_0) is Some,
        lookup_dat(
            copy_spec(cwd, env, es, ds, cp).1,
            mash_spec(abs_spec(cwd, env, cp.dst)->Ok_0, base_spec(abs_spec(cwd, env, cp.src)->Ok_0)->Some_0),
        ) == lookup_dat(ds, abs_spec(cwd, env, cp.src)->Ok_0),
{
    let s = abs_spec(cwd, env, cp.src)->Ok_0;
    let d = abs_spec(cwd, env, cp.dst)->Ok_0;
    lemma_abs_clean(cwd, env, cp.src);
    lemma_abs_clean(cwd, env, cp.dst);
    lemma_abs_fixed(cwd, env, s);
    lemma_abs_fixed(cwd, env, d);
    let f = lookup(es, s)->Some_0;
    lemma_find_ent(es, s, 0);
    lemma_find_ent(es, root_path(), 0);
    assert(s != root_path());
    assert(s != d);
    lemma_dest_into(s, d);
    let c = CopyCtx {
        cwd,
        env,
        src_root: s,
        dst_root: d,
        copy_into: true,
        dir_mode: dir_mode_of(cp),
        file_mode: file_mode_of(cp),
        follow: cp.follow,
    };
    lemma_copy_walk_file(es, f, cp.follow);
    lemma_copy_one_file(c, es, ds, f, mash_spec(d, base_spec(s)->Some_0));
}
} // verus!
