//! Permission changes: the `Chmod` builder and symbolic mode computation.
//!
//! A symbolic mode is a comma separated list of clauses `TARGETS:GROUPS OP PERMS`, e.g.
//! `f:a+x,d:go-w`. Targets are `d` (directories), `f` (files) and `a` (any); groups are `u`, `g`,
//! `o` and `a`; the operation is `+`, `-` or `=`; permissions are `r`, `w` and `x`.
use vstd::prelude::*;
use crate::entries::{EntriesV, WalkV, Walked, no_pre, traverse, walked_view};
use crate::entry::{EntryV, MemEntryV, VfsEntry, mode_calc};
use crate::entry_iter::SortBy;
use crate::errors::{RvErr, RvError, VfsError};
use crate::memfs::{Memfs, find_ent, lemma_find_ent, lemma_find_ent_is, lookup, root_path, wf_parts};
use crate::strs::chars_of;

verus! {

/// What reading the targets of a clause gives: the final result, the index after the `:`, or,
/// for a clause that does not apply to the entry, the index of the `,` that ends it (the length
/// when it is the last clause).
pub enum TargetOut {
    Done(Result<u32, RvErr>),
    Next(int),
    Skip(int),
}

/// The index of the first `,` at or after `i`, else the length.
pub open spec fn next_comma(s: Seq<char>, i: int) -> int
    decreases s.len() - i,
{
    if i >= s.len() {
        s.len() as int
    } else if s[i] == ',' {
        i
    } else {
        next_comma(s, i + 1)
    }
}

/// Reads the targets of a clause starting at index `k`.
pub open spec fn target_scan(e: EntryV, s: Seq<char>, k: int, mode: u32) -> TargetOut
    decreases s.len() - k,
{
    if k < 0 || k >= s.len() {
        TargetOut::Done(Err(RvErr::InvalidChmod(s)))
    } else {
        let c = s[k];
        if c != 'd' && c != 'f' && c != 'a' && c != ':' {
            TargetOut::Done(Err(RvErr::InvalidChmodTarget(s)))
        } else if e.link || (c == 'd' && !e.dir) || (c == 'f' && !e.file) {
            TargetOut::Skip(next_comma(s, k))
        } else if c == ':' {
            TargetOut::Next(k + 1)
        } else {
            target_scan(e, s, k + 1, mode)
        }
    }
}

/// The permission bits of a group letter, or zero.
pub open spec fn group_bits(c: char) -> u32 {
    if c == 'u' {
        0o700u32
    } else if c == 'g' {
        0o070u32
    } else if c == 'o' {
        0o007u32
    } else if c == 'a' {
        0o777u32
    } else {
        0u32
    }
}

/// The permission bits of a permission letter, or zero.
pub open spec fn perm_bits(c: char) -> u32 {
    if c == 'r' {
        0o444u32
    } else if c == 'w' {
        0o222u32
    } else if c == 'x' {
        0o111u32
    } else {
        0u32
    }
}

pub open spec fn is_op(c: char) -> bool {
    c == '-' || c == '+' || c == '='
}

/// Reads the groups of a clause from index `k`: the group bits, the operation and the index
/// after it.
pub open spec fn group_scan(s: Seq<char>, k: int, group: u32) -> Result<(u32, char, int), RvErr>
    decreases s.len() - k,
{
    if k < 0 || k >= s.len() {
        Err(RvErr::InvalidChmod(s))
    } else {
        let c = s[k];
        if is_op(c) {
            if group == 0 {
                Err(RvErr::InvalidChmodGroup(s))
            } else {
                Ok((group, c, k + 1))
            }
        } else if group_bits(c) != 0 {
            group_scan(s, k + 1, group | group_bits(c))
        } else {
            Err(RvErr::InvalidChmodGroup(s))
        }
    }
}

/// Reads the permissions of a clause from index `k`: the permission bits and the index after the
/// clause.
pub open spec fn perms_scan(s: Seq<char>, k: int, perm: u32) -> Result<(u32, int), RvErr>
    decreases s.len() - k,
{
    if k < 0 || k >= s.len() {
        Ok((perm, k))
    } else {
        let c = s[k];
        if perm_bits(c) != 0 {
            if k + 1 < s.len() {
                perms_scan(s, k + 1, perm | perm_bits(c))
            } else {
                Ok((perm | perm_bits(c), k + 1))
            }
        } else if c == ',' {
            Ok((perm, k + 1))
        } else {
            Err(RvErr::InvalidChmodPermissions(s))
        }
    }
}

/// Applies an operation to a mode.
pub open spec fn apply_op(op: char, group: u32, perm: u32, mode: u32) -> u32 {
    if op == '-' {
        mode & !(group & perm)
    } else if op == '+' {
        mode | (group & perm)
    } else {
        (!group & mode) | (group & perm)
    }
}

/// Runs the clauses of the symbolic mode `s` from index `i` on, starting from `mode`.
pub open spec fn sym_run(e: EntryV, s: Seq<char>, i: int, mode: u32) -> Result<u32, RvErr>
    decreases s.len() - i,
{
    if i < 0 || i >= s.len() {
        Ok(mode)
    } else {
        match target_scan(e, s, i, mode) {
            TargetOut::Done(r) => r,
            TargetOut::Skip(c) => if c < i || c >= s.len() {
                Ok(mode)
            } else {
                sym_run(e, s, c + 1, mode)
            },
            TargetOut::Next(j) => if j >= s.len() {
                Ok(mode)
            } else {
                match group_scan(s, j, 0) {
                    Err(err) => Err(err),
                    Ok((g, op, j2)) => if j2 >= s.len() {
                        Ok(mode)
                    } else {
                        match perms_scan(s, j2, 0) {
                            Err(err) => Err(err),
                            Ok((perm, j3)) => if perm == 0 {
                                Err(RvErr::InvalidChmodPermissions(s))
                            } else if j3 <= i || j3 > s.len() {
                                Ok(mode)
                            } else {
                                sym_run(e, s, j3, apply_op(op, g, perm, mode))
                            },
                        }
                    },
                }
            },
        }
    }
}

/// The mode that `mode(entry, octal, sym)` computes.
pub open spec fn mode_spec(e: EntryV, octal: u32, sym: Seq<char>) -> Result<u32, RvErr> {
    if octal != 0 {
        Ok(octal)
    } else if sym.len() == 0 {
        Ok(0)
    } else {
        sym_run(e, sym, 0, e.mode)
    }
}

/// Reads the targets of a clause.
fn target_scan_exec(e: &VfsEntry, s: &Vec<char>, k0: usize, mode: u32, sym: &str) -> (r: (
    Option<Result<u32, RvError>>,
    usize,
    bool,
))
    requires
        k0 < s.len(),
        s@ == sym@,
    ensures
        match target_scan(e@, s@, k0 as int, mode) {
            TargetOut::Done(Ok(m)) => r.0 == Some(Ok::<u32, RvError>(m)),
            TargetOut::Done(Err(err)) => (r.0 matches Some(Err(x)) && x@ == err),
            TargetOut::Next(j) => r.0 is None && !r.2 && r.1 == j && k0 < j <= s.len(),
            TargetOut::Skip(c) => r.0 is None && r.2 && r.1 == c && k0 <= c <= s.len(),
        },
{
    let mut k = k0;
    loop
        invariant
            k0 <= k < s.len(),
            s@ == sym@,
            target_scan(e@, s@, k as int, mode) == target_scan(e@, s@, k0 as int, mode),
        decreases s.len() - k,
    {
        let c = s[k];
        if c != 'd' && c != 'f' && c != 'a' && c != ':' {
            return (Some(Err(RvError::Vfs(VfsError::InvalidChmodTarget(String::from_str(sym))))), 0, false);
        }
        if e.is_symlink() || (c == 'd' && !e.is_dir()) || (c == 'f' && !e.is_file()) {
            let mut n = k;
            while n < s.len() && s[n] != ','
                invariant
                    k <= n <= s.len(),
                    next_comma(s@, n as int) == next_comma(s@, k as int),
                decreases s.len() - n,
            {
                n = n + 1;
            }
            return (None, n, true);
        }
        if c == ':' {
            return (None, k + 1, false);
        }
        if k + 1 >= s.len() {
            assert(target_scan(e@, s@, k + 1, mode) == TargetOut::Done(
                Err::<u32, RvErr>(RvErr::InvalidChmod(s@)),
            ));
            return (Some(Err(RvError::Vfs(VfsError::InvalidChmod(String::from_str(sym))))), 0, false);
        }
        k = k + 1;
    }
}

/// The bits of a group letter.
fn group_bits_exec(c: char) -> (r: u32)
    ensures
        r == group_bits(c),
{
    if c == 'u' {
        0o700u32
    } else if c == 'g' {
        0o070u32
    } else if c == 'o' {
        0o007u32
    } else if c == 'a' {
        0o777u32
    } else {
        0u32
    }
}

/// The bits of a permission letter.
fn perm_bits_exec(c: char) -> (r: u32)
    ensures
        r == perm_bits(c),
{
    if c == 'r' {
        0o444u32
    } else if c == 'w' {
        0o222u32
    } else if c == 'x' {
        0o111u32
    } else {
        0u32
    }
}

/// Reads the groups of a clause.
fn group_scan_exec(s: &Vec<char>, k0: usize, sym: &str) -> (r: Result<(u32, char, usize), RvError>)
    requires
        k0 < s.len(),
        s@ == sym@,
    ensures
        match group_scan(s@, k0 as int, 0) {
            Ok((g, op, j)) => r matches Ok((g2, op2, j2)) && g2 == g && op2 == op && j2 == j && k0
                < j <= s.len(),
            Err(err) => (r matches Err(x) && x@ == err),
        },
{
    let mut k = k0;
    let mut group: u32 = 0;
    loop
        invariant
            k0 <= k < s.len(),
            s@ == sym@,
            group_scan(s@, k as int, group) == group_scan(s@, k0 as int, 0),
        decreases s.len() - k,
    {
        let c = s[k];
        if c == '-' || c == '+' || c == '=' {
            if group == 0 {
                return Err(RvError::Vfs(VfsError::InvalidChmodGroup(String::from_str(sym))));
            }
            return Ok((group, c, k + 1));
        }
        let b = group_bits_exec(c);
        if b == 0 {
            return Err(RvError::Vfs(VfsError::InvalidChmodGroup(String::from_str(sym))));
        }
        if k + 1 >= s.len() {
            assert(group_scan(s@, k + 1, group | b) == Err::<(u32, char, int), RvErr>(
                RvErr::InvalidChmod(s@),
            ));
            return Err(RvError::Vfs(VfsError::InvalidChmod(String::from_str(sym))));
        }
        group = group | b;
        k = k + 1;
    }
}

/// Reads the permissions of a clause.
fn perms_scan_exec(s: &Vec<char>, k0: usize, sym: &str) -> (r: Result<(u32, usize), RvError>)
    requires
        k0 < s.len(),
        s@ == sym@,
    ensures
        match perms_scan(s@, k0 as int, 0) {
            Ok((p, j)) => r matches Ok((p2, j2)) && p2 == p && j2 == j && k0 < j <= s.len(),
            Err(err) => (r matches Err(x) && x@ == err),
        },
{
    let mut k = k0;
    let mut perm: u32 = 0;
    loop
        invariant
            k0 <= k < s.len(),
            s@ == sym@,
            perms_scan(s@, k as int, perm) == perms_scan(s@, k0 as int, 0),
        decreases s.len() - k,
    {
        let c = s[k];
        let b = perm_bits_exec(c);
        if b != 0 {
            if k + 1 < s.len() {
                perm = perm | b;
                k = k + 1;
            } else {
                return Ok((perm | b, k + 1));
            }
        } else if c == ',' {
            return Ok((perm, k + 1));
        } else {
            return Err(RvError::Vfs(VfsError::InvalidChmodPermissions(String::from_str(sym))));
        }
    }
}

/// Applies an operation to a mode.
fn apply_op_exec(op: char, group: u32, perm: u32, mode: u32) -> (r: u32)
    ensures
        r == apply_op(op, group, perm, mode),
{
    if op == '-' {
        mode & !(group & perm)
    } else if op == '+' {
        mode | (group & perm)
    } else {
        (!group & mode) | (group & perm)
    }
}

/// Computes the mode of an entry from an octal mode, which takes priority, or from a symbolic
/// mode applied to the entry's current mode. With neither given the result is zero.
///
/// The symbolic mode is a comma separated list of clauses `[dfa]:[ugoa][-+=][rwx]`. A clause
/// applies to the entries its targets name (`d` directories, `f` files, `a` both); one that does
/// not apply to the entry is passed over, and the next clause is read. Links take no clause.
///
/// ### Errors
/// * VfsError::InvalidChmodTarget, InvalidChmodGroup, InvalidChmodPermissions when a clause
///   holds a letter out of place, InvalidChmod when it ends early
pub fn mode(entry: &VfsEntry, octal: u32, sym: &str) -> (r: Result<u32, RvError>)
    ensures
        match mode_spec(entry@, octal, sym@) {
            Ok(m) => r == Ok::<u32, RvError>(m),
            Err(err) => (r matches Err(x) && x@ == err),
        },
{
    if octal != 0 {
        return Ok(octal);
    }
    let s = chars_of(sym);
    if s.len() == 0 {
        return Ok(0);
    }
    let mut m = entry.mode();
    let mut i: usize = 0;
    while i < s.len()
        invariant
            s@ == sym@,
            s.len() > 0,
            octal == 0,
            i <= s.len(),
            sym_run(entry@, s@, i as int, m) == sym_run(entry@, s@, 0, entry@.mode),
        decreases s.len() - i,
    {
        let (done, j, skip) = target_scan_exec(entry, &s, i, m, sym);
        match done {
            Some(res) => {
                return res;
            },
            None => {},
        }
        if skip {
            if j >= s.len() {
                return Ok(m);
            }
            i = j + 1;
            continue;
        }
        if j >= s.len() {
            return Ok(m);
        }
        let (g, op, j2) = match group_scan_exec(&s, j, sym) {
            Ok(x) => x,
            Err(e) => {
                return Err(e);
            },
        };
        if j2 >= s.len() {
            return Ok(m);
        }
        let (perm, j3) = match perms_scan_exec(&s, j2, sym) {
            Ok(x) => x,
            Err(e) => {
                return Err(e);
            },
        };
        if perm == 0 {
            return Err(RvError::Vfs(VfsError::InvalidChmodPermissions(String::from_str(sym))));
        }
        m = apply_op_exec(op, g, perm, m);
        i = j3;
    }
    Ok(m)
}

/// The new mode takes away a read or execute permission that the old mode grants, to the owner,
/// the group or others.
pub open spec fn revokes(old: u32, new: u32) -> bool {
    old & !new & 0o0555u32 != 0
}

/// Returns true if the new mode takes away any read or execute permission that the old mode
/// grants, to the owner, the group or others.
pub fn revoking_mode(old: u32, new: u32) -> (r: bool)
    ensures
        r == revokes(old, new),
{
    old & !new & 0o0555u32 != 0
}

/// The options of a permission change.
#[derive(Debug)]
pub struct ChmodOpts {
    /// absolute path to change
    pub path: String,
    /// octal mode for directories, 0 for none
    pub dirs: u32,
    /// octal mode for files, 0 for none
    pub files: u32,
    /// follow links
    pub follow: bool,
    /// change what directories hold too
    pub recursive: bool,
    /// symbolic mode
    pub sym: String,
}

/// The model of the options of a permission change.
pub struct ChmodV {
    pub path: Seq<char>,
    pub dirs: u32,
    pub files: u32,
    pub follow: bool,
    pub recursive: bool,
    pub sym: Seq<char>,
}

impl View for ChmodOpts {
    type V = ChmodV;

    open spec fn view(&self) -> ChmodV {
        ChmodV {
            path: self.path@,
            dirs: self.dirs,
            files: self.files,
            follow: self.follow,
            recursive: self.recursive,
            sym: self.sym@,
        }
    }
}

/// Provides a builder for changing permissions in the memory filesystem.
///
/// The octal form given with `all`, `dirs` or `files` takes precedence over the symbolic form
/// given with `sym`. Complete the operation with `exec`.
#[derive(Debug)]
pub struct Chmod {
    pub opts: ChmodOpts,
}

impl Chmod {
    /// Sets the octal mode for both directories and files.
    pub fn all(self, mode: u32) -> (r: Chmod)
        ensures
            r.opts == (ChmodOpts { dirs: mode, files: mode, ..self.opts }),
    {
        let mut x = self;
        x.opts.dirs = mode;
        x.opts.files = mode;
        x
    }

    /// Sets the octal mode for directories.
    pub fn dirs(self, mode: u32) -> (r: Chmod)
        ensures
            r.opts == (ChmodOpts { dirs: mode, ..self.opts }),
    {
        let mut x = self;
        x.opts.dirs = mode;
        x
    }

    /// Sets the octal mode for files.
    pub fn files(self, mode: u32) -> (r: Chmod)
        ensures
            r.opts == (ChmodOpts { files: mode, ..self.opts }),
    {
        let mut x = self;
        x.opts.files = mode;
        x
    }

    /// Follows links, changing what they point to.
    pub fn follow(self) -> (r: Chmod)
        ensures
            r.opts == (ChmodOpts { follow: true, ..self.opts }),
    {
        let mut x = self;
        x.opts.follow = true;
        x
    }

    /// Makes files readonly: `f:a+r,f:a-wx`.
    pub fn readonly(self) -> (r: Chmod)
        ensures
            r.opts.sym@ == "f:a+r,f:a-wx"@,
            r.opts.path == self.opts.path,
            r.opts.dirs == self.opts.dirs,
            r.opts.files == self.opts.files,
            r.opts.follow == self.opts.follow,
            r.opts.recursive == self.opts.recursive,
    {
        let mut x = self;
        x.opts.sym = "f:a+r,f:a-wx".to_owned();
        x
    }

    /// Changes what directories hold too.
    pub fn recurse(self) -> (r: Chmod)
        ensures
            r.opts == (ChmodOpts { recursive: true, ..self.opts }),
    {
        let mut x = self;
        x.opts.recursive = true;
        x
    }

    /// Changes only the given path.
    pub fn no_recurse(self) -> (r: Chmod)
        ensures
            r.opts == (ChmodOpts { recursive: false, ..self.opts }),
    {
        let mut x = self;
        x.opts.recursive = false;
        x
    }

    /// Removes all permissions of group and other: `a:go-rwx`.
    pub fn secure(self) -> (r: Chmod)
        ensures
            r.opts.sym@ == "a:go-rwx"@,
            r.opts.path == self.opts.path,
            r.opts.dirs == self.opts.dirs,
            r.opts.files == self.opts.files,
            r.opts.follow == self.opts.follow,
            r.opts.recursive == self.opts.recursive,
    {
        let mut x = self;
        x.opts.sym = "a:go-rwx".to_owned();
        x
    }

    /// Sets the symbolic mode.
    pub fn sym(self, symbolic: &str) -> (r: Chmod)
        ensures
            r.opts.sym@ == symbolic@,
            r.opts.path == self.opts.path,
            r.opts.dirs == self.opts.dirs,
            r.opts.files == self.opts.files,
            r.opts.follow == self.opts.follow,
            r.opts.recursive == self.opts.recursive,
    {
        let mut x = self;
        x.opts.sym = symbolic.to_owned();
        x
    }

    /// Applies the permission change to the filesystem.
    ///
    /// ### Errors
    /// * PathError::DoesNotExist when the path doesn't exist
    /// * the errors of the symbolic mode
    pub fn exec(&self, fs: &mut Memfs) -> (r: Result<(), RvError>)
        requires
            old(fs).wf(),
        ensures
            final(fs).wf(),
            final(fs).cwd@ == old(fs).cwd@,
            final(fs).env@ == old(fs).env@,
            final(fs).dats() == old(fs).dats(),
            match lookup(old(fs).ents(), self.opts.path@) {
                None => (r matches Err(x) && x@ == RvErr::DoesNotExist(self.opts.path@))
                    && final(fs).ents() == old(fs).ents(),
                Some(root) => {
                    let out = chmod_run(
                        old(fs).ents(),
                        traverse(chmod_walk(old(fs).ents(), root, self.opts@)),
                        self.opts@,
                    );
                    &&& final(fs).ents() == out.0
                    &&& match out.1 {
                        None => r is Ok,
                        Some(e) => (r matches Err(x) && x@ == e),
                    }
                },
            },
    {
        fs.chmod_exec(&self.opts)
    }
}

/// The traversal a permission change makes: contents before their directory, directories first
/// by name, as deep as directed.
pub open spec fn chmod_walk(es: Seq<MemEntryV>, root: MemEntryV, o: ChmodV) -> EntriesV {
    EntriesV {
        es,
        root,
        dirs: false,
        files: false,
        follow: o.follow,
        min_depth: 0,
        max_depth: if o.recursive {
            usize::MAX as nat
        } else {
            0
        },
        dirs_first: true,
        files_first: false,
        sort_by_name: false,
        contents_first: true,
        sort: Some(SortBy::Name),
        pre: no_pre(),
    }
}

/// The entries with the mode of the entry at `p` set to `m`.
pub open spec fn set_mode_at(es: Seq<MemEntryV>, p: Seq<char>, m: u32) -> Seq<MemEntryV> {
    let k = find_ent(es, p, 0);
    if k < 0 {
        es
    } else {
        es.update(
            k,
            MemEntryV {
                entry: EntryV {
                    mode: mode_calc(es[k].entry.dir, es[k].entry.file, es[k].entry.link, Some(m)),
                    ..es[k].entry
                },
                ..es[k]
            },
        )
    }
}

/// The mode granted to `e` before its contents are visited: only a directory (a link to one
/// only when links are followed) whose new mode adds permissions without revoking any gets it
/// early, so that it can be traversed; `None` leaves it as it is.
pub open spec fn pre_mode_spec(e: EntryV, o: ChmodV) -> Result<Option<u32>, RvErr> {
    match mode_spec(e, o.dirs, o.sym) {
        Err(x) => Err(x),
        Ok(m1) => if (!e.link || o.follow) && e.dir && !revokes(e.mode, m1) && e.mode != m1 {
            Ok(Some(m1))
        } else {
            Ok(None)
        },
    }
}

/// The mode that `e` gets when it is reached: that of the directory or file options, applied
/// when it differs from the current one and is not zero, and to a link only when links are
/// followed; `None` leaves it as it is.
pub open spec fn post_mode_spec(e: EntryV, o: ChmodV) -> Result<Option<u32>, RvErr> {
    let m2 = if e.dir {
        mode_spec(e, o.dirs, o.sym)
    } else if e.file {
        mode_spec(e, o.files, o.sym)
    } else {
        Ok(0)
    };
    match m2 {
        Err(x) => Err(x),
        Ok(m) => if (!e.link || o.follow) && m != e.mode && m != 0 {
            Ok(Some(m))
        } else {
            Ok(None)
        },
    }
}

/// Computes `pre_mode_spec`: the mode to grant a directory before it is traversed.
pub fn pre_mode(entry: &VfsEntry, o: &ChmodOpts) -> (r: Result<Option<u32>, RvError>)
    ensures
        match pre_mode_spec(entry@, o@) {
            Ok(m) => r == Ok::<Option<u32>, RvError>(m),
            Err(e) => r matches Err(x) && x@ == e,
        },
{
    let m1 = match mode(entry, o.dirs, o.sym.as_str()) {
        Ok(m) => m,
        Err(e) => return Err(e),
    };
    let cur = entry.mode();
    if (!entry.is_symlink() || o.follow) && entry.is_dir() && !revoking_mode(cur, m1) && cur != m1 {
        Ok(Some(m1))
    } else {
        Ok(None)
    }
}

/// Computes `post_mode_spec`: the mode to set on an entry when it is reached.
pub fn post_mode(entry: &VfsEntry, o: &ChmodOpts) -> (r: Result<Option<u32>, RvError>)
    ensures
        match post_mode_spec(entry@, o@) {
            Ok(m) => r == Ok::<Option<u32>, RvError>(m),
            Err(e) => r matches Err(x) && x@ == e,
        },
{
    let m2 = if entry.is_dir() {
        match mode(entry, o.dirs, o.sym.as_str()) {
            Ok(m) => m,
            Err(e) => return Err(e),
        }
    } else if entry.is_file() {
        match mode(entry, o.files, o.sym.as_str()) {
            Ok(m) => m,
            Err(e) => return Err(e),
        }
    } else {
        0
    };
    if (!entry.is_symlink() || o.follow) && m2 != entry.mode() && m2 != 0 {
        Ok(Some(m2))
    } else {
        Ok(None)
    }
}

/// One step of a permission change. Before a directory is entered, permissions that are only
/// added are granted so that it can be traversed; each entry reached gets its new mode.
pub open spec fn chmod_step(es: Seq<MemEntryV>, w: WalkV, o: ChmodV) -> Result<Seq<MemEntryV>, RvErr> {
    match w {
        WalkV::Pre(x) => match pre_mode_spec(x.entry, o) {
            Err(e) => Err(e),
            Ok(Some(m)) => Ok(set_mode_at(es, x.entry.path, m)),
            Ok(None) => Ok(es),
        },
        WalkV::Entry(x) | WalkV::Deferred(x) => match post_mode_spec(x.entry, o) {
            Err(e) => Err(e),
            Ok(Some(m)) => Ok(set_mode_at(es, x.entry.path, m)),
            Ok(None) => Ok(es),
        },
        WalkV::Error(e) => Err(e),
    }
}

/// The steps of a permission change taken in turn, up to the first error.
pub open spec fn chmod_run(es: Seq<MemEntryV>, ws: Seq<WalkV>, o: ChmodV) -> (
    Seq<MemEntryV>,
    Option<RvErr>,
)
    decreases ws.len(),
{
    if ws.len() == 0 {
        (es, None)
    } else {
        match chmod_step(es, ws[0], o) {
            Err(e) => (es, Some(e)),
            Ok(es2) => chmod_run(es2, ws.drop_first(), o),
        }
    }
}

/// Setting a mode keeps the filesystem well formed.
pub proof fn lemma_set_mode_wf(es: Seq<MemEntryV>, ds: Seq<(Seq<char>, Seq<u8>)>, p: Seq<char>, m: u32)
    requires
        wf_parts(es, ds),
    ensures
        wf_parts(set_mode_at(es, p, m), ds),
{
    let k = find_ent(es, p, 0);
    lemma_find_ent(es, p, 0);
    let es2 = set_mode_at(es, p, m);
    assert forall|i: int| 0 <= i < es.len() implies #[trigger] es2[i].entry.path == es[i].entry.path
        && es2[i].files == es[i].files && es2[i].entry.dir == es[i].entry.dir by {}
    let rk = find_ent(es, root_path(), 0);
    lemma_find_ent(es, root_path(), 0);
    lemma_find_ent_is(es2, root_path(), rk);
}

impl Memfs {
    /// Sets the mode of the entry at `p`, if any.
    fn set_mode_exec(&mut self, p: &String, m: u32)
        requires
            old(self).wf(),
        ensures
            final(self).wf(),
            final(self).ents() == set_mode_at(old(self).ents(), p@, m),
            final(self).dats() == old(self).dats(),
            final(self).cwd@ == old(self).cwd@,
            final(self).env@ == old(self).env@,
    {
        let pc = chars_of(p.as_str());
        proof {
            lemma_set_mode_wf(self.ents(), self.dats(), p@, m);
        }
        match self.find(&pc) {
            None => {},
            Some(i) => {
                let ghost es0 = self.ents();
                let mut e = self.entries[i].clone_entry();
                assert(e@ == es0[i as int]);
                e.set_mode(Some(m));
                self.entries.set(i, e);
                assert(self.ents() =~= set_mode_at(es0, p@, m));
            },
        }
    }

    /// Applies one step of a permission change.
    fn chmod_step_exec(&mut self, w: &Walked, o: &ChmodOpts) -> (r: Result<(), RvError>)
        requires
            old(self).wf(),
        ensures
            final(self).wf(),
            final(self).dats() == old(self).dats(),
            final(self).cwd@ == old(self).cwd@,
            final(self).env@ == old(self).env@,
            match chmod_step(old(self).ents(), w@, o@) {
                Ok(es) => r is Ok && final(self).ents() == es,
                Err(e) => (r matches Err(x) && x@ == e) && final(self).ents() == old(self).ents(),
            },
    {
        match w {
            Walked::Pre(x) => {
                let v = VfsEntry::Memfs(x.clone_entry());
                match pre_mode(&v, o) {
                    Err(e) => Err(e),
                    Ok(Some(m)) => {
                        self.set_mode_exec(&x.path, m);
                        Ok(())
                    },
                    Ok(None) => Ok(()),
                }
            },
            Walked::Entry(x) | Walked::Deferred(x) => {
                let v = VfsEntry::Memfs(x.clone_entry());
                match post_mode(&v, o) {
                    Err(e) => Err(e),
                    Ok(Some(m)) => {
                        self.set_mode_exec(&x.path, m);
                        Ok(())
                    },
                    Ok(None) => Ok(()),
                }
            },
            Walked::Error(e) => Err(e.clone_error()),
        }
    }

    /// The events of the traversal a permission change makes, in order: contents before their
    /// directory, directories first by name, as deep and following links as `o` directs.
    ///
    /// ### Errors
    /// * PathError::DoesNotExist when `o.path` doesn't exist
    pub fn chmod_events(&self, o: &ChmodOpts) -> (r: Result<Vec<Walked>, RvError>)
        requires
            self.wf(),
        ensures
            match lookup(self.ents(), o.path@) {
                None => (r matches Err(x) && x@ == RvErr::DoesNotExist(o.path@)),
                Some(root) => (r matches Ok(ws) && walked_view(ws@) == traverse(
                    chmod_walk(self.ents(), root, o@),
                )),
            },
    {
        let pc = chars_of(o.path.as_str());
        let i = match self.find(&pc) {
            None => return Err(RvError::Path(crate::errors::PathError::DoesNotExist(o.path.clone()))),
            Some(i) => i,
        };
        assert(self.ents()[i as int] == self.entries@[i as int]@);
        let ws = {
            let en = crate::entries::Entries {
                fs: &*self,
                root: self.entries[i].clone_entry(),
                dirs: false,
                files: false,
                follow: false,
                min_depth: 0,
                max_depth: usize::MAX,
                max_descriptors: 50,
                dirs_first: false,
                files_first: false,
                sort_by_name: false,
                contents_first: false,
                sort: None,
            };
            let en = en.contents_first().max_depth(
                if o.recursive {
                    usize::MAX
                } else {
                    0
                },
            ).follow(o.follow).dirs_first();
            assert(en@ == chmod_walk(self.ents(), self.ents()[i as int], o@));
            en.walk_all()
        };
        Ok(ws)
    }

    /// Applies a permission change.
    pub(crate) fn chmod_exec(&mut self, o: &ChmodOpts) -> (r: Result<(), RvError>)
        requires
            old(self).wf(),
        ensures
            final(self).wf(),
            final(self).cwd@ == old(self).cwd@,
            final(self).env@ == old(self).env@,
            final(self).dats() == old(self).dats(),
            match lookup(old(self).ents(), o.path@) {
                None => (r matches Err(x) && x@ == RvErr::DoesNotExist(o.path@)) && final(
                    self).ents() == old(self).ents(),
                Some(root) => {
                    let out = chmod_run(old(self).ents(), traverse(chmod_walk(old(self).ents(), root, o@)), o@);
                    &&& final(self).ents() == out.0
                    &&& match out.1 {
                        None => r is Ok,
                        Some(e) => (r matches Err(x) && x@ == e),
                    }
                },
            },
    {
        let ws = match self.chmod_events(o) {
            Err(e) => return Err(e),
            Ok(ws) => ws,
        };
        let ghost es0 = self.ents();
        let ghost wv = walked_view(ws@);
        let ghost out = chmod_run(es0, wv, o@);
        assert(wv.skip(0) =~= wv);
        let mut j: usize = 0;
        while j < ws.len()
            invariant
                self.wf(),
                self.cwd@ == old(self).cwd@,
                self.env@ == old(self).env@,
                self.dats() == old(self).dats(),
                es0 == old(self).ents(),
                lookup(es0, o.path@) is Some,
                out == chmod_run(es0, traverse(chmod_walk(es0, lookup(es0, o.path@)->Some_0, o@)), o@),
                j <= ws.len(),
                wv == walked_view(ws@),
                chmod_run(self.ents(), wv.skip(j as int), o@) == out,
            decreases ws.len() - j,
        {
            assert(wv.skip(j as int)[0] == ws@[j as int]@);
            assert(wv.skip(j as int).drop_first() =~= wv.skip(j + 1));
            match self.chmod_step_exec(&ws[j], o) {
                Ok(()) => {},
                Err(e) => return Err(e),
            }
            j = j + 1;
        }
        assert(wv.skip(j as int) =~= Seq::<WalkV>::empty());
        Ok(())
    }

    /// Returns a builder for changing the permissions of `path` and, by default, all it holds.
    ///
    /// ### Errors
    /// * PathError::Empty when the path is empty
    pub fn chmod_b(&self, path: &str) -> (r: Result<Chmod, RvError>)
        ensures
            match self.abs_of(path@) {
                Err(e) => (r matches Err(x) && x@ == e),
                Ok(a) => (r matches Ok(c) && c.opts.path@ == a && c.opts.dirs == 0 && c.opts.files
                    == 0 && !c.opts.follow && c.opts.recursive && c.opts.sym@.len() == 0),
            },
    {
        let a = match self.abs(path) {
            Ok(a) => a,
            Err(e) => return Err(e),
        };
        Ok(
            Chmod {
                opts: ChmodOpts {
                    path: a,
                    dirs: 0,
                    files: 0,
                    follow: false,
                    recursive: true,
                    sym: String::new(),
                },
            },
        )
    }

    /// Sets the permissions of `path` and all it holds to `mode`; links are not followed.
    ///
    /// ### Errors
    /// * PathError::Empty when the path is empty
    /// * PathError::DoesNotExist when the path doesn't exist
    pub fn chmod(&mut self, path: &str, mode: u32) -> (r: Result<(), RvError>)
        requires
            old(self).wf(),
        ensures
            final(self).wf(),
            final(self).cwd@ == old(self).cwd@,
            final(self).env@ == old(self).env@,
            final(self).dats() == old(self).dats(),
            match old(self).abs_of(path@) {
                Err(e) => (r matches Err(x) && x@ == e) && final(self).ents() == old(self).ents(),
                Ok(a) => match lookup(old(self).ents(), a) {
                    None => (r matches Err(x) && x@ == RvErr::DoesNotExist(a)) && final(
                        self).ents() == old(self).ents(),
                    Some(root) => {
                        let o = ChmodV {
                            path: a,
                            dirs: mode,
                            files: mode,
                            follow: false,
                            recursive: true,
                            sym: Seq::empty(),
                        };
                        let out = chmod_run(old(self).ents(), traverse(chmod_walk(old(self).ents(), root, o)), o);
                        &&& final(self).ents() == out.0
                        &&& match out.1 {
                            None => r is Ok,
                            Some(e) => (r matches Err(x) && x@ == e),
                        }
                    },
                },
            },
    {
        let c = match self.chmod_b(path) {
            Ok(c) => c,
            Err(e) => return Err(e),
        };
        let c = c.all(mode);
        assert(c.opts.sym@ =~= Seq::<char>::empty());
        c.exec(self)
    }
}

/// Setting the permissions of the entry at `path` and all it holds to the octal `mode`: the
/// entries after and the error met.
pub open spec fn chmod_spec(
    cwd: Seq<char>,
    env: Seq<(Seq<char>, Seq<char>)>,
    es: Seq<MemEntryV>,
    path: Seq<char>,
    mode: u32,
) -> (Seq<MemEntryV>, Option<RvErr>) {
    match crate::memfs::abs_spec(cwd, env, path) {
        Err(e) => (es, Some(e)),
        Ok(a) => match lookup(es, a) {
            None => (es, Some(RvErr::DoesNotExist(a))),
            Some(root) => {
                let o = ChmodV {
                    path: a,
                    dirs: mode,
                    files: mode,
                    follow: false,
                    recursive: true,
                    sym: Seq::empty(),
                };
                chmod_run(es, traverse(chmod_walk(es, root, o)), o)
            },
        },
    }
}

impl Memfs {
    /// Creates an empty file, like `mkfile`, then sets its permissions to `mode`; returns its
    /// absolute path.
    ///
    /// ### Errors
    /// * PathError::Empty when the path is empty
    /// * PathError::DoesNotExist when the parent doesn't exist
    /// * PathError::IsNotDir when the parent is not a directory
    /// * PathError::IsNotFile when the path exists and is not a file
    pub fn mkfile_m(&mut self, path: &str, mode: u32) -> (r: Result<String, RvError>)
        requires
            old(self).wf(),
        ensures
            final(self).wf(),
            final(self).cwd@ == old(self).cwd@,
            final(self).env@ == old(self).env@,
            match old(self).abs_of(path@) {
                Err(e) => (r matches Err(x) && x@ == e) && final(self).ents() == old(self).ents()
                    && final(self).dats() == old(self).dats(),
                Ok(a) => match crate::memfs::add_spec(
                    old(self).ents(),
                    old(self).dats(),
                    crate::memfs::file_entry(a),
                ) {
                    Err(e) => (r matches Err(x) && x@ == e) && final(self).ents() == old(
                        self).ents() && final(self).dats() == old(self).dats(),
                    Ok((es, ds)) => {
                        let out = chmod_spec(old(self).cwd@, old(self).envv(), es, a, mode);
                        &&& final(self).ents() == out.0
                        &&& final(self).dats() == ds
                        &&& match out.1 {
                            None => (r matches Ok(p) && p@ == a),
                            Some(e) => (r matches Err(x) && x@ == e),
                        }
                    },
                },
            },
    {
        let p = match self.mkfile(path) {
            Ok(p) => p,
            Err(e) => return Err(e),
        };
        match self.chmod(p.as_str(), mode) {
            Ok(()) => Ok(p),
            Err(e) => Err(e),
        }
    }
}

/// An octal mode takes precedence over the symbolic one.
pub proof fn lemma_octal_first(e: EntryV, octal: u32, sym: Seq<char>)
    requires
        octal != 0,
    ensures
        mode_spec(e, octal, sym) == Ok::<u32, RvErr>(octal),
{
}

/// Setting the permissions of a file to a non-zero octal mode gives it that mode, with the
/// file type bits.
pub proof fn lemma_chmod_file(es: Seq<MemEntryV>, x: MemEntryV, o: ChmodV)
    requires
        x.entry.file,
        !x.entry.dir,
        !x.entry.link,
        lookup(es, x.entry.path) == Some(x),
        o.files != 0,
    ensures
        ({
            let out = chmod_run(es, traverse(chmod_walk(es, x, o)), o);
            &&& out.1 is None
            &&& lookup(out.0, x.entry.path) matches Some(y) && y.entry.mode == if o.files == x.entry.mode {
                x.entry.mode
            } else {
                mode_calc(false, true, false, Some(o.files))
            }
        }),
{
    let w = chmod_walk(es, x, o);
    let ev = traverse(w);
    assert(crate::entry::follow_mem(x, o.follow) == x);
    assert(ev =~= seq![WalkV::Entry(x)]);
    assert(ev.drop_first() =~= Seq::<WalkV>::empty());
    let k = find_ent(es, x.entry.path, 0);
    lemma_find_ent(es, x.entry.path, 0);
    assert(mode_spec(x.entry, o.files, o.sym) == Ok::<u32, RvErr>(o.files));
    let es2 = if o.files != x.entry.mode {
        set_mode_at(es, x.entry.path, o.files)
    } else {
        es
    };
    assert(chmod_step(es, ev[0], o) == Ok::<Seq<MemEntryV>, RvErr>(es2));
    assert(chmod_run(es2, ev.drop_first(), o) == (es2, None::<RvErr>));
    assert(chmod_run(es, ev, o) == (es2, None::<RvErr>));
    if o.files != x.entry.mode {
        assert forall|j: int| 0 <= j < k implies (#[trigger] es2[j]).entry.path != x.entry.path by {
            assert(es2[j] == es[j]);
        }
        lemma_find_ent_is(es2, x.entry.path, k);
    }
}

} // verus!
