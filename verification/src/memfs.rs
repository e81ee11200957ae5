//! A purely memory based virtual filesystem.
//!
//! The filesystem is a list of entries, each with a unique absolute path, and a list of file
//! contents keyed by path. Directories hold the names of their entries.
use vstd::prelude::*;
use crate::entry::{MemEntryV, MemfsEntry, VfsEntry, EntryV, mode_calc, names_view};
use crate::errors::{PathError, RvErr, RvError};
use crate::expand::{count_char, env_view, expand_chars, expand_spec, lemma_expand_plain};
use crate::path::{
    PComp, Comp, base_chars, base_spec, clean_chars, clean_comps, clean_spec, components,
    components_of, cview, dir_chars, dir_spec, dot, find_dslash, leading_dot, scan, seg_comps, is_protocol, join, join_comps, lower, lower_seq,
    mash_chars, mash_spec, trim_protocol_chars, trim_protocol_spec,
};
use crate::path_lemmas::{
    clean_form, joinable, lemma_clean_comps_form, lemma_clean_idempotent, lemma_clean_path,
    lemma_components_form, lemma_dir_clean, lemma_join_clean_abs, lemma_join_components,
    lemma_join_shape, lemma_mash_join, valid_name,
};
use crate::strs::{chars_eq, chars_of, string_of};

verus! {

/// The contents of a file of the memory filesystem.
#[derive(Debug)]
pub struct MemfsData {
    pub path: String,
    pub data: Vec<u8>,
}

/// A purely memory based virtual filesystem.
#[derive(Debug)]
pub struct Memfs {
    pub cwd: String,
    pub root: String,
    pub entries: Vec<MemfsEntry>,
    pub data: Vec<MemfsData>,
    pub env: Vec<(String, String)>,
}

/// The index of the first entry at or after `i` with path `p`, or -1.
pub open spec fn find_ent(es: Seq<MemEntryV>, p: Seq<char>, i: int) -> int
    decreases es.len() - i,
{
    if i < 0 || i >= es.len() {
        -1
    } else if es[i].entry.path == p {
        i
    } else {
        find_ent(es, p, i + 1)
    }
}

/// The entry with path `p`.
pub open spec fn lookup(es: Seq<MemEntryV>, p: Seq<char>) -> Option<MemEntryV> {
    let k = find_ent(es, p, 0);
    if k < 0 {
        None
    } else {
        Some(es[k])
    }
}

/// The index of the first contents at or after `i` with path `p`, or -1.
pub open spec fn find_dat(ds: Seq<(Seq<char>, Seq<u8>)>, p: Seq<char>, i: int) -> int
    decreases ds.len() - i,
{
    if i < 0 || i >= ds.len() {
        -1
    } else if ds[i].0 == p {
        i
    } else {
        find_dat(ds, p, i + 1)
    }
}

/// The contents of the file with path `p`.
pub open spec fn lookup_dat(ds: Seq<(Seq<char>, Seq<u8>)>, p: Seq<char>) -> Option<Seq<u8>> {
    let k = find_dat(ds, p, 0);
    if k < 0 {
        None
    } else {
        Some(ds[k].1)
    }
}

/// Contents set for `p`: replaced where present, else added.
pub open spec fn set_dat(ds: Seq<(Seq<char>, Seq<u8>)>, p: Seq<char>, b: Seq<u8>) -> Seq<
    (Seq<char>, Seq<u8>),
> {
    let k = find_dat(ds, p, 0);
    if k < 0 {
        ds.push((p, b))
    } else {
        ds.update(k, (p, b))
    }
}

/// Contents removed for `p`.
pub open spec fn remove_dat(ds: Seq<(Seq<char>, Seq<u8>)>, p: Seq<char>) -> Seq<
    (Seq<char>, Seq<u8>),
> {
    let k = find_dat(ds, p, 0);
    if k < 0 {
        ds
    } else {
        ds.remove(k)
    }
}

pub open spec fn root_path() -> Seq<char> {
    seq!['/']
}

/// The path reached from `curr` by the components `cs[k..]` of a relative path: `.` stays, `..`
/// goes to the parent, the rest is mashed onto where the walk stands.
pub open spec fn abs_walk(curr: Seq<char>, cs: Seq<PComp>, k: int) -> Result<Seq<char>, RvErr>
    decreases cs.len() - k,
{
    if k < 0 || k >= cs.len() {
        Ok(curr)
    } else {
        match cs[k] {
            PComp::Cur => abs_walk(curr, cs, k + 1),
            PComp::Parent => if curr == root_path() {
                Err(RvErr::ParentNotFound(curr))
            } else {
                match dir_spec(curr) {
                    None => Err(RvErr::ParentNotFound(curr)),
                    Some(d) => abs_walk(d, cs, k + 1),
                }
            },
            _ => Ok(mash_spec(curr, join(cs.subrange(k, cs.len() as int)))),
        }
    }
}

/// The absolute form of `path`: home and variables expanded, protocol trimmed, cleaned, and
/// resolved against the working directory `cwd` when relative.
pub open spec fn abs_spec(cwd: Seq<char>, env: Seq<(Seq<char>, Seq<char>)>, path: Seq<char>) -> Result<
    Seq<char>,
    RvErr,
> {
    if path.len() == 0 {
        Err(RvErr::Empty)
    } else {
        match expand_spec(path, env) {
            Err(e) => Err(e),
            Ok(x) => {
                let c = clean_spec(trim_protocol_spec(x));
                if c.len() > 0 && c[0] == '/' {
                    Ok(c)
                } else {
                    abs_walk(cwd, components(c), 0)
                }
            },
        }
    }
}

/// The absolute form of `path` as characters, resolved against `cwd` with the variables of `env`.
pub(crate) fn abs_chars_in(path: &str, cwd: &str, env: &Vec<(String, String)>) -> (r: Result<
    Vec<char>,
    RvError,
>)
    ensures
        match r {
            Ok(p) => abs_spec(cwd@, env_view(env@), path@) == Ok::<Seq<char>, RvErr>(p@),
            Err(e) => abs_spec(cwd@, env_view(env@), path@) == Err::<Seq<char>, RvErr>(e@),
        },
{
    let p = chars_of(path);
    if p.len() == 0 {
        return Err(RvError::Path(PathError::Empty));
    }
    let x = match expand_chars(&p, env) {
        Ok(x) => x,
        Err(e) => return Err(e),
    };
    let t = trim_protocol_chars(&x);
    let c = clean_chars(&t);
    if c.len() > 0 && c[0] == '/' {
        Ok(c)
    } else {
        let cs = components_of(&c);
        Memfs::abs_walk_exec(chars_of(cwd), &cs, 0)
    }
}

/// Returns `path` in absolute, clean form, with `~` and variables expanded from `env` and a
/// relative path resolved against the working directory `cwd`; nothing is looked up.
///
/// ### Errors
/// * PathError::Empty when the path is empty
/// * PathError::ParentNotFound when `..` goes above the root
/// * the errors of `expand_in`
pub fn abs_in(path: &str, cwd: &str, env: &Vec<(String, String)>) -> (r: Result<String, RvError>)
    ensures
        match r {
            Ok(p) => abs_spec(cwd@, env_view(env@), path@) == Ok::<Seq<char>, RvErr>(p@),
            Err(e) => abs_spec(cwd@, env_view(env@), path@) == Err::<Seq<char>, RvErr>(e@),
        },
{
    match abs_chars_in(path, cwd, env) {
        Ok(p) => Ok(string_of(&p)),
        Err(e) => Err(e),
    }
}

/// Whether resolving `path` reads the working directory: only when the path expands and,
/// cleaned, is relative.
pub open spec fn reads_cwd(env: Seq<(Seq<char>, Seq<char>)>, path: Seq<char>) -> bool {
    &&& path.len() > 0
    &&& expand_spec(path, env) is Ok
    &&& !(resolved(env, path).len() > 0 && resolved(env, path)[0] == '/')
}

/// Returns whether resolving `path`, with the variables of `env`, reads the working directory.
pub fn needs_cwd(path: &str, env: &Vec<(String, String)>) -> (r: bool)
    ensures
        r == reads_cwd(env_view(env@), path@),
{
    let p = chars_of(path);
    if p.len() == 0 {
        return false;
    }
    let x = match expand_chars(&p, env) {
        Ok(x) => x,
        Err(_) => return false,
    };
    let t = trim_protocol_chars(&x);
    let c = clean_chars(&t);
    !(c.len() > 0 && c[0] == '/')
}

/// Resolving a path that does not read the working directory gives the same against any.
pub proof fn lemma_abs_cwd_unused(c1: Seq<char>, c2: Seq<char>, env: Seq<(Seq<char>, Seq<char>)>, p: Seq<char>)
    requires
        !reads_cwd(env, p),
    ensures
        abs_spec(c1, env, p) == abs_spec(c2, env, p),
{
}

/// Where `find_dslash` stops: nowhere, or at a `//` at or after `i`.
proof fn lemma_find_dslash(s: Seq<char>, i: int)
    requires
        0 <= i,
    ensures
        find_dslash(s, i) == -1 || (i <= find_dslash(s, i) && find_dslash(s, i) + 1 < s.len()),
    decreases s.len() - i,
{
    if i + 1 < s.len() && !(s[i] == '/' && s[i + 1] == '/') {
        lemma_find_dslash(s, i + 1);
    }
}

/// An absolute, clean path holding neither `~` nor `$` is its own absolute form, whatever the
/// working directory and environment.
pub proof fn lemma_abs_fixed(cwd: Seq<char>, env: Seq<(Seq<char>, Seq<char>)>, a: Seq<char>)
    requires
        a.len() > 0,
        a[0] == '/',
        clean_spec(a) == a,
        count_char(a, '~') == 0,
        count_char(a, '$') == 0,
    ensures
        abs_spec(cwd, env, a) == Ok::<Seq<char>, RvErr>(a),
{
    lemma_expand_plain(a, env);
    lemma_find_dslash(a, 0);
    let i = find_dslash(a, 0);
    if i >= 0 {
        let p = a.subrange(0, i + 2);
        let l = lower_seq(p);
        assert(l[0] == lower(p[0]));
        assert(l[0] == '/');
        assert(!is_protocol(p));
    }
    assert(trim_protocol_spec(a) == a);
}

/// Walking a relative clean path, or `.`, from an absolute clean directory reaches an absolute
/// clean path.
#[verifier::spinoff_prover]
proof fn lemma_abs_walk_clean(curr: Seq<char>, cs: Seq<PComp>, k: int)
    requires
        clean_spec(curr) == curr,
        curr.len() > 0,
        curr[0] == '/',
        cs == seq![PComp::Cur] || (clean_form(cs) && (cs.len() == 0 || !(cs[0] is Root))),
        0 <= k,
        abs_walk(curr, cs, k) is Ok,
    ensures
        clean_spec(abs_walk(curr, cs, k)->Ok_0) == abs_walk(curr, cs, k)->Ok_0,
        abs_walk(curr, cs, k)->Ok_0.len() > 0,
        abs_walk(curr, cs, k)->Ok_0[0] == '/',
    decreases cs.len() - k,
{
    if k < cs.len() {
        match cs[k] {
            PComp::Cur => {
                lemma_abs_walk_clean(curr, cs, k + 1);
            },
            PComp::Parent => {
                lemma_dir_clean(curr);
                lemma_abs_walk_clean(dir_spec(curr)->Some_0, cs, k + 1);
            },
            _ => {
                assert(cs != seq![PComp::Cur]);
                let n = cs.subrange(k, cs.len() as int);
                assert(!(cs[k] is Root)) by {
                    if k == 0 {
                    } else {
                        assert(!(cs[k] is Root));
                    }
                }
                assert(cs[k] is Normal);
                assert forall|i: int| 0 <= i < n.len() implies #[trigger] n[i] is Normal && valid_name(
                    n[i]->Normal_0,
                ) by {
                    assert(n[i] == cs[k + i]);
                    if cs[k + i] is Parent {
                        assert(cs[k] is Parent);
                    }
                    if k + i == 0 {
                        assert(!(cs[0] is Root));
                    }
                }
                assert(joinable(n));
                lemma_mash_join(curr, n);
                assert(curr != dot());
                lemma_clean_path(curr);
                let cc = components(curr);
                assert(cc[0] is Root);
                let st = cc + n;
                assert(clean_form(st)) by {
                    assert forall|i: int, j: int|
                        0 <= i < j < st.len() && #[trigger] st[j] is Parent implies #[trigger] st[i] is Parent by {
                        if j >= cc.len() {
                            assert(st[j] == n[j - cc.len()]);
                        } else {
                            assert(st[j] == cc[j]);
                            assert(cc[0] is Parent);
                        }
                    }
                    assert forall|i: int| 0 <= i < st.len() implies !(#[trigger] st[i] is Cur) && (i > 0
                        ==> !(st[i] is Root)) && (st[i] is Normal ==> valid_name(st[i]->Normal_0)) by {
                        if i >= cc.len() {
                            assert(st[i] == n[i - cc.len()]);
                        } else {
                            assert(st[i] == cc[i]);
                        }
                    }
                }
                assert(st[0] is Root);
                lemma_join_clean_abs(st);
            },
        }
    }
}

/// A path written in absolute, clean form.
pub open spec fn clean_abs(p: Seq<char>) -> bool {
    &&& p.len() > 0
    &&& p[0] == '/'
    &&& clean_spec(p) == p
}

/// The root is an absolute clean path.
pub proof fn lemma_root_clean()
    ensures
        clean_abs(root_path()),
{
    let st = seq![PComp::Root];
    assert(crate::path_lemmas::clean_form(st));
    lemma_join_clean_abs(st);
    assert(join(st) =~= root_path()) by {
        assert(st.drop_last() =~= Seq::<PComp>::empty());
    }
}

/// Against an absolute clean working directory, the absolute form of a path is an absolute
/// clean path.
pub proof fn lemma_abs_clean(cwd: Seq<char>, env: Seq<(Seq<char>, Seq<char>)>, p: Seq<char>)
    requires
        clean_abs(cwd),
        abs_spec(cwd, env, p) is Ok,
    ensures
        clean_abs(abs_spec(cwd, env, p)->Ok_0),
{
    let a = abs_spec(cwd, env, p)->Ok_0;
    let x = expand_spec(p, env)->Ok_0;
    let t = trim_protocol_spec(x);
    let c = clean_spec(t);
    lemma_clean_idempotent(t);
    if c.len() > 0 && c[0] == '/' {
        assert(a == c);
    } else {
        lemma_components_form(t);
        lemma_clean_comps_form(components(t));
        let st = clean_comps(components(t));
        if st.len() == 0 {
            assert(c == dot());
            assert(leading_dot(c));
            assert(components(c) == seq![PComp::Cur] + scan(c, 0, Seq::empty()));
            assert(scan(c, 0, Seq::empty()) == scan(c, 1, seq!['.'])) by {
                assert(c[0] == '.');
                assert(Seq::<char>::empty().push('.') =~= seq!['.']);
            }
            assert(seg_comps(seq!['.']) =~= Seq::<PComp>::empty()) by {
                assert(seq!['.'] =~= dot());
            }
            assert(components(c) =~= seq![PComp::Cur]);
        } else {
            lemma_join_components(st);
            lemma_join_shape(st);
            assert(components(c) == st);
        }
        lemma_abs_walk_clean(cwd, components(c), 0);
    }
}

/// Resolving an absolute form again gives it back, when the working directory is an absolute
/// clean path and the form holds neither `~` nor `$`.
#[verifier::spinoff_prover]
pub proof fn lemma_abs_idempotent(cwd: Seq<char>, env: Seq<(Seq<char>, Seq<char>)>, p: Seq<char>)
    requires
        clean_abs(cwd),
        abs_spec(cwd, env, p) is Ok,
        count_char(abs_spec(cwd, env, p)->Ok_0, '~') == 0,
        count_char(abs_spec(cwd, env, p)->Ok_0, '$') == 0,
    ensures
        abs_spec(cwd, env, abs_spec(cwd, env, p)->Ok_0) == abs_spec(cwd, env, p),
{
    lemma_abs_clean(cwd, env, p);
    lemma_abs_fixed(cwd, env, abs_spec(cwd, env, p)->Ok_0);
}

/// How many `..` lead the components `cs[k..]`, a `.` among them passed over.
pub open spec fn lead_parents(cs: Seq<PComp>, k: int) -> nat
    decreases cs.len() - k,
{
    if 0 <= k < cs.len() && cs[k] is Parent {
        1 + lead_parents(cs, k + 1)
    } else if 0 <= k < cs.len() && cs[k] is Cur {
        lead_parents(cs, k + 1)
    } else {
        0
    }
}

/// A path expanded from `env`, with its protocol trimmed, and cleaned: what `abs_spec` resolves.
pub open spec fn resolved(env: Seq<(Seq<char>, Seq<char>)>, path: Seq<char>) -> Seq<char> {
    clean_spec(trim_protocol_spec(expand_spec(path, env)->Ok_0))
}

/// Walking from an absolute clean directory fails, at the root, exactly when more `..` lead the
/// rest of the components than the directory lies below the root.
proof fn lemma_abs_walk_parents(curr: Seq<char>, cs: Seq<PComp>, k: int)
    requires
        clean_abs(curr),
        0 <= k,
    ensures
        (abs_walk(curr, cs, k) is Err) == (lead_parents(cs, k) >= components(curr).len()),
        abs_walk(curr, cs, k) is Err ==> abs_walk(curr, cs, k) == Err::<Seq<char>, RvErr>(
            RvErr::ParentNotFound(root_path()),
        ),
    decreases cs.len() - k,
{
    assert(curr != dot());
    lemma_clean_path(curr);
    let pc = components(curr);
    assert(pc[0] is Root);
    if k < cs.len() {
        match cs[k] {
            PComp::Cur => {
                lemma_abs_walk_parents(curr, cs, k + 1);
            },
            PComp::Parent => {
                assert(lead_parents(cs, k) == 1 + lead_parents(cs, k + 1));
                if curr == root_path() {
                    lemma_root_clean();
                    let st = seq![PComp::Root];
                    lemma_join_clean_abs(st);
                    assert(join(st) =~= root_path()) by {
                        assert(st.drop_last() =~= Seq::<PComp>::empty());
                    }
                    assert(pc.len() == 1);
                } else {
                    crate::path_lemmas::lemma_dir_base(curr);
                    lemma_dir_clean(curr);
                    let d = dir_spec(curr)->Some_0;
                    assert(pc.len() >= 2);
                    let dc = pc.drop_last();
                    assert(clean_form(dc)) by {
                        assert forall|i: int, j: int|
                            0 <= i < j < dc.len() && #[trigger] dc[j] is Parent implies #[trigger] dc[i] is Parent by {
                            assert(pc[j] is Parent);
                            assert(pc[i] == dc[i]);
                        }
                    }
                    assert(dc[0] is Root);
                    lemma_join_clean_abs(dc);
                    assert(components(d) == dc);
                    lemma_abs_walk_parents(d, cs, k + 1);
                    assert(abs_walk(curr, cs, k) == abs_walk(d, cs, k + 1));
                }
            },
            _ => {
                assert(abs_walk(curr, cs, k) is Ok);
                assert(lead_parents(cs, k) == 0);
            },
        }
    } else {
        assert(lead_parents(cs, k) == 0);
    }
}

/// Against an absolute clean working directory, a non-empty path whose expansion succeeds has an
/// absolute form, absolute and clean, unless the path it resolves to is relative and more `..`
/// lead it than the working directory lies below the root: then, and only then, resolving fails
/// with `ParentNotFound` at the root.
pub proof fn lemma_abs_parent(cwd: Seq<char>, env: Seq<(Seq<char>, Seq<char>)>, p: Seq<char>)
    requires
        clean_abs(cwd),
        p.len() > 0,
        expand_spec(p, env) is Ok,
    ensures
        (abs_spec(cwd, env, p) is Err) == (!(resolved(env, p).len() > 0 && resolved(env, p)[0]
            == '/') && lead_parents(components(resolved(env, p)), 0) >= components(cwd).len()),
        abs_spec(cwd, env, p) is Err ==> abs_spec(cwd, env, p) == Err::<Seq<char>, RvErr>(
            RvErr::ParentNotFound(root_path()),
        ),
        abs_spec(cwd, env, p) is Ok ==> clean_abs(abs_spec(cwd, env, p)->Ok_0),
{
    let c = resolved(env, p);
    if !(c.len() > 0 && c[0] == '/') {
        lemma_abs_walk_parents(cwd, components(c), 0);
    }
    if abs_spec(cwd, env, p) is Ok {
        lemma_abs_clean(cwd, env, p);
    }
}

/// In a well-formed filesystem, the absolute form of an absolute form is itself, when it holds
/// neither `~` nor `$`.
pub proof fn lemma_memfs_abs_idempotent(fs: Memfs, p: Seq<char>)
    requires
        fs.wf(),
        fs.abs_of(p) is Ok,
        count_char(fs.abs_of(p)->Ok_0, '~') == 0,
        count_char(fs.abs_of(p)->Ok_0, '$') == 0,
    ensures
        fs.abs_of(fs.abs_of(p)->Ok_0) == fs.abs_of(p),
{
    lemma_abs_idempotent(fs.cwd@, fs.envv(), p);
}

/// Every name that the entry, a directory, holds is non-empty.
pub open spec fn names_nonempty(e: MemEntryV) -> bool {
    match e.files {
        Some(f) => forall|k: int| 0 <= k < f.len() ==> (#[trigger] f[k]).len() > 0,
        None => true,
    }
}

/// Entry paths and content paths are unique, the root directory exists, and every name a
/// directory holds is non-empty.
pub open spec fn wf_parts(es: Seq<MemEntryV>, ds: Seq<(Seq<char>, Seq<u8>)>) -> bool {
    &&& forall|i: int, j: int| 0 <= i < j < es.len() ==> es[i].entry.path != es[j].entry.path
    &&& forall|i: int, j: int| 0 <= i < j < ds.len() ==> ds[i].0 != ds[j].0
    &&& lookup(es, root_path()) matches Some(r) && r.entry.dir
    &&& forall|i: int| 0 <= i < es.len() ==> names_nonempty(#[trigger] es[i])
}

impl Memfs {
    /// The model of the entries.
    pub open spec fn ents(&self) -> Seq<MemEntryV> {
        self.entries@.map_values(|e: MemfsEntry| e@)
    }

    /// The model of the file contents.
    pub open spec fn dats(&self) -> Seq<(Seq<char>, Seq<u8>)> {
        self.data@.map_values(|d: MemfsData| (d.path@, d.data@))
    }

    /// The model of the environment.
    pub open spec fn envv(&self) -> Seq<(Seq<char>, Seq<char>)> {
        env_view(self.env@)
    }

    /// The absolute form of `path` in this filesystem.
    pub open spec fn abs_of(&self, path: Seq<char>) -> Result<Seq<char>, RvErr> {
        abs_spec(self.cwd@, self.envv(), path)
    }

    /// The entry at the absolute form of `path`.
    pub open spec fn entry_at(&self, path: Seq<char>) -> Option<MemEntryV> {
        match self.abs_of(path) {
            Ok(a) => lookup(self.ents(), a),
            Err(_) => None,
        }
    }

    /// Well-formedness: entry paths and content paths are unique, the root directory exists,
    /// every name a directory holds is non-empty, and the working directory is an absolute clean
    /// path.
    pub open spec fn wf(&self) -> bool {
        &&& self.root@ == root_path()
        &&& wf_parts(self.ents(), self.dats())
        &&& clean_abs(self.cwd@)
    }

    /// Creates a new filesystem holding only the root directory, with an empty environment.
    pub fn new() -> (r: Memfs)
        ensures
            r.wf(),
            r.cwd@ == root_path(),
            r.ents().len() == 1,
            r.ents()[0].entry.path == root_path(),
            r.ents()[0].entry.dir,
            r.dats().len() == 0,
            r.env@.len() == 0,
    {
        Memfs::with_env(Vec::new())
    }

    /// Creates a new filesystem holding only the root directory, expanding `~` and variables with
    /// the given environment.
    pub fn with_env(env: Vec<(String, String)>) -> (r: Memfs)
        ensures
            r.wf(),
            r.cwd@ == root_path(),
            r.ents().len() == 1,
            r.ents()[0].entry.path == root_path(),
            r.ents()[0].entry.dir,
            r.dats().len() == 0,
            r.env@ == env@,
    {
        let root = root_string();
        let e = MemfsEntry::opts(root.as_str()).build();
        let mut entries: Vec<MemfsEntry> = Vec::new();
        entries.push(e);
        let r = Memfs { cwd: root_string(), root: root, entries, data: Vec::new(), env };
        proof {
            lemma_root_clean();
        }
        assert(r.ents()[0] == e@);
        assert(find_ent(r.ents(), root_path(), 0) == 0);
        assert(r.dats() =~= Seq::<(Seq<char>, Seq<u8>)>::empty());
        r
    }

    /// Returns the index of the entry with path `p`.
    pub(crate) fn find(&self, p: &Vec<char>) -> (r: Option<usize>)
        ensures
            match r {
                Some(i) => i < self.entries.len() && find_ent(self.ents(), p@, 0) == i,
                None => find_ent(self.ents(), p@, 0) == -1,
            },
    {
        let mut i: usize = 0;
        while i < self.entries.len()
            invariant
                i <= self.entries.len(),
                find_ent(self.ents(), p@, 0) == find_ent(self.ents(), p@, i as int),
            decreases self.entries.len() - i,
        {
            let c = chars_of(self.entries[i].path.as_str());
            assert(self.ents()[i as int] == self.entries@[i as int]@);
            if chars_eq(&c, p) {
                return Some(i);
            }
            i = i + 1;
        }
        None
    }

    /// Returns the index of the contents with path `p`.
    pub(crate) fn find_data(&self, p: &Vec<char>) -> (r: Option<usize>)
        ensures
            match r {
                Some(i) => i < self.data.len() && find_dat(self.dats(), p@, 0) == i,
                None => find_dat(self.dats(), p@, 0) == -1,
            },
    {
        let mut i: usize = 0;
        while i < self.data.len()
            invariant
                i <= self.data.len(),
                find_dat(self.dats(), p@, 0) == find_dat(self.dats(), p@, i as int),
            decreases self.data.len() - i,
        {
            let c = chars_of(self.data[i].path.as_str());
            assert(self.dats()[i as int] == (self.data@[i as int].path@, self.data@[i as int].data@));
            if chars_eq(&c, p) {
                return Some(i);
            }
            i = i + 1;
        }
        None
    }

    /// Walks the components `cs[k..]` of a relative path from `curr`.
    fn abs_walk_exec(start: Vec<char>, cs: &Vec<Comp>, k0: usize) -> (r: Result<Vec<char>, RvError>)
        requires
            k0 <= cs.len(),
        ensures
            match r {
                Ok(p) => abs_walk(start@, cview(cs@), k0 as int) == Ok::<Seq<char>, RvErr>(p@),
                Err(e) => abs_walk(start@, cview(cs@), k0 as int) == Err::<Seq<char>, RvErr>(e@),
            },
    {
        let mut curr = start;
        let ghost c0 = curr@;
        let mut k = k0;
        while k < cs.len()
            invariant
                k0 <= k <= cs.len(),
                c0 == start@,
                abs_walk(curr@, cview(cs@), k as int) == abs_walk(c0, cview(cs@), k0 as int),
            decreases cs.len() - k,
        {
            assert(cview(cs@)[k as int] == cs@[k as int]@);
            match &cs[k] {
                Comp::Cur => {
                    k = k + 1;
                },
                Comp::Parent => {
                    let rp = vec!['/'];
                    assert(rp@ =~= root_path());
                    if chars_eq(&curr, &rp) {
                        return Err(RvError::Path(PathError::ParentNotFound(string_of(&curr))));
                    }
                    match dir_chars(&curr) {
                        None => {
                            return Err(RvError::Path(PathError::ParentNotFound(string_of(&curr))));
                        },
                        Some(d) => {
                            curr = d;
                            k = k + 1;
                        },
                    }
                },
                _ => {
                    let rest = crate::path::comps_range(cs, k, cs.len());
                    let j = join_comps(&rest);
                    return Ok(mash_chars(&curr, &j));
                },
            }
        }
        Ok(curr)
    }

    /// The absolute form of `path` as characters.
    pub(crate) fn abs_chars(&self, path: &str) -> (r: Result<Vec<char>, RvError>)
        ensures
            match r {
                Ok(p) => self.abs_of(path@) == Ok::<Seq<char>, RvErr>(p@),
                Err(e) => self.abs_of(path@) == Err::<Seq<char>, RvErr>(e@),
            },
    {
        abs_chars_in(path, self.cwd.as_str(), &self.env)
    }

    /// Returns the path in absolute, clean form.
    ///
    /// * Expands `~` and environment variables
    /// * Resolves `.` and `..` against the current working directory
    /// * Does not depend on what exists
    ///
    /// ### Errors
    /// * PathError::Empty when the path is empty
    /// * PathError::ParentNotFound when `..` goes above the root
    pub fn abs(&self, path: &str) -> (r: Result<String, RvError>)
        ensures
            match r {
                Ok(p) => self.abs_of(path@) == Ok::<Seq<char>, RvErr>(p@),
                Err(e) => self.abs_of(path@) == Err::<Seq<char>, RvErr>(e@),
            },
    {
        match self.abs_chars(path) {
            Ok(p) => Ok(string_of(&p)),
            Err(e) => Err(e),
        }
    }

    /// Returns the current working directory.
    pub fn cwd(&self) -> (r: String)
        ensures
            r@ == self.cwd@,
    {
        self.cwd.clone()
    }

    /// Returns the root directory.
    pub fn root(&self) -> (r: String)
        requires
            self.wf(),
        ensures
            r@ == root_path(),
    {
        self.root.clone()
    }

    /// Returns the entry at `path`, if its absolute form resolves and it exists.
    fn entry_index(&self, path: &str) -> (r: Option<usize>)
        ensures
            match r {
                Some(i) => i < self.entries.len() && self.entry_at(path@) == Some(self.ents()[i as int]),
                None => self.entry_at(path@) is None,
            },
    {
        match self.abs_chars(path) {
            Err(_) => None,
            Ok(a) => self.find(&a),
        }
    }

    /// Returns true if the path exists.
    pub fn path_exists(&self, path: &str) -> (r: bool)
        ensures
            r == self.entry_at(path@) is Some,
    {
        self.entry_index(path).is_some()
    }

    /// Returns true if the path exists and is a directory; links to directories are directories.
    pub fn is_dir(&self, path: &str) -> (r: bool)
        ensures
            r == (self.entry_at(path@) matches Some(e) && e.entry.dir),
    {
        match self.entry_index(path) {
            Some(i) => self.entries[i].dir,
            None => false,
        }
    }

    /// Returns true if the path exists and is a file; links to files are files.
    pub fn is_file(&self, path: &str) -> (r: bool)
        ensures
            r == (self.entry_at(path@) matches Some(e) && e.entry.file),
    {
        match self.entry_index(path) {
            Some(i) => self.entries[i].file,
            None => false,
        }
    }

    /// Returns true if the path exists and is a symbolic link.
    pub fn is_symlink(&self, path: &str) -> (r: bool)
        ensures
            r == (self.entry_at(path@) matches Some(e) && e.entry.link),
    {
        match self.entry_index(path) {
            Some(i) => self.entries[i].link,
            None => false,
        }
    }

    /// Returns true if the path exists and is a symbolic link to a directory.
    pub fn is_symlink_dir(&self, path: &str) -> (r: bool)
        ensures
            r == (self.entry_at(path@) matches Some(e) && e.entry.link && e.entry.dir),
    {
        match self.entry_index(path) {
            Some(i) => self.entries[i].link && self.entries[i].dir,
            None => false,
        }
    }

    /// Returns true if the path exists and is a symbolic link to a file.
    pub fn is_symlink_file(&self, path: &str) -> (r: bool)
        ensures
            r == (self.entry_at(path@) matches Some(e) && e.entry.link && e.entry.file),
    {
        match self.entry_index(path) {
            Some(i) => self.entries[i].link && self.entries[i].file,
            None => false,
        }
    }

    /// Returns true if the path exists and any of its execute bits is set.
    pub fn is_exec(&self, path: &str) -> (r: bool)
        ensures
            r == (self.entry_at(path@) matches Some(e) && e.entry.mode & 0o111u32 != 0),
    {
        match self.entry_index(path) {
            Some(i) => self.entries[i].mode & 0o111u32 != 0,
            None => false,
        }
    }

    /// Returns true if the path exists and none of its write bits is set.
    pub fn is_readonly(&self, path: &str) -> (r: bool)
        ensures
            r == (self.entry_at(path@) matches Some(e) && e.entry.mode & 0o222u32 == 0),
    {
        match self.entry_index(path) {
            Some(i) => self.entries[i].mode & 0o222u32 == 0,
            None => false,
        }
    }
}

/// A fresh `/`.
fn root_string() -> (r: String)
    ensures
        r@ == root_path(),
{
    let v = vec!['/'];
    assert(v@ =~= root_path());
    string_of(&v)
}


/// `find_ent` finds the first entry with the path, at or after `i`.
pub proof fn lemma_find_ent(es: Seq<MemEntryV>, p: Seq<char>, i: int)
    requires
        0 <= i,
    ensures
        ({
            let k = find_ent(es, p, i);
            (k == -1 && forall|j: int| i <= j < es.len() ==> (#[trigger] es[j]).entry.path != p) || (
            i <= k < es.len() && es[k].entry.path == p && forall|j: int|
                i <= j < k ==> (#[trigger] es[j]).entry.path != p)
        }),
    decreases es.len() - i,
{
    if i < es.len() && es[i].entry.path != p {
        lemma_find_ent(es, p, i + 1);
    }
}

/// An index that is the first with the path is what `find_ent` finds.
pub proof fn lemma_find_ent_is(es: Seq<MemEntryV>, p: Seq<char>, k: int)
    requires
        (k == -1 && forall|j: int| 0 <= j < es.len() ==> (#[trigger] es[j]).entry.path != p) || (0
            <= k < es.len() && es[k].entry.path == p && forall|j: int|
            0 <= j < k ==> (#[trigger] es[j]).entry.path != p),
    ensures
        find_ent(es, p, 0) == k,
{
    lemma_find_ent(es, p, 0);
    let f = find_ent(es, p, 0);
    if f != k {
        if f == -1 {
            assert(es[k].entry.path == p);
        } else if k == -1 {
            assert(es[f].entry.path == p);
        } else if f < k {
            assert(es[f].entry.path == p);
        } else {
            assert(es[k].entry.path == p);
        }
    }
}

/// `find_dat` finds the first contents with the path.
pub proof fn lemma_find_dat(ds: Seq<(Seq<char>, Seq<u8>)>, p: Seq<char>, i: int)
    requires
        0 <= i,
    ensures
        ({
            let k = find_dat(ds, p, i);
            (k == -1 && forall|j: int| i <= j < ds.len() ==> (#[trigger] ds[j]).0 != p) || (i <= k
                < ds.len() && ds[k].0 == p && forall|j: int| i <= j < k ==> (#[trigger] ds[j]).0 != p)
        }),
    decreases ds.len() - i,
{
    if i < ds.len() && ds[i].0 != p {
        lemma_find_dat(ds, p, i + 1);
    }
}

/// An index that is the first with the path is what `find_dat` finds.
pub proof fn lemma_find_dat_is(ds: Seq<(Seq<char>, Seq<u8>)>, p: Seq<char>, k: int)
    requires
        (k == -1 && forall|j: int| 0 <= j < ds.len() ==> (#[trigger] ds[j]).0 != p) || (0 <= k
            < ds.len() && ds[k].0 == p && forall|j: int| 0 <= j < k ==> (#[trigger] ds[j]).0 != p),
    ensures
        find_dat(ds, p, 0) == k,
{
    lemma_find_dat(ds, p, 0);
    let f = find_dat(ds, p, 0);
    if f != k {
        if f == -1 {
            assert(ds[k].0 == p);
        } else if k == -1 {
            assert(ds[f].0 == p);
        } else if f < k {
            assert(ds[f].0 == p);
        } else {
            assert(ds[k].0 == p);
        }
    }
}

/// Every normal component of a path has a non-empty name.
pub proof fn lemma_normal_nonempty(s: Seq<char>)
    ensures
        forall|i: int|
            0 <= i < components(s).len() ==> (#[trigger] components(s)[i] is Normal ==> components(
                s,
            )[i]->Normal_0.len() > 0),
{
    lemma_scan_normal_nonempty(s, 0, Seq::empty());
    let cs = components(s);
    let sc = crate::path::scan(s, 0, Seq::empty());
    assert forall|i: int| 0 <= i < cs.len() && #[trigger] cs[i] is Normal implies cs[i]->Normal_0.len()
        > 0 by {
        if s.len() > 0 && s[0] == '/' {
            assert(cs[i] == sc[i - 1]);
        } else if crate::path::leading_dot(s) {
            assert(cs[i] == sc[i - 1]);
        } else {
            assert(cs[i] == sc[i]);
        }
    }
}

proof fn lemma_scan_normal_nonempty(s: Seq<char>, i: int, cur: Seq<char>)
    ensures
        forall|k: int|
            0 <= k < crate::path::scan(s, i, cur).len() ==> (#[trigger] crate::path::scan(
                s,
                i,
                cur,
            )[k] is Normal ==> crate::path::scan(s, i, cur)[k]->Normal_0.len() > 0),
    decreases s.len() - i,
{
    let sc = crate::path::scan(s, i, cur);
    if i >= s.len() {
    } else if s[i] == '/' {
        lemma_scan_normal_nonempty(s, i + 1, Seq::empty());
        let a = crate::path::seg_comps(cur);
        let b = crate::path::scan(s, i + 1, Seq::empty());
        assert forall|k: int| 0 <= k < sc.len() && #[trigger] sc[k] is Normal implies sc[k]->Normal_0.len()
            > 0 by {
            if k < a.len() {
                assert(sc[k] == a[k]);
            } else {
                assert(sc[k] == b[k - a.len()]);
            }
        }
    } else {
        lemma_scan_normal_nonempty(s, i + 1, cur.push(s[i]));
    }
}

/// A path that has a parent has a non-empty base name.
pub proof fn lemma_base_nonempty(p: Seq<char>)
    requires
        dir_spec(p) is Some,
    ensures
        base_spec(p) matches Some(b) && b.len() > 0,
{
    let cs = components(p);
    lemma_normal_nonempty(p);
    assert(cs[cs.len() - 1] == cs.last());
}

/// The directory holding `name` too.
pub open spec fn add_name(e: MemEntryV, name: Seq<char>) -> MemEntryV {
    MemEntryV {
        files: Some(
            match e.files {
                Some(f) => if f.contains(name) {
                    f
                } else {
                    f.push(name)
                },
                None => seq![name],
            },
        ),
        ..e
    }
}

/// Adding an entry whose parent directory exists and that does not exist yet; an entry that
/// exists already is kept when it is of the same kind.
pub open spec fn add_spec(es: Seq<MemEntryV>, ds: Seq<(Seq<char>, Seq<u8>)>, e: MemEntryV) -> Result<
    (Seq<MemEntryV>, Seq<(Seq<char>, Seq<u8>)>),
    RvErr,
> {
    let p = e.entry.path;
    if p == root_path() {
        Ok((es, ds))
    } else {
        match dir_spec(p) {
            None => Err(RvErr::ParentNotFound(p)),
            Some(d) => match lookup(es, d) {
                None => Err(RvErr::DoesNotExist(d)),
                Some(pe) => if !pe.entry.dir {
                    Err(RvErr::IsNotDir(d))
                } else {
                    match lookup(es, p) {
                        Some(x) => if e.entry.file && !x.entry.file {
                            Err(RvErr::IsNotFile(p))
                        } else if e.entry.link && !x.entry.link {
                            Err(RvErr::IsNotSymlink(p))
                        } else if e.entry.dir && !x.entry.dir {
                            Err(RvErr::IsNotDir(p))
                        } else {
                            Ok((es, ds))
                        },
                        None => {
                            let ds2 = if !e.entry.link && e.entry.file {
                                set_dat(ds, p, Seq::empty())
                            } else {
                                ds
                            };
                            let k = find_ent(es, d, 0);
                            Ok(
                                (
                                    es.update(k, add_name(es[k], base_spec(p)->Some_0)).push(e),
                                    ds2,
                                ),
                            )
                        },
                    }
                },
            },
        }
    }
}

impl Memfs {
    /// Sets the contents of the file at `p`.
    pub(crate) fn set_data(&mut self, p: &Vec<char>, bytes: Vec<u8>)
        requires
            forall|i: int, j: int|
                0 <= i < j < old(self).dats().len() ==> old(self).dats()[i].0 != old(self).dats()[j].0,
        ensures
            final(self).dats() == set_dat(old(self).dats(), p@, bytes@),
            forall|i: int, j: int|
                0 <= i < j < final(self).dats().len() ==> final(self).dats()[i].0 != final(self).dats()[j].0,
            final(self).entries@ == old(self).entries@,
            final(self).cwd@ == old(self).cwd@,
            final(self).root@ == old(self).root@,
            final(self).env@ == old(self).env@,
    {
        let ghost d0 = self.dats();
        let item = MemfsData { path: string_of(p), data: bytes };
        match self.find_data(p) {
            Some(i) => {
                self.data.set(i, item);
                assert(self.dats() =~= d0.update(i as int, (p@, bytes@)));
            },
            None => {
                proof {
                    lemma_find_dat(d0, p@, 0);
                }
                self.data.push(item);
                assert(self.dats() =~= d0.push((p@, bytes@)));
            },
        }
        proof {
            lemma_find_dat(d0, p@, 0);
        }
    }

    /// Adds the entry when its parent directory exists and it does not exist yet; returns its
    /// path.
    ///
    /// ### Errors
    /// * PathError::DoesNotExist when the parent doesn't exist
    /// * PathError::IsNotDir when the parent is not a directory, or the path exists and is not a
    ///   directory where a directory is added
    /// * PathError::IsNotFile, IsNotSymlink when the path exists and is not of the kind added
    pub(crate) fn add_entry(&mut self, e: MemfsEntry) -> (r: Result<String, RvError>)
        requires
            old(self).wf(),
            names_nonempty(e@),
        ensures
            final(self).wf(),
            final(self).cwd@ == old(self).cwd@,
            final(self).env@ == old(self).env@,
            match add_spec(old(self).ents(), old(self).dats(), e@) {
                Ok((es, ds)) => (r matches Ok(p) && p@ == e@.entry.path) && final(self).ents() == es
                    && final(self).dats() == ds,
                Err(err) => (r matches Err(x) && x@ == err) && final(self).ents() == old(self).ents() && final(self).dats() == old(self).dats(),
            },
    {
        let p = chars_of(e.path.as_str());
        let rp = vec!['/'];
        assert(rp@ =~= root_path());
        if chars_eq(&p, &rp) {
            return Ok(e.path);
        }
        let d = match dir_chars(&p) {
            None => return Err(RvError::Path(PathError::ParentNotFound(string_of(&p)))),
            Some(d) => d,
        };
        let pi = match self.find(&d) {
            None => return Err(RvError::Path(PathError::DoesNotExist(string_of(&d)))),
            Some(i) => i,
        };
        assert(self.ents()[pi as int] == self.entries@[pi as int]@);
        if !self.entries[pi].dir {
            return Err(RvError::Path(PathError::IsNotDir(string_of(&d))));
        }
        match self.find(&p) {
            Some(xi) => {
                assert(self.ents()[xi as int] == self.entries@[xi as int]@);
                let x = &self.entries[xi];
                if e.file && !x.file {
                    return Err(RvError::Path(PathError::IsNotFile(string_of(&p))));
                } else if e.link && !x.link {
                    return Err(RvError::Path(PathError::IsNotSymlink(string_of(&p))));
                } else if e.dir && !x.dir {
                    return Err(RvError::Path(PathError::IsNotDir(string_of(&p))));
                }
                return Ok(e.path);
            },
            None => {},
        }
        let ghost es0 = self.ents();
        let ghost ds0 = self.dats();
        proof {
            lemma_base_nonempty(p@);
            lemma_find_ent(es0, p@, 0);
            lemma_find_ent(es0, d@, 0);
            lemma_find_ent(es0, root_path(), 0);
        }
        if !e.link && e.file {
            let empty: Vec<u8> = Vec::new();
            assert(empty@ =~= Seq::<u8>::empty());
            self.set_data(&p, empty);
        }
        let name = match base_chars(&p) {
            Some(b) => b,
            None => {
                assert(false);
                Vec::new()
            },
        };
        let name_s = string_of(&name);
        let mut pe = self.entries[pi].clone_entry();
        let added = pe.add(name_s.as_str());
        let ghost pev = pe@;
        assert(pev == add_name(es0[pi as int], name@));
        self.entries.set(pi, pe);
        let ghost es1 = self.ents();
        assert(es1 =~= es0.update(pi as int, add_name(es0[pi as int], name@)));
        let path_out = e.path.clone();
        self.entries.push(e);
        assert(self.ents() =~= es1.push(e@));
        proof {
            let es2 = self.ents();
            assert forall|i: int, j: int| 0 <= i < j < es2.len() implies es2[i].entry.path
                != es2[j].entry.path by {
                if j == es2.len() - 1 {
                    assert(es0[i].entry.path != p@);
                }
            }
            assert(root_path() != p@);
            let rk = find_ent(es0, root_path(), 0);
            lemma_find_ent_is(es2, root_path(), rk);
            assert forall|i: int| 0 <= i < es2.len() implies crate::memfs::names_nonempty(
                #[trigger] es2[i],
            ) by {
                if i == pi {
                    let f = add_name(es0[pi as int], name@).files->Some_0;
                    assert(crate::memfs::names_nonempty(es0[pi as int]));
                    assert forall|k: int| 0 <= k < f.len() implies (#[trigger] f[k]).len() > 0 by {
                        match es0[pi as int].files {
                            Some(f0) => {
                                if !f0.contains(name@) && k == f0.len() {
                                } else {
                                    assert(f[k] == f0[k]);
                                }
                            },
                            None => {},
                        }
                    }
                } else if i < es0.len() {
                    assert(es2[i] == es0[i]);
                } else {
                    assert(es2[i] == e@);
                }
            }
        }
        Ok(path_out)
    }
}


/// Writing `data` to the file at `path`: the entries and contents after, or the error met.
pub open spec fn write_spec(
    cwd: Seq<char>,
    env: Seq<(Seq<char>, Seq<char>)>,
    es: Seq<MemEntryV>,
    ds: Seq<(Seq<char>, Seq<u8>)>,
    path: Seq<char>,
    data: Seq<u8>,
) -> Result<(Seq<MemEntryV>, Seq<(Seq<char>, Seq<u8>)>), RvErr> {
    match abs_spec(cwd, env, path) {
        Err(e) => Err(e),
        Ok(a) => match add_spec(es, ds, file_entry(a)) {
            Ok((es2, ds2)) => Ok((es2, set_dat(ds2, a, data))),
            Err(e) => Err(e),
        },
    }
}

/// Reading the file at `path` as text: its contents decoded, or the error met.
pub open spec fn read_spec(
    cwd: Seq<char>,
    env: Seq<(Seq<char>, Seq<char>)>,
    es: Seq<MemEntryV>,
    ds: Seq<(Seq<char>, Seq<u8>)>,
    path: Seq<char>,
) -> Result<Seq<char>, RvErr> {
    match abs_spec(cwd, env, path) {
        Err(e) => Err(e),
        Ok(a) => if lookup(es, a) matches Some(x) && !x.entry.file {
            Err(RvErr::IsNotFile(a))
        } else {
            match lookup_dat(ds, a) {
                None => Err(RvErr::DoesNotExist(a)),
                Some(b) => if vstd::utf8::valid_utf8(b) {
                    Ok(vstd::utf8::decode_utf8(b))
                } else {
                    Err(RvErr::InvalidUtf8(a))
                },
            }
        },
    }
}

/// Setting the contents of `p` makes them what is found for `p`.
pub proof fn lemma_set_dat_lookup(ds: Seq<(Seq<char>, Seq<u8>)>, p: Seq<char>, b: Seq<u8>)
    ensures
        lookup_dat(set_dat(ds, p, b), p) == Some(b),
{
    lemma_find_dat(ds, p, 0);
    let k = find_dat(ds, p, 0);
    let d2 = set_dat(ds, p, b);
    if k < 0 {
        assert forall|j: int| 0 <= j < ds.len() implies (#[trigger] d2[j]).0 != p by {
            assert(d2[j] == ds[j]);
        }
        lemma_find_dat_is(d2, p, ds.len() as int);
    } else {
        assert forall|j: int| 0 <= j < k implies (#[trigger] d2[j]).0 != p by {
            assert(d2[j] == ds[j]);
        }
        lemma_find_dat_is(d2, p, k);
    }
}

/// After adding an entry at a path other than the root, an entry of the same kind stands there:
/// the one added when the path did not exist, else the one that was there.
pub proof fn lemma_add_lookup(es: Seq<MemEntryV>, ds: Seq<(Seq<char>, Seq<u8>)>, e: MemEntryV)
    requires
        wf_parts(es, ds),
        add_spec(es, ds, e) is Ok,
        e.entry.path != root_path(),
    ensures
        ({
            let es2 = add_spec(es, ds, e)->Ok_0.0;
            match lookup(es, e.entry.path) {
                None => lookup(es2, e.entry.path) == Some(e),
                Some(x) => lookup(es2, e.entry.path) == Some(x) && (e.entry.file ==> x.entry.file)
                    && (e.entry.link ==> x.entry.link) && (e.entry.dir ==> x.entry.dir),
            }
        }),
{
    let p = e.entry.path;
    let d = dir_spec(p)->Some_0;
    lemma_find_ent(es, p, 0);
    lemma_find_ent(es, d, 0);
    if lookup(es, p) is None {
        let k = find_ent(es, d, 0);
        let es2 = add_spec(es, ds, e)->Ok_0.0;
        assert(es2 == es.update(k, add_name(es[k], base_spec(p)->Some_0)).push(e));
        assert forall|j: int| 0 <= j < es.len() implies (#[trigger] es2[j]).entry.path != p by {
            assert(es2[j].entry.path == es[j].entry.path);
        }
        lemma_find_ent_is(es2, p, es.len() as int);
    }
}

/// Adding an entry whose names are non-empty keeps the filesystem well formed.
pub proof fn lemma_add_wf(es: Seq<MemEntryV>, ds: Seq<(Seq<char>, Seq<u8>)>, e: MemEntryV)
    requires
        wf_parts(es, ds),
        names_nonempty(e),
        add_spec(es, ds, e) is Ok,
    ensures
        wf_parts(add_spec(es, ds, e)->Ok_0.0, add_spec(es, ds, e)->Ok_0.1),
{
    let p = e.entry.path;
    if p != root_path() && lookup(es, p) is None {
        let d = dir_spec(p)->Some_0;
        lemma_find_ent(es, p, 0);
        lemma_find_ent(es, d, 0);
        lemma_find_ent(es, root_path(), 0);
        lemma_base_nonempty(p);
        let name = base_spec(p)->Some_0;
        let k = find_ent(es, d, 0);
        let es2 = add_spec(es, ds, e)->Ok_0.0;
        let ds2 = add_spec(es, ds, e)->Ok_0.1;
        assert forall|i: int, j: int| 0 <= i < j < es2.len() implies es2[i].entry.path
            != es2[j].entry.path by {
            if j == es2.len() - 1 {
                assert(es2[i].entry.path == es[i].entry.path);
            } else {
                assert(es2[i].entry.path == es[i].entry.path);
                assert(es2[j].entry.path == es[j].entry.path);
            }
        }
        assert forall|i: int| 0 <= i < es2.len() implies names_nonempty(#[trigger] es2[i]) by {
            if i == k {
                let f = add_name(es[k], name).files->Some_0;
                assert(names_nonempty(es[k]));
                assert forall|m: int| 0 <= m < f.len() implies (#[trigger] f[m]).len() > 0 by {
                    match es[k].files {
                        Some(f0) => {
                            if !f0.contains(name) && m == f0.len() {
                            } else {
                                assert(f[m] == f0[m]);
                            }
                        },
                        None => {},
                    }
                }
            } else if i < es.len() {
                assert(es2[i] == es[i]);
            } else {
                assert(es2[i] == e);
            }
        }
        let rk = find_ent(es, root_path(), 0);
        assert forall|j: int| 0 <= j < rk implies (#[trigger] es2[j]).entry.path != root_path() by {
            assert(es2[j].entry.path == es[j].entry.path);
        }
        lemma_find_ent_is(es2, root_path(), rk);
        if !e.entry.link && e.entry.file {
            lemma_find_dat(ds, p, 0);
            let kd = find_dat(ds, p, 0);
            assert forall|i: int, j: int| 0 <= i < j < ds2.len() implies ds2[i].0 != ds2[j].0 by {
                if kd < 0 {
                    if j == ds.len() {
                        assert(ds2[i] == ds[i]);
                    } else {
                        assert(ds2[i] == ds[i]);
                        assert(ds2[j] == ds[j]);
                    }
                } else {
                    if i == kd {
                        assert(ds2[j] == ds[j]);
                    } else if j == kd {
                        assert(ds2[i] == ds[i]);
                    } else {
                        assert(ds2[i] == ds[i]);
                        assert(ds2[j] == ds[j]);
                    }
                }
            }
        }
    }
}

/// What is written to a file other than the root is what is read back from it: the bytes
/// written, decoded, or an error when they are not valid UTF-8.
pub proof fn lemma_write_read(
    cwd: Seq<char>,
    env: Seq<(Seq<char>, Seq<char>)>,
    es: Seq<MemEntryV>,
    ds: Seq<(Seq<char>, Seq<u8>)>,
    path: Seq<char>,
    data: Seq<u8>,
)
    requires
        wf_parts(es, ds),
        write_spec(cwd, env, es, ds, path, data) is Ok,
        abs_spec(cwd, env, path) != Ok::<Seq<char>, RvErr>(root_path()),
    ensures
        ({
            let w = write_spec(cwd, env, es, ds, path, data)->Ok_0;
            read_spec(cwd, env, w.0, w.1, path) == if vstd::utf8::valid_utf8(data) {
                Ok::<Seq<char>, RvErr>(vstd::utf8::decode_utf8(data))
            } else {
                Err::<Seq<char>, RvErr>(RvErr::InvalidUtf8(abs_spec(cwd, env, path)->Ok_0))
            }
        }),
{
    let a = abs_spec(cwd, env, path)->Ok_0;
    lemma_add_lookup(es, ds, file_entry(a));
    let ds2 = add_spec(es, ds, file_entry(a))->Ok_0.1;
    lemma_set_dat_lookup(ds2, a, data);
}

/// Adding an entry again, where adding it succeeded, changes nothing.
pub proof fn lemma_add_again(es: Seq<MemEntryV>, ds: Seq<(Seq<char>, Seq<u8>)>, e: MemEntryV)
    requires
        wf_parts(es, ds),
        add_spec(es, ds, e) is Ok,
        e.entry.path != root_path(),
    ensures
        add_spec(add_spec(es, ds, e)->Ok_0.0, add_spec(es, ds, e)->Ok_0.1, e) == add_spec(es, ds, e),
{
    let p = e.entry.path;
    let d = dir_spec(p)->Some_0;
    let es2 = add_spec(es, ds, e)->Ok_0.0;
    lemma_add_lookup(es, ds, e);
    lemma_find_ent(es, d, 0);
    if lookup(es, p) is None {
        let k = find_ent(es, d, 0);
        assert(es2 == es.update(k, add_name(es[k], base_spec(p)->Some_0)).push(e));
        assert forall|j: int| 0 <= j < k implies (#[trigger] es2[j]).entry.path != d by {
            assert(es2[j] == es[j]);
        }
        assert(es2[k].entry.path == d);
        lemma_find_ent_is(es2, d, k);
        assert(lookup(es2, d) == Some(es2[k]));
        assert(es2[k].entry.dir);
    }
}

/// Appending `x` to a file, through a handle that `append` gives and `flush` writes back, leaves
/// the file holding what it held followed by `x`: writing back adds no entry.
pub proof fn lemma_append_flush(es: Seq<MemEntryV>, ds: Seq<(Seq<char>, Seq<u8>)>, a: Seq<char>, x: Seq<u8>)
    requires
        wf_parts(es, ds),
        a != root_path(),
        add_spec(es, ds, file_entry(a)) is Ok,
        lookup_dat(add_spec(es, ds, file_entry(a))->Ok_0.1, a) is Some,
    ensures
        ({
            let (es2, ds2) = add_spec(es, ds, file_entry(a))->Ok_0;
            let b = lookup_dat(ds2, a)->Some_0;
            &&& add_spec(es2, ds2, file_entry(a)) == Ok::<_, RvErr>((es2, ds2))
            &&& lookup_dat(set_dat(ds2, a, b + x), a) == Some(b + x)
        }),
{
    lemma_add_again(es, ds, file_entry(a));
    let ds2 = add_spec(es, ds, file_entry(a))->Ok_0.1;
    let b = lookup_dat(ds2, a)->Some_0;
    lemma_set_dat_lookup(ds2, a, b + x);
}

/// A file created anywhere but the root is a file afterwards.
pub proof fn lemma_mkfile_is_file(es: Seq<MemEntryV>, ds: Seq<(Seq<char>, Seq<u8>)>, a: Seq<char>)
    requires
        wf_parts(es, ds),
        add_spec(es, ds, file_entry(a)) is Ok,
        a != root_path(),
    ensures
        lookup(add_spec(es, ds, file_entry(a))->Ok_0.0, a) matches Some(x) && x.entry.file,
{
    lemma_add_lookup(es, ds, file_entry(a));
}

/// A removed entry no longer exists.
pub proof fn lemma_remove_gone(es: Seq<MemEntryV>, ds: Seq<(Seq<char>, Seq<u8>)>, a: Seq<char>)
    requires
        wf_parts(es, ds),
        remove_spec(es, ds, a) is Ok,
    ensures
        lookup(remove_spec(es, ds, a)->Ok_0.0, a) is None,
{
    lemma_unlink_gone(es, ds, a, false);
}

/// Creating the directories of a path without error leaves a directory at the path they join
/// to.
pub proof fn lemma_mkdirs_dir(
    es: Seq<MemEntryV>,
    ds: Seq<(Seq<char>, Seq<u8>)>,
    cs: Seq<PComp>,
    k: int,
    mode: Option<u32>,
)
    requires
        wf_parts(es, ds),
        0 <= k < cs.len(),
        mkdirs(es, ds, cs, k, mode).2 is None,
    ensures
        lookup(mkdirs(es, ds, cs, k, mode).0, join(cs)) matches Some(x) && x.entry.dir,
    decreases cs.len() - k,
{
    let e = dir_entry(join(cs.subrange(0, k + 1)), mode);
    let out = add_spec(es, ds, e)->Ok_0;
    assert(names_nonempty(e));
    lemma_add_wf(es, ds, e);
    if k + 1 < cs.len() {
        lemma_mkdirs_dir(out.0, out.1, cs, k + 1, mode);
    } else {
        assert(cs.subrange(0, k + 1) =~= cs);
        if e.entry.path == root_path() {
            lemma_find_ent(es, root_path(), 0);
        } else {
            lemma_add_lookup(es, ds, e);
        }
    }
}

/// A link created where nothing stood reads back its absolute target.
pub proof fn lemma_symlink_readlink(
    cwd: Seq<char>,
    env: Seq<(Seq<char>, Seq<char>)>,
    es: Seq<MemEntryV>,
    ds: Seq<(Seq<char>, Seq<u8>)>,
    link: Seq<char>,
    target: Seq<char>,
)
    requires
        wf_parts(es, ds),
        symlink_spec(cwd, env, es, ds, link, target).2 is Ok,
        lookup(es, symlink_spec(cwd, env, es, ds, link, target).2->Ok_0) is None,
    ensures
        ({
            let out = symlink_spec(cwd, env, es, ds, link, target);
            let l = out.2->Ok_0;
            lookup(out.0, l) matches Some(x) && x.entry.link && x.entry.alt
                == link_target_spec(cwd, env, l, target)->Ok_0
        }),
{
    let l = abs_spec(cwd, env, link)->Ok_0;
    let t = link_target_spec(cwd, env, l, target)->Ok_0;
    let is_dir = lookup(es, t) matches Some(x) && x.entry.dir;
    let e = link_entry(l, join(components(l).drop_last()), t, is_dir);
    lemma_root_no_dir();
    assert(l != root_path());
    lemma_add_lookup(es, ds, e);
}

/// Decodes UTF-8 bytes into a `String` (std's `String::from_utf8`).
///
/// Trusted: claims that the bytes are accepted exactly when they are valid UTF-8, and then decode
/// to the characters they encode, as std documents.
#[verifier::external_body]
fn utf8_to_string(b: Vec<u8>) -> (r: Option<String>)
    ensures
        match r {
            Some(s) => vstd::utf8::valid_utf8(b@) && s@ == vstd::utf8::decode_utf8(b@),
            None => !vstd::utf8::valid_utf8(b@),
        },
{
    String::from_utf8(b).ok()
}

/// The entry that `mkdir` adds for `p`.
pub open spec fn dir_entry(p: Seq<char>, mode: Option<u32>) -> MemEntryV {
    let m = mode_calc(false, false, false, mode);
    MemEntryV {
        entry: EntryV {
            path: p,
            alt: Seq::empty(),
            rel: Seq::empty(),
            dir: true,
            file: false,
            link: false,
            mode: mode_calc(true, false, false, if m == 0 {
                None
            } else {
                Some(m)
            }),
            follow: false,
        },
        uid: 1000,
        gid: 1000,
        files: Some(Seq::empty()),
    }
}

/// The entry that `mkfile` adds for `p`.
pub open spec fn file_entry(p: Seq<char>) -> MemEntryV {
    MemEntryV {
        entry: EntryV {
            path: p,
            alt: Seq::empty(),
            rel: Seq::empty(),
            dir: false,
            file: true,
            link: false,
            mode: mode_calc(false, true, false, None),
            follow: false,
        },
        uid: 1000,
        gid: 1000,
        files: None,
    }
}

/// Adding a directory for each prefix `cs[..k+1]`, `cs[..k+2]`, ... in turn; the state reached
/// and the first error.
pub open spec fn mkdirs(
    es: Seq<MemEntryV>,
    ds: Seq<(Seq<char>, Seq<u8>)>,
    cs: Seq<PComp>,
    k: int,
    mode: Option<u32>,
) -> (Seq<MemEntryV>, Seq<(Seq<char>, Seq<u8>)>, Option<RvErr>)
    decreases cs.len() - k,
{
    if k < 0 || k >= cs.len() {
        (es, ds, None)
    } else {
        match add_spec(es, ds, dir_entry(join(cs.subrange(0, k + 1)), mode)) {
            Err(e) => (es, ds, Some(e)),
            Ok((es2, ds2)) => mkdirs(es2, ds2, cs, k + 1, mode),
        }
    }
}

impl Memfs {
    /// Builds the entry that `mkdir` adds.
    fn make_dir_entry(p: &Vec<char>, mode: Option<u32>) -> (r: MemfsEntry)
        ensures
            r@ == dir_entry(p@, mode),
            names_nonempty(r@),
    {
        let s = string_of(p);
        let o = MemfsEntry::opts(s.as_str()).mode(mode);
        let e = o.build();
        assert(e@.entry.alt =~= Seq::<char>::empty());
        assert(e@.entry.rel =~= Seq::<char>::empty());
        assert(e@ =~= dir_entry(p@, mode));
        e
    }

    /// Builds the entry that `mkfile` adds.
    fn make_file_entry(p: &Vec<char>) -> (r: MemfsEntry)
        ensures
            r@ == file_entry(p@),
            names_nonempty(r@),
    {
        let s = string_of(p);
        let o = MemfsEntry::opts(s.as_str()).file();
        let e = o.build();
        assert(e@.entry.alt =~= Seq::<char>::empty());
        assert(e@.entry.rel =~= Seq::<char>::empty());
        assert(e@ =~= file_entry(p@));
        e
    }

    /// Adds a directory for each prefix of the absolute path `abs`.
    pub(crate) fn mkdirs_exec(&mut self, abs: &Vec<char>, mode: Option<u32>) -> (r: Result<(), RvError>)
        requires
            old(self).wf(),
        ensures
            final(self).wf(),
            final(self).cwd@ == old(self).cwd@,
            final(self).env@ == old(self).env@,
            ({
                let out = mkdirs(old(self).ents(), old(self).dats(), components(abs@), 0, mode);
                &&& final(self).ents() == out.0
                &&& final(self).dats() == out.1
                &&& match out.2 {
                    None => r is Ok,
                    Some(e) => (r matches Err(x) && x@ == e),
                }
            }),
    {
        let cs = components_of(abs);
        let ghost es0 = self.ents();
        let ghost ds0 = self.dats();
        let mut k: usize = 0;
        while k < cs.len()
            invariant
                self.wf(),
                self.cwd@ == old(self).cwd@,
                self.env@ == old(self).env@,
                k <= cs.len(),
                es0 == old(self).ents(),
                ds0 == old(self).dats(),
                cview(cs@) == components(abs@),
                mkdirs(self.ents(), self.dats(), cview(cs@), k as int, mode) == mkdirs(
                    es0,
                    ds0,
                    cview(cs@),
                    0,
                    mode,
                ),
            decreases cs.len() - k,
        {
            let pre = crate::path::comps_range(&cs, 0, k + 1);
            let pj = join_comps(&pre);
            let e = Memfs::make_dir_entry(&pj, mode);
            assert(e@ == dir_entry(join(cview(cs@).subrange(0, k + 1)), mode));
            let ghost es1 = self.ents();
            let ghost ds1 = self.dats();
            match self.add_entry(e) {
                Ok(_) => {},
                Err(err) => {
                    assert(mkdirs(es1, ds1, cview(cs@), k as int, mode) == (es1, ds1, Some(err@)));
                    return Err(err);
                },
            }
            k = k + 1;
        }
        Ok(())
    }

    /// Creates the directory and any missing parents, with the given mode; returns its absolute
    /// path.
    ///
    /// ### Errors
    /// * PathError::Empty when the path is empty
    /// * PathError::IsNotDir when a part of the path exists and is not a directory
    pub fn mkdir_m(&mut self, path: &str, mode: u32) -> (r: Result<String, RvError>)
        requires
            old(self).wf(),
        ensures
            final(self).wf(),
            final(self).cwd@ == old(self).cwd@,
            final(self).env@ == old(self).env@,
            match old(self).abs_of(path@) {
                Err(e) => (r matches Err(x) && x@ == e) && final(self).ents() == old(self).ents()
                    && final(self).dats() == old(self).dats(),
                Ok(a) => {
                    let out = mkdirs(old(self).ents(), old(self).dats(), components(a), 0, Some(mode));
                    &&& final(self).ents() == out.0
                    &&& final(self).dats() == out.1
                    &&& match out.2 {
                        None => (r matches Ok(p) && p@ == a),
                        Some(e) => (r matches Err(x) && x@ == e),
                    }
                },
            },
    {
        let a = match self.abs_chars(path) {
            Ok(a) => a,
            Err(e) => return Err(e),
        };
        match self.mkdirs_exec(&a, Some(mode)) {
            Ok(()) => Ok(string_of(&a)),
            Err(e) => Err(e),
        }
    }

    /// Creates the directory and any missing parents; returns its absolute path.
    ///
    /// ### Errors
    /// * PathError::Empty when the path is empty
    /// * PathError::IsNotDir when a part of the path exists and is not a directory
    pub fn mkdir_p(&mut self, path: &str) -> (r: Result<String, RvError>)
        requires
            old(self).wf(),
        ensures
            final(self).wf(),
            final(self).cwd@ == old(self).cwd@,
            final(self).env@ == old(self).env@,
            match old(self).abs_of(path@) {
                Err(e) => (r matches Err(x) && x@ == e) && final(self).ents() == old(self).ents()
                    && final(self).dats() == old(self).dats(),
                Ok(a) => {
                    let out = mkdirs(old(self).ents(), old(self).dats(), components(a), 0, None);
                    &&& final(self).ents() == out.0
                    &&& final(self).dats() == out.1
                    &&& match out.2 {
                        None => (r matches Ok(p) && p@ == a),
                        Some(e) => (r matches Err(x) && x@ == e),
                    }
                },
            },
    {
        let a = match self.abs_chars(path) {
            Ok(a) => a,
            Err(e) => return Err(e),
        };
        match self.mkdirs_exec(&a, None) {
            Ok(()) => Ok(string_of(&a)),
            Err(e) => Err(e),
        }
    }

    /// Creates an empty file, like the `touch` command; returns its absolute path.
    ///
    /// ### Errors
    /// * PathError::Empty when the path is empty
    /// * PathError::DoesNotExist when the parent doesn't exist
    /// * PathError::IsNotDir when the parent is not a directory
    /// * PathError::IsNotFile when the path exists and is not a file
    pub fn mkfile(&mut self, path: &str) -> (r: Result<String, RvError>)
        requires
            old(self).wf(),
        ensures
            final(self).wf(),
            final(self).cwd@ == old(self).cwd@,
            final(self).env@ == old(self).env@,
            match old(self).abs_of(path@) {
                Err(e) => (r matches Err(x) && x@ == e) && final(self).ents() == old(self).ents()
                    && final(self).dats() == old(self).dats(),
                Ok(a) => match add_spec(old(self).ents(), old(self).dats(), file_entry(a)) {
                    Ok((es, ds)) => (r matches Ok(p) && p@ == a) && final(self).ents() == es
                        && final(self).dats() == ds,
                    Err(e) => (r matches Err(x) && x@ == e) && final(self).ents() == old(
                        self).ents() && final(self).dats() == old(self).dats(),
                },
            },
    {
        let a = match self.abs_chars(path) {
            Ok(a) => a,
            Err(e) => return Err(e),
        };
        let e = Memfs::make_file_entry(&a);
        self.add_entry(e)
    }

    /// Writes the data to the file, creating it first when it doesn't exist and replacing what it
    /// held when it does.
    ///
    /// ### Errors
    /// * PathError::Empty when the path is empty
    /// * PathError::DoesNotExist when the parent doesn't exist
    /// * PathError::IsNotDir when the parent is not a directory
    /// * PathError::IsNotFile when the path exists and is not a file
    pub fn write_all(&mut self, path: &str, data: &[u8]) -> (r: Result<(), RvError>)
        requires
            old(self).wf(),
        ensures
            final(self).wf(),
            final(self).cwd@ == old(self).cwd@,
            final(self).env@ == old(self).env@,
            match write_spec(old(self).cwd@, old(self).envv(), old(self).ents(), old(self).dats(), path@, data@) {
                Ok((es, ds)) => r is Ok && final(self).ents() == es && final(self).dats() == ds,
                Err(e) => (r matches Err(x) && x@ == e) && final(self).ents() == old(self).ents()
                    && final(self).dats() == old(self).dats(),
            },
    {
        let a = match self.abs_chars(path) {
            Ok(a) => a,
            Err(e) => return Err(e),
        };
        let e = Memfs::make_file_entry(&a);
        match self.add_entry(e) {
            Ok(_) => {},
            Err(e) => return Err(e),
        }
        let mut bytes: Vec<u8> = Vec::new();
        let mut i: usize = 0;
        while i < data.len()
            invariant
                i <= data.len(),
                bytes@ == data@.subrange(0, i as int),
            decreases data.len() - i,
        {
            bytes.push(data[i]);
            i = i + 1;
            assert(bytes@ =~= data@.subrange(0, i as int));
        }
        assert(bytes@ =~= data@);
        self.set_data(&a, bytes);
        Ok(())
    }

    /// Reads all of the file's contents as a string.
    ///
    /// ### Errors
    /// * PathError::Empty when the path is empty
    /// * PathError::IsNotFile when the path exists and is not a file
    /// * PathError::DoesNotExist when the file holds no contents
    /// * InvalidUtf8 when the contents are not valid UTF-8
    pub fn read_all(&self, path: &str) -> (r: Result<String, RvError>)
        ensures
            match read_spec(self.cwd@, self.envv(), self.ents(), self.dats(), path@) {
                Ok(s) => (r matches Ok(x) && x@ == s),
                Err(e) => (r matches Err(x) && x@ == e),
            },
    {
        let a = match self.abs_chars(path) {
            Ok(a) => a,
            Err(e) => return Err(e),
        };
        match self.find(&a) {
            Some(i) => {
                assert(self.ents()[i as int] == self.entries@[i as int]@);
                if !self.entries[i].file {
                    return Err(RvError::Path(PathError::IsNotFile(string_of(&a))));
                }
            },
            None => {},
        }
        match self.find_data(&a) {
            None => Err(RvError::Path(PathError::DoesNotExist(string_of(&a)))),
            Some(i) => {
                assert(self.dats()[i as int] == (self.data@[i as int].path@, self.data@[i as int].data@));
                let b = self.data[i].data.clone();
                match utf8_to_string(b) {
                    Some(s) => Ok(s),
                    None => Err(RvError::InvalidUtf8(string_of(&a))),
                }
            },
        }
    }

    /// Returns the permission mode of the entry.
    ///
    /// ### Errors
    /// * PathError::Empty when the path is empty
    /// * PathError::DoesNotExist when the path doesn't exist
    pub fn mode(&self, path: &str) -> (r: Result<u32, RvError>)
        ensures
            match self.abs_of(path@) {
                Err(e) => (r matches Err(x) && x@ == e),
                Ok(a) => match lookup(self.ents(), a) {
                    Some(x) => r == Ok::<u32, RvError>(x.entry.mode),
                    None => (r matches Err(y) && y@ == RvErr::DoesNotExist(a)),
                },
            },
    {
        let a = match self.abs_chars(path) {
            Ok(a) => a,
            Err(e) => return Err(e),
        };
        match self.find(&a) {
            Some(i) => {
                assert(self.ents()[i as int] == self.entries@[i as int]@);
                Ok(self.entries[i].mode)
            },
            None => Err(RvError::Path(PathError::DoesNotExist(string_of(&a)))),
        }
    }

    /// Returns the user and group ids of the entry.
    ///
    /// ### Errors
    /// * PathError::Empty when the path is empty
    /// * PathError::DoesNotExist when the path doesn't exist
    pub fn owner(&self, path: &str) -> (r: Result<(u32, u32), RvError>)
        ensures
            match self.abs_of(path@) {
                Err(e) => (r matches Err(x) && x@ == e),
                Ok(a) => match lookup(self.ents(), a) {
                    Some(x) => r == Ok::<(u32, u32), RvError>((x.uid, x.gid)),
                    None => (r matches Err(y) && y@ == RvErr::DoesNotExist(a)),
                },
            },
    {
        let a = match self.abs_chars(path) {
            Ok(a) => a,
            Err(e) => return Err(e),
        };
        match self.find(&a) {
            Some(i) => {
                assert(self.ents()[i as int] == self.entries@[i as int]@);
                Ok((self.entries[i].uid, self.entries[i].gid))
            },
            None => Err(RvError::Path(PathError::DoesNotExist(string_of(&a)))),
        }
    }

    /// Returns the user id of the entry.
    ///
    /// ### Errors
    /// * PathError::Empty when the path is empty
    /// * PathError::DoesNotExist when the path doesn't exist
    pub fn uid(&self, path: &str) -> (r: Result<u32, RvError>)
        ensures
            match self.abs_of(path@) {
                Err(e) => (r matches Err(x) && x@ == e),
                Ok(a) => match lookup(self.ents(), a) {
                    Some(x) => r == Ok::<u32, RvError>(x.uid),
                    None => (r matches Err(y) && y@ == RvErr::DoesNotExist(a)),
                },
            },
    {
        match self.owner(path) {
            Ok((u, _)) => Ok(u),
            Err(e) => Err(e),
        }
    }

    /// Returns the group id of the entry.
    ///
    /// ### Errors
    /// * PathError::Empty when the path is empty
    /// * PathError::DoesNotExist when the path doesn't exist
    pub fn gid(&self, path: &str) -> (r: Result<u32, RvError>)
        ensures
            match self.abs_of(path@) {
                Err(e) => (r matches Err(x) && x@ == e),
                Ok(a) => match lookup(self.ents(), a) {
                    Some(x) => r == Ok::<u32, RvError>(x.gid),
                    None => (r matches Err(y) && y@ == RvErr::DoesNotExist(a)),
                },
            },
    {
        match self.owner(path) {
            Ok((_, g)) => Ok(g),
            Err(e) => Err(e),
        }
    }

    /// Returns a copy of the entry at the path.
    ///
    /// ### Errors
    /// * PathError::Empty when the path is empty
    /// * PathError::DoesNotExist when the path doesn't exist
    pub fn entry(&self, path: &str) -> (r: Result<VfsEntry, RvError>)
        ensures
            match self.abs_of(path@) {
                Err(e) => (r matches Err(x) && x@ == e),
                Ok(a) => match lookup(self.ents(), a) {
                    Some(x) => (r matches Ok(VfsEntry::Memfs(m)) && m@ == x),
                    None => (r matches Err(y) && y@ == RvErr::DoesNotExist(a)),
                },
            },
    {
        let a = match self.abs_chars(path) {
            Ok(a) => a,
            Err(e) => return Err(e),
        };
        match self.find(&a) {
            Some(i) => {
                assert(self.ents()[i as int] == self.entries@[i as int]@);
                Ok(VfsEntry::Memfs(self.entries[i].clone_entry()))
            },
            None => Err(RvError::Path(PathError::DoesNotExist(string_of(&a)))),
        }
    }

    /// Returns the target of the link relative to the link's directory.
    ///
    /// ### Errors
    /// * PathError::Empty when the path is empty
    /// * PathError::DoesNotExist when the path doesn't exist
    /// * PathError::IsNotSymlink when the path is not a link
    pub fn readlink(&self, path: &str) -> (r: Result<String, RvError>)
        ensures
            match self.abs_of(path@) {
                Err(e) => (r matches Err(x) && x@ == e),
                Ok(a) => match lookup(self.ents(), a) {
                    Some(x) => if x.entry.link {
                        (r matches Ok(s) && s@ == x.entry.rel)
                    } else {
                        (r matches Err(y) && y@ == RvErr::IsNotSymlink(a))
                    },
                    None => (r matches Err(y) && y@ == RvErr::DoesNotExist(a)),
                },
            },
    {
        let a = match self.abs_chars(path) {
            Ok(a) => a,
            Err(e) => return Err(e),
        };
        match self.find(&a) {
            Some(i) => {
                assert(self.ents()[i as int] == self.entries@[i as int]@);
                if !self.entries[i].link {
                    return Err(RvError::Path(PathError::IsNotSymlink(string_of(&a))));
                }
                Ok(self.entries[i].rel.clone())
            },
            None => Err(RvError::Path(PathError::DoesNotExist(string_of(&a)))),
        }
    }

    /// Returns the absolute path of the target of the link.
    ///
    /// ### Errors
    /// * PathError::Empty when the path is empty
    /// * PathError::DoesNotExist when the path doesn't exist
    /// * PathError::IsNotSymlink when the path is not a link
    pub fn readlink_abs(&self, path: &str) -> (r: Result<String, RvError>)
        ensures
            match self.abs_of(path@) {
                Err(e) => (r matches Err(x) && x@ == e),
                Ok(a) => match lookup(self.ents(), a) {
                    Some(x) => if x.entry.link {
                        (r matches Ok(s) && s@ == x.entry.alt)
                    } else {
                        (r matches Err(y) && y@ == RvErr::IsNotSymlink(a))
                    },
                    None => (r matches Err(y) && y@ == RvErr::DoesNotExist(a)),
                },
            },
    {
        let a = match self.abs_chars(path) {
            Ok(a) => a,
            Err(e) => return Err(e),
        };
        match self.find(&a) {
            Some(i) => {
                assert(self.ents()[i as int] == self.entries@[i as int]@);
                if !self.entries[i].link {
                    return Err(RvError::Path(PathError::IsNotSymlink(string_of(&a))));
                }
                Ok(self.entries[i].alt.clone())
            },
            None => Err(RvError::Path(PathError::DoesNotExist(string_of(&a)))),
        }
    }

    /// Sets the current working directory to the absolute form of the path, which must exist.
    ///
    /// ### Errors
    /// * PathError::Empty when the path is empty
    /// * PathError::DoesNotExist when the path doesn't exist
    pub fn set_cwd(&mut self, path: &str) -> (r: Result<String, RvError>)
        requires
            old(self).wf(),
        ensures
            final(self).wf(),
            final(self).ents() == old(self).ents(),
            final(self).dats() == old(self).dats(),
            final(self).env@ == old(self).env@,
            match old(self).abs_of(path@) {
                Err(e) => (r matches Err(x) && x@ == e) && final(self).cwd@ == old(self).cwd@,
                Ok(a) => if lookup(old(self).ents(), a) is Some {
                    (r matches Ok(p) && p@ == a) && final(self).cwd@ == a
                } else {
                    (r matches Err(y) && y@ == RvErr::DoesNotExist(a)) && final(self).cwd@ == old(
                        self).cwd@
                },
            },
    {
        let a = match self.abs_chars(path) {
            Ok(a) => a,
            Err(e) => return Err(e),
        };
        match self.find(&a) {
            Some(_) => {
                let ghost es0 = self.ents();
                let ghost ds0 = self.dats();
                proof {
                    lemma_abs_clean(self.cwd@, self.envv(), path@);
                }
                self.cwd = string_of(&a);
                assert(self.ents() == es0);
                assert(self.dats() == ds0);
                Ok(string_of(&a))
            },
            None => Err(RvError::Path(PathError::DoesNotExist(string_of(&a)))),
        }
    }
}


/// The entry that `symlink` adds for the link `l` in directory `d` to the absolute target `t`.
pub open spec fn link_entry(l: Seq<char>, d: Seq<char>, t: Seq<char>, is_dir: bool) -> MemEntryV {
    MemEntryV {
        entry: EntryV {
            path: l,
            alt: t,
            rel: crate::path::relative_spec(t, d),
            dir: is_dir,
            file: !is_dir,
            link: true,
            mode: mode_calc(is_dir, !is_dir, true, None),
            follow: false,
        },
        uid: 1000,
        gid: 1000,
        files: if is_dir {
            Some(Seq::empty())
        } else {
            None
        },
    }
}

/// The name removed from a directory's entry.
pub open spec fn remove_name_entry(e: MemEntryV, name: Seq<char>) -> MemEntryV {
    MemEntryV {
        files: match e.files {
            Some(f) => Some(crate::entry::remove_name(f, name)),
            None => None,
        },
        ..e
    }
}

/// Unlinking the entry at the absolute path `a`: its name leaves its parent, its contents (when
/// it is a file, or in any case when `all_data` is set) and the entry itself go. A path that
/// doesn't exist is no error.
pub open spec fn unlink_spec(
    es: Seq<MemEntryV>,
    ds: Seq<(Seq<char>, Seq<u8>)>,
    a: Seq<char>,
    all_data: bool,
) -> Result<(Seq<MemEntryV>, Seq<(Seq<char>, Seq<u8>)>), RvErr> {
    match dir_spec(a) {
        None => Err(RvErr::ParentNotFound(a)),
        Some(d) => {
            let kd = find_ent(es, d, 0);
            if kd >= 0 && !es[kd].entry.dir {
                Err(RvErr::IsNotDir(d))
            } else {
                let es1 = if kd >= 0 {
                    es.update(kd, remove_name_entry(es[kd], base_spec(a)->Some_0))
                } else {
                    es
                };
                let ka = find_ent(es, a, 0);
                let ds1 = if ka >= 0 && (all_data || es[ka].entry.file) {
                    remove_dat(ds, a)
                } else {
                    ds
                };
                Ok((if ka >= 0 {
                    es1.remove(ka)
                } else {
                    es1
                }, ds1))
            }
        },
    }
}

/// Removing the entry at the absolute path `a`: a directory holding entries is refused, else it
/// is unlinked.
pub open spec fn remove_spec(es: Seq<MemEntryV>, ds: Seq<(Seq<char>, Seq<u8>)>, a: Seq<char>) -> Result<
    (Seq<MemEntryV>, Seq<(Seq<char>, Seq<u8>)>),
    RvErr,
> {
    if lookup(es, a) matches Some(x) && x.files matches Some(f) && f.len() > 0 {
        Err(RvErr::DirContainsFiles(a))
    } else {
        unlink_spec(es, ds, a, false)
    }
}

/// The absolute target of a link at `l` to `target`: a relative target is taken from the link's
/// directory.
pub open spec fn link_target_spec(
    cwd: Seq<char>,
    env: Seq<(Seq<char>, Seq<char>)>,
    l: Seq<char>,
    target: Seq<char>,
) -> Result<Seq<char>, RvErr> {
    if target.len() > 0 && target[0] == '/' {
        abs_spec(cwd, env, target)
    } else {
        match dir_spec(l) {
            None => Err(RvErr::ParentNotFound(l)),
            Some(d) => abs_spec(cwd, env, mash_spec(d, target)),
        }
    }
}

/// Creating a link at `link` to `target`: the entries and contents after, and the link's absolute
/// path or the error met.
pub open spec fn symlink_spec(
    cwd: Seq<char>,
    env: Seq<(Seq<char>, Seq<char>)>,
    es: Seq<MemEntryV>,
    ds: Seq<(Seq<char>, Seq<u8>)>,
    link: Seq<char>,
    target: Seq<char>,
) -> (Seq<MemEntryV>, Seq<(Seq<char>, Seq<u8>)>, Result<Seq<char>, RvErr>) {
    match abs_spec(cwd, env, link) {
        Err(e) => (es, ds, Err(e)),
        Ok(l) => match link_target_spec(cwd, env, l, target) {
            Err(e) => (es, ds, Err(e)),
            Ok(t) => match dir_spec(l) {
                None => (es, ds, Err(RvErr::ParentNotFound(l))),
                Some(d) => {
                    let is_dir = lookup(es, t) matches Some(x) && x.entry.dir;
                    match add_spec(es, ds, link_entry(l, join(components(l).drop_last()), t, is_dir)) {
                        Ok((es2, ds2)) => (es2, ds2, Ok(l)),
                        Err(e) => (es, ds, Err(e)),
                    }
                },
            },
        },
    }
}

impl Memfs {
    /// The absolute target of a link at `l`.
    pub open spec fn link_target(&self, l: Seq<char>, target: Seq<char>) -> Result<Seq<char>, RvErr> {
        link_target_spec(self.cwd@, self.envv(), l, target)
    }

    /// Creates a symbolic link at `link` pointing to `target`; a relative target is taken from the
    /// link's directory. The link is a directory link when the target is an existing directory.
    /// Returns the link's absolute path.
    ///
    /// ### Errors
    /// * PathError::Empty when a path is empty
    /// * PathError::ParentNotFound when the link has no parent
    /// * PathError::DoesNotExist, IsNotDir when the link's parent doesn't exist or is no directory
    /// * PathError::IsNotSymlink when the link path exists and is not a link
    pub fn symlink(&mut self, link: &str, target: &str) -> (r: Result<String, RvError>)
        requires
            old(self).wf(),
        ensures
            final(self).wf(),
            final(self).cwd@ == old(self).cwd@,
            final(self).env@ == old(self).env@,
            ({
                let out = symlink_spec(
                    old(self).cwd@,
                    old(self).envv(),
                    old(self).ents(),
                    old(self).dats(),
                    link@,
                    target@,
                );
                &&& final(self).ents() == out.0
                &&& final(self).dats() == out.1
                &&& match out.2 {
                    Ok(l) => (r matches Ok(p) && p@ == l),
                    Err(e) => (r matches Err(x) && x@ == e),
                }
            }),
    {
        let l = match self.abs_chars(link) {
            Ok(l) => l,
            Err(e) => return Err(e),
        };
        let tv = chars_of(target);
        let t = if tv.len() > 0 && tv[0] == '/' {
            match self.abs_chars(target) {
                Ok(t) => t,
                Err(e) => return Err(e),
            }
        } else {
            match dir_chars(&l) {
                None => return Err(RvError::Path(PathError::ParentNotFound(string_of(&l)))),
                Some(d) => {
                    let m = mash_chars(&d, &tv);
                    let ms = string_of(&m);
                    match self.abs_chars(ms.as_str()) {
                        Ok(t) => t,
                        Err(e) => return Err(e),
                    }
                },
            }
        };
        let ls = string_of(&l);
        let ts = string_of(&t);
        let o = MemfsEntry::opts(ls.as_str()).file();
        let o = match o.link_to(ts.as_str()) {
            Ok(o) => o,
            Err(e) => return Err(e),
        };
        let is_dir = match self.find(&t) {
            Some(i) => {
                assert(self.ents()[i as int] == self.entries@[i as int]@);
                self.entries[i].dir
            },
            None => false,
        };
        let o = if is_dir {
            let o2 = o.dir();
            match o2.link_to(ts.as_str()) {
                Ok(o3) => o3,
                Err(e) => return Err(e),
            }
        } else {
            o
        };
        let e = o.build();
        proof {
            let cs = components(l@);
            assert(cs.len() > 0 && !(cs.last() is Root));
            assert(dir_spec(l@) == Some(join(cs.drop_last())));
            assert(e@.entry.rel == crate::path::relative_spec(t@, join(cs.drop_last())));
            assert(e@ =~= link_entry(l@, join(cs.drop_last()), t@, is_dir));
        }
        match self.add_entry(e) {
            Ok(_) => Ok(ls),
            Err(e) => Err(e),
        }
    }

    /// Removes the given file, link or empty directory; links themselves are removed, not what
    /// they point to. A path that doesn't exist is no error.
    ///
    /// ### Errors
    /// * PathError::Empty when the path is empty
    /// * PathError::DirContainsFiles when the directory holds entries
    /// * PathError::ParentNotFound when the path is the root
    pub fn remove(&mut self, path: &str) -> (r: Result<(), RvError>)
        requires
            old(self).wf(),
        ensures
            final(self).wf(),
            final(self).cwd@ == old(self).cwd@,
            final(self).env@ == old(self).env@,
            match old(self).abs_of(path@) {
                Err(e) => (r matches Err(x) && x@ == e) && final(self).ents() == old(self).ents()
                    && final(self).dats() == old(self).dats(),
                Ok(a) => match remove_spec(old(self).ents(), old(self).dats(), a) {
                    Ok((es, ds)) => r is Ok && final(self).ents() == es && final(self).dats() == ds,
                    Err(e) => (r matches Err(x) && x@ == e) && final(self).ents() == old(
                        self).ents() && final(self).dats() == old(self).dats(),
                },
            },
    {
        let a = match self.abs_chars(path) {
            Ok(a) => a,
            Err(e) => return Err(e),
        };
        self.remove_abs(&a)
    }

    /// Removes the entry at the absolute path `a`.
    pub(crate) fn remove_abs(&mut self, a: &Vec<char>) -> (r: Result<(), RvError>)
        requires
            old(self).wf(),
        ensures
            final(self).wf(),
            final(self).cwd@ == old(self).cwd@,
            final(self).env@ == old(self).env@,
            match remove_spec(old(self).ents(), old(self).dats(), a@) {
                Ok((es, ds)) => r is Ok && final(self).ents() == es && final(self).dats() == ds,
                Err(e) => (r matches Err(x) && x@ == e) && final(self).ents() == old(self).ents()
                    && final(self).dats() == old(self).dats(),
            },
    {
        match self.find(a) {
            Some(i) => {
                assert(self.ents()[i as int] == self.entries@[i as int]@);
                let nonempty = match &self.entries[i].files {
                    Some(f) => f.len() > 0,
                    None => false,
                };
                if nonempty {
                    return Err(RvError::Path(PathError::DirContainsFiles(string_of(a))));
                }
            },
            None => {},
        }
        self.unlink_abs(a, false)
    }

    /// Unlinks the entry at the absolute path `a`.
    pub(crate) fn unlink_abs(&mut self, a: &Vec<char>, all_data: bool) -> (r: Result<(), RvError>)
        requires
            old(self).wf(),
        ensures
            final(self).wf(),
            final(self).cwd@ == old(self).cwd@,
            final(self).env@ == old(self).env@,
            match unlink_spec(old(self).ents(), old(self).dats(), a@, all_data) {
                Ok((es, ds)) => r is Ok && final(self).ents() == es && final(self).dats() == ds,
                Err(e) => (r matches Err(x) && x@ == e) && final(self).ents() == old(self).ents()
                    && final(self).dats() == old(self).dats(),
            },
            r is Ok ==> lookup(final(self).ents(), a@) is None,
    {
        let ghost es0 = self.ents();
        let ghost ds0 = self.dats();
        let ai = self.find(a);
        let d = match dir_chars(a) {
            None => return Err(RvError::Path(PathError::ParentNotFound(string_of(a)))),
            Some(d) => d,
        };
        proof {
            lemma_base_nonempty(a@);
        }
        let name = match base_chars(a) {
            Some(b) => b,
            None => {
                assert(false);
                Vec::new()
            },
        };
        let name_s = string_of(&name);
        match self.find(&d) {
            Some(di) => {
                assert(es0[di as int] == self.entries@[di as int]@);
                if !self.entries[di].dir {
                    return Err(RvError::Path(PathError::IsNotDir(string_of(&d))));
                }
                let mut pe = self.entries[di].clone_entry();
                let _ = pe.remove(name_s.as_str());
                assert(pe@ == remove_name_entry(es0[di as int], name@));
                self.entries.set(di, pe);
                assert(self.ents() =~= es0.update(di as int, remove_name_entry(es0[di as int], name@)));
            },
            None => {},
        }
        let ghost es1 = self.ents();
        match ai {
            Some(i) => {
                if all_data || self.entries[i].file {
                    let ghost dd = self.dats();
                    match self.find_data(a) {
                        Some(j) => {
                            self.data.remove(j);
                            assert(self.dats() =~= dd.remove(j as int));
                        },
                        None => {},
                    }
                }
                self.entries.remove(i);
                assert(self.ents() =~= es1.remove(i as int));
            },
            None => {},
        }
        proof {
            lemma_unlink_wf(es0, ds0, a@, all_data);
            lemma_unlink_gone(es0, ds0, a@, all_data);
        }
        Ok(())
    }
}

/// After unlinking, no entry has the path.
pub proof fn lemma_unlink_gone(es: Seq<MemEntryV>, ds: Seq<(Seq<char>, Seq<u8>)>, a: Seq<char>, all_data: bool)
    requires
        wf_parts(es, ds),
        unlink_spec(es, ds, a, all_data) is Ok,
    ensures
        lookup(unlink_spec(es, ds, a, all_data)->Ok_0.0, a) is None,
{
    let d = dir_spec(a)->Some_0;
    let kd = find_ent(es, d, 0);
    let ka = find_ent(es, a, 0);
    lemma_find_ent(es, a, 0);
    lemma_find_ent(es, d, 0);
    let es1 = if kd >= 0 {
        es.update(kd, remove_name_entry(es[kd], base_spec(a)->Some_0))
    } else {
        es
    };
    let es2 = unlink_spec(es, ds, a, all_data)->Ok_0.0;
    assert forall|j: int| 0 <= j < es2.len() implies (#[trigger] es2[j]).entry.path != a by {
        if ka >= 0 {
            let jj = if j < ka { j } else { j + 1 };
            assert(es2[j] == es1[jj]);
            assert(es1[jj].entry.path == es[jj].entry.path);
            assert(es[ka].entry.path == a);
        } else {
            assert(es2[j] == es1[j]);
            assert(es1[j].entry.path == es[j].entry.path);
        }
    }
    lemma_find_ent_is(es2, a, -1);
}


/// The root has no parent.
pub proof fn lemma_root_no_dir()
    ensures
        dir_spec(root_path()) is None,
{
    let s = root_path();
    assert(crate::path::scan(s, 1, Seq::empty()) == crate::path::seg_comps(Seq::<char>::empty()));
    assert(crate::path::scan(s, 0, Seq::empty()) =~= Seq::<PComp>::empty());
    assert(components(s) =~= seq![PComp::Root]);
}

/// Unlinking an entry keeps the filesystem well formed.
pub proof fn lemma_unlink_wf(es: Seq<MemEntryV>, ds: Seq<(Seq<char>, Seq<u8>)>, a: Seq<char>, all_data: bool)
    requires
        wf_parts(es, ds),
        unlink_spec(es, ds, a, all_data) is Ok,
    ensures
        wf_parts(unlink_spec(es, ds, a, all_data)->Ok_0.0, unlink_spec(es, ds, a, all_data)->Ok_0.1),
{
    lemma_root_no_dir();
    let d = dir_spec(a)->Some_0;
    assert(a != root_path());
    let kd = find_ent(es, d, 0);
    let ka = find_ent(es, a, 0);
    let name = base_spec(a)->Some_0;
    lemma_find_ent(es, d, 0);
    lemma_find_ent(es, a, 0);
    lemma_find_ent(es, root_path(), 0);
    let es1 = if kd >= 0 {
        es.update(kd, remove_name_entry(es[kd], name))
    } else {
        es
    };
    let out = unlink_spec(es, ds, a, all_data)->Ok_0;
    let es2 = out.0;
    let ds2 = out.1;
    assert(es1.len() == es.len());
    assert forall|i: int| 0 <= i < es1.len() implies (#[trigger] es1[i]).entry.path == es[i].entry.path
        && (names_nonempty(es[i]) ==> names_nonempty(es1[i])) by {
        if kd >= 0 && i == kd {
            if es[kd].files is Some {
                let f0 = es[kd].files->Some_0;
                crate::entry::lemma_remove_name_subset(f0, name);
                let f1 = crate::entry::remove_name(f0, name);
                if names_nonempty(es[i]) {
                    assert forall|k: int| 0 <= k < f1.len() implies (#[trigger] f1[k]).len() > 0 by {
                        assert(f0.contains(f1[k]));
                        let m = choose|m: int| 0 <= m < f0.len() && f0[m] == f1[k];
                        assert(f0[m].len() > 0);
                    }
                }
            }
        }
    }
    assert forall|x: int, y: int| 0 <= x < y < es2.len() implies es2[x].entry.path
        != es2[y].entry.path by {
        if ka >= 0 {
            let xx = if x < ka { x } else { x + 1 };
            let yy = if y < ka { y } else { y + 1 };
            assert(es2[x] == es1[xx]);
            assert(es2[y] == es1[yy]);
        } else {
            assert(es2[x] == es1[x]);
            assert(es2[y] == es1[y]);
        }
    }
    assert forall|x: int| 0 <= x < es2.len() implies names_nonempty(#[trigger] es2[x]) by {
        if ka >= 0 {
            let xx = if x < ka { x } else { x + 1 };
            assert(es2[x] == es1[xx]);
        } else {
            assert(es2[x] == es1[x]);
        }
    }
    assert forall|x: int, y: int| 0 <= x < y < ds2.len() implies ds2[x].0 != ds2[y].0 by {
        if ds2 != ds {
            let j = find_dat(ds, a, 0);
            lemma_find_dat(ds, a, 0);
            if j >= 0 {
                let xx = if x < j { x } else { x + 1 };
                let yy = if y < j { y } else { y + 1 };
                assert(ds2[x] == ds[xx]);
                assert(ds2[y] == ds[yy]);
            }
        }
    }
    let rk = find_ent(es, root_path(), 0);
    assert(es1[rk].entry.dir == es[rk].entry.dir) by {
        if kd >= 0 && rk == kd {
        }
    }
    if ka >= 0 {
        let nk = if rk < ka { rk } else { rk - 1 };
        assert(rk != ka);
        assert(es2[nk] == es1[rk]);
        assert forall|j: int| 0 <= j < nk implies (#[trigger] es2[j]).entry.path != root_path() by {
            let jj = if j < ka { j } else { j + 1 };
            assert(es2[j] == es1[jj]);
        }
        lemma_find_ent_is(es2, root_path(), nk);
    } else {
        assert forall|j: int| 0 <= j < rk implies (#[trigger] es2[j]).entry.path != root_path() by {
            assert(es2[j] == es1[j]);
        }
        lemma_find_ent_is(es2, root_path(), rk);
    }
}

/// Removing the entry at `p` after everything it holds, with at most `fuel` levels of nesting:
/// each name a directory holds is removed in turn, then the entry is unlinked with its contents.
/// The state reached and the first error.
pub open spec fn rm_tree(es: Seq<MemEntryV>, ds: Seq<(Seq<char>, Seq<u8>)>, p: Seq<char>, fuel: nat) -> (
    Seq<MemEntryV>,
    Seq<(Seq<char>, Seq<u8>)>,
    Option<RvErr>,
)
    decreases fuel, 0int, 0int,
{
    if fuel == 0 {
        (es, ds, None)
    } else {
        match lookup(es, p) {
            None => (es, ds, None),
            Some(e) => {
                let mid = if e.files matches Some(f) && f.len() > 0 {
                    rm_children(es, ds, p, e.files->Some_0, 0, (fuel - 1) as nat)
                } else {
                    (es, ds, None)
                };
                if mid.2 is Some {
                    mid
                } else {
                    match unlink_spec(mid.0, mid.1, p, true) {
                        Ok((es2, ds2)) => (es2, ds2, None),
                        Err(x) => (mid.0, mid.1, Some(x)),
                    }
                }
            },
        }
    }
}

/// Removing the entries named `names[i..]` in the directory `p` in turn.
pub open spec fn rm_children(
    es: Seq<MemEntryV>,
    ds: Seq<(Seq<char>, Seq<u8>)>,
    p: Seq<char>,
    names: Seq<Seq<char>>,
    i: int,
    fuel: nat,
) -> (Seq<MemEntryV>, Seq<(Seq<char>, Seq<u8>)>, Option<RvErr>)
    decreases fuel, 1int, names.len() - i,
{
    if i < 0 || i >= names.len() {
        (es, ds, None)
    } else {
        let out = rm_tree(es, ds, mash_spec(p, names[i]), fuel);
        if out.2 is Some {
            out
        } else {
            rm_children(out.0, out.1, p, names, i + 1, fuel)
        }
    }
}

impl Memfs {
    /// Removes the entry at the absolute path `p` after everything it holds.
    fn rm_tree_exec(&mut self, p: &Vec<char>, fuel: usize) -> (r: Result<(), RvError>)
        requires
            old(self).wf(),
        ensures
            final(self).wf(),
            final(self).cwd@ == old(self).cwd@,
            final(self).env@ == old(self).env@,
            ({
                let out = rm_tree(old(self).ents(), old(self).dats(), p@, fuel as nat);
                &&& final(self).ents() == out.0
                &&& final(self).dats() == out.1
                &&& match out.2 {
                    None => r is Ok,
                    Some(e) => (r matches Err(x) && x@ == e),
                }
            }),
            r is Ok && fuel > 0 ==> lookup(final(self).ents(), p@) is None,
        decreases fuel, 0usize, 0usize,
    {
        if fuel == 0 {
            return Ok(());
        }
        let i = match self.find(p) {
            None => return Ok(()),
            Some(i) => i,
        };
        assert(self.ents()[i as int] == self.entries@[i as int]@);
        let names: Option<Vec<String>> = match &self.entries[i].files {
            Some(f) => if f.len() > 0 {
                Some(crate::entry::clone_names(f))
            } else {
                None
            },
            None => None,
        };
        match names {
            Some(ns) => {
                match self.rm_children_exec(p, &ns, fuel - 1) {
                    Ok(()) => {},
                    Err(e) => return Err(e),
                }
            },
            None => {},
        }
        self.unlink_abs(p, true)
    }

    /// Removes the entries named `names` in the directory `p` in turn.
    fn rm_children_exec(&mut self, p: &Vec<char>, names: &Vec<String>, fuel: usize) -> (r: Result<
        (),
        RvError,
    >)
        requires
            old(self).wf(),
        ensures
            final(self).wf(),
            final(self).cwd@ == old(self).cwd@,
            final(self).env@ == old(self).env@,
            ({
                let out = rm_children(
                    old(self).ents(),
                    old(self).dats(),
                    p@,
                    names_view(names@),
                    0,
                    fuel as nat,
                );
                &&& final(self).ents() == out.0
                &&& final(self).dats() == out.1
                &&& match out.2 {
                    None => r is Ok,
                    Some(e) => (r matches Err(x) && x@ == e),
                }
            }),
        decreases fuel, 1usize, 0usize,
    {
        let ghost es0 = self.ents();
        let ghost ds0 = self.dats();
        let mut i: usize = 0;
        while i < names.len()
            invariant
                self.wf(),
                self.cwd@ == old(self).cwd@,
                self.env@ == old(self).env@,
                i <= names.len(),
                es0 == old(self).ents(),
                ds0 == old(self).dats(),
                rm_children(self.ents(), self.dats(), p@, names_view(names@), i as int, fuel as nat)
                    == rm_children(es0, ds0, p@, names_view(names@), 0, fuel as nat),
            decreases names.len() - i,
        {
            let n = chars_of(names[i].as_str());
            let c = mash_chars(p, &n);
            assert(names_view(names@)[i as int] == names@[i as int]@);
            match self.rm_tree_exec(&c, fuel) {
                Ok(()) => {},
                Err(e) => return Err(e),
            }
            i = i + 1;
        }
        Ok(())
    }

    /// Removes the given directory after removing all that it holds; links themselves are
    /// removed, not what they point to. A path that doesn't exist is no error.
    ///
    /// ### Errors
    /// * PathError::Empty when the path is empty
    /// * PathError::ParentNotFound when the path is the root, after all it holds is removed
    pub fn remove_all(&mut self, path: &str) -> (r: Result<(), RvError>)
        requires
            old(self).wf(),
        ensures
            final(self).wf(),
            final(self).cwd@ == old(self).cwd@,
            final(self).env@ == old(self).env@,
            match old(self).abs_of(path@) {
                Err(e) => (r matches Err(x) && x@ == e) && final(self).ents() == old(self).ents()
                    && final(self).dats() == old(self).dats(),
                Ok(a) => {
                    let out = rm_tree(old(self).ents(), old(self).dats(), a, old(self).ents().len());
                    &&& final(self).ents() == out.0
                    &&& final(self).dats() == out.1
                    &&& match out.2 {
                        None => r is Ok,
                        Some(e) => (r matches Err(x) && x@ == e),
                    }
                    &&& r is Ok ==> lookup(final(self).ents(), a) is None
                },
            },
    {
        let a = match self.abs_chars(path) {
            Ok(a) => a,
            Err(e) => return Err(e),
        };
        proof {
            lemma_find_ent(self.ents(), root_path(), 0);
        }
        let fuel = self.entries.len();
        self.rm_tree_exec(&a, fuel)
    }
}

} // verus!
