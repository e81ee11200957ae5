//! Recursive traversal of the memory filesystem.
//!
//! The traversal is depth first with directories yielded before their contents, or after them
//! when `contents_first` is set. Links to directories are entered only when followed; a followed
//! link back onto a directory being traversed yields an error in its place.
use vstd::prelude::*;
use crate::entry::{MemEntryV, MemfsEntry, VfsEntry, follow_mem};
use crate::entry_iter::{
    EntryIter, SortBy, dirs_of, ents_view, files_of, follow_all, lemma_concat_followed,
    lemma_follow_all_followed, lemma_followed_id, lemma_sorted_followed, lemma_split_followed,
    sorted_by,
};
use crate::errors::{PathError, RvErr, RvError};
use crate::memfs::{Memfs, lookup};
use crate::path::{mash_chars, mash_spec};
use crate::strs::{chars_eq, chars_of, string_of};

verus! {

/// The names a directory holds; none for other entries.
pub open spec fn names_of(d: MemEntryV) -> Seq<Seq<char>> {
    match d.files {
        Some(f) => f,
        None => Seq::empty(),
    }
}

/// The entries named `names[i..]` in the directory `p`, up to the first name that has no entry.
pub open spec fn kids(es: Seq<MemEntryV>, p: Seq<char>, names: Seq<Seq<char>>, i: int) -> Seq<
    MemEntryV,
>
    decreases names.len() - i,
{
    if i < 0 || i >= names.len() {
        Seq::empty()
    } else {
        match lookup(es, mash_spec(p, names[i])) {
            None => Seq::empty(),
            Some(c) => seq![c] + kids(es, p, names, i + 1),
        }
    }
}

/// The model of the traversal options.
pub struct EntriesV {
    pub es: Seq<MemEntryV>,
    pub root: MemEntryV,
    pub dirs: bool,
    pub files: bool,
    pub follow: bool,
    pub min_depth: nat,
    pub max_depth: nat,
    pub dirs_first: bool,
    pub files_first: bool,
    pub sort_by_name: bool,
    pub contents_first: bool,
    pub sort: Option<SortBy>,
    /// what the operation run on each directory before it is entered answers: an error, or
    /// nothing to stop the traversal
    pub pre: spec_fn(MemEntryV) -> Option<RvErr>,
}

/// No operation before entering directories.
pub open spec fn no_pre() -> spec_fn(MemEntryV) -> Option<RvErr> {
    |x: MemEntryV| None::<RvErr>
}

/// The entries of a directory arranged as the options direct.
pub open spec fn arrange(s: Seq<MemEntryV>, o: EntriesV) -> Seq<MemEntryV> {
    match o.sort {
        None => s,
        Some(by) => if o.dirs_first {
            sorted_by(by, dirs_of(s)) + sorted_by(by, files_of(s))
        } else if o.files_first {
            sorted_by(by, files_of(s)) + sorted_by(by, dirs_of(s))
        } else {
            sorted_by(by, s)
        },
    }
}

/// The entries of the directory `p`, followed and arranged as the options direct.
pub open spec fn listing(o: EntriesV, p: Seq<char>) -> Result<Seq<MemEntryV>, RvErr> {
    match lookup(o.es, p) {
        None => Err(RvErr::DoesNotExist(p)),
        Some(d) => Ok(arrange(follow_all(kids(o.es, p, names_of(d), 0), o.follow), o)),
    }
}

/// The entries of the directory `x` about to be entered: the error of the operation run before
/// entering it, if it fails, else its listing.
pub open spec fn entered(o: EntriesV, x: MemEntryV) -> Result<Seq<MemEntryV>, RvErr> {
    match (o.pre)(x) {
        Some(e) => Err(e),
        None => listing(o, x.entry.path),
    }
}

/// What an answer of the operation run before entering a directory is to the traversal: an
/// error stops it from entering, anything else lets it.
pub open spec fn outcome(r: Result<(), RvError>) -> Option<RvErr> {
    match r {
        Ok(_) => None,
        Err(e) => Some(e@),
    }
}

/// Every answer `op` gives for an entry is what `pre` says of the entry.
pub open spec fn runs_as<F: Fn(&VfsEntry) -> Result<(), RvError>>(
    op: F,
    pre: spec_fn(MemEntryV) -> Option<RvErr>,
) -> bool {
    &&& forall|v: VfsEntry| #[trigger] call_requires(op, (&v,))
    &&& forall|m: MemfsEntry, r: Result<(), RvError>|
        #[trigger] call_ensures(op, (&VfsEntry::Memfs(m),), r) ==> outcome(r) == pre(m@)
}

/// `op` answers alike for entries alike.
pub open spec fn answers_alike<F: Fn(&VfsEntry) -> Result<(), RvError>>(op: F) -> bool {
    forall|a: MemfsEntry, b: MemfsEntry, ra: Result<(), RvError>, rb: Result<(), RvError>|
        a@ == b@ && #[trigger] call_ensures(op, (&VfsEntry::Memfs(a),), ra) && #[trigger] call_ensures(
            op,
            (&VfsEntry::Memfs(b),),
            rb,
        ) ==> outcome(ra) == outcome(rb)
}

/// What `op`, answering alike for entries alike, answers for an entry: what some call of it on
/// the entry gives, and nothing where no call is possible.
pub open spec fn pre_of<F: Fn(&VfsEntry) -> Result<(), RvError>>(op: F) -> spec_fn(MemEntryV) -> Option<RvErr> {
    |v: MemEntryV|
        if exists|m: MemfsEntry, r: Result<(), RvError>|
            m@ == v && #[trigger] call_ensures(op, (&VfsEntry::Memfs(m),), r) {
            outcome(
                (choose|m: MemfsEntry, r: Result<(), RvError>|
                    m@ == v && #[trigger] call_ensures(op, (&VfsEntry::Memfs(m),), r)).1,
            )
        } else {
            None
        }
}

/// An operation run before entering directories that never fails changes nothing of a
/// traversal.
pub proof fn lemma_pre_never_fails(o: EntriesV)
    requires
        forall|x: MemEntryV| #[trigger] (o.pre)(x) is None,
    ensures
        traverse(o) == traverse(EntriesV { pre: no_pre(), ..o }),
{
    assert(o.pre =~= no_pre());
    assert(o == EntriesV { pre: no_pre(), ..o });
}

/// One event of a traversal: an entry reached, a directory yielded after its contents, a
/// directory about to be entered, or an error.
pub enum WalkV {
    Entry(MemEntryV),
    Deferred(MemEntryV),
    Pre(MemEntryV),
    Error(RvErr),
}

/// One event of a traversal.
#[derive(Debug)]
pub enum Walked {
    Entry(MemfsEntry),
    Deferred(MemfsEntry),
    Pre(MemfsEntry),
    Error(RvError),
}

impl View for Walked {
    type V = WalkV;

    open spec fn view(&self) -> WalkV {
        match self {
            Walked::Entry(e) => WalkV::Entry(e@),
            Walked::Deferred(e) => WalkV::Deferred(e@),
            Walked::Pre(e) => WalkV::Pre(e@),
            Walked::Error(e) => WalkV::Error(e@),
        }
    }
}

/// The models of the events.
pub open spec fn walked_view(v: Seq<Walked>) -> Seq<WalkV> {
    v.map_values(|w: Walked| w@)
}

/// The directories put off until after their contents that are yielded once the traversal is
/// `k` directories deep: those above the first `k`, last first.
pub open spec fn flush(d: Seq<MemEntryV>, k: nat) -> (Seq<WalkV>, Seq<MemEntryV>)
    decreases d.len(),
{
    if d.len() <= k {
        (Seq::empty(), d)
    } else {
        let r = flush(d.drop_last(), k);
        (seq![WalkV::Deferred(d.last())] + r.0, r.1)
    }
}

/// The entry `x` at depth `k` yielded now, put off, or skipped as the depth options direct.
pub open spec fn emit(o: EntriesV, x: MemEntryV, k: nat, d: Seq<MemEntryV>) -> (
    Seq<WalkV>,
    Seq<MemEntryV>,
) {
    if k < o.min_depth {
        (Seq::empty(), d)
    } else if x.entry.dir && o.contents_first {
        (Seq::empty(), d.push(x))
    } else {
        (seq![WalkV::Entry(x)], d)
    }
}

/// The events of reaching the entry `x` at depth `k`, with `d` the directories put off and
/// `stack` the paths of the directories being traversed; and the directories put off after.
pub open spec fn walk(o: EntriesV, x: MemEntryV, k: nat, d: Seq<MemEntryV>, stack: Seq<Seq<char>>) -> (
    Seq<WalkV>,
    Seq<MemEntryV>,
)
    decreases o.max_depth - k, 1int, 0int,
{
    let recurse = x.entry.dir && (!x.entry.link || o.follow);
    if recurse && x.entry.link && stack.contains(x.entry.path) {
        (seq![WalkV::Error(RvErr::LinkLooping(x.entry.path))], d)
    } else if recurse && k < o.max_depth {
        match entered(o, x) {
            Err(e) => (seq![WalkV::Pre(x), WalkV::Error(e)], d),
            Ok(cs) => {
                let h = emit(o, x, k, d);
                let r = run(o, cs, 0, k + 1, h.1, stack.push(x.entry.path));
                (seq![WalkV::Pre(x)] + h.0 + r.0, r.1)
            },
        }
    } else {
        emit(o, x, k, d)
    }
}

/// The events of the entries `cs[i..]` of a directory at depth `k`: before each, and at the end,
/// the directories put off above depth `k` are yielded.
pub open spec fn run(
    o: EntriesV,
    cs: Seq<MemEntryV>,
    i: int,
    k: nat,
    d: Seq<MemEntryV>,
    stack: Seq<Seq<char>>,
) -> (Seq<WalkV>, Seq<MemEntryV>)
    decreases o.max_depth - k, 2int, cs.len() - i,
{
    let f = flush(d, k);
    if i < 0 || i >= cs.len() {
        f
    } else {
        let a = walk(o, cs[i], k, f.1, stack);
        let b = run(o, cs, i + 1, k, a.1, stack);
        (f.0 + a.0 + b.0, b.1)
    }
}

/// All the events of the traversal: from the root, followed as directed, then the directories
/// still put off.
pub open spec fn traverse(o: EntriesV) -> Seq<WalkV> {
    let w = walk(o, follow_mem(o.root, o.follow), 0, Seq::empty(), Seq::empty());
    w.0 + flush(w.1, 0).0
}

/// Which entries reached are yielded.
#[derive(Debug, Clone, Copy, PartialEq, Eq, Structural)]
pub enum Filter {
    All,
    Files,
    Dirs,
}

/// The entry passes the filter.
pub open spec fn passes(f: Filter, x: MemEntryV) -> bool {
    match f {
        Filter::All => true,
        Filter::Files => x.entry.file,
        Filter::Dirs => x.entry.dir,
    }
}

/// What a traversal yields from the events `s`: entries reached that pass the filter,
/// directories put off, and errors.
pub open spec fn visible(s: Seq<WalkV>, f: Filter) -> Seq<Result<MemEntryV, RvErr>>
    decreases s.len(),
{
    if s.len() == 0 {
        Seq::empty()
    } else {
        let rest = visible(s.drop_first(), f);
        match s[0] {
            WalkV::Pre(_) => rest,
            WalkV::Entry(x) => if passes(f, x) {
                seq![Ok(x)] + rest
            } else {
                rest
            },
            WalkV::Deferred(x) => seq![Ok(x)] + rest,
            WalkV::Error(e) => seq![Err(e)] + rest,
        }
    }
}

/// Every directory put off in `s` satisfies `good`.
pub open spec fn deferred_all(s: Seq<WalkV>, good: spec_fn(MemEntryV) -> bool) -> bool {
    forall|i: int| 0 <= i < s.len() && #[trigger] s[i] is Deferred ==> good(s[i]->Deferred_0)
}

/// Every entry of `d` satisfies `good`.
pub open spec fn all_good(d: Seq<MemEntryV>, good: spec_fn(MemEntryV) -> bool) -> bool {
    forall|i: int| 0 <= i < d.len() ==> good(#[trigger] d[i])
}

/// Only entries that satisfy `good` are ever put off.
pub open spec fn defers_good(o: EntriesV, good: spec_fn(MemEntryV) -> bool) -> bool {
    forall|x: MemEntryV| x.entry.dir && o.contents_first ==> #[trigger] good(x)
}

proof fn lemma_concat_deferred(a: Seq<WalkV>, b: Seq<WalkV>, good: spec_fn(MemEntryV) -> bool)
    requires
        deferred_all(a, good),
        deferred_all(b, good),
    ensures
        deferred_all(a + b, good),
{
    assert forall|i: int| 0 <= i < (a + b).len() && #[trigger] (a + b)[i] is Deferred implies good(
        (a + b)[i]->Deferred_0,
    ) by {
        if i < a.len() {
            assert((a + b)[i] == a[i]);
        } else {
            assert((a + b)[i] == b[i - a.len()]);
        }
    }
}

proof fn lemma_flush_good(d: Seq<MemEntryV>, k: nat, good: spec_fn(MemEntryV) -> bool)
    requires
        all_good(d, good),
    ensures
        deferred_all(flush(d, k).0, good),
        all_good(flush(d, k).1, good),
    decreases d.len(),
{
    if d.len() > k {
        let t = d.drop_last();
        assert forall|i: int| 0 <= i < t.len() implies good(#[trigger] t[i]) by {
            assert(t[i] == d[i]);
        }
        lemma_flush_good(t, k, good);
        assert(good(d[d.len() - 1]));
        lemma_concat_deferred(seq![WalkV::Deferred(d.last())], flush(t, k).0, good);
    }
}

proof fn lemma_walk_good(
    o: EntriesV,
    x: MemEntryV,
    k: nat,
    d: Seq<MemEntryV>,
    stack: Seq<Seq<char>>,
    good: spec_fn(MemEntryV) -> bool,
)
    requires
        all_good(d, good),
        defers_good(o, good),
    ensures
        deferred_all(walk(o, x, k, d, stack).0, good),
        all_good(walk(o, x, k, d, stack).1, good),
    decreases o.max_depth - k, 1int, 0int,
{
    let recurse = x.entry.dir && (!x.entry.link || o.follow);
    let h = emit(o, x, k, d);
    if x.entry.dir && o.contents_first {
        assert(good(x));
    }
    assert(all_good(h.1, good)) by {
        if !(k < o.min_depth) && x.entry.dir && o.contents_first {
            assert forall|i: int| 0 <= i < h.1.len() implies good(#[trigger] h.1[i]) by {
                if i < d.len() {
                    assert(h.1[i] == d[i]);
                }
            }
        }
    }
    if recurse && x.entry.link && stack.contains(x.entry.path) {
    } else if recurse && k < o.max_depth {
        match entered(o, x) {
            Err(e) => {},
            Ok(cs) => {
                lemma_run_good(o, cs, 0, k + 1, h.1, stack.push(x.entry.path), good);
                let r = run(o, cs, 0, k + 1, h.1, stack.push(x.entry.path));
                lemma_concat_deferred(seq![WalkV::Pre(x)], h.0, good);
                lemma_concat_deferred(seq![WalkV::Pre(x)] + h.0, r.0, good);
            },
        }
    }
}

proof fn lemma_run_good(
    o: EntriesV,
    cs: Seq<MemEntryV>,
    i: int,
    k: nat,
    d: Seq<MemEntryV>,
    stack: Seq<Seq<char>>,
    good: spec_fn(MemEntryV) -> bool,
)
    requires
        all_good(d, good),
        defers_good(o, good),
    ensures
        deferred_all(run(o, cs, i, k, d, stack).0, good),
        all_good(run(o, cs, i, k, d, stack).1, good),
    decreases o.max_depth - k, 2int, cs.len() - i,
{
    lemma_flush_good(d, k, good);
    let f = flush(d, k);
    if 0 <= i < cs.len() {
        lemma_walk_good(o, cs[i], k, f.1, stack, good);
        let a = walk(o, cs[i], k, f.1, stack);
        lemma_run_good(o, cs, i + 1, k, a.1, stack, good);
        let b = run(o, cs, i + 1, k, a.1, stack);
        lemma_concat_deferred(f.0, a.0, good);
        lemma_concat_deferred(f.0 + a.0, b.0, good);
    }
}

proof fn lemma_visible_good(s: Seq<WalkV>, f: Filter, good: spec_fn(MemEntryV) -> bool)
    requires
        deferred_all(s, good),
    ensures
        forall|i: int|
            0 <= i < visible(s, f).len() && #[trigger] visible(s, f)[i] is Ok ==> passes(
                f,
                visible(s, f)[i]->Ok_0,
            ) || good(visible(s, f)[i]->Ok_0),
    decreases s.len(),
{
    if s.len() > 0 {
        let t = s.drop_first();
        assert forall|i: int| 0 <= i < t.len() && #[trigger] t[i] is Deferred implies good(
            t[i]->Deferred_0,
        ) by {
            assert(t[i] == s[i + 1]);
        }
        lemma_visible_good(t, f, good);
        let v = visible(s, f);
        let w = visible(t, f);
        assert forall|i: int| 0 <= i < v.len() && #[trigger] v[i] is Ok implies passes(f, v[i]->Ok_0)
            || good(v[i]->Ok_0) by {
            match s[0] {
                WalkV::Pre(_) => {},
                WalkV::Entry(x) => {
                    if passes(f, x) && i > 0 {
                        assert(v[i] == w[i - 1]);
                    }
                },
                WalkV::Deferred(x) => {
                    if i > 0 {
                        assert(v[i] == w[i - 1]);
                    }
                },
                WalkV::Error(e) => {
                    if i > 0 {
                        assert(v[i] == w[i - 1]);
                    }
                },
            }
        }
    }
}

/// Only directories are put off until after their contents.
pub proof fn lemma_deferred_dirs(o: EntriesV)
    ensures
        deferred_all(traverse(o), |x: MemEntryV| x.entry.dir),
{
    let good = |x: MemEntryV| x.entry.dir;
    let w = walk(o, follow_mem(o.root, o.follow), 0, Seq::empty(), Seq::empty());
    lemma_walk_good(o, follow_mem(o.root, o.follow), 0, Seq::empty(), Seq::empty(), good);
    lemma_flush_good(w.1, 0, good);
    lemma_concat_deferred(w.0, flush(w.1, 0).0, good);
}

/// Nothing is put off when directories are not put after their contents.
pub proof fn lemma_no_deferred(o: EntriesV)
    requires
        !o.contents_first,
    ensures
        deferred_all(traverse(o), |x: MemEntryV| false),
{
    let good = |x: MemEntryV| false;
    let w = walk(o, follow_mem(o.root, o.follow), 0, Seq::empty(), Seq::empty());
    lemma_walk_good(o, follow_mem(o.root, o.follow), 0, Seq::empty(), Seq::empty(), good);
    lemma_flush_good(w.1, 0, good);
    lemma_concat_deferred(w.0, flush(w.1, 0).0, good);
}

/// With the directories filter, every entry yielded is a directory.
pub proof fn lemma_dirs_only(o: EntriesV)
    ensures
        forall|i: int|
            0 <= i < visible(traverse(o), Filter::Dirs).len() && #[trigger] visible(
                traverse(o),
                Filter::Dirs,
            )[i] is Ok ==> visible(traverse(o), Filter::Dirs)[i]->Ok_0.entry.dir,
{
    let good = |x: MemEntryV| x.entry.dir;
    let w = walk(o, follow_mem(o.root, o.follow), 0, Seq::empty(), Seq::empty());
    lemma_walk_good(o, follow_mem(o.root, o.follow), 0, Seq::empty(), Seq::empty(), good);
    lemma_flush_good(w.1, 0, good);
    lemma_concat_deferred(w.0, flush(w.1, 0).0, good);
    lemma_visible_good(traverse(o), Filter::Dirs, good);
}

/// With the files filter, and directories not put off after their contents, every entry
/// yielded is a file.
pub proof fn lemma_files_only(o: EntriesV)
    requires
        !o.contents_first,
    ensures
        forall|i: int|
            0 <= i < visible(traverse(o), Filter::Files).len() && #[trigger] visible(
                traverse(o),
                Filter::Files,
            )[i] is Ok ==> visible(traverse(o), Filter::Files)[i]->Ok_0.entry.file,
{
    let good = |x: MemEntryV| false;
    let w = walk(o, follow_mem(o.root, o.follow), 0, Seq::empty(), Seq::empty());
    lemma_walk_good(o, follow_mem(o.root, o.follow), 0, Seq::empty(), Seq::empty(), good);
    lemma_flush_good(w.1, 0, good);
    lemma_concat_deferred(w.0, flush(w.1, 0).0, good);
    lemma_visible_good(traverse(o), Filter::Files, good);
}

/// Provides a builder for traversing the memory filesystem from a given entry.
///
/// * Recursive directory traversal with depth control
/// * Symbolic link following, with links looping back onto a directory being traversed
///   reported as errors
/// * Directories yielded before their contents, or after them with `contents_first`
#[derive(Debug)]
pub struct Entries<'a> {
    pub fs: &'a Memfs,
    pub root: MemfsEntry,
    pub dirs: bool,
    pub files: bool,
    pub follow: bool,
    pub min_depth: usize,
    pub max_depth: usize,
    pub max_descriptors: u16,
    pub dirs_first: bool,
    pub files_first: bool,
    pub sort_by_name: bool,
    pub contents_first: bool,
    pub sort: Option<SortBy>,
}

impl<'a> View for Entries<'a> {
    type V = EntriesV;

    open spec fn view(&self) -> EntriesV {
        EntriesV {
            es: self.fs.ents(),
            root: self.root@,
            dirs: self.dirs,
            files: self.files,
            follow: self.follow,
            min_depth: self.min_depth as nat,
            max_depth: self.max_depth as nat,
            dirs_first: self.dirs_first,
            files_first: self.files_first,
            sort_by_name: self.sort_by_name,
            contents_first: self.contents_first,
            sort: self.sort,
            pre: no_pre(),
        }
    }
}

/// The events `v` again with `w` after them.
pub open spec fn appended(v: Seq<Walked>, w: Seq<WalkV>) -> Seq<WalkV> {
    walked_view(v) + w
}

/// Returns true when the path is one of the paths in the list.
fn paths_contain(stack: &Vec<Vec<char>>, p: &Vec<char>) -> (r: bool)
    ensures
        r == stack@.map_values(|x: Vec<char>| x@).contains(p@),
{
    let ghost sv = stack@.map_values(|x: Vec<char>| x@);
    let mut i: usize = 0;
    while i < stack.len()
        invariant
            i <= stack.len(),
            sv == stack@.map_values(|x: Vec<char>| x@),
            forall|j: int| 0 <= j < i ==> sv[j] != p@,
        decreases stack.len() - i,
    {
        if chars_eq(&stack[i], p) {
            assert(sv[i as int] == p@);
            return true;
        }
        i = i + 1;
    }
    false
}

/// The models of the paths.
pub open spec fn paths_view(v: Seq<Vec<char>>) -> Seq<Seq<char>> {
    v.map_values(|x: Vec<char>| x@)
}

/// Yields the directories put off above depth `k`, last first.
fn flush_exec(d: &mut Vec<MemfsEntry>, k: usize, out: &mut Vec<Walked>)
    ensures
        ents_view(final(d)@) == flush(ents_view(old(d)@), k as nat).1,
        walked_view(final(out)@) == walked_view(old(out)@) + flush(ents_view(old(d)@), k as nat).0,
{
    let ghost d0 = ents_view(d@);
    let ghost o0 = walked_view(out@);
    while d.len() > k
        invariant
            flush(ents_view(d@), k as nat).1 == flush(d0, k as nat).1,
            walked_view(out@) + flush(ents_view(d@), k as nat).0 == o0 + flush(d0, k as nat).0,
        decreases d.len(),
    {
        let ghost dv = ents_view(d@);
        let ghost ov = walked_view(out@);
        let e = d.pop().unwrap();
        assert(ents_view(d@) =~= dv.drop_last());
        assert(e@ == dv.last());
        out.push(Walked::Deferred(e));
        assert(walked_view(out@) =~= ov.push(WalkV::Deferred(dv.last())));
        assert(ov + flush(dv, k as nat).0 =~= walked_view(out@) + flush(ents_view(d@), k as nat).0);
    }
    assert(flush(ents_view(d@), k as nat).0 =~= Seq::<WalkV>::empty());
    assert(walked_view(out@) + Seq::<WalkV>::empty() =~= walked_view(out@));
}

impl Memfs {
    /// The entries of the directory at the absolute path `p`, up to the first name that has no
    /// entry.
    pub(crate) fn entry_iter_abs(&self, p: &Vec<char>, follow: bool) -> (r: Result<EntryIter, RvError>)
        ensures
            match lookup(self.ents(), p@) {
                None => (r matches Err(e) && e@ == RvErr::DoesNotExist(p@)),
                Some(d) => (r matches Ok(it) && it.rest() == kids(self.ents(), p@, names_of(d), 0)
                    && it.following == follow && !it.cached && it.path@ == p@),
            },
    {
        let i = match self.find(p) {
            None => return Err(RvError::Path(PathError::DoesNotExist(string_of(p)))),
            Some(i) => i,
        };
        assert(self.ents()[i as int] == self.entries@[i as int]@);
        let ghost names = names_of(self.ents()[i as int]);
        let names_v: Vec<String> = match &self.entries[i].files {
            Some(f) => crate::entry::clone_names(f),
            None => Vec::new(),
        };
        assert(crate::entry::names_view(names_v@) =~= names);
        let mut items: Vec<MemfsEntry> = Vec::new();
        let mut j: usize = 0;
        while j < names_v.len()
            invariant
                j <= names_v.len(),
                crate::entry::names_view(names_v@) == names,
                ents_view(items@) + kids(self.ents(), p@, names, j as int) == kids(
                    self.ents(),
                    p@,
                    names,
                    0,
                ),
            ensures
                j <= names_v.len(),
                ents_view(items@) + kids(self.ents(), p@, names, j as int) == kids(
                    self.ents(),
                    p@,
                    names,
                    0,
                ),
                j >= names_v.len() || kids(self.ents(), p@, names, j as int) == Seq::<MemEntryV>::empty(),
            decreases names_v.len() - j,
        {
            let n = chars_of(names_v[j].as_str());
            assert(names[j as int] == names_v@[j as int]@);
            let c = mash_chars(p, &n);
            match self.find(&c) {
                None => {
                    assert(kids(self.ents(), p@, names, j as int) =~= Seq::<MemEntryV>::empty());
                    break;
                },
                Some(ci) => {
                    assert(self.ents()[ci as int] == self.entries@[ci as int]@);
                    let ghost iv = ents_view(items@);
                    items.push(self.entries[ci].clone_entry());
                    assert(ents_view(items@) =~= iv.push(self.ents()[ci as int]));
                    assert(ents_view(items@) + kids(self.ents(), p@, names, j + 1) =~= iv + kids(
                        self.ents(),
                        p@,
                        names,
                        j as int,
                    ));
                },
            }
            j = j + 1;
        }
        proof {
            if j >= names_v.len() {
                assert(kids(self.ents(), p@, names, j as int) =~= Seq::<MemEntryV>::empty());
            }
        }
        assert(ents_view(items@) =~= kids(self.ents(), p@, names, 0)) by {
            assert(ents_view(items@) + Seq::<MemEntryV>::empty() =~= ents_view(items@));
        }
        let it = EntryIter { path: string_of(p), cached: false, following: follow, items, pos: 0 };
        assert(it.items@.skip(0) =~= it.items@);
        Ok(it)
    }

    /// Returns an iterator over the entries of the directory at `path`; links among them have
    /// their path and target switched when `follow` is set.
    ///
    /// ### Errors
    /// * PathError::Empty when the path is empty
    /// * PathError::DoesNotExist when the path doesn't exist
    pub fn entry_iter(&self, path: &str, follow: bool) -> (r: Result<EntryIter, RvError>)
        ensures
            match self.abs_of(path@) {
                Err(e) => (r matches Err(x) && x@ == e),
                Ok(a) => match lookup(self.ents(), a) {
                    None => (r matches Err(e) && e@ == RvErr::DoesNotExist(a)),
                    Some(d) => (r matches Ok(it) && it.rest() == kids(self.ents(), a, names_of(d), 0)
                        && it.following == follow && !it.cached && it.path@ == a),
                },
            },
    {
        let a = match self.abs_chars(path) {
            Ok(a) => a,
            Err(e) => return Err(e),
        };
        self.entry_iter_abs(&a, follow)
    }

    /// The entries of the directory `p`, followed and arranged as the options direct.
    fn listing_exec(&self, o: &Entries, p: &Vec<char>) -> (r: Result<Vec<MemfsEntry>, RvError>)
        requires
            o.fs.ents() == self.ents(),
        ensures
            match listing(o@, p@) {
                Ok(cs) => (r matches Ok(v) && ents_view(v@) == cs),
                Err(e) => (r matches Err(x) && x@ == e),
            },
    {
        let mut it = match self.entry_iter_abs(p, o.follow) {
            Ok(it) => it,
            Err(e) => return Err(e),
        };
        let ghost y = it.yields();
        proof {
            lemma_follow_all_followed(it.rest(), o.follow);
        }
        match o.sort {
            None => {},
            Some(by) => {
                if o.dirs_first {
                    it.dirs_first(by);
                    proof {
                        lemma_split_followed(y, o.follow);
                        lemma_sorted_followed(by, dirs_of(y), o.follow);
                        lemma_sorted_followed(by, files_of(y), o.follow);
                        lemma_concat_followed(sorted_by(by, dirs_of(y)), sorted_by(by, files_of(y)), o.follow);
                        lemma_followed_id(it.rest(), o.follow);
                    }
                } else if o.files_first {
                    it.files_first(by);
                    proof {
                        lemma_split_followed(y, o.follow);
                        lemma_sorted_followed(by, dirs_of(y), o.follow);
                        lemma_sorted_followed(by, files_of(y), o.follow);
                        lemma_concat_followed(sorted_by(by, files_of(y)), sorted_by(by, dirs_of(y)), o.follow);
                        lemma_followed_id(it.rest(), o.follow);
                    }
                } else {
                    it.sort(by);
                    proof {
                        lemma_sorted_followed(by, y, o.follow);
                        lemma_followed_id(it.rest(), o.follow);
                    }
                }
            },
        }
        let v = it.take_rest();
        Ok(v)
    }

    /// Adds the events of reaching the entry `x` at depth `k`.
    #[verifier::spinoff_prover]
    #[verifier::rlimit(60)]
    fn walk_exec<F: Fn(&VfsEntry) -> Result<(), RvError>>(
        &self,
        o: &Entries,
        model: Ghost<EntriesV>,
        op: &F,
        x: MemfsEntry,
        k: usize,
        d: &mut Vec<MemfsEntry>,
        stack: &mut Vec<Vec<char>>,
        out: &mut Vec<Walked>,
    )
        requires
            o.fs.ents() == self.ents(),
            k <= o.max_depth,
            model@ == (EntriesV { pre: model@.pre, ..o@ }),
            runs_as(*op, model@.pre),
        ensures
            ({
                let w = walk(model@, x@, k as nat, ents_view(old(d)@), paths_view(old(stack)@));
                &&& walked_view(final(out)@) == walked_view(old(out)@) + w.0
                &&& ents_view(final(d)@) == w.1
            }),
            paths_view(final(stack)@) == paths_view(old(stack)@),
        decreases o.max_depth - k, 1usize, 0usize,
    {
        let ghost xv = x@;
        let ghost st = paths_view(stack@);
        let ghost d0 = ents_view(d@);
        let ghost o0 = walked_view(out@);
        let recurse = x.dir && (!x.link || o.follow);
        let xp = chars_of(x.path.as_str());
        if recurse && x.link && paths_contain(stack, &xp) {
            out.push(Walked::Error(RvError::Path(PathError::LinkLooping(x.path.clone()))));
            assert(walked_view(out@) =~= o0 + seq![WalkV::Error(RvErr::LinkLooping(xv.entry.path))]);
            return;
        }
        if recurse && k < o.max_depth {
            out.push(Walked::Pre(x.clone_entry()));
            let ghost o1 = walked_view(out@);
            assert(o1 =~= o0 + seq![WalkV::Pre(xv)]);
            let c = x.clone_entry();
            let ghost cv = c;
            let v = VfsEntry::Memfs(c);
            let answer = op(&v);
            assert(call_ensures(*op, (&VfsEntry::Memfs(cv),), answer));
            if let Err(e) = answer {
                out.push(Walked::Error(e));
                assert(walked_view(out@) =~= o0 + seq![WalkV::Pre(xv), WalkV::Error(e@)]);
                return;
            }
            assert((model@.pre)(xv) is None);
            assert(listing(model@, xv.entry.path) == listing(o@, xv.entry.path));
            match self.listing_exec(o, &xp) {
                Err(e) => {
                    out.push(Walked::Error(e));
                    assert(walked_view(out@) =~= o0 + seq![WalkV::Pre(xv), WalkV::Error(e@)]);
                },
                Ok(cs) => {
                    Memfs::emit_exec(o, x, k, d, out);
                    let ghost o2 = walked_view(out@);
                    let ghost d2 = ents_view(d@);
                    stack.push(xp);
                    assert(paths_view(stack@) =~= st.push(xv.entry.path));
                    self.run_exec(o, model, op, &cs, k + 1, d, stack, out);
                    let ghost s1 = stack@;
                    assert(paths_view(s1).len() == s1.len());
                    stack.pop();
                    assert(stack@ == s1.drop_last());
                    assert(paths_view(s1.drop_last()) =~= paths_view(s1).drop_last());
                    assert(paths_view(stack@) =~= st);
                    let ghost h = emit(model@, xv, k as nat, d0);
                    let ghost r = run(model@, ents_view(cs@), 0, (k + 1) as nat, h.1, st.push(xv.entry.path));
                    assert(walked_view(out@) =~= o0 + (seq![WalkV::Pre(xv)] + h.0 + r.0));
                },
            }
        } else {
            Memfs::emit_exec(o, x, k, d, out);
        }
    }

    /// Adds the entry `x` at depth `k`, yielded now, put off, or skipped.
    fn emit_exec(o: &Entries, x: MemfsEntry, k: usize, d: &mut Vec<MemfsEntry>, out: &mut Vec<Walked>)
        ensures
            ({
                let h = emit(o@, x@, k as nat, ents_view(old(d)@));
                &&& walked_view(final(out)@) == walked_view(old(out)@) + h.0
                &&& ents_view(final(d)@) == h.1
            }),
    {
        let ghost d0 = ents_view(d@);
        let ghost o0 = walked_view(out@);
        let ghost xv = x@;
        if k < o.min_depth {
            assert(o0 + Seq::<WalkV>::empty() =~= o0);
        } else if x.dir && o.contents_first {
            d.push(x);
            assert(ents_view(d@) =~= d0.push(xv));
            assert(o0 + Seq::<WalkV>::empty() =~= o0);
        } else {
            out.push(Walked::Entry(x));
            assert(walked_view(out@) =~= o0 + seq![WalkV::Entry(xv)]);
        }
    }

    /// Adds the events of the entries `cs` of a directory at depth `k`.
    fn run_exec<F: Fn(&VfsEntry) -> Result<(), RvError>>(
        &self,
        o: &Entries,
        model: Ghost<EntriesV>,
        op: &F,
        cs: &Vec<MemfsEntry>,
        k: usize,
        d: &mut Vec<MemfsEntry>,
        stack: &mut Vec<Vec<char>>,
        out: &mut Vec<Walked>,
    )
        requires
            o.fs.ents() == self.ents(),
            k <= o.max_depth,
            model@ == (EntriesV { pre: model@.pre, ..o@ }),
            runs_as(*op, model@.pre),
        ensures
            ({
                let r = run(model@, ents_view(cs@), 0, k as nat, ents_view(old(d)@), paths_view(old(stack)@));
                &&& walked_view(final(out)@) == walked_view(old(out)@) + r.0
                &&& ents_view(final(d)@) == r.1
            }),
            paths_view(final(stack)@) == paths_view(old(stack)@),
        decreases o.max_depth - k, 2usize, 0usize,
    {
        let ghost csv = ents_view(cs@);
        let ghost st = paths_view(stack@);
        let ghost r0 = run(model@, csv, 0, k as nat, ents_view(d@), st);
        let ghost o0 = walked_view(out@);
        let mut i: usize = 0;
        while i < cs.len()
            invariant
                o.fs.ents() == self.ents(),
                k <= o.max_depth,
                model@ == (EntriesV { pre: model@.pre, ..o@ }),
                runs_as(*op, model@.pre),
                i <= cs.len(),
                csv == ents_view(cs@),
                paths_view(stack@) == st,
                walked_view(out@) + run(model@, csv, i as int, k as nat, ents_view(d@), st).0 == o0
                    + r0.0,
                run(model@, csv, i as int, k as nat, ents_view(d@), st).1 == r0.1,
            decreases cs.len() - i,
        {
            let ghost dv = ents_view(d@);
            let ghost ov = walked_view(out@);
            let ghost f = flush(dv, k as nat);
            flush_exec(d, k, out);
            let x = cs[i].clone_entry();
            assert(x@ == csv[i as int]);
            self.walk_exec(o, model, op, x, k, d, stack, out);
            let ghost a = walk(model@, csv[i as int], k as nat, f.1, st);
            let ghost b = run(model@, csv, i + 1, k as nat, a.1, st);
            assert(run(model@, csv, i as int, k as nat, dv, st) == (f.0 + a.0 + b.0, b.1));
            assert(walked_view(out@) =~= ov + f.0 + a.0);
            assert(ov + (f.0 + a.0 + b.0) =~= walked_view(out@) + b.0);
            i = i + 1;
        }
        let ghost dv = ents_view(d@);
        let ghost ov = walked_view(out@);
        flush_exec(d, k, out);
        assert(run(model@, csv, i as int, k as nat, dv, st) == flush(dv, k as nat));
    }

    /// Returns a builder for traversing the filesystem from `path`.
    ///
    /// ### Errors
    /// * PathError::Empty when the path is empty
    /// * PathError::DoesNotExist when the path doesn't exist
    pub fn entries(&self, path: &str) -> (r: Result<Entries<'_>, RvError>)
        ensures
            match self.abs_of(path@) {
                Err(e) => (r matches Err(x) && x@ == e),
                Ok(a) => match lookup(self.ents(), a) {
                    None => (r matches Err(e) && e@ == RvErr::DoesNotExist(a)),
                    Some(x) => (r matches Ok(en) && en@ == (EntriesV {
                        es: self.ents(),
                        root: x,
                        dirs: false,
                        files: false,
                        follow: false,
                        min_depth: 0,
                        max_depth: usize::MAX as nat,
                        dirs_first: false,
                        files_first: false,
                        sort_by_name: false,
                        contents_first: false,
                        sort: None,
                        pre: no_pre(),
                    }) && en.fs == self),
                },
            },
    {
        let a = match self.abs_chars(path) {
            Ok(a) => a,
            Err(e) => return Err(e),
        };
        match self.find(&a) {
            None => Err(RvError::Path(PathError::DoesNotExist(string_of(&a)))),
            Some(i) => {
                assert(self.ents()[i as int] == self.entries@[i as int]@);
                Ok(Entries {
                    fs: self,
                    root: self.entries[i].clone_entry(),
                    dirs: false,
                    files: false,
                    follow: false,
                    min_depth: 0,
                    max_depth: usize::MAX,
                    max_descriptors: 50,
                    dirs_first: false,
                    files_first: false,
                    sort_by_name: false,
                    contents_first: false,
                    sort: None,
                })
            },
        }
    }
}

/// Iterates over what a traversal yields.
#[derive(Debug)]
pub struct EntriesIter<'a> {
    pub opts: Entries<'a>,
    pub items: Vec<Walked>,
    pub pos: usize,
    pub filter: Filter,
}

impl<'a> EntriesIter<'a> {
    /// What is left to yield.
    pub open spec fn left(&self) -> Seq<Result<MemEntryV, RvErr>> {
        if self.pos <= self.items.len() {
            visible(walked_view(self.items@.skip(self.pos as int)), self.filter)
        } else {
            Seq::empty()
        }
    }

    /// Returns the next entry, or error, of the traversal.
    pub fn next(&mut self) -> (r: Option<Result<VfsEntry, RvError>>)
        ensures
            old(self).left().len() == 0 ==> r is None && final(self).left().len() == 0,
            old(self).left().len() > 0 ==> final(self).left() == old(self).left().drop_first()
                && match old(self).left()[0] {
                Ok(x) => (r matches Some(Ok(VfsEntry::Memfs(m))) && m@ == x),
                Err(e) => (r matches Some(Err(y)) && y@ == e),
            },
            final(self).opts@ == old(self).opts@,
            final(self).filter == old(self).filter,
    {
        if self.pos > self.items.len() {
            return None;
        }
        while self.pos < self.items.len()
            invariant
                self.pos <= self.items.len(),
                self.left() == old(self).left(),
                self.opts@ == old(self).opts@,
                self.filter == old(self).filter,
                self.items@ == old(self).items@,
            decreases self.items.len() - self.pos,
        {
            let ghost s = walked_view(self.items@.skip(self.pos as int));
            let i = self.pos;
            self.pos = self.pos + 1;
            assert(s.drop_first() =~= walked_view(self.items@.skip(self.pos as int)));
            assert(s[0] == self.items@[i as int]@);
            match &self.items[i] {
                Walked::Pre(_) => {},
                Walked::Entry(x) => {
                    let pass = match self.filter {
                        Filter::All => true,
                        Filter::Files => x.file,
                        Filter::Dirs => x.dir,
                    };
                    if pass {
                        return Some(Ok(VfsEntry::Memfs(x.clone_entry())));
                    }
                },
                Walked::Deferred(x) => {
                    return Some(Ok(VfsEntry::Memfs(x.clone_entry())));
                },
                Walked::Error(e) => {
                    return Some(Err(e.clone_error()));
                },
            }
        }
        assert(walked_view(self.items@.skip(self.pos as int)) =~= Seq::<WalkV>::empty());
        None
    }
}

/// What is yielded from the events `s` when each entry reached is kept as `keep` says.
pub open spec fn kept(s: Seq<WalkV>, keep: Seq<bool>) -> Seq<Result<MemEntryV, RvErr>>
    decreases s.len(),
{
    if s.len() == 0 {
        Seq::empty()
    } else {
        let rest = kept(s.drop_first(), keep.drop_first());
        match s[0] {
            WalkV::Pre(_) => rest,
            WalkV::Entry(x) => if keep[0] {
                seq![Ok(x)] + rest
            } else {
                rest
            },
            WalkV::Deferred(x) => seq![Ok(x)] + rest,
            WalkV::Error(e) => seq![Err(e)] + rest,
        }
    }
}

/// The paths of what is yielded, or the first error.
pub open spec fn collect_paths(s: Seq<Result<MemEntryV, RvErr>>) -> Result<Seq<Seq<char>>, RvErr>
    decreases s.len(),
{
    if s.len() == 0 {
        Ok(Seq::empty())
    } else {
        match s[0] {
            Err(e) => Err(e),
            Ok(x) => match collect_paths(s.drop_first()) {
                Err(e) => Err(e),
                Ok(ps) => Ok(seq![x.entry.path] + ps),
            },
        }
    }
}

/// Yielding from events appended is yielding from each part in turn.
pub proof fn lemma_visible_push(s: Seq<WalkV>, w: WalkV, f: Filter)
    ensures
        visible(s.push(w), f) == visible(s, f) + visible(seq![w], f),
    decreases s.len(),
{
    if s.len() == 0 {
        assert(s.push(w) =~= seq![w]);
        assert(visible(s, f) =~= Seq::<Result<MemEntryV, RvErr>>::empty());
        assert(visible(s, f) + visible(seq![w], f) =~= visible(seq![w], f));
    } else {
        assert(s.push(w).drop_first() =~= s.drop_first().push(w));
        assert(s.push(w)[0] == s[0]);
        lemma_visible_push(s.drop_first(), w, f);
        let a = visible(s.drop_first(), f);
        let b = visible(seq![w], f);
        match s[0] {
            WalkV::Entry(x) => {
                if passes(f, x) {
                    assert(seq![Ok(x)] + (a + b) =~= (seq![Ok(x)] + a) + b);
                }
            },
            WalkV::Deferred(x) => {
                assert(seq![Ok(x)] + (a + b) =~= (seq![Ok(x)] + a) + b);
            },
            WalkV::Error(e) => {
                assert(seq![Err(e)] + (a + b) =~= (seq![Err(e)] + a) + b);
            },
            WalkV::Pre(_) => {},
        }
    }
}

/// Keeping from events appended is keeping from each part in turn.
pub proof fn lemma_kept_push(s: Seq<WalkV>, keep: Seq<bool>, w: WalkV, b: bool)
    requires
        keep.len() == s.len(),
    ensures
        kept(s.push(w), keep.push(b)) == kept(s, keep) + kept(seq![w], seq![b]),
    decreases s.len(),
{
    if s.len() == 0 {
        assert(s.push(w) =~= seq![w]);
        assert(keep.push(b) =~= seq![b]);
        assert(kept(s, keep) =~= Seq::<Result<MemEntryV, RvErr>>::empty());
        assert(kept(s, keep) + kept(seq![w], seq![b]) =~= kept(seq![w], seq![b]));
    } else {
        assert(s.push(w).drop_first() =~= s.drop_first().push(w));
        assert(keep.push(b).drop_first() =~= keep.drop_first().push(b));
        assert(s.push(w)[0] == s[0]);
        assert(keep.push(b)[0] == keep[0]);
        lemma_kept_push(s.drop_first(), keep.drop_first(), w, b);
        let a = kept(s.drop_first(), keep.drop_first());
        let c = kept(seq![w], seq![b]);
        match s[0] {
            WalkV::Entry(x) => {
                if keep[0] {
                    assert(seq![Ok(x)] + (a + c) =~= (seq![Ok(x)] + a) + c);
                }
            },
            WalkV::Deferred(x) => {
                assert(seq![Ok(x)] + (a + c) =~= (seq![Ok(x)] + a) + c);
            },
            WalkV::Error(e) => {
                assert(seq![Err(e)] + (a + c) =~= (seq![Err(e)] + a) + c);
            },
            WalkV::Pre(_) => {},
        }
    }
}

/// Keeping, of the entries reached, exactly those that pass a filter yields what the filter
/// yields: a predicate that accepts the directories, or the files, does what `dirs` or `files`
/// does.
pub proof fn lemma_kept_filter(s: Seq<WalkV>, keep: Seq<bool>, f: Filter)
    requires
        keep.len() == s.len(),
        forall|i: int| 0 <= i < s.len() && #[trigger] s[i] is Entry ==> keep[i] == passes(f, s[i]->Entry_0),
    ensures
        kept(s, keep) == visible(s, f),
    decreases s.len(),
{
    if s.len() > 0 {
        let t = s.drop_first();
        let kt = keep.drop_first();
        assert forall|i: int| 0 <= i < t.len() && #[trigger] t[i] is Entry implies kt[i] == passes(
            f,
            t[i]->Entry_0,
        ) by {
            assert(t[i] == s[i + 1]);
            assert(kt[i] == keep[i + 1]);
        }
        lemma_kept_filter(t, kt, f);
        if s[0] is Entry {
            assert(keep[0] == passes(f, s[0]->Entry_0));
        }
    }
}

/// Keeping every entry reached yields what a traversal without a filter yields, entries
/// (including those put off) and errors, each once and in order.
pub proof fn lemma_kept_all(s: Seq<WalkV>)
    ensures
        kept(s, Seq::new(s.len(), |i: int| true)) == visible(s, Filter::All),
{
    lemma_kept_filter(s, Seq::new(s.len(), |i: int| true), Filter::All);
}

impl<'a> EntriesIter<'a> {
    /// Keeps, of the entries reached that are left, those for which the predicate holds, in
    /// place of the filter set by the options; directories put off and errors are kept.
    pub fn filter_p(self, predicate: impl Fn(&VfsEntry) -> bool) -> (r: EntriesIter<'a>)
        requires
            forall|v: VfsEntry| #[trigger] call_requires(predicate, (&v,)),
        ensures
            r.opts@ == self.opts@,
            r.filter == Filter::All,
            ({
                let s = if self.pos <= self.items.len() {
                    walked_view(self.items@.skip(self.pos as int))
                } else {
                    Seq::empty()
                };
                exists|keep: Seq<bool>, vs: Seq<VfsEntry>|
                    {
                        &&& keep.len() == s.len()
                        &&& vs.len() == s.len()
                        &&& forall|i: int|
                            0 <= i < s.len() && #[trigger] s[i] is Entry ==> (vs[i] matches VfsEntry::Memfs(m)
                                && m@ == s[i]->Entry_0) && call_ensures(predicate, (&vs[i],), keep[i])
                        &&& r.left() == kept(s, keep)
                    }
            }),
    {
        let ghost s = if self.pos <= self.items.len() {
            walked_view(self.items@.skip(self.pos as int))
        } else {
            Seq::empty()
        };
        let mut items: Vec<Walked> = Vec::new();
        let ghost mut keep: Seq<bool> = Seq::empty();
        let ghost mut vs: Seq<VfsEntry> = Seq::empty();
        let start = if self.pos <= self.items.len() {
            self.pos
        } else {
            self.items.len()
        };
        proof {
            if self.pos <= self.items.len() {
                assert(s.len() == self.items.len() - start);
                assert forall|j: int| 0 <= j < s.len() implies #[trigger] s[j] == self.items@[start
                    + j]@ by {
                    assert(self.items@.skip(self.pos as int)[j] == self.items@[start + j]);
                }
            }
            assert(s.take(0) =~= Seq::<WalkV>::empty());
            assert(visible(walked_view(items@), Filter::All) =~= Seq::<Result<MemEntryV, RvErr>>::empty());
        }
        let mut i = start;
        while i < self.items.len()
            invariant
                start <= i <= self.items.len(),
                s.len() == self.items.len() - start,
                forall|j: int| 0 <= j < s.len() ==> #[trigger] s[j] == self.items@[start + j]@,
                keep.len() == i - start,
                vs.len() == i - start,
                forall|j: int|
                    0 <= j < i - start && #[trigger] s[j] is Entry ==> (vs[j] matches VfsEntry::Memfs(m)
                        && m@ == s[j]->Entry_0) && call_ensures(predicate, (&vs[j],), keep[j]),
                forall|v: VfsEntry| #[trigger] call_requires(predicate, (&v,)),
                visible(walked_view(items@), Filter::All) == kept(s.take(i - start), keep),
            decreases self.items.len() - i,
        {
            let ghost n = i - start;
            let ghost sv = s.take(n);
            let ghost w = s[n];
            assert(s.take(n + 1) =~= sv.push(w));
            let ghost iv = walked_view(items@);
            let ghost mut b = false;
            assert(w == self.items@[i as int]@);
            assert(seq![w].drop_first() =~= Seq::<WalkV>::empty());
            assert(visible(Seq::<WalkV>::empty(), Filter::All) =~= Seq::<Result<MemEntryV, RvErr>>::empty());
            assert(kept(Seq::<WalkV>::empty(), Seq::<bool>::empty()) =~= Seq::<Result<MemEntryV, RvErr>>::empty());
            assert(seq![true].drop_first() =~= Seq::<bool>::empty());
            assert(seq![false].drop_first() =~= Seq::<bool>::empty());
            match &self.items[i] {
                Walked::Pre(x) => {
                    proof {
                        b = false;
                        lemma_kept_push(sv, keep, w, b);
                        vs = vs.push(VfsEntry::Memfs(*x));
                    }
                    assert(kept(seq![w].drop_first(), seq![b].drop_first()) =~= Seq::<Result<MemEntryV, RvErr>>::empty());
                    assert(kept(seq![w], seq![b]) =~= Seq::<Result<MemEntryV, RvErr>>::empty());
                },
                Walked::Entry(x) => {
                    let v = VfsEntry::Memfs(x.clone_entry());
                    let yes = predicate(&v);
                    proof {
                        b = yes;
                        lemma_kept_push(sv, keep, w, b);
                    }
                    if yes {
                        items.push(Walked::Entry(x.clone_entry()));
                        proof {
                            lemma_visible_push(iv, WalkV::Entry(x@), Filter::All);
                        }
                        assert(walked_view(items@) =~= iv.push(WalkV::Entry(x@)));
                    } else {
                        assert(kept(seq![w].drop_first(), seq![b].drop_first()) =~= Seq::<Result<MemEntryV, RvErr>>::empty());
                    assert(kept(seq![w], seq![b]) =~= Seq::<Result<MemEntryV, RvErr>>::empty());
                    }
                    proof {
                        vs = vs.push(v);
                    }
                },
                Walked::Deferred(x) => {
                    items.push(Walked::Deferred(x.clone_entry()));
                    proof {
                        lemma_kept_push(sv, keep, w, b);
                        lemma_visible_push(iv, WalkV::Deferred(x@), Filter::All);
                        vs = vs.push(VfsEntry::Memfs(*x));
                    }
                    assert(walked_view(items@) =~= iv.push(WalkV::Deferred(x@)));
                },
                Walked::Error(e) => {
                    items.push(Walked::Error(e.clone_error()));
                    proof {
                        lemma_kept_push(sv, keep, w, b);
                        lemma_visible_push(iv, WalkV::Error(e@), Filter::All);
                        vs = vs.push(vstd::pervasive::arbitrary());
                    }
                    assert(walked_view(items@) =~= iv.push(WalkV::Error(e@)));
                },
            }
            proof {
                keep = keep.push(b);
            }
            i = i + 1;
        }
        assert(s.take(i - start) =~= s);
        let r = EntriesIter { opts: self.opts, items, pos: 0, filter: Filter::All };
        assert(r.items@.skip(0) =~= r.items@);
        r
    }
}

impl<'a> Entries<'a> {
    /// Filters entries down to just directories.
    pub fn dirs(self) -> (r: Entries<'a>)
        ensures
            r@ == (EntriesV { dirs: true, files: false, ..self@ }),
            r.fs == self.fs,
    {
        let mut x = self;
        x.dirs = true;
        x.files = false;
        x
    }

    /// Filters entries down to just files.
    pub fn files(self) -> (r: Entries<'a>)
        ensures
            r@ == (EntriesV { dirs: false, files: true, ..self@ }),
            r.fs == self.fs,
    {
        let mut x = self;
        x.dirs = false;
        x.files = true;
        x
    }

    /// Sets whether links to directories are followed into.
    pub fn follow(self, yes: bool) -> (r: Entries<'a>)
        ensures
            r@ == (EntriesV { follow: yes, ..self@ }),
            r.fs == self.fs,
    {
        let mut x = self;
        x.follow = yes;
        x
    }

    /// Sets the least depth yielded; the given path is depth 0. It is lowered to the max depth
    /// when above it.
    pub fn min_depth(self, min: usize) -> (r: Entries<'a>)
        ensures
            r@ == (EntriesV {
                min_depth: if min > self.max_depth {
                    self.max_depth as nat
                } else {
                    min as nat
                },
                ..self@
            }),
            r.fs == self.fs,
    {
        let mut x = self;
        x.min_depth = min;
        if x.min_depth > x.max_depth {
            x.min_depth = x.max_depth;
        }
        x
    }

    /// Sets the greatest depth traversed; the given path is depth 0. It is raised to the min
    /// depth when below it.
    pub fn max_depth(self, max: usize) -> (r: Entries<'a>)
        ensures
            r@ == (EntriesV {
                max_depth: if max < self.min_depth {
                    self.min_depth as nat
                } else {
                    max as nat
                },
                ..self@
            }),
            r.fs == self.fs,
    {
        let mut x = self;
        x.max_depth = max;
        if x.max_depth < x.min_depth {
            x.max_depth = x.min_depth;
        }
        x
    }

    /// Sorts the entries of each directory with directories first, then by name.
    pub fn dirs_first(self) -> (r: Entries<'a>)
        ensures
            r@ == (EntriesV { dirs_first: true, sort: Some(SortBy::Name), ..self@ }),
            r.fs == self.fs,
    {
        let mut x = self;
        x.dirs_first = true;
        x.sort(SortBy::Name)
    }

    /// Sorts the entries of each directory with files first, then by name.
    pub fn files_first(self) -> (r: Entries<'a>)
        ensures
            r@ == (EntriesV { files_first: true, sort: Some(SortBy::Name), ..self@ }),
            r.fs == self.fs,
    {
        let mut x = self;
        x.files_first = true;
        x.sort(SortBy::Name)
    }

    /// Yields the contents of directories before the directories themselves.
    pub fn contents_first(self) -> (r: Entries<'a>)
        ensures
            r@ == (EntriesV { contents_first: true, ..self@ }),
            r.fs == self.fs,
    {
        let mut x = self;
        x.contents_first = true;
        x
    }

    /// Sorts the entries of each directory by name.
    pub fn sort_by_name(self) -> (r: Entries<'a>)
        ensures
            r@ == (EntriesV { sort_by_name: true, sort: Some(SortBy::Name), ..self@ }),
            r.fs == self.fs,
    {
        let mut x = self;
        x.sort_by_name = true;
        x.sort(SortBy::Name)
    }

    /// Sorts the entries of each directory in the given order.
    pub fn sort(self, by: SortBy) -> (r: Entries<'a>)
        ensures
            r@ == (EntriesV { sort: Some(by), ..self@ }),
            r.fs == self.fs,
    {
        let mut x = self;
        x.sort = Some(by);
        x
    }

    /// Traverses the filesystem, running `op` on each directory before it is entered (to grant
    /// permissions on the way in, say), and returns an iterator over what is yielded. Where `op`
    /// fails, its error is yielded in place of the directory, which is neither yielded nor
    /// entered. `op` is taken to answer alike for entries alike.
    pub fn pre_op<F: Fn(&VfsEntry) -> Result<(), RvError>>(self, op: F) -> (r: EntriesIter<'a>)
        requires
            forall|v: VfsEntry| #[trigger] call_requires(op, (&v,)),
            answers_alike(op),
        ensures
            r.opts@ == self@,
            r.filter == (if self.files {
                Filter::Files
            } else if self.dirs {
                Filter::Dirs
            } else {
                Filter::All
            }),
            r.left() == visible(traverse(EntriesV { pre: pre_of(op), ..self@ }), r.filter),
    {
        let ghost model = EntriesV { pre: pre_of(op), ..self@ };
        proof {
            assert forall|m: MemfsEntry, a: Result<(), RvError>|
                #[trigger] call_ensures(op, (&VfsEntry::Memfs(m),), a) implies outcome(a) == (model.pre)(m@) by {
                assert(exists|m2: MemfsEntry, a2: Result<(), RvError>|
                    m2@ == m@ && #[trigger] call_ensures(op, (&VfsEntry::Memfs(m2),), a2));
                let (m2, a2) = choose|m2: MemfsEntry, a2: Result<(), RvError>|
                    m2@ == m@ && #[trigger] call_ensures(op, (&VfsEntry::Memfs(m2),), a2);
                assert(outcome(a2) == outcome(a));
            }
        }
        let mut out: Vec<Walked> = Vec::new();
        let mut d: Vec<MemfsEntry> = Vec::new();
        let mut stack: Vec<Vec<char>> = Vec::new();
        let x = self.root.clone_entry().follow(self.follow);
        assert(ents_view(d@) =~= Seq::<MemEntryV>::empty());
        assert(paths_view(stack@) =~= Seq::<Seq<char>>::empty());
        self.fs.walk_exec(&self, Ghost(model), &op, x, 0, &mut d, &mut stack, &mut out);
        flush_exec(&mut d, 0, &mut out);
        assert(walked_view(out@) =~= traverse(model));
        let filter = if self.files {
            Filter::Files
        } else if self.dirs {
            Filter::Dirs
        } else {
            Filter::All
        };
        let r = EntriesIter { opts: self, items: out, pos: 0, filter };
        assert(r.items@.skip(0) =~= r.items@);
        r
    }

    /// Traverses the filesystem and returns an iterator over what is yielded.
    pub fn into_iter(self) -> (r: EntriesIter<'a>)
        ensures
            r.opts@ == self@,
            r.filter == (if self.files {
                Filter::Files
            } else if self.dirs {
                Filter::Dirs
            } else {
                Filter::All
            }),
            r.left() == visible(traverse(self@), r.filter),
    {
        let items = self.walk_all();
        let filter = if self.files {
            Filter::Files
        } else if self.dirs {
            Filter::Dirs
        } else {
            Filter::All
        };
        let r = EntriesIter { opts: self, items, pos: 0, filter };
        assert(r.items@.skip(0) =~= r.items@);
        r
    }

    /// All the events of the traversal.
    pub fn walk_all(&self) -> (r: Vec<Walked>)
        ensures
            walked_view(r@) == traverse(self@),
    {
        let mut out: Vec<Walked> = Vec::new();
        let mut d: Vec<MemfsEntry> = Vec::new();
        let mut stack: Vec<Vec<char>> = Vec::new();
        let x = self.root.clone_entry().follow(self.follow);
        assert(ents_view(d@) =~= Seq::<MemEntryV>::empty());
        assert(paths_view(stack@) =~= Seq::<Seq<char>>::empty());
        let none = |v: &VfsEntry| -> (r: Result<(), RvError>)
            ensures
                r is Ok,
            { Ok(()) };
        self.fs.walk_exec(self, Ghost(self@), &none, x, 0, &mut d, &mut stack, &mut out);
        flush_exec(&mut d, 0, &mut out);
        assert(walked_view(out@) =~= traverse(self@));
        out
    }
}

/// The models of the strings.
pub open spec fn strings_view(v: Seq<String>) -> Seq<Seq<char>> {
    v.map_values(|x: String| x@)
}

/// The options with which the children of a directory are listed: depth one only, sorted by
/// name, with the given filter.
pub open spec fn child_opts(es: Seq<MemEntryV>, root: MemEntryV, dirs: bool, files: bool) -> EntriesV {
    EntriesV {
        es,
        root,
        dirs: dirs && !files,
        files,
        follow: false,
        min_depth: 1,
        max_depth: 1,
        dirs_first: false,
        files_first: false,
        sort_by_name: true,
        contents_first: false,
        sort: Some(SortBy::Name),
        pre: no_pre(),
    }
}

/// The paths of the children of the directory at `path`, listed with the given filter, or the
/// error met.
pub open spec fn children_spec(fs: Memfs, path: Seq<char>, dirs: bool, files: bool) -> Result<
    Seq<Seq<char>>,
    RvErr,
> {
    if !(fs.entry_at(path) matches Some(e) && e.entry.dir) {
        Err(RvErr::IsNotDir(path))
    } else {
        let f = if files {
            Filter::Files
        } else if dirs {
            Filter::Dirs
        } else {
            Filter::All
        };
        collect_paths(
            visible(traverse(child_opts(fs.ents(), fs.entry_at(path)->Some_0, dirs, files)), f),
        )
    }
}

/// The options with which everything below a directory is listed: from depth one down, sorted
/// by name, with the given filter.
pub open spec fn below_opts(es: Seq<MemEntryV>, root: MemEntryV, dirs: bool, files: bool) -> EntriesV {
    EntriesV { max_depth: usize::MAX as nat, ..child_opts(es, root, dirs, files) }
}

/// The paths of everything below the directory at `path`, listed with the given filter, or the
/// error met.
pub open spec fn below_spec(fs: Memfs, path: Seq<char>, dirs: bool, files: bool) -> Result<
    Seq<Seq<char>>,
    RvErr,
> {
    if !(fs.entry_at(path) matches Some(e) && e.entry.dir) {
        Err(RvErr::IsNotDir(path))
    } else {
        let f = if files {
            Filter::Files
        } else if dirs {
            Filter::Dirs
        } else {
            Filter::All
        };
        collect_paths(
            visible(traverse(below_opts(fs.ents(), fs.entry_at(path)->Some_0, dirs, files)), f),
        )
    }
}

/// Collects the paths of what is left to yield, stopping at the first error.
fn collect_exec(it: &mut EntriesIter) -> (r: Result<Vec<String>, RvError>)
    ensures
        match collect_paths(old(it).left()) {
            Ok(ps) => (r matches Ok(v) && strings_view(v@) == ps),
            Err(e) => (r matches Err(x) && x@ == e),
        },
{
    let ghost l0 = it.left();
    let mut paths: Vec<String> = Vec::new();
    loop
        invariant
            l0 == old(it).left(),
            match collect_paths(l0) {
                Ok(ps) => match collect_paths(it.left()) {
                    Ok(qs) => strings_view(paths@) + qs == ps,
                    Err(_) => false,
                },
                Err(e) => match collect_paths(it.left()) {
                    Ok(_) => false,
                    Err(e2) => e2 == e,
                },
            },
        decreases it.left().len(),
    {
        let ghost l = it.left();
        match it.next() {
            None => {
                assert(strings_view(paths@) + Seq::<Seq<char>>::empty() =~= strings_view(paths@));
                return Ok(paths);
            },
            Some(Ok(e)) => {
                let ghost pv = strings_view(paths@);
                paths.push(e.path_buf());
                assert(strings_view(paths@) =~= pv.push(l[0]->Ok_0.entry.path));
                proof {
                    match collect_paths(l.drop_first()) {
                        Ok(qs) => {
                            assert(pv + (seq![l[0]->Ok_0.entry.path] + qs) =~= strings_view(paths@)
                                + qs);
                        },
                        Err(_) => {},
                    }
                }
            },
            Some(Err(e)) => {
                return Err(e);
            },
        }
    }
}

impl Memfs {
    /// The children of the directory listed as `dirs`, `files` and `paths` do.
    fn children(&self, path: &str, dirs: bool, files: bool) -> (r: Result<Vec<String>, RvError>)
        ensures
            match children_spec(*self, path@, dirs, files) {
                Ok(ps) => (r matches Ok(v) && strings_view(v@) == ps),
                Err(e) => (r matches Err(x) && x@ == e),
            },
    {
        if !self.is_dir(path) {
            return Err(RvError::Path(PathError::IsNotDir(string_of(&chars_of(path)))));
        }
        let en = match self.entries(path) {
            Ok(en) => en,
            Err(e) => return Err(e),
        };
        let en = en.min_depth(1).max_depth(1).sort_by_name();
        let en = if files {
            en.files()
        } else if dirs {
            en.dirs()
        } else {
            en
        };
        assert(en@ == child_opts(self.ents(), self.entry_at(path@)->Some_0, dirs, files));
        let mut it = en.into_iter();
        collect_exec(&mut it)
    }

    /// Returns the directories held by the directory at `path`, sorted by name; it is not
    /// recursive.
    ///
    /// ### Errors
    /// * PathError::IsNotDir when the path is not a directory
    pub fn dirs(&self, path: &str) -> (r: Result<Vec<String>, RvError>)
        ensures
            match children_spec(*self, path@, true, false) {
                Ok(ps) => (r matches Ok(v) && strings_view(v@) == ps),
                Err(e) => (r matches Err(x) && x@ == e),
            },
    {
        self.children(path, true, false)
    }

    /// Returns the files held by the directory at `path`, sorted by name; it is not recursive.
    ///
    /// ### Errors
    /// * PathError::IsNotDir when the path is not a directory
    pub fn files(&self, path: &str) -> (r: Result<Vec<String>, RvError>)
        ensures
            match children_spec(*self, path@, false, true) {
                Ok(ps) => (r matches Ok(v) && strings_view(v@) == ps),
                Err(e) => (r matches Err(x) && x@ == e),
            },
    {
        self.children(path, false, true)
    }

    /// Returns the paths held by the directory at `path`, sorted by name; it is not recursive.
    ///
    /// ### Errors
    /// * PathError::IsNotDir when the path is not a directory
    pub fn paths(&self, path: &str) -> (r: Result<Vec<String>, RvError>)
        ensures
            match children_spec(*self, path@, false, false) {
                Ok(ps) => (r matches Ok(v) && strings_view(v@) == ps),
                Err(e) => (r matches Err(x) && x@ == e),
            },
    {
        self.children(path, false, false)
    }

    /// Everything below the directory, listed as `all_dirs`, `all_files` and `all_paths` do.
    fn below(&self, path: &str, dirs: bool, files: bool) -> (r: Result<Vec<String>, RvError>)
        ensures
            match below_spec(*self, path@, dirs, files) {
                Ok(ps) => (r matches Ok(v) && strings_view(v@) == ps),
                Err(e) => (r matches Err(x) && x@ == e),
            },
    {
        if !self.is_dir(path) {
            return Err(RvError::Path(PathError::IsNotDir(string_of(&chars_of(path)))));
        }
        let en = match self.entries(path) {
            Ok(en) => en,
            Err(e) => return Err(e),
        };
        let en = en.min_depth(1).sort_by_name();
        let en = if files {
            en.files()
        } else if dirs {
            en.dirs()
        } else {
            en
        };
        assert(en@ == below_opts(self.ents(), self.entry_at(path@)->Some_0, dirs, files));
        let mut it = en.into_iter();
        collect_exec(&mut it)
    }

    /// Returns the directories below the directory at `path`, at any depth, the entries of each
    /// directory sorted by name; the path itself is not among them.
    ///
    /// ### Errors
    /// * PathError::IsNotDir when the path is not a directory
    pub fn all_dirs(&self, path: &str) -> (r: Result<Vec<String>, RvError>)
        ensures
            match below_spec(*self, path@, true, false) {
                Ok(ps) => (r matches Ok(v) && strings_view(v@) == ps),
                Err(e) => (r matches Err(x) && x@ == e),
            },
    {
        self.below(path, true, false)
    }

    /// Returns the files below the directory at `path`, at any depth, the entries of each
    /// directory sorted by name.
    ///
    /// ### Errors
    /// * PathError::IsNotDir when the path is not a directory
    pub fn all_files(&self, path: &str) -> (r: Result<Vec<String>, RvError>)
        ensures
            match below_spec(*self, path@, false, true) {
                Ok(ps) => (r matches Ok(v) && strings_view(v@) == ps),
                Err(e) => (r matches Err(x) && x@ == e),
            },
    {
        self.below(path, false, true)
    }

    /// Returns the paths below the directory at `path`, at any depth, the entries of each
    /// directory sorted by name; the path itself is not among them.
    ///
    /// ### Errors
    /// * PathError::IsNotDir when the path is not a directory
    pub fn all_paths(&self, path: &str) -> (r: Result<Vec<String>, RvError>)
        ensures
            match below_spec(*self, path@, false, false) {
                Ok(ps) => (r matches Ok(v) && strings_view(v@) == ps),
                Err(e) => (r matches Err(x) && x@ == e),
            },
    {
        self.below(path, false, false)
    }
}

} // verus!
