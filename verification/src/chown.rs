//! Ownership changes: the `Chown` builder.
use vstd::prelude::*;
use crate::entries::{Entries, EntriesV, WalkV, Walked, no_pre, traverse, walked_view};
use crate::entry::MemEntryV;
use crate::errors::{PathError, RvErr, RvError};
use crate::memfs::{Memfs, find_ent, lemma_find_ent, lemma_find_ent_is, lookup, root_path, wf_parts};
use crate::strs::chars_of;

verus! {

/// The options of an ownership change.
#[derive(Debug)]
pub struct ChownOpts {
    /// absolute path to change
    pub path: String,
    /// user id to set
    pub uid: Option<u32>,
    /// group id to set
    pub gid: Option<u32>,
    /// follow links
    pub follow: bool,
    /// change what directories hold too
    pub recursive: bool,
}

/// Provides a builder for changing the ownership of entries of the memory filesystem. Complete
/// the operation with `exec`.
#[derive(Debug)]
pub struct Chown {
    pub opts: ChownOpts,
}

impl Chown {
    /// Sets the user id.
    pub fn uid(self, uid: u32) -> (r: Chown)
        ensures
            r.opts == (ChownOpts { uid: Some(uid), ..self.opts }),
    {
        let mut x = self;
        x.opts.uid = Some(uid);
        x
    }

    /// Sets the group id.
    pub fn gid(self, gid: u32) -> (r: Chown)
        ensures
            r.opts == (ChownOpts { gid: Some(gid), ..self.opts }),
    {
        let mut x = self;
        x.opts.gid = Some(gid);
        x
    }

    /// Sets the user and group ids.
    pub fn owner(self, uid: u32, gid: u32) -> (r: Chown)
        ensures
            r.opts == (ChownOpts { uid: Some(uid), gid: Some(gid), ..self.opts }),
    {
        let mut x = self;
        x.opts.uid = Some(uid);
        x.opts.gid = Some(gid);
        x
    }

    /// Follows links, changing what they point to.
    pub fn follow(self) -> (r: Chown)
        ensures
            r.opts == (ChownOpts { follow: true, ..self.opts }),
    {
        let mut x = self;
        x.opts.follow = true;
        x
    }

    /// Sets whether what directories hold is changed too.
    pub fn recurse(self, yes: bool) -> (r: Chown)
        ensures
            r.opts == (ChownOpts { recursive: yes, ..self.opts }),
    {
        let mut x = self;
        x.opts.recursive = yes;
        x
    }

    /// Applies the ownership change to the filesystem.
    ///
    /// ### Errors
    /// * PathError::DoesNotExist when the path doesn't exist
    pub fn exec(&self, fs: &mut Memfs) -> (r: Result<(), RvError>)
        requires
            old(fs).wf(),
        ensures
            final(fs).wf(),
            final(fs).cwd@ == old(fs).cwd@,
            final(fs).env@ == old(fs).env@,
            final(fs).dats() == old(fs).dats(),
            match lookup(old(fs).ents(), self.opts.path@) {
                None => (r matches Err(x) && x@ == RvErr::DoesNotExist(self.opts.path@))
                    && final(fs).ents() == old(fs).ents(),
                Some(root) => {
                    let out = chown_run(
                        old(fs).ents(),
                        traverse(chown_walk(old(fs).ents(), root, self.opts.follow, self.opts.recursive)),
                        self.opts.uid,
                        self.opts.gid,
                    );
                    &&& final(fs).ents() == out.0
                    &&& match out.1 {
                        None => r is Ok,
                        Some(e) => (r matches Err(x) && x@ == e),
                    }
                },
            },
    {
        fs.chown_exec(&self.opts)
    }
}

/// The traversal an ownership change makes: as deep as directed, links followed as directed.
pub open spec fn chown_walk(es: Seq<MemEntryV>, root: MemEntryV, follow: bool, recursive: bool) -> EntriesV {
    EntriesV {
        es,
        root,
        dirs: false,
        files: false,
        follow,
        min_depth: 0,
        max_depth: if recursive {
            usize::MAX as nat
        } else {
            0
        },
        dirs_first: false,
        files_first: false,
        sort_by_name: false,
        contents_first: false,
        sort: None,
        pre: no_pre(),
    }
}

/// The entries with the ids that are given set on the entry at `p`.
pub open spec fn set_owner_at(es: Seq<MemEntryV>, p: Seq<char>, uid: Option<u32>, gid: Option<u32>) -> Seq<
    MemEntryV,
> {
    let k = find_ent(es, p, 0);
    if k < 0 {
        es
    } else {
        es.update(
            k,
            MemEntryV {
                uid: match uid {
                    Some(u) => u,
                    None => es[k].uid,
                },
                gid: match gid {
                    Some(g) => g,
                    None => es[k].gid,
                },
                ..es[k]
            },
        )
    }
}

/// The steps of an ownership change taken in turn: each entry reached gets the ids, the first
/// error stops it.
pub open spec fn chown_run(es: Seq<MemEntryV>, ws: Seq<WalkV>, uid: Option<u32>, gid: Option<u32>) -> (
    Seq<MemEntryV>,
    Option<RvErr>,
)
    decreases ws.len(),
{
    if ws.len() == 0 {
        (es, None)
    } else {
        match ws[0] {
            WalkV::Pre(_) => chown_run(es, ws.drop_first(), uid, gid),
            WalkV::Entry(x) | WalkV::Deferred(x) => chown_run(
                set_owner_at(es, x.entry.path, uid, gid),
                ws.drop_first(),
                uid,
                gid,
            ),
            WalkV::Error(e) => (es, Some(e)),
        }
    }
}

/// `b` holds the entries of `a`, in order, with at most their ids changed.
pub open spec fn same_but_ids(a: Seq<MemEntryV>, b: Seq<MemEntryV>) -> bool {
    &&& a.len() == b.len()
    &&& forall|i: int| 0 <= i < a.len() ==> (#[trigger] b[i]).entry == a[i].entry && b[i].files == a[i].files
}

/// Entries holding the same paths in the same order are found at the same place.
proof fn lemma_find_same(a: Seq<MemEntryV>, b: Seq<MemEntryV>, p: Seq<char>)
    requires
        same_but_ids(a, b),
    ensures
        find_ent(b, p, 0) == find_ent(a, p, 0),
{
    lemma_find_ent(a, p, 0);
    let k = find_ent(a, p, 0);
    assert forall|j: int| 0 <= j < b.len() implies (#[trigger] b[j]).entry.path == a[j].entry.path by {}
    lemma_find_ent_is(b, p, k);
}

/// Setting the ids at one path changes nothing but ids, and gives the entry there the ids
/// given.
proof fn lemma_set_owner_ids(es: Seq<MemEntryV>, p: Seq<char>, uid: Option<u32>, gid: Option<u32>)
    ensures
        same_but_ids(es, set_owner_at(es, p, uid, gid)),
        forall|i: int|
            0 <= i < es.len() ==> (#[trigger] set_owner_at(es, p, uid, gid)[i]).uid == es[i].uid || uid
                == Some(set_owner_at(es, p, uid, gid)[i].uid),
        forall|i: int|
            0 <= i < es.len() ==> (#[trigger] set_owner_at(es, p, uid, gid)[i]).gid == es[i].gid || gid
                == Some(set_owner_at(es, p, uid, gid)[i].gid),
        find_ent(es, p, 0) >= 0 ==> (uid matches Some(u) ==> set_owner_at(es, p, uid, gid)[find_ent(es, p, 0)].uid == u),
        find_ent(es, p, 0) >= 0 ==> (gid matches Some(g) ==> set_owner_at(es, p, uid, gid)[find_ent(es, p, 0)].gid == g),
{
    lemma_find_ent(es, p, 0);
}

/// An ownership change touches nothing but ids: every entry keeps its place, path, kind, mode
/// and names; its user id is its own or the one given, and so is its group id. An id not given
/// is never changed.
pub proof fn lemma_chown_ids(es: Seq<MemEntryV>, ws: Seq<WalkV>, uid: Option<u32>, gid: Option<u32>)
    ensures
        same_but_ids(es, chown_run(es, ws, uid, gid).0),
        forall|i: int|
            0 <= i < es.len() ==> (#[trigger] chown_run(es, ws, uid, gid).0[i]).uid == es[i].uid || uid
                == Some(chown_run(es, ws, uid, gid).0[i].uid),
        forall|i: int|
            0 <= i < es.len() ==> (#[trigger] chown_run(es, ws, uid, gid).0[i]).gid == es[i].gid || gid
                == Some(chown_run(es, ws, uid, gid).0[i].gid),
    decreases ws.len(),
{
    if ws.len() > 0 {
        match ws[0] {
            WalkV::Pre(_) => {
                lemma_chown_ids(es, ws.drop_first(), uid, gid);
            },
            WalkV::Entry(x) | WalkV::Deferred(x) => {
                let mid = set_owner_at(es, x.entry.path, uid, gid);
                lemma_set_owner_ids(es, x.entry.path, uid, gid);
                lemma_chown_ids(mid, ws.drop_first(), uid, gid);
                let out = chown_run(mid, ws.drop_first(), uid, gid).0;
                assert(chown_run(es, ws, uid, gid).0 == out);
                assert forall|i: int| 0 <= i < es.len() implies (#[trigger] out[i]).entry == es[i].entry
                    && out[i].files == es[i].files && (out[i].uid == es[i].uid || uid == Some(out[i].uid))
                    && (out[i].gid == es[i].gid || gid == Some(out[i].gid)) by {
                    assert(out[i].uid == mid[i].uid || uid == Some(out[i].uid));
                    assert(out[i].gid == mid[i].gid || gid == Some(out[i].gid));
                }
            },
            WalkV::Error(_) => {},
        }
    }
}

/// An ownership change that meets no error gives every entry it reaches the ids given: the
/// entry at the path of an entry reached has the user id, if one is given, and the group id,
/// if one is given.
pub proof fn lemma_chown_reached(
    es: Seq<MemEntryV>,
    ws: Seq<WalkV>,
    uid: Option<u32>,
    gid: Option<u32>,
    i: int,
    x: MemEntryV,
)
    requires
        chown_run(es, ws, uid, gid).1 is None,
        0 <= i < ws.len(),
        ws[i] == WalkV::Entry(x) || ws[i] == WalkV::Deferred(x),
        lookup(es, x.entry.path) is Some,
    ensures
        lookup(chown_run(es, ws, uid, gid).0, x.entry.path) matches Some(e) && (uid matches Some(u)
            ==> e.uid == u) && (gid matches Some(g) ==> e.gid == g),
    decreases ws.len(),
{
    let p = x.entry.path;
    let rest = ws.drop_first();
    match ws[0] {
        WalkV::Pre(_) => {
            assert(rest[i - 1] == ws[i]);
            lemma_chown_reached(es, rest, uid, gid, i - 1, x);
        },
        WalkV::Entry(y) | WalkV::Deferred(y) => {
            let mid = set_owner_at(es, y.entry.path, uid, gid);
            lemma_set_owner_ids(es, y.entry.path, uid, gid);
            lemma_find_same(es, mid, p);
            if i == 0 {
                assert(y == x);
                lemma_find_ent(es, p, 0);
                let k = find_ent(es, p, 0);
                assert(0 <= k < es.len());
                lemma_chown_ids(mid, rest, uid, gid);
                let out = chown_run(mid, rest, uid, gid).0;
                lemma_find_same(mid, out, p);
                assert(out[k].uid == mid[k].uid || uid == Some(out[k].uid));
                assert(out[k].gid == mid[k].gid || gid == Some(out[k].gid));
            } else {
                assert(rest[i - 1] == ws[i]);
                lemma_chown_reached(mid, rest, uid, gid, i - 1, x);
            }
        },
        WalkV::Error(_) => {},
    }
}

/// Setting the ids keeps the filesystem well formed.
pub proof fn lemma_set_owner_wf(
    es: Seq<MemEntryV>,
    ds: Seq<(Seq<char>, Seq<u8>)>,
    p: Seq<char>,
    uid: Option<u32>,
    gid: Option<u32>,
)
    requires
        wf_parts(es, ds),
    ensures
        wf_parts(set_owner_at(es, p, uid, gid), ds),
{
    lemma_find_ent(es, p, 0);
    let es2 = set_owner_at(es, p, uid, gid);
    assert forall|i: int| 0 <= i < es.len() implies #[trigger] es2[i].entry == es[i].entry
        && es2[i].files == es[i].files by {}
    let rk = find_ent(es, root_path(), 0);
    lemma_find_ent(es, root_path(), 0);
    lemma_find_ent_is(es2, root_path(), rk);
}

impl Memfs {
    /// Sets the ids that are given on the entry at `p`, if any.
    fn set_owner_exec(&mut self, p: &String, uid: Option<u32>, gid: Option<u32>)
        requires
            old(self).wf(),
        ensures
            final(self).wf(),
            final(self).ents() == set_owner_at(old(self).ents(), p@, uid, gid),
            final(self).dats() == old(self).dats(),
            final(self).cwd@ == old(self).cwd@,
            final(self).env@ == old(self).env@,
    {
        let pc = chars_of(p.as_str());
        proof {
            lemma_set_owner_wf(self.ents(), self.dats(), p@, uid, gid);
        }
        match self.find(&pc) {
            None => {},
            Some(i) => {
                let ghost es0 = self.ents();
                let mut e = self.entries[i].clone_entry();
                assert(e@ == es0[i as int]);
                e.set_owner(uid, gid);
                self.entries.set(i, e);
                assert(self.ents() =~= set_owner_at(es0, p@, uid, gid));
            },
        }
    }

    /// Applies an ownership change.
    pub(crate) fn chown_exec(&mut self, o: &ChownOpts) -> (r: Result<(), RvError>)
        requires
            old(self).wf(),
        ensures
            final(self).wf(),
            final(self).cwd@ == old(self).cwd@,
            final(self).env@ == old(self).env@,
            final(self).dats() == old(self).dats(),
            match lookup(old(self).ents(), o.path@) {
                None => (r matches Err(x) && x@ == RvErr::DoesNotExist(o.path@)) && final(
                    self).ents() == old(self).ents(),
                Some(root) => {
                    let out = chown_run(
                        old(self).ents(),
                        traverse(chown_walk(old(self).ents(), root, o.follow, o.recursive)),
                        o.uid,
                        o.gid,
                    );
                    &&& final(self).ents() == out.0
                    &&& match out.1 {
                        None => r is Ok,
                        Some(e) => (r matches Err(x) && x@ == e),
                    }
                },
            },
    {
        let pc = chars_of(o.path.as_str());
        let i = match self.find(&pc) {
            None => return Err(RvError::Path(PathError::DoesNotExist(o.path.clone()))),
            Some(i) => i,
        };
        assert(self.ents()[i as int] == self.entries@[i as int]@);
        let ws = {
            let en = Entries {
                fs: &*self,
                root: self.entries[i].clone_entry(),
                dirs: false,
                files: false,
                follow: false,
                min_depth: 0,
                max_depth: usize::MAX,
                max_descriptors: 50,
                dirs_first: false,
                files_first: false,
                sort_by_name: false,
                contents_first: false,
                sort: None,
            };
            let en = en.max_depth(
                if o.recursive {
                    usize::MAX
                } else {
                    0
                },
            ).follow(o.follow);
            assert(en@ == chown_walk(self.ents(), self.ents()[i as int], o.follow, o.recursive));
            en.walk_all()
        };
        let ghost es0 = self.ents();
        let ghost wv = walked_view(ws@);
        let ghost out = chown_run(es0, wv, o.uid, o.gid);
        assert(wv.skip(0) =~= wv);
        let mut j: usize = 0;
        while j < ws.len()
            invariant
                self.wf(),
                self.cwd@ == old(self).cwd@,
                self.env@ == old(self).env@,
                self.dats() == old(self).dats(),
                es0 == old(self).ents(),
                lookup(es0, o.path@) is Some,
                out == chown_run(
                    es0,
                    traverse(chown_walk(es0, lookup(es0, o.path@)->Some_0, o.follow, o.recursive)),
                    o.uid,
                    o.gid,
                ),
                j <= ws.len(),
                wv == walked_view(ws@),
                chown_run(self.ents(), wv.skip(j as int), o.uid, o.gid) == out,
            decreases ws.len() - j,
        {
            assert(wv.skip(j as int)[0] == ws@[j as int]@);
            assert(wv.skip(j as int).drop_first() =~= wv.skip(j + 1));
            match &ws[j] {
                Walked::Pre(_) => {},
                Walked::Entry(x) | Walked::Deferred(x) => {
                    self.set_owner_exec(&x.path, o.uid, o.gid);
                },
                Walked::Error(e) => {
                    return Err(e.clone_error());
                },
            }
            j = j + 1;
        }
        assert(wv.skip(j as int) =~= Seq::<WalkV>::empty());
        Ok(())
    }

    /// Returns a builder for changing the ownership of `path` and, by default, all it holds.
    ///
    /// ### Errors
    /// * PathError::Empty when the path is empty
    pub fn chown_b(&self, path: &str) -> (r: Result<Chown, RvError>)
        ensures
            match self.abs_of(path@) {
                Err(e) => (r matches Err(x) && x@ == e),
                Ok(a) => (r matches Ok(c) && c.opts.path@ == a && c.opts.uid is None && c.opts.gid
                    is None && !c.opts.follow && c.opts.recursive),
            },
    {
        let a = match self.abs(path) {
            Ok(a) => a,
            Err(e) => return Err(e),
        };
        Ok(Chown { opts: ChownOpts { path: a, uid: None, gid: None, follow: false, recursive: true } })
    }

    /// Sets the user and group ids of `path` and all it holds; links are not followed.
    ///
    /// ### Errors
    /// * PathError::Empty when the path is empty
    /// * PathError::DoesNotExist when the path doesn't exist
    pub fn chown(&mut self, path: &str, uid: u32, gid: u32) -> (r: Result<(), RvError>)
        requires
            old(self).wf(),
        ensures
            final(self).wf(),
            final(self).cwd@ == old(self).cwd@,
            final(self).env@ == old(self).env@,
            final(self).dats() == old(self).dats(),
            match old(self).abs_of(path@) {
                Err(e) => (r matches Err(x) && x@ == e) && final(self).ents() == old(self).ents(),
                Ok(a) => match lookup(old(self).ents(), a) {
                    None => (r matches Err(x) && x@ == RvErr::DoesNotExist(a)) && final(
                        self).ents() == old(self).ents(),
                    Some(root) => {
                        let out = chown_run(
                            old(self).ents(),
                            traverse(chown_walk(old(self).ents(), root, false, true)),
                            Some(uid),
                            Some(gid),
                        );
                        &&& final(self).ents() == out.0
                        &&& match out.1 {
                            None => r is Ok,
                            Some(e) => (r matches Err(x) && x@ == e),
                        }
                    },
                },
            },
    {
        let c = match self.chown_b(path) {
            Ok(c) => c,
            Err(e) => return Err(e),
        };
        let c = c.owner(uid, gid);
        c.exec(self)
    }
}

} // verus!
