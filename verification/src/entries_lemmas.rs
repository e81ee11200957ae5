//! What a traversal yields is what the filesystem holds: with links not followed, every entry
//! reached is the filesystem's entry at its path.
use vstd::prelude::*;
use crate::entries::{
    EntriesV, Filter, WalkV, all_good, arrange, children_spec, child_opts, collect_paths, emit,
    entered, flush, kids, lemma_dirs_only, listing, names_of, passes, run, traverse, visible, walk,
};
use crate::entry::{MemEntryV, follow_mem};
use crate::entry_iter::{SortBy, dirs_of, files_of, follow_all, insert_by, sorted_by};
use crate::errors::RvErr;
use crate::memfs::{Memfs, lemma_find_ent, lookup};

verus! {

/// The entry is the one the entries `es` hold at its path.
pub open spec fn held_in(es: Seq<MemEntryV>, x: MemEntryV) -> bool {
    lookup(es, x.entry.path) == Some(x)
}

/// Every entry reached or put off in the events `s` satisfies `good`.
pub open spec fn yielded_all(s: Seq<WalkV>, good: spec_fn(MemEntryV) -> bool) -> bool {
    &&& forall|i: int| 0 <= i < s.len() && #[trigger] s[i] is Entry ==> good(s[i]->Entry_0)
    &&& forall|i: int| 0 <= i < s.len() && #[trigger] s[i] is Deferred ==> good(s[i]->Deferred_0)
}

proof fn lemma_yielded_concat(a: Seq<WalkV>, b: Seq<WalkV>, good: spec_fn(MemEntryV) -> bool)
    requires
        yielded_all(a, good),
        yielded_all(b, good),
    ensures
        yielded_all(a + b, good),
{
    assert forall|i: int| 0 <= i < (a + b).len() implies #[trigger] (a + b)[i] == if i < a.len() {
        a[i]
    } else {
        b[i - a.len()]
    } by {}
}

proof fn lemma_insert_good(by: SortBy, s: Seq<MemEntryV>, x: MemEntryV, good: spec_fn(MemEntryV) -> bool)
    requires
        all_good(s, good),
        good(x),
    ensures
        all_good(insert_by(by, s, x), good),
    decreases s.len(),
{
    if s.len() > 0 {
        let t = s.drop_first();
        assert forall|i: int| 0 <= i < t.len() implies good(#[trigger] t[i]) by {
            assert(t[i] == s[i + 1]);
        }
        lemma_insert_good(by, t, x, good);
        let r = insert_by(by, s, x);
        let u = insert_by(by, t, x);
        assert forall|i: int| 0 <= i < r.len() implies good(#[trigger] r[i]) by {
            if crate::entry_iter::in_order(by, s[0], x) {
                if i > 0 {
                    assert(r[i] == u[i - 1]);
                }
            } else {
                if i > 0 {
                    assert(r[i] == s[i - 1]);
                }
            }
        }
    }
}

proof fn lemma_sorted_good(by: SortBy, s: Seq<MemEntryV>, good: spec_fn(MemEntryV) -> bool)
    requires
        all_good(s, good),
    ensures
        all_good(sorted_by(by, s), good),
    decreases s.len(),
{
    if s.len() > 0 {
        let t = s.drop_last();
        assert forall|i: int| 0 <= i < t.len() implies good(#[trigger] t[i]) by {
            assert(t[i] == s[i]);
        }
        lemma_sorted_good(by, t, good);
        assert(good(s[s.len() - 1]));
        lemma_insert_good(by, sorted_by(by, t), s.last(), good);
    }
}

proof fn lemma_split_good(s: Seq<MemEntryV>, good: spec_fn(MemEntryV) -> bool)
    requires
        all_good(s, good),
    ensures
        all_good(dirs_of(s), good),
        all_good(files_of(s), good),
    decreases s.len(),
{
    if s.len() > 0 {
        let t = s.drop_last();
        assert forall|i: int| 0 <= i < t.len() implies good(#[trigger] t[i]) by {
            assert(t[i] == s[i]);
        }
        lemma_split_good(t, good);
        assert(good(s[s.len() - 1]));
        let d = dirs_of(t);
        let f = files_of(t);
        assert forall|i: int| 0 <= i < d.push(s.last()).len() implies good(#[trigger] d.push(
            s.last(),
        )[i]) by {
            if i < d.len() {
                assert(d.push(s.last())[i] == d[i]);
            }
        }
        assert forall|i: int| 0 <= i < f.push(s.last()).len() implies good(#[trigger] f.push(
            s.last(),
        )[i]) by {
            if i < f.len() {
                assert(f.push(s.last())[i] == f[i]);
            }
        }
    }
}

proof fn lemma_append_good(a: Seq<MemEntryV>, b: Seq<MemEntryV>, good: spec_fn(MemEntryV) -> bool)
    requires
        all_good(a, good),
        all_good(b, good),
    ensures
        all_good(a + b, good),
{
    assert forall|i: int| 0 <= i < (a + b).len() implies good(#[trigger] (a + b)[i]) by {
        if i < a.len() {
            assert((a + b)[i] == a[i]);
        } else {
            assert((a + b)[i] == b[i - a.len()]);
        }
    }
}

proof fn lemma_arrange_good(s: Seq<MemEntryV>, o: EntriesV, good: spec_fn(MemEntryV) -> bool)
    requires
        all_good(s, good),
    ensures
        all_good(arrange(s, o), good),
{
    match o.sort {
        None => {},
        Some(by) => {
            lemma_split_good(s, good);
            lemma_sorted_good(by, s, good);
            lemma_sorted_good(by, dirs_of(s), good);
            lemma_sorted_good(by, files_of(s), good);
            lemma_append_good(sorted_by(by, dirs_of(s)), sorted_by(by, files_of(s)), good);
            lemma_append_good(sorted_by(by, files_of(s)), sorted_by(by, dirs_of(s)), good);
        },
    }
}

proof fn lemma_kids_held(es: Seq<MemEntryV>, p: Seq<char>, names: Seq<Seq<char>>, i: int)
    ensures
        all_good(kids(es, p, names, i), |x: MemEntryV| held_in(es, x)),
    decreases names.len() - i,
{
    if 0 <= i < names.len() {
        let q = crate::path::mash_spec(p, names[i]);
        match lookup(es, q) {
            None => {},
            Some(c) => {
                lemma_find_ent(es, q, 0);
                assert(c.entry.path == q);
                lemma_kids_held(es, p, names, i + 1);
                let r = kids(es, p, names, i + 1);
                assert forall|j: int| 0 <= j < (seq![c] + r).len() implies held_in(
                    es,
                    #[trigger] (seq![c] + r)[j],
                ) by {
                    if j > 0 {
                        assert((seq![c] + r)[j] == r[j - 1]);
                    }
                }
            },
        }
    }
}

/// Without following links, what a directory lists is held in the filesystem.
proof fn lemma_listing_held(o: EntriesV, p: Seq<char>)
    requires
        !o.follow,
        listing(o, p) is Ok,
    ensures
        all_good(listing(o, p)->Ok_0, |x: MemEntryV| held_in(o.es, x)),
{
    let d = lookup(o.es, p)->Some_0;
    let ks = kids(o.es, p, names_of(d), 0);
    lemma_kids_held(o.es, p, names_of(d), 0);
    assert(follow_all(ks, false) =~= ks);
    lemma_arrange_good(ks, o, |x: MemEntryV| held_in(o.es, x));
}

proof fn lemma_flush_held(d: Seq<MemEntryV>, k: nat, good: spec_fn(MemEntryV) -> bool)
    requires
        all_good(d, good),
    ensures
        yielded_all(flush(d, k).0, good),
        all_good(flush(d, k).1, good),
    decreases d.len(),
{
    if d.len() > k {
        let t = d.drop_last();
        assert forall|i: int| 0 <= i < t.len() implies good(#[trigger] t[i]) by {
            assert(t[i] == d[i]);
        }
        lemma_flush_held(t, k, good);
        assert(good(d[d.len() - 1]));
        lemma_yielded_concat(seq![WalkV::Deferred(d.last())], flush(t, k).0, good);
    }
}

proof fn lemma_walk_held(o: EntriesV, x: MemEntryV, k: nat, d: Seq<MemEntryV>, stack: Seq<Seq<char>>)
    requires
        !o.follow,
        held_in(o.es, x),
        all_good(d, |y: MemEntryV| held_in(o.es, y)),
    ensures
        yielded_all(walk(o, x, k, d, stack).0, |y: MemEntryV| held_in(o.es, y)),
        all_good(walk(o, x, k, d, stack).1, |y: MemEntryV| held_in(o.es, y)),
    decreases o.max_depth - k, 1int, 0int,
{
    let good = |y: MemEntryV| held_in(o.es, y);
    let recurse = x.entry.dir && (!x.entry.link || o.follow);
    let h = emit(o, x, k, d);
    assert(yielded_all(h.0, good));
    assert(all_good(h.1, good)) by {
        if !(k < o.min_depth) && x.entry.dir && o.contents_first {
            assert forall|i: int| 0 <= i < h.1.len() implies good(#[trigger] h.1[i]) by {
                if i < d.len() {
                    assert(h.1[i] == d[i]);
                }
            }
        }
    }
    if recurse && x.entry.link && stack.contains(x.entry.path) {
    } else if recurse && k < o.max_depth {
        match entered(o, x) {
            Err(e) => {},
            Ok(cs) => {
                lemma_listing_held(o, x.entry.path);
                lemma_run_held(o, cs, 0, k + 1, h.1, stack.push(x.entry.path));
                let r = run(o, cs, 0, k + 1, h.1, stack.push(x.entry.path));
                lemma_yielded_concat(seq![WalkV::Pre(x)], h.0, good);
                lemma_yielded_concat(seq![WalkV::Pre(x)] + h.0, r.0, good);
            },
        }
    }
}

proof fn lemma_run_held(
    o: EntriesV,
    cs: Seq<MemEntryV>,
    i: int,
    k: nat,
    d: Seq<MemEntryV>,
    stack: Seq<Seq<char>>,
)
    requires
        !o.follow,
        all_good(cs, |y: MemEntryV| held_in(o.es, y)),
        all_good(d, |y: MemEntryV| held_in(o.es, y)),
    ensures
        yielded_all(run(o, cs, i, k, d, stack).0, |y: MemEntryV| held_in(o.es, y)),
        all_good(run(o, cs, i, k, d, stack).1, |y: MemEntryV| held_in(o.es, y)),
    decreases o.max_depth - k, 2int, cs.len() - i,
{
    let good = |y: MemEntryV| held_in(o.es, y);
    lemma_flush_held(d, k, good);
    let f = flush(d, k);
    if 0 <= i < cs.len() {
        assert(good(cs[i]));
        lemma_walk_held(o, cs[i], k, f.1, stack);
        let a = walk(o, cs[i], k, f.1, stack);
        lemma_run_held(o, cs, i + 1, k, a.1, stack);
        let b = run(o, cs, i + 1, k, a.1, stack);
        lemma_yielded_concat(f.0, a.0, good);
        lemma_yielded_concat(f.0 + a.0, b.0, good);
    }
}

/// With links not followed, every entry a traversal reaches or puts off is the entry the
/// filesystem holds at its path, when the traversal starts from one.
pub proof fn lemma_traverse_held(o: EntriesV)
    requires
        !o.follow,
        held_in(o.es, o.root),
    ensures
        yielded_all(traverse(o), |y: MemEntryV| held_in(o.es, y)),
{
    let good = |y: MemEntryV| held_in(o.es, y);
    assert(follow_mem(o.root, o.follow) == o.root);
    lemma_walk_held(o, o.root, 0, Seq::empty(), Seq::empty());
    let w = walk(o, o.root, 0, Seq::empty(), Seq::empty());
    lemma_flush_held(w.1, 0, good);
    lemma_yielded_concat(w.0, flush(w.1, 0).0, good);
}

/// What a traversal yields, from events whose entries all satisfy `good`, satisfies `good`.
proof fn lemma_visible_held(s: Seq<WalkV>, f: Filter, good: spec_fn(MemEntryV) -> bool)
    requires
        yielded_all(s, good),
    ensures
        forall|i: int|
            0 <= i < visible(s, f).len() && #[trigger] visible(s, f)[i] is Ok ==> good(
                visible(s, f)[i]->Ok_0,
            ),
    decreases s.len(),
{
    if s.len() > 0 {
        let t = s.drop_first();
        assert forall|i: int| 0 <= i < t.len() implies #[trigger] t[i] == s[i + 1] by {}
        lemma_visible_held(t, f, good);
        let v = visible(s, f);
        let w = visible(t, f);
        assert forall|i: int| 0 <= i < v.len() && #[trigger] v[i] is Ok implies good(v[i]->Ok_0) by {
            match s[0] {
                WalkV::Pre(_) => {},
                WalkV::Entry(x) => {
                    if passes(f, x) && i > 0 {
                        assert(v[i] == w[i - 1]);
                    }
                },
                WalkV::Deferred(x) => {
                    if i > 0 {
                        assert(v[i] == w[i - 1]);
                    }
                },
                WalkV::Error(e) => {
                    if i > 0 {
                        assert(v[i] == w[i - 1]);
                    }
                },
            }
        }
    }
}

/// The paths collected from what a traversal yields are those of its entries, in order.
proof fn lemma_collect_paths(s: Seq<Result<MemEntryV, RvErr>>)
    requires
        collect_paths(s) is Ok,
    ensures
        collect_paths(s)->Ok_0.len() == s.len(),
        forall|i: int| 0 <= i < s.len() ==> #[trigger] s[i] is Ok && collect_paths(s)->Ok_0[i]
            == s[i]->Ok_0.entry.path,
    decreases s.len(),
{
    if s.len() > 0 {
        lemma_collect_paths(s.drop_first());
        let ps = collect_paths(s.drop_first())->Ok_0;
        let x = s[0]->Ok_0;
        assert forall|i: int| 0 <= i < s.len() implies #[trigger] s[i] is Ok && collect_paths(
            s,
        )->Ok_0[i] == s[i]->Ok_0.entry.path by {
            if i > 0 {
                assert(s[i] == s.drop_first()[i - 1]);
                assert((seq![x.entry.path] + ps)[i] == ps[i - 1]);
            }
        }
    }
}

/// Every path that `dirs` lists is a directory the filesystem holds.
pub proof fn lemma_dirs_listed(fs: Memfs, path: Seq<char>)
    requires
        children_spec(fs, path, true, false) is Ok,
    ensures
        ({
            let ps = children_spec(fs, path, true, false)->Ok_0;
            forall|i: int|
                0 <= i < ps.len() ==> (lookup(fs.ents(), #[trigger] ps[i]) matches Some(x)
                    && x.entry.dir)
        }),
{
    let root = fs.entry_at(path)->Some_0;
    let o = child_opts(fs.ents(), root, true, false);
    let a = fs.abs_of(path)->Ok_0;
    lemma_find_ent(fs.ents(), a, 0);
    assert(held_in(fs.ents(), root));
    lemma_traverse_held(o);
    let v = visible(traverse(o), Filter::Dirs);
    lemma_visible_held(traverse(o), Filter::Dirs, |y: MemEntryV| held_in(fs.ents(), y));
    lemma_dirs_only(o);
    lemma_collect_paths(v);
    let ps = children_spec(fs, path, true, false)->Ok_0;
    assert forall|i: int| 0 <= i < ps.len() implies (lookup(fs.ents(), #[trigger] ps[i]) matches Some(
        x,
    ) && x.entry.dir) by {
        assert(v[i] is Ok);
        assert(held_in(fs.ents(), v[i]->Ok_0));
        assert(v[i]->Ok_0.entry.dir);
    }
}

/// Every path that `files` lists is a file the filesystem holds.
pub proof fn lemma_files_listed(fs: Memfs, path: Seq<char>)
    requires
        children_spec(fs, path, false, true) is Ok,
    ensures
        ({
            let ps = children_spec(fs, path, false, true)->Ok_0;
            forall|i: int|
                0 <= i < ps.len() ==> (lookup(fs.ents(), #[trigger] ps[i]) matches Some(x)
                    && x.entry.file)
        }),
{
    let root = fs.entry_at(path)->Some_0;
    let o = child_opts(fs.ents(), root, false, true);
    let a = fs.abs_of(path)->Ok_0;
    lemma_find_ent(fs.ents(), a, 0);
    assert(held_in(fs.ents(), root));
    lemma_traverse_held(o);
    let v = visible(traverse(o), Filter::Files);
    lemma_visible_held(traverse(o), Filter::Files, |y: MemEntryV| held_in(fs.ents(), y));
    crate::entries::lemma_files_only(o);
    lemma_collect_paths(v);
    let ps = children_spec(fs, path, false, true)->Ok_0;
    assert forall|i: int| 0 <= i < ps.len() implies (lookup(fs.ents(), #[trigger] ps[i]) matches Some(
        x,
    ) && x.entry.file) by {
        assert(v[i] is Ok);
        assert(held_in(fs.ents(), v[i]->Ok_0));
        assert(v[i]->Ok_0.entry.file);
    }
}

/// The results among `rs` that the filter lets through, in order, errors included.
pub open spec fn passing(rs: Seq<Result<MemEntryV, RvErr>>, f: Filter) -> Seq<Result<MemEntryV, RvErr>>
    decreases rs.len(),
{
    if rs.len() == 0 {
        rs
    } else {
        let rest = passing(rs.drop_first(), f);
        match rs[0] {
            Ok(x) => if passes(f, x) {
                seq![rs[0]] + rest
            } else {
                rest
            },
            Err(_) => seq![rs[0]] + rest,
        }
    }
}

/// When every entry put off passes the filter, what is yielded with the filter is what is yielded
/// without one, less the entries the filter rejects.
proof fn lemma_visible_passing(s: Seq<WalkV>, f: Filter)
    requires
        crate::entries::deferred_all(s, |x: MemEntryV| passes(f, x)),
    ensures
        visible(s, f) == passing(visible(s, Filter::All), f),
    decreases s.len(),
{
    if s.len() > 0 {
        let t = s.drop_first();
        assert forall|i: int| 0 <= i < t.len() && #[trigger] t[i] is Deferred implies passes(
            f,
            t[i]->Deferred_0,
        ) by {
            assert(t[i] == s[i + 1]);
        }
        lemma_visible_passing(t, f);
        let a = visible(t, Filter::All);
        match s[0] {
            WalkV::Pre(_) => {},
            WalkV::Entry(x) => {
                assert((seq![Ok::<MemEntryV, RvErr>(x)] + a).drop_first() =~= a);
            },
            WalkV::Deferred(x) => {
                assert(s[0] is Deferred);
                assert((seq![Ok::<MemEntryV, RvErr>(x)] + a).drop_first() =~= a);
            },
            WalkV::Error(e) => {
                assert((seq![Err::<MemEntryV, RvErr>(e)] + a).drop_first() =~= a);
            },
        }
    }
}

proof fn lemma_walk_indep(
    o1: EntriesV,
    o2: EntriesV,
    x: MemEntryV,
    k: nat,
    d: Seq<MemEntryV>,
    stack: Seq<Seq<char>>,
)
    requires
        o1 == (EntriesV { dirs: o1.dirs, files: o1.files, ..o2 }),
    ensures
        walk(o1, x, k, d, stack) == walk(o2, x, k, d, stack),
    decreases o1.max_depth - k, 1int, 0int,
{
    let recurse = x.entry.dir && (!x.entry.link || o1.follow);
    assert(emit(o1, x, k, d) == emit(o2, x, k, d));
    if recurse && x.entry.link && stack.contains(x.entry.path) {
    } else if recurse && k < o1.max_depth {
        assert(arrange(follow_all(kids(o1.es, x.entry.path, names_of(lookup(o1.es, x.entry.path)->Some_0), 0), o1.follow), o1)
            == arrange(follow_all(kids(o2.es, x.entry.path, names_of(lookup(o2.es, x.entry.path)->Some_0), 0), o2.follow), o2));
        assert(listing(o1, x.entry.path) == listing(o2, x.entry.path));
        assert(entered(o1, x) == entered(o2, x));
        match entered(o1, x) {
            Err(e) => {},
            Ok(cs) => {
                let h = emit(o1, x, k, d);
                lemma_run_indep(o1, o2, cs, 0, k + 1, h.1, stack.push(x.entry.path));
            },
        }
    }
}

proof fn lemma_run_indep(
    o1: EntriesV,
    o2: EntriesV,
    cs: Seq<MemEntryV>,
    i: int,
    k: nat,
    d: Seq<MemEntryV>,
    stack: Seq<Seq<char>>,
)
    requires
        o1 == (EntriesV { dirs: o1.dirs, files: o1.files, ..o2 }),
    ensures
        run(o1, cs, i, k, d, stack) == run(o2, cs, i, k, d, stack),
    decreases o1.max_depth - k, 2int, cs.len() - i,
{
    let f = flush(d, k);
    if 0 <= i < cs.len() {
        lemma_walk_indep(o1, o2, cs[i], k, f.1, stack);
        let a = walk(o1, cs[i], k, f.1, stack);
        lemma_run_indep(o1, o2, cs, i + 1, k, a.1, stack);
    }
}

/// The filter options do not change the traversal, only what of it is yielded.
pub proof fn lemma_traverse_unfiltered(o: EntriesV)
    ensures
        traverse(o) == traverse(EntriesV { dirs: false, files: false, ..o }),
{
    let o2 = EntriesV { dirs: false, files: false, ..o };
    lemma_walk_indep(o, o2, follow_mem(o.root, o.follow), 0, Seq::empty(), Seq::empty());
}

/// With the directories filter, a traversal yields exactly the directories (and links to them)
/// that it yields without a filter, in the same order, with the same errors.
pub proof fn lemma_dirs_exact(o: EntriesV)
    ensures
        visible(traverse(o), Filter::Dirs) == passing(
            visible(traverse(EntriesV { dirs: false, files: false, ..o }), Filter::All),
            Filter::Dirs,
        ),
{
    lemma_traverse_unfiltered(o);
    crate::entries::lemma_deferred_dirs(o);
    assert(crate::entries::deferred_all(traverse(o), |x: MemEntryV| passes(Filter::Dirs, x))) by {
        assert forall|i: int| 0 <= i < traverse(o).len() && #[trigger] traverse(o)[i] is Deferred implies passes(
            Filter::Dirs,
            traverse(o)[i]->Deferred_0,
        ) by {}
    }
    lemma_visible_passing(traverse(o), Filter::Dirs);
}

/// With the files filter, and directories not put after their contents, a traversal yields
/// exactly the files (and links to them) that it yields without a filter, in the same order,
/// with the same errors.
pub proof fn lemma_files_exact(o: EntriesV)
    requires
        !o.contents_first,
    ensures
        visible(traverse(o), Filter::Files) == passing(
            visible(traverse(EntriesV { dirs: false, files: false, ..o }), Filter::All),
            Filter::Files,
        ),
{
    lemma_traverse_unfiltered(o);
    crate::entries::lemma_no_deferred(o);
    assert(crate::entries::deferred_all(traverse(o), |x: MemEntryV| passes(Filter::Files, x))) by {
        assert forall|i: int| 0 <= i < traverse(o).len() && #[trigger] traverse(o)[i] is Deferred implies passes(
            Filter::Files,
            traverse(o)[i]->Deferred_0,
        ) by {}
    }
    lemma_visible_passing(traverse(o), Filter::Files);
}

/// With a maximum depth of zero only the root is reached: it is yielded, followed as directed,
/// when the minimum depth is zero, and nothing is yielded otherwise.
pub proof fn lemma_depth_zero(o: EntriesV)
    requires
        o.max_depth == 0,
    ensures
        visible(traverse(o), Filter::All) == if o.min_depth == 0 {
            seq![Ok::<MemEntryV, RvErr>(follow_mem(o.root, o.follow))]
        } else {
            Seq::<Result<MemEntryV, RvErr>>::empty()
        },
{
    let x = follow_mem(o.root, o.follow);
    let e: Seq<MemEntryV> = Seq::empty();
    assert(!Seq::<Seq<char>>::empty().contains(x.entry.path));
    assert(walk(o, x, 0, e, Seq::empty()) == emit(o, x, 0, e));
    let w = emit(o, x, 0, e);
    if o.min_depth == 0 && x.entry.dir && o.contents_first {
        assert(w.1 =~= seq![x]);
        assert(flush(w.1, 0).0 == seq![WalkV::Deferred(x)] + flush(w.1.drop_last(), 0).0);
        assert(w.1.drop_last() =~= e);
        assert(traverse(o) =~= seq![WalkV::Deferred(x)]);
    } else if o.min_depth == 0 {
        assert(traverse(o) =~= seq![WalkV::Entry(x)]);
    } else {
        assert(traverse(o) =~= Seq::<WalkV>::empty());
    }
    let t = traverse(o);
    let none = Seq::<WalkV>::empty();
    assert(visible(none, Filter::All) =~= Seq::<Result<MemEntryV, RvErr>>::empty());
    if t.len() == 1 {
        assert(t.drop_first() =~= none);
        assert(visible(t, Filter::All) =~= seq![Ok::<MemEntryV, RvErr>(x)]);
    }
}

/// The directories of `s` are directories, its other entries are not, and together they are the
/// entries of `s`.
proof fn lemma_split_kinds(s: Seq<MemEntryV>)
    ensures
        all_good(dirs_of(s), |x: MemEntryV| x.entry.dir),
        all_good(files_of(s), |x: MemEntryV| !x.entry.dir),
        dirs_of(s).to_multiset().add(files_of(s).to_multiset()) =~= s.to_multiset(),
    decreases s.len(),
{
    broadcast use vstd::seq_lib::group_to_multiset_ensures;

    if s.len() > 0 {
        let t = s.drop_last();
        lemma_split_kinds(t);
        let d = dirs_of(t);
        let f = files_of(t);
        assert(s =~= t.push(s.last()));
        assert forall|i: int| 0 <= i < d.push(s.last()).len() implies #[trigger] d.push(s.last())[i] == if i
            < d.len() {
            d[i]
        } else {
            s.last()
        } by {}
        assert forall|i: int| 0 <= i < f.push(s.last()).len() implies #[trigger] f.push(s.last())[i] == if i
            < f.len() {
            f[i]
        } else {
            s.last()
        } by {}
    }
}

/// With directories first, a directory's listing is its directories sorted, then its other
/// entries sorted: the same entries, every directory before every other entry, each part in
/// order.
pub proof fn lemma_listing_dirs_first(o: EntriesV, p: Seq<char>, by: SortBy)
    requires
        listing(o, p) is Ok,
        o.sort == Some(by),
        o.dirs_first,
    ensures
        ({
            let d = lookup(o.es, p)->Some_0;
            let ks = follow_all(kids(o.es, p, names_of(d), 0), o.follow);
            let cs = listing(o, p)->Ok_0;
            let n = dirs_of(ks).len() as int;
            &&& n <= cs.len()
            &&& cs.to_multiset() == ks.to_multiset()
            &&& forall|i: int| 0 <= i < n ==> (#[trigger] cs[i]).entry.dir
            &&& forall|i: int| n <= i < cs.len() ==> !(#[trigger] cs[i]).entry.dir
            &&& crate::entry_iter::is_sorted_by(by, cs.subrange(0, n))
            &&& crate::entry_iter::is_sorted_by(by, cs.subrange(n, cs.len() as int))
        }),
{
    broadcast use vstd::seq_lib::group_to_multiset_ensures;

    let d = lookup(o.es, p)->Some_0;
    let ks = follow_all(kids(o.es, p, names_of(d), 0), o.follow);
    lemma_split_kinds(ks);
    let a = sorted_by(by, dirs_of(ks));
    let b = sorted_by(by, files_of(ks));
    crate::entry_iter::lemma_sorted(by, dirs_of(ks));
    crate::entry_iter::lemma_sorted(by, files_of(ks));
    lemma_sorted_good(by, dirs_of(ks), |x: MemEntryV| x.entry.dir);
    lemma_sorted_good(by, files_of(ks), |x: MemEntryV| !x.entry.dir);
    let cs = a + b;
    assert(listing(o, p)->Ok_0 == cs);
    assert(a.len() == dirs_of(ks).len()) by {
        vstd::seq_lib::lemma_multiset_commutative(a, dirs_of(ks));
        assert(a.to_multiset().len() == a.len());
        assert(dirs_of(ks).to_multiset().len() == dirs_of(ks).len());
    }
    vstd::seq_lib::lemma_multiset_commutative(a, b);
    assert(cs.subrange(0, a.len() as int) =~= a);
    assert(cs.subrange(a.len() as int, cs.len() as int) =~= b);
    assert forall|i: int| 0 <= i < a.len() implies (#[trigger] cs[i]).entry.dir by {
        assert(cs[i] == a[i]);
    }
    assert forall|i: int| a.len() <= i < cs.len() implies !(#[trigger] cs[i]).entry.dir by {
        assert(cs[i] == b[i - a.len()]);
    }
}

/// With files first, a directory's listing is its entries other than directories sorted, then
/// its directories sorted: the same entries, every other entry before every directory, each part
/// in order.
pub proof fn lemma_listing_files_first(o: EntriesV, p: Seq<char>, by: SortBy)
    requires
        listing(o, p) is Ok,
        o.sort == Some(by),
        !o.dirs_first,
        o.files_first,
    ensures
        ({
            let d = lookup(o.es, p)->Some_0;
            let ks = follow_all(kids(o.es, p, names_of(d), 0), o.follow);
            let cs = listing(o, p)->Ok_0;
            let n = files_of(ks).len() as int;
            &&& n <= cs.len()
            &&& cs.to_multiset() == ks.to_multiset()
            &&& forall|i: int| 0 <= i < n ==> !(#[trigger] cs[i]).entry.dir
            &&& forall|i: int| n <= i < cs.len() ==> (#[trigger] cs[i]).entry.dir
            &&& crate::entry_iter::is_sorted_by(by, cs.subrange(0, n))
            &&& crate::entry_iter::is_sorted_by(by, cs.subrange(n, cs.len() as int))
        }),
{
    broadcast use vstd::seq_lib::group_to_multiset_ensures;

    let d = lookup(o.es, p)->Some_0;
    let ks = follow_all(kids(o.es, p, names_of(d), 0), o.follow);
    lemma_split_kinds(ks);
    let a = sorted_by(by, files_of(ks));
    let b = sorted_by(by, dirs_of(ks));
    crate::entry_iter::lemma_sorted(by, dirs_of(ks));
    crate::entry_iter::lemma_sorted(by, files_of(ks));
    lemma_sorted_good(by, dirs_of(ks), |x: MemEntryV| x.entry.dir);
    lemma_sorted_good(by, files_of(ks), |x: MemEntryV| !x.entry.dir);
    let cs = a + b;
    assert(listing(o, p)->Ok_0 == cs);
    assert(a.len() == files_of(ks).len()) by {
        assert(a.to_multiset().len() == a.len());
        assert(files_of(ks).to_multiset().len() == files_of(ks).len());
    }
    vstd::seq_lib::lemma_multiset_commutative(a, b);
    assert(b.to_multiset().add(a.to_multiset()) =~= a.to_multiset().add(b.to_multiset()));
    assert(cs.subrange(0, a.len() as int) =~= a);
    assert(cs.subrange(a.len() as int, cs.len() as int) =~= b);
    assert forall|i: int| 0 <= i < a.len() implies !(#[trigger] cs[i]).entry.dir by {
        assert(cs[i] == a[i]);
    }
    assert forall|i: int| a.len() <= i < cs.len() implies (#[trigger] cs[i]).entry.dir by {
        assert(cs[i] == b[i - a.len()]);
    }
}

/// Sorted without grouping, a directory's listing is its entries, in order.
pub proof fn lemma_listing_sorted(o: EntriesV, p: Seq<char>, by: SortBy)
    requires
        listing(o, p) is Ok,
        o.sort == Some(by),
        !o.dirs_first,
        !o.files_first,
    ensures
        ({
            let d = lookup(o.es, p)->Some_0;
            let ks = follow_all(kids(o.es, p, names_of(d), 0), o.follow);
            let cs = listing(o, p)->Ok_0;
            &&& cs.to_multiset() == ks.to_multiset()
            &&& crate::entry_iter::is_sorted_by(by, cs)
        }),
{
    let d = lookup(o.es, p)->Some_0;
    let ks = follow_all(kids(o.es, p, names_of(d), 0), o.follow);
    crate::entry_iter::lemma_sorted(by, ks);
}

} // verus!
