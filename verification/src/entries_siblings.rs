//! The order in which a traversal yields the entries of a directory: wherever it lists a
//! directory, the entries it yields right below it keep the order of the listing.
use vstd::prelude::*;
use crate::entries::{EntriesV, WalkV, below_opts, entered, kids, listing, names_of, traverse};
use crate::entries_lemmas::{lemma_listing_dirs_first, lemma_listing_files_first, lemma_listing_sorted};
use crate::entries_depth::{depths_within, emit_d, events_of, flush_d, lemma_depth_bounds, run_d, traverse_d, walk_d};
use crate::entry::{MemEntryV, follow_mem};
use crate::entry_iter::{SortBy, dirs_of, files_of, follow_all, in_order};
use crate::memfs::lookup;

verus! {

/// The entries that the events `s` yield at once at depth `k`, in order.
pub open spec fn at_depth(s: Seq<(WalkV, nat)>, k: nat) -> Seq<MemEntryV>
    decreases s.len(),
{
    if s.len() == 0 {
        Seq::empty()
    } else {
        let rest = at_depth(s.drop_first(), k);
        if s[0].0 is Entry && s[0].1 == k {
            seq![s[0].0->Entry_0] + rest
        } else {
            rest
        }
    }
}

/// Of any two entries of `s`, the earlier stands in the relation `rel` to the later.
pub open spec fn pairwise(s: Seq<MemEntryV>, rel: spec_fn(MemEntryV, MemEntryV) -> bool) -> bool {
    forall|i: int, j: int| 0 <= i < j < s.len() ==> rel(#[trigger] s[i], #[trigger] s[j])
}

/// Every entry the events `s` yield at once lies at depth `k` or deeper.
pub open spec fn entries_from(s: Seq<(WalkV, nat)>, k: nat) -> bool {
    forall|i: int| 0 <= i < s.len() && #[trigger] s[i].0 is Entry ==> s[i].1 >= k
}

proof fn lemma_at_concat(a: Seq<(WalkV, nat)>, b: Seq<(WalkV, nat)>, k: nat)
    ensures
        at_depth(a + b, k) == at_depth(a, k) + at_depth(b, k),
    decreases a.len(),
{
    if a.len() == 0 {
        assert(a + b =~= b);
        assert(at_depth(a, k) + at_depth(b, k) =~= at_depth(b, k));
    } else {
        assert((a + b).drop_first() =~= a.drop_first() + b);
        assert((a + b)[0] == a[0]);
        lemma_at_concat(a.drop_first(), b, k);
        let x = at_depth(a.drop_first(), k);
        let y = at_depth(b, k);
        if a[0].0 is Entry && a[0].1 == k {
            assert(seq![a[0].0->Entry_0] + (x + y) =~= (seq![a[0].0->Entry_0] + x) + y);
        }
    }
}

proof fn lemma_from_concat(a: Seq<(WalkV, nat)>, b: Seq<(WalkV, nat)>, k: nat)
    requires
        entries_from(a, k),
        entries_from(b, k),
    ensures
        entries_from(a + b, k),
{
    assert forall|i: int| 0 <= i < (a + b).len() && #[trigger] (a + b)[i].0 is Entry implies (a
        + b)[i].1 >= k by {
        if i < a.len() {
            assert((a + b)[i] == a[i]);
        } else {
            assert((a + b)[i] == b[i - a.len()]);
        }
    }
}

/// Events yielding nothing at once below depth `k + 1` yield nothing at once at depth `k`.
proof fn lemma_at_deeper(s: Seq<(WalkV, nat)>, k: nat)
    requires
        entries_from(s, k + 1),
    ensures
        at_depth(s, k) == Seq::<MemEntryV>::empty(),
    decreases s.len(),
{
    if s.len() > 0 {
        let t = s.drop_first();
        assert forall|i: int| 0 <= i < t.len() && #[trigger] t[i].0 is Entry implies t[i].1 >= k + 1 by {
            assert(t[i] == s[i + 1]);
        }
        lemma_at_deeper(t, k);
        if s[0].0 is Entry {
            assert(s[0].1 >= k + 1);
        }
    }
}

/// Yielding the directories put off yields nothing at once.
proof fn lemma_flush_none(d: Seq<(MemEntryV, nat)>, k: nat, j: nat)
    ensures
        at_depth(flush_d(d, k).0, j) == Seq::<MemEntryV>::empty(),
        entries_from(flush_d(d, k).0, j),
    decreases d.len(),
{
    if d.len() > k {
        let t = d.drop_last();
        lemma_flush_none(t, k, j);
        let w = seq![(WalkV::Deferred(d.last().0), d.last().1)];
        lemma_at_concat(w, flush_d(t, k).0, j);
        assert(w.drop_first() =~= Seq::<(WalkV, nat)>::empty());
        assert(at_depth(Seq::<(WalkV, nat)>::empty(), j) =~= Seq::<MemEntryV>::empty());
        assert(at_depth(w, j) =~= Seq::<MemEntryV>::empty());
        assert(flush_d(d, k).0 == w + flush_d(t, k).0);
        lemma_from_concat(w, flush_d(t, k).0, j);
    } else {
        assert(at_depth(flush_d(d, k).0, j) =~= Seq::<MemEntryV>::empty());
    }
}

/// What reaching an entry at depth `k` yields at once lies at depth `k` or deeper; at depth `k`
/// it yields the entry itself or nothing.
proof fn lemma_walk_at(o: EntriesV, x: MemEntryV, k: nat, d: Seq<(MemEntryV, nat)>, stack: Seq<Seq<char>>)
    ensures
        entries_from(walk_d(o, x, k, d, stack).0, k),
        at_depth(walk_d(o, x, k, d, stack).0, k) == Seq::<MemEntryV>::empty() || at_depth(
            walk_d(o, x, k, d, stack).0,
            k,
        ) == seq![x],
    decreases o.max_depth - k, 1int, 0int,
{
    let recurse = x.entry.dir && (!x.entry.link || o.follow);
    let h = emit_d(o, x, k, d);
    let z = Seq::<(WalkV, nat)>::empty();
    assert(at_depth(z, k) =~= Seq::<MemEntryV>::empty());
    assert(h.0 == z || h.0 == seq![(WalkV::Entry(x), k)]);
    assert(seq![(WalkV::Entry(x), k)].drop_first() =~= z);
    assert(at_depth(seq![(WalkV::Entry(x), k)], k) =~= seq![x]);
    assert(entries_from(h.0, k));
    if recurse && x.entry.link && stack.contains(x.entry.path) {
        let s = walk_d(o, x, k, d, stack).0;
        assert(s.drop_first() =~= z);
        assert(at_depth(s, k) =~= Seq::<MemEntryV>::empty());
    } else if recurse && k < o.max_depth {
        let pre = seq![(WalkV::Pre(x), k)];
        assert(pre.drop_first() =~= z);
        assert(at_depth(pre, k) =~= Seq::<MemEntryV>::empty());
        match entered(o, x) {
            Err(e) => {
                let s = walk_d(o, x, k, d, stack).0;
                assert(s.drop_first() =~= seq![(WalkV::Error(e), k)]);
                assert(s.drop_first().drop_first() =~= z);
                assert(at_depth(s.drop_first(), k) =~= Seq::<MemEntryV>::empty());
                assert(at_depth(s, k) =~= Seq::<MemEntryV>::empty());
            },
            Ok(cs) => {
                lemma_run_at(o, cs, 0, k + 1, h.1, stack.push(x.entry.path), |a: MemEntryV, b: MemEntryV| true);
                let r = run_d(o, cs, 0, k + 1, h.1, stack.push(x.entry.path));
                lemma_at_deeper(r.0, k);
                lemma_at_concat(pre, h.0, k);
                lemma_at_concat(pre + h.0, r.0, k);
                assert(entries_from(r.0, k));
                lemma_from_concat(pre, h.0, k);
                lemma_from_concat(pre + h.0, r.0, k);
                assert(at_depth(pre + h.0 + r.0, k) =~= at_depth(h.0, k));
                assert(walk_d(o, x, k, d, stack).0 == pre + h.0 + r.0);
            },
        }
    } else {
        assert(walk_d(o, x, k, d, stack) == h);
    }
}

/// What a directory's entries `cs[i..]`, reached at depth `k`, yield at once lies at depth `k`
/// or deeper; at depth `k` it is some of those entries, in their order.
proof fn lemma_run_at(
    o: EntriesV,
    cs: Seq<MemEntryV>,
    i: int,
    k: nat,
    d: Seq<(MemEntryV, nat)>,
    stack: Seq<Seq<char>>,
    rel: spec_fn(MemEntryV, MemEntryV) -> bool,
)
    requires
        0 <= i,
        pairwise(cs, rel),
    ensures
        entries_from(run_d(o, cs, i, k, d, stack).0, k),
        forall|m: int|
            0 <= m < at_depth(run_d(o, cs, i, k, d, stack).0, k).len() ==> cs.subrange(i, cs.len() as int).contains(
                #[trigger] at_depth(run_d(o, cs, i, k, d, stack).0, k)[m],
            ),
        pairwise(at_depth(run_d(o, cs, i, k, d, stack).0, k), rel),
    decreases o.max_depth - k, 2int, cs.len() - i,
{
    let f = flush_d(d, k);
    lemma_flush_none(d, k, k);
    if i < cs.len() {
        lemma_walk_at(o, cs[i], k, f.1, stack);
        let a = walk_d(o, cs[i], k, f.1, stack);
        lemma_run_at(o, cs, i + 1, k, a.1, stack, rel);
        let b = run_d(o, cs, i + 1, k, a.1, stack);
        lemma_at_concat(f.0, a.0, k);
        lemma_at_concat(f.0 + a.0, b.0, k);
        lemma_from_concat(f.0, a.0, k);
        lemma_from_concat(f.0 + a.0, b.0, k);
        let ha = at_depth(a.0, k);
        let hb = at_depth(b.0, k);
        let r = at_depth(run_d(o, cs, i, k, d, stack).0, k);
        assert(run_d(o, cs, i, k, d, stack).0 == f.0 + a.0 + b.0);
        assert(r =~= ha + hb);
        let whole = cs.subrange(i, cs.len() as int);
        let later = cs.subrange(i + 1, cs.len() as int);
        assert forall|n: int| 0 <= n < hb.len() implies exists|j: int| i + 1 <= j < cs.len() && cs[j] == #[trigger] hb[n] by {
            assert(later.contains(hb[n]));
            let q = choose|q: int| 0 <= q < later.len() && later[q] == hb[n];
            assert(later[q] == cs[i + 1 + q]);
        }
        assert forall|m: int| 0 <= m < r.len() implies whole.contains(#[trigger] r[m]) by {
            if m < ha.len() {
                assert(r[m] == cs[i]);
                assert(whole[0] == cs[i]);
            } else {
                assert(r[m] == hb[m - ha.len()]);
                let j = choose|j: int| i + 1 <= j < cs.len() && cs[j] == #[trigger] hb[m - ha.len()];
                assert(whole[j - i] == cs[j]);
            }
        }
        assert forall|m: int, n: int| 0 <= m < n < r.len() implies rel(#[trigger] r[m], #[trigger] r[n]) by {
            if m < ha.len() {
                assert(r[m] == cs[i]);
                assert(r[n] == hb[n - ha.len()]);
                let j = choose|j: int| i + 1 <= j < cs.len() && cs[j] == #[trigger] hb[n - ha.len()];
                assert(rel(cs[i], cs[j]));
            } else {
                assert(r[m] == hb[m - ha.len()]);
                assert(r[n] == hb[n - ha.len()]);
            }
        }
    } else {
        assert(run_d(o, cs, i, k, d, stack) == f);
    }
}

/// Wherever a traversal lists a directory, reaching its entries `cs` at depth `k`, the entries it
/// yields at once at that depth are entries of the listing, in the listing's order: any relation
/// that holds between each listed entry and every one listed after it holds between each entry
/// yielded and every one yielded after it.
pub proof fn lemma_siblings_listed(
    o: EntriesV,
    cs: Seq<MemEntryV>,
    k: nat,
    d: Seq<(MemEntryV, nat)>,
    stack: Seq<Seq<char>>,
    rel: spec_fn(MemEntryV, MemEntryV) -> bool,
)
    requires
        pairwise(cs, rel),
    ensures
        pairwise(at_depth(run_d(o, cs, 0, k, d, stack).0, k), rel),
        forall|m: int|
            0 <= m < at_depth(run_d(o, cs, 0, k, d, stack).0, k).len() ==> cs.contains(
                #[trigger] at_depth(run_d(o, cs, 0, k, d, stack).0, k)[m],
            ),
{
    lemma_run_at(o, cs, 0, k, d, stack, rel);
    let r = at_depth(run_d(o, cs, 0, k, d, stack).0, k);
    assert(cs.subrange(0, cs.len() as int) =~= cs);
}

/// The order a sorted listing has: directories before other entries when directories come first,
/// the other way round when files come first, and each kind in the order `by`.
pub open spec fn listing_order(o: EntriesV, by: SortBy) -> spec_fn(MemEntryV, MemEntryV) -> bool {
    if o.dirs_first {
        |a: MemEntryV, b: MemEntryV|
            (a.entry.dir && !b.entry.dir) || (a.entry.dir == b.entry.dir && in_order(by, a, b))
    } else if o.files_first {
        |a: MemEntryV, b: MemEntryV|
            (!a.entry.dir && b.entry.dir) || (a.entry.dir == b.entry.dir && in_order(by, a, b))
    } else {
        |a: MemEntryV, b: MemEntryV| in_order(by, a, b)
    }
}

/// Sorted, a traversal yields the entries right below each directory it lists in the sorted
/// order: by name (or its reverse), and with directories first, or files first, when so
/// directed; so it does with `sort_by_name`, `dirs_first` and `files_first`.
pub proof fn lemma_siblings_sorted(
    o: EntriesV,
    p: Seq<char>,
    k: nat,
    d: Seq<(MemEntryV, nat)>,
    stack: Seq<Seq<char>>,
    by: SortBy,
)
    requires
        listing(o, p) is Ok,
        o.sort == Some(by),
    ensures
        pairwise(at_depth(run_d(o, listing(o, p)->Ok_0, 0, k, d, stack).0, k), listing_order(o, by)),
{
    let cs = listing(o, p)->Ok_0;
    let rel = listing_order(o, by);
    let ks = follow_all(kids(o.es, p, names_of(lookup(o.es, p)->Some_0), 0), o.follow);
    if o.dirs_first {
        lemma_listing_dirs_first(o, p, by);
        let n = dirs_of(ks).len() as int;
        assert forall|i: int, j: int| 0 <= i < j < cs.len() implies rel(#[trigger] cs[i], #[trigger] cs[j]) by {
            if j < n {
                assert(cs.subrange(0, n)[i] == cs[i]);
                assert(cs.subrange(0, n)[j] == cs[j]);
            } else if i >= n {
                assert(cs.subrange(n, cs.len() as int)[i - n] == cs[i]);
                assert(cs.subrange(n, cs.len() as int)[j - n] == cs[j]);
            }
        }
    } else if o.files_first {
        lemma_listing_files_first(o, p, by);
        let n = files_of(ks).len() as int;
        assert forall|i: int, j: int| 0 <= i < j < cs.len() implies rel(#[trigger] cs[i], #[trigger] cs[j]) by {
            if j < n {
                assert(cs.subrange(0, n)[i] == cs[i]);
                assert(cs.subrange(0, n)[j] == cs[j]);
            } else if i >= n {
                assert(cs.subrange(n, cs.len() as int)[i - n] == cs[i]);
                assert(cs.subrange(n, cs.len() as int)[j - n] == cs[j]);
            }
        }
    } else {
        lemma_listing_sorted(o, p, by);
    }
    lemma_siblings_listed(o, cs, k, d, stack, rel);
}

/// Sorted, a traversal that lists its root yields the entries right below the root in the
/// sorted order of the root's listing.
pub proof fn lemma_root_siblings_sorted(o: EntriesV, by: SortBy)
    requires
        o.sort == Some(by),
        0 < o.max_depth,
        follow_mem(o.root, o.follow).entry.dir,
        !follow_mem(o.root, o.follow).entry.link || o.follow,
        entered(o, follow_mem(o.root, o.follow)) is Ok,
    ensures
        pairwise(at_depth(traverse_d(o), 1), listing_order(o, by)),
{
    let x = follow_mem(o.root, o.follow);
    let e = Seq::<(MemEntryV, nat)>::empty();
    let z = Seq::<(WalkV, nat)>::empty();
    let st = Seq::<Seq<char>>::empty().push(x.entry.path);
    let cs = listing(o, x.entry.path)->Ok_0;
    let h = emit_d(o, x, 0, e);
    let r = run_d(o, cs, 0, 1, h.1, st);
    let pre = seq![(WalkV::Pre(x), 0nat)];
    let w = walk_d(o, x, 0, e, Seq::empty());
    assert(!Seq::<Seq<char>>::empty().contains(x.entry.path));
    assert(w == (pre + h.0 + r.0, r.1));
    assert(at_depth(z, 1) =~= Seq::<MemEntryV>::empty());
    assert(pre.drop_first() =~= z);
    assert(at_depth(pre, 1) =~= Seq::<MemEntryV>::empty());
    assert(at_depth(h.0, 1) =~= Seq::<MemEntryV>::empty()) by {
        if h.0.len() > 0 {
            assert(h.0 == seq![(WalkV::Entry(x), 0nat)]);
            assert(h.0.drop_first() =~= z);
        }
    }
    lemma_flush_none(w.1, 0, 1);
    lemma_at_concat(pre, h.0, 1);
    lemma_at_concat(pre + h.0, r.0, 1);
    lemma_at_concat(w.0, flush_d(w.1, 0).0, 1);
    assert(at_depth(traverse_d(o), 1) =~= at_depth(r.0, 1));
    lemma_siblings_sorted(o, x.entry.path, 1, h.1, st, by);
}

/// What `all_dirs`, `all_files` and `all_paths` list lies below the directory, at depth one or
/// deeper, never at the directory's own; and wherever they list a directory, the entries right
/// below it come in order by name.
pub proof fn lemma_below_sorted(
    es: Seq<MemEntryV>,
    root: MemEntryV,
    dirs: bool,
    files: bool,
    p: Seq<char>,
    k: nat,
    d: Seq<(MemEntryV, nat)>,
    stack: Seq<Seq<char>>,
)
    requires
        listing(below_opts(es, root, dirs, files), p) is Ok,
    ensures
        events_of(traverse_d(below_opts(es, root, dirs, files))) == traverse(below_opts(es, root, dirs, files)),
        depths_within(traverse_d(below_opts(es, root, dirs, files)), 1, usize::MAX as nat),
        pairwise(
            at_depth(run_d(below_opts(es, root, dirs, files), listing(below_opts(es, root, dirs, files), p)->Ok_0, 0, k, d, stack).0, k),
            |a: MemEntryV, b: MemEntryV| in_order(SortBy::Name, a, b),
        ),
{
    let o = below_opts(es, root, dirs, files);
    lemma_depth_bounds(o);
    lemma_siblings_sorted(o, p, k, d, stack, SortBy::Name);
    assert(listing_order(o, SortBy::Name) =~= |a: MemEntryV, b: MemEntryV| in_order(SortBy::Name, a, b));
}

} // verus!
