//! The depth at which a traversal reaches each entry: the root at zero, the entries a directory
//! lists one deeper than it. What a traversal yields lies between its minimum and maximum depth.
use vstd::prelude::*;
use crate::entries::{EntriesV, WalkV, emit, entered, flush, run, traverse, walk};
use crate::entry::{MemEntryV, follow_mem};

verus! {

/// The entries of `d`, without their depths.
pub open spec fn ents_of(d: Seq<(MemEntryV, nat)>) -> Seq<MemEntryV> {
    d.map_values(|p: (MemEntryV, nat)| p.0)
}

/// The events of `s`, without their depths.
pub open spec fn events_of(s: Seq<(WalkV, nat)>) -> Seq<WalkV> {
    s.map_values(|p: (WalkV, nat)| p.0)
}

/// `flush`, with each directory put off carrying the depth it was reached at.
pub open spec fn flush_d(d: Seq<(MemEntryV, nat)>, k: nat) -> (Seq<(WalkV, nat)>, Seq<(MemEntryV, nat)>)
    decreases d.len(),
{
    if d.len() <= k {
        (Seq::empty(), d)
    } else {
        let r = flush_d(d.drop_last(), k);
        (seq![(WalkV::Deferred(d.last().0), d.last().1)] + r.0, r.1)
    }
}

/// `emit`, with depths.
pub open spec fn emit_d(o: EntriesV, x: MemEntryV, k: nat, d: Seq<(MemEntryV, nat)>) -> (
    Seq<(WalkV, nat)>,
    Seq<(MemEntryV, nat)>,
) {
    if k < o.min_depth {
        (Seq::empty(), d)
    } else if x.entry.dir && o.contents_first {
        (Seq::empty(), d.push((x, k)))
    } else {
        (seq![(WalkV::Entry(x), k)], d)
    }
}

/// `walk`, with each event carrying the depth of its entry.
pub open spec fn walk_d(
    o: EntriesV,
    x: MemEntryV,
    k: nat,
    d: Seq<(MemEntryV, nat)>,
    stack: Seq<Seq<char>>,
) -> (Seq<(WalkV, nat)>, Seq<(MemEntryV, nat)>)
    decreases o.max_depth - k, 1int, 0int,
{
    let recurse = x.entry.dir && (!x.entry.link || o.follow);
    if recurse && x.entry.link && stack.contains(x.entry.path) {
        (seq![(WalkV::Error(crate::errors::RvErr::LinkLooping(x.entry.path)), k)], d)
    } else if recurse && k < o.max_depth {
        match entered(o, x) {
            Err(e) => (seq![(WalkV::Pre(x), k), (WalkV::Error(e), k)], d),
            Ok(cs) => {
                let h = emit_d(o, x, k, d);
                let r = run_d(o, cs, 0, k + 1, h.1, stack.push(x.entry.path));
                (seq![(WalkV::Pre(x), k)] + h.0 + r.0, r.1)
            },
        }
    } else {
        emit_d(o, x, k, d)
    }
}

/// `run`, with depths.
pub open spec fn run_d(
    o: EntriesV,
    cs: Seq<MemEntryV>,
    i: int,
    k: nat,
    d: Seq<(MemEntryV, nat)>,
    stack: Seq<Seq<char>>,
) -> (Seq<(WalkV, nat)>, Seq<(MemEntryV, nat)>)
    decreases o.max_depth - k, 2int, cs.len() - i,
{
    let f = flush_d(d, k);
    if i < 0 || i >= cs.len() {
        f
    } else {
        let a = walk_d(o, cs[i], k, f.1, stack);
        let b = run_d(o, cs, i + 1, k, a.1, stack);
        (f.0 + a.0 + b.0, b.1)
    }
}

/// The events of the traversal, each with the depth of its entry.
pub open spec fn traverse_d(o: EntriesV) -> Seq<(WalkV, nat)> {
    let w = walk_d(o, follow_mem(o.root, o.follow), 0, Seq::empty(), Seq::empty());
    w.0 + flush_d(w.1, 0).0
}

proof fn lemma_events_concat(a: Seq<(WalkV, nat)>, b: Seq<(WalkV, nat)>)
    ensures
        events_of(a + b) == events_of(a) + events_of(b),
{
    assert(events_of(a + b) =~= events_of(a) + events_of(b));
}

proof fn lemma_flush_d(d: Seq<(MemEntryV, nat)>, k: nat)
    ensures
        events_of(flush_d(d, k).0) == flush(ents_of(d), k).0,
        ents_of(flush_d(d, k).1) == flush(ents_of(d), k).1,
    decreases d.len(),
{
    if d.len() > k {
        lemma_flush_d(d.drop_last(), k);
        assert(ents_of(d.drop_last()) =~= ents_of(d).drop_last());
        let r = flush_d(d.drop_last(), k);
        lemma_events_concat(seq![(WalkV::Deferred(d.last().0), d.last().1)], r.0);
        assert(events_of(seq![(WalkV::Deferred(d.last().0), d.last().1)]) =~= seq![
            WalkV::Deferred(d.last().0),
        ]);
    }
}

proof fn lemma_walk_d(o: EntriesV, x: MemEntryV, k: nat, d: Seq<(MemEntryV, nat)>, stack: Seq<Seq<char>>)
    ensures
        events_of(walk_d(o, x, k, d, stack).0) == walk(o, x, k, ents_of(d), stack).0,
        ents_of(walk_d(o, x, k, d, stack).1) == walk(o, x, k, ents_of(d), stack).1,
    decreases o.max_depth - k, 1int, 0int,
{
    let recurse = x.entry.dir && (!x.entry.link || o.follow);
    let h = emit_d(o, x, k, d);
    assert(events_of(h.0) == emit(o, x, k, ents_of(d)).0) by {
        assert(events_of(h.0) =~= emit(o, x, k, ents_of(d)).0);
    }
    assert(ents_of(h.1) == emit(o, x, k, ents_of(d)).1) by {
        assert(ents_of(h.1) =~= emit(o, x, k, ents_of(d)).1);
    }
    if recurse && x.entry.link && stack.contains(x.entry.path) {
        assert(events_of(walk_d(o, x, k, d, stack).0) =~= walk(o, x, k, ents_of(d), stack).0);
    } else if recurse && k < o.max_depth {
        match entered(o, x) {
            Err(e) => {
                assert(events_of(walk_d(o, x, k, d, stack).0) =~= walk(o, x, k, ents_of(d), stack).0);
            },
            Ok(cs) => {
                lemma_run_d(o, cs, 0, k + 1, h.1, stack.push(x.entry.path));
                let r = run_d(o, cs, 0, k + 1, h.1, stack.push(x.entry.path));
                lemma_events_concat(seq![(WalkV::Pre(x), k)] + h.0, r.0);
                lemma_events_concat(seq![(WalkV::Pre(x), k)], h.0);
                assert(events_of(seq![(WalkV::Pre(x), k)]) =~= seq![WalkV::Pre(x)]);
            },
        }
    }
}

proof fn lemma_run_d(
    o: EntriesV,
    cs: Seq<MemEntryV>,
    i: int,
    k: nat,
    d: Seq<(MemEntryV, nat)>,
    stack: Seq<Seq<char>>,
)
    ensures
        events_of(run_d(o, cs, i, k, d, stack).0) == run(o, cs, i, k, ents_of(d), stack).0,
        ents_of(run_d(o, cs, i, k, d, stack).1) == run(o, cs, i, k, ents_of(d), stack).1,
    decreases o.max_depth - k, 2int, cs.len() - i,
{
    lemma_flush_d(d, k);
    let f = flush_d(d, k);
    if 0 <= i < cs.len() {
        lemma_walk_d(o, cs[i], k, f.1, stack);
        let a = walk_d(o, cs[i], k, f.1, stack);
        lemma_run_d(o, cs, i + 1, k, a.1, stack);
        let b = run_d(o, cs, i + 1, k, a.1, stack);
        lemma_events_concat(f.0 + a.0, b.0);
        lemma_events_concat(f.0, a.0);
    }
}

/// Every entry reached or put off in `s` lies between the depths `lo` and `hi`.
pub open spec fn depths_within(s: Seq<(WalkV, nat)>, lo: nat, hi: nat) -> bool {
    forall|i: int|
        0 <= i < s.len() && (#[trigger] s[i].0 is Entry || s[i].0 is Deferred) ==> lo <= s[i].1 <= hi
}

/// Every entry of `d` lies between the depths `lo` and `hi`.
pub open spec fn kept_within(d: Seq<(MemEntryV, nat)>, lo: nat, hi: nat) -> bool {
    forall|i: int| 0 <= i < d.len() ==> lo <= (#[trigger] d[i]).1 <= hi
}

proof fn lemma_depths_concat(a: Seq<(WalkV, nat)>, b: Seq<(WalkV, nat)>, lo: nat, hi: nat)
    requires
        depths_within(a, lo, hi),
        depths_within(b, lo, hi),
    ensures
        depths_within(a + b, lo, hi),
{
    assert forall|i: int| 0 <= i < (a + b).len() implies #[trigger] (a + b)[i] == if i < a.len() {
        a[i]
    } else {
        b[i - a.len()]
    } by {}
}

proof fn lemma_flush_within(d: Seq<(MemEntryV, nat)>, k: nat, lo: nat, hi: nat)
    requires
        kept_within(d, lo, hi),
    ensures
        depths_within(flush_d(d, k).0, lo, hi),
        kept_within(flush_d(d, k).1, lo, hi),
    decreases d.len(),
{
    if d.len() > k {
        let t = d.drop_last();
        assert forall|i: int| 0 <= i < t.len() implies lo <= (#[trigger] t[i]).1 <= hi by {
            assert(t[i] == d[i]);
        }
        lemma_flush_within(t, k, lo, hi);
        assert(lo <= d[d.len() - 1].1 <= hi);
        lemma_depths_concat(seq![(WalkV::Deferred(d.last().0), d.last().1)], flush_d(t, k).0, lo, hi);
    }
}

proof fn lemma_walk_within(o: EntriesV, x: MemEntryV, k: nat, d: Seq<(MemEntryV, nat)>, stack: Seq<Seq<char>>)
    requires
        k <= o.max_depth,
        kept_within(d, o.min_depth, o.max_depth),
    ensures
        depths_within(walk_d(o, x, k, d, stack).0, o.min_depth, o.max_depth),
        kept_within(walk_d(o, x, k, d, stack).1, o.min_depth, o.max_depth),
    decreases o.max_depth - k, 1int, 0int,
{
    let lo = o.min_depth;
    let hi = o.max_depth;
    let recurse = x.entry.dir && (!x.entry.link || o.follow);
    let h = emit_d(o, x, k, d);
    assert(kept_within(h.1, lo, hi)) by {
        if !(k < lo) && x.entry.dir && o.contents_first {
            assert forall|i: int| 0 <= i < h.1.len() implies lo <= (#[trigger] h.1[i]).1 <= hi by {
                if i < d.len() {
                    assert(h.1[i] == d[i]);
                }
            }
        }
    }
    if recurse && x.entry.link && stack.contains(x.entry.path) {
    } else if recurse && k < o.max_depth {
        match entered(o, x) {
            Err(e) => {},
            Ok(cs) => {
                lemma_run_within(o, cs, 0, k + 1, h.1, stack.push(x.entry.path));
                let r = run_d(o, cs, 0, k + 1, h.1, stack.push(x.entry.path));
                lemma_depths_concat(seq![(WalkV::Pre(x), k)], h.0, lo, hi);
                lemma_depths_concat(seq![(WalkV::Pre(x), k)] + h.0, r.0, lo, hi);
            },
        }
    }
}

proof fn lemma_run_within(
    o: EntriesV,
    cs: Seq<MemEntryV>,
    i: int,
    k: nat,
    d: Seq<(MemEntryV, nat)>,
    stack: Seq<Seq<char>>,
)
    requires
        k <= o.max_depth,
        kept_within(d, o.min_depth, o.max_depth),
    ensures
        depths_within(run_d(o, cs, i, k, d, stack).0, o.min_depth, o.max_depth),
        kept_within(run_d(o, cs, i, k, d, stack).1, o.min_depth, o.max_depth),
    decreases o.max_depth - k, 2int, cs.len() - i,
{
    let lo = o.min_depth;
    let hi = o.max_depth;
    lemma_flush_within(d, k, lo, hi);
    let f = flush_d(d, k);
    if 0 <= i < cs.len() {
        lemma_walk_within(o, cs[i], k, f.1, stack);
        let a = walk_d(o, cs[i], k, f.1, stack);
        lemma_run_within(o, cs, i + 1, k, a.1, stack);
        let b = run_d(o, cs, i + 1, k, a.1, stack);
        lemma_depths_concat(f.0, a.0, lo, hi);
        lemma_depths_concat(f.0 + a.0, b.0, lo, hi);
    }
}

/// Each event of a traversal comes with the depth its entry was reached at (the root at zero,
/// what a directory lists one deeper), and every entry yielded, at once or put off, lies between
/// the minimum and the maximum depth.
pub proof fn lemma_depth_bounds(o: EntriesV)
    ensures
        events_of(traverse_d(o)) == traverse(o),
        depths_within(traverse_d(o), o.min_depth, o.max_depth),
{
    let x = follow_mem(o.root, o.follow);
    let e: Seq<(MemEntryV, nat)> = Seq::empty();
    assert(ents_of(e) =~= Seq::<MemEntryV>::empty());
    lemma_walk_d(o, x, 0, e, Seq::empty());
    let w = walk_d(o, x, 0, e, Seq::empty());
    lemma_flush_d(w.1, 0);
    lemma_events_concat(w.0, flush_d(w.1, 0).0);
    lemma_walk_within(o, x, 0, e, Seq::empty());
    lemma_flush_within(w.1, 0, o.min_depth, o.max_depth);
    lemma_depths_concat(w.0, flush_d(w.1, 0).0, o.min_depth, o.max_depth);
}

} // verus!
