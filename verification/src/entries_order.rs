//! What putting directories after their contents does to a traversal: it moves them, and
//! nothing else.
use vstd::prelude::*;
use vstd::multiset::Multiset;
use crate::entries::{EntriesV, Filter, WalkV, emit, entered, flush, listing, passes, run, traverse, visible, walk};
use crate::entry::{MemEntryV, follow_mem};
use crate::errors::RvErr;

verus! {

broadcast use {vstd::multiset::group_multiset_axioms, vstd::seq_lib::group_to_multiset_ensures};

/// What the events `s` yield without a filter, counted as a multiset.
pub open spec fn yielded_ms(s: Seq<WalkV>) -> Multiset<Result<MemEntryV, RvErr>> {
    visible(s, Filter::All).to_multiset()
}

/// The directories `d`, each as it is yielded once no longer put off, counted as a multiset.
pub open spec fn put_off_ms(d: Seq<MemEntryV>) -> Multiset<Result<MemEntryV, RvErr>>
    decreases d.len(),
{
    if d.len() == 0 {
        Multiset::empty()
    } else {
        put_off_ms(d.drop_last()).insert(Ok(d.last()))
    }
}

/// The options `o` with directories yielded where they are reached.
pub open spec fn in_place(o: EntriesV) -> EntriesV {
    EntriesV { contents_first: false, ..o }
}

/// Yielding from two runs of events is yielding from each in turn.
proof fn lemma_visible_concat(a: Seq<WalkV>, b: Seq<WalkV>, f: Filter)
    ensures
        visible(a + b, f) == visible(a, f) + visible(b, f),
    decreases a.len(),
{
    if a.len() == 0 {
        assert(a + b =~= b);
        assert(visible(a, f) + visible(b, f) =~= visible(b, f));
    } else {
        assert((a + b).drop_first() =~= a.drop_first() + b);
        assert((a + b)[0] == a[0]);
        lemma_visible_concat(a.drop_first(), b, f);
        let x = visible(a.drop_first(), f);
        let y = visible(b, f);
        match a[0] {
            WalkV::Entry(e) => {
                if passes(f, e) {
                    assert(seq![Ok(e)] + (x + y) =~= (seq![Ok(e)] + x) + y);
                }
            },
            WalkV::Deferred(e) => {
                assert(seq![Ok(e)] + (x + y) =~= (seq![Ok(e)] + x) + y);
            },
            WalkV::Error(e) => {
                assert(seq![Err(e)] + (x + y) =~= (seq![Err(e)] + x) + y);
            },
            WalkV::Pre(_) => {},
        }
    }
}

proof fn lemma_ms_concat(a: Seq<WalkV>, b: Seq<WalkV>)
    ensures
        yielded_ms(a + b) == yielded_ms(a).add(yielded_ms(b)),
{
    lemma_visible_concat(a, b, Filter::All);
    vstd::seq_lib::lemma_multiset_commutative(visible(a, Filter::All), visible(b, Filter::All));
}

/// One event yields its entry or error, once; entering a directory yields nothing.
proof fn lemma_ms_one(w: WalkV)
    ensures
        yielded_ms(seq![w]) == match w {
            WalkV::Pre(_) => Multiset::empty(),
            WalkV::Entry(x) => Multiset::singleton(Ok::<MemEntryV, RvErr>(x)),
            WalkV::Deferred(x) => Multiset::singleton(Ok::<MemEntryV, RvErr>(x)),
            WalkV::Error(e) => Multiset::singleton(Err::<MemEntryV, RvErr>(e)),
        },
{
    let e = Seq::<Result<MemEntryV, RvErr>>::empty();
    assert(seq![w].drop_first() =~= Seq::<WalkV>::empty());
    assert(visible(Seq::<WalkV>::empty(), Filter::All) =~= e);
    match w {
        WalkV::Pre(_) => {
            assert(visible(seq![w], Filter::All) =~= e);
            assert(e.to_multiset() =~= Multiset::empty());
        },
        WalkV::Entry(x) => {
            assert(visible(seq![w], Filter::All) =~= e.push(Ok(x)));
            vstd::seq_lib::to_multiset_build(e, Ok::<MemEntryV, RvErr>(x));
            assert(e.to_multiset().insert(Ok(x)) =~= Multiset::singleton(Ok::<MemEntryV, RvErr>(x)));
        },
        WalkV::Deferred(x) => {
            assert(visible(seq![w], Filter::All) =~= e.push(Ok(x)));
            vstd::seq_lib::to_multiset_build(e, Ok::<MemEntryV, RvErr>(x));
            assert(e.to_multiset().insert(Ok(x)) =~= Multiset::singleton(Ok::<MemEntryV, RvErr>(x)));
        },
        WalkV::Error(er) => {
            assert(visible(seq![w], Filter::All) =~= e.push(Err(er)));
            vstd::seq_lib::to_multiset_build(e, Err::<MemEntryV, RvErr>(er));
            assert(e.to_multiset().insert(Err(er)) =~= Multiset::singleton(Err::<MemEntryV, RvErr>(er)));
        },
    }
}

proof fn lemma_ms_empty()
    ensures
        yielded_ms(Seq::empty()) == Multiset::<Result<MemEntryV, RvErr>>::empty(),
{
    assert(visible(Seq::<WalkV>::empty(), Filter::All) =~= Seq::<Result<MemEntryV, RvErr>>::empty());
}

/// Yielding the directories put off above depth `k` moves them from the stack to the events;
/// what is left on the stack lies at or above depth `k`.
proof fn lemma_flush_ms(d: Seq<MemEntryV>, k: nat)
    ensures
        yielded_ms(flush(d, k).0).add(put_off_ms(flush(d, k).1)) == put_off_ms(d),
        flush(d, k).1.len() <= k,
        d.len() <= k ==> flush(d, k) == (Seq::<WalkV>::empty(), d),
    decreases d.len(),
{
    if d.len() > k {
        let t = d.drop_last();
        lemma_flush_ms(t, k);
        let r = flush(t, k);
        lemma_ms_concat(seq![WalkV::Deferred(d.last())], r.0);
        lemma_ms_one(WalkV::Deferred(d.last()));
        assert(yielded_ms(flush(d, k).0).add(put_off_ms(flush(d, k).1)) =~= put_off_ms(d));
    } else {
        lemma_ms_empty();
        assert(yielded_ms(flush(d, k).0).add(put_off_ms(flush(d, k).1)) =~= put_off_ms(d));
    }
}

/// Reaching the entry `x` yields, together with what it leaves put off, what reaching it with
/// directories in place yields, together with what was put off before.
proof fn lemma_walk_ms(o: EntriesV, x: MemEntryV, k: nat, d: Seq<MemEntryV>, stack: Seq<Seq<char>>)
    ensures
        yielded_ms(walk(o, x, k, d, stack).0).add(put_off_ms(walk(o, x, k, d, stack).1)) == yielded_ms(
            walk(in_place(o), x, k, Seq::empty(), stack).0,
        ).add(put_off_ms(d)),
        walk(in_place(o), x, k, Seq::empty(), stack).1 == Seq::<MemEntryV>::empty(),
    decreases o.max_depth - k, 1int, 0int,
{
    let p = in_place(o);
    let e = Seq::<MemEntryV>::empty();
    let recurse = x.entry.dir && (!x.entry.link || o.follow);
    let h = emit(o, x, k, d);
    let h2 = emit(p, x, k, e);
    lemma_ms_empty();
    lemma_ms_one(WalkV::Entry(x));
    assert(yielded_ms(h.0).add(put_off_ms(h.1)) =~= yielded_ms(h2.0).add(put_off_ms(d))) by {
        if !(k < o.min_depth) && x.entry.dir && o.contents_first {
            assert(d.push(x).drop_last() =~= d);
        }
    }
    assert(h2.1 == e);
    if recurse && x.entry.link && stack.contains(x.entry.path) {
        assert(yielded_ms(walk(o, x, k, d, stack).0).add(put_off_ms(walk(o, x, k, d, stack).1)) =~= yielded_ms(
            walk(p, x, k, e, stack).0,
        ).add(put_off_ms(d)));
    } else if recurse && k < o.max_depth {
        assert(listing(o, x.entry.path) == listing(p, x.entry.path));
        assert(entered(o, x) == entered(p, x));
        match entered(o, x) {
            Err(er) => {
                assert(yielded_ms(walk(o, x, k, d, stack).0).add(put_off_ms(walk(o, x, k, d, stack).1))
                    =~= yielded_ms(walk(p, x, k, e, stack).0).add(put_off_ms(d)));
            },
            Ok(cs) => {
                let st = stack.push(x.entry.path);
                lemma_run_ms(o, cs, 0, k + 1, h.1, st);
                let r = run(o, cs, 0, k + 1, h.1, st);
                let r2 = run(p, cs, 0, k + 1, e, st);
                let pre = seq![WalkV::Pre(x)];
                lemma_ms_one(WalkV::Pre(x));
                lemma_ms_concat(pre, h.0);
                lemma_ms_concat(pre + h.0, r.0);
                lemma_ms_concat(pre, h2.0);
                lemma_ms_concat(pre + h2.0, r2.0);
                assert(walk(o, x, k, d, stack) == (pre + h.0 + r.0, r.1));
                assert(walk(p, x, k, e, stack) == (pre + h2.0 + r2.0, r2.1));
                let hh = yielded_ms(h.0);
                let rr = yielded_ms(r.0);
                let pr = put_off_ms(r.1);
                let r2m = yielded_ms(r2.0);
                let ph = put_off_ms(h.1);
                let h2m = yielded_ms(h2.0);
                let dm = put_off_ms(d);
                assert(yielded_ms(pre + h.0 + r.0) =~= hh.add(rr));
                assert(yielded_ms(pre + h2.0 + r2.0) =~= h2m.add(r2m));
                assert(rr.add(pr) == r2m.add(ph));
                assert(hh.add(ph) == h2m.add(dm));
                assert(hh.add(rr).add(pr) =~= hh.add(r2m).add(ph)) by {
                    assert forall|v| #[trigger] hh.add(rr).add(pr).count(v) == hh.add(r2m).add(ph).count(v) by {
                        assert(rr.add(pr).count(v) == r2m.add(ph).count(v));
                    }
                }
                assert(hh.add(r2m).add(ph) =~= h2m.add(dm).add(r2m)) by {
                    assert forall|v| #[trigger] hh.add(r2m).add(ph).count(v) == h2m.add(dm).add(r2m).count(v) by {
                        assert(hh.add(ph).count(v) == h2m.add(dm).count(v));
                    }
                }
                assert(yielded_ms(walk(o, x, k, d, stack).0).add(put_off_ms(walk(o, x, k, d, stack).1))
                    =~= yielded_ms(walk(p, x, k, e, stack).0).add(put_off_ms(d)));
            },
        }
    } else {
        assert(yielded_ms(walk(o, x, k, d, stack).0).add(put_off_ms(walk(o, x, k, d, stack).1)) =~= yielded_ms(
            walk(p, x, k, e, stack).0,
        ).add(put_off_ms(d)));
    }
}

/// `lemma_walk_ms` for the entries `cs[i..]` of a directory.
proof fn lemma_run_ms(
    o: EntriesV,
    cs: Seq<MemEntryV>,
    i: int,
    k: nat,
    d: Seq<MemEntryV>,
    stack: Seq<Seq<char>>,
)
    ensures
        yielded_ms(run(o, cs, i, k, d, stack).0).add(put_off_ms(run(o, cs, i, k, d, stack).1)) == yielded_ms(
            run(in_place(o), cs, i, k, Seq::empty(), stack).0,
        ).add(put_off_ms(d)),
        run(in_place(o), cs, i, k, Seq::empty(), stack).1 == Seq::<MemEntryV>::empty(),
    decreases o.max_depth - k, 2int, cs.len() - i,
{
    let p = in_place(o);
    let e = Seq::<MemEntryV>::empty();
    let f = flush(d, k);
    lemma_flush_ms(d, k);
    lemma_flush_ms(e, k);
    lemma_ms_empty();
    if 0 <= i < cs.len() {
        lemma_walk_ms(o, cs[i], k, f.1, stack);
        let a = walk(o, cs[i], k, f.1, stack);
        lemma_run_ms(o, cs, i + 1, k, a.1, stack);
        let b = run(o, cs, i + 1, k, a.1, stack);
        let a2 = walk(p, cs[i], k, e, stack);
        let b2 = run(p, cs, i + 1, k, e, stack);
        lemma_ms_concat(f.0, a.0);
        lemma_ms_concat(f.0 + a.0, b.0);
        lemma_ms_concat(Seq::<WalkV>::empty(), a2.0);
        lemma_ms_concat(Seq::<WalkV>::empty() + a2.0, b2.0);
        assert(run(p, cs, i, k, e, stack) == (Seq::<WalkV>::empty() + a2.0 + b2.0, b2.1));
        assert(run(o, cs, i, k, d, stack) == (f.0 + a.0 + b.0, b.1));
        let fm = yielded_ms(f.0);
        let f1 = put_off_ms(f.1);
        let am = yielded_ms(a.0);
        let a1 = put_off_ms(a.1);
        let bm = yielded_ms(b.0);
        let b1 = put_off_ms(b.1);
        let a2m = yielded_ms(a2.0);
        let b2m = yielded_ms(b2.0);
        let dm = put_off_ms(d);
        assert(fm.add(f1) == dm);
        assert(am.add(a1) == a2m.add(f1));
        assert(bm.add(b1) == b2m.add(a1));
        assert(yielded_ms(f.0 + a.0 + b.0) =~= fm.add(am).add(bm));
        assert(yielded_ms(Seq::<WalkV>::empty() + a2.0 + b2.0) =~= a2m.add(b2m));
        assert(fm.add(am).add(bm).add(b1) =~= fm.add(am).add(b2m).add(a1)) by {
            assert forall|v| #[trigger] fm.add(am).add(bm).add(b1).count(v) == fm.add(am).add(b2m).add(a1).count(v) by {
                assert(bm.add(b1).count(v) == b2m.add(a1).count(v));
            }
        }
        assert(fm.add(am).add(b2m).add(a1) =~= fm.add(a2m).add(f1).add(b2m)) by {
            assert forall|v| #[trigger] fm.add(am).add(b2m).add(a1).count(v) == fm.add(a2m).add(f1).add(b2m).count(v) by {
                assert(am.add(a1).count(v) == a2m.add(f1).count(v));
            }
        }
        assert(fm.add(a2m).add(f1).add(b2m) =~= a2m.add(b2m).add(dm)) by {
            assert forall|v| #[trigger] fm.add(a2m).add(f1).add(b2m).count(v) == a2m.add(b2m).add(dm).count(v) by {
                assert(fm.add(f1).count(v) == dm.count(v));
            }
        }
        assert(yielded_ms(run(o, cs, i, k, d, stack).0).add(put_off_ms(run(o, cs, i, k, d, stack).1))
            =~= yielded_ms(run(p, cs, i, k, e, stack).0).add(put_off_ms(d)));
    } else {
        assert(yielded_ms(run(o, cs, i, k, d, stack).0).add(put_off_ms(run(o, cs, i, k, d, stack).1))
            =~= yielded_ms(run(p, cs, i, k, e, stack).0).add(put_off_ms(d)));
    }
}

/// Putting directories after their contents changes only where they are yielded: a traversal
/// yields the same entries and errors, each as many times, as the one that yields directories
/// where it reaches them.
pub proof fn lemma_contents_first_same(o: EntriesV)
    ensures
        yielded_ms(traverse(o)) == yielded_ms(traverse(in_place(o))),
{
    let e = Seq::<MemEntryV>::empty();
    let x = follow_mem(o.root, o.follow);
    lemma_walk_ms(o, x, 0, e, Seq::empty());
    let w = walk(o, x, 0, e, Seq::empty());
    let w2 = walk(in_place(o), x, 0, e, Seq::empty());
    lemma_flush_ms(w.1, 0);
    lemma_flush_ms(e, 0);
    lemma_ms_empty();
    lemma_ms_concat(w.0, flush(w.1, 0).0);
    lemma_ms_concat(w2.0, flush(e, 0).0);
    assert(flush(w.1, 0).1 =~= e);
    assert(yielded_ms(traverse(o)) =~= yielded_ms(traverse(in_place(o))));
}

proof fn lemma_prefix_trans(a: Seq<MemEntryV>, b: Seq<MemEntryV>, c: Seq<MemEntryV>)
    requires
        a.is_prefix_of(b),
        b.is_prefix_of(c),
    ensures
        a.is_prefix_of(c),
{
    assert forall|i: int| 0 <= i < a.len() implies a[i] == c[i] by {
        assert(a[i] == b.subrange(0, a.len() as int)[i]);
        assert(b[i] == c.subrange(0, b.len() as int)[i]);
    }
    assert(a =~= c.subrange(0, a.len() as int));
}

/// What is put off at or above depth `k` stays put off when the directories put off below it
/// are yielded.
proof fn lemma_flush_keeps(p: Seq<MemEntryV>, d: Seq<MemEntryV>, k: nat)
    requires
        p.is_prefix_of(d),
        p.len() <= k,
    ensures
        p.is_prefix_of(flush(d, k).1),
    decreases d.len(),
{
    if d.len() > k {
        let t = d.drop_last();
        assert(p =~= t.subrange(0, p.len() as int)) by {
            assert forall|i: int| 0 <= i < p.len() implies p[i] == t[i] by {
                assert(p[i] == d.subrange(0, p.len() as int)[i]);
            }
        }
        lemma_flush_keeps(p, t, k);
    }
}

/// Reaching an entry at depth `k` keeps put off what was put off before; when it is walked
/// without error it also keeps what reaching it put off.
proof fn lemma_walk_keeps(o: EntriesV, x: MemEntryV, k: nat, d: Seq<MemEntryV>, stack: Seq<Seq<char>>)
    requires
        d.len() <= k,
    ensures
        d.is_prefix_of(walk(o, x, k, d, stack).1),
        !(x.entry.dir && (!x.entry.link || o.follow) && x.entry.link && stack.contains(x.entry.path))
            && (x.entry.dir && (!x.entry.link || o.follow) && k < o.max_depth ==> entered(o, x) is Ok)
            ==> emit(o, x, k, d).1.is_prefix_of(walk(o, x, k, d, stack).1),
    decreases o.max_depth - k, 1int, 0int,
{
    let recurse = x.entry.dir && (!x.entry.link || o.follow);
    let h = emit(o, x, k, d);
    assert(d.is_prefix_of(h.1)) by {
        assert(d =~= h.1.subrange(0, d.len() as int));
    }
    assert(h.1.is_prefix_of(h.1)) by {
        assert(h.1 =~= h.1.subrange(0, h.1.len() as int));
    }
    assert(d.is_prefix_of(d)) by {
        assert(d =~= d.subrange(0, d.len() as int));
    }
    if recurse && x.entry.link && stack.contains(x.entry.path) {
    } else if recurse && k < o.max_depth {
        match entered(o, x) {
            Err(e) => {},
            Ok(cs) => {
                let st = stack.push(x.entry.path);
                lemma_run_keeps(o, cs, 0, k + 1, h.1, st);
                lemma_flush_ms(h.1, k + 1);
                let r = run(o, cs, 0, k + 1, h.1, st);
                lemma_prefix_trans(d, h.1, r.1);
            },
        }
    }
}

/// A directory's entries reached at depth `k` keep put off what was left put off at or above
/// that depth.
proof fn lemma_run_keeps(
    o: EntriesV,
    cs: Seq<MemEntryV>,
    i: int,
    k: nat,
    d: Seq<MemEntryV>,
    stack: Seq<Seq<char>>,
)
    ensures
        flush(d, k).1.is_prefix_of(run(o, cs, i, k, d, stack).1),
    decreases o.max_depth - k, 2int, cs.len() - i,
{
    let f = flush(d, k);
    lemma_flush_ms(d, k);
    assert(f.1.is_prefix_of(f.1)) by {
        assert(f.1 =~= f.1.subrange(0, f.1.len() as int));
    }
    if 0 <= i < cs.len() {
        lemma_walk_keeps(o, cs[i], k, f.1, stack);
        let a = walk(o, cs[i], k, f.1, stack);
        lemma_run_keeps(o, cs, i + 1, k, a.1, stack);
        let b = run(o, cs, i + 1, k, a.1, stack);
        lemma_flush_keeps(f.1, a.1, k);
        lemma_prefix_trans(f.1, flush(a.1, k).1, b.1);
    }
}

/// With directories put after their contents, a directory reached within the depth bounds and
/// walked without error is, once everything reached from it has been walked, still put off,
/// above the directories put off before it: it is yielded only after all that lies below it.
/// (Every walk of a traversal starts with fewer directories put off than its depth.)
pub proof fn lemma_put_off_after(o: EntriesV, x: MemEntryV, k: nat, d: Seq<MemEntryV>, stack: Seq<Seq<char>>)
    requires
        o.contents_first,
        x.entry.dir,
        o.min_depth <= k,
        d.len() <= k,
        !((!x.entry.link || o.follow) && x.entry.link && stack.contains(x.entry.path)),
        (!x.entry.link || o.follow) && k < o.max_depth ==> entered(o, x) is Ok,
    ensures
        d.push(x).is_prefix_of(walk(o, x, k, d, stack).1),
{
    lemma_walk_keeps(o, x, k, d, stack);
}

} // verus!
