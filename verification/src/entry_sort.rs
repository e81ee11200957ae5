//! Sorting the entries of one directory with an order given by the caller.
use std::cmp::Ordering;
use vstd::prelude::*;
use crate::entry::{MemEntryV, MemfsEntry, VfsEntry};
use crate::entry_iter::{EntryIter, ents_view};

verus! {

/// The first `n` entries of `s`.
pub open spec fn first_n(s: Seq<MemEntryV>, n: usize) -> Seq<MemEntryV> {
    s.take(n as int)
}

/// `s` with `x` put at position `k`.
pub open spec fn put_at(s: Seq<MemEntryV>, k: usize, x: MemEntryV) -> Seq<MemEntryV> {
    s.insert(k as int, x)
}

proof fn lemma_put_at_ms(s: Seq<MemEntryV>, k: usize, x: MemEntryV)
    requires
        k <= s.len(),
    ensures
        put_at(s, k, x).to_multiset() == s.to_multiset().insert(x),
{
    vstd::seq_lib::to_multiset_insert(s, k as int, x);
}

proof fn lemma_push_ms(s: Seq<MemEntryV>, x: MemEntryV)
    ensures
        s.push(x).to_multiset() == s.to_multiset().insert(x),
{
    vstd::seq_lib::to_multiset_build(s, x);
}

/// The order never answers that an entry seen as `a` comes after one seen as `b`.
pub open spec fn not_after<F: Fn(&VfsEntry, &VfsEntry) -> Ordering>(order: F, a: MemEntryV, b: MemEntryV) -> bool {
    forall|x: MemfsEntry, y: MemfsEntry, r: Ordering|
        x@ == a && y@ == b && #[trigger] call_ensures(order, (&VfsEntry::Memfs(x), &VfsEntry::Memfs(y)), r)
            ==> r != Ordering::Greater
}

/// The order is a total order on what entries are seen as: it can be called on any two entries,
/// answers alike for entries seen alike, answers that `a` comes after `b` only where it never
/// answers that `b` comes after `a`, and never answering "after" passes from `a`, `b` and `b`,
/// `c` to `a`, `c`.
pub open spec fn orders_entries<F: Fn(&VfsEntry, &VfsEntry) -> Ordering>(order: F) -> bool {
    &&& forall|a: VfsEntry, b: VfsEntry| #[trigger] call_requires(order, (&a, &b))
    &&& forall|x1: MemfsEntry, y1: MemfsEntry, x2: MemfsEntry, y2: MemfsEntry, r1: Ordering, r2: Ordering|
        x1@ == x2@ && y1@ == y2@ && #[trigger] call_ensures(
            order,
            (&VfsEntry::Memfs(x1), &VfsEntry::Memfs(y1)),
            r1,
        ) && #[trigger] call_ensures(order, (&VfsEntry::Memfs(x2), &VfsEntry::Memfs(y2)), r2) ==> r1 == r2
    &&& forall|x: MemfsEntry, y: MemfsEntry|
        #[trigger] call_ensures(order, (&VfsEntry::Memfs(x), &VfsEntry::Memfs(y)), Ordering::Greater)
            ==> not_after(order, y@, x@)
    &&& forall|a: MemEntryV, b: MemEntryV, c: MemEntryV|
        #[trigger] not_after(order, a, b) && #[trigger] not_after(order, b, c) ==> not_after(order, a, c)
}

/// The entries stand in the order: none is answered to come after one behind it.
pub open spec fn sorted_with<F: Fn(&VfsEntry, &VfsEntry) -> Ordering>(order: F, s: Seq<MemEntryV>) -> bool {
    forall|i: int, j: int| 0 <= i < j < s.len() ==> not_after(order, #[trigger] s[i], #[trigger] s[j])
}

/// Sorts the entries by the order, stably: each is put after those before it that the order
/// does not answer come after it.
fn sort_entries_with<F: Fn(&VfsEntry, &VfsEntry) -> Ordering>(order: &F, v: Vec<MemfsEntry>) -> (r: Vec<MemfsEntry>)
    requires
        orders_entries(*order),
    ensures
        ents_view(r@).to_multiset() == ents_view(v@).to_multiset(),
        sorted_with(*order, ents_view(r@)),
{
    broadcast use vstd::seq_lib::group_to_multiset_ensures;

    let mut out: Vec<MemfsEntry> = Vec::new();
    let mut i: usize = 0;
    while i < v.len()
        invariant
            orders_entries(*order),
            i <= v.len(),
            ents_view(out@).to_multiset() == first_n(ents_view(v@), i).to_multiset(),
            sorted_with(*order, ents_view(out@)),
        decreases v.len() - i,
    {
        let x = v[i].clone_entry();
        let ghost xv = x@;
        let ghost ov = ents_view(out@);
        let mut k: usize = out.len();
        let mut stop = false;
        while k > 0 && !stop
            invariant
                orders_entries(*order),
                ov == ents_view(out@),
                k <= out.len(),
                xv == x@,
                forall|j: int| k <= j < ov.len() ==> not_after(*order, xv, #[trigger] ov[j]),
                stop ==> k > 0 && not_after(*order, ov[k - 1], xv),
            decreases k + if stop { 0int } else { 1int },
        {
            let ca = out[k - 1].clone_entry();
            let cb = x.clone_entry();
            let ghost ga = ca;
            let ghost gb = cb;
            let a = VfsEntry::Memfs(ca);
            let b = VfsEntry::Memfs(cb);
            let answer = (*order)(&a, &b);
            assert(call_ensures(*order, (&VfsEntry::Memfs(ga), &VfsEntry::Memfs(gb)), answer));
            assert(ga@ == ov[k - 1]);
            assert(gb@ == xv);
            let after = match answer {
                Ordering::Greater => true,
                _ => false,
            };
            if !after {
                assert forall|x1: MemfsEntry, y1: MemfsEntry, r: Ordering|
                    x1@ == ov[k - 1] && y1@ == xv && #[trigger] call_ensures(
                        *order,
                        (&VfsEntry::Memfs(x1), &VfsEntry::Memfs(y1)),
                        r,
                    ) implies r != Ordering::Greater by {
                    assert(call_ensures(*order, (&VfsEntry::Memfs(ga), &VfsEntry::Memfs(gb)), answer));
                    assert(x1@ == ga@ && y1@ == gb@);
                    assert(r == answer);
                }
            }
            if after {
                k = k - 1;
            } else {
                stop = true;
            }
        }
        proof {
            assert forall|j: int| 0 <= j < k implies not_after(*order, #[trigger] ov[j], xv) by {
                if j < k - 1 {
                    assert(not_after(*order, ov[j], ov[k - 1]));
                }
            }
        }
        proof {
            lemma_put_at_ms(ov, k, xv);
            lemma_push_ms(first_n(ents_view(v@), i), xv);
        }
        out.insert(k, x);
        proof {
            let nv = ents_view(out@);
            assert(nv =~= put_at(ov, k, xv));
            assert forall|p: int, q: int| 0 <= p < q < nv.len() implies not_after(*order, #[trigger] nv[p], #[trigger] nv[q]) by {
                if q < k {
                    assert(nv[p] == ov[p] && nv[q] == ov[q]);
                } else if q == k {
                    assert(nv[p] == ov[p]);
                } else if p == k {
                    assert(nv[q] == ov[q - 1]);
                } else if p < k {
                    assert(nv[p] == ov[p] && nv[q] == ov[q - 1]);
                } else {
                    assert(nv[p] == ov[p - 1] && nv[q] == ov[q - 1]);
                }
            }
        }
        let ghost before = first_n(ents_view(v@), i);
        i = i + 1;
        assert(first_n(ents_view(v@), i) =~= before.push(xv));
    }
    assert(first_n(ents_view(v@), v.len()) =~= ents_view(v@));
    out
}

impl EntryIter {
    /// Sorts the entries left by the order given; they are then held in memory.
    pub fn sort_by<F: Fn(&VfsEntry, &VfsEntry) -> Ordering>(&mut self, order: F)
        requires
            orders_entries(order),
        ensures
            final(self).cached,
            final(self).path@ == old(self).path@,
            final(self).following == old(self).following,
            final(self).rest().to_multiset() == old(self).yields().to_multiset(),
            sorted_with(order, final(self).rest()),
    {
        let v = self.take_rest();
        self.items = sort_entries_with(&order, v);
        self.pos = 0;
        self.cached = true;
        assert(self.items@.skip(0) =~= self.items@);
    }
}

} // verus!
