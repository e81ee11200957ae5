//! Iteration over the entries of a single directory, optionally sorted.
use vstd::prelude::*;
use crate::entry::{MemEntryV, MemfsEntry, VfsEntry, follow_mem};
use crate::errors::RvError;
use crate::path::{file_name, file_name_exec};
use crate::strs::chars_of;

verus! {

/// The order in which the entries of a directory are sorted.
#[derive(Debug, Clone, Copy, PartialEq, Eq, Structural)]
pub enum SortBy {
    /// By file name, ascending
    Name,
    /// By file name, descending
    NameDesc,
}

/// `a` comes before `b`, or equals it, in the lexicographic order of characters.
pub open spec fn chars_le(a: Seq<char>, b: Seq<char>) -> bool
    decreases a.len(),
{
    if a.len() == 0 {
        true
    } else if b.len() == 0 {
        false
    } else if a[0] != b[0] {
        a[0] < b[0]
    } else {
        chars_le(a.drop_first(), b.drop_first())
    }
}

/// The order of optional file names: no name comes first.
pub open spec fn key_le(a: Option<Seq<char>>, b: Option<Seq<char>>) -> bool {
    match (a, b) {
        (None, _) => true,
        (Some(_), None) => false,
        (Some(x), Some(y)) => chars_le(x, y),
    }
}

/// The file name an entry is sorted by.
pub open spec fn name_key(e: MemEntryV) -> Option<Seq<char>> {
    file_name(e.entry.path)
}

/// `a` may stand before `b` in the order `by`.
pub open spec fn in_order(by: SortBy, a: MemEntryV, b: MemEntryV) -> bool {
    match by {
        SortBy::Name => key_le(name_key(a), name_key(b)),
        SortBy::NameDesc => key_le(name_key(b), name_key(a)),
    }
}

/// `x` inserted into `s` after the leading entries that may stand before it.
pub open spec fn insert_by(by: SortBy, s: Seq<MemEntryV>, x: MemEntryV) -> Seq<MemEntryV>
    decreases s.len(),
{
    if s.len() == 0 {
        seq![x]
    } else if in_order(by, s[0], x) {
        seq![s[0]] + insert_by(by, s.drop_first(), x)
    } else {
        seq![x] + s
    }
}

/// `s` sorted stably in the order `by`: entries that compare equal keep their order.
pub open spec fn sorted_by(by: SortBy, s: Seq<MemEntryV>) -> Seq<MemEntryV>
    decreases s.len(),
{
    if s.len() == 0 {
        s
    } else {
        insert_by(by, sorted_by(by, s.drop_last()), s.last())
    }
}

/// The directories of `s`, in order.
pub open spec fn dirs_of(s: Seq<MemEntryV>) -> Seq<MemEntryV>
    decreases s.len(),
{
    if s.len() == 0 {
        s
    } else if s.last().entry.dir {
        dirs_of(s.drop_last()).push(s.last())
    } else {
        dirs_of(s.drop_last())
    }
}

/// The entries of `s` that are not directories, in order.
pub open spec fn files_of(s: Seq<MemEntryV>) -> Seq<MemEntryV>
    decreases s.len(),
{
    if s.len() == 0 {
        s
    } else if s.last().entry.dir {
        files_of(s.drop_last())
    } else {
        files_of(s.drop_last()).push(s.last())
    }
}

/// The models of the entries.
pub open spec fn ents_view(v: Seq<MemfsEntry>) -> Seq<MemEntryV> {
    v.map_values(|e: MemfsEntry| e@)
}

/// Every entry followed as directed.
pub open spec fn follow_all(s: Seq<MemEntryV>, follow: bool) -> Seq<MemEntryV> {
    s.map_values(|e: MemEntryV| follow_mem(e, follow))
}

/// Every entry of `s` is unchanged by following as directed.
pub open spec fn all_followed(s: Seq<MemEntryV>, follow: bool) -> bool {
    forall|i: int| 0 <= i < s.len() ==> follow_mem(#[trigger] s[i], follow) == s[i]
}

/// Following twice is following once.
pub proof fn lemma_follow_all_followed(s: Seq<MemEntryV>, follow: bool)
    ensures
        all_followed(follow_all(s, follow), follow),
{
}

/// Following entries that are already followed changes nothing.
pub proof fn lemma_followed_id(s: Seq<MemEntryV>, follow: bool)
    requires
        all_followed(s, follow),
    ensures
        follow_all(s, follow) == s,
{
    assert(follow_all(s, follow) =~= s);
}

proof fn lemma_insert_followed(by: SortBy, s: Seq<MemEntryV>, x: MemEntryV, follow: bool)
    requires
        all_followed(s, follow),
        follow_mem(x, follow) == x,
    ensures
        all_followed(insert_by(by, s, x), follow),
    decreases s.len(),
{
    if s.len() > 0 && in_order(by, s[0], x) {
        let t = s.drop_first();
        assert forall|i: int| 0 <= i < t.len() implies follow_mem(#[trigger] t[i], follow) == t[i] by {
            assert(t[i] == s[i + 1]);
        }
        lemma_insert_followed(by, t, x, follow);
        let r = insert_by(by, s, x);
        assert forall|i: int| 0 <= i < r.len() implies follow_mem(#[trigger] r[i], follow) == r[i] by {
            if i > 0 {
                assert(r[i] == insert_by(by, t, x)[i - 1]);
            }
        }
    } else if s.len() > 0 {
        let r = insert_by(by, s, x);
        assert forall|i: int| 0 <= i < r.len() implies follow_mem(#[trigger] r[i], follow) == r[i] by {
            if i > 0 {
                assert(r[i] == s[i - 1]);
            }
        }
    }
}

/// Sorting keeps entries that are followed followed.
pub proof fn lemma_sorted_followed(by: SortBy, s: Seq<MemEntryV>, follow: bool)
    requires
        all_followed(s, follow),
    ensures
        all_followed(sorted_by(by, s), follow),
    decreases s.len(),
{
    if s.len() > 0 {
        let t = s.drop_last();
        assert forall|i: int| 0 <= i < t.len() implies follow_mem(#[trigger] t[i], follow) == t[i] by {
            assert(t[i] == s[i]);
        }
        lemma_sorted_followed(by, t, follow);
        assert(follow_mem(s[s.len() - 1], follow) == s.last());
        lemma_insert_followed(by, sorted_by(by, t), s.last(), follow);
    }
}

/// Splitting keeps entries that are followed followed.
pub proof fn lemma_split_followed(s: Seq<MemEntryV>, follow: bool)
    requires
        all_followed(s, follow),
    ensures
        all_followed(dirs_of(s), follow),
        all_followed(files_of(s), follow),
    decreases s.len(),
{
    if s.len() > 0 {
        let t = s.drop_last();
        assert forall|i: int| 0 <= i < t.len() implies follow_mem(#[trigger] t[i], follow) == t[i] by {
            assert(t[i] == s[i]);
        }
        lemma_split_followed(t, follow);
        assert(follow_mem(s[s.len() - 1], follow) == s.last());
        let d = dirs_of(s);
        let f = files_of(s);
        assert forall|i: int| 0 <= i < d.len() implies follow_mem(#[trigger] d[i], follow) == d[i] by {
            if i < dirs_of(t).len() {
                assert(d[i] == dirs_of(t)[i]);
            }
        }
        assert forall|i: int| 0 <= i < f.len() implies follow_mem(#[trigger] f[i], follow) == f[i] by {
            if i < files_of(t).len() {
                assert(f[i] == files_of(t)[i]);
            }
        }
    }
}

/// Concatenating followed entries keeps them followed.
pub proof fn lemma_concat_followed(a: Seq<MemEntryV>, b: Seq<MemEntryV>, follow: bool)
    requires
        all_followed(a, follow),
        all_followed(b, follow),
    ensures
        all_followed(a + b, follow),
{
    assert forall|i: int| 0 <= i < (a + b).len() implies follow_mem(#[trigger] (a + b)[i], follow)
        == (a + b)[i] by {
        if i < a.len() {
            assert((a + b)[i] == a[i]);
        } else {
            assert((a + b)[i] == b[i - a.len()]);
        }
    }
}

/// The entries of `s` stand in the order `by`.
pub open spec fn is_sorted_by(by: SortBy, s: Seq<MemEntryV>) -> bool {
    forall|i: int, j: int| 0 <= i < j < s.len() ==> in_order(by, #[trigger] s[i], #[trigger] s[j])
}

/// The order of characters is total.
pub proof fn lemma_chars_le_total(a: Seq<char>, b: Seq<char>)
    ensures
        chars_le(a, b) || chars_le(b, a),
    decreases a.len(),
{
    if a.len() > 0 && b.len() > 0 && a[0] == b[0] {
        lemma_chars_le_total(a.drop_first(), b.drop_first());
    }
}

/// The order of characters is transitive.
pub proof fn lemma_chars_le_trans(a: Seq<char>, b: Seq<char>, c: Seq<char>)
    requires
        chars_le(a, b),
        chars_le(b, c),
    ensures
        chars_le(a, c),
    decreases a.len(),
{
    if a.len() > 0 && b.len() > 0 && c.len() > 0 && a[0] == b[0] && b[0] == c[0] {
        lemma_chars_le_trans(a.drop_first(), b.drop_first(), c.drop_first());
    }
}

/// Any two entries stand in some order.
pub proof fn lemma_in_order_total(by: SortBy, a: MemEntryV, b: MemEntryV)
    ensures
        in_order(by, a, b) || in_order(by, b, a),
{
    match (name_key(a), name_key(b)) {
        (Some(x), Some(y)) => lemma_chars_le_total(x, y),
        _ => {},
    }
}

/// The order of entries is transitive.
pub proof fn lemma_in_order_trans(by: SortBy, a: MemEntryV, b: MemEntryV, c: MemEntryV)
    requires
        in_order(by, a, b),
        in_order(by, b, c),
    ensures
        in_order(by, a, c),
{
    match (name_key(a), name_key(b), name_key(c)) {
        (Some(x), Some(y), Some(z)) => match by {
            SortBy::Name => lemma_chars_le_trans(x, y, z),
            SortBy::NameDesc => lemma_chars_le_trans(z, y, x),
        },
        _ => {},
    }
}

proof fn lemma_insert_multiset(by: SortBy, s: Seq<MemEntryV>, x: MemEntryV)
    ensures
        insert_by(by, s, x).to_multiset() =~= s.to_multiset().insert(x),
    decreases s.len(),
{
    broadcast use vstd::seq_lib::group_to_multiset_ensures;
    broadcast use vstd::multiset::group_multiset_axioms;

    if s.len() == 0 {
        assert(seq![x] =~= s.push(x));
    } else if in_order(by, s[0], x) {
        let t = s.drop_first();
        lemma_insert_multiset(by, t, x);
        vstd::seq_lib::lemma_multiset_commutative(seq![s[0]], insert_by(by, t, x));
        vstd::seq_lib::lemma_multiset_commutative(seq![s[0]], t);
        assert(seq![s[0]] + t =~= s);
        assert(seq![s[0]] =~= Seq::<MemEntryV>::empty().push(s[0]));
    } else {
        vstd::seq_lib::lemma_multiset_commutative(seq![x], s);
        assert(seq![x] =~= Seq::<MemEntryV>::empty().push(x));
    }
}

proof fn lemma_insert_sorted(by: SortBy, s: Seq<MemEntryV>, x: MemEntryV)
    requires
        is_sorted_by(by, s),
    ensures
        is_sorted_by(by, insert_by(by, s, x)),
    decreases s.len(),
{
    broadcast use vstd::seq_lib::group_to_multiset_ensures;

    let r = insert_by(by, s, x);
    if s.len() == 0 {
    } else if in_order(by, s[0], x) {
        let t = s.drop_first();
        assert forall|i: int, j: int| 0 <= i < j < t.len() implies in_order(by, #[trigger] t[i], #[trigger] t[j]) by {
            assert(t[i] == s[i + 1] && t[j] == s[j + 1]);
        }
        lemma_insert_sorted(by, t, x);
        lemma_insert_multiset(by, t, x);
        let u = insert_by(by, t, x);
        assert forall|i: int, j: int| 0 <= i < j < r.len() implies in_order(by, #[trigger] r[i], #[trigger] r[j]) by {
            if i == 0 {
                assert(r[j] == u[j - 1]);
                assert(u.to_multiset().count(u[j - 1]) > 0);
                assert(t.to_multiset().insert(x).count(u[j - 1]) > 0);
                if u[j - 1] != x {
                    assert(t.contains(u[j - 1]));
                    let m = choose|m: int| 0 <= m < t.len() && t[m] == u[j - 1];
                    assert(s[m + 1] == t[m]);
                }
            } else {
                assert(r[i] == u[i - 1] && r[j] == u[j - 1]);
            }
        }
    } else {
        lemma_in_order_total(by, s[0], x);
        assert forall|i: int, j: int| 0 <= i < j < r.len() implies in_order(by, #[trigger] r[i], #[trigger] r[j]) by {
            if i == 0 {
                assert(r[j] == s[j - 1]);
                if j - 1 > 0 {
                    lemma_in_order_trans(by, x, s[0], s[j - 1]);
                }
            } else {
                assert(r[i] == s[i - 1] && r[j] == s[j - 1]);
            }
        }
    }
}

/// Sorting keeps exactly the entries given, and puts them in the order `by`.
pub proof fn lemma_sorted(by: SortBy, s: Seq<MemEntryV>)
    ensures
        sorted_by(by, s).to_multiset() =~= s.to_multiset(),
        is_sorted_by(by, sorted_by(by, s)),
    decreases s.len(),
{
    broadcast use vstd::seq_lib::group_to_multiset_ensures;

    if s.len() > 0 {
        lemma_sorted(by, s.drop_last());
        lemma_insert_multiset(by, sorted_by(by, s.drop_last()), s.last());
        lemma_insert_sorted(by, sorted_by(by, s.drop_last()), s.last());
        assert(s =~= s.drop_last().push(s.last()));
    }
}

/// Provides iteration over a single directory of the memory filesystem.
///
/// The entries are held in memory; sorting reorders what is left to iterate.
#[derive(Debug)]
pub struct EntryIter {
    pub path: String,
    pub cached: bool,
    pub following: bool,
    pub items: Vec<MemfsEntry>,
    pub pos: usize,
}

/// Returns true when `a` comes before `b`, or equals it, in the lexicographic order of
/// characters.
pub fn chars_le_exec(a: &Vec<char>, b: &Vec<char>) -> (r: bool)
    ensures
        r == chars_le(a@, b@),
{
    let mut i: usize = 0;
    assert(a@.skip(0) =~= a@);
    assert(b@.skip(0) =~= b@);
    while i < a.len()
        invariant
            i <= a.len(),
            i <= b.len(),
            chars_le(a@, b@) == chars_le(a@.skip(i as int), b@.skip(i as int)),
        decreases a.len() - i,
    {
        if i >= b.len() {
            return false;
        }
        if a[i] != b[i] {
            return a[i] < b[i];
        }
        assert(a@.skip(i as int).drop_first() =~= a@.skip(i + 1));
        assert(b@.skip(i as int).drop_first() =~= b@.skip(i + 1));
        i = i + 1;
    }
    true
}

/// Returns true when the entry `a` may stand before `b` in the order `by`.
pub fn in_order_exec(by: SortBy, a: &MemfsEntry, b: &MemfsEntry) -> (r: bool)
    ensures
        r == in_order(by, a@, b@),
{
    let ka = file_name_exec(&chars_of(a.path.as_str()));
    let kb = file_name_exec(&chars_of(b.path.as_str()));
    let (x, y) = match by {
        SortBy::Name => (ka, kb),
        SortBy::NameDesc => (kb, ka),
    };
    match (x, y) {
        (None, _) => true,
        (Some(_), None) => false,
        (Some(p), Some(q)) => chars_le_exec(&p, &q),
    }
}

/// Inserting after the first `j` entries, which may all stand before `x`, where the next does
/// not, is what `insert_by` does.
pub proof fn lemma_insert_at(by: SortBy, s: Seq<MemEntryV>, x: MemEntryV, j: int)
    requires
        0 <= j <= s.len(),
        forall|k: int| 0 <= k < j ==> in_order(by, #[trigger] s[k], x),
        j < s.len() ==> !in_order(by, s[j], x),
    ensures
        insert_by(by, s, x) == s.take(j) + seq![x] + s.skip(j),
    decreases j,
{
    if s.len() == 0 {
        assert(s.take(j) + seq![x] + s.skip(j) =~= seq![x]);
    } else if j == 0 {
        assert(s.take(j) + seq![x] + s.skip(j) =~= seq![x] + s);
    } else {
        let t = s.drop_first();
        assert forall|k: int| 0 <= k < j - 1 implies in_order(by, #[trigger] t[k], x) by {
            assert(t[k] == s[k + 1]);
        }
        if j - 1 < t.len() {
            assert(t[j - 1] == s[j]);
        }
        lemma_insert_at(by, t, x, j - 1);
        assert(in_order(by, s[0], x));
        assert(seq![s[0]] + (t.take(j - 1) + seq![x] + t.skip(j - 1)) =~= s.take(j) + seq![x]
            + s.skip(j));
    }
}

/// Inserts `x` into `r` where `insert_by` puts it.
fn insert_entry(by: SortBy, r: &mut Vec<MemfsEntry>, x: MemfsEntry)
    ensures
        ents_view(final(r)@) == insert_by(by, ents_view(old(r)@), x@),
{
    let ghost s = ents_view(r@);
    let mut j: usize = 0;
    while j < r.len()
        invariant
            j <= r.len(),
            s == ents_view(r@),
            forall|k: int| 0 <= k < j ==> in_order(by, #[trigger] s[k], x@),
        ensures
            j <= r.len(),
            s == ents_view(r@),
            forall|k: int| 0 <= k < j ==> in_order(by, #[trigger] s[k], x@),
            j < r.len() ==> !in_order(by, s[j as int], x@),
        decreases r.len() - j,
    {
        assert(s[j as int] == r@[j as int]@);
        if !in_order_exec(by, &r[j], &x) {
            break;
        }
        j = j + 1;
    }
    proof {
        lemma_insert_at(by, s, x@, j as int);
    }
    r.insert(j, x);
    assert(ents_view(r@) =~= s.take(j as int) + seq![x@] + s.skip(j as int));
}

/// Sorts the entries stably in the order `by`.
pub fn sort_entries(by: SortBy, v: Vec<MemfsEntry>) -> (r: Vec<MemfsEntry>)
    ensures
        ents_view(r@) == sorted_by(by, ents_view(v@)),
{
    let mut r: Vec<MemfsEntry> = Vec::new();
    let mut i: usize = 0;
    while i < v.len()
        invariant
            i <= v.len(),
            ents_view(r@) == sorted_by(by, ents_view(v@).take(i as int)),
        decreases v.len() - i,
    {
        let ghost t = ents_view(v@).take(i + 1);
        assert(t.drop_last() =~= ents_view(v@).take(i as int));
        assert(t.last() == v@[i as int]@);
        insert_entry(by, &mut r, v[i].clone_entry());
        i = i + 1;
    }
    assert(ents_view(v@).take(v.len() as int) =~= ents_view(v@));
    r
}

/// Splits the entries into the directories and the rest, each in order.
fn split_entries(v: Vec<MemfsEntry>) -> (r: (Vec<MemfsEntry>, Vec<MemfsEntry>))
    ensures
        ents_view(r.0@) == dirs_of(ents_view(v@)),
        ents_view(r.1@) == files_of(ents_view(v@)),
{
    let mut dirs: Vec<MemfsEntry> = Vec::new();
    let mut files: Vec<MemfsEntry> = Vec::new();
    let mut i: usize = 0;
    while i < v.len()
        invariant
            i <= v.len(),
            ents_view(dirs@) == dirs_of(ents_view(v@).take(i as int)),
            ents_view(files@) == files_of(ents_view(v@).take(i as int)),
        decreases v.len() - i,
    {
        let ghost t = ents_view(v@).take(i + 1);
        assert(t.drop_last() =~= ents_view(v@).take(i as int));
        assert(t.last() == v@[i as int]@);
        let e = v[i].clone_entry();
        if e.dir {
            dirs.push(e);
            assert(ents_view(dirs@) =~= ents_view(dirs@).drop_last().push(e@));
        } else {
            files.push(e);
            assert(ents_view(files@) =~= ents_view(files@).drop_last().push(e@));
        }
        i = i + 1;
    }
    assert(ents_view(v@).take(v.len() as int) =~= ents_view(v@));
    (dirs, files)
}

impl EntryIter {
    /// The entries left to iterate, as stored.
    pub open spec fn rest(&self) -> Seq<MemEntryV> {
        if self.pos <= self.items.len() {
            ents_view(self.items@.skip(self.pos as int))
        } else {
            Seq::empty()
        }
    }

    /// The entries left to iterate, as they will be returned.
    pub open spec fn yields(&self) -> Seq<MemEntryV> {
        follow_all(self.rest(), self.following)
    }

    /// Returns the path of the directory being iterated over.
    pub fn path(&self) -> (r: &String)
        ensures
            r@ == self.path@,
    {
        &self.path
    }

    /// Marks the entries as read into memory; they already are.
    pub fn cache(&mut self)
        ensures
            final(self).cached,
            final(self).path@ == old(self).path@,
            final(self).following == old(self).following,
            final(self).rest() == old(self).rest(),
    {
        self.cached = true;
    }

    /// Returns true when the entries are held in memory by request.
    pub fn cached(&self) -> (r: bool)
        ensures
            r == self.cached,
    {
        self.cached
    }

    /// Sets whether links returned have their path and target switched.
    pub fn follow(self, follow: bool) -> (r: EntryIter)
        ensures
            r.following == follow,
            r.cached == self.cached,
            r.path@ == self.path@,
            r.rest() == self.rest(),
    {
        let mut x = self;
        x.following = follow;
        x
    }

    /// Returns true when links returned have their path and target switched.
    pub fn following(&self) -> (r: bool)
        ensures
            r == self.following,
    {
        self.following
    }

    /// The entries left, followed as directed.
    pub(crate) fn take_rest(&mut self) -> (r: Vec<MemfsEntry>)
        ensures
            ents_view(r@) == old(self).yields(),
            final(self).path@ == old(self).path@,
            final(self).following == old(self).following,
    {
        let mut r: Vec<MemfsEntry> = Vec::new();
        let ghost y = self.yields();
        if self.pos > self.items.len() {
            assert(ents_view(r@) =~= y);
            return r;
        }
        let p0 = self.pos;
        let mut i = self.pos;
        while i < self.items.len()
            invariant
                p0 <= i <= self.items.len(),
                self.pos == p0,
                y == old(self).yields(),
                self.items@ == old(self).items@,
                self.following == old(self).following,
                y == follow_all(ents_view(self.items@.skip(p0 as int)), self.following),
                ents_view(r@) == y.take(i - p0),
            decreases self.items.len() - i,
        {
            let e = self.items[i].clone_entry().follow(self.following);
            assert(y.len() == self.items.len() - p0);
            assert(y[i - p0] == follow_mem(self.items@[i as int]@, self.following));
            let ghost r0 = ents_view(r@);
            r.push(e);
            assert(ents_view(r@) =~= r0.push(e@));
            assert(ents_view(r@) =~= y.take(i - p0 + 1));
            i = i + 1;
        }
        self.pos = i;
        assert(ents_view(r@) =~= y);
        r
    }

    /// Sorts the entries left in the order `by`; they are then held in memory.
    pub fn sort(&mut self, by: SortBy)
        ensures
            final(self).cached,
            final(self).path@ == old(self).path@,
            final(self).following == old(self).following,
            final(self).rest() == sorted_by(by, old(self).yields()),
    {
        let v = self.take_rest();
        self.items = sort_entries(by, v);
        self.pos = 0;
        self.cached = true;
        assert(self.items@.skip(0) =~= self.items@);
    }

    /// Sorts the entries left with the directories first, each part in the order `by`; they
    /// are then held in memory.
    pub fn dirs_first(&mut self, by: SortBy)
        ensures
            final(self).cached,
            final(self).path@ == old(self).path@,
            final(self).following == old(self).following,
            final(self).rest() == sorted_by(by, dirs_of(old(self).yields())) + sorted_by(
                by,
                files_of(old(self).yields()),
            ),
    {
        let v = self.take_rest();
        let (d, f) = split_entries(v);
        let mut a = sort_entries(by, d);
        let mut b = sort_entries(by, f);
        a.append(&mut b);
        self.items = a;
        self.pos = 0;
        self.cached = true;
        assert(self.items@.skip(0) =~= self.items@);
    }

    /// Sorts the entries left with the directories last, each part in the order `by`; they are
    /// then held in memory.
    pub fn files_first(&mut self, by: SortBy)
        ensures
            final(self).cached,
            final(self).path@ == old(self).path@,
            final(self).following == old(self).following,
            final(self).rest() == sorted_by(by, files_of(old(self).yields())) + sorted_by(
                by,
                dirs_of(old(self).yields()),
            ),
    {
        let v = self.take_rest();
        let (d, f) = split_entries(v);
        let mut a = sort_entries(by, f);
        let mut b = sort_entries(by, d);
        a.append(&mut b);
        self.items = a;
        self.pos = 0;
        self.cached = true;
        assert(self.items@.skip(0) =~= self.items@);
    }

    /// Returns the next entry, its path and target switched when following a link.
    pub fn next(&mut self) -> (r: Option<Result<VfsEntry, RvError>>)
        ensures
            final(self).path@ == old(self).path@,
            final(self).following == old(self).following,
            final(self).cached == old(self).cached,
            old(self).rest().len() == 0 ==> r is None && final(self).rest() == old(self).rest(),
            old(self).rest().len() > 0 ==> (r matches Some(Ok(VfsEntry::Memfs(m))) && m@ == follow_mem(
                old(self).rest()[0],
                old(self).following,
            )) && final(self).rest() == old(self).rest().drop_first(),
    {
        if self.pos < self.items.len() {
            let e = self.items[self.pos].clone_entry().follow(self.following);
            let ghost r0 = old(self).rest();
            assert(r0[0] == self.items@[self.pos as int]@);
            self.pos = self.pos + 1;
            assert(self.rest() =~= r0.drop_first());
            Some(Ok(VfsEntry::Memfs(e)))
        } else {
            None
        }
    }
}

} // verus!
