//! Properties of path components: reading back what `join` writes, and cleaning a clean path.
use vstd::prelude::*;
use crate::path::{
    PComp, clean_comps, clean_spec, clean_step, colon_scan, common_len, comp_str, components, dot, dotdot,
    base_spec, dir_spec, join, leading_dot, mash_spec, push_str, rel_comps, relative_spec, scan, seg_comps,
    trim_prefix_spec,
};

verus! {

/// A name that reads back as itself: non-empty, free of separators, and neither `.` nor `..`.
pub open spec fn valid_name(n: Seq<char>) -> bool {
    &&& n.len() > 0
    &&& n != dot()
    &&& n != dotdot()
    &&& forall|k: int| 0 <= k < n.len() ==> #[trigger] n[k] != '/'
}

/// The components of a parsed path: the root or `.` only first, and every name valid.
pub open spec fn parsed_form(cs: Seq<PComp>) -> bool {
    &&& forall|i: int| 0 < i < cs.len() ==> !(#[trigger] cs[i] is Root) && !(cs[i] is Cur)
    &&& forall|i: int| 0 <= i < cs.len() && #[trigger] cs[i] is Normal ==> valid_name(cs[i]->Normal_0)
}

/// The components of a clean path: no `.`, the root only first, every `..` before every other
/// component and none after the root, and every name valid.
pub open spec fn clean_form(st: Seq<PComp>) -> bool {
    &&& forall|i: int| 0 <= i < st.len() ==> !(#[trigger] st[i] is Cur)
    &&& forall|i: int| 0 < i < st.len() ==> !(#[trigger] st[i] is Root)
    &&& forall|i: int, j: int|
        0 <= i < j < st.len() && #[trigger] st[j] is Parent ==> #[trigger] st[i] is Parent
    &&& forall|i: int| 0 <= i < st.len() && #[trigger] st[i] is Normal ==> valid_name(st[i]->Normal_0)
}

/// Components that `join` writes so that they read back: no `.`, the root only first, and
/// every name valid.
pub open spec fn joinable(st: Seq<PComp>) -> bool {
    &&& forall|i: int| 0 <= i < st.len() ==> !(#[trigger] st[i] is Cur)
    &&& forall|i: int| 0 < i < st.len() ==> !(#[trigger] st[i] is Root)
    &&& forall|i: int| 0 <= i < st.len() && #[trigger] st[i] is Normal ==> valid_name(st[i]->Normal_0)
}

/// Reading text free of separators adds it to the segment being read.
proof fn lemma_scan_flat(s: Seq<char>, i: int, cur: Seq<char>)
    requires
        0 <= i <= s.len(),
        forall|k: int| i <= k < s.len() ==> #[trigger] s[k] != '/',
    ensures
        scan(s, i, cur) == seg_comps(cur + s.subrange(i, s.len() as int)),
    decreases s.len() - i,
{
    if i == s.len() {
        assert(cur + s.subrange(i, s.len() as int) =~= cur);
    } else {
        lemma_scan_flat(s, i + 1, cur.push(s[i]));
        assert(cur.push(s[i]) + s.subrange(i + 1, s.len() as int) =~= cur + s.subrange(
            i,
            s.len() as int,
        ));
    }
}

/// Reading `a/n`, with `n` free of separators, reads `a` and then the segment `n`.
proof fn lemma_scan_append(a: Seq<char>, n: Seq<char>, i: int, cur: Seq<char>)
    requires
        0 <= i <= a.len(),
        forall|k: int| 0 <= k < n.len() ==> #[trigger] n[k] != '/',
    ensures
        scan(a + seq!['/'] + n, i, cur) == scan(a, i, cur) + seg_comps(n),
    decreases a.len() - i,
{
    let s = a + seq!['/'] + n;
    if i == a.len() {
        assert(s[i] == '/');
        assert forall|k: int| i + 1 <= k < s.len() implies #[trigger] s[k] != '/' by {
            assert(s[k] == n[k - i - 1]);
        }
        lemma_scan_flat(s, i + 1, Seq::empty());
        assert(Seq::<char>::empty() + s.subrange(i + 1, s.len() as int) =~= n);
    } else {
        assert(s[i] == a[i]);
        if a[i] == '/' {
            lemma_scan_append(a, n, i + 1, Seq::empty());
            assert(seg_comps(cur) + (scan(a, i + 1, Seq::empty()) + seg_comps(n)) =~= seg_comps(
                cur,
            ) + scan(a, i + 1, Seq::empty()) + seg_comps(n));
        } else {
            lemma_scan_append(a, n, i + 1, cur.push(a[i]));
        }
    }
}

/// The components of `a/n`, with `a` non-empty and `n` free of separators, are those of `a`
/// and then the segment `n`.
proof fn lemma_components_append(a: Seq<char>, n: Seq<char>)
    requires
        a.len() > 0,
        forall|k: int| 0 <= k < n.len() ==> #[trigger] n[k] != '/',
    ensures
        components(a + seq!['/'] + n) == components(a) + seg_comps(n),
{
    let s = a + seq!['/'] + n;
    lemma_scan_append(a, n, 0, Seq::empty());
    assert(s[0] == a[0]);
    if a.len() >= 2 {
        assert(s[1] == a[1]);
    } else {
        assert(s[1] == '/');
    }
    assert(leading_dot(s) == leading_dot(a));
    if a[0] == '/' {
        assert(seq![PComp::Root] + (scan(a, 0, Seq::empty()) + seg_comps(n)) =~= seq![PComp::Root]
            + scan(a, 0, Seq::empty()) + seg_comps(n));
    } else if leading_dot(a) {
        assert(seq![PComp::Cur] + (scan(a, 0, Seq::empty()) + seg_comps(n)) =~= seq![PComp::Cur]
            + scan(a, 0, Seq::empty()) + seg_comps(n));
    }
}

/// A `..` or a valid name reads back as itself.
proof fn lemma_seg_comp(c: PComp)
    requires
        c is Parent || (c is Normal && valid_name(c->Normal_0)),
    ensures
        seg_comps(comp_str(c)) == seq![c],
        comp_str(c).len() > 0,
        forall|k: int| 0 <= k < comp_str(c).len() ==> #[trigger] comp_str(c)[k] != '/',
{
    if c is Parent {
        assert(dotdot().len() != dot().len());
    }
}

/// The text `join` writes for a joinable, non-empty sequence is non-empty, and ends in a
/// separator only for the root alone.
#[verifier::spinoff_prover]
pub proof fn lemma_join_shape(st: Seq<PComp>)
    requires
        joinable(st),
        st.len() > 0,
    ensures
        join(st).len() > 0,
        join(st).last() == '/' <==> st == seq![PComp::Root],
        st[0] is Root <==> join(st)[0] == '/',
    decreases st.len(),
{
    let c = st.last();
    if st.len() == 1 {
        if c is Root {
            assert(join(st) =~= seq!['/']);
            assert(st =~= seq![PComp::Root]);
        } else {
            lemma_seg_comp(c);
            assert(join(st.drop_last()) =~= Seq::<char>::empty());
            assert(join(st) =~= comp_str(c));
            assert(join(st).last() == comp_str(c)[comp_str(c).len() - 1]);
            assert(st != seq![PComp::Root]);
        }
    } else {
        let st2 = st.drop_last();
        assert(joinable(st2)) by {
            assert forall|i: int| 0 <= i < st2.len() implies #[trigger] st2[i] == st[i] by {}
        }
        lemma_join_shape(st2);
        assert(!(c is Root));
        assert(!(c is Cur));
        lemma_seg_comp(c);
        let a = join(st2);
        let n = comp_str(c);
        assert(n[0] != '/');
        if a.last() == '/' {
            assert(join(st) =~= a + n);
        } else {
            assert(join(st) =~= a + seq!['/'] + n);
        }
        assert(join(st).last() == n[n.len() - 1]);
        assert(join(st)[0] == a[0]);
        assert(st.len() != 1);
        assert(st[0] == st2[0]);
    }
}

/// Reading back what `join` writes for a joinable sequence gives the sequence.
#[verifier::spinoff_prover]
pub proof fn lemma_join_components(st: Seq<PComp>)
    requires
        joinable(st),
    ensures
        components(join(st)) == st,
    decreases st.len(),
{
    if st.len() == 0 {
        assert(components(join(st)) =~= Seq::<PComp>::empty());
    } else if st.len() == 1 {
        let c = st[0];
        if c is Root {
            let s = join(st);
            assert(s =~= seq!['/']);
            lemma_scan_flat(s, 1, Seq::empty());
            assert(components(s) =~= seq![PComp::Root]);
        } else {
            lemma_seg_comp(c);
            let s = comp_str(c);
            assert(join(st.drop_last()) =~= Seq::<char>::empty());
            assert(join(st) =~= s);
            lemma_scan_flat(s, 0, Seq::empty());
            assert(Seq::<char>::empty() + s.subrange(0, s.len() as int) =~= s);
            assert(s[0] != '/');
            if leading_dot(s) {
                if s.len() == 1 {
                    assert(s =~= dot());
                }
                assert(false);
            }
            assert(components(s) =~= st);
        }
    } else {
        let st2 = st.drop_last();
        let c = st.last();
        assert(joinable(st2)) by {
            assert forall|i: int| 0 <= i < st2.len() implies #[trigger] st2[i] == st[i] by {}
        }
        lemma_join_components(st2);
        lemma_join_shape(st2);
        lemma_seg_comp(c);
        let a = join(st2);
        let n = comp_str(c);
        if a.last() == '/' {
            assert(st2 == seq![PComp::Root]);
            assert(a =~= seq!['/']);
            let s = a + n;
            assert(join(st) =~= s);
            assert forall|k: int| 1 <= k < s.len() implies #[trigger] s[k] != '/' by {
                assert(s[k] == n[k - 1]);
            }
            lemma_scan_flat(s, 1, Seq::empty());
            assert(Seq::<char>::empty() + s.subrange(1, s.len() as int) =~= n);
            assert(components(s) =~= seq![PComp::Root] + seq![c]);
            assert(st =~= seq![PComp::Root] + seq![c]);
        } else {
            assert(n[0] != '/');
            assert(join(st) =~= a + seq!['/'] + n);
            lemma_components_append(a, n);
            assert(st =~= st2 + seq![c]);
        }
    }
}

/// Every component read by `scan` from a segment free of separators is a `..` or a valid name.
proof fn lemma_scan_form(s: Seq<char>, i: int, cur: Seq<char>)
    requires
        forall|k: int| 0 <= k < cur.len() ==> #[trigger] cur[k] != '/',
    ensures
        forall|j: int| 0 <= j < scan(s, i, cur).len() ==> (#[trigger] scan(s, i, cur)[j] is Parent || (
            scan(s, i, cur)[j] is Normal && valid_name(scan(s, i, cur)[j]->Normal_0))),
    decreases s.len() - i,
{
    if i >= s.len() {
    } else if s[i] == '/' {
        lemma_scan_form(s, i + 1, Seq::empty());
        let a = seg_comps(cur);
        let b = scan(s, i + 1, Seq::empty());
        assert forall|j: int| 0 <= j < (a + b).len() implies (#[trigger] (a + b)[j] is Parent || (
            (a + b)[j] is Normal && valid_name((a + b)[j]->Normal_0))) by {
            if j >= a.len() {
                assert((a + b)[j] == b[j - a.len()]);
            }
        }
    } else {
        let c2 = cur.push(s[i]);
        assert forall|k: int| 0 <= k < c2.len() implies #[trigger] c2[k] != '/' by {
            if k < cur.len() {
                assert(c2[k] == cur[k]);
            }
        }
        lemma_scan_form(s, i + 1, c2);
    }
}

/// The components of any path are in parsed form.
pub proof fn lemma_components_form(s: Seq<char>)
    ensures
        parsed_form(components(s)),
{
    lemma_scan_form(s, 0, Seq::empty());
    let t = scan(s, 0, Seq::empty());
    let cs = components(s);
    if s.len() > 0 && s[0] == '/' {
        assert forall|i: int| 0 < i < cs.len() implies !(#[trigger] cs[i] is Root) && !(cs[i] is Cur) by {
            assert(cs[i] == t[i - 1]);
        }
        assert forall|i: int| 0 <= i < cs.len() && #[trigger] cs[i] is Normal implies valid_name(
            cs[i]->Normal_0,
        ) by {
            assert(cs[i] == t[i - 1]);
        }
    } else if leading_dot(s) {
        assert forall|i: int| 0 < i < cs.len() implies !(#[trigger] cs[i] is Root) && !(cs[i] is Cur) by {
            assert(cs[i] == t[i - 1]);
        }
        assert forall|i: int| 0 <= i < cs.len() && #[trigger] cs[i] is Normal implies valid_name(
            cs[i]->Normal_0,
        ) by {
            assert(cs[i] == t[i - 1]);
        }
    }
}

/// Cleaning components in parsed form leaves them in clean form.
#[verifier::spinoff_prover]
pub proof fn lemma_clean_comps_form(cs: Seq<PComp>)
    requires
        parsed_form(cs),
    ensures
        clean_form(clean_comps(cs)),
        cs.len() > 0 && clean_comps(cs).len() > 0 && clean_comps(cs)[0] is Root ==> cs[0] is Root,
    decreases cs.len(),
{
    if cs.len() > 0 {
        let cs2 = cs.drop_last();
        assert(parsed_form(cs2)) by {
            assert forall|i: int| 0 < i < cs2.len() implies !(#[trigger] cs2[i] is Root) && !(
            cs2[i] is Cur) by {
                assert(cs2[i] == cs[i]);
            }
            assert forall|i: int| 0 <= i < cs2.len() && #[trigger] cs2[i] is Normal implies valid_name(
                cs2[i]->Normal_0,
            ) by {
                assert(cs2[i] == cs[i]);
            }
        }
        lemma_clean_comps_form(cs2);
        let st = clean_comps(cs2);
        let c = cs.last();
        if cs.len() > 1 {
            assert(!(c is Root) && !(c is Cur));
        }
        if cs2.len() == 0 {
            assert(st =~= Seq::<PComp>::empty());
        }
        if c is Normal {
            assert(valid_name(c->Normal_0));
        }
        let st2 = clean_step(st, c);
        if c is Parent && st.len() > 0 && !(st.last() is Parent) {
            if st.last() is Normal {
                let d = st.drop_last();
                assert forall|i: int, j: int|
                    0 <= i < j < d.len() && #[trigger] d[j] is Parent implies #[trigger] d[i] is Parent by {
                    assert(st[j] is Parent);
                    assert(st[i] == d[i]);
                }
                assert(clean_form(d));
            }
        } else if c is Cur && st.len() == 0 {
        } else {
            let p = st.push(c);
            assert forall|i: int, j: int|
                0 <= i < j < p.len() && #[trigger] p[j] is Parent implies #[trigger] p[i] is Parent by {
                if j == st.len() {
                    // st is empty or ends in `..`, so all of it is `..`
                    assert(st.last() is Parent);
                    assert(st[st.len() - 1] is Parent);
                    if i < st.len() - 1 {
                        assert(st[i] is Parent);
                    }
                } else {
                    assert(p[j] == st[j]);
                    assert(p[i] == st[i]);
                }
            }
            assert forall|i: int| 0 < i < p.len() implies !(#[trigger] p[i] is Root) by {
                if i < st.len() {
                    assert(p[i] == st[i]);
                }
            }
            assert forall|i: int| 0 <= i < p.len() implies !(#[trigger] p[i] is Cur) by {
                if i < st.len() {
                    assert(p[i] == st[i]);
                }
            }
            assert forall|i: int| 0 <= i < p.len() && #[trigger] p[i] is Normal implies valid_name(
                p[i]->Normal_0,
            ) by {
                if i < st.len() {
                    assert(p[i] == st[i]);
                }
            }
        }
    }
}

/// Cleaning components in clean form leaves them as they are.
pub proof fn lemma_clean_fixed(st: Seq<PComp>)
    requires
        clean_form(st),
    ensures
        clean_comps(st) == st,
    decreases st.len(),
{
    if st.len() > 0 {
        let st2 = st.drop_last();
        assert(clean_form(st2)) by {
            assert forall|i: int, j: int|
                0 <= i < j < st2.len() && #[trigger] st2[j] is Parent implies #[trigger] st2[i] is Parent by {
                assert(st[j] is Parent);
                assert(st[i] == st2[i]);
            }
        }
        lemma_clean_fixed(st2);
        let c = st.last();
        assert(!(c is Cur));
        if c is Parent && st2.len() > 0 {
            assert(st[st2.len() - 1] is Parent);
        }
        assert(st2.push(c) =~= st);
    }
}

/// Cleaning a clean path gives it back: `clean(clean(p)) == clean(p)`.
#[verifier::spinoff_prover]
pub proof fn lemma_clean_idempotent(s: Seq<char>)
    ensures
        clean_spec(clean_spec(s)) == clean_spec(s),
{
    lemma_components_form(s);
    let st = clean_comps(components(s));
    lemma_clean_comps_form(components(s));
    if st.len() == 0 {
        let d = dot();
        assert(leading_dot(d));
        lemma_scan_flat(d, 0, Seq::empty());
        assert(Seq::<char>::empty() + d.subrange(0, 1) =~= d);
        assert(components(d) =~= seq![PComp::Cur]);
        assert(clean_comps(seq![PComp::Cur]) =~= Seq::<PComp>::empty()) by {
            let one = seq![PComp::Cur];
            assert(one.drop_last() =~= Seq::<PComp>::empty());
            assert(clean_comps(one.drop_last()) =~= Seq::<PComp>::empty());
            assert(one.last() is Cur);
        }
    } else {
        lemma_join_components(st);
        lemma_clean_fixed(st);
    }
}

/// The components of a clean path other than `.` are in clean form, and `join` writes the path
/// back from them.
pub proof fn lemma_clean_path(p: Seq<char>)
    requires
        clean_spec(p) == p,
        p != dot(),
    ensures
        clean_form(components(p)),
        components(p).len() > 0,
        join(components(p)) == p,
{
    lemma_components_form(p);
    lemma_clean_comps_form(components(p));
    let st = clean_comps(components(p));
    if st.len() == 0 {
        assert(clean_spec(p) == dot());
    }
    lemma_join_components(st);
    assert(components(p) == st);
}

/// Mashing nothing onto a clean absolute path gives the path.
pub proof fn lemma_mash_empty(d: Seq<char>)
    requires
        clean_spec(d) == d,
        d.len() > 0,
        d[0] == '/',
    ensures
        mash_spec(d, Seq::empty()) == d,
{
    assert(d != dot());
    lemma_clean_path(d);
    let e = Seq::<char>::empty();
    assert(!seq!['/'].is_prefix_of(e));
    assert(trim_prefix_spec(e, seq!['/']) == e);
    lemma_join_shape(components(d));
    if d.last() == '/' {
        assert(push_str(d, e) =~= d);
    } else {
        assert(push_str(d, e) =~= d + seq!['/'] + e);
        lemma_components_append(d, e);
        assert(seg_comps(e) =~= Seq::<PComp>::empty());
        assert(components(d) + seg_comps(e) =~= components(d));
    }
}

/// Reading past a prefix is reading what follows it.
proof fn lemma_scan_shift(x: Seq<char>, y: Seq<char>, j: int, cur: Seq<char>)
    requires
        0 <= j <= y.len(),
    ensures
        scan(x + y, x.len() + j, cur) == scan(y, j, cur),
    decreases y.len() - j,
{
    if j < y.len() {
        assert((x + y)[x.len() + j] == y[j]);
        if y[j] == '/' {
            lemma_scan_shift(x, y, j + 1, Seq::empty());
        } else {
            lemma_scan_shift(x, y, j + 1, cur.push(y[j]));
        }
    }
}

/// Reading `a/n` reads `a` and then `n`.
proof fn lemma_scan_append_any(a: Seq<char>, n: Seq<char>, i: int, cur: Seq<char>)
    requires
        0 <= i <= a.len(),
    ensures
        scan(a + seq!['/'] + n, i, cur) == scan(a, i, cur) + scan(n, 0, Seq::empty()),
    decreases a.len() - i,
{
    let s = a + seq!['/'] + n;
    if i == a.len() {
        assert(s[i] == '/');
        assert(s =~= (a + seq!['/']) + n);
        lemma_scan_shift(a + seq!['/'], n, 0, Seq::empty());
    } else {
        assert(s[i] == a[i]);
        if a[i] == '/' {
            lemma_scan_append_any(a, n, i + 1, Seq::empty());
            assert(seg_comps(cur) + (scan(a, i + 1, Seq::empty()) + scan(n, 0, Seq::empty()))
                =~= seg_comps(cur) + scan(a, i + 1, Seq::empty()) + scan(n, 0, Seq::empty()));
        } else {
            lemma_scan_append_any(a, n, i + 1, cur.push(a[i]));
        }
    }
}

/// The components of `a/n`, with `a` non-empty, are those of `a` and then what `n` reads as.
proof fn lemma_components_append_any(a: Seq<char>, n: Seq<char>)
    requires
        a.len() > 0,
    ensures
        components(a + seq!['/'] + n) == components(a) + scan(n, 0, Seq::empty()),
{
    let s = a + seq!['/'] + n;
    let t = scan(n, 0, Seq::empty());
    lemma_scan_append_any(a, n, 0, Seq::empty());
    assert(s[0] == a[0]);
    if a.len() >= 2 {
        assert(s[1] == a[1]);
    } else {
        assert(s[1] == '/');
    }
    assert(leading_dot(s) == leading_dot(a));
    if a[0] == '/' {
        assert(seq![PComp::Root] + (scan(a, 0, Seq::empty()) + t) =~= seq![PComp::Root] + scan(
            a,
            0,
            Seq::empty(),
        ) + t);
    } else if leading_dot(a) {
        assert(seq![PComp::Cur] + (scan(a, 0, Seq::empty()) + t) =~= seq![PComp::Cur] + scan(
            a,
            0,
            Seq::empty(),
        ) + t);
    }
}

/// What a joinable sequence that does not begin with the root writes reads back through `scan`.
proof fn lemma_scan_join(r: Seq<PComp>)
    requires
        joinable(r),
        r.len() > 0,
        !(r[0] is Root),
    ensures
        scan(join(r), 0, Seq::empty()) == r,
        join(r).len() > 0,
        join(r)[0] != '/',
{
    lemma_join_components(r);
    lemma_join_shape(r);
    let t = join(r);
    if leading_dot(t) {
        assert(components(t)[0] is Cur);
        assert(false);
    }
}

/// Cleaning `..`s after the last names of a clean sequence drops as many names.
proof fn lemma_clean_parents(b: Seq<PComp>, j: nat)
    requires
        clean_form(b),
        j <= b.len(),
        forall|i: int| b.len() - j <= i < b.len() ==> #[trigger] b[i] is Normal,
    ensures
        clean_comps(b + Seq::new(j, |i: int| PComp::Parent)) == b.subrange(0, b.len() - j),
    decreases j,
{
    let ps = Seq::new(j, |i: int| PComp::Parent);
    if j == 0 {
        assert(b + ps =~= b);
        lemma_clean_fixed(b);
        assert(b.subrange(0, b.len() as int) =~= b);
    } else {
        let ps2 = Seq::new((j - 1) as nat, |i: int| PComp::Parent);
        lemma_clean_parents(b, (j - 1) as nat);
        assert((b + ps).drop_last() =~= b + ps2);
        assert((b + ps).last() is Parent);
        let st = b.subrange(0, b.len() - (j - 1));
        let l = st.len() - 1;
        assert(st[l] == b[l]);
        assert(b[l] is Normal);
        assert(st.last() is Normal);
        assert(st.drop_last() =~= b.subrange(0, b.len() - j));
    }
}

/// Cleaning names added after any components adds them after what cleaning keeps.
proof fn lemma_clean_names(x: Seq<PComp>, n: Seq<PComp>)
    requires
        forall|i: int| 0 <= i < n.len() ==> #[trigger] n[i] is Normal,
    ensures
        clean_comps(x + n) == clean_comps(x) + n,
    decreases n.len(),
{
    if n.len() == 0 {
        assert(x + n =~= x);
        assert(clean_comps(x) + n =~= clean_comps(x));
    } else {
        let n2 = n.drop_last();
        lemma_clean_names(x, n2);
        assert((x + n).drop_last() =~= x + n2);
        assert((x + n).last() == n.last());
        assert(n.last() is Normal);
        assert((clean_comps(x) + n2).push(n.last()) =~= clean_comps(x) + n);
    }
}

/// Two sequences agree below the length of their common prefix.
proof fn lemma_common_len(a: Seq<PComp>, b: Seq<PComp>)
    ensures
        common_len(a, b) <= a.len(),
        common_len(a, b) <= b.len(),
        forall|i: int| 0 <= i < common_len(a, b) ==> #[trigger] a[i] == b[i],
        common_len(a, b) < a.len() && common_len(a, b) < b.len() ==> a[common_len(a, b) as int]
            != b[common_len(a, b) as int],
    decreases a.len(),
{
    if a.len() > 0 && b.len() > 0 && a[0] == b[0] {
        lemma_common_len(a.drop_first(), b.drop_first());
        let k = common_len(a.drop_first(), b.drop_first());
        assert forall|i: int| 0 <= i < common_len(a, b) implies #[trigger] a[i] == b[i] by {
            if i > 0 {
                assert(a[i] == a.drop_first()[i - 1]);
                assert(b[i] == b.drop_first()[i - 1]);
            }
        }
        if k + 1 < a.len() && k + 1 < b.len() {
            assert(a[k + 1int] == a.drop_first()[k as int]);
            assert(b[k + 1int] == b.drop_first()[k as int]);
        }
    }
}

/// Past the root, the components of an absolute clean path are valid names.
proof fn lemma_abs_names(b: Seq<PComp>)
    requires
        clean_form(b),
        b.len() > 0,
        b[0] is Root,
    ensures
        forall|i: int| 1 <= i < b.len() ==> #[trigger] b[i] is Normal && valid_name(b[i]->Normal_0),
{
    assert forall|i: int| 1 <= i < b.len() implies #[trigger] b[i] is Normal && valid_name(
        b[i]->Normal_0,
    ) by {
        if b[i] is Parent {
            assert(b[0] is Parent);
        }
        assert(!(b[i] is Cur) && !(b[i] is Root));
    }
}

/// Mashing onto a clean path, other than `.`, what a joinable sequence not beginning with the
/// root writes gives what the path's components followed by the sequence write.
#[verifier::spinoff_prover]
pub proof fn lemma_mash_join(base: Seq<char>, r: Seq<PComp>)
    requires
        clean_spec(base) == base,
        base != dot(),
        joinable(r),
        r.len() > 0,
        !(r[0] is Root),
    ensures
        mash_spec(base, join(r)) == join(components(base) + r),
{
    lemma_clean_path(base);
    let bc = components(base);
    lemma_scan_join(r);
    let rel = join(r);
    if seq!['/'].is_prefix_of(rel) {
        assert(seq!['/'][0] == rel[0]);
    }
    assert(trim_prefix_spec(rel, seq!['/']) == rel);
    let br = bc + r;
    lemma_join_shape(bc);
    if base.last() == '/' {
        assert(bc =~= seq![PComp::Root]);
        assert(base =~= seq!['/']);
        assert(push_str(base, rel) =~= base + rel);
        let sx = base + rel;
        assert(sx[0] == '/');
        assert(sx =~= seq!['/'] + rel);
        lemma_scan_shift(seq!['/'], rel, 0, Seq::empty());
        assert(scan(sx, 0, Seq::empty()) == seg_comps(Seq::empty()) + scan(sx, 1, Seq::empty()));
        assert(components(sx) =~= br);
    } else {
        assert(push_str(base, rel) =~= base + seq!['/'] + rel);
        lemma_components_append_any(base, rel);
    }
}

/// What an absolute clean sequence of components writes is an absolute clean path.
pub proof fn lemma_join_clean_abs(st: Seq<PComp>)
    requires
        clean_form(st),
        st.len() > 0,
        st[0] is Root,
    ensures
        clean_spec(join(st)) == join(st),
        join(st).len() > 0,
        join(st)[0] == '/',
        components(join(st)) == st,
{
    lemma_join_components(st);
    lemma_join_shape(st);
    lemma_clean_fixed(st);
}

/// The parent of an absolute clean path other than the root is an absolute clean path.
pub proof fn lemma_dir_clean(p: Seq<char>)
    requires
        clean_spec(p) == p,
        p.len() > 0,
        p[0] == '/',
        dir_spec(p) is Some,
    ensures
        clean_spec(dir_spec(p)->Some_0) == dir_spec(p)->Some_0,
        dir_spec(p)->Some_0.len() > 0,
        dir_spec(p)->Some_0[0] == '/',
{
    assert(p != dot());
    lemma_clean_path(p);
    let pc = components(p);
    assert(pc[0] is Root);
    let d = pc.drop_last();
    assert(pc.len() >= 2);
    assert(clean_form(d)) by {
        assert forall|i: int, j: int|
            0 <= i < j < d.len() && #[trigger] d[j] is Parent implies #[trigger] d[i] is Parent by {
            assert(pc[j] is Parent);
            assert(pc[i] == d[i]);
        }
    }
    assert(d[0] is Root);
    lemma_join_clean_abs(d);
}

/// Every component of the path is a name: a relative path without `.` or `..`.
pub open spec fn names_only(p: Seq<char>) -> bool {
    forall|i: int| 0 <= i < components(p).len() ==> #[trigger] components(p)[i] is Normal
}

/// For two different clean paths, both absolute or both made of names only, `relative(path,
/// base)` is a non-empty relative path, and cleaning what mashing it onto `base` gives is `path`.
#[verifier::spinoff_prover]
pub proof fn lemma_relative_mash(path: Seq<char>, base: Seq<char>)
    requires
        clean_spec(path) == path,
        clean_spec(base) == base,
        path != dot(),
        base != dot(),
        path != base,
        (path.len() > 0 && path[0] == '/' && base.len() > 0 && base[0] == '/') || (names_only(path)
            && names_only(base)),
    ensures
        clean_spec(mash_spec(base, relative_spec(path, base))) == path,
        relative_spec(path, base).len() > 0,
        relative_spec(path, base)[0] != '/',
{
    lemma_clean_path(path);
    lemma_clean_path(base);
    let pc = components(path);
    let bc = components(base);
    let abs = path.len() > 0 && path[0] == '/' && base.len() > 0 && base[0] == '/';
    if abs {
        assert(pc[0] is Root);
        assert(bc[0] is Root);
        lemma_abs_names(pc);
        lemma_abs_names(bc);
    }
    if pc == bc {
        assert(path == base);
    }
    lemma_common_len(pc, bc);
    let k = common_len(pc, bc) as int;
    if abs {
        assert(k >= 1) by {
            assert(pc[0] == bc[0]);
        }
    }
    // past the common part, both are names
    assert forall|i: int| k <= i < pc.len() implies #[trigger] pc[i] is Normal && valid_name(
        pc[i]->Normal_0,
    ) by {}
    assert forall|i: int| k <= i < bc.len() implies #[trigger] bc[i] is Normal by {}
    let m = (bc.len() - k) as nat;
    let ps = Seq::new(m, |i: int| PComp::Parent);
    let tail = pc.subrange(k, pc.len() as int);
    let r = rel_comps(pc, bc);
    assert(r == ps + tail);
    assert(relative_spec(path, base) == join(r));
    if r.len() == 0 {
        assert(k == pc.len() && k == bc.len());
        assert(pc =~= bc);
    }
    assert forall|i: int| 0 <= i < tail.len() implies #[trigger] tail[i] is Normal && valid_name(
        tail[i]->Normal_0,
    ) by {
        assert(tail[i] == pc[k + i]);
    }
    assert(joinable(r)) by {
        assert forall|i: int| 0 <= i < r.len() implies !(#[trigger] r[i] is Cur) && !(r[i] is Root)
            && (r[i] is Normal ==> valid_name(r[i]->Normal_0)) by {
            if i >= ps.len() {
                assert(r[i] == tail[i - ps.len()]);
            }
        }
    }
    lemma_scan_join(r);
    lemma_mash_join(base, r);
    let br = bc + r;
    assert(joinable(br)) by {
        assert forall|i: int| 0 <= i < br.len() implies !(#[trigger] br[i] is Cur) && (i > 0 ==> !(
        br[i] is Root)) && (br[i] is Normal ==> valid_name(br[i]->Normal_0)) by {
            if i >= bc.len() {
                assert(br[i] == r[i - bc.len()]);
            } else {
                assert(br[i] == bc[i]);
            }
        }
    }
    lemma_join_components(br);
    assert(br =~= (bc + ps) + tail);
    lemma_clean_names(bc + ps, tail);
    lemma_clean_parents(bc, m);
    assert(bc.subrange(0, bc.len() - m) =~= pc.subrange(0, k));
    assert(pc.subrange(0, k) + tail =~= pc);
    assert(clean_comps(br) == pc);
}

/// An absolute clean path other than the root is its base name mashed onto its directory.
pub proof fn lemma_dir_base(p: Seq<char>)
    requires
        clean_spec(p) == p,
        p.len() > 0,
        p[0] == '/',
        p != seq!['/'],
    ensures
        dir_spec(p) is Some,
        base_spec(p) is Some,
        mash_spec(dir_spec(p)->Some_0, base_spec(p)->Some_0) == p,
{
    assert(p != dot());
    lemma_clean_path(p);
    let pc = components(p);
    assert(pc[0] is Root);
    if pc.len() == 1 {
        assert(pc =~= seq![PComp::Root]);
        assert(join(pc) =~= seq!['/']);
    }
    let dc = pc.drop_last();
    let last = pc.last();
    lemma_abs_names(pc);
    assert(last is Normal);
    assert(clean_form(dc)) by {
        assert forall|i: int, j: int|
            0 <= i < j < dc.len() && #[trigger] dc[j] is Parent implies #[trigger] dc[i] is Parent by {
            assert(pc[j] is Parent);
        }
    }
    assert(dc[0] is Root);
    lemma_join_clean_abs(dc);
    let d = join(dc);
    assert(dir_spec(p) == Some(d));
    let name = comp_str(last);
    assert(base_spec(p) == Some(name));
    let r = seq![last];
    assert(joinable(r));
    assert(join(r) =~= name) by {
        assert(r.drop_last() =~= Seq::<PComp>::empty());
        assert(join(r.drop_last()) =~= Seq::<char>::empty());
        assert(r.last() == last);
        assert(valid_name(name));
        assert(name[0] != '/');
        assert(push_str(Seq::empty(), name) =~= name);
    }
    lemma_mash_join(d, r);
    assert(dc + r =~= pc);
}

/// Cleaning keeps a leading root.
proof fn lemma_clean_keeps_root(cs: Seq<PComp>)
    requires
        cs.len() > 0,
        cs[0] is Root,
    ensures
        clean_comps(cs).len() > 0,
        clean_comps(cs)[0] is Root,
    decreases cs.len(),
{
    let c = cs.last();
    if cs.len() == 1 {
        assert(cs.drop_last() =~= Seq::<PComp>::empty());
        assert(clean_comps(cs.drop_last()) =~= Seq::<PComp>::empty());
    } else {
        lemma_clean_keeps_root(cs.drop_last());
        let st = clean_comps(cs.drop_last());
        if c is Parent && st.len() > 0 && !(st.last() is Parent) && st.last() is Normal {
            assert(st.len() >= 2);
            assert(st.drop_last()[0] == st[0]);
        } else if !(c is Cur && st.len() == 0) {
            assert(st.push(c)[0] == st[0]);
        }
    }
}

/// The result of `clean` is never empty (`.` when nothing is left), is absolute exactly when the
/// path is, and, unless it is `.`, reads back as components in clean form: no `.`, and `..` only
/// as a leading run of a relative path.
pub proof fn lemma_clean_shape(s: Seq<char>)
    ensures
        clean_spec(s).len() > 0,
        (s.len() > 0 && s[0] == '/') == (clean_spec(s)[0] == '/'),
        clean_spec(s) == dot() || clean_form(components(clean_spec(s))),
{
    let cs = components(s);
    lemma_components_form(s);
    lemma_clean_comps_form(cs);
    let st = clean_comps(cs);
    if s.len() > 0 && s[0] == '/' {
        assert(cs[0] is Root);
        lemma_clean_keeps_root(cs);
    } else if cs.len() > 0 {
        lemma_scan_form(s, 0, Seq::empty());
        if leading_dot(s) {
            assert(cs[0] is Cur);
        } else {
            assert(cs[0] == scan(s, 0, Seq::empty())[0]);
        }
        assert(!(cs[0] is Root));
    }
    if st.len() > 0 {
        lemma_join_shape(st);
        lemma_join_components(st);
    }
}

/// The index of the first `:` at or after `i`, else the length.
pub open spec fn first_colon(s: Seq<char>, i: int) -> int
    decreases s.len() - i,
{
    if i >= s.len() {
        s.len() as int
    } else if s[i] == ':' {
        i
    } else {
        first_colon(s, i + 1)
    }
}

/// The pieces of `s` cut at every `:`, empty ones included: one more than there are colons.
pub open spec fn split_colon(s: Seq<char>) -> Seq<Seq<char>>
    decreases s.len(),
{
    let k = first_colon(s, 0);
    if k < 0 || k >= s.len() {
        seq![s]
    } else {
        seq![s.subrange(0, k)] + split_colon(s.subrange(k + 1, s.len() as int))
    }
}

/// The non-empty pieces, in order.
pub open spec fn non_empty(ps: Seq<Seq<char>>) -> Seq<Seq<char>>
    decreases ps.len(),
{
    if ps.len() == 0 {
        ps
    } else if ps[0].len() == 0 {
        non_empty(ps.drop_first())
    } else {
        seq![ps[0]] + non_empty(ps.drop_first())
    }
}

proof fn lemma_first_colon(t: Seq<char>, n: int, j: int)
    requires
        0 <= j <= n <= t.len(),
        forall|k: int| 0 <= k < n ==> #[trigger] t[k] != ':',
        n == t.len() || t[n] == ':',
    ensures
        first_colon(t, j) == n,
    decreases n - j,
{
    if j < n {
        lemma_first_colon(t, n, j + 1);
    }
}

proof fn lemma_colon_scan_split(s: Seq<char>, i: int, cur: Seq<char>)
    requires
        0 <= i <= s.len(),
        forall|k: int| 0 <= k < cur.len() ==> #[trigger] cur[k] != ':',
    ensures
        colon_scan(s, i, cur) == non_empty(split_colon(cur + s.subrange(i, s.len() as int))),
    decreases s.len() - i,
{
    let t = cur + s.subrange(i, s.len() as int);
    let one = seq![cur];
    if i >= s.len() {
        assert(t =~= cur);
        lemma_first_colon(t, cur.len() as int, 0);
        assert(split_colon(t) == one);
        assert(one.drop_first() =~= Seq::<Seq<char>>::empty());
        assert(non_empty(Seq::<Seq<char>>::empty()) =~= Seq::<Seq<char>>::empty());
        assert(one[0] == cur);
        if cur.len() > 0 {
            assert(non_empty(one) == seq![cur] + non_empty(one.drop_first()));
            assert(seq![cur] + Seq::<Seq<char>>::empty() =~= one);
        }
    } else if s[i] == ':' {
        lemma_colon_scan_split(s, i + 1, Seq::empty());
        assert(t[cur.len() as int] == ':');
        lemma_first_colon(t, cur.len() as int, 0);
        assert(t.subrange(0, cur.len() as int) =~= cur);
        let rest = s.subrange(i + 1, s.len() as int);
        assert(t.subrange(cur.len() + 1int, t.len() as int) =~= rest);
        assert(Seq::<char>::empty() + rest =~= rest);
        let sp = split_colon(t);
        assert(sp == one + split_colon(rest));
        assert(sp.drop_first() =~= split_colon(rest));
        assert(sp[0] == cur);
        if cur.len() == 0 {
            assert(non_empty(sp) == non_empty(sp.drop_first()));
            assert(Seq::<Seq<char>>::empty() + non_empty(split_colon(rest)) =~= non_empty(
                split_colon(rest),
            ));
        } else {
            assert(non_empty(sp) == seq![cur] + non_empty(sp.drop_first()));
        }
    } else {
        let c2 = cur.push(s[i]);
        assert forall|k: int| 0 <= k < c2.len() implies #[trigger] c2[k] != ':' by {
            if k < cur.len() {
                assert(c2[k] == cur[k]);
            }
        }
        lemma_colon_scan_split(s, i + 1, c2);
        assert(c2 + s.subrange(i + 1, s.len() as int) =~= t);
    }
}

/// `parse_paths` cuts the value at every `:` and keeps the non-empty pieces, in order.
pub proof fn lemma_parse_paths_split(value: Seq<char>)
    ensures
        colon_scan(value, 0, Seq::empty()) == non_empty(split_colon(value)),
{
    lemma_colon_scan_split(value, 0, Seq::empty());
    assert(Seq::<char>::empty() + value.subrange(0, value.len() as int) =~= value);
}

} // verus!
