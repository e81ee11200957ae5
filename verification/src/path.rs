//! Lexical path handling: components, cleaning, joining and trimming of Unix style paths.
//!
//! Paths are strings. A path's meaning is given by its sequence of components, read the way a
//! Unix path is read: a leading `/` is the root, `.` segments are dropped except a leading one of a
//! relative path, empty segments (repeated or trailing separators) are dropped.
use vstd::prelude::*;
use crate::errors::{IterError, PathError, RvError};
use crate::strs::{chars_eq, chars_of, extend_chars, string_of};

verus! {

/// A path component in the mathematical model.
pub enum PComp {
    Root,
    Cur,
    Parent,
    Normal(Seq<char>),
}

/// A path component.
#[derive(Debug)]
pub enum Comp {
    Root,
    Cur,
    Parent,
    Normal(Vec<char>),
}

impl View for Comp {
    type V = PComp;

    open spec fn view(&self) -> PComp {
        match self {
            Comp::Root => PComp::Root,
            Comp::Cur => PComp::Cur,
            Comp::Parent => PComp::Parent,
            Comp::Normal(n) => PComp::Normal(n@),
        }
    }
}

/// The model of a sequence of components.
pub open spec fn cview(v: Seq<Comp>) -> Seq<PComp> {
    v.map_values(|c: Comp| c@)
}

pub open spec fn dot() -> Seq<char> {
    seq!['.']
}

pub open spec fn dotdot() -> Seq<char> {
    seq!['.', '.']
}

/// The components that one segment (the text between separators) contributes.
pub open spec fn seg_comps(seg: Seq<char>) -> Seq<PComp> {
    if seg.len() == 0 || seg == dot() {
        Seq::empty()
    } else if seg == dotdot() {
        seq![PComp::Parent]
    } else {
        seq![PComp::Normal(seg)]
    }
}

/// The components of `s[i..]` given that `cur` holds the segment read so far.
pub open spec fn scan(s: Seq<char>, i: int, cur: Seq<char>) -> Seq<PComp>
    decreases s.len() - i,
{
    if i >= s.len() {
        seg_comps(cur)
    } else if s[i] == '/' {
        seg_comps(cur) + scan(s, i + 1, Seq::empty())
    } else {
        scan(s, i + 1, cur.push(s[i]))
    }
}

/// True when a relative path begins with the segment `.`
pub open spec fn leading_dot(s: Seq<char>) -> bool {
    s.len() > 0 && s[0] == '.' && (s.len() == 1 || s[1] == '/')
}

/// The components of a path.
pub open spec fn components(s: Seq<char>) -> Seq<PComp> {
    if s.len() > 0 && s[0] == '/' {
        seq![PComp::Root] + scan(s, 0, Seq::empty())
    } else if leading_dot(s) {
        seq![PComp::Cur] + scan(s, 0, Seq::empty())
    } else {
        scan(s, 0, Seq::empty())
    }
}

/// The text of a single component.
pub open spec fn comp_str(c: PComp) -> Seq<char> {
    match c {
        PComp::Root => seq!['/'],
        PComp::Cur => dot(),
        PComp::Parent => dotdot(),
        PComp::Normal(n) => n,
    }
}

/// Pushing `seg` onto the path `acc`: an absolute `seg` replaces `acc`, otherwise a separator is
/// put between them unless `acc` is empty or already ends in one.
pub open spec fn push_str(acc: Seq<char>, seg: Seq<char>) -> Seq<char> {
    if seg.len() > 0 && seg[0] == '/' {
        seg
    } else if acc.len() > 0 && acc.last() != '/' {
        acc + seq!['/'] + seg
    } else {
        acc + seg
    }
}

/// The path built by pushing the given components in order.
pub open spec fn join(cs: Seq<PComp>) -> Seq<char>
    decreases cs.len(),
{
    if cs.len() == 0 {
        Seq::empty()
    } else {
        push_str(join(cs.drop_last()), comp_str(cs.last()))
    }
}

/// The file name of a path: its last component when that is a normal one.
pub open spec fn file_name(s: Seq<char>) -> Option<Seq<char>> {
    let cs = components(s);
    if cs.len() > 0 && cs.last() is Normal {
        Some(cs.last()->Normal_0)
    } else {
        None
    }
}

/// The index of the last `.` in `s[..n]`, or -1.
pub open spec fn last_dot(s: Seq<char>, n: int) -> int
    decreases n,
{
    if n <= 0 {
        -1
    } else if s[n - 1] == '.' {
        n - 1
    } else {
        last_dot(s, n - 1)
    }
}

/// The extension of a file name: the text after its last `.`, unless that `.` is its first char.
pub open spec fn name_ext(name: Seq<char>) -> Option<Seq<char>> {
    let i = last_dot(name, name.len() as int);
    if i <= 0 {
        None
    } else {
        Some(name.subrange(i + 1, name.len() as int))
    }
}

/// The extension of a path.
pub open spec fn path_ext(s: Seq<char>) -> Option<Seq<char>> {
    match file_name(s) {
        Some(n) => name_ext(n),
        None => None,
    }
}

/// `s` with the suffix `suf` removed when it has it.
pub open spec fn trim_suffix_spec(s: Seq<char>, suf: Seq<char>) -> Seq<char> {
    if suf.is_suffix_of(s) {
        s.subrange(0, s.len() - suf.len())
    } else {
        s
    }
}

/// `s` with the prefix `pre` removed when it has it.
pub open spec fn trim_prefix_spec(s: Seq<char>, pre: Seq<char>) -> Seq<char> {
    if pre.is_prefix_of(s) {
        s.subrange(pre.len() as int, s.len() as int)
    } else {
        s
    }
}

/// `s` without its extension.
pub open spec fn trim_ext_spec(s: Seq<char>) -> Seq<char> {
    match path_ext(s) {
        Some(e) => trim_suffix_spec(s, dot() + e),
        None => s,
    }
}

/// The result of `mash(dir, base)`.
pub open spec fn mash_spec(dir: Seq<char>, base: Seq<char>) -> Seq<char> {
    join(components(push_str(dir, trim_prefix_spec(base, seq!['/']))))
}

/// One step of cleaning: the stack of kept components and the next component.
pub open spec fn clean_step(st: Seq<PComp>, c: PComp) -> Seq<PComp> {
    if c is Cur && st.len() == 0 {
        st
    } else if c is Parent && st.len() > 0 && !(st.last() is Parent) {
        if st.last() is Normal {
            st.drop_last()
        } else {
            st
        }
    } else {
        st.push(c)
    }
}

/// The components kept by cleaning the given components.
pub open spec fn clean_comps(cs: Seq<PComp>) -> Seq<PComp>
    decreases cs.len(),
{
    if cs.len() == 0 {
        Seq::empty()
    } else {
        clean_step(clean_comps(cs.drop_last()), cs.last())
    }
}

/// The result of `clean(s)`.
pub open spec fn clean_spec(s: Seq<char>) -> Seq<char> {
    let st = clean_comps(components(s));
    if st.len() == 0 {
        dot()
    } else {
        join(st)
    }
}

/// The length of the longest common prefix of `a` and `b`.
pub open spec fn common_len(a: Seq<PComp>, b: Seq<PComp>) -> nat
    decreases a.len(),
{
    if a.len() == 0 || b.len() == 0 || a[0] != b[0] {
        0
    } else {
        1 + common_len(a.drop_first(), b.drop_first())
    }
}

/// The components leading from `base` to `path`: one `..` per component of `base` past the common
/// prefix, then the rest of `path`.
pub open spec fn rel_comps(path: Seq<PComp>, base: Seq<PComp>) -> Seq<PComp> {
    let k = common_len(path, base) as int;
    Seq::new((base.len() - k) as nat, |i: int| PComp::Parent) + path.subrange(k, path.len() as int)
}

/// The result of `relative(path, base)`.
pub open spec fn relative_spec(path: Seq<char>, base: Seq<char>) -> Seq<char> {
    if components(path) == components(base) {
        path
    } else {
        join(rel_comps(components(path), components(base)))
    }
}

/// The index of the first `//` in `s` at or after `i`, or -1.
pub open spec fn find_dslash(s: Seq<char>, i: int) -> int
    decreases s.len() - i,
{
    if i < 0 || i + 1 >= s.len() {
        -1
    } else if s[i] == '/' && s[i + 1] == '/' {
        i
    } else {
        find_dslash(s, i + 1)
    }
}

/// ASCII lower casing of one character.
pub open spec fn lower(c: char) -> char {
    if 'A' <= c && c <= 'Z' {
        ((c as u32) + 32) as char
    } else {
        c
    }
}

/// ASCII lower casing of a sequence.
pub open spec fn lower_seq(s: Seq<char>) -> Seq<char> {
    s.map_values(|c: char| lower(c))
}

/// True when `p`, ignoring case, is one of the protocol prefixes `file://`, `ftp://`,
/// `http://`, `https://`.
pub open spec fn is_protocol(p: Seq<char>) -> bool {
    let l = lower_seq(p);
    l == seq!['f', 'i', 'l', 'e', ':', '/', '/'] || l == seq!['f', 't', 'p', ':', '/', '/']
        || l == seq!['h', 't', 't', 'p', ':', '/', '/'] || l == seq![
        'h',
        't',
        't',
        'p',
        's',
        ':',
        '/',
        '/',
    ]
}

/// The result of `trim_protocol(s)`.
pub open spec fn trim_protocol_spec(s: Seq<char>) -> Seq<char> {
    let i = find_dslash(s, 0);
    if i >= 0 && is_protocol(s.subrange(0, i + 2)) {
        s.subrange(i + 2, s.len() as int)
    } else {
        s
    }
}

/// The segments of `s[i..]` separated by `:`, given the segment `cur` read so far; empty segments
/// are dropped.
pub open spec fn colon_scan(s: Seq<char>, i: int, cur: Seq<char>) -> Seq<Seq<char>>
    decreases s.len() - i,
{
    if i >= s.len() {
        if cur.len() == 0 {
            Seq::empty()
        } else {
            seq![cur]
        }
    } else if s[i] == ':' {
        (if cur.len() == 0 {
            Seq::<Seq<char>>::empty()
        } else {
            seq![cur]
        }) + colon_scan(s, i + 1, Seq::empty())
    } else {
        colon_scan(s, i + 1, cur.push(s[i]))
    }
}

/// The parent of a path: all of its components but the last, when there is a last one that is
/// not the root.
pub open spec fn dir_spec(s: Seq<char>) -> Option<Seq<char>> {
    let cs = components(s);
    if cs.len() == 0 || cs.last() is Root {
        None
    } else {
        Some(join(cs.drop_last()))
    }
}

/// All components but the first (none when there are none).
pub open spec fn tail(cs: Seq<PComp>) -> Seq<PComp> {
    if cs.len() == 0 {
        cs
    } else {
        cs.drop_first()
    }
}

/// All components but the last (none when there are none).
pub open spec fn init(cs: Seq<PComp>) -> Seq<PComp> {
    if cs.len() == 0 {
        cs
    } else {
        cs.drop_last()
    }
}

// ------------------------------------------------------------------------------------------------
// Executable helpers
// ------------------------------------------------------------------------------------------------

/// The components contributed by the segment `cur`, appended to `res`.
fn flush_seg(res: &mut Vec<Comp>, cur: &Vec<char>)
    ensures
        cview(final(res)@) == cview(old(res)@) + seg_comps(cur@),
{
    let ghost r0 = cview(res@);
    if cur.len() == 0 {
        assert(seg_comps(cur@) =~= Seq::<PComp>::empty());
        assert(cview(res@) =~= r0 + seg_comps(cur@));
    } else if cur.len() == 1 && cur[0] == '.' {
        assert(cur@ =~= dot());
        assert(cview(res@) =~= r0 + seg_comps(cur@));
    } else if cur.len() == 2 && cur[0] == '.' && cur[1] == '.' {
        assert(cur@ =~= dotdot());
        assert(cur@ != dot());
        res.push(Comp::Parent);
        assert(cview(res@) =~= r0 + seg_comps(cur@));
    } else {
        assert(cur@ != dot());
        assert(cur@ != dotdot());
        res.push(Comp::Normal(cur.clone()));
        assert(cview(res@) =~= r0 + seg_comps(cur@));
    }
}

/// Returns the components of the path held in `path`.
pub fn components_of(path: &Vec<char>) -> (r: Vec<Comp>)
    ensures
        cview(r@) == components(path@),
{
    let mut res: Vec<Comp> = Vec::new();
    let ghost s = path@;
    if path.len() > 0 && path[0] == '/' {
        res.push(Comp::Root);
    } else if path.len() > 0 && path[0] == '.' && (path.len() == 1 || path[1] == '/') {
        res.push(Comp::Cur);
    }
    let ghost head = cview(res@);
    assert(components(s) == head + scan(s, 0, Seq::empty())) by {
        if s.len() > 0 && s[0] == '/' {
            assert(head =~= seq![PComp::Root]);
        } else if leading_dot(s) {
            assert(head =~= seq![PComp::Cur]);
        } else {
            assert(head =~= Seq::<PComp>::empty());
        }
    }
    let mut cur: Vec<char> = Vec::new();
    let mut i: usize = 0;
    while i < path.len()
        invariant
            s == path@,
            i <= path.len(),
            cview(res@) + scan(s, i as int, cur@) == components(s),
        decreases path.len() - i,
    {
        let ghost r0 = cview(res@);
        if path[i] == '/' {
            flush_seg(&mut res, &cur);
            assert(r0 + scan(s, i as int, cur@) == r0 + (seg_comps(cur@) + scan(
                s,
                i + 1,
                Seq::empty(),
            )));
            assert(r0 + (seg_comps(cur@) + scan(s, i + 1, Seq::empty())) =~= cview(res@) + scan(
                s,
                i + 1,
                Seq::empty(),
            ));
            cur = Vec::new();
        } else {
            cur.push(path[i]);
        }
        i = i + 1;
    }
    flush_seg(&mut res, &cur);
    res
}

/// Returns the text of a component.
pub fn comp_chars(c: &Comp) -> (r: Vec<char>)
    ensures
        r@ == comp_str(c@),
{
    match c {
        Comp::Root => {
            let v = vec!['/'];
            assert(v@ =~= seq!['/']);
            v
        },
        Comp::Cur => {
            let v = vec!['.'];
            assert(v@ =~= dot());
            v
        },
        Comp::Parent => {
            let v = vec!['.', '.'];
            assert(v@ =~= dotdot());
            v
        },
        Comp::Normal(n) => n.clone(),
    }
}

/// Pushes the segment `seg` onto the path `acc`.
pub fn push_seg(acc: &mut Vec<char>, seg: &Vec<char>)
    ensures
        final(acc)@ == push_str(old(acc)@, seg@),
{
    if seg.len() > 0 && seg[0] == '/' {
        *acc = seg.clone();
    } else if acc.len() > 0 && acc[acc.len() - 1] != '/' {
        acc.push('/');
        extend_chars(acc, seg);
    } else {
        extend_chars(acc, seg);
    }
}

/// Builds the path made of the given components.
pub fn join_comps(cs: &Vec<Comp>) -> (r: Vec<char>)
    ensures
        r@ == join(cview(cs@)),
{
    let mut acc: Vec<char> = Vec::new();
    let mut i: usize = 0;
    while i < cs.len()
        invariant
            i <= cs.len(),
            acc@ == join(cview(cs@).subrange(0, i as int)),
        decreases cs.len() - i,
    {
        let seg = comp_chars(&cs[i]);
        push_seg(&mut acc, &seg);
        proof {
            let sub = cview(cs@).subrange(0, i + 1);
            assert(sub.drop_last() =~= cview(cs@).subrange(0, i as int));
            assert(sub.last() == cs@[i as int]@);
        }
        i = i + 1;
    }
    assert(cview(cs@).subrange(0, cs.len() as int) =~= cview(cs@));
    acc
}

/// Builds the string of a path given by its components.
fn join_string(cs: &Vec<Comp>) -> (r: String)
    ensures
        r@ == join(cview(cs@)),
{
    let v = join_comps(cs);
    string_of(&v)
}

/// Copies a string slice into a `String`.
pub fn path_to_string(path: &str) -> (r: String)
    ensures
        r@ == path@,
{
    String::from_str(path)
}

/// Clones one component.
fn comp_clone(c: &Comp) -> (r: Comp)
    ensures
        r@ == c@,
{
    match c {
        Comp::Root => Comp::Root,
        Comp::Cur => Comp::Cur,
        Comp::Parent => Comp::Parent,
        Comp::Normal(n) => Comp::Normal(n.clone()),
    }
}

/// Returns the components `cs[from..to]`.
pub fn comps_range(cs: &Vec<Comp>, from: usize, to: usize) -> (r: Vec<Comp>)
    requires
        from <= to <= cs.len(),
    ensures
        cview(r@) == cview(cs@).subrange(from as int, to as int),
{
    let mut r: Vec<Comp> = Vec::new();
    let mut i = from;
    while i < to
        invariant
            from <= i <= to,
            to <= cs.len(),
            cview(r@) == cview(cs@).subrange(from as int, i as int),
        decreases to - i,
    {
        let c = comp_clone(&cs[i]);
        let ghost r0 = r@;
        r.push(c);
        assert(r@ == r0.push(c));
        assert(cview(r@) =~= cview(r0).push(c@));
        i = i + 1;
        assert(cview(r@) =~= cview(cs@).subrange(from as int, i as int));
    }
    r
}

/// Returns true when the two components are equal.
fn comp_eq(a: &Comp, b: &Comp) -> (r: bool)
    ensures
        r == (a@ == b@),
{
    match (a, b) {
        (Comp::Root, Comp::Root) => true,
        (Comp::Cur, Comp::Cur) => true,
        (Comp::Parent, Comp::Parent) => true,
        (Comp::Normal(x), Comp::Normal(y)) => chars_eq(x, y),
        _ => false,
    }
}

// ------------------------------------------------------------------------------------------------
// Public path functions
// ------------------------------------------------------------------------------------------------

/// Returns the final component of the given `path` if there is one.
///
/// ### Errors
/// * IterError::ItemNotFound when the path has no components
pub fn base(path: &str) -> (r: Result<String, RvError>)
    ensures
        match r {
            Ok(s) => components(path@).len() > 0 && s@ == comp_str(components(path@).last()),
            Err(e) => components(path@).len() == 0 && e == RvError::Iter(IterError::ItemNotFound),
        },
{
    let p = chars_of(path);
    let cs = components_of(&p);
    if cs.len() == 0 {
        Err(RvError::Iter(IterError::ItemNotFound))
    } else {
        let v = comp_chars(&cs[cs.len() - 1]);
        Ok(string_of(&v))
    }
}

/// Returns the last path component, alias of `base`.
pub fn last(path: &str) -> (r: Result<String, RvError>)
    ensures
        match r {
            Ok(s) => components(path@).len() > 0 && s@ == comp_str(components(path@).last()),
            Err(e) => components(path@).len() == 0 && e == RvError::Iter(IterError::ItemNotFound),
        },
{
    base(path)
}

/// Returns the first path component.
///
/// ### Errors
/// * IterError::ItemNotFound when the path has no components
pub fn first(path: &str) -> (r: Result<String, RvError>)
    ensures
        match r {
            Ok(s) => components(path@).len() > 0 && s@ == comp_str(components(path@)[0]),
            Err(e) => components(path@).len() == 0 && e == RvError::Iter(IterError::ItemNotFound),
        },
{
    let p = chars_of(path);
    let cs = components_of(&p);
    if cs.len() == 0 {
        Err(RvError::Iter(IterError::ItemNotFound))
    } else {
        let v = comp_chars(&cs[0]);
        Ok(string_of(&v))
    }
}

/// Returns the given `path` without its final component if there is one.
///
/// ### Errors
/// * PathError::ParentNotFound when the path has no parent: it is empty or the root
pub fn dir(path: &str) -> (r: Result<String, RvError>)
    ensures
        ({
            let cs = components(path@);
            match r {
                Ok(s) => cs.len() > 0 && !(cs.last() is Root) && s@ == join(cs.drop_last()),
                Err(e) => (cs.len() == 0 || cs.last() is Root) && (e matches RvError::Path(
                    PathError::ParentNotFound(m),
                ) && m@ == path@),
            }
        }),
{
    let p = chars_of(path);
    let cs = components_of(&p);
    if cs.len() == 0 {
        return Err(RvError::Path(PathError::ParentNotFound(path_to_string(path))));
    }
    if let Comp::Root = &cs[cs.len() - 1] {
        return Err(RvError::Path(PathError::ParentNotFound(path_to_string(path))));
    }
    let rest = comps_range(&cs, 0, cs.len() - 1);
    assert(cview(cs@).subrange(0, cs.len() - 1) =~= cview(cs@).drop_last());
    Ok(join_string(&rest))
}

/// Returns a new path with the first component trimmed off.
pub fn trim_first(path: &str) -> (r: String)
    ensures
        r@ == join(tail(components(path@))),
{
    let p = chars_of(path);
    let cs = components_of(&p);
    if cs.len() == 0 {
        assert(cview(cs@) =~= Seq::<PComp>::empty());
        return String::new();
    }
    let rest = comps_range(&cs, 1, cs.len());
    assert(cview(cs@).subrange(1, cs.len() as int) =~= cview(cs@).drop_first());
    join_string(&rest)
}

/// Returns a new path with the last component trimmed off.
pub fn trim_last(path: &str) -> (r: String)
    ensures
        r@ == join(init(components(path@))),
{
    let p = chars_of(path);
    let cs = components_of(&p);
    if cs.len() == 0 {
        assert(cview(cs@) =~= Seq::<PComp>::empty());
        return String::new();
    }
    let rest = comps_range(&cs, 0, cs.len() - 1);
    assert(cview(cs@).subrange(0, cs.len() - 1) =~= cview(cs@).drop_last());
    join_string(&rest)
}


/// Returns the index of the last `.` in `v[..n]`, or -1.
fn last_dot_exec(v: &Vec<char>) -> (r: i64)
    requires
        v.len() < i64::MAX,
    ensures
        r == last_dot(v@, v@.len() as int),
        -1 <= r < v@.len(),
{
    proof {
        lemma_last_dot_range(v@, v@.len() as int);
    }
    let mut n: usize = v.len();
    while n > 0
        invariant
            n <= v.len(),
            v.len() < i64::MAX,
            last_dot(v@, v@.len() as int) == last_dot(v@, n as int),
        decreases n,
    {
        if v[n - 1] == '.' {
            return (n - 1) as i64;
        }
        n = n - 1;
    }
    -1
}

/// The index of the last dot lies before `n`.
proof fn lemma_last_dot_range(s: Seq<char>, n: int)
    requires
        n <= s.len(),
    ensures
        -1 <= last_dot(s, n) < if n < 0 { 0 } else { n },
        last_dot(s, n) >= 0 ==> s[last_dot(s, n)] == '.',
    decreases n,
{
    if n > 0 && s[n - 1] != '.' {
        lemma_last_dot_range(s, n - 1);
    }
}

/// Returns the file name of the path, its last component when that is a normal one.
pub(crate) fn file_name_exec(p: &Vec<char>) -> (r: Option<Vec<char>>)
    ensures
        match r {
            Some(n) => file_name(p@) == Some(n@),
            None => file_name(p@) is None,
        },
{
    let cs = components_of(p);
    if cs.len() == 0 {
        return None;
    }
    match &cs[cs.len() - 1] {
        Comp::Normal(n) => Some(n.clone()),
        _ => None,
    }
}

/// Returns the extension of the path held in `p`.
fn ext_exec(p: &Vec<char>) -> (r: Option<Vec<char>>)
    ensures
        match r {
            Some(e) => path_ext(p@) == Some(e@),
            None => path_ext(p@) is None,
        },
{
    match file_name_exec(p) {
        None => None,
        Some(n) => {
            if n.len() >= i64::MAX as usize {
                // a name this long cannot be held in memory alongside the path
                return ext_of_long_name(&n);
            }
            let i = last_dot_exec(&n);
            if i <= 0 {
                None
            } else {
                let iu = i as usize;
                Some(sub_range_chars(&n, iu + 1, n.len()))
            }
        },
    }
}

/// Extension of a name whose length does not fit in an `i64`.
fn ext_of_long_name(n: &Vec<char>) -> (r: Option<Vec<char>>)
    ensures
        match r {
            Some(e) => name_ext(n@) == Some(e@),
            None => name_ext(n@) is None,
        },
{
    let mut k: usize = n.len();
    while k > 0
        invariant
            k <= n.len(),
            last_dot(n@, n@.len() as int) == last_dot(n@, k as int),
        decreases k,
    {
        if n[k - 1] == '.' {
            if k - 1 == 0 {
                return None;
            }
            return Some(sub_range_chars(n, k, n.len()));
        }
        k = k - 1;
    }
    None
}

/// Returns a copy of `v[from..to]`.
fn sub_range_chars(v: &Vec<char>, from: usize, to: usize) -> (r: Vec<char>)
    requires
        from <= to <= v.len(),
    ensures
        r@ == v@.subrange(from as int, to as int),
{
    crate::strs::sub_chars(v, from, to)
}

/// Returns the extension of the path.
///
/// ### Errors
/// * PathError::ExtensionNotFound when the path has no extension
pub fn ext(path: &str) -> (r: Result<String, RvError>)
    ensures
        match r {
            Ok(s) => path_ext(path@) == Some(s@),
            Err(e) => path_ext(path@) is None && (e matches RvError::Path(
                PathError::ExtensionNotFound(m),
            ) && m@ == path@),
        },
{
    let p = chars_of(path);
    match ext_exec(&p) {
        Some(e) => Ok(string_of(&e)),
        None => Err(RvError::Path(PathError::ExtensionNotFound(path_to_string(path)))),
    }
}

/// Returns `v` with the suffix `suf` removed when it has it.
fn trim_suffix_chars(v: &Vec<char>, suf: &Vec<char>) -> (r: Vec<char>)
    ensures
        r@ == trim_suffix_spec(v@, suf@),
{
    if crate::strs::chars_ends_with(v, suf) {
        sub_range_chars(v, 0, v.len() - suf.len())
    } else {
        v.clone()
    }
}

/// Returns `v` with the prefix `pre` removed when it has it.
fn trim_prefix_chars(v: &Vec<char>, pre: &Vec<char>) -> (r: Vec<char>)
    ensures
        r@ == trim_prefix_spec(v@, pre@),
{
    if crate::strs::chars_starts_with(v, pre) {
        sub_range_chars(v, pre.len(), v.len())
    } else {
        v.clone()
    }
}

/// Returns `p` without its extension.
fn trim_ext_chars(p: &Vec<char>) -> (r: Vec<char>)
    ensures
        r@ == trim_ext_spec(p@),
{
    match ext_exec(p) {
        Some(e) => {
            let mut suf = vec!['.'];
            extend_chars(&mut suf, &e);
            assert(suf@ =~= dot() + e@);
            trim_suffix_chars(p, &suf)
        },
        None => p.clone(),
    }
}

/// Returns a new path with the file extension trimmed off.
pub fn trim_ext(path: &str) -> (r: String)
    ensures
        r@ == trim_ext_spec(path@),
{
    let p = chars_of(path);
    let t = trim_ext_chars(&p);
    string_of(&t)
}

/// Returns the final component of the path without its extension.
///
/// ### Errors
/// * IterError::ItemNotFound when the path without its extension has no components
pub fn name(path: &str) -> (r: Result<String, RvError>)
    ensures
        ({
            let cs = components(trim_ext_spec(path@));
            match r {
                Ok(s) => cs.len() > 0 && s@ == comp_str(cs.last()),
                Err(e) => cs.len() == 0 && e == RvError::Iter(IterError::ItemNotFound),
            }
        }),
{
    let t = trim_ext(path);
    base(t.as_str())
}

/// Returns true if the path contains the given string.
pub fn has(path: &str, val: &str) -> (r: bool)
    ensures
        r == crate::strs::contains_sub(path@, val@),
{
    let p = chars_of(path);
    let v = chars_of(val);
    crate::strs::chars_contains(&p, &v)
}

/// Returns true if the path has the given prefix.
pub fn has_prefix(path: &str, prefix: &str) -> (r: bool)
    ensures
        r == prefix@.is_prefix_of(path@),
{
    let p = chars_of(path);
    let v = chars_of(prefix);
    crate::strs::chars_starts_with(&p, &v)
}

/// Returns true if the path has the given suffix.
pub fn has_suffix(path: &str, suffix: &str) -> (r: bool)
    ensures
        r == suffix@.is_suffix_of(path@),
{
    let p = chars_of(path);
    let v = chars_of(suffix);
    crate::strs::chars_ends_with(&p, &v)
}

/// Returns true if the path is empty.
pub fn is_empty(path: &str) -> (r: bool)
    ensures
        r == (path@.len() == 0),
        r == (components(path@).len() == 0),
{
    let n = path.unicode_len();
    proof {
        lemma_components_empty(path@);
    }
    n == 0
}

/// A path has no components exactly when it is empty.
pub proof fn lemma_components_empty(s: Seq<char>)
    ensures
        (components(s).len() == 0) == (s.len() == 0),
{
    if s.len() > 0 && s[0] != '/' && !leading_dot(s) {
        assert(Seq::<char>::empty() =~= s.subrange(0, 0));
        lemma_scan_nonempty_first_seg(s, 0, Seq::empty());
    }
}

/// A relative path whose first segment is neither empty nor `.` yields a component.
proof fn lemma_scan_nonempty_first_seg(s: Seq<char>, i: int, cur: Seq<char>)
    requires
        0 <= i <= s.len(),
        forall|j: int| 0 <= j < i ==> s[j] != '/',
        cur == s.subrange(0, i),
        s.len() > 0,
        s[0] != '/',
        !leading_dot(s),
    ensures
        scan(s, i, cur).len() > 0,
    decreases s.len() - i,
{
    if i >= s.len() {
        assert(cur =~= s);
        assert(cur.len() > 0);
        assert(cur != dot());
        assert(seg_comps(cur).len() > 0);
    } else if s[i] == '/' {
        assert(i > 0);
        assert(cur.len() > 0);
        if cur == dot() {
            assert(cur[0] == s[0]);
            assert(i == 1);
            assert(s[1] == '/');
        }
        assert(seg_comps(cur).len() > 0);
        assert(scan(s, i, cur) == seg_comps(cur) + scan(s, i + 1, Seq::empty()));
    } else {
        assert(cur.push(s[i]) =~= s.subrange(0, i + 1));
        lemma_scan_nonempty_first_seg(s, i + 1, cur.push(s[i]));
    }
}

/// Returns the path with the given string appended without injecting a separator.
pub fn concat(path: &str, val: &str) -> (r: String)
    ensures
        r@ == path@ + val@,
{
    let mut s = String::from_str(path);
    s.append(val);
    s
}

/// Returns a new path made of `dir` and `base`, dropping the root prefix of `base` and any
/// trailing separator.
pub fn mash(dir: &str, base: &str) -> (r: String)
    ensures
        r@ == mash_spec(dir@, base@),
{
    let d = chars_of(dir);
    let b = chars_of(base);
    let v = mash_chars(&d, &b);
    string_of(&v)
}

/// `mash` on character vectors.
pub fn mash_chars(d: &Vec<char>, b: &Vec<char>) -> (r: Vec<char>)
    ensures
        r@ == mash_spec(d@, b@),
{
    let sep = vec!['/'];
    assert(sep@ =~= seq!['/']);
    let b1 = trim_prefix_chars(b, &sep);
    let mut j = d.clone();
    push_seg(&mut j, &b1);
    let cs = components_of(&j);
    join_comps(&cs)
}

/// Returns a new path with the given prefix trimmed off, else the path unchanged.
pub fn trim_prefix(path: &str, prefix: &str) -> (r: String)
    ensures
        r@ == trim_prefix_spec(path@, prefix@),
{
    let p = chars_of(path);
    let v = chars_of(prefix);
    let t = trim_prefix_chars(&p, &v);
    string_of(&t)
}

/// Returns a new path with the given suffix trimmed off, else the path unchanged.
pub fn trim_suffix(path: &str, suffix: &str) -> (r: String)
    ensures
        r@ == trim_suffix_spec(path@, suffix@),
{
    let p = chars_of(path);
    let v = chars_of(suffix);
    let t = trim_suffix_chars(&p, &v);
    string_of(&t)
}

/// Splits a colon delimited list of paths, such as `$PATH`, dropping empty elements.
pub fn parse_paths(value: &str) -> (r: Vec<String>)
    ensures
        r@.map_values(|x: String| x@) == colon_scan(value@, 0, Seq::empty()),
{
    let s = chars_of(value);
    let mut res: Vec<String> = Vec::new();
    let mut cur: Vec<char> = Vec::new();
    let mut i: usize = 0;
    while i < s.len()
        invariant
            i <= s.len(),
            res@.map_values(|x: String| x@) + colon_scan(s@, i as int, cur@) == colon_scan(
                s@,
                0,
                Seq::empty(),
            ),
        decreases s.len() - i,
    {
        let ghost r0 = res@.map_values(|x: String| x@);
        if s[i] == ':' {
            if cur.len() > 0 {
                let t = string_of(&cur);
                res.push(t);
                assert(res@.map_values(|x: String| x@) =~= r0 + seq![cur@]);
            } else {
                assert(res@.map_values(|x: String| x@) =~= r0 + Seq::<Seq<char>>::empty());
            }
            assert(r0 + colon_scan(s@, i as int, cur@) =~= res@.map_values(|x: String| x@)
                + colon_scan(s@, i + 1, Seq::empty()));
            cur = Vec::new();
        } else {
            cur.push(s[i]);
        }
        i = i + 1;
    }
    let ghost r0 = res@.map_values(|x: String| x@);
    if cur.len() > 0 {
        let t = string_of(&cur);
        res.push(t);
        assert(res@.map_values(|x: String| x@) =~= r0 + seq![cur@]);
    } else {
        assert(r0 + colon_scan(s@, i as int, cur@) =~= r0);
    }
    res
}


/// The common prefix length is the index of the first mismatch.
proof fn lemma_common_len(a: Seq<PComp>, b: Seq<PComp>, k: int)
    requires
        0 <= k <= a.len(),
        k <= b.len(),
        forall|j: int| 0 <= j < k ==> a[j] == b[j],
        k == a.len() || k == b.len() || a[k] != b[k],
    ensures
        common_len(a, b) == k,
    decreases k,
{
    if k > 0 {
        lemma_common_len(a.drop_first(), b.drop_first(), k - 1);
    }
}

/// Returns true when the two component vectors are equal.
fn comps_eq(a: &Vec<Comp>, b: &Vec<Comp>) -> (r: bool)
    ensures
        r == (cview(a@) == cview(b@)),
{
    if a.len() != b.len() {
        assert(cview(a@).len() != cview(b@).len());
        return false;
    }
    let mut i: usize = 0;
    while i < a.len()
        invariant
            a.len() == b.len(),
            i <= a.len(),
            forall|j: int| 0 <= j < i ==> cview(a@)[j] == cview(b@)[j],
        decreases a.len() - i,
    {
        if !comp_eq(&a[i], &b[i]) {
            assert(cview(a@)[i as int] != cview(b@)[i as int]);
            return false;
        }
        i = i + 1;
    }
    assert(cview(a@) =~= cview(b@));
    true
}

/// Returns the path relative to the given `base` path: the navigation that leads from `base` to
/// `path`.
pub fn relative(path: &str, base: &str) -> (r: String)
    ensures
        r@ == relative_spec(path@, base@),
{
    let p = chars_of(path);
    let b = chars_of(base);
    let cp = components_of(&p);
    let cb = components_of(&b);
    if comps_eq(&cp, &cb) {
        return String::from_str(path);
    }
    let mut k: usize = 0;
    while k < cp.len() && k < cb.len() && comp_eq(&cp[k], &cb[k])
        invariant
            k <= cp.len(),
            k <= cb.len(),
            forall|j: int| 0 <= j < k ==> cview(cp@)[j] == cview(cb@)[j],
        decreases cp.len() - k,
    {
        k = k + 1;
    }
    proof {
        lemma_common_len(cview(cp@), cview(cb@), k as int);
    }
    let mut res: Vec<Comp> = Vec::new();
    let n = cb.len() - k;
    let mut i: usize = 0;
    while i < n
        invariant
            i <= n,
            cview(res@) == Seq::new(i as nat, |j: int| PComp::Parent),
        decreases n - i,
    {
        let ghost v0 = res@;
        res.push(Comp::Parent);
        assert(cview(res@) =~= cview(v0).push(PComp::Parent));
        i = i + 1;
        assert(cview(res@) =~= Seq::new(i as nat, |j: int| PComp::Parent));
    }
    let rest = comps_range(&cp, k, cp.len());
    let ghost r0 = cview(res@);
    let mut j: usize = 0;
    while j < rest.len()
        invariant
            j <= rest.len(),
            cview(res@) == r0 + cview(rest@).subrange(0, j as int),
        decreases rest.len() - j,
    {
        let c = comp_clone(&rest[j]);
        let ghost v0 = res@;
        res.push(c);
        assert(cview(res@) =~= cview(v0).push(c@));
        j = j + 1;
        assert(cview(res@) =~= r0 + cview(rest@).subrange(0, j as int));
    }
    assert(cview(rest@).subrange(0, rest.len() as int) =~= cview(rest@));
    assert(cview(res@) =~= rel_comps(cview(cp@), cview(cb@)));
    join_string(&res)
}

/// Returns the shortest path equivalent to the given `path` by purely lexical processing.
///
/// 1. Replace multiple slashes with a single
/// 2. Eliminate each . path name element (the current directory)
/// 3. Eliminate each inner .. path name element along with the non-.. element that precedes it
/// 4. Eliminate .. elements that begin a rooted path
/// 5. Leave intact ".." elements that begin a non-rooted path
/// 6. Drop trailing '/' unless it is the root
///
/// If the result of this process is empty, the string `.` is returned.
pub fn clean(path: &str) -> (r: String)
    ensures
        r@ == clean_spec(path@),
{
    let p = chars_of(path);
    let v = clean_chars(&p);
    string_of(&v)
}

/// `clean` on character vectors.
pub fn clean_chars(p: &Vec<char>) -> (r: Vec<char>)
    ensures
        r@ == clean_spec(p@),
{
    let cs = components_of(p);
    let st = clean_stack(&cs);
    if st.len() == 0 {
        let v = vec!['.'];
        assert(v@ =~= dot());
        v
    } else {
        join_comps(&st)
    }
}

/// The components kept by cleaning.
fn clean_stack(cs: &Vec<Comp>) -> (st: Vec<Comp>)
    ensures
        cview(st@) == clean_comps(cview(cs@)),
{
    let mut st: Vec<Comp> = Vec::new();
    let mut i: usize = 0;
    while i < cs.len()
        invariant
            i <= cs.len(),
            cview(st@) == clean_comps(cview(cs@).subrange(0, i as int)),
        decreases cs.len() - i,
    {
        proof {
            let sub = cview(cs@).subrange(0, i + 1);
            assert(sub.drop_last() =~= cview(cs@).subrange(0, i as int));
            assert(sub.last() == cs@[i as int]@);
        }
        let ghost s0 = cview(st@);
        let c = &cs[i];
        let is_cur = match c {
            Comp::Cur => true,
            _ => false,
        };
        let is_parent = match c {
            Comp::Parent => true,
            _ => false,
        };
        if is_cur && st.len() == 0 {
        } else if is_parent && st.len() > 0 && !(match &st[st.len() - 1] {
            Comp::Parent => true,
            _ => false,
        }) {
            let last_normal = match &st[st.len() - 1] {
                Comp::Normal(_) => true,
                _ => false,
            };
            if last_normal {
                st.pop();
                assert(cview(st@) =~= s0.drop_last());
            }
        } else {
            let d = comp_clone(c);
            let ghost v0 = st@;
            st.push(d);
            assert(cview(st@) =~= cview(v0).push(d@));
        }
        i = i + 1;
    }
    assert(cview(cs@).subrange(0, cs.len() as int) =~= cview(cs@));
    st
}

/// `lower(c) == t`, for a lower case protocol character `t`, holds for `t` and its upper case form.
proof fn lemma_lower_eq(c: char, t: char)
    requires
        ('a' <= t && t <= 'z') || t == ':' || t == '/',
    ensures
        (lower(c) == t) == (c == t || ('a' <= t && t <= 'z' && c as u32 + 32 == t as u32)),
{
    if 'A' <= c && c <= 'Z' {
        let x: u32 = (c as u32 + 32) as u32;
        assert(65 <= x <= 122);
        assert((x as char) as u32 == x);
    }
}

/// Returns true when `p` equals the lower case protocol `lo` ignoring ASCII case.
fn ci_eq(p: &Vec<char>, lo: &Vec<char>) -> (r: bool)
    requires
        forall|i: int| 0 <= i < lo.len() ==> ('a' <= #[trigger] lo@[i] && lo@[i] <= 'z') || lo@[i]
            == ':' || lo@[i] == '/',
    ensures
        r == (lower_seq(p@) == lo@),
{
    if p.len() != lo.len() {
        assert(lower_seq(p@).len() != lo@.len());
        return false;
    }
    let mut i: usize = 0;
    while i < p.len()
        invariant
            p.len() == lo.len(),
            i <= p.len(),
            forall|j: int| 0 <= j < lo.len() ==> ('a' <= #[trigger] lo@[j] && lo@[j] <= 'z') || lo@[j]
                == ':' || lo@[j] == '/',
            forall|j: int| 0 <= j < i ==> lower(#[trigger] p@[j]) == lo@[j],
        decreases p.len() - i,
    {
        let c = p[i];
        let t = lo[i];
        proof {
            lemma_lower_eq(c, t);
        }
        let up_ok = 'a' <= t && t <= 'z' && (c as u32) + 32 == (t as u32);
        if !(c == t || up_ok) {
            assert(lower_seq(p@)[i as int] != lo@[i as int]);
            return false;
        }
        i = i + 1;
    }
    assert(lower_seq(p@) =~= lo@);
    true
}

/// Returns true when `p` is one of the known protocol prefixes, ignoring case.
fn is_protocol_exec(p: &Vec<char>) -> (r: bool)
    ensures
        r == is_protocol(p@),
{
    let f = vec!['f', 'i', 'l', 'e', ':', '/', '/'];
    let t = vec!['f', 't', 'p', ':', '/', '/'];
    let h = vec!['h', 't', 't', 'p', ':', '/', '/'];
    let hs = vec!['h', 't', 't', 'p', 's', ':', '/', '/'];
    assert(f@ =~= seq!['f', 'i', 'l', 'e', ':', '/', '/']);
    assert(t@ =~= seq!['f', 't', 'p', ':', '/', '/']);
    assert(h@ =~= seq!['h', 't', 't', 'p', ':', '/', '/']);
    assert(hs@ =~= seq!['h', 't', 't', 'p', 's', ':', '/', '/']);
    ci_eq(p, &f) || ci_eq(p, &t) || ci_eq(p, &h) || ci_eq(p, &hs)
}

/// Returns a new path with the well known protocol prefixes `file://`, `ftp://`, `http://` and
/// `https://`, in any case, trimmed off, else the path unchanged.
pub fn trim_protocol(path: &str) -> (r: String)
    ensures
        r@ == trim_protocol_spec(path@),
{
    let p = chars_of(path);
    let v = trim_protocol_chars(&p);
    string_of(&v)
}

/// `trim_protocol` on character vectors.
pub fn trim_protocol_chars(p: &Vec<char>) -> (r: Vec<char>)
    ensures
        r@ == trim_protocol_spec(p@),
{
    if p.len() < 2 {
        assert(find_dslash(p@, 0) == -1);
        return p.clone();
    }
    let mut i: usize = 0;
    while i < p.len() - 1
        invariant
            p.len() >= 2,
            i <= p.len() - 1,
            find_dslash(p@, 0) == find_dslash(p@, i as int),
        decreases p.len() - i,
    {
        if p[i] == '/' && p[i + 1] == '/' {
            let pre = sub_range_chars(p, 0, i + 2);
            if is_protocol_exec(&pre) {
                return sub_range_chars(p, i + 2, p.len());
            } else {
                return p.clone();
            }
        }
        i = i + 1;
    }
    assert(find_dslash(p@, i as int) == -1);
    p.clone()
}


/// The parent of the path held in `p`.
pub fn dir_chars(p: &Vec<char>) -> (r: Option<Vec<char>>)
    ensures
        match r {
            Some(d) => dir_spec(p@) == Some(d@),
            None => dir_spec(p@) is None,
        },
{
    let cs = components_of(p);
    if cs.len() == 0 {
        return None;
    }
    if let Comp::Root = &cs[cs.len() - 1] {
        return None;
    }
    let rest = comps_range(&cs, 0, cs.len() - 1);
    assert(cview(cs@).subrange(0, cs.len() - 1) =~= cview(cs@).drop_last());
    Some(join_comps(&rest))
}

/// The text of the last component of a path, when there is one.
pub open spec fn base_spec(s: Seq<char>) -> Option<Seq<char>> {
    let cs = components(s);
    if cs.len() == 0 {
        None
    } else {
        Some(comp_str(cs.last()))
    }
}

/// The text of the last component of the path held in `p`.
pub fn base_chars(p: &Vec<char>) -> (r: Option<Vec<char>>)
    ensures
        match r {
            Some(b) => base_spec(p@) == Some(b@),
            None => base_spec(p@) is None,
        },
{
    let cs = components_of(p);
    if cs.len() == 0 {
        return None;
    }
    Some(comp_chars(&cs[cs.len() - 1]))
}

/// The path of the entry named `name` in the directory `dir`.
pub open spec fn child_path(dir: Seq<char>, name: Seq<char>) -> Seq<char> {
    if dir.len() > 0 && dir.last() == '/' {
        dir + name
    } else {
        dir + seq!['/'] + name
    }
}

/// Builds the path of the entry named `name` in the directory `dir`.
pub fn child_path_chars(dir: &Vec<char>, name: &Vec<char>) -> (r: Vec<char>)
    ensures
        r@ == child_path(dir@, name@),
{
    let mut r = dir.clone();
    if !(dir.len() > 0 && dir[dir.len() - 1] == '/') {
        r.push('/');
    }
    extend_chars(&mut r, name);
    r
}

/// A prefix that a path has, put back before what trimming it leaves, gives the path again.
pub proof fn lemma_trim_prefix_undo(s: Seq<char>, pre: Seq<char>)
    requires
        pre.is_prefix_of(s),
    ensures
        pre + trim_prefix_spec(s, pre) == s,
{
    assert(pre + trim_prefix_spec(s, pre) =~= s);
}

/// Trimming a suffix that was concatenated gives the path back.
pub proof fn lemma_concat_trim_suffix(s: Seq<char>, suf: Seq<char>)
    ensures
        trim_suffix_spec(s + suf, suf) == s,
        suf.is_suffix_of(s + suf),
{
    assert((s + suf).subrange((s + suf).len() - suf.len(), (s + suf).len() as int) =~= suf);
    assert((s + suf).subrange(0, (s + suf).len() - suf.len()) =~= s);
}

/// Trimming a prefix that was put before a path gives the path back.
pub proof fn lemma_prefix_trim(pre: Seq<char>, s: Seq<char>)
    ensures
        trim_prefix_spec(pre + s, pre) == s,
{
    assert((pre + s).subrange(0, pre.len() as int) =~= pre);
    assert((pre + s).subrange(pre.len() as int, (pre + s).len() as int) =~= s);
}

} // verus!
