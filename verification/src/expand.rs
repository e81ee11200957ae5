//! Expansion of the home symbol `~` and of environment variables in paths.
//!
//! The environment is handed in as a list of name and value pairs; the first pair with a given
//! name holds its value.
use vstd::prelude::*;
use crate::errors::{PathError, RvErr, RvError};
use crate::path::{PComp, comp_str, components, components_of, cview, mash_chars, mash_spec, push_seg, push_str, Comp};
use crate::strs::{chars_eq, chars_of, chars_starts_with, string_of, sub_chars, extend_chars};

verus! {

/// The model of an environment.
pub open spec fn env_view(env: Seq<(String, String)>) -> Seq<(Seq<char>, Seq<char>)> {
    env.map_values(|p: (String, String)| (p.0@, p.1@))
}

/// The value of the variable `name`: that of the first pair with this name.
pub open spec fn env_get(env: Seq<(Seq<char>, Seq<char>)>, name: Seq<char>) -> Option<Seq<char>>
    decreases env.len(),
{
    if env.len() == 0 {
        None
    } else if env[0].0 == name {
        Some(env[0].1)
    } else {
        env_get(env.drop_first(), name)
    }
}

pub open spec fn home_name() -> Seq<char> {
    seq!['H', 'O', 'M', 'E']
}

/// The number of times `c` occurs in `s`.
pub open spec fn count_char(s: Seq<char>, c: char) -> nat
    decreases s.len(),
{
    if s.len() == 0 {
        0
    } else {
        count_char(s.drop_last(), c) + if s.last() == c {
            1nat
        } else {
            0nat
        }
    }
}

/// The result of expanding the home symbol.
pub open spec fn expand_home(s: Seq<char>, env: Seq<(Seq<char>, Seq<char>)>) -> Result<
    Seq<char>,
    RvErr,
> {
    let n = count_char(s, '~');
    if n > 1 {
        Err(RvErr::MultipleHomeSymbols(s))
    } else if n == 1 && !seq!['~', '/'].is_prefix_of(s) && s != seq!['~'] {
        Err(RvErr::InvalidExpansion(s))
    } else if n == 1 {
        match env_get(env, home_name()) {
            None => Err(RvErr::EnvVarNotFound(home_name())),
            Some(h) => if s == seq!['~'] {
                Ok(h)
            } else {
                Ok(mash_spec(h, s.subrange(2, s.len() as int)))
            },
        }
    } else {
        Ok(s)
    }
}

/// The first index at or after `i` holding a `$`, else the length.
pub open spec fn next_dollar(s: Seq<char>, i: int) -> int
    decreases s.len() - i,
{
    if i >= s.len() {
        s.len() as int
    } else if s[i] == '$' {
        i
    } else {
        next_dollar(s, i + 1)
    }
}

/// The first index at or after `i` holding a `$` or a `}`, else the length.
pub open spec fn var_end(s: Seq<char>, i: int) -> int
    decreases s.len() - i,
{
    if i >= s.len() {
        s.len() as int
    } else if s[i] == '$' || s[i] == '}' {
        i
    } else {
        var_end(s, i + 1)
    }
}

/// The expansion of the variables in the segment `seg`, from index `i` on: literal text up to a
/// `$`, then a variable name, optionally in braces, replaced by its value.
pub open spec fn expand_seg(seg: Seq<char>, i: int, env: Seq<(Seq<char>, Seq<char>)>) -> Result<
    Seq<char>,
    RvErr,
>
    decreases seg.len() - i,
{
    if i < 0 || i >= seg.len() {
        Ok(Seq::empty())
    } else {
        let j = next_dollar(seg, i);
        let lit = seg.subrange(i, j);
        if j + 1 >= seg.len() {
            Ok(lit)
        } else {
            let k1 = if seg[j + 1] == '{' {
                j + 2
            } else {
                j + 1
            };
            let k2 = var_end(seg, k1);
            let var = seg.subrange(k1, k2);
            let k3 = if k2 < seg.len() && seg[k2] == '}' {
                k2 + 1
            } else {
                k2
            };
            if var.len() == 0 {
                Err(RvErr::InvalidExpansion(seg))
            } else {
                match env_get(env, var) {
                    None => Err(RvErr::EnvVarNotFound(var)),
                    Some(v) => if k3 <= i || k3 > seg.len() {
                        Ok(lit)
                    } else {
                        match expand_seg(seg, k3, env) {
                            Ok(rest) => Ok(lit + v + rest),
                            Err(e) => Err(e),
                        }
                    },
                }
            }
        }
    }
}

/// The text pushed for one component: a normal component has its variables expanded.
pub open spec fn expand_piece(c: PComp, env: Seq<(Seq<char>, Seq<char>)>) -> Result<
    Seq<char>,
    RvErr,
> {
    match c {
        PComp::Normal(seg) => expand_seg(seg, 0, env),
        _ => Ok(comp_str(c)),
    }
}

/// The path built by pushing the expanded text of each component in order; the first error wins.
pub open spec fn expand_comps(cs: Seq<PComp>, env: Seq<(Seq<char>, Seq<char>)>) -> Result<
    Seq<char>,
    RvErr,
>
    decreases cs.len(),
{
    if cs.len() == 0 {
        Ok(Seq::empty())
    } else {
        match expand_comps(cs.drop_last(), env) {
            Err(e) => Err(e),
            Ok(acc) => match expand_piece(cs.last(), env) {
                Err(e) => Err(e),
                Ok(x) => Ok(push_str(acc, x)),
            },
        }
    }
}

/// The result of `expand(s)` in the environment `env`.
pub open spec fn expand_spec(s: Seq<char>, env: Seq<(Seq<char>, Seq<char>)>) -> Result<
    Seq<char>,
    RvErr,
> {
    match expand_home(s, env) {
        Err(e) => Err(e),
        Ok(p) => if count_char(p, '$') > 0 {
            expand_comps(components(p), env)
        } else {
            Ok(p)
        },
    }
}

/// A variable's value is that of the first pair with its name, and a variable no pair names
/// has none.
pub proof fn lemma_env_get_first(env: Seq<(Seq<char>, Seq<char>)>, name: Seq<char>)
    ensures
        forall|i: int|
            0 <= i < env.len() && (#[trigger] env[i]).0 == name && (forall|j: int| 0 <= j < i ==> env[j].0
                != name) ==> env_get(env, name) == Some(env[i].1),
        (forall|i: int| 0 <= i < env.len() ==> (#[trigger] env[i]).0 != name) ==> env_get(env, name) is None,
    decreases env.len(),
{
    if env.len() > 0 {
        let t = env.drop_first();
        lemma_env_get_first(t, name);
        assert forall|i: int|
            0 <= i < env.len() && (#[trigger] env[i]).0 == name && (forall|j: int| 0 <= j < i ==> env[j].0
                != name) implies env_get(env, name) == Some(env[i].1) by {
            if i > 0 {
                assert(env[0].0 != name);
                assert(t[i - 1] == env[i]);
                assert forall|j: int| 0 <= j < i - 1 implies t[j].0 != name by {
                    assert(t[j] == env[j + 1]);
                }
            }
        }
        if forall|i: int| 0 <= i < env.len() ==> (#[trigger] env[i]).0 != name {
            assert(env[0].0 != name);
            assert forall|i: int| 0 <= i < t.len() implies (#[trigger] t[i]).0 != name by {
                assert(t[i] == env[i + 1]);
            }
        }
    }
}

/// `next_dollar` from `i` stops at `m` when no `$` stands before it.
proof fn lemma_next_dollar_at(s: Seq<char>, i: int, m: int)
    requires
        0 <= i <= m <= s.len(),
        forall|t: int| i <= t < m ==> s[t] != '$',
        m == s.len() || s[m] == '$',
    ensures
        next_dollar(s, i) == m,
    decreases m - i,
{
    if i < m {
        lemma_next_dollar_at(s, i + 1, m);
    }
}

/// `var_end` from `i` stops at `m` when neither `$` nor `}` stands before it.
proof fn lemma_var_end_at(s: Seq<char>, i: int, m: int)
    requires
        0 <= i <= m <= s.len(),
        forall|t: int| i <= t < m ==> s[t] != '$' && s[t] != '}',
        m == s.len() || s[m] == '$' || s[m] == '}',
    ensures
        var_end(s, i) == m,
    decreases m - i,
{
    if i < m {
        lemma_var_end_at(s, i + 1, m);
    }
}

/// Expanding the rest of a segment that holds no `$` from `i` on gives that rest unchanged.
proof fn lemma_expand_seg_plain(seg: Seq<char>, i: int, env: Seq<(Seq<char>, Seq<char>)>)
    requires
        0 <= i <= seg.len(),
        forall|t: int| i <= t < seg.len() ==> seg[t] != '$',
    ensures
        expand_seg(seg, i, env) == Ok::<Seq<char>, RvErr>(seg.subrange(i, seg.len() as int)),
{
    if i < seg.len() {
        lemma_next_dollar_at(seg, i, seg.len() as int);
    } else {
        assert(seg.subrange(i, seg.len() as int) =~= Seq::<char>::empty());
    }
}

/// A path component holding no `$` expands to itself.
pub proof fn lemma_expand_no_var(seg: Seq<char>, env: Seq<(Seq<char>, Seq<char>)>)
    requires
        !seg.contains('$'),
    ensures
        expand_seg(seg, 0, env) == Ok::<Seq<char>, RvErr>(seg),
{
    assert forall|t: int| 0 <= t < seg.len() implies seg[t] != '$' by {
        if seg[t] == '$' {
            assert(seg.contains('$'));
        }
    }
    lemma_expand_seg_plain(seg, 0, env);
    assert(seg.subrange(0, seg.len() as int) =~= seg);
}

/// A path component made of literal text `a`, a variable `${n}` and literal text `b` expands to
/// `a`, the variable's value, then `b`, unchanged; a variable not set is an error naming it.
pub proof fn lemma_expand_braced(
    a: Seq<char>,
    n: Seq<char>,
    b: Seq<char>,
    env: Seq<(Seq<char>, Seq<char>)>,
)
    requires
        !a.contains('$'),
        n.len() > 0,
        !n.contains('$'),
        !n.contains('}'),
        !b.contains('$'),
    ensures
        expand_seg(a + seq!['$', '{'] + n + seq!['}'] + b, 0, env) == match env_get(env, n) {
            Some(v) => Ok::<Seq<char>, RvErr>(a + v + b),
            None => Err::<Seq<char>, RvErr>(RvErr::EnvVarNotFound(n)),
        },
{
    let seg = a + seq!['$', '{'] + n + seq!['}'] + b;
    let la = a.len() as int;
    let ln = n.len() as int;
    assert forall|t: int| 0 <= t < la implies seg[t] == a[t] && seg[t] != '$' by {
        if a[t] == '$' {
            assert(a.contains('$'));
        }
    }
    assert(seg[la] == '$');
    assert(seg[la + 1] == '{');
    assert forall|t: int| 0 <= t < ln implies seg[la + 2 + t] == n[t] && seg[la + 2 + t] != '$' && seg[la
        + 2 + t] != '}' by {
        if n[t] == '$' {
            assert(n.contains('$'));
        }
        if n[t] == '}' {
            assert(n.contains('}'));
        }
    }
    assert(seg[la + 2 + ln] == '}');
    let k3 = la + 3 + ln;
    assert forall|t: int| k3 <= t < seg.len() implies seg[t] == b[t - k3] && seg[t] != '$' by {
        if b[t - k3] == '$' {
            assert(b.contains('$'));
        }
    }
    lemma_next_dollar_at(seg, 0, la);
    assert forall|t: int| la + 2 <= t < la + 2 + ln implies seg[t] != '$' && seg[t] != '}' by {
        assert(seg[la + 2 + (t - la - 2)] == n[t - la - 2]);
    }
    lemma_var_end_at(seg, la + 2, la + 2 + ln);
    assert(seg.subrange(la + 2, la + 2 + ln) =~= n);
    assert(seg.subrange(0, la) =~= a);
    lemma_expand_seg_plain(seg, k3, env);
    assert(seg.subrange(k3, seg.len() as int) =~= b);
    match env_get(env, n) {
        Some(v) => {
            assert(a + v + b == seg.subrange(0, la) + v + seg.subrange(k3, seg.len() as int));
        },
        None => {},
    }
}

/// A path component made of literal text `a` and a variable `$n` running to its end expands to
/// `a` then the variable's value; a variable not set is an error naming it.
pub proof fn lemma_expand_bare(a: Seq<char>, n: Seq<char>, env: Seq<(Seq<char>, Seq<char>)>)
    requires
        !a.contains('$'),
        n.len() > 0,
        n[0] != '{',
        !n.contains('$'),
        !n.contains('}'),
    ensures
        expand_seg(a + seq!['$'] + n, 0, env) == match env_get(env, n) {
            Some(v) => Ok::<Seq<char>, RvErr>(a + v),
            None => Err::<Seq<char>, RvErr>(RvErr::EnvVarNotFound(n)),
        },
{
    let seg = a + seq!['$'] + n;
    let la = a.len() as int;
    let ln = n.len() as int;
    assert forall|t: int| 0 <= t < la implies seg[t] == a[t] && seg[t] != '$' by {
        if a[t] == '$' {
            assert(a.contains('$'));
        }
    }
    assert(seg[la] == '$');
    assert forall|t: int| la + 1 <= t < la + 1 + ln implies seg[t] == n[t - la - 1] && seg[t] != '$'
        && seg[t] != '}' by {
        if n[t - la - 1] == '$' {
            assert(n.contains('$'));
        }
        if n[t - la - 1] == '}' {
            assert(n.contains('}'));
        }
    }
    lemma_next_dollar_at(seg, 0, la);
    lemma_var_end_at(seg, la + 1, la + 1 + ln);
    assert(seg.subrange(la + 1, la + 1 + ln) =~= n);
    assert(seg.subrange(0, la) =~= a);
    match env_get(env, n) {
        Some(v) => {
            assert(expand_seg(seg, la + 1 + ln, env) == Ok::<Seq<char>, RvErr>(Seq::empty()));
            assert(a + v =~= a + v + Seq::<char>::empty());
        },
        None => {},
    }
}

/// Looks up the variable `name` in the environment.
pub fn env_var(env: &Vec<(String, String)>, name: &Vec<char>) -> (r: Option<Vec<char>>)
    ensures
        match r {
            Some(v) => env_get(env_view(env@), name@) == Some(v@),
            None => env_get(env_view(env@), name@) is None,
        },
{
    let mut i: usize = 0;
    assert(env_view(env@).skip(0) =~= env_view(env@));
    while i < env.len()
        invariant
            i <= env.len(),
            env_get(env_view(env@), name@) == env_get(env_view(env@).skip(i as int), name@),
        decreases env.len() - i,
    {
        let k = chars_of(env[i].0.as_str());
        proof {
            let sk = env_view(env@).skip(i as int);
            assert(sk[0] == env_view(env@)[i as int]);
            assert(sk.drop_first() =~= env_view(env@).skip(i + 1));
        }
        if chars_eq(&k, name) {
            return Some(chars_of(env[i].1.as_str()));
        }
        i = i + 1;
    }
    None
}

/// Returns the home directory named by the variable `HOME` of the environment.
///
/// ### Errors
/// * EnvVarNotFound when `HOME` is not set
pub fn home_dir_in(env: &Vec<(String, String)>) -> (r: Result<String, RvError>)
    ensures
        match r {
            Ok(h) => env_get(env_view(env@), home_name()) == Some(h@),
            Err(e) => env_get(env_view(env@), home_name()) is None && e@ == RvErr::EnvVarNotFound(
                home_name(),
            ),
        },
{
    let n = vec!['H', 'O', 'M', 'E'];
    assert(n@ =~= home_name());
    match env_var(env, &n) {
        Some(h) => Ok(string_of(&h)),
        None => Err(RvError::EnvVarNotFound(string_of(&n))),
    }
}

/// Counts the occurrences of `c` in `s`.
fn count_char_exec(s: &Vec<char>, c: char) -> (r: usize)
    ensures
        r == count_char(s@, c),
{
    let mut n: usize = 0;
    let mut i: usize = 0;
    while i < s.len()
        invariant
            i <= s.len(),
            n == count_char(s@.subrange(0, i as int), c),
            n <= i,
        decreases s.len() - i,
    {
        proof {
            assert(s@.subrange(0, i + 1).drop_last() =~= s@.subrange(0, i as int));
        }
        if s[i] == c {
            n = n + 1;
        }
        i = i + 1;
    }
    assert(s@.subrange(0, s.len() as int) =~= s@);
    n
}

/// Expands the home symbol.
fn expand_home_exec(s: &Vec<char>, env: &Vec<(String, String)>) -> (r: Result<Vec<char>, RvError>)
    ensures
        match r {
            Ok(p) => expand_home(s@, env_view(env@)) == Ok::<Seq<char>, RvErr>(p@),
            Err(e) => expand_home(s@, env_view(env@)) == Err::<Seq<char>, RvErr>(e@),
        },
{
    let n = count_char_exec(s, '~');
    let tp = vec!['~', '/'];
    let t = vec!['~'];
    assert(tp@ =~= seq!['~', '/']);
    assert(t@ =~= seq!['~']);
    if n > 1 {
        return Err(RvError::Path(PathError::MultipleHomeSymbols(string_of(s))));
    }
    let has_tp = chars_starts_with(s, &tp);
    let is_t = chars_eq(s, &t);
    if n == 1 && !has_tp && !is_t {
        return Err(RvError::Path(PathError::InvalidExpansion(string_of(s))));
    }
    if n == 1 {
        let hn = vec!['H', 'O', 'M', 'E'];
        assert(hn@ =~= home_name());
        match env_var(env, &hn) {
            None => Err(RvError::EnvVarNotFound(string_of(&hn))),
            Some(h) => {
                if is_t {
                    Ok(h)
                } else {
                    let rest = sub_chars(s, 2, s.len());
                    Ok(mash_chars(&h, &rest))
                }
            },
        }
    } else {
        Ok(s.clone())
    }
}

/// The first index at or after `i` holding a `$`, else the length.
fn next_dollar_exec(s: &Vec<char>, i: usize) -> (r: usize)
    requires
        i <= s.len(),
    ensures
        r == next_dollar(s@, i as int),
        i <= r <= s.len(),
{
    let mut k = i;
    while k < s.len()
        invariant
            i <= k <= s.len(),
            next_dollar(s@, i as int) == next_dollar(s@, k as int),
        decreases s.len() - k,
    {
        if s[k] == '$' {
            return k;
        }
        k = k + 1;
    }
    k
}

/// The first index at or after `i` holding a `$` or a `}`, else the length.
fn var_end_exec(s: &Vec<char>, i: usize) -> (r: usize)
    requires
        i <= s.len(),
    ensures
        r == var_end(s@, i as int),
        i <= r <= s.len(),
{
    let mut k = i;
    while k < s.len()
        invariant
            i <= k <= s.len(),
            var_end(s@, i as int) == var_end(s@, k as int),
        decreases s.len() - k,
    {
        if s[k] == '$' || s[k] == '}' {
            return k;
        }
        k = k + 1;
    }
    k
}

/// Expands the variables of a segment from index `i` on.
fn expand_seg_exec(seg: &Vec<char>, i: usize, env: &Vec<(String, String)>) -> (r: Result<
    Vec<char>,
    RvError,
>)
    requires
        i <= seg.len(),
    ensures
        match r {
            Ok(p) => expand_seg(seg@, i as int, env_view(env@)) == Ok::<Seq<char>, RvErr>(p@),
            Err(e) => expand_seg(seg@, i as int, env_view(env@)) == Err::<Seq<char>, RvErr>(e@),
        },
    decreases seg.len() - i,
{
    if i >= seg.len() {
        return Ok(Vec::new());
    }
    let j = next_dollar_exec(seg, i);
    let lit = sub_chars(seg, i, j);
    if j >= seg.len() || j + 1 >= seg.len() {
        return Ok(lit);
    }
    let k1 = if seg[j + 1] == '{' {
        j + 2
    } else {
        j + 1
    };
    let k2 = var_end_exec(seg, k1);
    let var = sub_chars(seg, k1, k2);
    let k3 = if k2 < seg.len() && seg[k2] == '}' {
        k2 + 1
    } else {
        k2
    };
    if var.len() == 0 {
        return Err(RvError::Path(PathError::InvalidExpansion(string_of(seg))));
    }
    match env_var(env, &var) {
        None => Err(RvError::EnvVarNotFound(string_of(&var))),
        Some(v) => {
            match expand_seg_exec(seg, k3, env) {
                Ok(rest) => {
                    let mut out = lit;
                    extend_chars(&mut out, &v);
                    extend_chars(&mut out, &rest);
                    Ok(out)
                },
                Err(e) => Err(e),
            }
        },
    }
}

/// Expands the text pushed for one component.
fn expand_piece_exec(c: &Comp, env: &Vec<(String, String)>) -> (r: Result<Vec<char>, RvError>)
    ensures
        match r {
            Ok(p) => expand_piece(c@, env_view(env@)) == Ok::<Seq<char>, RvErr>(p@),
            Err(e) => expand_piece(c@, env_view(env@)) == Err::<Seq<char>, RvErr>(e@),
        },
{
    match c {
        Comp::Normal(seg) => expand_seg_exec(seg, 0, env),
        _ => Ok(crate::path::comp_chars(c)),
    }
}

/// Expands every component of `cs` and pushes the results in order.
fn expand_comps_exec(cs: &Vec<Comp>, env: &Vec<(String, String)>) -> (r: Result<
    Vec<char>,
    RvError,
>)
    ensures
        match r {
            Ok(p) => expand_comps(cview(cs@), env_view(env@)) == Ok::<Seq<char>, RvErr>(p@),
            Err(e) => expand_comps(cview(cs@), env_view(env@)) == Err::<Seq<char>, RvErr>(e@),
        },
{
    let mut acc: Vec<char> = Vec::new();
    let mut i: usize = 0;
    while i < cs.len()
        invariant
            i <= cs.len(),
            expand_comps(cview(cs@).subrange(0, i as int), env_view(env@)) == Ok::<
                Seq<char>,
                RvErr,
            >(acc@),
        decreases cs.len() - i,
    {
        proof {
            let sub = cview(cs@).subrange(0, i + 1);
            assert(sub.drop_last() =~= cview(cs@).subrange(0, i as int));
            assert(sub.last() == cs@[i as int]@);
        }
        match expand_piece_exec(&cs[i], env) {
            Err(e) => {
                proof {
                    lemma_expand_comps_err_prefix(cview(cs@), env_view(env@), i + 1, e@);
                }
                return Err(e);
            },
            Ok(x) => {
                push_seg(&mut acc, &x);
            },
        }
        i = i + 1;
    }
    assert(cview(cs@).subrange(0, cs.len() as int) =~= cview(cs@));
    Ok(acc)
}

/// An error met while expanding a prefix of the components is the error of the whole.
proof fn lemma_expand_comps_err_prefix(
    cs: Seq<PComp>,
    env: Seq<(Seq<char>, Seq<char>)>,
    n: int,
    e: RvErr,
)
    requires
        0 <= n <= cs.len(),
        expand_comps(cs.subrange(0, n), env) == Err::<Seq<char>, RvErr>(e),
    ensures
        expand_comps(cs, env) == Err::<Seq<char>, RvErr>(e),
    decreases cs.len() - n,
{
    if n < cs.len() {
        let sub = cs.subrange(0, n + 1);
        assert(sub.drop_last() =~= cs.subrange(0, n));
        lemma_expand_comps_err_prefix(cs, env, n + 1, e);
    } else {
        assert(cs.subrange(0, n) =~= cs);
    }
}

/// Expands the home symbol `~` and the environment variables in the path, with the values that
/// the given environment holds.
///
/// ### Errors
/// * PathError::MultipleHomeSymbols when more than one `~` is given
/// * PathError::InvalidExpansion when `~` is not at the start, or a `$` names no variable
/// * EnvVarNotFound when a variable, `HOME` included, is not set
pub fn expand_in(path: &str, env: &Vec<(String, String)>) -> (r: Result<String, RvError>)
    ensures
        match r {
            Ok(p) => expand_spec(path@, env_view(env@)) == Ok::<Seq<char>, RvErr>(p@),
            Err(e) => expand_spec(path@, env_view(env@)) == Err::<Seq<char>, RvErr>(e@),
        },
{
    let s = chars_of(path);
    match expand_chars(&s, env) {
        Ok(v) => Ok(string_of(&v)),
        Err(e) => Err(e),
    }
}

/// `expand_in` on character vectors.
pub fn expand_chars(s: &Vec<char>, env: &Vec<(String, String)>) -> (r: Result<Vec<char>, RvError>)
    ensures
        match r {
            Ok(p) => expand_spec(s@, env_view(env@)) == Ok::<Seq<char>, RvErr>(p@),
            Err(e) => expand_spec(s@, env_view(env@)) == Err::<Seq<char>, RvErr>(e@),
        },
{
    let p = match expand_home_exec(s, env) {
        Ok(p) => p,
        Err(e) => return Err(e),
    };
    if count_char_exec(&p, '$') > 0 {
        let cs = components_of(&p);
        expand_comps_exec(&cs, env)
    } else {
        Ok(p)
    }
}


/// A path holding neither `~` nor `$` expands to itself, whatever the environment.
pub proof fn lemma_expand_plain(s: Seq<char>, env: Seq<(Seq<char>, Seq<char>)>)
    requires
        count_char(s, '~') == 0,
        count_char(s, '$') == 0,
    ensures
        expand_spec(s, env) == Ok::<Seq<char>, RvErr>(s),
{
}

} // verus!
