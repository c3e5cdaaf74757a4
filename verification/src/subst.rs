//! Variable substitution: one left-to-right scan of the string replaces
//! every placeholder `${name}` whose name the table binds by the bound
//! value, literally. A substituted value is never itself rescanned, and a
//! placeholder whose name is not bound is left unchanged.

use crate::config::{BindingView, VarTable};
use vstd::prelude::*;

verus! {

/// The placeholder text for variable `name`: the name wrapped in `${` and `}`.
pub open spec fn placeholder_spec(name: Seq<char>) -> Seq<char> {
    seq!['$', '{'] + name + seq!['}']
}

/// Whether `pat` occurs in `s` starting at position `i`.
pub open spec fn match_at(s: Seq<char>, pat: Seq<char>, i: int) -> bool {
    0 <= i && i + pat.len() <= s.len() && s.subrange(i, i + pat.len() as int) == pat
}

/// Whether `pat` occurs anywhere in `s`.
pub open spec fn occurs(s: Seq<char>, pat: Seq<char>) -> bool {
    exists|i: int| match_at(s, pat, i)
}

/// The length of the prefix of `s` before its first closing brace: `s.len()`
/// if `s` has none.
pub open spec fn close_pos(s: Seq<char>) -> nat
    decreases s.len(),
{
    if s.len() == 0 {
        0
    } else if s[0] == '}' {
        0
    } else {
        1 + close_pos(s.drop_first())
    }
}

/// The prefix before the first closing brace is no longer than the string.
pub proof fn lemma_close_pos_bound(s: Seq<char>)
    ensures
        close_pos(s) <= s.len(),
    decreases s.len(),
{
    if s.len() > 0 && s[0] != '}' {
        lemma_close_pos_bound(s.drop_first());
    }
}

/// `close_pos` is the position of the first closing brace when one exists,
/// and everything before it is another character.
proof fn lemma_close_pos_char(t: Seq<char>, k: int)
    requires
        0 <= k <= t.len(),
        forall|m: int| 0 <= m < k ==> t[m] != '}',
        k == t.len() || t[k] == '}',
    ensures
        close_pos(t) == k,
    decreases k,
{
    if k > 0 {
        assert(t[0] != '}');
        assert forall|m: int| 0 <= m < k - 1 implies t.drop_first()[m] != '}' by {
            assert(t.drop_first()[m] == t[m + 1]);
        }
        if k < t.len() {
            assert(t.drop_first()[k - 1] == t[k]);
        }
        lemma_close_pos_char(t.drop_first(), k - 1);
    }
}

/// When a closing brace exists, it stands at `close_pos` and nowhere
/// earlier.
proof fn lemma_close_pos_found(t: Seq<char>)
    requires
        close_pos(t) < t.len(),
    ensures
        t[close_pos(t) as int] == '}',
        forall|m: int| 0 <= m < close_pos(t) ==> t[m] != '}',
    decreases t.len(),
{
    if t.len() > 0 && t[0] != '}' {
        lemma_close_pos_found(t.drop_first());
        assert forall|m: int| 0 <= m < close_pos(t) implies t[m] != '}' by {
            if m > 0 {
                assert(t.drop_first()[m - 1] == t[m]);
            }
        }
        assert(t[close_pos(t) as int] == t.drop_first()[close_pos(t.drop_first()) as int]);
    }
}

/// The value, if any, that the table binds to `name`: the first binding
/// with a matching name.
pub open spec fn vars_lookup(vars: Seq<BindingView>, name: Seq<char>) -> Option<Seq<char>>
    decreases vars.len(),
{
    if vars.len() == 0 {
        None
    } else if vars[0].name == name {
        Some(vars[0].value)
    } else {
        vars_lookup(vars.drop_first(), name)
    }
}

/// A name the table binds is the name of one of its bindings.
proof fn lemma_vars_lookup_some(vars: Seq<BindingView>, name: Seq<char>)
    requires
        vars_lookup(vars, name) is Some,
    ensures
        exists|k: int| 0 <= k < vars.len() && (#[trigger] vars[k].name) == name,
    decreases vars.len(),
{
    if vars.len() > 0 {
        if vars[0].name == name {
            assert(vars[0].name == name);
        } else {
            lemma_vars_lookup_some(vars.drop_first(), name);
            let k = choose|k: int|
                0 <= k < vars.drop_first().len() && (#[trigger] vars.drop_first()[k].name) == name;
            assert(vars[k + 1].name == name);
        }
    }
}

/// One left-to-right scan of `s`: each `${name}` with a bound name becomes
/// the bound value and the scan continues after the placeholder, so a
/// substituted value is never rescanned. After `${` whose candidate name —
/// the text up to the first closing brace — is unbound, only the `${` is
/// emitted and the scan resumes right behind it, so a bound placeholder
/// beginning inside the candidate is still replaced; everything else is
/// copied.
pub open spec fn substitute_spec(s: Seq<char>, vars: Seq<BindingView>) -> Seq<char>
    decreases s.len(),
    via substitute_spec_decreases
{
    if s.len() >= 2 && s[0] == '$' && s[1] == '{' {
        let c = close_pos(s.skip(2));
        if c == s.skip(2).len() {
            s
        } else {
            let name = s.subrange(2, 2 + c as int);
            match vars_lookup(vars, name) {
                Some(val) => val + substitute_spec(s.skip(3 + c as int), vars),
                None => seq!['$', '{'] + substitute_spec(s.skip(2), vars),
            }
        }
    } else if s.len() == 0 {
        s
    } else {
        seq![s[0]] + substitute_spec(s.drop_first(), vars)
    }
}

#[via_fn]
proof fn substitute_spec_decreases(s: Seq<char>, vars: Seq<BindingView>) {
    if s.len() >= 2 && s[0] == '$' && s[1] == '{' {
        lemma_close_pos_bound(s.skip(2));
    }
}

/// The position of the first closing brace at or after `from`, if any.
#[verifier::loop_isolation(false)]
fn brace_end(s: &str, from: usize) -> (r: Option<usize>)
    requires
        from <= s@.len(),
    ensures
        match r {
            Some(j) => {
                &&& from <= j < s@.len()
                &&& close_pos(s@.skip(from as int)) == j - from
            },
            None => close_pos(s@.skip(from as int)) == s@.skip(from as int).len(),
        },
{
    let n = s.unicode_len();
    let ghost t = s@.skip(from as int);
    let mut j: usize = from;
    while j < n
        invariant
            from <= j <= n,
            forall|m: int| from <= m < j ==> s@[m] != '}',
        decreases n - j,
    {
        let c = s.get_char(j);
        if c == '}' {
            proof {
                assert forall|m: int| 0 <= m < j - from implies t[m] != '}' by {
                    assert(t[m] == s@[from + m]);
                }
                assert(t[j - from] == s@[j as int]);
                lemma_close_pos_char(t, j - from);
            }
            return Some(j);
        }
        j = j + 1;
    }
    proof {
        assert forall|m: int| 0 <= m < n - from implies t[m] != '}' by {
            assert(t[m] == s@[from + m]);
        }
        lemma_close_pos_char(t, n - from);
    }
    None
}

/// The value, if any, that the table binds to `name`.
#[verifier::loop_isolation(false)]
fn table_get<'a>(vars: &'a VarTable, name: &String) -> (r: Option<&'a String>)
    ensures
        match r {
            Some(v) => vars_lookup(vars@, name@) == Some(v@),
            None => vars_lookup(vars@, name@) is None,
        },
{
    proof {
        assert(vars@.skip(0) =~= vars@);
    }
    let mut i: usize = 0;
    while i < vars.bindings.len()
        invariant
            i <= vars.bindings.len(),
            vars@.len() == vars.bindings.len(),
            vars_lookup(vars@, name@) == vars_lookup(vars@.skip(i as int), name@),
        decreases vars.bindings.len() - i,
    {
        proof {
            assert(vars@[i as int] == vars.bindings@[i as int]@);
            assert(vars@.skip(i as int)[0] == vars@[i as int]);
            assert(vars@.skip(i as int).drop_first() =~= vars@.skip(i as int + 1));
        }
        if vars.bindings[i].name == *name {
            return Some(&vars.bindings[i].value);
        }
        i = i + 1;
    }
    proof {
        assert(vars@.skip(vars@.len() as int).len() == 0);
    }
    None
}

/// Substitutes every variable of the table into `s`, in one left-to-right
/// scan.
#[verifier::loop_isolation(false)]
pub fn substitute(s: &String, vars: &VarTable) -> (r: String)
    ensures
        r@ == substitute_spec(s@, vars@),
{
    let n = s.as_str().unicode_len();
    let mut out = String::new();
    proof {
        assert(s@.skip(0) =~= s@);
    }
    let mut i: usize = 0;
    while i < n
        invariant
            i <= n,
            n == s@.len(),
            substitute_spec(s@, vars@) == out@ + substitute_spec(s@.skip(i as int), vars@),
        decreases n - i,
    {
        let ghost rest = s@.skip(i as int);
        let c0 = s.as_str().get_char(i);
        if c0 == '$' && i + 1 < n && s.as_str().get_char(i + 1) == '{' {
            proof {
                assert(rest[0] == s@[i as int]);
                assert(rest[1] == s@[i as int + 1]);
                assert(rest.skip(2) =~= s@.skip(i as int + 2));
            }
            match brace_end(s.as_str(), i + 2) {
                None => {
                    let tail = s.as_str().substring_char(i, n);
                    out.append(tail);
                    proof {
                        assert(close_pos(rest.skip(2)) == rest.skip(2).len());
                        assert(substitute_spec(rest, vars@) == rest);
                        assert(tail@ =~= rest);
                        assert(s@.skip(n as int).len() == 0);
                        assert(substitute_spec(s@.skip(n as int), vars@) == s@.skip(n as int));
                        assert(out@ + substitute_spec(s@.skip(n as int), vars@) =~= out@);
                    }
                    i = n;
                },
                Some(j) => {
                    let ghost c = close_pos(rest.skip(2));
                    proof {
                        assert(c == j - i - 2);
                        assert(c < rest.skip(2).len());
                        assert(rest.subrange(2, 2 + c as int) =~= s@.subrange(
                            i as int + 2,
                            j as int,
                        ));
                        assert(rest.skip(3 + c as int) =~= s@.skip(j as int + 1));
                    }
                    let name = s.as_str().substring_char(i + 2, j).to_owned();
                    match table_get(vars, &name) {
                        Some(val) => {
                            out.append(val.as_str());
                            proof {
                                assert(substitute_spec(rest, vars@) == val@ + substitute_spec(
                                    s@.skip(j as int + 1),
                                    vars@,
                                ));
                                assert(out@ + substitute_spec(s@.skip(j as int + 1), vars@)
                                    =~= substitute_spec(s@, vars@));
                            }
                            i = j + 1;
                        },
                        None => {
                            let kept = s.as_str().substring_char(i, i + 2);
                            out.append(kept);
                            proof {
                                assert(kept@ =~= seq![rest[0], rest[1]]);
                                assert(kept@ =~= seq!['$', '{']);
                                assert(substitute_spec(rest, vars@) == seq!['$', '{']
                                    + substitute_spec(s@.skip(i as int + 2), vars@));
                                assert(out@ + substitute_spec(s@.skip(i as int + 2), vars@)
                                    =~= substitute_spec(s@, vars@));
                            }
                            i = i + 2;
                        },
                    }
                },
            }
        } else {
            let one = s.as_str().substring_char(i, i + 1);
            out.append(one);
            proof {
                assert(rest[0] == s@[i as int]);
                assert(rest.len() >= 2 ==> rest[1] == s@[i as int + 1]);
                assert(!(rest.len() >= 2 && rest[0] == '$' && rest[1] == '{'));
                assert(one@ =~= seq![rest[0]]);
                assert(rest.drop_first() =~= s@.skip(i as int + 1));
                assert(substitute_spec(rest, vars@) == seq![rest[0]] + substitute_spec(
                    s@.skip(i as int + 1),
                    vars@,
                ));
                assert(out@ + substitute_spec(s@.skip(i as int + 1), vars@) =~= substitute_spec(
                    s@,
                    vars@,
                ));
            }
            i = i + 1;
        }
    }
    proof {
        assert(s@.skip(n as int).len() == 0);
        assert(substitute_spec(s@.skip(n as int), vars@) == s@.skip(n as int));
        assert(out@ + s@.skip(n as int) =~= out@);
    }
    out
}

/// An occurrence in a suffix is an occurrence in the whole string.
proof fn lemma_occurs_shift(s: Seq<char>, d: int, pat: Seq<char>)
    requires
        0 <= d <= s.len(),
        occurs(s.skip(d), pat),
    ensures
        occurs(s, pat),
{
    let i = choose|i: int| match_at(s.skip(d), pat, i);
    assert(s.subrange(d + i, d + i + pat.len() as int) =~= s.skip(d).subrange(
        i,
        i + pat.len() as int,
    ));
    assert(match_at(s, pat, d + i));
}

/// Substitution is the identity on a string in which no bound variable's
/// placeholder occurs: in particular it is idempotent on any of its outputs
/// that contains no further matching placeholders.
pub proof fn lemma_substitute_no_placeholder(s: Seq<char>, vars: Seq<BindingView>)
    requires
        forall|k: int|
            0 <= k < vars.len() ==> !occurs(s, placeholder_spec(#[trigger] vars[k].name)),
    ensures
        substitute_spec(s, vars) == s,
    decreases s.len(),
{
    if s.len() >= 2 && s[0] == '$' && s[1] == '{' {
        lemma_close_pos_bound(s.skip(2));
        let c = close_pos(s.skip(2));
        if c < s.skip(2).len() {
            let name = s.subrange(2, 2 + c as int);
            lemma_close_pos_found(s.skip(2));
            assert(s[2 + c as int] == s.skip(2)[c as int]);
            if vars_lookup(vars, name) is Some {
                lemma_vars_lookup_some(vars, name);
                let k = choose|k: int| 0 <= k < vars.len() && (#[trigger] vars[k].name) == name;
                assert(s.subrange(0, 3 + c as int) =~= placeholder_spec(name));
                assert(match_at(s, placeholder_spec(name), 0));
                assert(occurs(s, placeholder_spec(vars[k].name)));
                assert(false);
            }
            assert forall|k: int|
                0 <= k < vars.len() implies !occurs(
                s.skip(2),
                placeholder_spec(#[trigger] vars[k].name),
            ) by {
                if occurs(s.skip(2), placeholder_spec(vars[k].name)) {
                    lemma_occurs_shift(s, 2, placeholder_spec(vars[k].name));
                }
            }
            lemma_substitute_no_placeholder(s.skip(2), vars);
            assert(seq!['$', '{'] + s.skip(2) =~= s);
        }
    } else if s.len() > 0 {
        assert forall|k: int|
            0 <= k < vars.len() implies !occurs(
            s.drop_first(),
            placeholder_spec(#[trigger] vars[k].name),
        ) by {
            if occurs(s.drop_first(), placeholder_spec(vars[k].name)) {
                assert(s.drop_first() =~= s.skip(1));
                lemma_occurs_shift(s, 1, placeholder_spec(vars[k].name));
            }
        }
        lemma_substitute_no_placeholder(s.drop_first(), vars);
        assert(seq![s[0]] + s.drop_first() =~= s);
    }
}

/// Substitution with an empty variable table changes nothing: every
/// placeholder's name is unbound and is left in place.
pub proof fn lemma_substitute_empty(s: Seq<char>)
    ensures
        substitute_spec(s, Seq::<BindingView>::empty()) == s,
    decreases s.len(),
{
    let vars = Seq::<BindingView>::empty();
    if s.len() >= 2 && s[0] == '$' && s[1] == '{' {
        lemma_close_pos_bound(s.skip(2));
        let c = close_pos(s.skip(2));
        if c < s.skip(2).len() {
            lemma_substitute_empty(s.skip(2));
            assert(seq!['$', '{'] + s.skip(2) =~= s);
        }
    } else if s.len() > 0 {
        lemma_substitute_empty(s.drop_first());
        assert(seq![s[0]] + s.drop_first() =~= s);
    }
}

} // verus!
