//! The resolution engine: given a requested target, walk its dependencies
//! depth-first (each target at most once), detect cycles, substitute
//! variables into step strings, and produce the ordered list of commands to
//! execute. Errors are fail-fast: the walk stops at the first one.
//!
//! The engine itself runs no subprocess: it plans. The caller executes the
//! planned commands in order, stopping at the first failure, and only when
//! every command has succeeded does the engine's own outcome apply.

use crate::config::{clone_names, contains_name, lookup_spec, BindingView, Config, EntryView,
    TargetView, VarTable};
use crate::subst::{substitute, substitute_spec};
use vstd::prelude::*;

verus! {

/// A failure of a run: a missing target, a dependency cycle (with the
/// resolution path that closed it), a step whose subprocess exited
/// unsuccessfully, or a step whose subprocess could not be started.
pub enum RunError {
    TargetNotFound { name: String },
    DependencyCycle { path: Vec<String> },
    CommandFailed { command: String },
    SpawnFailure { command: String, message: String },
}

/// The mathematical value of a [`RunError`].
pub ghost enum ErrorView {
    TargetNotFound { name: Seq<char> },
    DependencyCycle { path: Seq<Seq<char>> },
    CommandFailed { command: Seq<char> },
    SpawnFailure { command: Seq<char>, message: Seq<char> },
}

impl View for RunError {
    type V = ErrorView;

    open spec fn view(&self) -> ErrorView {
        match self {
            RunError::TargetNotFound { name } => ErrorView::TargetNotFound { name: name@ },
            RunError::DependencyCycle { path } => ErrorView::DependencyCycle {
                path: path.deep_view(),
            },
            RunError::CommandFailed { command } => ErrorView::CommandFailed { command: command@ },
            RunError::SpawnFailure { command, message } => ErrorView::SpawnFailure {
                command: command@,
                message: message@,
            },
        }
    }
}

/// The whitespace characters on which a command string is split: the
/// characters with the Unicode White_Space property, as
/// `char::is_whitespace` accepts them.
pub open spec fn is_space_char(c: char) -> bool {
    ||| c == '\u{0009}'
    ||| c == '\u{000A}'
    ||| c == '\u{000B}'
    ||| c == '\u{000C}'
    ||| c == '\u{000D}'
    ||| c == '\u{0020}'
    ||| c == '\u{0085}'
    ||| c == '\u{00A0}'
    ||| c == '\u{1680}'
    ||| c == '\u{2000}'
    ||| c == '\u{2001}'
    ||| c == '\u{2002}'
    ||| c == '\u{2003}'
    ||| c == '\u{2004}'
    ||| c == '\u{2005}'
    ||| c == '\u{2006}'
    ||| c == '\u{2007}'
    ||| c == '\u{2008}'
    ||| c == '\u{2009}'
    ||| c == '\u{200A}'
    ||| c == '\u{2028}'
    ||| c == '\u{2029}'
    ||| c == '\u{202F}'
    ||| c == '\u{205F}'
    ||| c == '\u{3000}'
}

/// Whether `c` is one of the whitespace characters on which commands split.
fn is_space(c: char) -> (r: bool)
    ensures
        r == is_space_char(c),
{
    c == '\u{0009}' || c == '\u{000A}' || c == '\u{000B}' || c == '\u{000C}' || c == '\u{000D}'
        || c == '\u{0020}' || c == '\u{0085}' || c == '\u{00A0}' || c == '\u{1680}'
        || c == '\u{2000}' || c == '\u{2001}' || c == '\u{2002}' || c == '\u{2003}'
        || c == '\u{2004}' || c == '\u{2005}' || c == '\u{2006}' || c == '\u{2007}'
        || c == '\u{2008}' || c == '\u{2009}' || c == '\u{200A}' || c == '\u{2028}'
        || c == '\u{2029}' || c == '\u{202F}' || c == '\u{205F}' || c == '\u{3000}'
}

/// The length of the leading run of non-whitespace characters of `s`.
pub open spec fn word_len(s: Seq<char>) -> nat
    decreases s.len(),
{
    if s.len() == 0 || is_space_char(s[0]) {
        0
    } else {
        1 + word_len(s.drop_first())
    }
}

/// The leading run of non-whitespace characters is no longer than the string.
pub proof fn lemma_word_len_bound(s: Seq<char>)
    ensures
        word_len(s) <= s.len(),
    decreases s.len(),
{
    if s.len() > 0 && !is_space_char(s[0]) {
        lemma_word_len_bound(s.drop_first());
    }
}

/// The words of `s`: maximal runs of non-whitespace characters, in order.
pub open spec fn split_spec(s: Seq<char>) -> Seq<Seq<char>>
    decreases s.len(),
    via split_spec_decreases
{
    if s.len() == 0 {
        Seq::empty()
    } else if is_space_char(s[0]) {
        split_spec(s.drop_first())
    } else {
        seq![s.subrange(0, word_len(s) as int)] + split_spec(s.skip(word_len(s) as int))
    }
}

#[via_fn]
proof fn split_spec_decreases(s: Seq<char>) {
    if s.len() > 0 && !is_space_char(s[0]) {
        lemma_word_len_bound(s);
    }
}

/// A string has `word_len` leading word characters exactly when the first
/// `k` characters are non-whitespace and the next one (if any) is whitespace.
proof fn lemma_word_len_char(t: Seq<char>, k: int)
    requires
        0 <= k <= t.len(),
        forall|m: int| 0 <= m < k ==> !is_space_char(t[m]),
        k == t.len() || is_space_char(t[k]),
    ensures
        word_len(t) == k,
    decreases k,
{
    if k > 0 {
        assert(!is_space_char(t[0]));
        assert forall|m: int| 0 <= m < k - 1 implies !is_space_char(t.drop_first()[m]) by {
            assert(t.drop_first()[m] == t[m + 1]);
        }
        if k < t.len() {
            assert(t.drop_first()[k - 1] == t[k]);
        }
        lemma_word_len_char(t.drop_first(), k - 1);
    }
}

/// The position after the word that starts at `i`.
fn word_end(s: &str, i: usize) -> (j: usize)
    requires
        i < s@.len(),
        !is_space_char(s@[i as int]),
    ensures
        i < j <= s@.len(),
        word_len(s@.skip(i as int)) == j - i,
{
    let n = s.unicode_len();
    let mut j: usize = i;
    while j < n
        invariant
            i <= j <= n,
            n == s@.len(),
            !is_space_char(s@[i as int]),
            forall|m: int| i <= m < j ==> !is_space_char(s@[m]),
        decreases n - j,
    {
        let c = s.get_char(j);
        if is_space(c) {
            proof {
                assert(is_space_char(s@[j as int]));
                assert(j > i);
                let t = s@.skip(i as int);
                assert forall|m: int| 0 <= m < j - i implies !is_space_char(t[m]) by {
                    assert(t[m] == s@[i + m]);
                }
                assert(t[j - i] == s@[j as int]);
                lemma_word_len_char(t, j - i);
            }
            return j;
        }
        j = j + 1;
    }
    proof {
        let t = s@.skip(i as int);
        assert forall|m: int| 0 <= m < n - i implies !is_space_char(t[m]) by {
            assert(t[m] == s@[i + m]);
        }
        lemma_word_len_char(t, n - i);
    }
    n
}

/// A copy of a vector, equal element by element, with one more element at
/// the end.
proof fn lemma_vec_deep_view_push(v1: Vec<String>, v2: Vec<String>, x: String)
    requires
        v2@ == v1@.push(x),
    ensures
        v2.deep_view() =~= v1.deep_view().push(x@),
{
    assert forall|j: int| 0 <= j < v2@.len() implies v2.deep_view()[j] == v1.deep_view().push(
        x@,
    )[j] by {
        if j < v1@.len() {
            assert(v2@[j] == v1@[j]);
        } else {
            assert(v2@[j] == x);
        }
    }
}

/// Removing the last element of a vector removes the last element of its
/// view as a sequence of sequences.
proof fn lemma_vec_deep_view_drop_last(v1: Vec<String>, v2: Vec<String>)
    requires
        v1@.len() > 0,
        v2@ == v1@.drop_last(),
    ensures
        v2.deep_view() =~= v1.deep_view().drop_last(),
{
    let dropped = v1.deep_view().drop_last();
    assert forall|j: int| 0 <= j < v2@.len() implies v2.deep_view()[j] == dropped[j] by {
        assert(v2@[j] == v1@[j]);
    }
}

/// Splits a command string into its program name and arguments, by
/// whitespace. An empty result means the command is a silent no-op.
pub fn split_command(s: &str) -> (r: Vec<String>)
    ensures
        r.deep_view() == split_spec(s@),
{
    let n = s.unicode_len();
    let mut r: Vec<String> = Vec::new();
    proof {
        assert(s@.skip(0) =~= s@);
    }
    let mut i: usize = 0;
    while i < n
        invariant
            i <= n,
            n == s@.len(),
            split_spec(s@) == r.deep_view() + split_spec(s@.skip(i as int)),
        decreases n - i,
    {
        let ghost rest = s@.skip(i as int);
        let c = s.get_char(i);
        if is_space(c) {
            proof {
                assert(is_space_char(rest[0]));
                assert(rest.drop_first() =~= s@.skip(i as int + 1));
            }
            i = i + 1;
        } else {
            proof {
                assert(!is_space_char(rest[0]));
            }
            let j = word_end(s, i);
            let w = s.substring_char(i, j).to_owned();
            let ghost before = r;
            r.push(w);
            proof {
                lemma_vec_deep_view_push(before, r, w);
                assert(rest.subrange(0, (j - i) as int) =~= s@.subrange(i as int, j as int));
                assert(rest.skip((j - i) as int) =~= s@.skip(j as int));
                assert(split_spec(rest) == seq![w@] + split_spec(s@.skip(j as int)));
                assert(before.deep_view() + (seq![w@] + split_spec(s@.skip(j as int)))
                    =~= r.deep_view() + split_spec(s@.skip(j as int)));
            }
            i = j;
        }
    }
    proof {
        assert(s@.skip(n as int).len() == 0);
        assert(r.deep_view() + split_spec(s@.skip(n as int)) =~= r.deep_view());
    }
    r
}

/// Whether a substituted command actually runs anything: it has at least one
/// word. An all-whitespace or empty command is a silent no-op.
pub open spec fn runnable(c: Seq<char>) -> bool {
    split_spec(c).len() > 0
}

/// The commands a target's steps contribute, in order: each step with the
/// variable table substituted in, blank steps dropped.
pub open spec fn steps_cmds(steps: Seq<Seq<char>>, vars: Seq<BindingView>) -> Seq<Seq<char>>
    decreases steps.len(),
{
    if steps.len() == 0 {
        Seq::empty()
    } else {
        let c = substitute_spec(steps[0], vars);
        (if runnable(c) {
            seq![c]
        } else {
            Seq::empty()
        }) + steps_cmds(steps.drop_first(), vars)
    }
}

/// The set of target names the configuration defines.
pub open spec fn key_set(cfg: Seq<EntryView>) -> Set<Seq<char>> {
    cfg.map_values(|e: EntryView| e.name).to_set()
}

/// A name that resolves to a target is one of the configuration's names.
pub proof fn lemma_lookup_in_keys(cfg: Seq<EntryView>, name: Seq<char>)
    requires
        lookup_spec(cfg, name) is Some,
    ensures
        key_set(cfg).contains(name),
    decreases cfg.len(),
{
    let names = cfg.map_values(|e: EntryView| e.name);
    if cfg.len() > 0 {
        if cfg[0].name == name {
            assert(names[0] == name);
            assert(names.contains(name));
        } else {
            lemma_lookup_in_keys(cfg.drop_first(), name);
            let rest = cfg.drop_first().map_values(|e: EntryView| e.name);
            assert(rest.contains(name));
            let k = choose|k: int| 0 <= k < rest.len() && rest[k] == name;
            assert(names[k + 1] == name);
            assert(names.contains(name));
        }
    }
}

/// How many defined targets are not yet on the resolution stack: the
/// termination measure of the walk.
pub open spec fn free_targets(cfg: Seq<EntryView>, stack: Seq<Seq<char>>) -> nat {
    key_set(cfg).difference(stack.to_set()).len()
}

/// Pushing a defined target that is not yet on the stack shrinks the
/// measure.
pub proof fn lemma_push_free_targets(cfg: Seq<EntryView>, stack: Seq<Seq<char>>, name: Seq<char>)
    requires
        key_set(cfg).contains(name),
        !stack.contains(name),
    ensures
        free_targets(cfg, stack.push(name)) < free_targets(cfg, stack),
{
    broadcast use vstd::seq_lib::seq_to_set_is_finite;

    stack.lemma_push_to_set_commute(name);
    assert(stack.push(name).to_set() =~= stack.to_set().insert(name));
    key_set(cfg).lemma_set_insert_diff_decreases(stack.to_set(), name);
}

/// The outcome of resolving one target: the visited set after the walk, the
/// planned commands so far in execution order, and success or the error.
pub ghost struct RunView {
    pub visited: Seq<Seq<char>>,
    pub cmds: Seq<Seq<char>>,
    pub outcome: Result<(), ErrorView>,
}

/// Resolution of the target `name`: fails if `name` is undefined; succeeds
/// at once if already visited; fails if `name` is already on the resolution
/// stack (a cycle, reported as the path that closed it); otherwise resolves
/// each dependency in order, then appends the target's own commands and
/// marks it visited.
pub open spec fn run_spec(
    cfg: Seq<EntryView>,
    vars: Seq<BindingView>,
    name: Seq<char>,
    visited: Seq<Seq<char>>,
    stack: Seq<Seq<char>>,
    cmds: Seq<Seq<char>>,
) -> RunView
    decreases free_targets(cfg, stack), 0nat, 0nat,
    via run_spec_decreases
{
    match lookup_spec(cfg, name) {
        None => RunView {
            visited: visited,
            cmds: cmds,
            outcome: Err(ErrorView::TargetNotFound { name: name }),
        },
        Some(t) => {
            if visited.contains(name) {
                RunView { visited: visited, cmds: cmds, outcome: Ok(()) }
            } else if stack.contains(name) {
                RunView {
                    visited: visited,
                    cmds: cmds,
                    outcome: Err(ErrorView::DependencyCycle { path: stack.push(name) }),
                }
            } else {
                let after = run_deps_spec(cfg, vars, t.deps, visited, stack.push(name), cmds);
                if after.outcome is Ok {
                    RunView {
                        visited: after.visited.push(name),
                        cmds: after.cmds + steps_cmds(t.steps, vars),
                        outcome: Ok(()),
                    }
                } else {
                    after
                }
            }
        },
    }
}

/// Resolution of a list of dependencies, in order, fail-fast.
pub open spec fn run_deps_spec(
    cfg: Seq<EntryView>,
    vars: Seq<BindingView>,
    deps: Seq<Seq<char>>,
    visited: Seq<Seq<char>>,
    stack: Seq<Seq<char>>,
    cmds: Seq<Seq<char>>,
) -> RunView
    decreases free_targets(cfg, stack), 1nat, deps.len(),
{
    if deps.len() == 0 {
        RunView { visited: visited, cmds: cmds, outcome: Ok(()) }
    } else {
        let first = run_spec(cfg, vars, deps[0], visited, stack, cmds);
        if first.outcome is Ok {
            run_deps_spec(cfg, vars, deps.drop_first(), first.visited, stack, first.cmds)
        } else {
            first
        }
    }
}

impl Config {
    /// Resolves and plans the target `name`, exactly as [`run_spec`] says:
    /// dependencies first, each target at most once, cycles and missing
    /// targets reported fail-fast. On return `visited` holds the targets
    /// fully planned, `cmds` the commands to execute in order, and `stack`
    /// is as it was.
    #[verifier::loop_isolation(false)]
    pub fn run_target(
        &self,
        name: &String,
        vars: &VarTable,
        visited: &mut Vec<String>,
        stack: &mut Vec<String>,
        cmds: &mut Vec<String>,
    ) -> (r: Result<(), RunError>)
        ensures
            ({
                let res = run_spec(
                    self@,
                    vars@,
                    name@,
                    old(visited).deep_view(),
                    old(stack).deep_view(),
                    old(cmds).deep_view(),
                );
                &&& final(stack).deep_view() == old(stack).deep_view()
                &&& final(visited).deep_view() == res.visited
                &&& final(cmds).deep_view() == res.cmds
                &&& (match r {
                    Ok(()) => res.outcome is Ok,
                    Err(e) => res.outcome == Err::<(), ErrorView>(e@),
                })
            }),
        decreases free_targets(self@, old(stack).deep_view()),
    {
        let ghost v0 = old(visited).deep_view();
        let ghost s0 = old(stack).deep_view();
        let ghost c0 = old(cmds).deep_view();
        let ghost res = run_spec(self@, vars@, name@, v0, s0, c0);
        let tgt = match self.lookup(name) {
            None => {
                return Err(RunError::TargetNotFound { name: name.clone() });
            },
            Some(t) => t,
        };
        if contains_name(visited, name) {
            return Ok(());
        }
        if contains_name(stack, name) {
            let mut path = clone_names(stack);
            proof {
                assert(path.deep_view() == s0);
            }
            let ghost unpushed = path;
            path.push(name.clone());
            proof {
                lemma_vec_deep_view_push(unpushed, path, *name);
                assert(path.deep_view() =~= s0.push(name@));
            }
            return Err(RunError::DependencyCycle { path });
        }
        let ghost prestack = *stack;
        stack.push(name.clone());
        proof {
            lemma_vec_deep_view_push(prestack, *stack, *name);
            assert(stack.deep_view() =~= s0.push(name@));
            assert(tgt@.deps.skip(0) =~= tgt@.deps);
        }
        let ghost sp = s0.push(name@);
        let ghost after = run_deps_spec(self@, vars@, tgt@.deps, v0, sp, c0);
        let mut k: usize = 0;
        while k < tgt.deps.len()
            invariant
                k <= tgt.deps.len(),
                tgt@.deps.len() == tgt.deps.len(),
                tgt@.deps == tgt.deps.deep_view(),
                stack.deep_view() == sp,
                sp == s0.push(name@),
                after == run_deps_spec(self@, vars@, tgt@.deps, v0, sp, c0),
                after == run_deps_spec(
                    self@,
                    vars@,
                    tgt@.deps.skip(k as int),
                    visited.deep_view(),
                    sp,
                    cmds.deep_view(),
                ),
            decreases tgt.deps.len() - k,
        {
            let ghost depsrest = tgt@.deps.skip(k as int);
            let ghost vpre = visited.deep_view();
            let ghost cpre = cmds.deep_view();
            let ghost depres = run_spec(self@, vars@, tgt@.deps[k as int], vpre, sp, cpre);
            proof {
                assert(depsrest[0] == tgt@.deps[k as int]);
                assert(depsrest.drop_first() =~= tgt@.deps.skip(k as int + 1));
                lemma_lookup_in_keys(self@, name@);
                lemma_push_free_targets(self@, s0, name@);
            }
            let dep = &tgt.deps[k];
            proof {
                assert(dep@ == tgt@.deps[k as int]);
            }
            let r = self.run_target(dep, vars, visited, stack, cmds);
            match r {
                Err(e) => {
                    proof {
                        assert(after == depres);
                    }
                    let ghost popstack = *stack;
                    let _ = stack.pop();
                    proof {
                        lemma_vec_deep_view_drop_last(popstack, *stack);
                        assert(sp.drop_last() =~= s0);
                    }
                    return Err(e);
                },
                Ok(()) => {},
            }
            k = k + 1;
        }
        proof {
            assert(tgt@.deps.skip(tgt@.deps.len() as int).len() == 0);
            assert(after.visited == visited.deep_view());
            assert(after.cmds == cmds.deep_view());
            assert(after.outcome is Ok);
            assert(tgt@.steps.skip(0) =~= tgt@.steps);
        }
        let mut j: usize = 0;
        while j < tgt.steps.len()
            invariant
                j <= tgt.steps.len(),
                tgt@.steps.len() == tgt.steps.len(),
                tgt@.steps == tgt.steps.deep_view(),
                stack.deep_view() == sp,
                sp == s0.push(name@),
                visited.deep_view() == after.visited,
                after.cmds + steps_cmds(tgt@.steps, vars@) == cmds.deep_view() + steps_cmds(
                    tgt@.steps.skip(j as int),
                    vars@,
                ),
            decreases tgt.steps.len() - j,
        {
            let ghost stepsrest = tgt@.steps.skip(j as int);
            let cmd = substitute(&tgt.steps[j], vars);
            proof {
                assert(tgt@.steps[j as int] == tgt.steps@[j as int]@);
                assert(cmd@ == substitute_spec(tgt@.steps[j as int], vars@));
                assert(stepsrest[0] == tgt@.steps[j as int]);
                assert(stepsrest.drop_first() =~= tgt@.steps.skip(j as int + 1));
            }
            let parts = split_command(cmd.as_str());
            proof {
                assert(parts.deep_view().len() == split_spec(cmd@).len());
                assert(steps_cmds(stepsrest, vars@) == (if runnable(cmd@) {
                    seq![cmd@]
                } else {
                    Seq::<Seq<char>>::empty()
                }) + steps_cmds(tgt@.steps.skip(j as int + 1), vars@));
            }
            if parts.len() > 0 {
                let ghost precmds = *cmds;
                let ghost cmdsnap = cmd;
                cmds.push(cmd);
                proof {
                    lemma_vec_deep_view_push(precmds, *cmds, cmdsnap);
                    assert(precmds.deep_view() + (seq![cmdsnap@] + steps_cmds(
                        tgt@.steps.skip(j as int + 1),
                        vars@,
                    )) =~= cmds.deep_view() + steps_cmds(tgt@.steps.skip(j as int + 1), vars@));
                }
            } else {
                proof {
                    assert(!runnable(cmd@));
                    assert(Seq::<Seq<char>>::empty() + steps_cmds(
                        tgt@.steps.skip(j as int + 1),
                        vars@,
                    ) =~= steps_cmds(tgt@.steps.skip(j as int + 1), vars@));
                }
            }
            j = j + 1;
        }
        proof {
            assert(tgt@.steps.skip(tgt@.steps.len() as int).len() == 0);
            assert(cmds.deep_view() + steps_cmds(tgt@.steps.skip(tgt@.steps.len() as int), vars@)
                =~= cmds.deep_view());
        }
        let ghost previsited = *visited;
        visited.push(name.clone());
        proof {
            lemma_vec_deep_view_push(previsited, *visited, *name);
            assert(visited.deep_view() =~= after.visited.push(name@));
        }
        let ghost popstack = *stack;
        let _ = stack.pop();
        proof {
            lemma_vec_deep_view_drop_last(popstack, *stack);
            assert(sp.drop_last() =~= s0);
            assert(res.visited == after.visited.push(name@));
            assert(res.cmds == after.cmds + steps_cmds(tgt@.steps, vars@));
            assert(res.outcome is Ok);
        }
        Ok(())
    }
}

/// The target resolved when the caller names none.
pub fn default_target() -> (r: String)
    ensures
        r@ == "all"@,
{
    "all".to_owned()
}

/// The engine's verdict on one executed command: a successful exit lets the
/// run proceed; any other exit fails the whole run at once, with the
/// command's text.
pub fn step_outcome(exit_ok: bool, command: &String) -> (r: Result<(), RunError>)
    ensures
        (r is Ok <==> exit_ok),
        (!exit_ok ==> (r matches Err(e) && e@ == ErrorView::CommandFailed { command: command@ })),
{
    if exit_ok {
        Ok(())
    } else {
        Err(RunError::CommandFailed { command: command.clone() })
    }
}

/// The failure reported when a command's program cannot be started at all;
/// `message` carries the system's own error text.
pub fn spawn_failure(command: &String, message: String) -> (r: RunError)
    ensures
        r@ == (ErrorView::SpawnFailure { command: command@, message: message@ }),
{
    RunError::SpawnFailure { command: command.clone(), message }
}

/// The names joined with `sep` between each pair: empty for no names.
pub open spec fn join_spec(parts: Seq<Seq<char>>, sep: Seq<char>) -> Seq<char>
    decreases parts.len(),
{
    if parts.len() == 0 {
        Seq::empty()
    } else {
        parts[0] + join_tail_spec(parts.drop_first(), sep)
    }
}

/// `sep` before each name, for every name after the first.
pub open spec fn join_tail_spec(parts: Seq<Seq<char>>, sep: Seq<char>) -> Seq<char>
    decreases parts.len(),
{
    if parts.len() == 0 {
        Seq::empty()
    } else {
        sep + parts[0] + join_tail_spec(parts.drop_first(), sep)
    }
}

/// Joins names with `sep` between each pair.
#[verifier::loop_isolation(false)]
pub fn join_names(parts: &Vec<String>, sep: &str) -> (r: String)
    ensures
        r@ == join_spec(parts.deep_view(), sep@),
{
    let mut r = String::new();
    if parts.len() == 0 {
        return r;
    }
    r.append(parts[0].as_str());
    proof {
        assert(parts.deep_view()[0] == parts@[0]@);
        assert(parts.deep_view().skip(1) =~= parts.deep_view().drop_first());
    }
    let mut i: usize = 1;
    while i < parts.len()
        invariant
            1 <= i <= parts.len(),
            r@ + join_tail_spec(parts.deep_view().skip(i as int), sep@) == join_spec(
                parts.deep_view(),
                sep@,
            ),
        decreases parts.len() - i,
    {
        let ghost rest = parts.deep_view().skip(i as int);
        r.append(sep);
        r.append(parts[i].as_str());
        proof {
            assert(rest[0] == parts.deep_view()[i as int]);
            assert(parts.deep_view()[i as int] == parts@[i as int]@);
            assert(rest.drop_first() =~= parts.deep_view().skip(i as int + 1));
            assert(r@ + join_tail_spec(parts.deep_view().skip(i as int + 1), sep@) =~= join_spec(
                parts.deep_view(),
                sep@,
            ));
        }
        i = i + 1;
    }
    proof {
        assert(parts.deep_view().skip(parts@.len() as int).len() == 0);
        assert(r@ + join_tail_spec(parts.deep_view().skip(parts@.len() as int), sep@) =~= r@);
    }
    r
}

/// The user-facing text of each failure.
pub open spec fn message_spec(e: ErrorView) -> Seq<char> {
    match e {
        ErrorView::TargetNotFound { name } => "Target '"@ + name + "' not found"@,
        ErrorView::DependencyCycle { path } => "Dependency cycle detected: "@ + join_spec(
            path,
            " -> "@,
        ),
        ErrorView::CommandFailed { command } => "Command failed: "@ + command,
        ErrorView::SpawnFailure { message, .. } => "Failed to execute: "@ + message,
    }
}

/// Renders a failure as its user-facing message.
pub fn message(e: &RunError) -> (r: String)
    ensures
        r@ == message_spec(e@),
{
    match e {
        RunError::TargetNotFound { name } => {
            let mut r = "Target '".to_owned();
            r.append(name.as_str());
            r.append("' not found");
            proof {
                assert(r@ =~= message_spec(e@));
            }
            r
        },
        RunError::DependencyCycle { path } => {
            let mut r = "Dependency cycle detected: ".to_owned();
            let joined = join_names(path, " -> ");
            r.append(joined.as_str());
            proof {
                assert(r@ =~= message_spec(e@));
            }
            r
        },
        RunError::CommandFailed { command } => {
            let mut r = "Command failed: ".to_owned();
            r.append(command.as_str());
            proof {
                assert(r@ =~= message_spec(e@));
            }
            r
        },
        RunError::SpawnFailure { message, .. } => {
            let mut r = "Failed to execute: ".to_owned();
            r.append(message.as_str());
            proof {
                assert(r@ =~= message_spec(e@));
            }
            r
        },
    }
}

/// A target already visited is never replanned: resolving it again, in any
/// state and under any stack, changes nothing and succeeds at once. This is
/// the mechanism by which every target's steps enter a run's plan at most
/// once.
pub proof fn lemma_visited_target_not_replanned(
    cfg: Seq<EntryView>,
    vars: Seq<BindingView>,
    name: Seq<char>,
    visited: Seq<Seq<char>>,
    stack: Seq<Seq<char>>,
    cmds: Seq<Seq<char>>,
)
    requires
        lookup_spec(cfg, name) is Some,
        visited.contains(name),
    ensures
        run_spec(cfg, vars, name, visited, stack, cmds) == (RunView {
            visited: visited,
            cmds: cmds,
            outcome: Ok(()),
        }),
{
}

/// Running a target that has no dependencies and no steps succeeds
/// trivially: the plan stays empty and the target is recorded as visited.
pub proof fn lemma_trivial_target(
    cfg: Seq<EntryView>,
    vars: Seq<BindingView>,
    name: Seq<char>,
    t: TargetView,
)
    requires
        lookup_spec(cfg, name) == Some(t),
        t.deps.len() == 0,
        t.steps.len() == 0,
    ensures
        ({
            let res = run_spec(cfg, vars, name, Seq::empty(), Seq::empty(), Seq::empty());
            &&& res.outcome is Ok
            &&& res.cmds == Seq::<Seq<char>>::empty()
            &&& res.visited.contains(name)
        }),
{
    let e: Seq<Seq<char>> = Seq::empty();
    assert(!e.contains(name));
    let after = run_deps_spec(cfg, vars, t.deps, e, e.push(name), e);
    assert(after == RunView { visited: e, cmds: e, outcome: Ok(()) });
    let res = run_spec(cfg, vars, name, e, e, e);
    assert(steps_cmds(t.steps, vars) == Seq::<Seq<char>>::empty());
    assert(res.cmds =~= Seq::<Seq<char>>::empty());
    assert(res.visited == e.push(name));
    assert(res.visited[0] == name);
    assert(res.visited.contains(name));
}

/// Two targets that each name the other as their first dependency form a
/// cycle: running the first fails with the traversal path that closed it,
/// and nothing is planned.
pub proof fn lemma_mutual_cycle(
    cfg: Seq<EntryView>,
    vars: Seq<BindingView>,
    a: Seq<char>,
    b: Seq<char>,
    ta: TargetView,
    tb: TargetView,
)
    requires
        a != b,
        lookup_spec(cfg, a) == Some(ta),
        ta.deps.len() > 0,
        ta.deps[0] == b,
        lookup_spec(cfg, b) == Some(tb),
        tb.deps.len() > 0,
        tb.deps[0] == a,
    ensures
        ({
            let res = run_spec(cfg, vars, a, Seq::empty(), Seq::empty(), Seq::empty());
            &&& res.outcome == Err::<(), ErrorView>(
                ErrorView::DependencyCycle { path: seq![a, b, a] },
            )
            &&& res.cmds == Seq::<Seq<char>>::empty()
            &&& res.visited == Seq::<Seq<char>>::empty()
        }),
{
    let e: Seq<Seq<char>> = Seq::empty();
    let sa = e.push(a);
    let sab = sa.push(b);
    assert(!e.contains(a));
    assert(!e.contains(b));
    assert(sa[0] == a);
    assert(!sa.contains(b));
    assert(sab[0] == a);
    assert(sab.contains(a));
    let r3 = run_spec(cfg, vars, a, e, sab, e);
    assert(r3 == RunView {
        visited: e,
        cmds: e,
        outcome: Err::<(), ErrorView>(ErrorView::DependencyCycle { path: sab.push(a) }),
    });
    assert(sab.push(a) =~= seq![a, b, a]);
    let d2 = run_deps_spec(cfg, vars, tb.deps, e, sab, e);
    assert(d2 == r3);
    let r2 = run_spec(cfg, vars, b, e, sa, e);
    assert(r2 == d2);
    let d1 = run_deps_spec(cfg, vars, ta.deps, e, sa, e);
    assert(d1 == r2);
    let res = run_spec(cfg, vars, a, e, e, e);
    assert(res == d1);
}

/// The diamond: a top target depends on `left` then `right`, and each of
/// those depends on the shared `base`. A run of the top target plans the
/// base target's steps exactly once — the full plan is base's commands,
/// then left's, then right's, then top's — and visits each of the four
/// targets once, in completion order.
pub proof fn lemma_diamond_runs_base_once(
    cfg: Seq<EntryView>,
    vars: Seq<BindingView>,
    top: Seq<char>,
    left: Seq<char>,
    right: Seq<char>,
    base: Seq<char>,
    tt: TargetView,
    tl: TargetView,
    tr: TargetView,
    tb: TargetView,
)
    requires
        top != left,
        top != right,
        top != base,
        left != right,
        left != base,
        right != base,
        lookup_spec(cfg, top) == Some(tt),
        tt.deps == seq![left, right],
        lookup_spec(cfg, left) == Some(tl),
        tl.deps == seq![base],
        lookup_spec(cfg, right) == Some(tr),
        tr.deps == seq![base],
        lookup_spec(cfg, base) == Some(tb),
        tb.deps.len() == 0,
    ensures
        ({
            let res = run_spec(cfg, vars, top, Seq::empty(), Seq::empty(), Seq::empty());
            &&& res.outcome is Ok
            &&& res.cmds == steps_cmds(tb.steps, vars) + steps_cmds(tl.steps, vars) + steps_cmds(
                tr.steps,
                vars,
            ) + steps_cmds(tt.steps, vars)
            &&& res.visited == seq![base, left, right, top]
        }),
{
    let e: Seq<Seq<char>> = Seq::empty();
    let sb = steps_cmds(tb.steps, vars);
    let sl = steps_cmds(tl.steps, vars);
    let sr = steps_cmds(tr.steps, vars);
    let st = steps_cmds(tt.steps, vars);
    let stk_t = e.push(top);
    let stk_tl = stk_t.push(left);
    let stk_tr = stk_t.push(right);
    assert(stk_t[0] == top);
    assert(stk_tl[0] == top && stk_tl[1] == left);
    assert(stk_tr[0] == top && stk_tr[1] == right);
    assert(!e.contains(top) && !e.contains(left) && !e.contains(right) && !e.contains(base));
    assert(!stk_t.contains(left));
    assert(!stk_t.contains(right));
    assert(!stk_tl.contains(base));
    assert(!stk_tr.contains(base));
    // base, resolved for the first time while left is on the stack
    let r_base = run_spec(cfg, vars, base, e, stk_tl, e);
    assert(run_deps_spec(cfg, vars, tb.deps, e, stk_tl.push(base), e) == RunView {
        visited: e,
        cmds: e,
        outcome: Ok(()),
    });
    let v1 = e.push(base);
    let c1 = e + sb;
    assert(r_base == RunView { visited: v1, cmds: c1, outcome: Ok(()) });
    // left: its one dependency is base
    let d_left = run_deps_spec(cfg, vars, tl.deps, e, stk_tl, e);
    assert(tl.deps[0] == base);
    assert(tl.deps.drop_first().len() == 0);
    assert(run_deps_spec(cfg, vars, tl.deps.drop_first(), v1, stk_tl, c1) == RunView {
        visited: v1,
        cmds: c1,
        outcome: Ok(()),
    });
    assert(d_left == RunView { visited: v1, cmds: c1, outcome: Ok(()) });
    let r_left = run_spec(cfg, vars, left, e, stk_t, e);
    let v2 = v1.push(left);
    let c2 = c1 + sl;
    assert(r_left == RunView { visited: v2, cmds: c2, outcome: Ok(()) });
    // right: base is already visited, so its steps are not planned again
    assert(v2[0] == base);
    assert(v2.contains(base));
    assert(!v2.contains(right));
    let r_base_again = run_spec(cfg, vars, base, v2, stk_tr, c2);
    assert(r_base_again == RunView { visited: v2, cmds: c2, outcome: Ok(()) });
    let d_right = run_deps_spec(cfg, vars, tr.deps, v2, stk_tr, c2);
    assert(tr.deps[0] == base);
    assert(tr.deps.drop_first().len() == 0);
    assert(run_deps_spec(cfg, vars, tr.deps.drop_first(), v2, stk_tr, c2) == RunView {
        visited: v2,
        cmds: c2,
        outcome: Ok(()),
    });
    assert(d_right == RunView { visited: v2, cmds: c2, outcome: Ok(()) });
    let r_right = run_spec(cfg, vars, right, v2, stk_t, c2);
    let v3 = v2.push(right);
    let c3 = c2 + sr;
    assert(r_right == RunView { visited: v3, cmds: c3, outcome: Ok(()) });
    // top: left first, then right, then its own steps
    let d_top = run_deps_spec(cfg, vars, tt.deps, e, stk_t, e);
    assert(tt.deps[0] == left);
    assert(tt.deps.drop_first() =~= seq![right]);
    let d_top2 = run_deps_spec(cfg, vars, seq![right], v2, stk_t, c2);
    assert(seq![right][0] == right);
    assert(seq![right].drop_first().len() == 0);
    assert(run_deps_spec(cfg, vars, seq![right].drop_first(), v3, stk_t, c3) == RunView {
        visited: v3,
        cmds: c3,
        outcome: Ok(()),
    });
    assert(d_top2 == RunView { visited: v3, cmds: c3, outcome: Ok(()) });
    assert(d_top == d_top2);
    let res = run_spec(cfg, vars, top, e, e, e);
    assert(res == RunView { visited: v3.push(top), cmds: c3 + st, outcome: Ok(()) });
    assert(v3.push(top) =~= seq![base, left, right, top]);
    assert(c3 + st =~= sb + sl + sr + st);
}

#[via_fn]
proof fn run_spec_decreases(
    cfg: Seq<EntryView>,
    vars: Seq<BindingView>,
    name: Seq<char>,
    visited: Seq<Seq<char>>,
    stack: Seq<Seq<char>>,
    cmds: Seq<Seq<char>>,
) {
    if lookup_spec(cfg, name) is Some && !visited.contains(name) && !stack.contains(name) {
        lemma_lookup_in_keys(cfg, name);
        lemma_push_free_targets(cfg, stack, name);
    }
}

} // verus!
