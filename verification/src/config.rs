//! The configuration model: named targets with dependencies and steps, plus
//! the table of variable substitutions. Built once by the caller and only
//! read by the engine.

use vstd::prelude::*;

verus! {

/// A named unit of work: an optional description, the names of the targets
/// it depends on (in execution order), and its shell steps (in order).
pub struct Target {
    pub desc: Option<String>,
    pub deps: Vec<String>,
    pub steps: Vec<String>,
}

/// The mathematical value of a [`Target`].
pub ghost struct TargetView {
    pub desc: Option<Seq<char>>,
    pub deps: Seq<Seq<char>>,
    pub steps: Seq<Seq<char>>,
}

impl View for Target {
    type V = TargetView;

    open spec fn view(&self) -> TargetView {
        TargetView {
            desc: match self.desc {
                Some(d) => Some(d@),
                None => None,
            },
            deps: self.deps.deep_view(),
            steps: self.steps.deep_view(),
        }
    }
}

/// One named target of the configuration.
pub struct Entry {
    pub name: String,
    pub target: Target,
}

/// The mathematical value of an [`Entry`].
pub ghost struct EntryView {
    pub name: Seq<char>,
    pub target: TargetView,
}

impl View for Entry {
    type V = EntryView;

    open spec fn view(&self) -> EntryView {
        EntryView { name: self.name@, target: self.target@ }
    }
}

/// The whole target configuration: an association list from target name to
/// target. Lookup takes the first entry with a matching name.
pub struct Config {
    pub entries: Vec<Entry>,
}

impl View for Config {
    type V = Seq<EntryView>;

    open spec fn view(&self) -> Seq<EntryView> {
        self.entries@.map_values(|e: Entry| e@)
    }
}

/// The target, if any, that `name` denotes in `entries`: the first entry
/// whose name matches.
pub open spec fn lookup_spec(entries: Seq<EntryView>, name: Seq<char>) -> Option<TargetView>
    decreases entries.len(),
{
    if entries.len() == 0 {
        None
    } else if entries[0].name == name {
        Some(entries[0].target)
    } else {
        lookup_spec(entries.drop_first(), name)
    }
}

impl Config {
    /// Finds the target that `name` denotes, if any.
    pub fn lookup<'a>(&'a self, name: &String) -> (r: Option<&'a Target>)
        ensures
            match r {
                Some(t) => lookup_spec(self@, name@) == Some(t@),
                None => lookup_spec(self@, name@) is None,
            },
    {
        let ghost all = self@;
        proof {
            assert(all.skip(0) =~= all);
        }
        let mut i: usize = 0;
        while i < self.entries.len()
            invariant
                i <= self.entries.len(),
                all == self@,
                all.len() == self.entries.len(),
                lookup_spec(all, name@) == lookup_spec(all.skip(i as int), name@),
            decreases self.entries.len() - i,
        {
            proof {
                assert(all[i as int] == self.entries@[i as int]@);
                assert(all.skip(i as int)[0] == all[i as int]);
            }
            if self.entries[i].name == *name {
                return Some(&self.entries[i].target);
            }
            proof {
                assert(all.skip(i as int).drop_first() =~= all.skip(i as int + 1));
            }
            i = i + 1;
        }
        proof {
            assert(all.skip(i as int).len() == 0);
        }
        None
    }
}

/// One variable substitution: occurrences of `${name}` in step strings are
/// replaced by `value`.
pub struct Binding {
    pub name: String,
    pub value: String,
}

/// The mathematical value of a [`Binding`].
pub ghost struct BindingView {
    pub name: Seq<char>,
    pub value: Seq<char>,
}

impl View for Binding {
    type V = BindingView;

    open spec fn view(&self) -> BindingView {
        BindingView { name: self.name@, value: self.value@ }
    }
}

/// The table of variable substitutions, applied in order to every step
/// string of every target.
pub struct VarTable {
    pub bindings: Vec<Binding>,
}

impl View for VarTable {
    type V = Seq<BindingView>;

    open spec fn view(&self) -> Seq<BindingView> {
        self.bindings@.map_values(|b: Binding| b@)
    }
}

/// Whether `name` occurs in the sequence of names `v`.
pub fn contains_name(v: &Vec<String>, name: &String) -> (r: bool)
    ensures
        r == v.deep_view().contains(name@),
{
    let mut i: usize = 0;
    while i < v.len()
        invariant
            i <= v.len(),
            forall|j: int| 0 <= j < i ==> v.deep_view()[j] != name@,
        decreases v.len() - i,
    {
        if v[i] == *name {
            proof {
                assert(v.deep_view()[i as int] == name@);
            }
            return true;
        }
        i = i + 1;
    }
    proof {
        assert(v.deep_view().len() == v.len());
    }
    false
}

/// A copy of a vector of names, equal element by element.
pub fn clone_names(v: &Vec<String>) -> (r: Vec<String>)
    ensures
        r.deep_view() == v.deep_view(),
{
    let mut r: Vec<String> = Vec::new();
    let mut i: usize = 0;
    while i < v.len()
        invariant
            i <= v.len(),
            r.deep_view() =~= v.deep_view().take(i as int),
        decreases v.len() - i,
    {
        let ghost prev = r@;
        let ghost prevdeep = r.deep_view();
        let c = v[i].clone();
        r.push(c);
        proof {
            assert(prevdeep.len() == prev.len());
            assert(prevdeep.len() == v.deep_view().take(i as int).len());
            assert(prev.len() == i as int);
            assert forall|j: int| 0 <= j < i + 1 implies r.deep_view()[j] == v.deep_view()[j] by {
                if j < i {
                    assert(r@[j] == prev[j]);
                    assert(prev[j]@ == v.deep_view().take(i as int)[j]);
                } else {
                    assert(r@[j]@ == v@[i as int]@);
                }
            }
            assert(r.deep_view() =~= v.deep_view().take(i as int + 1));
        }
        i = i + 1;
    }
    proof {
        assert(v.deep_view().take(v.len() as int) =~= v.deep_view());
    }
    r
}

} // verus!
