//! The parameters assigned to the environments of one molecule.

use vstd::prelude::*;
use crate::assoc::{keys, last_write, merged, put, unique, values};
use crate::assoc::{lemma_last_write_at, lemma_last_write_is_some};
use crate::assoc::{lemma_merged_is_unique, lemma_put};
use crate::environment::{canonical, canonicalize, is_canonical, same_atoms};
use crate::string_set::StringSet;

verus! {

/// The mathematical pairs behind a vector of environment and identifier.
pub open spec fn pairs_view(v: Seq<(Vec<usize>, String)>) -> Seq<(Seq<usize>, Seq<char>)> {
    v.map_values(|p: (Vec<usize>, String)| (p.0@, p.1@))
}

/// The pairs of `s`, each environment in its canonical orientation.
pub open spec fn oriented(s: Seq<(Seq<usize>, Seq<char>)>) -> Seq<(Seq<usize>, Seq<char>)> {
    s.map_values(|p: (Seq<usize>, Seq<char>)| (canonical(p.0), p.1))
}

/// What holds of every assignment: each environment is non-empty, stands in
/// its canonical orientation, and has one entry.
pub open spec fn well_formed(s: Seq<(Seq<usize>, Seq<char>)>) -> bool {
    &&& keys(s).no_duplicates()
    &&& forall|i: int| 0 <= i < s.len() ==> is_canonical(#[trigger] s[i].0)
}

/// The place of the entry for the canonical tuple `env`.
fn find(items: &Vec<(Vec<usize>, String)>, env: &Vec<usize>) -> (at: Option<usize>)
    ensures
        match at {
            Some(i) => i < items.len() && items[i as int].0@ == env@,
            None => !keys(pairs_view(items@)).contains(env@),
        },
{
    let mut i: usize = 0;
    while i < items.len()
        invariant
            i <= items.len(),
            forall|j: int| 0 <= j < i ==> items[j].0@ != env@,
        decreases items.len() - i,
    {
        if same_atoms(&items[i].0, env) {
            return Some(i);
        }
        i = i + 1;
    }
    assert(!keys(pairs_view(items@)).contains(env@)) by {
        let ks = keys(pairs_view(items@));
        if ks.contains(env@) {
            let j = choose|j: int| 0 <= j < ks.len() && ks[j] == env@;
            assert(items[j].0@ == env@);
        }
    }
    None
}

/// The assignment of one molecule: for each environment that some pattern
/// matched, the identifier of the parameter that wins it.
///
/// Its view is the sequence of (environment, identifier) pairs, in the order
/// in which the environments were first assigned.
pub struct Assignment {
    items: Vec<(Vec<usize>, String)>,
}

impl View for Assignment {
    type V = Seq<(Seq<usize>, Seq<char>)>;

    closed spec fn view(&self) -> Seq<(Seq<usize>, Seq<char>)> {
        pairs_view(self.items@)
    }
}

impl Assignment {
    #[verifier::type_invariant]
    spec fn valid(self) -> bool {
        well_formed(pairs_view(self.items@))
    }

    /// The parameter assigned to `env`, taken in either direction.
    pub open spec fn parameter_of(&self, env: Seq<usize>) -> Option<Seq<char>> {
        last_write(self@, canonical(env))
    }

    /// The assignment of a molecule in which nothing matched.
    pub fn new() -> (a: Assignment)
        ensures
            a@ == Seq::<(Seq<usize>, Seq<char>)>::empty(),
    {
        Assignment { items: Vec::new() }
    }

    /// The number of environments that have a parameter.
    pub fn len(&self) -> (n: usize)
        ensures
            n == self@.len(),
            well_formed(self@),
    {
        proof {
            use_type_invariant(self);
        }
        self.items.len()
    }

    /// Whether no environment has a parameter.
    pub fn is_empty(&self) -> (empty: bool)
        ensures
            empty == (self@.len() == 0),
    {
        self.items.len() == 0
    }

    /// The entries, in the order in which their environments were first
    /// assigned.
    pub fn entries(&self) -> (entries: &Vec<(Vec<usize>, String)>)
        ensures
            pairs_view(entries@) == self@,
            well_formed(self@),
    {
        proof {
            use_type_invariant(self);
        }
        &self.items
    }

    /// The parameter assigned to the environment `env`, whichever way round
    /// `env` is given.
    pub fn get(&self, env: &Vec<usize>) -> (pid: Option<&String>)
        ensures
            match pid {
                Some(p) => self.parameter_of(env@) == Some(p@),
                None => self.parameter_of(env@) is None,
            },
    {
        proof {
            use_type_invariant(self);
        }
        let n: usize = env.len();
        if n == 0 {
            proof {
                lemma_last_write_is_some(self@, env@);
            }
            return None;
        }
        let at = if env[0] > env[n - 1] {
            let key = crate::environment::reversed(env);
            find(&self.items, &key)
        } else {
            find(&self.items, env)
        };
        match at {
            Some(i) => {
                proof {
                    lemma_last_write_at(self@, i as int);
                }
                Some(&self.items[i].1)
            },
            None => {
                proof {
                    lemma_last_write_is_some(self@, canonical(env@));
                }
                None
            },
        }
    }

    /// Assign `pid` to the environment `env`. A parameter assigned to it
    /// before is overwritten: the last assignment wins.
    pub fn insert(&mut self, env: Vec<usize>, pid: String)
        requires
            env.len() > 0,
        ensures
            final(self)@ == put(old(self)@, canonical(env@), pid@),
            well_formed(final(self)@),
    {
        let key = canonicalize(env);
        let mut taken = Assignment::new();
        core::mem::swap(self, &mut taken);
        proof {
            use_type_invariant(&taken);
            lemma_put(taken@, key@, pid@);
        }
        let Assignment { mut items } = taken;
        let ghost before = pairs_view(items@);
        match find(&items, &key) {
            Some(i) => {
                proof {
                    assert(keys(before)[i as int] == key@);
                }
                items[i].1 = pid;
                assert(pairs_view(items@) =~= before.update(i as int, (key@, pid@)));
            },
            None => {
                items.push((key, pid));
                assert(pairs_view(items@) =~= before.push((key@, pid@)));
            },
        }
        *self = Assignment { items };
    }

    /// The parameters that the molecule uses: the identifiers of the
    /// assignment, each once, however many environments it wins.
    pub fn parameter_ids(&self) -> (ids: StringSet)
        ensures
            ids@ == unique(values(self@)),
            ids@.no_duplicates(),
    {
        let mut ids = StringSet::new();
        let ghost all = values(self@);
        let mut i: usize = 0;
        while i < self.items.len()
            invariant
                i <= self.items.len(),
                all == values(self@),
                ids@ == unique(all.take(i as int)),
                ids@.no_duplicates(),
            decreases self.items.len() - i,
        {
            proof {
                assert(all.take(i + 1).drop_last() =~= all.take(i as int));
            }
            ids.insert(self.items[i].1.clone());
            i = i + 1;
        }
        assert(all.take(all.len() as int) =~= all);
        ids
    }
}

/// No assignment holds one environment twice: two entries whose environments
/// have the same canonical orientation are one entry.
pub proof fn no_environment_twice(s: Seq<(Seq<usize>, Seq<char>)>, i: int, j: int)
    requires
        well_formed(s),
        0 <= i < s.len(),
        0 <= j < s.len(),
        canonical(s[i].0) == canonical(s[j].0),
    ensures
        i == j,
{
    assert(keys(s)[i] == s[i].0);
    assert(keys(s)[j] == s[j].0);
}

/// Merge labelled matches into one assignment. The pairs are taken in order,
/// and each is assigned to the canonical orientation of its environment, so
/// that of several pairs for one environment the last one wins.
pub fn resolve(pairs: Vec<(Vec<usize>, String)>) -> (a: Assignment)
    requires
        forall|i: int| 0 <= i < pairs.len() ==> pairs[i].0.len() > 0,
    ensures
        a@ == merged(oriented(pairs_view(pairs@))),
        well_formed(a@),
{
    let mut a = Assignment::new();
    let ghost whole = pairs@;
    let ghost writes = oriented(pairs_view(pairs@));
    for pair in it: pairs
        invariant
            it.seq() == whole,
            writes == oriented(pairs_view(whole)),
            forall|i: int| 0 <= i < whole.len() ==> whole[i].0.len() > 0,
            well_formed(a@),
            keys(a@) == unique(keys(writes.take(it.index() as int))),
            forall|e: Seq<usize>|
                last_write(a@, e) == last_write(writes.take(it.index() as int), e),
    {
        let ghost i = it.index() as int;
        let ghost before = a@;
        let (env, pid) = pair;
        proof {
            lemma_put(before, canonical(env@), pid@);
            assert(writes.take(i + 1).drop_last() =~= writes.take(i));
            assert(keys(writes.take(i + 1)).drop_last() =~= keys(writes.take(i)));
        }
        a.insert(env, pid);
    }
    proof {
        assert(writes.take(writes.len() as int) =~= writes);
        lemma_merged_is_unique(a@, writes);
    }
    a
}

} // verus!
