//! The parameters of a force field, in their order of precedence, and the
//! labelling of a molecule with them.

use vstd::prelude::*;
use crate::assignment::{oriented, pairs_view, resolve, well_formed, Assignment};
use crate::assoc::{keys, last_write, merged, unique};
use crate::environment::{canonical, canonical_copy, is_canonical, names_environment};
use crate::string_set::texts;

verus! {

/// The atom tuples behind the matches of one pattern.
pub open spec fn matches_view(matches: Seq<Vec<usize>>) -> Seq<Seq<usize>> {
    matches.map_values(|m: Vec<usize>| m@)
}

/// The atom tuples behind what a search found in one molecule, pattern by
/// pattern.
pub open spec fn found_view(found: Seq<Vec<Vec<usize>>>) -> Seq<Seq<Seq<usize>>> {
    found.map_values(|ms: Vec<Vec<usize>>| matches_view(ms@))
}

/// The matches of one pattern that name an environment, in the order in which
/// the search reported them.
pub open spec fn proper_matches(matches: Seq<Seq<usize>>) -> Seq<Seq<usize>> {
    matches.filter(|m: Seq<usize>| names_environment(m))
}

/// What one pattern contributes to the labelling of a molecule: the canonical
/// orientation of each of its proper matches, beside the identifier of its
/// parameter.
pub open spec fn pattern_labels(id: Seq<char>, matches: Seq<Seq<usize>>) -> Seq<
    (Seq<usize>, Seq<char>),
> {
    proper_matches(matches).map_values(|m: Seq<usize>| (canonical(m), id))
}

/// The contributions of the first `n` patterns, one after the other.
pub open spec fn labels_of_first(
    ids: Seq<Seq<char>>,
    found: Seq<Seq<Seq<usize>>>,
    n: int,
) -> Seq<(Seq<usize>, Seq<char>)>
    decreases n,
{
    if n <= 0 {
        Seq::empty()
    } else {
        labels_of_first(ids, found, n - 1) + pattern_labels(ids[n - 1], found[n - 1])
    }
}

/// The number of patterns for which a molecule was searched: a pattern
/// without a list of matches, and a list without a pattern, count for nothing.
pub open spec fn searched(ids: Seq<Seq<char>>, found: Seq<Seq<Seq<usize>>>) -> int {
    if ids.len() <= found.len() {
        ids.len() as int
    } else {
        found.len() as int
    }
}

/// The labelled environments of a molecule: the contributions of all
/// patterns, in the order of the patterns.
pub open spec fn labelled(ids: Seq<Seq<char>>, found: Seq<Seq<Seq<usize>>>) -> Seq<
    (Seq<usize>, Seq<char>),
> {
    labels_of_first(ids, found, searched(ids, found))
}

/// Whether one of the matches names the environment whose canonical
/// orientation is `e`.
pub open spec fn hits(matches: Seq<Seq<usize>>, e: Seq<usize>) -> bool {
    exists|k: int|
        0 <= k < matches.len() && names_environment(#[trigger] matches[k]) && canonical(
            matches[k],
        ) == e
}

/// Whether parameter `i` is the first whose pattern the matcher rejects.
pub open spec fn first_rejected(parameters: Seq<(String, String, bool)>, i: int) -> bool {
    &&& 0 <= i < parameters.len()
    &&& !parameters[i].2
    &&& forall|j: int| 0 <= j < i ==> (#[trigger] parameters[j]).2
}

/// A parameter whose pattern the matcher does not accept.
#[derive(Clone, Debug, PartialEq, Eq)]
pub struct Rejected {
    /// The identifier of the parameter.
    pub id: String,
    /// The text of the pattern.
    pub pattern: String,
}

/// The parameters of one force field: for each, its identifier and the text
/// of its pattern. The order is that of the force field, in which a later
/// parameter takes precedence over an earlier one.
pub struct ParameterMap {
    params: Vec<(String, String)>,
}

impl View for ParameterMap {
    type V = Seq<(Seq<char>, Seq<char>)>;

    closed spec fn view(&self) -> Seq<(Seq<char>, Seq<char>)> {
        self.params@.map_values(|p: (String, String)| (p.0@, p.1@))
    }
}

impl ParameterMap {
    /// The identifiers of the parameters, in order.
    pub open spec fn ids(&self) -> Seq<Seq<char>> {
        keys(self@)
    }

    /// The assignment that labelling a molecule yields, given what the search
    /// found in it for each pattern.
    pub open spec fn labels(&self, found: Seq<Seq<Seq<usize>>>) -> Seq<(Seq<usize>, Seq<char>)> {
        merged(labelled(self.ids(), found))
    }

    /// The map of the given parameters, each an identifier and a pattern, in
    /// the given order.
    pub fn new(params: Vec<(String, String)>) -> (map: ParameterMap)
        ensures
            map@ == params@.map_values(|p: (String, String)| (p.0@, p.1@)),
    {
        ParameterMap { params }
    }

    /// Build the map of a force field. Each parameter comes with its
    /// identifier, the text of its pattern and the matcher's verdict on the
    /// pattern. The map holds all parameters in the given order. It cannot be
    /// built where the matcher rejects a pattern: the error then names the
    /// first parameter whose pattern it rejects.
    pub fn build(parameters: Vec<(String, String, bool)>) -> (r: Result<ParameterMap, Rejected>)
        ensures
            match r {
                Ok(map) => {
                    &&& forall|i: int| 0 <= i < parameters.len() ==> (#[trigger] parameters[i]).2
                    &&& map@ == parameters@.map_values(|p: (String, String, bool)| (p.0@, p.1@))
                },
                Err(e) => exists|i: int| #[trigger]
                    first_rejected(parameters@, i) && e.id@ == parameters[i].0@ && e.pattern@
                        == parameters[i].1@,
            },
    {
        let mut params: Vec<(String, String)> = Vec::with_capacity(parameters.len());
        let ghost whole = parameters@;
        let ghost pair = |p: (String, String, bool)| (p.0@, p.1@);
        let ghost own = |p: (String, String)| (p.0@, p.1@);
        for parameter in it: parameters
            invariant
                it.seq() == whole,
                pair == (|p: (String, String, bool)| (p.0@, p.1@)),
                own == (|p: (String, String)| (p.0@, p.1@)),
                forall|i: int| 0 <= i < it.index() ==> (#[trigger] whole[i]).2,
                params@.map_values(own) == whole.take(it.index() as int).map_values(pair),
        {
            let ghost i = it.index() as int;
            let ghost before = params@.map_values(own);
            let (id, pattern, accepted) = parameter;
            if !accepted {
                assert(first_rejected(whole, i));
                return Err(Rejected { id, pattern });
            }
            params.push((id, pattern));
            proof {
                assert(params@.map_values(own) =~= before.push((id@, pattern@)));
            }
        }
        Ok(ParameterMap { params })
    }

    /// The number of parameters.
    pub fn len(&self) -> (n: usize)
        ensures
            n == self@.len(),
    {
        self.params.len()
    }

    /// Whether the map holds no parameter.
    #[must_use]
    pub fn is_empty(&self) -> (empty: bool)
        ensures
            empty == (self@.len() == 0),
    {
        self.len() == 0
    }

    /// The identifiers of the parameters, in order.
    pub fn keys(&self) -> (ids: Vec<String>)
        ensures
            texts(ids@) == self.ids(),
    {
        let mut ids: Vec<String> = Vec::with_capacity(self.params.len());
        let mut i: usize = 0;
        while i < self.params.len()
            invariant
                i <= self.params.len(),
                texts(ids@) == self.ids().take(i as int),
            decreases self.params.len() - i,
        {
            let ghost before = ids@;
            ids.push(self.params[i].0.clone());
            i = i + 1;
            assert(texts(ids@) =~= texts(before).push(self.ids()[i - 1]));
        }
        ids
    }

    /// The identifier of parameter `i`.
    pub fn id(&self, i: usize) -> (id: &String)
        requires
            i < self@.len(),
        ensures
            id@ == self@[i as int].0,
    {
        &self.params[i].0
    }

    /// The pattern of parameter `i`.
    pub fn pattern(&self, i: usize) -> (pattern: &String)
        requires
            i < self@.len(),
        ensures
            pattern@ == self@[i as int].1,
    {
        &self.params[i].1
    }

    /// Label what a search found in one molecule. `found[i]` holds the atom
    /// tuples that pattern `i` matched, as the search reported them. The
    /// result holds, pattern by pattern and match by match, the canonical
    /// orientation of each proper match beside the pattern's identifier.
    pub fn match_molecule(&self, found: &Vec<Vec<Vec<usize>>>) -> (out: Vec<(Vec<usize>, String)>)
        ensures
            pairs_view(out@) == labelled(self.ids(), found_view(found@)),
            forall|i: int| 0 <= i < out.len() ==> is_canonical(#[trigger] out[i].0@),
    {
        let ghost ids = self.ids();
        let ghost fv = found_view(found@);
        let n: usize = if self.params.len() <= found.len() {
            self.params.len()
        } else {
            found.len()
        };
        let mut out: Vec<(Vec<usize>, String)> = Vec::new();
        let mut i: usize = 0;
        while i < n
            invariant
                ids == self.ids(),
                fv == found_view(found@),
                n == searched(ids, fv),
                i <= n,
                pairs_view(out@) == labels_of_first(ids, fv, i as int),
                forall|j: int| 0 <= j < out.len() ==> is_canonical(#[trigger] out[j].0@),
            decreases n - i,
        {
            let matches: &Vec<Vec<usize>> = &found[i];
            let id: &String = &self.params[i].0;
            let ghost ms = matches_view(matches@);
            let ghost done = labels_of_first(ids, fv, i as int);
            let mut k: usize = 0;
            while k < matches.len()
                invariant
                    ms == matches_view(matches@),
                    k <= matches.len(),
                    pairs_view(out@) == done + pattern_labels(id@, ms.take(k as int)),
                    forall|j: int| 0 <= j < out.len() ==> is_canonical(#[trigger] out[j].0@),
                decreases matches.len() - k,
            {
                let m: &Vec<usize> = &matches[k];
                let ghost before = pairs_view(out@);
                let ghost so_far = ms.take(k as int);
                proof {
                    assert(ms.take(k + 1) =~= so_far.push(m@));
                    so_far.lemma_filter_push(m@, |m: Seq<usize>| names_environment(m));
                }
                if m.len() >= 2 {
                    out.push((canonical_copy(m), id.clone()));
                    proof {
                        assert(pairs_view(out@) =~= before.push((canonical(m@), id@)));
                    }
                }
                k = k + 1;
            }
            assert(ms.take(matches.len() as int) =~= ms);
            i = i + 1;
        }
        out
    }

    /// Label one molecule: its environments, each with the parameter that
    /// wins it. Of several patterns that match one environment, the last in
    /// the order of the map wins.
    pub fn label_molecule(&self, found: &Vec<Vec<Vec<usize>>>) -> (labels: Assignment)
        ensures
            labels@ == self.labels(found_view(found@)),
            well_formed(labels@),
    {
        let pairs = self.match_molecule(found);
        proof {
            let s = pairs_view(pairs@);
            assert(oriented(s) =~= s);
        }
        resolve(pairs)
    }
}

/// After more writes, a key holds the last of the later writes for it, and
/// what it held before where there is none.
proof fn lemma_last_write_concat<K, V>(s: Seq<(K, V)>, t: Seq<(K, V)>, k: K)
    ensures
        last_write(s + t, k) == if last_write(t, k) is Some {
            last_write(t, k)
        } else {
            last_write(s, k)
        },
    decreases t.len(),
{
    if t.len() != 0 {
        assert((s + t).drop_last() =~= s + t.drop_last());
        lemma_last_write_concat(s, t.drop_last(), k);
    }
}

/// One pattern writes its identifier for exactly the environments it hits.
proof fn lemma_pattern_labels(id: Seq<char>, matches: Seq<Seq<usize>>, e: Seq<usize>)
    ensures
        last_write(pattern_labels(id, matches), e) == if hits(matches, e) {
            Some(id)
        } else {
            None
        },
    decreases matches.len(),
{
    if matches.len() != 0 {
        let rest = matches.drop_last();
        let m = matches.last();
        let f = |m: Seq<usize>| (canonical(m), id);
        lemma_pattern_labels(id, rest, e);
        assert(rest.push(m) =~= matches);
        rest.lemma_filter_push(m, |m: Seq<usize>| names_environment(m));
        if names_environment(m) {
            proper_matches(rest).lemma_push_map_commute(f, m);
            crate::assoc::lemma_last_write_push(pattern_labels(id, rest), canonical(m), id, e);
        }
    }
}

/// What the first `n` patterns write for an environment: the identifier of
/// the last of them that hits it.
proof fn lemma_labels_of_first(
    ids: Seq<Seq<char>>,
    found: Seq<Seq<Seq<usize>>>,
    n: int,
    e: Seq<usize>,
)
    requires
        0 <= n <= searched(ids, found),
    ensures
        last_write(labels_of_first(ids, found, n), e) is Some <==> exists|i: int|
            0 <= i < n && hits(#[trigger] found[i], e),
        forall|i: int|
            0 <= i < n && hits(#[trigger] found[i], e) && (forall|j: int|
                i < j < n ==> !hits(#[trigger] found[j], e)) ==> last_write(
                labels_of_first(ids, found, n),
                e,
            ) == Some(ids[i]),
    decreases n,
{
    if n > 0 {
        lemma_labels_of_first(ids, found, n - 1, e);
        lemma_pattern_labels(ids[n - 1], found[n - 1], e);
        lemma_last_write_concat(
            labels_of_first(ids, found, n - 1),
            pattern_labels(ids[n - 1], found[n - 1]),
            e,
        );
    }
}

/// The environments of a labelling are those that some pattern hits.
pub proof fn labelled_environments_are_the_hits(
    ids: Seq<Seq<char>>,
    found: Seq<Seq<Seq<usize>>>,
    e: Seq<usize>,
)
    ensures
        keys(merged(labelled(ids, found))).contains(e) <==> exists|i: int|
            0 <= i < searched(ids, found) && hits(#[trigger] found[i], e),
{
    lemma_labels_of_first(ids, found, searched(ids, found), e);
    crate::assoc::lemma_merged(labelled(ids, found));
    crate::assoc::lemma_last_write_is_some(merged(labelled(ids, found)), e);
}

/// Precedence: an environment is assigned the parameter of the last pattern
/// that hits it, whatever earlier patterns hit it too.
pub proof fn last_hitting_pattern_wins(
    ids: Seq<Seq<char>>,
    found: Seq<Seq<Seq<usize>>>,
    e: Seq<usize>,
    i: int,
)
    requires
        0 <= i < searched(ids, found),
        hits(found[i], e),
        forall|j: int| i < j < searched(ids, found) ==> !hits(#[trigger] found[j], e),
    ensures
        last_write(merged(labelled(ids, found)), e) == Some(ids[i]),
{
    lemma_labels_of_first(ids, found, searched(ids, found), e);
    crate::assoc::lemma_merged(labelled(ids, found));
}

/// Every label of the first `n` patterns bears the identifier of one of them.
proof fn lemma_labels_bear_ids(
    ids: Seq<Seq<char>>,
    found: Seq<Seq<Seq<usize>>>,
    n: int,
    k: int,
)
    requires
        0 <= n <= searched(ids, found),
        0 <= k < labels_of_first(ids, found, n).len(),
    ensures
        ids.contains(labels_of_first(ids, found, n)[k].1),
    decreases n,
{
    let before = labels_of_first(ids, found, n - 1);
    if k < before.len() {
        lemma_labels_bear_ids(ids, found, n - 1, k);
    }
}

/// A labelling names parameters of the map only.
pub proof fn labels_name_parameters(ids: Seq<Seq<char>>, found: Seq<Seq<Seq<usize>>>, k: int)
    requires
        0 <= k < merged(labelled(ids, found)).len(),
    ensures
        ids.contains(merged(labelled(ids, found))[k].1),
{
    let writes = labelled(ids, found);
    let key = unique(keys(writes))[k];
    crate::assoc::lemma_unique(keys(writes));
    crate::assoc::lemma_last_write_is_some(writes, key);
    crate::assoc::lemma_last_write_is_a_pair(writes, key);
    let pair = (key, last_write(writes, key).unwrap());
    let j = choose|j: int| 0 <= j < writes.len() && writes[j] == pair;
    lemma_labels_bear_ids(ids, found, searched(ids, found), j);
}

/// Labelling is a function of the order of the parameters and of what the
/// search found: two assignments that both meet the contract of
/// `label_molecule` for the same map and the same matches are equal.
pub proof fn labelling_is_deterministic(
    params: ParameterMap,
    found: Seq<Seq<Seq<usize>>>,
    once: Assignment,
    again: Assignment,
)
    requires
        once@ == params.labels(found),
        again@ == params.labels(found),
    ensures
        once@ == again@,
{
}

/// Label one molecule with the parameters of `params`, given what the search
/// found in it for each pattern.
pub fn label_molecule(found: &Vec<Vec<Vec<usize>>>, params: &ParameterMap) -> (labels: Assignment)
    ensures
        labels@ == params.labels(found_view(found@)),
        well_formed(labels@),
{
    params.label_molecule(found)
}

} // verus!
