//! Environments whose parameter differs between two force fields.

use vstd::prelude::*;
use crate::assignment::{pairs_view, well_formed, Assignment};
use crate::assoc::{keys, last_write};
use crate::assoc::lemma_last_write_is_some;
use crate::parameter_map::{found_view, ParameterMap};

verus! {

/// Whether the entry `p` of one assignment has another parameter in the
/// assignment `b`.
pub open spec fn has_moved(b: Seq<(Seq<usize>, Seq<char>)>, p: (Seq<usize>, Seq<char>)) -> bool {
    last_write(b, p.0) is Some && last_write(b, p.0) != Some(p.1)
}

/// The environments that both assignments hold with different parameters:
/// for each, in the order of `a`, the environment, its parameter in `a` and
/// its parameter in `b`.
pub open spec fn moves(a: Seq<(Seq<usize>, Seq<char>)>, b: Seq<(Seq<usize>, Seq<char>)>) -> Seq<
    (Seq<usize>, Seq<char>, Seq<char>),
> {
    a.filter(|p: (Seq<usize>, Seq<char>)| has_moved(b, p)).map_values(
        |p: (Seq<usize>, Seq<char>)| (p.0, p.1, last_write(b, p.0).unwrap()),
    )
}

/// The environments of `a` that `b` does not hold, in the order of `a`.
pub open spec fn unknown_to(
    a: Seq<(Seq<usize>, Seq<char>)>,
    b: Seq<(Seq<usize>, Seq<char>)>,
) -> Seq<Seq<usize>> {
    keys(a).filter(|e: Seq<usize>| !keys(b).contains(e))
}

/// Whether two assignments hold the same environments. Only then can they be
/// compared.
pub open spec fn comparable(
    a: Seq<(Seq<usize>, Seq<char>)>,
    b: Seq<(Seq<usize>, Seq<char>)>,
) -> bool {
    unknown_to(a, b).len() == 0 && unknown_to(b, a).len() == 0
}

/// An environment that one of two assignments holds and the other does not:
/// the first such environment of `a`, or else the first of `b`.
pub open spec fn stray(a: Seq<(Seq<usize>, Seq<char>)>, b: Seq<(Seq<usize>, Seq<char>)>) -> Seq<
    usize,
> {
    if unknown_to(a, b).len() > 0 {
        unknown_to(a, b)[0]
    } else {
        unknown_to(b, a)[0]
    }
}

/// The mathematical triples behind a vector of environment and two
/// identifiers.
pub open spec fn triples_view(v: Seq<(Vec<usize>, String, String)>) -> Seq<
    (Seq<usize>, Seq<char>, Seq<char>),
> {
    v.map_values(|t: (Vec<usize>, String, String)| (t.0@, t.1@, t.2@))
}

/// One environment whose parameter differs between two force fields.
#[derive(Clone, Debug, PartialEq, Eq)]
pub struct Moved {
    /// The identifier of the molecule.
    pub molecule: String,
    /// The environment, in canonical orientation.
    pub environment: Vec<usize>,
    /// The parameter that the first force field assigns.
    pub from: String,
    /// The parameter that the second force field assigns.
    pub to: String,
}

impl View for Moved {
    type V = (Seq<char>, Seq<usize>, Seq<char>, Seq<char>);

    open spec fn view(&self) -> (Seq<char>, Seq<usize>, Seq<char>, Seq<char>) {
        (self.molecule@, self.environment@, self.from@, self.to@)
    }
}

/// Two force fields that do not label the same environments of a molecule:
/// they cannot be compared.
#[derive(Clone, Debug, PartialEq, Eq)]
pub struct Inconsistent {
    /// The identifier of the molecule.
    pub molecule: String,
    /// An environment that one force field labels and the other does not.
    pub environment: Vec<usize>,
}

/// The moves of one molecule, each beside the molecule's identifier.
pub open spec fn tagged(molecule: Seq<char>, ms: Seq<(Seq<usize>, Seq<char>, Seq<char>)>) -> Seq<
    (Seq<char>, Seq<usize>, Seq<char>, Seq<char>),
> {
    ms.map_values(|m: (Seq<usize>, Seq<char>, Seq<char>)| (molecule, m.0, m.1, m.2))
}

/// The views of a vector of moves.
pub open spec fn moved_view(v: Seq<Moved>) -> Seq<(Seq<char>, Seq<usize>, Seq<char>, Seq<char>)> {
    v.map_values(|m: Moved| m@)
}

/// The environments of `a` and `b` agree up to the first `n` entries of `a`.
proof fn lemma_unknown_push(
    a: Seq<(Seq<usize>, Seq<char>)>,
    p: (Seq<usize>, Seq<char>),
    b: Seq<(Seq<usize>, Seq<char>)>,
)
    ensures
        unknown_to(a.push(p), b) == if keys(b).contains(p.0) {
            unknown_to(a, b)
        } else {
            unknown_to(a, b).push(p.0)
        },
{
    assert(keys(a.push(p)) =~= keys(a).push(p.0));
    keys(a).lemma_filter_push(p.0, |e: Seq<usize>| !keys(b).contains(e));
}

/// The unknown environments of a whole assignment begin with those of its
/// first entries.
proof fn lemma_unknown_prefix(
    a: Seq<(Seq<usize>, Seq<char>)>,
    n: int,
    b: Seq<(Seq<usize>, Seq<char>)>,
)
    requires
        0 <= n <= a.len(),
    ensures
        unknown_to(a, b) == unknown_to(a.take(n), b) + unknown_to(a.skip(n), b),
{
    assert(keys(a) =~= keys(a.take(n)) + keys(a.skip(n)));
}

/// One more entry of `a` adds a move where `b` holds its environment with
/// another parameter.
proof fn lemma_moves_push(
    a: Seq<(Seq<usize>, Seq<char>)>,
    p: (Seq<usize>, Seq<char>),
    b: Seq<(Seq<usize>, Seq<char>)>,
)
    ensures
        moves(a.push(p), b) == if has_moved(b, p) {
            moves(a, b).push((p.0, p.1, last_write(b, p.0).unwrap()))
        } else {
            moves(a, b)
        },
{
    let changed = |p: (Seq<usize>, Seq<char>)| has_moved(b, p);
    a.lemma_filter_push(p, changed);
}

/// A move is an environment that both assignments hold, with the two
/// parameters that they give it, which differ.
pub proof fn moves_are_the_disagreements(
    a: Seq<(Seq<usize>, Seq<char>)>,
    b: Seq<(Seq<usize>, Seq<char>)>,
    e: Seq<usize>,
    p: Seq<char>,
    q: Seq<char>,
)
    requires
        keys(a).no_duplicates(),
    ensures
        moves(a, b).contains((e, p, q)) <==> last_write(a, e) == Some(p) && last_write(b, e)
            == Some(q) && p != q,
    decreases a.len(),
{
    if a.len() != 0 {
        let rest = a.drop_last();
        let last = a.last();
        assert(rest.push(last) =~= a);
        assert(keys(rest) =~= keys(a).drop_last());
        lemma_moves_push(rest, last, b);
        moves_are_the_disagreements(rest, b, e, p, q);
        vstd::seq_lib::lemma_seq_contains_after_push(
            moves(rest, b),
            (last.0, last.1, last_write(b, last.0).unwrap()),
            (e, p, q),
        );
        if last.0 == e {
            lemma_last_write_is_some(rest, e);
            if keys(rest).contains(e) {
                let i = choose|i: int| 0 <= i < keys(rest).len() && keys(rest)[i] == e;
                assert(keys(a)[i] == keys(a)[a.len() - 1]);
            }
        }
    }
}

/// Comparing is symmetric: the two force fields taken the other way round
/// give the same environments, each with its two parameters exchanged.
pub proof fn moves_are_symmetric(
    a: Seq<(Seq<usize>, Seq<char>)>,
    b: Seq<(Seq<usize>, Seq<char>)>,
    e: Seq<usize>,
    p: Seq<char>,
    q: Seq<char>,
)
    requires
        well_formed(a),
        well_formed(b),
    ensures
        moves(a, b).contains((e, p, q)) <==> moves(b, a).contains((e, q, p)),
{
    moves_are_the_disagreements(a, b, e, p, q);
    moves_are_the_disagreements(b, a, e, q, p);
}

/// Two assignments are comparable exactly when each environment of one is an
/// environment of the other.
pub proof fn comparable_means_same_environments(
    a: Seq<(Seq<usize>, Seq<char>)>,
    b: Seq<(Seq<usize>, Seq<char>)>,
)
    ensures
        comparable(a, b) <==> forall|e: Seq<usize>| keys(a).contains(e) <==> keys(b).contains(e),
{
    lemma_none_unknown(a, b);
    lemma_none_unknown(b, a);
}

/// No environment of `a` is unknown to `b` exactly when `b` holds them all.
proof fn lemma_none_unknown(a: Seq<(Seq<usize>, Seq<char>)>, b: Seq<(Seq<usize>, Seq<char>)>)
    ensures
        unknown_to(a, b).len() == 0 <==> forall|e: Seq<usize>|
            keys(a).contains(e) ==> keys(b).contains(e),
{
    let lacks = |e: Seq<usize>| !keys(b).contains(e);
    if unknown_to(a, b).len() == 0 {
        assert forall|e: Seq<usize>| keys(a).contains(e) implies keys(b).contains(e) by {
            let i = choose|i: int| 0 <= i < keys(a).len() && keys(a)[i] == e;
            if !keys(b).contains(e) {
                keys(a).lemma_filter_contains(lacks, i);
            }
        }
    } else {
        keys(a).lemma_filter_contains_rev(lacks, unknown_to(a, b)[0]);
    }
}

/// The environments of `a` that have another parameter in `b`, or, where `a`
/// is not yet known to hold only environments of `b`, the first environment
/// of `a` that `b` lacks.
fn moves_or_unknown(a: &Assignment, b: &Assignment) -> (r: Result<
    Vec<(Vec<usize>, String, String)>,
    Vec<usize>,
>)
    ensures
        match r {
            Ok(out) => unknown_to(a@, b@).len() == 0 && triples_view(out@) == moves(a@, b@),
            Err(e) => unknown_to(a@, b@).len() > 0 && e@ == unknown_to(a@, b@)[0],
        },
{
    let entries = a.entries();
    let ghost av = a@;
    let ghost bv = b@;
    let mut out: Vec<(Vec<usize>, String, String)> = Vec::new();
    let mut i: usize = 0;
    while i < entries.len()
        invariant
            i <= entries.len(),
            av == a@,
            bv == b@,
            pairs_view(entries@) == av,
            well_formed(av),
            unknown_to(av.take(i as int), bv).len() == 0,
            triples_view(out@) == moves(av.take(i as int), bv),
        decreases entries.len() - i,
    {
        let env: &Vec<usize> = &entries[i].0;
        let pid: &String = &entries[i].1;
        let ghost p = av[i as int];
        proof {
            assert(av.take(i + 1) =~= av.take(i as int).push(p));
            lemma_unknown_push(av.take(i as int), p, bv);
            lemma_moves_push(av.take(i as int), p, bv);
            lemma_last_write_is_some(bv, env@);
        }
        match b.get(env) {
            Some(other) => {
                if *other != *pid {
                    out.push((env.clone(), pid.clone(), other.clone()));
                }
            },
            None => {
                proof {
                    lemma_unknown_prefix(av, i + 1, bv);
                }
                return Err(env.clone());
            },
        }
        i = i + 1;
    }
    assert(av.take(entries.len() as int) =~= av);
    Ok(out)
}

/// Compare the assignments that two force fields give to one molecule. Where
/// both hold the same environments, the result lists those that have
/// different parameters, in the order of `a`, each with its parameter in `a`
/// and its parameter in `b`. Where they do not, the two cannot be compared,
/// and the result is an environment that only one of them holds.
pub fn compare(a: &Assignment, b: &Assignment) -> (r: Result<
    Vec<(Vec<usize>, String, String)>,
    Vec<usize>,
>)
    ensures
        match r {
            Ok(out) => comparable(a@, b@) && triples_view(out@) == moves(a@, b@),
            Err(e) => !comparable(a@, b@) && e@ == stray(a@, b@),
        },
{
    match moves_or_unknown(a, b) {
        Err(e) => Err(e),
        Ok(out) => {
            match moves_or_unknown(b, a) {
                Err(e) => Err(e),
                Ok(_) => Ok(out),
            }
        },
    }
}

/// What comparing the first `n` molecules yields, given that each can be
/// compared.
pub open spec fn moves_of_first(
    molecules: Seq<(String, Vec<Vec<Vec<usize>>>, Vec<Vec<Vec<usize>>>)>,
    first: ParameterMap,
    second: ParameterMap,
    n: int,
) -> Seq<(Seq<char>, Seq<usize>, Seq<char>, Seq<char>)>
    decreases n,
{
    if n <= 0 {
        Seq::empty()
    } else {
        moves_of_first(molecules, first, second, n - 1) + tagged(
            molecules[n - 1].0@,
            moves(
                first.labels(found_view(molecules[n - 1].1@)),
                second.labels(found_view(molecules[n - 1].2@)),
            ),
        )
    }
}

/// Whether the two force fields label the same environments of a molecule.
pub open spec fn consistent(
    molecule: (String, Vec<Vec<Vec<usize>>>, Vec<Vec<Vec<usize>>>),
    first: ParameterMap,
    second: ParameterMap,
) -> bool {
    comparable(first.labels(found_view(molecule.1@)), second.labels(found_view(molecule.2@)))
}

/// The molecules with the two searches of each exchanged.
pub open spec fn exchanged(
    molecules: Seq<(String, Vec<Vec<Vec<usize>>>, Vec<Vec<Vec<usize>>>)>,
) -> Seq<(String, Vec<Vec<Vec<usize>>>, Vec<Vec<Vec<usize>>>)> {
    molecules.map_values(
        |m: (String, Vec<Vec<Vec<usize>>>, Vec<Vec<Vec<usize>>>)| (m.0, m.2, m.1),
    )
}

/// A tagged move is a move of the molecule whose identifier it bears.
proof fn lemma_tagged_contains(
    molecule: Seq<char>,
    ms: Seq<(Seq<usize>, Seq<char>, Seq<char>)>,
    id: Seq<char>,
    e: Seq<usize>,
    p: Seq<char>,
    q: Seq<char>,
)
    ensures
        tagged(molecule, ms).contains((id, e, p, q)) <==> id == molecule && ms.contains((e, p, q)),
{
    let t = tagged(molecule, ms);
    if id == molecule && ms.contains((e, p, q)) {
        let i = choose|i: int| 0 <= i < ms.len() && ms[i] == (e, p, q);
        assert(t[i] == (id, e, p, q));
    }
}

/// The report is symmetric: with the two force fields exchanged, it holds
/// the same environments of the same molecules, each with its two
/// parameters exchanged.
pub proof fn diff_is_symmetric(
    molecules: Seq<(String, Vec<Vec<Vec<usize>>>, Vec<Vec<Vec<usize>>>)>,
    first: ParameterMap,
    second: ParameterMap,
    n: int,
    id: Seq<char>,
    e: Seq<usize>,
    p: Seq<char>,
    q: Seq<char>,
)
    requires
        0 <= n <= molecules.len(),
    ensures
        moves_of_first(molecules, first, second, n).contains((id, e, p, q)) <==> moves_of_first(
            exchanged(molecules),
            second,
            first,
            n,
        ).contains((id, e, q, p)),
    decreases n,
{
    if n > 0 {
        diff_is_symmetric(molecules, first, second, n - 1, id, e, p, q);
        let m = molecules[n - 1];
        let a = first.labels(found_view(m.1@));
        let b = second.labels(found_view(m.2@));
        crate::assoc::lemma_merged(
            crate::parameter_map::labelled(first.ids(), found_view(m.1@)),
        );
        crate::assoc::lemma_merged(
            crate::parameter_map::labelled(second.ids(), found_view(m.2@)),
        );
        moves_are_the_disagreements(a, b, e, p, q);
        moves_are_the_disagreements(b, a, e, q, p);
        lemma_tagged_contains(m.0@, moves(a, b), id, e, p, q);
        lemma_tagged_contains(m.0@, moves(b, a), id, e, q, p);
        vstd::seq_lib::lemma_seq_concat_contains_all_elements(
            moves_of_first(molecules, first, second, n - 1),
            tagged(m.0@, moves(a, b)),
            (id, e, p, q),
        );
        vstd::seq_lib::lemma_seq_concat_contains_all_elements(
            moves_of_first(exchanged(molecules), second, first, n - 1),
            tagged(m.0@, moves(b, a)),
            (id, e, q, p),
        );
    }
}

/// Whether molecule `i` is the first of which the two force fields do not
/// label the same environments.
pub open spec fn first_inconsistent(
    molecules: Seq<(String, Vec<Vec<Vec<usize>>>, Vec<Vec<Vec<usize>>>)>,
    first: ParameterMap,
    second: ParameterMap,
    i: int,
) -> bool {
    &&& 0 <= i < molecules.len()
    &&& !consistent(molecules[i], first, second)
    &&& forall|j: int| 0 <= j < i ==> consistent(#[trigger] molecules[j], first, second)
}

/// Report every environment to which two force fields assign different
/// parameters. Each molecule comes with its identifier and with what the
/// search found in it for the patterns of the first and of the second force
/// field. The molecules are taken in order, and the environments of a
/// molecule in the order in which the first force field labels them.
///
/// The two force fields must label the same environments of every molecule.
/// Where they do not, nothing is reported but the first molecule in which
/// they differ, with an environment that only one of them labels.
pub fn diff(
    molecules: &Vec<(String, Vec<Vec<Vec<usize>>>, Vec<Vec<Vec<usize>>>)>,
    first: &ParameterMap,
    second: &ParameterMap,
) -> (r: Result<Vec<Moved>, Inconsistent>)
    ensures
        match r {
            Ok(out) => {
                &&& forall|i: int|
                    0 <= i < molecules.len() ==> consistent(
                        #[trigger] molecules[i],
                        *first,
                        *second,
                    )
                &&& moved_view(out@) == moves_of_first(
                    molecules@,
                    *first,
                    *second,
                    molecules.len() as int,
                )
            },
            Err(bad) => exists|i: int| #[trigger]
                first_inconsistent(molecules@, *first, *second, i) && bad.molecule@
                    == molecules[i].0@ && bad.environment@ == stray(
                    first.labels(found_view(molecules[i].1@)),
                    second.labels(found_view(molecules[i].2@)),
                ),
        },
{
    let mut out: Vec<Moved> = Vec::new();
    let mut i: usize = 0;
    while i < molecules.len()
        invariant
            i <= molecules.len(),
            forall|j: int| 0 <= j < i ==> consistent(#[trigger] molecules[j], *first, *second),
            moved_view(out@) == moves_of_first(molecules@, *first, *second, i as int),
        decreases molecules.len() - i,
    {
        let id: &String = &molecules[i].0;
        let a = first.label_molecule(&molecules[i].1);
        let b = second.label_molecule(&molecules[i].2);
        match compare(&a, &b) {
            Err(environment) => {
                assert(first_inconsistent(molecules@, *first, *second, i as int));
                return Err(Inconsistent { molecule: id.clone(), environment });
            },
            Ok(found) => {
                let ghost done = moved_view(out@);
                let ghost ms = moves(a@, b@);
                let mut k: usize = 0;
                for t in it: found
                    invariant
                        triples_view(it.seq()) == ms,
                        moved_view(out@) == done + tagged(id@, ms.take(it.index() as int)),
                {
                    let ghost k = it.index() as int;
                    let ghost before = moved_view(out@);
                    let (environment, from, to) = t;
                    out.push(Moved { molecule: id.clone(), environment, from, to });
                    assert(moved_view(out@) =~= before.push((id@, environment@, from@, to@)));
                }
            },
        }
        i = i + 1;
    }
    Ok(out)
}

} // verus!
