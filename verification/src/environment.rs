//! Chemical environments: atom-index tuples and their canonical orientation.
//!
//! A pattern search reports an environment as the tuple of atom indices that
//! the pattern matched, in the direction in which the search walked the
//! molecule. A tuple and its reversal are the same bond, angle or torsion, so
//! every table is keyed by one orientation of the two: the canonical one.

use vstd::prelude::*;

verus! {

/// The canonical orientation of an atom tuple: the tuple itself where its
/// first index is not larger than its last, and its reversal otherwise.
pub open spec fn canonical(e: Seq<usize>) -> Seq<usize> {
    if e.len() > 0 && e.first() > e.last() {
        e.reverse()
    } else {
        e
    }
}

/// Whether `e` is a non-empty tuple in canonical orientation.
pub open spec fn is_canonical(e: Seq<usize>) -> bool {
    e.len() > 0 && e.first() <= e.last()
}

/// Whether a match names an environment. A match of no atom, or of a single
/// atom, names none and counts as no match.
pub open spec fn names_environment(m: Seq<usize>) -> bool {
    m.len() >= 2
}

/// Whether two atom tuples are the same environment: equal, or one the
/// reversal of the other.
pub open spec fn same_up_to_reversal(a: Seq<usize>, b: Seq<usize>) -> bool {
    a == b || a.reverse() == b
}

/// Bring a matched atom tuple into its canonical orientation.
pub fn canonicalize(env: Vec<usize>) -> (out: Vec<usize>)
    requires
        env.len() > 0,
    ensures
        out@ == canonical(env@),
        is_canonical(out@),
{
    let n: usize = env.len();
    if env[0] > env[n - 1] {
        reversed(&env)
    } else {
        env
    }
}

/// A copy of a matched atom tuple in its canonical orientation.
pub fn canonical_copy(env: &Vec<usize>) -> (out: Vec<usize>)
    requires
        env.len() > 0,
    ensures
        out@ == canonical(env@),
        is_canonical(out@),
{
    let n: usize = env.len();
    if env[0] > env[n - 1] {
        reversed(env)
    } else {
        env.clone()
    }
}

/// The atoms of `env` in the opposite order.
pub fn reversed(env: &Vec<usize>) -> (out: Vec<usize>)
    ensures
        out@ == env@.reverse(),
{
    let n: usize = env.len();
    let mut out: Vec<usize> = Vec::with_capacity(n);
    let mut i: usize = n;
    while i > 0
        invariant
            n == env.len(),
            i <= n,
            out.len() == n - i,
            forall|k: int| 0 <= k < out.len() ==> out[k] == env[n - 1 - k],
        decreases i,
    {
        i = i - 1;
        out.push(env[i]);
    }
    out
}

/// Whether two atom tuples hold the same indices in the same order.
pub fn same_atoms(a: &Vec<usize>, b: &Vec<usize>) -> (same: bool)
    ensures
        same == (a@ == b@),
{
    if a.len() != b.len() {
        return false;
    }
    let mut i: usize = 0;
    while i < a.len()
        invariant
            a.len() == b.len(),
            i <= a.len(),
            forall|k: int| 0 <= k < i ==> a[k] == b[k],
        decreases a.len() - i,
    {
        if a[i] != b[i] {
            return false;
        }
        i = i + 1;
    }
    assert(a@ =~= b@);
    true
}

/// Whether `env` read backwards is `other`.
fn mirrors(env: &Vec<usize>, other: &Vec<usize>) -> (mirrored: bool)
    ensures
        mirrored == (env@.reverse() == other@),
{
    let n: usize = env.len();
    if n != other.len() {
        return false;
    }
    let mut i: usize = 0;
    while i < n
        invariant
            n == env.len(),
            n == other.len(),
            i <= n,
            forall|k: int| 0 <= k < i ==> env[n - 1 - k] == other[k],
        decreases n - i,
    {
        if env[n - 1 - i] != other[i] {
            return false;
        }
        i = i + 1;
    }
    assert(env@.reverse() =~= other@);
    true
}

/// Whether `env` is the environment that `reference` names, in either
/// direction.
pub fn matches_reference(env: &Vec<usize>, reference: &Vec<usize>) -> (same: bool)
    ensures
        same == same_up_to_reversal(env@, reference@),
{
    same_atoms(env, reference) || mirrors(env, reference)
}

/// Canonicalization is idempotent: the canonical orientation of a canonical
/// tuple is that tuple.
pub proof fn canonical_is_idempotent(e: Seq<usize>)
    ensures
        canonical(canonical(e)) == canonical(e),
{
}

/// The canonical orientation is one of the two orientations of the tuple, has
/// its length, and runs from the smaller end to the larger.
pub proof fn canonical_is_an_orientation(e: Seq<usize>)
    ensures
        same_up_to_reversal(e, canonical(e)),
        canonical(e).len() == e.len(),
        e.len() > 0 ==> is_canonical(canonical(e)),
{
}

/// Canonicalization is symmetric: a tuple and its reversal have the same
/// canonical orientation. This holds of every tuple whose two ends differ,
/// and of every tuple that reads the same in both directions. A tuple with
/// equal ends that is no palindrome has no preferred direction, and it and
/// its reversal are each their own canonical orientation.
pub proof fn canonical_ignores_direction(e: Seq<usize>)
    requires
        e.len() > 0 ==> e.first() != e.last() || e.reverse() == e,
    ensures
        canonical(e.reverse()) == canonical(e),
{
}

/// Two tuples that are the same environment have the same canonical
/// orientation, provided the ends of one of them differ.
pub proof fn same_environment_same_key(a: Seq<usize>, b: Seq<usize>)
    requires
        same_up_to_reversal(a, b),
        a.len() > 0 ==> a.first() != a.last(),
    ensures
        canonical(a) == canonical(b),
{
}

/// Two canonical tuples that are the same environment are equal, provided the
/// ends of one of them differ: no table keyed by canonical tuples holds one
/// environment twice.
pub proof fn canonical_keys_are_unique(a: Seq<usize>, b: Seq<usize>)
    requires
        is_canonical(a),
        is_canonical(b),
        same_up_to_reversal(a, b),
        a.first() != a.last(),
    ensures
        a == b,
{
}

} // verus!
