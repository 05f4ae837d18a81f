//! The values of the terms of parameters, by name, for comparing force
//! fields term by term.

use vstd::prelude::*;
use vstd::string::StringExecFns;
use crate::text::{decimal, decimal_string};

verus! {

/// The name of term `i` of the parameter `id`, the first term being term 0:
/// the identifier, a full stop, and the number of the term counted from one.
pub open spec fn term_name(id: Seq<char>, i: int) -> Seq<char> {
    id + seq!['.'] + decimal((i + 1) as nat)
}

/// The first `n` terms of a parameter, each with its name.
pub open spec fn named_terms<V>(id: Seq<char>, values: Seq<V>, n: int) -> Seq<(Seq<char>, V)> {
    Seq::new(n as nat, |i: int| (term_name(id, i), values[i]))
}

/// The terms of the first `n` parameters, parameter after parameter.
pub open spec fn terms_of_first<V>(parameters: Seq<(String, Vec<V>)>, n: int) -> Seq<
    (Seq<char>, V),
>
    decreases n,
{
    if n <= 0 {
        Seq::empty()
    } else {
        terms_of_first(parameters, n - 1) + named_terms(
            parameters[n - 1].0@,
            parameters[n - 1].1@,
            parameters[n - 1].1@.len() as int,
        )
    }
}

/// The names and the values behind a vector of named terms.
pub open spec fn terms_view<V>(terms: Seq<(String, V)>) -> Seq<(Seq<char>, V)> {
    terms.map_values(|t: (String, V)| (t.0@, t.1))
}

/// The value of the first term with the name `name`.
pub open spec fn first_named<V>(terms: Seq<(Seq<char>, V)>, name: Seq<char>) -> Option<V>
    decreases terms.len(),
{
    if terms.len() == 0 {
        None
    } else if terms[0].0 == name {
        Some(terms[0].1)
    } else {
        first_named(terms.skip(1), name)
    }
}

/// The terms of the parameters of a force field, each with its name. Each
/// parameter comes with its identifier and with the values of its terms.
pub fn get_params<V>(parameters: Vec<(String, Vec<V>)>) -> (terms: Vec<(String, V)>)
    ensures
        terms_view(terms@) == terms_of_first(parameters@, parameters.len() as int),
{
    let mut terms: Vec<(String, V)> = Vec::new();
    let ghost whole = parameters@;
    for parameter in outer: parameters
        invariant
            outer.seq() == whole,
            terms_view(terms@) == terms_of_first(whole, outer.index() as int),
    {
        let ghost done = terms_view(terms@);
        let (id, values) = parameter;
        let ghost vs = values@;
        let n: usize = values.len();
        let mut k: usize = 0;
        for value in inner: values
            invariant
                inner.seq() == vs,
                n == vs.len(),
                k == inner.index(),
                terms_view(terms@) == done + named_terms(id@, vs, k as int),
        {
            let ghost before = terms_view(terms@);
            let mut name = id.clone();
            name.append(".");
            let number = decimal_string(k + 1);
            name.append(number.as_str());
            proof {
                reveal_strlit(".");
                assert("."@ =~= seq!['.']);
            }
            terms.push((name, value));
            proof {
                assert(terms_view(terms@) =~= before.push((term_name(id@, k as int), value)));
            }
            k = k + 1;
        }
    }
    terms
}

/// The value of the first term with the name `name`, if there is one.
pub fn lookup<'a, V>(terms: &'a Vec<(String, V)>, name: &String) -> (value: Option<&'a V>)
    ensures
        match value {
            Some(v) => first_named(terms_view(terms@), name@) == Some(*v),
            None => first_named(terms_view(terms@), name@) is None,
        },
{
    let ghost all = terms_view(terms@);
    let mut i: usize = 0;
    assert(all.skip(0) =~= all);
    while i < terms.len()
        invariant
            i <= terms.len(),
            all == terms_view(terms@),
            first_named(all, name@) == first_named(all.skip(i as int), name@),
        decreases terms.len() - i,
    {
        if terms[i].0 == *name {
            return Some(&terms[i].1);
        }
        assert(all.skip(i as int).skip(1) =~= all.skip(i + 1));
        i = i + 1;
    }
    None
}

} // verus!
