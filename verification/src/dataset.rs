//! Datasets: which molecule each record is about.

use vstd::prelude::*;
use crate::assoc::{keys, last_write, merged, put, unique};
use crate::assoc::{lemma_last_write_at, lemma_last_write_is_some, lemma_last_write_push};
use crate::assoc::{lemma_merged_is_unique, lemma_put, lemma_unique_push};
use crate::record::Record;
use crate::string_set::{texts, StringSet};
use crate::text::{decimal, decimal_string};

verus! {

/// One entry of a dataset.
#[derive(Clone, Debug, PartialEq, Eq)]
pub struct Entry {
    /// The identifier of the record.
    pub record_id: String,
    /// The molecule of the record, in a linear notation.
    pub cmiles: String,
}

/// A dataset as it is stored: groups of entries, each group under a name.
#[derive(Clone, Debug, PartialEq, Eq)]
pub struct Dataset {
    /// The groups, each a name and its entries.
    pub entries: Vec<(String, Vec<Entry>)>,
}

/// The identifier and the molecule of each entry, in order.
pub open spec fn entry_pairs(entries: Seq<Entry>) -> Seq<(Seq<char>, Seq<char>)> {
    entries.map_values(|e: Entry| (e.record_id@, e.cmiles@))
}

/// The entries of the first `n` groups, one group after the other.
pub open spec fn entries_of_first(groups: Seq<(String, Vec<Entry>)>, n: int) -> Seq<
    (Seq<char>, Seq<char>),
>
    decreases n,
{
    if n <= 0 {
        Seq::empty()
    } else {
        entries_of_first(groups, n - 1) + entry_pairs(groups[n - 1].1@)
    }
}

/// The entries of all groups, one group after the other.
pub open spec fn all_entries(groups: Seq<(String, Vec<Entry>)>) -> Seq<(Seq<char>, Seq<char>)> {
    entries_of_first(groups, groups.len() as int)
}

/// The molecules of a dataset, by record identifier.
///
/// Its view is the sequence of (identifier, molecule) pairs, in the order in
/// which the identifiers first came.
pub struct SmilesMap {
    ids: StringSet,
    smiles: Vec<String>,
}

impl View for SmilesMap {
    type V = Seq<(Seq<char>, Seq<char>)>;

    closed spec fn view(&self) -> Seq<(Seq<char>, Seq<char>)> {
        Seq::new(self.smiles.len() as nat, |i: int| (self.ids@[i], self.smiles[i]@))
    }
}

impl SmilesMap {
    #[verifier::type_invariant]
    spec fn valid(self) -> bool {
        &&& self.ids@.len() == self.smiles.len()
        &&& self.ids@.no_duplicates()
    }

    /// The molecule of the record with the number `id`, if the dataset has
    /// that record.
    pub open spec fn molecule_of(&self, id: usize) -> Option<Seq<char>> {
        last_write(self@, decimal(id as nat))
    }

    /// The dataset without records.
    pub fn new() -> (map: SmilesMap)
        ensures
            map@ == Seq::<(Seq<char>, Seq<char>)>::empty(),
    {
        SmilesMap { ids: StringSet::new(), smiles: Vec::new() }
    }

    /// The number of records.
    pub fn len(&self) -> (n: usize)
        ensures
            n == self@.len(),
            keys(self@).no_duplicates(),
    {
        proof {
            use_type_invariant(self);
        }
        self.smiles.len()
    }

    /// Whether the dataset has no record.
    pub fn is_empty(&self) -> (empty: bool)
        ensures
            empty == (self@.len() == 0),
    {
        self.smiles.len() == 0
    }

    /// The record identifiers, in order.
    pub fn record_ids(&self) -> (ids: &Vec<String>)
        ensures
            texts(ids@) == keys(self@),
            keys(self@).no_duplicates(),
    {
        proof {
            use_type_invariant(self);
        }
        self.ids.items()
    }

    /// The molecules, in the order of the record identifiers.
    pub fn molecules(&self) -> (smiles: &Vec<String>)
        ensures
            texts(smiles@) == crate::assoc::values(self@),
    {
        &self.smiles
    }

    /// Set the molecule of the record `record_id`. What the dataset held for
    /// that record before is overwritten.
    pub fn insert(&mut self, record_id: String, smiles: String)
        ensures
            final(self)@ == put(old(self)@, record_id@, smiles@),
            keys(final(self)@).no_duplicates(),
    {
        let mut taken = SmilesMap::new();
        core::mem::swap(self, &mut taken);
        let ghost before = taken@;
        proof {
            use_type_invariant(&taken);
            assert(keys(before) =~= taken.ids@);
        }
        let SmilesMap { mut ids, smiles: mut molecules } = taken;
        match ids.position(&record_id) {
            Some(i) => {
                molecules[i] = smiles;
                let map = SmilesMap { ids, smiles: molecules };
                *self = map;
            },
            None => {
                ids.insert(record_id);
                molecules.push(smiles);
                let map = SmilesMap { ids, smiles: molecules };
                *self = map;
            },
        }
    }

    /// The molecule of the record `record_id`, if the dataset has that
    /// record.
    pub fn get(&self, record_id: &String) -> (smiles: Option<&String>)
        ensures
            match smiles {
                Some(s) => last_write(self@, record_id@) == Some(s@),
                None => last_write(self@, record_id@) is None,
            },
    {
        proof {
            use_type_invariant(self);
            lemma_last_write_is_some(self@, record_id@);
        }
        match self.ids.position(record_id) {
            Some(i) => {
                proof {
                    lemma_last_write_at(self@, i as int);
                }
                Some(&self.smiles[i])
            },
            None => None,
        }
    }

    /// The molecule of the record with the number `id`: the dataset holds it
    /// under the decimal numeral of `id`.
    pub fn smiles_of(&self, id: usize) -> (smiles: Option<&String>)
        ensures
            match smiles {
                Some(s) => self.molecule_of(id) == Some(s@),
                None => self.molecule_of(id) is None,
            },
    {
        let key = decimal_string(id);
        self.get(&key)
    }
}

/// Flatten a dataset into one map from record identifier to molecule. The
/// groups are taken in order, and the entries of a group in order; where an
/// identifier occurs more than once, its last entry wins.
pub fn load_dataset(dataset: Dataset) -> (map: SmilesMap)
    ensures
        map@ == merged(all_entries(dataset.entries@)),
        keys(map@).no_duplicates(),
{
    let mut map = SmilesMap::new();
    let ghost groups = dataset.entries@;
    for group in outer: dataset.entries
        invariant
            outer.seq() == groups,
            keys(map@).no_duplicates(),
            keys(map@) == unique(keys(entries_of_first(groups, outer.index() as int))),
            forall|k: Seq<char>|
                last_write(map@, k) == last_write(
                    entries_of_first(groups, outer.index() as int),
                    k,
                ),
    {
        let ghost g = outer.index() as int;
        let ghost done = entries_of_first(groups, g);
        let (_name, entries) = group;
        let ghost es = entry_pairs(entries@);
        let ghost whole = entries@;
        for entry in inner: entries
            invariant
                inner.seq() == whole,
                es == entry_pairs(whole),
                keys(map@).no_duplicates(),
                keys(map@) == unique(keys(done + es.take(inner.index() as int))),
                forall|k: Seq<char>|
                    last_write(map@, k) == last_write(done + es.take(inner.index() as int), k),
        {
            let ghost j = inner.index() as int;
            let ghost now = map@;
            let ghost written = done + es.take(j);
            let Entry { record_id, cmiles } = entry;
            proof {
                assert(done + es.take(j + 1) =~= written.push(es[j]));
                assert(keys(written.push(es[j])) =~= keys(written).push(record_id@));
                lemma_unique_push(keys(written), record_id@);
                lemma_put(now, record_id@, cmiles@);
            }
            map.insert(record_id, cmiles);
            proof {
                assert forall|k: Seq<char>|
                    last_write(map@, k) == last_write(done + es.take(j + 1), k) by {
                    lemma_last_write_push(written, record_id@, cmiles@, k);
                }
            }
        }
        proof {
            assert(es.take(es.len() as int) =~= es);
        }
    }
    proof {
        lemma_merged_is_unique(map@, all_entries(groups));
    }
    map
}

/// What to do with a record whose identifier the dataset does not hold.
#[derive(Clone, Copy, Debug, PartialEq, Eq)]
pub enum Policy {
    /// Give up: no record is processed.
    Strict,
    /// Leave the record out, and go on with the others.
    Lenient,
}

/// A record whose identifier the dataset does not hold.
#[derive(Clone, Copy, Debug, PartialEq, Eq)]
pub struct Unresolved {
    /// The number of the record.
    pub id: usize,
}

/// The records of a run, told apart by whether the dataset holds them.
pub struct Resolved<V> {
    /// The records that the dataset holds, each with its molecule.
    pub found: Vec<(Record<V>, String)>,
    /// The records that the dataset does not hold.
    pub missing: Vec<Record<V>>,
}

/// Whether the dataset holds the record.
pub open spec fn known<V>(dataset: SmilesMap, record: Record<V>) -> bool {
    dataset.molecule_of(record.id) is Some
}

/// The records that the dataset holds, in order.
pub open spec fn known_records<V>(records: Seq<Record<V>>, dataset: SmilesMap) -> Seq<Record<V>> {
    records.filter(|r: Record<V>| known(dataset, r))
}

/// The records that the dataset does not hold, in order.
pub open spec fn unknown_records<V>(records: Seq<Record<V>>, dataset: SmilesMap) -> Seq<
    Record<V>,
> {
    records.filter(|r: Record<V>| !known(dataset, r))
}

/// Each record with its molecule.
pub open spec fn with_molecules<V>(records: Seq<Record<V>>, dataset: SmilesMap) -> Seq<
    (Record<V>, Seq<char>),
> {
    records.map_values(|r: Record<V>| (r, dataset.molecule_of(r.id).unwrap()))
}

/// The records and the texts of their molecules.
pub open spec fn found_pairs<V>(found: Seq<(Record<V>, String)>) -> Seq<(Record<V>, Seq<char>)> {
    found.map_values(|p: (Record<V>, String)| (p.0, p.1@))
}

/// Look up the molecule of each record. A record that the dataset holds is
/// paired with its molecule. For one that it does not hold the policy
/// decides: under `Strict` nothing is resolved and the first such record is
/// returned as the error; under `Lenient` the record is set aside as missing
/// and the others are resolved.
pub fn resolve_records<V>(records: Vec<Record<V>>, dataset: &SmilesMap, policy: Policy) -> (r:
    Result<Resolved<V>, Unresolved>)
    ensures
        match r {
            Ok(resolved) => {
                &&& found_pairs(resolved.found@) == with_molecules(
                    known_records(records@, *dataset),
                    *dataset,
                )
                &&& resolved.missing@ == unknown_records(records@, *dataset)
                &&& policy is Strict ==> resolved.missing.len() == 0
            },
            Err(e) => {
                &&& policy is Strict
                &&& unknown_records(records@, *dataset).len() > 0
                &&& e.id == unknown_records(records@, *dataset)[0].id
            },
        },
{
    let mut found: Vec<(Record<V>, String)> = Vec::new();
    let mut missing: Vec<Record<V>> = Vec::new();
    let ghost whole = records@;
    let ghost held = |r: Record<V>| known(*dataset, r);
    let ghost lost = |r: Record<V>| !known(*dataset, r);
    let ghost pair = |r: Record<V>| (r, dataset.molecule_of(r.id).unwrap());
    for record in it: records
        invariant
            it.seq() == whole,
            held == (|r: Record<V>| known(*dataset, r)),
            lost == (|r: Record<V>| !known(*dataset, r)),
            pair == (|r: Record<V>| (r, dataset.molecule_of(r.id).unwrap())),
            found_pairs(found@) == with_molecules(
                known_records(whole.take(it.index() as int), *dataset),
                *dataset,
            ),
            missing@ == unknown_records(whole.take(it.index() as int), *dataset),
            policy is Strict ==> missing.len() == 0,
    {
        let ghost i = it.index() as int;
        let ghost done = whole.take(i);
        proof {
            assert(whole.take(i + 1) =~= done.push(record));
            done.lemma_filter_push(record, held);
            done.lemma_filter_push(record, lost);
        }
        match dataset.smiles_of(record.id) {
            Some(smiles) => {
                let text = smiles.clone();
                proof {
                    done.filter(held).lemma_push_map_commute(pair, record);
                }
                found.push((record, text));
            },
            None => {
                match policy {
                    Policy::Strict => {
                        proof {
                            assert(whole =~= whole.take(i + 1) + whole.skip(i + 1));
                        }
                        return Err(Unresolved { id: record.id });
                    },
                    Policy::Lenient => {
                        missing.push(record);
                    },
                }
            },
        }
    }
    assert(whole.take(whole.len() as int) =~= whole);
    Ok(Resolved { found, missing })
}

} // verus!
