//! Attribution of record values to the parameters that the records' molecules
//! use.

use vstd::prelude::*;
use crate::assoc::{keys, last_write, put, unique};
use crate::assoc::{lemma_last_write_at, lemma_last_write_is_some, lemma_put};
use crate::assoc::{lemma_unique_concat, lemma_unique_of_distinct, lemma_unique_push};
use crate::parameter_map::ParameterMap;
use crate::record::Record;
use crate::string_set::StringSet;

verus! {

/// The values blamed on `pid`: the value of each record whose molecule uses
/// `pid`, in the order of the records. A record counts once, however many
/// environments of its molecule the parameter wins.
pub open spec fn blamed_values<V>(processed: Seq<(Record<V>, StringSet)>, pid: Seq<char>) -> Seq<
    V,
> {
    processed.filter(|p: (Record<V>, StringSet)| p.1@.contains(pid)).map_values(
        |p: (Record<V>, StringSet)| p.0.value,
    )
}

/// The identifiers that the records' molecules use, record after record.
pub open spec fn all_ids<V>(processed: Seq<(Record<V>, StringSet)>) -> Seq<Seq<char>> {
    processed.map_values(|p: (Record<V>, StringSet)| p.1@).flatten()
}

/// The values that a table holds for `pid`: none where `pid` has no row.
pub open spec fn tally<V>(table: Seq<(Seq<char>, Seq<V>)>, pid: Seq<char>) -> Seq<V> {
    match last_write(table, pid) {
        Some(values) => values,
        None => Seq::empty(),
    }
}

/// For each parameter, the values of the records blamed on it. The number of
/// those values is the parameter's count, and their mean its mean error.
///
/// Its view is the sequence of rows, each an identifier and its values, in
/// the order in which the identifiers first came.
pub struct AttributionTable<V> {
    pids: StringSet,
    values: Vec<Vec<V>>,
}

impl<V> View for AttributionTable<V> {
    type V = Seq<(Seq<char>, Seq<V>)>;

    closed spec fn view(&self) -> Seq<(Seq<char>, Seq<V>)> {
        Seq::new(self.values.len() as nat, |i: int| (self.pids@[i], self.values[i]@))
    }
}

impl<V> AttributionTable<V> {
    #[verifier::type_invariant]
    spec fn valid(self) -> bool {
        &&& self.pids@.len() == self.values.len()
        &&& self.pids@.no_duplicates()
    }

    /// The table without rows: a parameter that no molecule uses will have
    /// no row.
    pub fn new() -> (table: AttributionTable<V>)
        ensures
            table@ == Seq::<(Seq<char>, Seq<V>)>::empty(),
    {
        AttributionTable { pids: StringSet::new(), values: Vec::new() }
    }

    /// The table with an empty row for each parameter of `params`: a
    /// parameter that no molecule uses will have a row with count zero.
    pub fn seeded(params: &ParameterMap) -> (table: AttributionTable<V>)
        ensures
            keys(table@) == unique(params.ids()),
            forall|pid: Seq<char>| tally(table@, pid) == Seq::<V>::empty(),
    {
        let ids = params.keys();
        let pids = StringSet::from_vec(ids);
        let m: usize = pids.len();
        let mut values: Vec<Vec<V>> = Vec::with_capacity(m);
        let mut i: usize = 0;
        while i < m
            invariant
                i <= m,
                values.len() == i,
                forall|j: int| 0 <= j < i ==> (#[trigger] values[j])@ == Seq::<V>::empty(),
            decreases m - i,
        {
            values.push(Vec::new());
            i = i + 1;
        }
        let table = AttributionTable { pids, values };
        proof {
            assert forall|pid: Seq<char>| tally(table@, pid) == Seq::<V>::empty() by {
                lemma_last_write_is_some(table@, pid);
                if keys(table@).contains(pid) {
                    let j = choose|j: int| 0 <= j < keys(table@).len() && keys(table@)[j] == pid;
                    lemma_last_write_at(table@, j);
                }
            }
        }
        table
    }

    /// The number of rows.
    pub fn len(&self) -> (n: usize)
        ensures
            n == self@.len(),
            keys(self@).no_duplicates(),
    {
        proof {
            use_type_invariant(self);
        }
        self.values.len()
    }

    /// Whether the table has no row.
    pub fn is_empty(&self) -> (empty: bool)
        ensures
            empty == (self@.len() == 0),
    {
        self.values.len() == 0
    }

    /// The identifiers of the rows, in order.
    pub fn pids(&self) -> (pids: &Vec<String>)
        ensures
            crate::string_set::texts(pids@) == keys(self@),
            keys(self@).no_duplicates(),
    {
        proof {
            use_type_invariant(self);
        }
        self.pids.items()
    }

    /// The values of row `i`.
    pub fn values_at(&self, i: usize) -> (values: &Vec<V>)
        requires
            i < self@.len(),
        ensures
            values@ == self@[i as int].1,
    {
        &self.values[i]
    }

    /// The values blamed on `pid`, if it has a row.
    pub fn get(&self, pid: &String) -> (values: Option<&Vec<V>>)
        ensures
            match values {
                Some(v) => last_write(self@, pid@) == Some(v@),
                None => last_write(self@, pid@) is None,
            },
    {
        proof {
            use_type_invariant(self);
            lemma_last_write_is_some(self@, pid@);
        }
        match self.pids.position(pid) {
            Some(i) => {
                proof {
                    lemma_last_write_at(self@, i as int);
                }
                Some(&self.values[i])
            },
            None => None,
        }
    }

    /// The number of records blamed on `pid`: zero where it has no row.
    pub fn count(&self, pid: &String) -> (n: usize)
        ensures
            n == tally(self@, pid@).len(),
    {
        match self.get(pid) {
            Some(values) => values.len(),
            None => 0,
        }
    }

    /// Blame one value on `pid`: it is added to the values of the row of
    /// `pid`, which is made at the end of the table where there is none.
    pub fn blame(&mut self, pid: &String, value: V)
        ensures
            final(self)@ == put(old(self)@, pid@, tally(old(self)@, pid@).push(value)),
            keys(final(self)@).no_duplicates(),
    {
        let mut taken = AttributionTable::new();
        core::mem::swap(self, &mut taken);
        proof {
            use_type_invariant(&taken);
            lemma_last_write_is_some(taken@, pid@);
        }
        let ghost before = taken@;
        let AttributionTable { mut pids, mut values } = taken;
        match pids.position(pid) {
            Some(i) => {
                proof {
                    lemma_last_write_at(before, i as int);
                }
                values[i].push(value);
                let table = AttributionTable { pids, values };
                *self = table;
            },
            None => {
                let mut first: Vec<V> = Vec::new();
                first.push(value);
                pids.insert(pid.clone());
                values.push(first);
                let table = AttributionTable { pids, values };
                *self = table;
            },
        }
    }
}

impl<V: Copy> AttributionTable<V> {
    /// Blame the value of one record on each parameter that its molecule
    /// uses.
    pub fn record(&mut self, record: &Record<V>, pids: &StringSet)
        ensures
            keys(final(self)@) == unique(keys(old(self)@) + pids@),
            keys(final(self)@).no_duplicates(),
            forall|pid: Seq<char>|
                tally(final(self)@, pid) == if pids@.contains(pid) {
                    tally(old(self)@, pid).push(record.value)
                } else {
                    tally(old(self)@, pid)
                },
    {
        let items = pids.items();
        let ghost names = pids@;
        let ghost before = self@;
        proof {
            use_type_invariant(&*self);
            lemma_unique_of_distinct(keys(before));
        }
        let mut j: usize = 0;
        while j < items.len()
            invariant
                j <= items.len(),
                names == pids@,
                crate::string_set::texts(items@) == names,
                names.no_duplicates(),
                keys(self@).no_duplicates(),
                keys(self@) == unique(keys(before) + names.take(j as int)),
                forall|pid: Seq<char>|
                    tally(self@, pid) == if names.take(j as int).contains(pid) {
                        tally(before, pid).push(record.value)
                    } else {
                        tally(before, pid)
                    },
            decreases items.len() - j,
        {
            let ghost now = self@;
            let ghost name = names[j as int];
            let value: V = record.value;
            proof {
                lemma_put(now, name, tally(now, name).push(value));
                lemma_unique_push(keys(before) + names.take(j as int), name);
                assert((keys(before) + names.take(j as int)).push(name) =~= keys(before)
                    + names.take(j + 1));
            }
            self.blame(&items[j], value);
            proof {
                assert forall|pid: Seq<char>|
                    tally(self@, pid) == if names.take(j + 1).contains(pid) {
                        tally(before, pid).push(record.value)
                    } else {
                        tally(before, pid)
                    } by {
                    let earlier = names.take(j as int);
                    let later = names.take(j + 1);
                    assert(tally(now, pid) == if earlier.contains(pid) {
                        tally(before, pid).push(record.value)
                    } else {
                        tally(before, pid)
                    });
                    if pid != name {
                        if later.contains(pid) {
                            let k = choose|k: int| 0 <= k < later.len() && later[k] == pid;
                            assert(earlier[k] == pid);
                        }
                        if earlier.contains(pid) {
                            let k = choose|k: int| 0 <= k < earlier.len() && earlier[k] == pid;
                            assert(later[k] == pid);
                        }
                    }
                }
            }
            j = j + 1;
        }
        assert(names.take(items.len() as int) =~= names);
    }

    /// Blame the value of each record on each parameter that its molecule
    /// uses, record after record.
    pub fn extend(&mut self, processed: &Vec<(Record<V>, StringSet)>)
        ensures
            keys(final(self)@) == unique(keys(old(self)@) + all_ids(processed@)),
            keys(final(self)@).no_duplicates(),
            forall|pid: Seq<char>|
                tally(final(self)@, pid) == tally(old(self)@, pid) + blamed_values(
                    processed@,
                    pid,
                ),
    {
        let ghost before = self@;
        let ghost whole = processed@;
        proof {
            use_type_invariant(&*self);
            lemma_unique_of_distinct(keys(before));
        }
        let mut i: usize = 0;
        while i < processed.len()
            invariant
                i <= processed.len(),
                whole == processed@,
                keys(self@).no_duplicates(),
                keys(self@) == unique(keys(before) + all_ids(whole.take(i as int))),
                forall|pid: Seq<char>|
                    tally(self@, pid) == tally(before, pid) + blamed_values(
                        whole.take(i as int),
                        pid,
                    ),
            decreases processed.len() - i,
        {
            let ghost done = whole.take(i as int);
            let ghost pair = whole[i as int];
            proof {
                assert(whole.take(i + 1) =~= done.push(pair));
                lemma_all_ids_push(done, pair);
                lemma_unique_concat(keys(before) + all_ids(done), pair.1@);
                assert((keys(before) + all_ids(done)) + pair.1@ =~= keys(before) + (all_ids(done)
                    + pair.1@));
            }
            self.record(&processed[i].0, &processed[i].1);
            proof {
                assert forall|pid: Seq<char>|
                    tally(self@, pid) == tally(before, pid) + blamed_values(
                        whole.take(i + 1),
                        pid,
                    ) by {
                    lemma_blamed_values_push(done, pair, pid);
                }
            }
            i = i + 1;
        }
        assert(whole.take(processed.len() as int) =~= whole);
    }
}

/// Attribute the records' values to parameters: each parameter that the
/// molecule of some record uses gets a row, and on it is blamed the value of
/// every record whose molecule uses it. A parameter that no molecule uses
/// has no row.
pub fn aggregate<V: Copy>(processed: &Vec<(Record<V>, StringSet)>) -> (table: AttributionTable<V>)
    ensures
        keys(table@) == unique(all_ids(processed@)),
        keys(table@).no_duplicates(),
        forall|pid: Seq<char>| tally(table@, pid) == blamed_values(processed@, pid),
        forall|pid: Seq<char>| tally(table@, pid).len() <= processed.len(),
{
    let mut table: AttributionTable<V> = AttributionTable::new();
    table.extend(processed);
    table
}

/// One more record adds its value to the values blamed on the parameters
/// that its molecule uses, and to no others.
proof fn lemma_blamed_values_push<V>(
    processed: Seq<(Record<V>, StringSet)>,
    pair: (Record<V>, StringSet),
    pid: Seq<char>,
)
    ensures
        blamed_values(processed.push(pair), pid) == if pair.1@.contains(pid) {
            blamed_values(processed, pid).push(pair.0.value)
        } else {
            blamed_values(processed, pid)
        },
{
    let uses = |p: (Record<V>, StringSet)| p.1@.contains(pid);
    processed.lemma_filter_push(pair, uses);
}

/// One more record adds the parameters of its molecule to the identifiers.
proof fn lemma_all_ids_push<V>(
    processed: Seq<(Record<V>, StringSet)>,
    pair: (Record<V>, StringSet),
)
    ensures
        all_ids(processed.push(pair)) == all_ids(processed) + pair.1@,
{
    let ids = |p: (Record<V>, StringSet)| p.1@;
    processed.lemma_push_map_commute(ids, pair);
    processed.map_values(ids).lemma_flatten_push(pair.1@);
}

/// The count of a parameter never exceeds the number of records: a record is
/// blamed on a parameter at most once.
pub proof fn count_never_exceeds_records<V>(
    processed: Seq<(Record<V>, StringSet)>,
    pid: Seq<char>,
)
    ensures
        blamed_values(processed, pid).len() <= processed.len(),
{
}

} // verus!
