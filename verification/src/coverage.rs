//! How often, and in which records and molecules, each parameter is used.

use std::cmp::Ordering;
use vstd::prelude::*;
use crate::assoc::{keys, last_write, put, unique};
use crate::assoc::{lemma_last_write_at, lemma_last_write_is_some, lemma_put, lemma_unique};
use crate::assoc::{lemma_unique_concat, lemma_unique_of_distinct, lemma_unique_push};
use crate::environment::{matches_reference, same_up_to_reversal};
use crate::assignment::pairs_view;
use crate::parameter_map::{found_view, ParameterMap};
use crate::string_set::{texts, StringSet};

verus! {

/// One use of a parameter: an environment of one molecule that the parameter
/// wins.
pub struct Sighting {
    /// The parameter.
    pub pid: Seq<char>,
    /// The record of the molecule.
    pub rec: Seq<char>,
    /// The molecule.
    pub mol: Seq<char>,
    /// Whether the environment is the one that the record's torsion scan
    /// drives.
    pub torsion: bool,
}

/// What a table of coverage holds for one parameter.
pub struct MatchView {
    /// The number of environments that the parameter wins.
    pub env: nat,
    /// The records in which it wins one, each once, in the order in which
    /// they came.
    pub rec: Seq<Seq<char>>,
    /// The molecules in which it wins one, each once, in the order in which
    /// they came.
    pub mol: Seq<Seq<char>>,
    /// The number of driven torsions among the environments.
    pub tor: nat,
}

/// The row of a parameter that was not seen.
pub open spec fn unseen() -> MatchView {
    MatchView { env: 0, rec: Seq::empty(), mol: Seq::empty(), tor: 0 }
}

/// The sightings of `pid` among `s`.
pub open spec fn of(s: Seq<Sighting>, pid: Seq<char>) -> Seq<Sighting> {
    s.filter(|x: Sighting| x.pid == pid)
}

/// The row `m` of `pid` after the sightings `s`: every sighting of `pid`
/// counts as an environment, its record and its molecule are noted once,
/// and it counts as a torsion where it is the driven one.
pub open spec fn extended(m: MatchView, s: Seq<Sighting>, pid: Seq<char>) -> MatchView {
    MatchView {
        env: m.env + of(s, pid).len(),
        rec: unique(m.rec + of(s, pid).map_values(|x: Sighting| x.rec)),
        mol: unique(m.mol + of(s, pid).map_values(|x: Sighting| x.mol)),
        tor: m.tor + of(s, pid).filter(|x: Sighting| x.torsion).len(),
    }
}

/// The row `m` after one sighting of its parameter.
pub open spec fn bumped(m: MatchView, x: Sighting) -> MatchView {
    MatchView {
        env: m.env + 1,
        rec: unique(m.rec.push(x.rec)),
        mol: unique(m.mol.push(x.mol)),
        tor: if x.torsion {
            m.tor + 1
        } else {
            m.tor
        },
    }
}

/// What a table holds for `pid`: the row of an unseen parameter where `pid`
/// has no row.
pub open spec fn row(table: Seq<(Seq<char>, MatchView)>, pid: Seq<char>) -> MatchView {
    match last_write(table, pid) {
        Some(m) => m,
        None => unseen(),
    }
}

/// The parameters of the sightings, in order.
pub open spec fn sighted(s: Seq<Sighting>) -> Seq<Seq<char>> {
    s.map_values(|x: Sighting| x.pid)
}

/// The sightings in one molecule: one for each labelled environment. Where
/// the record comes from a torsion scan, `dihedral` is the torsion that the
/// scan drives, and a sighting counts as a torsion where its environment is
/// that torsion, in either direction.
pub open spec fn sightings_of(
    rec: Seq<char>,
    mol: Seq<char>,
    labels: Seq<(Seq<usize>, Seq<char>)>,
    dihedral: Option<Seq<usize>>,
) -> Seq<Sighting> {
    labels.map_values(
        |l: (Seq<usize>, Seq<char>)|
            Sighting {
                pid: l.1,
                rec,
                mol,
                torsion: match dihedral {
                    Some(d) => same_up_to_reversal(l.0, d),
                    None => false,
                },
            },
    )
}

/// What is counted for one parameter.
pub struct Match {
    /// The number of environments that the parameter wins.
    pub env: usize,
    /// The records in which it wins one.
    pub rec: StringSet,
    /// The molecules in which it wins one.
    pub mol: StringSet,
    /// The number of driven torsions among the environments.
    pub tor: usize,
}

impl View for Match {
    type V = MatchView;

    open spec fn view(&self) -> MatchView {
        MatchView { env: self.env as nat, rec: self.rec@, mol: self.mol@, tor: self.tor as nat }
    }
}

impl Match {
    /// The counts of a parameter that was not seen.
    pub fn new() -> (m: Match)
        ensures
            m@ == unseen(),
    {
        Match { env: 0, rec: StringSet::new(), mol: StringSet::new(), tor: 0 }
    }

    /// The order of two rows by their numbers of environments.
    pub fn by_env(&self, other: &Match) -> (order: Ordering)
        ensures
            self.env < other.env ==> order == Ordering::Less,
            self.env == other.env ==> order == Ordering::Equal,
            self.env > other.env ==> order == Ordering::Greater,
    {
        if self.env < other.env {
            Ordering::Less
        } else if self.env == other.env {
            Ordering::Equal
        } else {
            Ordering::Greater
        }
    }
}

impl Default for Match {
    fn default() -> (m: Match)
        ensures
            m@ == unseen(),
    {
        Match::new()
    }
}

/// The coverage of a force field: for each parameter, what was counted for
/// it.
///
/// Its view is the sequence of rows, each an identifier and its counts, in
/// the order in which the identifiers first came.
pub struct Coverage {
    pids: StringSet,
    rows: Vec<Match>,
    sightings: usize,
}

/// Whether row `i` comes before row `j` in a report: it has more
/// environments, or as many and stands earlier in the table.
pub open spec fn ranks_before(rows: Seq<MatchView>, i: int, j: int) -> bool {
    rows[i].env > rows[j].env || (rows[i].env == rows[j].env && i < j)
}

/// Whether `order` lists the places of all rows in the order of a report.
pub open spec fn is_ranking(rows: Seq<MatchView>, order: Seq<usize>) -> bool {
    &&& order.len() == rows.len()
    &&& forall|a: int| 0 <= a < order.len() ==> order[a] < rows.len()
    &&& forall|a: int, b: int|
        0 <= a < b < order.len() ==> ranks_before(rows, order[a] as int, order[b] as int)
}

/// The views of a vector of rows.
pub open spec fn rows_view(rows: Seq<Match>) -> Seq<MatchView> {
    rows.map_values(|m: Match| m@)
}

impl View for Coverage {
    type V = Seq<(Seq<char>, MatchView)>;

    closed spec fn view(&self) -> Seq<(Seq<char>, MatchView)> {
        Seq::new(self.rows.len() as nat, |i: int| (self.pids@[i], self.rows[i]@))
    }
}

impl Coverage {
    #[verifier::type_invariant]
    spec fn valid(self) -> bool {
        &&& self.pids@.len() == self.rows.len()
        &&& self.pids@.no_duplicates()
        &&& forall|i: int|
            0 <= i < self.rows.len() ==> {
                &&& tidy((#[trigger] self.rows[i])@)
                &&& self.rows[i].tor <= self.rows[i].env <= self.sightings
            }
    }

    /// The number of sightings counted so far.
    pub closed spec fn seen(&self) -> nat {
        self.sightings as nat
    }

    /// The table without rows.
    pub fn new() -> (table: Coverage)
        ensures
            table@ == Seq::<(Seq<char>, MatchView)>::empty(),
            table.seen() == 0,
    {
        Coverage { pids: StringSet::new(), rows: Vec::new(), sightings: 0 }
    }

    /// The table with a row for each parameter of `params`, none of them
    /// seen yet.
    pub fn seeded(params: &ParameterMap) -> (table: Coverage)
        ensures
            keys(table@) == unique(params.ids()),
            forall|pid: Seq<char>| row(table@, pid) == unseen(),
            table.seen() == 0,
    {
        let pids = StringSet::from_vec(params.keys());
        let m: usize = pids.len();
        let mut rows: Vec<Match> = Vec::with_capacity(m);
        let mut i: usize = 0;
        while i < m
            invariant
                i <= m,
                rows.len() == i,
                forall|j: int| 0 <= j < i ==> (#[trigger] rows[j])@ == unseen(),
            decreases m - i,
        {
            rows.push(Match::new());
            i = i + 1;
        }
        let table = Coverage { pids, rows, sightings: 0 };
        proof {
            assert forall|pid: Seq<char>| row(table@, pid) == unseen() by {
                lemma_last_write_is_some(table@, pid);
                if keys(table@).contains(pid) {
                    let j = choose|j: int| 0 <= j < keys(table@).len() && keys(table@)[j] == pid;
                    lemma_last_write_at(table@, j);
                }
            }
        }
        table
    }

    /// The number of rows.
    pub fn len(&self) -> (n: usize)
        ensures
            n == self@.len(),
            keys(self@).no_duplicates(),
    {
        proof {
            use_type_invariant(self);
        }
        self.rows.len()
    }

    /// Whether the table has no row.
    pub fn is_empty(&self) -> (empty: bool)
        ensures
            empty == (self@.len() == 0),
    {
        self.rows.len() == 0
    }

    /// The number of sightings counted so far.
    pub fn sightings(&self) -> (n: usize)
        ensures
            n == self.seen(),
    {
        self.sightings
    }

    /// The identifiers of the rows, in order.
    pub fn pids(&self) -> (pids: &Vec<String>)
        ensures
            texts(pids@) == keys(self@),
            keys(self@).no_duplicates(),
    {
        proof {
            use_type_invariant(self);
        }
        self.pids.items()
    }

    /// The counts of the rows, in order.
    pub fn rows(&self) -> (rows: &Vec<Match>)
        ensures
            rows_view(rows@) == crate::assoc::values(self@),
    {
        &self.rows
    }

    /// What was counted for `pid`, if it has a row.
    pub fn get(&self, pid: &String) -> (counts: Option<&Match>)
        ensures
            match counts {
                Some(m) => last_write(self@, pid@) == Some(m@),
                None => last_write(self@, pid@) is None,
            },
    {
        proof {
            use_type_invariant(self);
            lemma_last_write_is_some(self@, pid@);
        }
        match self.pids.position(pid) {
            Some(i) => {
                proof {
                    lemma_last_write_at(self@, i as int);
                }
                Some(&self.rows[i])
            },
            None => None,
        }
    }

    /// The rows in the order of a report: the places of the rows, the row
    /// with the most environments first, and of two rows with as many the
    /// earlier one first.
    pub fn ranked(&self) -> (order: Vec<usize>)
        ensures
            is_ranking(crate::assoc::values(self@), order@),
    {
        let rows = self.rows();
        let ghost all = crate::assoc::values(self@);
        let n: usize = rows.len();
        let mut order: Vec<usize> = Vec::with_capacity(n);
        let mut k: usize = 0;
        while k < n
            invariant
                k <= n,
                n == rows.len(),
                rows_view(rows@) == all,
                order.len() == k,
                forall|a: int| 0 <= a < order.len() ==> order[a] < k,
                forall|a: int, b: int|
                    0 <= a < b < order.len() ==> ranks_before(
                        all,
                        order[a] as int,
                        order[b] as int,
                    ),
            decreases n - k,
        {
            let env: usize = rows[k].env;
            let mut at: usize = 0;
            while at < order.len() && rows[order[at]].env >= env
                invariant
                    at <= order.len(),
                    order.len() == k,
                    k < n,
                    n == rows.len(),
                    rows_view(rows@) == all,
                    env == all[k as int].env,
                    forall|a: int| 0 <= a < order.len() ==> order[a] < k,
                    forall|a: int| 0 <= a < at ==> all[order[a] as int].env >= env,
                decreases order.len() - at,
            {
                at = at + 1;
            }
            let ghost before = order@;
            order.insert(at, k);
            proof {
                assert forall|a: int, b: int| 0 <= a < b < order.len() implies ranks_before(
                    all,
                    order[a] as int,
                    order[b] as int,
                ) by {
                    if b < at {
                    } else if b == at {
                    } else if a < at {
                    } else if a == at {
                        if at < b - 1 {
                            assert(ranks_before(
                                all,
                                before[at as int] as int,
                                before[b - 1] as int,
                            ));
                        }
                    }
                }
            }
            k = k + 1;
        }
        order
    }

    /// Count one sighting.
    fn sight(&mut self, pid: &String, rec: &String, mol: &String, torsion: bool)
        requires
            old(self).seen() < usize::MAX,
        ensures
            final(self)@ == put(
                old(self)@,
                pid@,
                bumped(
                    row(old(self)@, pid@),
                    (Sighting { pid: pid@, rec: rec@, mol: mol@, torsion }),
                ),
            ),
            final(self).seen() == old(self).seen() + 1,
            keys(final(self)@).no_duplicates(),
    {
        let mut taken = Coverage::new();
        core::mem::swap(self, &mut taken);
        let ghost before = taken@;
        proof {
            use_type_invariant(&taken);
            lemma_last_write_is_some(before, pid@);
        }
        let Coverage { mut pids, mut rows, sightings } = taken;
        match pids.position(pid) {
            Some(i) => {
                proof {
                    lemma_last_write_at(before, i as int);
                }
                rows[i].env = rows[i].env + 1;
                rows[i].rec.insert(rec.clone());
                rows[i].mol.insert(mol.clone());
                if torsion {
                    rows[i].tor = rows[i].tor + 1;
                }
                let table = Coverage { pids, rows, sightings: sightings + 1 };
                *self = table;
            },
            None => {
                let mut m = Match::new();
                m.env = 1;
                m.rec.insert(rec.clone());
                m.mol.insert(mol.clone());
                if torsion {
                    m.tor = 1;
                }
                pids.insert(pid.clone());
                rows.push(m);
                let table = Coverage { pids, rows, sightings: sightings + 1 };
                *self = table;
            },
        }
    }

    /// Count the labelled environments of one molecule: each is one more
    /// environment for its parameter, and notes the record and the molecule
    /// for it. Where the record is a torsion scan, `dihedral` is the torsion
    /// that the scan drives, and an environment that is this torsion, in
    /// either direction, is one more torsion for its parameter.
    ///
    /// Nothing is counted, and `false` returned, where the number of
    /// sightings would no longer fit the counters.
    pub fn add_molecule(
        &mut self,
        record_id: &String,
        smiles: &String,
        labels: &Vec<(Vec<usize>, String)>,
        dihedral: Option<&Vec<usize>>,
    ) -> (counted: bool)
        ensures
            counted == (old(self).seen() + labels.len() <= usize::MAX),
            !counted ==> final(self)@ == old(self)@ && final(self).seen() == old(self).seen(),
            counted ==> final(self).seen() == old(self).seen() + labels.len(),
            counted ==> keys(final(self)@) == unique(
                keys(old(self)@) + sighted(
                    sightings_of(record_id@, smiles@, pairs_view(labels@), view_of(dihedral)),
                ),
            ),
            counted ==> forall|pid: Seq<char>|
                row(final(self)@, pid) == extended(
                    row(old(self)@, pid),
                    sightings_of(record_id@, smiles@, pairs_view(labels@), view_of(dihedral)),
                    pid,
                ),
            keys(final(self)@).no_duplicates(),
    {
        proof {
            use_type_invariant(&*self);
        }
        if labels.len() > usize::MAX - self.sightings {
            return false;
        }
        let ghost before = self@;
        let ghost start = self.seen();
        let ghost all = sightings_of(
            record_id@,
            smiles@,
            pairs_view(labels@),
            view_of(dihedral),
        );
        proof {
            lemma_unique_of_distinct(keys(before));
            assert forall|pid: Seq<char>|
                row(before, pid) == extended(row(before, pid), all.take(0), pid) by {
                lemma_rows_are_tidy(self, pid);
                lemma_extended_by_nothing(row(before, pid), pid);
            }
        }
        let mut k: usize = 0;
        while k < labels.len()
            invariant
                k <= labels.len(),
                start + labels.len() <= usize::MAX,
                self.seen() == start + k,
                all == sightings_of(
                    record_id@,
                    smiles@,
                    pairs_view(labels@),
                    view_of(dihedral),
                ),
                keys(self@).no_duplicates(),
                keys(self@) == unique(keys(before) + sighted(all.take(k as int))),
                forall|pid: Seq<char>|
                    row(self@, pid) == extended(row(before, pid), all.take(k as int), pid),
            decreases labels.len() - k,
        {
            let env: &Vec<usize> = &labels[k].0;
            let pid: &String = &labels[k].1;
            let torsion = match dihedral {
                Some(d) => matches_reference(env, d),
                None => false,
            };
            let ghost now = self@;
            let ghost x = all[k as int];
            let ghost done = all.take(k as int);
            proof {
                assert(all.take(k + 1) =~= done.push(x));
                assert(sighted(all.take(k + 1)) =~= sighted(done).push(pid@));
                lemma_put(now, pid@, bumped(row(now, pid@), x));
                lemma_unique_push(keys(before) + sighted(done), pid@);
            }
            self.sight(pid, record_id, smiles, torsion);
            proof {
                assert forall|other: Seq<char>|
                    row(self@, other) == extended(row(before, other), all.take(k + 1), other) by {
                    lemma_extended_push(row(before, other), done, x, other);
                    assert(row(now, other) == extended(row(before, other), done, other));
                }
            }
            k = k + 1;
        }
        assert(all.take(labels.len() as int) =~= all);
        true
    }
}

/// One entry of a dataset: its record, its molecule and what the search
/// found in the molecule for each pattern.
#[derive(Clone, Debug, PartialEq, Eq)]
pub struct Searched {
    /// The identifier of the record.
    pub record_id: String,
    /// The molecule, as written in the dataset.
    pub smiles: String,
    /// What the search found in the molecule, pattern by pattern.
    pub found: Vec<Vec<Vec<usize>>>,
}

/// One torsion scan: its record, its molecule, the labelled torsions of the
/// molecule and the torsion that the scan drives.
#[derive(Clone, Debug, PartialEq, Eq)]
pub struct TorsionScan {
    /// The identifier of the record.
    pub record_id: String,
    /// The molecule.
    pub smiles: String,
    /// The torsions of the molecule, each with the identifier of its
    /// parameter.
    pub labels: Vec<(Vec<usize>, String)>,
    /// The atoms of the driven torsion.
    pub dihedral: Vec<usize>,
}

/// The sightings in the first `n` entries of a dataset, labelled with
/// `params`.
pub open spec fn dataset_sightings(molecules: Seq<Searched>, params: ParameterMap, n: int) -> Seq<
    Sighting,
>
    decreases n,
{
    if n <= 0 {
        Seq::empty()
    } else {
        dataset_sightings(molecules, params, n - 1) + sightings_of(
            molecules[n - 1].record_id@,
            molecules[n - 1].smiles@,
            params.labels(found_view(molecules[n - 1].found@)),
            None,
        )
    }
}

/// The sightings in the first `n` torsion scans.
pub open spec fn scan_sightings(scans: Seq<TorsionScan>, n: int) -> Seq<Sighting>
    decreases n,
{
    if n <= 0 {
        Seq::empty()
    } else {
        scan_sightings(scans, n - 1) + sightings_of(
            scans[n - 1].record_id@,
            scans[n - 1].smiles@,
            pairs_view(scans[n - 1].labels@),
            Some(scans[n - 1].dihedral@),
        )
    }
}

/// Whether `table` is the coverage of the parameters `ids` after the
/// sightings `all`: it has a row for each parameter of `ids` and for each
/// parameter sighted, and each row counts the sightings of its parameter.
pub open spec fn covers(
    table: Seq<(Seq<char>, MatchView)>,
    ids: Seq<Seq<char>>,
    all: Seq<Sighting>,
) -> bool {
    &&& keys(table) == unique(ids + sighted(all))
    &&& forall|pid: Seq<char>| row(table, pid) == extended(unseen(), all, pid)
}

/// The coverage of a dataset: for each parameter of `params`, the number of
/// environments that it wins in the molecules of the dataset, and the
/// records and the molecules in which it wins one. A parameter that wins
/// nothing has a row of zeros.
///
/// The result is `None` where the number of environments does not fit the
/// counters.
pub fn coverage(molecules: &Vec<Searched>, params: &ParameterMap) -> (table: Option<Coverage>)
    ensures
        match table {
            Some(t) => covers(
                t@,
                params.ids(),
                dataset_sightings(molecules@, *params, molecules.len() as int),
            ) && t.seen() == dataset_sightings(molecules@, *params, molecules.len() as int).len()
                && keys(t@) == unique(params.ids()),
            None => dataset_sightings(molecules@, *params, molecules.len() as int).len()
                > usize::MAX,
        },
{
    let mut table = Coverage::seeded(params);
    let ghost ids = params.ids();
    let mut i: usize = 0;
    while i < molecules.len()
        invariant
            i <= molecules.len(),
            ids == params.ids(),
            covers(table@, ids, dataset_sightings(molecules@, *params, i as int)),
            table.seen() == dataset_sightings(molecules@, *params, i as int).len(),
        decreases molecules.len() - i,
    {
        let m: &Searched = &molecules[i];
        let labels = params.label_molecule(&m.found);
        let ghost done = dataset_sightings(molecules@, *params, i as int);
        let ghost more = sightings_of(m.record_id@, m.smiles@, labels@, None);
        let ghost before = table@;
        let counted = table.add_molecule(&m.record_id, &m.smiles, labels.entries(), None);
        if !counted {
            proof {
                lemma_dataset_sightings_grow(molecules@, *params, i + 1, molecules.len() as int);
            }
            return None;
        }
        proof {
            lemma_covers_more(before, table@, ids, done, more);
        }
        i = i + 1;
    }
    proof {
        lemma_dataset_names_parameters(molecules@, *params, molecules.len() as int);
    }
    Some(table)
}

/// The molecules of a dataset use parameters of the map only, so that the
/// coverage of a dataset has the rows of the parameters and no others.
proof fn lemma_dataset_names_parameters(molecules: Seq<Searched>, params: ParameterMap, n: int)
    requires
        0 <= n <= molecules.len(),
    ensures
        unique(params.ids() + sighted(dataset_sightings(molecules, params, n))) == unique(
            params.ids(),
        ),
{
    let all = dataset_sightings(molecules, params, n);
    assert forall|i: int| 0 <= i < sighted(all).len() implies params.ids().contains(
        #[trigger] sighted(all)[i],
    ) by {
        lemma_sightings_name_parameters(molecules, params, n, i);
    }
    crate::assoc::lemma_unique_absorbs(params.ids(), sighted(all));
}

/// Each sighting in a dataset is of a parameter of the map.
proof fn lemma_sightings_name_parameters(
    molecules: Seq<Searched>,
    params: ParameterMap,
    n: int,
    i: int,
)
    requires
        0 <= n <= molecules.len(),
        0 <= i < dataset_sightings(molecules, params, n).len(),
    ensures
        params.ids().contains(dataset_sightings(molecules, params, n)[i].pid),
    decreases n,
{
    let before = dataset_sightings(molecules, params, n - 1);
    if i < before.len() {
        lemma_sightings_name_parameters(molecules, params, n - 1, i);
    } else {
        crate::parameter_map::labels_name_parameters(
            params.ids(),
            found_view(molecules[n - 1].found@),
            i - before.len(),
        );
    }
}

/// The coverage of a set of torsion scans: as for a dataset, and beside it,
/// for each parameter, the number of its environments that are the driven
/// torsion of their record. The table has a row for each parameter of
/// `params`, and one for each parameter that labels a torsion.
///
/// The result is `None` where the number of environments does not fit the
/// counters.
pub fn torsion_coverage(scans: &Vec<TorsionScan>, params: &ParameterMap) -> (table: Option<
    Coverage,
>)
    ensures
        match table {
            Some(t) => covers(t@, params.ids(), scan_sightings(scans@, scans.len() as int))
                && t.seen() == scan_sightings(scans@, scans.len() as int).len(),
            None => scan_sightings(scans@, scans.len() as int).len() > usize::MAX,
        },
{
    let mut table = Coverage::seeded(params);
    let ghost ids = params.ids();
    let mut i: usize = 0;
    while i < scans.len()
        invariant
            i <= scans.len(),
            ids == params.ids(),
            covers(table@, ids, scan_sightings(scans@, i as int)),
            table.seen() == scan_sightings(scans@, i as int).len(),
        decreases scans.len() - i,
    {
        let s: &TorsionScan = &scans[i];
        let ghost done = scan_sightings(scans@, i as int);
        let ghost more = sightings_of(
            s.record_id@,
            s.smiles@,
            pairs_view(s.labels@),
            Some(s.dihedral@),
        );
        let ghost before = table@;
        let counted = table.add_molecule(&s.record_id, &s.smiles, &s.labels, Some(&s.dihedral));
        if !counted {
            proof {
                lemma_scan_sightings_grow(scans@, i + 1, scans.len() as int);
            }
            return None;
        }
        proof {
            lemma_covers_more(before, table@, ids, done, more);
        }
        i = i + 1;
    }
    Some(table)
}

/// A table that covers some sightings, and is then extended by more, covers
/// them all.
proof fn lemma_covers_more(
    before: Seq<(Seq<char>, MatchView)>,
    after: Seq<(Seq<char>, MatchView)>,
    ids: Seq<Seq<char>>,
    done: Seq<Sighting>,
    more: Seq<Sighting>,
)
    requires
        covers(before, ids, done),
        keys(after) == unique(keys(before) + sighted(more)),
        forall|pid: Seq<char>| row(after, pid) == extended(row(before, pid), more, pid),
    ensures
        covers(after, ids, done + more),
{
    lemma_unique_concat(ids + sighted(done), sighted(more));
    assert((ids + sighted(done)) + sighted(more) =~= ids + sighted(done + more));
    assert forall|pid: Seq<char>| row(after, pid) == extended(unseen(), done + more, pid) by {
        lemma_extended_twice(unseen(), done, more, pid);
    }
}

/// More entries have no fewer sightings.
proof fn lemma_dataset_sightings_grow(
    molecules: Seq<Searched>,
    params: ParameterMap,
    n: int,
    m: int,
)
    requires
        n <= m,
    ensures
        dataset_sightings(molecules, params, n).len() <= dataset_sightings(
            molecules,
            params,
            m,
        ).len(),
    decreases m - n,
{
    if n < m {
        lemma_dataset_sightings_grow(molecules, params, n, m - 1);
    }
}

/// More scans have no fewer sightings.
proof fn lemma_scan_sightings_grow(scans: Seq<TorsionScan>, n: int, m: int)
    requires
        n <= m,
    ensures
        scan_sightings(scans, n).len() <= scan_sightings(scans, m).len(),
    decreases m - n,
{
    if n < m {
        lemma_scan_sightings_grow(scans, n, m - 1);
    }
}

/// The atoms of the driven torsion, where there is one.
pub open spec fn view_of(dihedral: Option<&Vec<usize>>) -> Option<Seq<usize>> {
    match dihedral {
        Some(d) => Some(d@),
        None => None,
    }
}

/// The sets of every row of a table hold nothing twice.
proof fn lemma_rows_are_tidy(table: &Coverage, pid: Seq<char>)
    requires
        table.valid(),
    ensures
        tidy(row(table@, pid)),
{
    lemma_last_write_is_some(table@, pid);
    if keys(table@).contains(pid) {
        let j = choose|j: int| 0 <= j < keys(table@).len() && keys(table@)[j] == pid;
        lemma_last_write_at(table@, j);
    }
}

/// Whether the sets of a row hold nothing twice.
pub open spec fn tidy(m: MatchView) -> bool {
    m.rec.no_duplicates() && m.mol.no_duplicates()
}

/// No sighting leaves a tidy row as it is.
pub proof fn lemma_extended_by_nothing(m: MatchView, pid: Seq<char>)
    requires
        tidy(m),
    ensures
        extended(m, Seq::empty(), pid) == m,
{
    lemma_unique_of_distinct(m.rec);
    lemma_unique_of_distinct(m.mol);
}

/// One more sighting bumps the row of its parameter and leaves the others.
pub proof fn lemma_extended_push(m: MatchView, s: Seq<Sighting>, x: Sighting, pid: Seq<char>)
    ensures
        extended(m, s.push(x), pid) == if x.pid == pid {
            bumped(extended(m, s, pid), x)
        } else {
            extended(m, s, pid)
        },
        tidy(extended(m, s, pid)),
{
    let mine = |x: Sighting| x.pid == pid;
    let rec = |x: Sighting| x.rec;
    let mol = |x: Sighting| x.mol;
    let tor = |x: Sighting| x.torsion;
    s.lemma_filter_push(x, mine);
    lemma_unique(m.rec + of(s, pid).map_values(rec));
    lemma_unique(m.mol + of(s, pid).map_values(mol));
    if x.pid == pid {
        of(s, pid).lemma_push_map_commute(rec, x);
        of(s, pid).lemma_push_map_commute(mol, x);
        of(s, pid).lemma_filter_push(x, tor);
        let recs = m.rec + of(s, pid).map_values(rec);
        let mols = m.mol + of(s, pid).map_values(mol);
        lemma_unique_concat(recs, seq![x.rec]);
        lemma_unique_concat(mols, seq![x.mol]);
        assert(recs + seq![x.rec] =~= recs.push(x.rec));
        assert(mols + seq![x.mol] =~= mols.push(x.mol));
        assert(unique(recs) + seq![x.rec] =~= unique(recs).push(x.rec));
        assert(unique(mols) + seq![x.mol] =~= unique(mols).push(x.mol));
    }
}

/// Sightings may be taken in two parts.
pub proof fn lemma_extended_twice(
    m: MatchView,
    s: Seq<Sighting>,
    t: Seq<Sighting>,
    pid: Seq<char>,
)
    ensures
        extended(extended(m, s, pid), t, pid) == extended(m, s + t, pid),
{
    let rec = |x: Sighting| x.rec;
    let mol = |x: Sighting| x.mol;
    let recs = m.rec + of(s, pid).map_values(rec);
    let mols = m.mol + of(s, pid).map_values(mol);
    lemma_unique_concat(recs, of(t, pid).map_values(rec));
    lemma_unique_concat(mols, of(t, pid).map_values(mol));
    assert(recs + of(t, pid).map_values(rec) =~= m.rec + of(s + t, pid).map_values(rec));
    assert(mols + of(t, pid).map_values(mol) =~= m.mol + of(s + t, pid).map_values(mol));
}

} // verus!
