//! Sets of identifiers that remember the order in which their members came.

use vstd::hash_map::StringHashMap;
use vstd::prelude::*;
use crate::assoc::unique;

verus! {

/// The texts of a sequence of strings.
pub open spec fn texts(v: Seq<String>) -> Seq<Seq<char>> {
    v.map_values(|s: String| s@)
}

/// Whether two sequences have an element in common.
pub open spec fn intersect<T>(a: Seq<T>, b: Seq<T>) -> bool {
    exists|i: int, j: int| 0 <= i < a.len() && 0 <= j < b.len() && a[i] == b[j]
}

/// A set of strings, kept in the order in which the members were first
/// inserted. Its view is the sequence of their texts, without repetitions.
///
/// Beside the members the set keeps an index from each text to its place, so
/// that looking a string up takes no walk over the members.
pub struct StringSet {
    items: Vec<String>,
    index: StringHashMap<usize>,
}

impl View for StringSet {
    type V = Seq<Seq<char>>;

    closed spec fn view(&self) -> Seq<Seq<char>> {
        texts(self.items@)
    }
}

/// Whether `index` gives each text of `list` its place, and holds no other
/// text.
spec fn indexes(index: Map<Seq<char>, usize>, list: Seq<Seq<char>>) -> bool {
    &&& forall|i: int|
        0 <= i < list.len() ==> index.contains_key(#[trigger] list[i]) && index[list[i]] == i
    &&& forall|k: Seq<char>| #[trigger]
        index.contains_key(k) ==> index[k] < list.len() && list[index[k] as int] == k
}

impl StringSet {
    #[verifier::type_invariant]
    spec fn distinct(self) -> bool {
        &&& texts(self.items@).no_duplicates()
        &&& indexes(self.index@, texts(self.items@))
    }

    /// The empty set.
    pub fn new() -> (set: StringSet)
        ensures
            set@ == Seq::<Seq<char>>::empty(),
    {
        StringSet { items: Vec::new(), index: StringHashMap::new() }
    }

    /// The number of members.
    pub fn len(&self) -> (n: usize)
        ensures
            n == self@.len(),
            self@.no_duplicates(),
    {
        proof {
            use_type_invariant(self);
        }
        self.items.len()
    }

    /// Whether the set has no member.
    pub fn is_empty(&self) -> (empty: bool)
        ensures
            empty == (self@.len() == 0),
    {
        self.items.len() == 0
    }

    /// The members, in the order of their insertion.
    pub fn items(&self) -> (items: &Vec<String>)
        ensures
            texts(items@) == self@,
            self@.no_duplicates(),
    {
        proof {
            use_type_invariant(self);
        }
        &self.items
    }

    /// The place of `key` among the members, if it is one.
    pub fn position(&self, key: &String) -> (at: Option<usize>)
        ensures
            self@.no_duplicates(),
            match at {
                Some(i) => i < self@.len() && self@[i as int] == key@ && self@.index_of(key@) == i,
                None => !self@.contains(key@),
            },
    {
        proof {
            use_type_invariant(self);
        }
        match self.index.get(key.as_str()) {
            Some(i) => Some(*i),
            None => {
                assert(!self@.contains(key@)) by {
                    if self@.contains(key@) {
                        let j = choose|j: int| 0 <= j < self@.len() && self@[j] == key@;
                        assert(self.index@.contains_key(self@[j]));
                    }
                }
                None
            },
        }
    }

    /// Whether `key` is a member.
    pub fn contains(&self, key: &String) -> (found: bool)
        ensures
            found == self@.contains(key@),
    {
        match self.position(key) {
            Some(_) => true,
            None => false,
        }
    }

    /// Insert `key`. Returns whether it was new; a member is not inserted twice.
    pub fn insert(&mut self, key: String) -> (fresh: bool)
        ensures
            fresh == !old(self)@.contains(key@),
            final(self)@ == if fresh {
                old(self)@.push(key@)
            } else {
                old(self)@
            },
            final(self)@ == unique(old(self)@.push(key@)),
            final(self)@.no_duplicates(),
    {
        proof {
            use_type_invariant(&*self);
            crate::assoc::lemma_unique_of_distinct(self@);
            assert(self@.push(key@).drop_last() =~= self@);
        }
        match self.position(&key) {
            Some(_) => false,
            None => {
                let mut set = StringSet::new();
                core::mem::swap(self, &mut set);
                let StringSet { mut items, mut index } = set;
                let ghost before = texts(items@);
                let at: usize = items.len();
                index.insert(key.clone(), at);
                items.push(key);
                proof {
                    let after = texts(items@);
                    assert forall|i: int| 0 <= i < after.len() implies index@.contains_key(
                        #[trigger] after[i],
                    ) && index@[after[i]] == i by {
                        if i < before.len() {
                            assert(before[i] != key@);
                        }
                    }
                }
                *self = StringSet { items, index };
                true
            },
        }
    }

    /// The set of the strings of `list`, in the order of their first occurrences.
    pub fn from_vec(list: Vec<String>) -> (set: StringSet)
        ensures
            set@ == unique(texts(list@)),
            set@.no_duplicates(),
    {
        let mut set = StringSet::new();
        let ghost all = texts(list@);
        let ghost whole = list@;
        for s in it: list
            invariant
                it.seq() == whole,
                all == texts(whole),
                set@ == unique(all.take(it.index() as int)),
                set@.no_duplicates(),
        {
            proof {
                let i = it.index() as int;
                assert(all.take(i + 1).drop_last() =~= all.take(i));
            }
            set.insert(s);
        }
        assert(all.take(all.len() as int) =~= all);
        set
    }

    /// Whether the two sets have a member in common.
    pub fn intersects(&self, other: &StringSet) -> (common: bool)
        ensures
            common == intersect(self@, other@),
    {
        let mut i: usize = 0;
        while i < self.items.len()
            invariant
                i <= self.items.len(),
                forall|a: int, b: int|
                    0 <= a < i && 0 <= b < other@.len() ==> self@[a] != other@[b],
            decreases self.items.len() - i,
        {
            if let Some(j) = other.position(&self.items[i]) {
                assert(self@[i as int] == other@[j as int]);
                return true;
            }
            i = i + 1;
        }
        false
    }
}

} // verus!
