//! Numbering of identifiers.
//!
//! Sets and graphs over strings are costly to hold and to compare. An
//! `Interner` gives each distinct string a number, the position at which it
//! was first entered, so that everything else can work on numbers.

use vstd::hash_map::*;
use vstd::prelude::*;

verus! {

/// Where `name` stands among `names`, if it does.
pub open spec fn position(names: Seq<Seq<char>>, name: Seq<char>) -> Option<usize> {
    if names.contains(name) {
        Some(names.index_of(name) as usize)
    } else {
        None
    }
}

/// `names` with `name` entered: at the end when it is new, not at all when it
/// is there already.
pub open spec fn entered(names: Seq<Seq<char>>, name: Seq<char>) -> Seq<Seq<char>> {
    if names.contains(name) {
        names
    } else {
        names.push(name)
    }
}

/// The plain values of a run of strings.
pub open spec fn texts(v: Seq<String>) -> Seq<Seq<char>> {
    v.map_values(|s: String| s@)
}

/// In a run without repetition, a value stands where it is found.
pub proof fn lemma_position_of_member(names: Seq<Seq<char>>, k: int)
    requires
        names.no_duplicates(),
        0 <= k < names.len(),
    ensures
        position(names, names[k]) == Some(k as usize),
        names.index_of(names[k]) == k,
{
    assert(names.contains(names[k]));
    let j = names.index_of(names[k]);
    assert(0 <= j < names.len() && names[j] == names[k]);
}

/// Distinct strings, numbered in the order in which they were entered.
pub struct Interner {
    names: Vec<String>,
    index: StringHashMap<usize>,
}

impl View for Interner {
    type V = Seq<Seq<char>>;

    closed spec fn view(&self) -> Seq<Seq<char>> {
        texts(self.names@)
    }
}

impl Interner {
    /// No string is held twice, and the index finds each where it stands.
    pub closed spec fn wf(&self) -> bool {
        &&& texts(self.names@).no_duplicates()
        &&& forall|name: Seq<char>| #[trigger]
            self.index@.contains_key(name) <==> texts(self.names@).contains(name)
        &&& forall|k: int|
            0 <= k < self.names.len() ==> self.index@[#[trigger] texts(self.names@)[k]] == k
    }

    pub proof fn lemma_distinct(&self)
        requires
            self.wf(),
        ensures
            self@.no_duplicates(),
    {
    }

    pub fn new() -> (fresh: Interner)
        ensures
            fresh.wf(),
            fresh@ == Seq::<Seq<char>>::empty(),
    {
        let fresh = Interner { names: Vec::new(), index: StringHashMap::new() };
        assert(texts(fresh.names@) =~= Seq::<Seq<char>>::empty());
        fresh
    }

    /// The number of strings held.
    pub fn len(&self) -> (n: usize)
        ensures
            n == self@.len(),
    {
        self.names.len()
    }

    /// The string with number `k`.
    pub fn name(&self, k: usize) -> (name: &String)
        requires
            k < self@.len(),
        ensures
            name@ == self@[k as int],
    {
        &self.names[k]
    }

    /// The number of `name`, if it is held.
    pub fn find(&self, name: &str) -> (found: Option<usize>)
        requires
            self.wf(),
        ensures
            found == position(self@, name@),
            found matches Some(k) ==> k < self@.len() && self@[k as int] == name@,
    {
        match self.index.get(name) {
            Some(k) => {
                proof {
                    let names = texts(self.names@);
                    assert(names.contains(name@));
                    let j = names.index_of(name@);
                    assert(self.index@[names[j]] == j);
                }
                Some(*k)
            },
            None => None,
        }
    }

    /// Enters `name` and returns its number. A string that is held already
    /// keeps the number it has.
    pub fn intern(&mut self, name: String) -> (k: usize)
        requires
            old(self).wf(),
        ensures
            final(self).wf(),
            final(self)@ == entered(old(self)@, name@),
            position(final(self)@, name@) == Some(k),
            k < final(self)@.len(),
            final(self)@[k as int] == name@,
    {
        match self.find(name.as_str()) {
            Some(k) => k,
            None => {
                let k: usize = self.names.len();
                let ghost before = texts(self.names@);
                let ghost text = name@;
                self.index.insert(name.clone(), k);
                self.names.push(name);
                proof {
                    let after = texts(self.names@);
                    assert(after =~= before.push(text));
                    assert forall|other: Seq<char>| #[trigger]
                        self.index@.contains_key(other) <==> after.contains(other) by {
                        if before.contains(other) {
                            let j = before.index_of(other);
                            assert(after[j] == other);
                        }
                        if other == text {
                            assert(after[k as int] == other);
                        }
                    }
                    assert forall|j: int| 0 <= j < after.len() implies self.index@[#[trigger] after[j]]
                        == j by {
                        if j < k {
                            assert(before[j] == after[j]);
                            assert(before.contains(before[j]));
                        }
                    }
                    lemma_position_of_member(after, k as int);
                }
                k
            },
        }
    }
}

} // verus!
