//! The table of variables: every variable has a name and a value, both
//! text, and every name occurs once.

use vstd::hash_map::StringHashMap;
use vstd::prelude::*;

verus! {

/// The variables that an engine knows, by name.
pub struct VarTable {
    map: StringHashMap<String>,
}

impl View for VarTable {
    type V = Map<Seq<char>, Seq<char>>;

    /// The value of every variable, by name.
    closed spec fn view(&self) -> Map<Seq<char>, Seq<char>> {
        self.map@.map_values(|v: String| v@)
    }
}

impl VarTable {
    /// Creates a table without variables.
    pub fn new() -> (r: Self)
        ensures
            r@ == Map::<Seq<char>, Seq<char>>::empty(),
    {
        let r = VarTable { map: StringHashMap::new() };
        assert(r@ =~= Map::<Seq<char>, Seq<char>>::empty());
        r
    }

    /// Gives the variable `name` the value `value`. Returns the value that
    /// the variable had before, if it had one.
    pub fn insert(&mut self, name: String, value: String) -> (previous: Option<String>)
        ensures
            final(self)@ == old(self)@.insert(name@, value@),
            match previous {
                Some(p) => old(self)@.contains_key(name@) && p@ == old(self)@[name@],
                None => !old(self)@.contains_key(name@),
            },
    {
        let previous = self.get(name.as_str());
        let ghost before = self.map@;
        self.map.insert(name, value);
        assert(self@ =~= old(self)@.insert(name@, value@));
        previous
    }

    /// Returns the value of the variable `name`, if it has one.
    pub fn get(&self, name: &str) -> (value: Option<String>)
        ensures
            match value {
                Some(v) => self@.contains_key(name@) && v@ == self@[name@],
                None => !self@.contains_key(name@),
            },
    {
        match self.map.get(name) {
            Some(v) => Some(v.clone()),
            None => None,
        }
    }

    /// Tests if the variable `name` has a value.
    pub fn contains_key(&self, name: &str) -> (r: bool)
        ensures
            r == self@.contains_key(name@),
    {
        self.map.contains_key(name)
    }

    /// Takes the variable `name` out of the table. Returns the value that
    /// it had, if it had one.
    pub fn remove(&mut self, name: &str) -> (previous: Option<String>)
        ensures
            final(self)@ == old(self)@.remove(name@),
            match previous {
                Some(p) => old(self)@.contains_key(name@) && p@ == old(self)@[name@],
                None => !old(self)@.contains_key(name@),
            },
    {
        let previous = self.get(name);
        self.map.remove(name);
        assert(self@ =~= old(self)@.remove(name@));
        previous
    }

    /// The number of variables.
    pub fn len(&self) -> (r: usize)
        ensures
            r == self@.len(),
    {
        broadcast use vstd::hash_map::group_hash_map_axioms;

        let r = self.map.len();
        proof {
            assert(self@.dom() =~= self.map@.dom());
        }
        r
    }
}

} // verus!
