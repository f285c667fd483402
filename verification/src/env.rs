//! The environment-lookup capability: a read-only name-to-value table that
//! the engine queries, standing in for process environment variables.

use vstd::prelude::*;

verus! {

/// A name-to-value table. Its view is the map from each name to the value
/// of its most recent binding.
pub struct Env {
    entries: Vec<(String, String)>,
}

/// The map that a list of bindings denotes: a later binding for a name
/// shadows an earlier one.
pub open spec fn entries_map(entries: Seq<(String, String)>) -> Map<Seq<char>, Seq<char>>
    decreases entries,
{
    if entries.len() == 0 {
        Map::empty()
    } else {
        entries_map(entries.subrange(0, entries.len() - 1)).insert(
            entries[entries.len() - 1].0@,
            entries[entries.len() - 1].1@,
        )
    }
}

impl View for Env {
    type V = Map<Seq<char>, Seq<char>>;

    closed spec fn view(&self) -> Map<Seq<char>, Seq<char>> {
        entries_map(self.entries@)
    }
}

impl Env {
    /// The empty environment.
    pub fn new() -> (r: Env)
        ensures
            r@ == Map::<Seq<char>, Seq<char>>::empty(),
    {
        Env { entries: Vec::new() }
    }

    /// Binds `name` to `value`, shadowing any earlier binding for `name`.
    pub fn insert(&mut self, name: String, value: String)
        ensures
            final(self)@ == old(self)@.insert(name@, value@),
    {
        let ghost before = self.entries@;
        self.entries.push((name, value));
        proof {
            assert(self.entries@.subrange(0, self.entries@.len() - 1) =~= before);
        }
    }

    /// Looks `name` up: the bound value where one exists, nothing otherwise.
    pub fn lookup(&self, name: &String) -> (r: Option<String>)
        ensures
            match r {
                Some(v) => self@.contains_key(name@) && v@ == self@[name@],
                None => !self@.contains_key(name@),
            },
    {
        let mut i: usize = self.entries.len();
        proof {
            assert(self.entries@.subrange(0, self.entries@.len() as int) =~= self.entries@);
        }
        while i > 0
            invariant
                i <= self.entries.len(),
                self@.contains_key(name@) == entries_map(
                    self.entries@.subrange(0, i as int),
                ).contains_key(name@),
                self@.contains_key(name@) ==> self@[name@] == entries_map(
                    self.entries@.subrange(0, i as int),
                )[name@],
            decreases i,
        {
            proof {
                let cur = self.entries@.subrange(0, i as int);
                assert(cur.subrange(0, cur.len() - 1) =~= self.entries@.subrange(0, i - 1));
            }
            if self.entries[i - 1].0.eq(name) {
                return Some(self.entries[i - 1].1.clone());
            }
            i = i - 1;
        }
        proof {
            assert(self.entries@.subrange(0, 0) =~= Seq::<(String, String)>::empty());
        }
        None
    }
}

} // verus!
