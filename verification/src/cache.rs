//! The store of results, keyed by the exact text of an expression.

use vstd::hash_map::StringHashMap;
use vstd::prelude::*;

verus! {

/// Results that were computed before, each under the text it was computed for.
pub struct Cache {
    entries: StringHashMap<Vec<i32>>,
}

impl View for Cache {
    type V = Map<Seq<char>, Seq<i32>>;

    closed spec fn view(&self) -> Map<Seq<char>, Seq<i32>> {
        Map::new(|k: Seq<char>| self.entries@.contains_key(k), |k: Seq<char>| self.entries@[k]@)
    }
}

impl Cache {
    /// A cache without entries.
    pub fn new() -> (r: Cache)
        ensures
            r@ == Map::<Seq<char>, Seq<i32>>::empty(),
    {
        let r = Cache { entries: StringHashMap::new() };
        assert(r@ =~= Map::<Seq<char>, Seq<i32>>::empty());
        r
    }

    /// A copy of the results stored under `expr`, if there are any.
    pub fn get(&self, expr: &str) -> (r: Option<Vec<i32>>)
        ensures
            match r {
                Some(v) => self@.contains_key(expr@) && v@ == self@[expr@],
                None => !self@.contains_key(expr@),
            },
    {
        match self.entries.get(expr) {
            Some(found) => {
                let copy = found.clone();
                assert(copy@ =~= found@);
                Some(copy)
            },
            None => None,
        }
    }

    /// Stores `results` under `expr`, in place of what was there. Nothing is
    /// asked of `results` here: whoever stores values by hand answers for them.
    pub fn put(&mut self, expr: String, results: Vec<i32>)
        ensures
            final(self)@ == old(self)@.insert(expr@, results@),
    {
        self.entries.insert(expr, results);
        assert(self@ =~= old(self)@.insert(expr@, results@));
    }

    /// Whether something is stored under `expr`.
    pub fn contains(&self, expr: &str) -> (b: bool)
        ensures
            b == self@.contains_key(expr@),
    {
        self.entries.contains_key(expr)
    }

    /// The number of entries.
    pub fn len(&self) -> (n: usize)
        ensures
            n == self@.len(),
    {
        assert(self@.dom() =~= self.entries@.dom());
        self.entries.len()
    }
}

} // verus!
