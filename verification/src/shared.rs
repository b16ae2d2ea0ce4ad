//! A cache behind a lock, for evaluations that run side by side: the lock is
//! held for one lookup or one insertion at a time, never across a recursion.

use crate::cache::Cache;
use crate::combiner::{combine, is_operator, outcome, EvalError, Operator};
use crate::number::{parse_number, parsed};
use crate::partition::{
    has_operator, lemma_failure_stays, lemma_operator_among, sound, valid_split, ways, ways_upto,
};
use vstd::prelude::*;
use vstd::rwlock::{RwLock, RwLockPredicate};

verus! {

/// What the lock keeps true of the cache inside it: each entry holds the
/// values of its key, and the entries in `seed` are among them.
pub struct SoundEntries {
    pub seed: Map<Seq<char>, Seq<i32>>,
}

impl RwLockPredicate<Cache> for SoundEntries {
    open spec fn inv(self, entries: Cache) -> bool {
        sound(entries@) && self.seed.submap_of(entries@)
    }
}

/// A cache that several evaluations may use at once.
pub struct SharedCache {
    lock: RwLock<Cache, SoundEntries>,
}

impl SharedCache {
    /// A shared cache without entries.
    pub fn new() -> (r: SharedCache)
        ensures
            r.seed() == Map::<Seq<char>, Seq<i32>>::empty(),
    {
        SharedCache::from_cache(Cache::new())
    }

    /// A copy of the results stored under `expr` at this moment, if there are
    /// any. What the cache was made with is always found. Of anything else
    /// others decide, who may write at any time; what is found holds the
    /// values of `expr`.
    pub fn get(&self, expr: &str) -> (r: Option<Vec<i32>>)
        ensures
            r matches Some(v) ==> ways(expr@) == Ok::<Seq<i32>, EvalError>(v@),
            self.seed().contains_key(expr@) ==> (r matches Some(v) && v@ == self.seed()[expr@]),
    {
        let handle = self.lock.acquire_read();
        let r = handle.borrow().get(expr);
        handle.release_read();
        r
    }

    /// Stores the values of `expr` under it.
    pub fn put(&self, expr: String, results: Vec<i32>)
        requires
            ways(expr@) == Ok::<Seq<i32>, EvalError>(results@),
    {
        let (mut entries, handle) = self.lock.acquire_write();
        let ghost before = entries@;
        entries.put(expr, results);
        proof {
            let seed = self.seed();
            assert forall|k: Seq<char>| #[trigger] seed.dom().contains(k) implies entries@.dom().contains(
                k,
            ) && seed[k] == entries@[k] by {
                assert(before.dom().contains(k) && seed[k] == before[k]);
                assert(before.contains_key(k));
            }
        }
        handle.release_write(entries);
    }

    /// The entries that the cache was made with. They stay in it for as long
    /// as it lives, whatever is stored beside them.
    pub closed spec fn seed(&self) -> Map<Seq<char>, Seq<i32>> {
        self.lock.pred().seed
    }

    /// A shared cache that starts with the entries of `cache`.
    pub fn from_cache(cache: Cache) -> (r: SharedCache)
        requires
            sound(cache@),
        ensures
            r.seed() == cache@,
    {
        let ghost keeps = SoundEntries { seed: cache@ };
        SharedCache { lock: RwLock::new(cache, Ghost(keeps)) }
    }
}

/// Every value of the segment `expr`, with the shared `cache` consulted first
/// and filled afterwards. A segment is never empty.
pub fn evaluate_shared_segment(cache: &SharedCache, expr: &str) -> (r: Result<Vec<i32>, EvalError>)
    requires
        expr@.len() > 0,
    ensures
        outcome(r) == ways(expr@),
    decreases expr@.len(),
{
    if let Some(found) = cache.get(expr) {
        return Ok(found);
    }
    if let Some(v) = parse_number(expr) {
        let mut results: Vec<i32> = Vec::new();
        results.push(v);
        let mut stored: Vec<i32> = Vec::new();
        stored.push(v);
        assert(results@ =~= seq![v]);
        assert(stored@ =~= seq![v]);
        cache.put(expr.to_owned(), stored);
        return Ok(results);
    }
    let n: usize = expr.unicode_len();
    let mut results: Vec<i32> = Vec::new();
    let mut seen: bool = false;
    let mut i: usize = 0;
    while i < n
        invariant
            i <= n,
            n == expr@.len(),
            parsed(expr@) is None,
            ways_upto(expr@, i as int) == Ok::<Seq<i32>, EvalError>(results@),
            seen == has_operator(expr@.take(i as int)),
        decreases n - i,
    {
        let c: char = expr.get_char(i);
        let ghost e = expr@;
        proof {
            lemma_operator_among(e, i as int);
        }
        match Operator::from_char(c) {
            Some(op) => {
                seen = true;
                if 0 < i && i + 1 < n {
                    proof {
                        assert(is_operator(e[i as int]));
                        assert(has_operator(e));
                        assert(valid_split(e, i as int));
                    }
                    let left = match evaluate_shared_segment(cache, expr.substring_char(0, i)) {
                        Ok(values) => values,
                        Err(x) => {
                            proof {
                                lemma_failure_stays(e, i + 1, n as int);
                            }
                            return Err(x);
                        },
                    };
                    let right = match evaluate_shared_segment(cache, expr.substring_char(i + 1, n)) {
                        Ok(values) => values,
                        Err(x) => {
                            proof {
                                lemma_failure_stays(e, i + 1, n as int);
                            }
                            return Err(x);
                        },
                    };
                    let mut part = match combine(&left, &right, op) {
                        Ok(values) => values,
                        Err(x) => {
                            proof {
                                lemma_failure_stays(e, i + 1, n as int);
                            }
                            return Err(x);
                        },
                    };
                    results.append(&mut part);
                }
            },
            None => {},
        }
        i += 1;
    }
    assert(expr@.take(n as int) =~= expr@);
    if !seen {
        return Err(EvalError::MalformedExpression);
    }
    let mut stored: Vec<i32> = Vec::new();
    let mut k: usize = 0;
    while k < results.len()
        invariant
            k <= results.len(),
            stored@ == results@.take(k as int),
        decreases results.len() - k,
    {
        stored.push(results[k]);
        assert(results@.take(k + 1) =~= results@.take(k as int).push(results@[k as int]));
        k += 1;
    }
    assert(results@.take(k as int) =~= results@);
    cache.put(expr.to_owned(), stored);
    Ok(results)
}

/// Every value of `expr`, with the shared `cache` consulted first and filled
/// afterwards. Empty text is malformed.
pub fn evaluate_shared(cache: &SharedCache, expr: &str) -> (r: Result<Vec<i32>, EvalError>)
    ensures
        outcome(r) == ways(expr@),
{
    if expr.unicode_len() == 0 {
        assert(!has_operator(expr@));
        Err(EvalError::MalformedExpression)
    } else {
        evaluate_shared_segment(cache, expr)
    }
}

} // verus!
