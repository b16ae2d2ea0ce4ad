//! The evaluator: every way of splitting an expression at one of its
//! operators, with the results of both sides combined.

use crate::cache::Cache;
use crate::combiner::{
    combine, combined, is_operator, operator_of, outcome, EvalError, Operator,
};
use crate::number::{parse_number, parsed};
use vstd::prelude::*;

verus! {

/// Some character of `e` is an operator character.
pub open spec fn has_operator(e: Seq<char>) -> bool {
    exists|i: int| 0 <= i < e.len() && is_operator(#[trigger] e[i])
}

/// `e` may be split at `i`: an operator stands there, and something stands on
/// both sides of it.
pub open spec fn valid_split(e: Seq<char>, i: int) -> bool {
    0 < i < e.len() - 1 && is_operator(e[i])
}

/// What stands left of position `i` in `e`.
pub open spec fn left_of(e: Seq<char>, i: int) -> Seq<char> {
    e.subrange(0, i)
}

/// What stands right of position `i` in `e`.
pub open spec fn right_of(e: Seq<char>, i: int) -> Seq<char> {
    e.subrange(i + 1, e.len() as int)
}

/// The values of one split, from the outcomes of its two sides: the first
/// failure, left before right, else the combination.
pub open spec fn split_values(
    op: Operator,
    left: Result<Seq<i32>, EvalError>,
    right: Result<Seq<i32>, EvalError>,
) -> Result<Seq<i32>, EvalError> {
    match left {
        Err(x) => Err(x),
        Ok(a) => match right {
            Err(x) => Err(x),
            Ok(b) => combined(op, a, b),
        },
    }
}

/// The values gathered so far, `acc`, followed by those of the next split.
pub open spec fn gather(
    acc: Result<Seq<i32>, EvalError>,
    part: Result<Seq<i32>, EvalError>,
) -> Result<Seq<i32>, EvalError> {
    match acc {
        Err(x) => Err(x),
        Ok(a) => match part {
            Err(x) => Err(x),
            Ok(p) => Ok(a + p),
        },
    }
}

/// Every value that the expression `e` can take, in order: a literal has its
/// own value; any other text with an operator character has the values of
/// all its valid splits, from left to right; text without one is malformed.
pub open spec fn ways(e: Seq<char>) -> Result<Seq<i32>, EvalError>
    decreases e.len(), e.len() + 1,
{
    match parsed(e) {
        Some(v) => Ok(seq![v]),
        None => if has_operator(e) {
            ways_upto(e, e.len() as int)
        } else {
            Err(EvalError::MalformedExpression)
        },
    }
}

/// The values of the valid splits of `e` at positions below `n`, or the first
/// failure among them.
pub open spec fn ways_upto(e: Seq<char>, n: int) -> Result<Seq<i32>, EvalError>
    decreases e.len(), n,
{
    if n <= 0 || n > e.len() {
        Ok(Seq::empty())
    } else if valid_split(e, n - 1) {
        gather(
            ways_upto(e, n - 1),
            split_values(
                operator_of(e[n - 1]).unwrap(),
                ways(left_of(e, n - 1)),
                ways(right_of(e, n - 1)),
            ),
        )
    } else {
        ways_upto(e, n - 1)
    }
}

/// Each entry of the cache holds the values of its key. The evaluator trusts
/// what it finds in the cache, so it asks this of the cache it is given; an
/// empty cache is sound, and the evaluator keeps a cache sound.
pub open spec fn sound(entries: Map<Seq<char>, Seq<i32>>) -> bool {
    forall|k: Seq<char>| #[trigger] entries.contains_key(k) ==> ways(k) == Ok::<Seq<i32>, EvalError>(entries[k])
}

/// `s` is a subproblem of `e`: `e` itself, or a side of one of its valid
/// splits, or a subproblem of such a side. A literal has no split.
pub open spec fn subproblem(e: Seq<char>, s: Seq<char>) -> bool
    decreases e.len(),
{
    s == e || (parsed(e) is None && exists|i: int| #[trigger]
        valid_split(e, i) && (subproblem(left_of(e, i), s) || subproblem(right_of(e, i), s)))
}

/// With each expression the cache holds both sides of each of its valid splits.
pub open spec fn closed(entries: Map<Seq<char>, Seq<i32>>) -> bool {
    forall|k: Seq<char>, i: int|
        #![trigger entries.contains_key(k), valid_split(k, i)]
        entries.contains_key(k) && parsed(k) is None && valid_split(k, i) ==> entries.contains_key(
            left_of(k, i),
        ) && entries.contains_key(right_of(k, i))
}

/// Whatever `after` holds and `before` did not is a subproblem of `e`.
pub open spec fn grown_within(
    before: Map<Seq<char>, Seq<i32>>,
    after: Map<Seq<char>, Seq<i32>>,
    e: Seq<char>,
) -> bool {
    forall|k: Seq<char>| #[trigger]
        after.contains_key(k) ==> before.contains_key(k) || subproblem(e, k)
}

/// One evaluation of `e` took the cache from `before` to `after` and gave `r`:
/// `r` is what `e` denotes; the cache stayed sound and lost nothing; on a hit
/// it did not change; it holds `e` exactly when `r` is a result; it gained
/// only subproblems of `e`; and where it held the sides of every split of its
/// keys, it still does.
pub open spec fn evaluated(
    before: Map<Seq<char>, Seq<i32>>,
    e: Seq<char>,
    after: Map<Seq<char>, Seq<i32>>,
    r: Result<Seq<i32>, EvalError>,
) -> bool {
    &&& r == ways(e)
    &&& sound(after)
    &&& before.submap_of(after)
    &&& before.contains_key(e) ==> after == before
    &&& after.contains_key(e) == r.is_ok()
    &&& grown_within(before, after, e)
    &&& closed(before) ==> closed(after)
}

/// An operator stands among the first `i + 1` characters where one stands
/// among the first `i` or at position `i`.
pub proof fn lemma_operator_among(e: Seq<char>, i: int)
    requires
        0 <= i < e.len(),
    ensures
        has_operator(e.take(i + 1)) == (has_operator(e.take(i)) || is_operator(e[i])),
{
    let next = e.take(i + 1);
    if has_operator(e.take(i)) {
        let k = choose|k: int| 0 <= k < i && is_operator(#[trigger] e.take(i)[k]);
        assert(is_operator(next[k]));
    }
    if is_operator(e[i]) {
        assert(is_operator(next[i]));
    }
    if has_operator(next) {
        let k = choose|k: int| 0 <= k < next.len() && is_operator(#[trigger] next[k]);
        if k < i {
            assert(is_operator(e.take(i)[k]));
        }
    }
}

/// A failure among the first splits is the failure of all of them.
pub proof fn lemma_failure_stays(e: Seq<char>, n: int, m: int)
    requires
        0 <= n <= m <= e.len(),
        ways_upto(e, n) is Err,
    ensures
        ways_upto(e, m) == ways_upto(e, n),
    decreases m - n,
{
    if n < m {
        lemma_failure_stays(e, n, m - 1);
    }
}

/// A cache that grew twice has kept what it first held.
pub proof fn lemma_growth_chains<K, V>(a: Map<K, V>, b: Map<K, V>, c: Map<K, V>)
    requires
        a.submap_of(b),
        b.submap_of(c),
    ensures
        a.submap_of(c),
{
    assert forall|k: K| #[trigger] a.dom().contains(k) implies c.dom().contains(k) && a[k] == c[k] by {
        assert(b.dom().contains(k));
    }
}

/// A literal within `i32` has exactly one value, its own.
pub proof fn lemma_literal_has_one_value(e: Seq<char>)
    requires
        parsed(e) is Some,
    ensures
        ways(e) == Ok::<Seq<i32>, EvalError>(seq![parsed(e).unwrap()]),
{
}

/// No expression is split at its first or its last character: both sides of
/// a valid split hold at least one character, and fewer than the whole.
pub proof fn lemma_sides_are_not_empty(e: Seq<char>, i: int)
    requires
        valid_split(e, i),
    ensures
        i != 0,
        0 < left_of(e, i).len() < e.len(),
        0 < right_of(e, i).len() < e.len(),
{
}

/// A subproblem of text that is not empty is not empty, and no longer than the text.
pub proof fn lemma_subproblem_not_empty(e: Seq<char>, s: Seq<char>)
    requires
        subproblem(e, s),
        e.len() > 0,
    ensures
        0 < s.len() <= e.len(),
    decreases e.len(),
{
    if s != e {
        let i = choose|i: int| #[trigger]
            valid_split(e, i) && (subproblem(left_of(e, i), s) || subproblem(right_of(e, i), s));
        if subproblem(left_of(e, i), s) {
            lemma_subproblem_not_empty(left_of(e, i), s);
        } else {
            lemma_subproblem_not_empty(right_of(e, i), s);
        }
    }
}

/// A subproblem of a side of a valid split is a subproblem of the whole.
pub proof fn lemma_side_subproblem(e: Seq<char>, i: int, s: Seq<char>)
    requires
        parsed(e) is None,
        valid_split(e, i),
        subproblem(left_of(e, i), s) || subproblem(right_of(e, i), s),
    ensures
        subproblem(e, s),
{
}

/// A closed cache that holds an expression holds each of its subproblems.
pub proof fn lemma_closed_holds_subproblems(
    entries: Map<Seq<char>, Seq<i32>>,
    e: Seq<char>,
    s: Seq<char>,
)
    requires
        closed(entries),
        entries.contains_key(e),
        subproblem(e, s),
    ensures
        entries.contains_key(s),
    decreases e.len(),
{
    if s != e {
        let i = choose|i: int| #[trigger]
            valid_split(e, i) && (subproblem(left_of(e, i), s) || subproblem(right_of(e, i), s));
        assert(entries.contains_key(left_of(e, i)) && entries.contains_key(right_of(e, i)));
        if subproblem(left_of(e, i), s) {
            lemma_closed_holds_subproblems(entries, left_of(e, i), s);
        } else {
            lemma_closed_holds_subproblems(entries, right_of(e, i), s);
        }
    }
}

/// Evaluating the same text twice gives the same outcome both times, and
/// after a first result the second evaluation is a hit that leaves the cache
/// as it is.
pub proof fn lemma_second_evaluation_is_a_hit(
    c0: Map<Seq<char>, Seq<i32>>,
    e: Seq<char>,
    c1: Map<Seq<char>, Seq<i32>>,
    r1: Result<Seq<i32>, EvalError>,
    c2: Map<Seq<char>, Seq<i32>>,
    r2: Result<Seq<i32>, EvalError>,
)
    requires
        evaluated(c0, e, c1, r1),
        evaluated(c1, e, c2, r2),
    ensures
        r2 == r1,
        r1 is Ok ==> c2 == c1 && r2 == Ok::<Seq<i32>, EvalError>(c1[e]),
{
}

/// Once an expression was evaluated to a result in a closed cache, each of
/// its subproblems is answered from the cache, whichever expression asks for
/// it next: the cache does not change and the stored values are returned.
pub proof fn lemma_subproblems_are_reused(
    c0: Map<Seq<char>, Seq<i32>>,
    e: Seq<char>,
    c1: Map<Seq<char>, Seq<i32>>,
    r1: Result<Seq<i32>, EvalError>,
    s: Seq<char>,
    c2: Map<Seq<char>, Seq<i32>>,
    r2: Result<Seq<i32>, EvalError>,
)
    requires
        closed(c0),
        evaluated(c0, e, c1, r1),
        r1 is Ok,
        subproblem(e, s),
        evaluated(c1, s, c2, r2),
    ensures
        c1.contains_key(s),
        c2 == c1,
        r2 == Ok::<Seq<i32>, EvalError>(c1[s]),
{
    lemma_closed_holds_subproblems(c1, e, s);
}

/// What a cache gained while a side of a valid split of `e` was evaluated,
/// it gained within `e`.
pub proof fn lemma_grown_on_a_side(
    first: Map<Seq<char>, Seq<i32>>,
    before: Map<Seq<char>, Seq<i32>>,
    after: Map<Seq<char>, Seq<i32>>,
    e: Seq<char>,
    i: int,
)
    requires
        parsed(e) is None,
        valid_split(e, i),
        grown_within(first, before, e),
        grown_within(before, after, left_of(e, i)) || grown_within(before, after, right_of(e, i)),
    ensures
        grown_within(first, after, e),
{
    assert forall|k: Seq<char>| #[trigger] after.contains_key(k) implies first.contains_key(k)
        || subproblem(e, k) by {
        if !before.contains_key(k) {
            lemma_side_subproblem(e, i, k);
        }
    }
}

/// Every value of the segment `expr`, with `cache` consulted first and
/// filled afterwards. A segment is never empty.
pub fn evaluate_segment(cache: &mut Cache, expr: &str) -> (r: Result<Vec<i32>, EvalError>)
    requires
        sound(old(cache)@),
        expr@.len() > 0,
    ensures
        evaluated(old(cache)@, expr@, final(cache)@, outcome(r)),
    decreases expr@.len(),
{
    if let Some(found) = cache.get(expr) {
        return Ok(found);
    }
    if let Some(v) = parse_number(expr) {
        let mut results: Vec<i32> = Vec::new();
        results.push(v);
        let mut stored: Vec<i32> = Vec::new();
        stored.push(v);
        assert(results@ =~= seq![v]);
        assert(stored@ =~= seq![v]);
        cache.put(expr.to_owned(), stored);
        return Ok(results);
    }
    let n: usize = expr.unicode_len();
    let mut results: Vec<i32> = Vec::new();
    let mut seen: bool = false;
    let mut i: usize = 0;
    while i < n
        invariant
            i <= n,
            n == expr@.len(),
            parsed(expr@) is None,
            ways_upto(expr@, i as int) == Ok::<Seq<i32>, EvalError>(results@),
            seen == has_operator(expr@.take(i as int)),
            sound(cache@),
            old(cache)@.submap_of(cache@),
            !old(cache)@.contains_key(expr@),
            grown_within(old(cache)@, cache@, expr@),
            closed(old(cache)@) ==> closed(cache@),
            forall|j: int|
                0 <= j < i && #[trigger] valid_split(expr@, j) ==> cache@.contains_key(
                    left_of(expr@, j),
                ) && cache@.contains_key(right_of(expr@, j)),
        decreases n - i,
    {
        let c: char = expr.get_char(i);
        let ghost e = expr@;
        proof {
            lemma_operator_among(e, i as int);
        }
        match Operator::from_char(c) {
            Some(op) => {
                seen = true;
                if 0 < i && i + 1 < n {
                    proof {
                        assert(is_operator(e[i as int]));
                        assert(has_operator(e));
                        assert(valid_split(e, i as int));
                    }
                    let ghost before = cache@;
                    let left = match evaluate_segment(cache, expr.substring_char(0, i)) {
                        Ok(values) => values,
                        Err(x) => {
                            proof {
                                lemma_failure_stays(e, i + 1, n as int);
                                lemma_growth_chains(old(cache)@, before, cache@);
                                lemma_grown_on_a_side(old(cache)@, before, cache@, e, i as int);
                            }
                            return Err(x);
                        },
                    };
                    let ghost between = cache@;
                    proof {
                        lemma_growth_chains(old(cache)@, before, between);
                        lemma_grown_on_a_side(old(cache)@, before, between, e, i as int);
                    }
                    let right = match evaluate_segment(cache, expr.substring_char(i + 1, n)) {
                        Ok(values) => values,
                        Err(x) => {
                            proof {
                                lemma_failure_stays(e, i + 1, n as int);
                                lemma_growth_chains(old(cache)@, between, cache@);
                                lemma_grown_on_a_side(old(cache)@, between, cache@, e, i as int);
                            }
                            return Err(x);
                        },
                    };
                    proof {
                        lemma_growth_chains(old(cache)@, between, cache@);
                        lemma_grown_on_a_side(old(cache)@, between, cache@, e, i as int);
                        lemma_growth_chains(before, between, cache@);
                        assert forall|j: int| 0 <= j <= i && #[trigger] valid_split(e, j) implies cache@.contains_key(
                            left_of(e, j),
                        ) && cache@.contains_key(right_of(e, j)) by {
                            if j < i {
                                assert(before.dom().contains(left_of(e, j)));
                                assert(before.dom().contains(right_of(e, j)));
                            } else {
                                assert(between.dom().contains(left_of(e, j)));
                            }
                        }
                    }
                    let mut part = match combine(&left, &right, op) {
                        Ok(values) => values,
                        Err(x) => {
                            proof {
                                lemma_failure_stays(e, i + 1, n as int);
                            }
                            return Err(x);
                        },
                    };
                    results.append(&mut part);
                }
            },
            None => {},
        }
        i += 1;
    }
    assert(expr@.take(n as int) =~= expr@);
    if !seen {
        return Err(EvalError::MalformedExpression);
    }
    let mut stored: Vec<i32> = Vec::new();
    let mut k: usize = 0;
    while k < results.len()
        invariant
            k <= results.len(),
            stored@ == results@.take(k as int),
        decreases results.len() - k,
    {
        stored.push(results[k]);
        assert(results@.take(k + 1) =~= results@.take(k as int).push(results@[k as int]));
        k += 1;
    }
    assert(results@.take(k as int) =~= results@);
    cache.put(expr.to_owned(), stored);
    Ok(results)
}

/// Every value of `expr`, with `cache` consulted first and filled afterwards.
/// Empty text is malformed.
pub fn evaluate(cache: &mut Cache, expr: &str) -> (r: Result<Vec<i32>, EvalError>)
    requires
        sound(old(cache)@),
    ensures
        evaluated(old(cache)@, expr@, final(cache)@, outcome(r)),
{
    if expr.unicode_len() == 0 {
        assert(!has_operator(expr@));
        Err(EvalError::MalformedExpression)
    } else {
        evaluate_segment(cache, expr)
    }
}

/// Every value of `expr`, with `cache` consulted first and filled afterwards.
pub fn diff_ways_to_compute(cache: &mut Cache, expr: String) -> (r: Result<Vec<i32>, EvalError>)
    requires
        sound(old(cache)@),
    ensures
        evaluated(old(cache)@, expr@, final(cache)@, outcome(r)),
{
    evaluate(cache, expr.as_str())
}

} // verus!
