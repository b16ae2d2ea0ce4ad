//! Combining two result lists under one operator.

use vstd::prelude::*;

verus! {

/// One of the three binary operators of an expression.
#[derive(Clone, Copy, Debug, PartialEq, Eq, Structural)]
pub enum Operator {
    Add,
    Sub,
    Mul,
}

/// Why an evaluation gave no result.
#[derive(Clone, Copy, Debug, PartialEq, Eq, Structural)]
pub enum EvalError {
    /// A segment without any operator character is not an integer literal within `i32`.
    MalformedExpression,
    /// Some combination of two values lies outside `i32`.
    Overflow,
}

/// The operator that the character `c` writes, if it writes one.
pub open spec fn operator_of(c: char) -> Option<Operator> {
    if c == '+' {
        Some(Operator::Add)
    } else if c == '-' {
        Some(Operator::Sub)
    } else if c == '*' {
        Some(Operator::Mul)
    } else {
        None
    }
}

/// `c` is an operator character.
pub open spec fn is_operator(c: char) -> bool {
    operator_of(c).is_some()
}

/// The exact value of `a op b`, over the integers.
pub open spec fn apply(op: Operator, a: int, b: int) -> int {
    match op {
        Operator::Add => a + b,
        Operator::Sub => a - b,
        Operator::Mul => a * b,
    }
}

/// `a op b` for each `b` of `right`, in the order of `right`.
pub open spec fn row(op: Operator, a: i32, right: Seq<i32>) -> Seq<int> {
    Seq::new(right.len(), |j: int| apply(op, a as int, right[j] as int))
}

/// `a op b` for every `a` of `left` and every `b` of `right`: the values for
/// the first `a` come first, and within one `a` they follow `right`.
pub open spec fn cross(op: Operator, left: Seq<i32>, right: Seq<i32>) -> Seq<int>
    decreases left.len(),
{
    if left.len() == 0 {
        Seq::empty()
    } else {
        cross(op, left.drop_last(), right) + row(op, left.last(), right)
    }
}

/// Every value of `s` lies within `i32`.
pub open spec fn fits(s: Seq<int>) -> bool {
    forall|k: int| 0 <= k < s.len() ==> i32::MIN <= #[trigger] s[k] <= i32::MAX
}

/// The values of `s` as `i32`s.
pub open spec fn narrow(s: Seq<int>) -> Seq<i32> {
    Seq::new(s.len(), |k: int| s[k] as i32)
}

/// The result of combining `left` and `right` under `op`: all the values of
/// `cross`, or an overflow where one of them lies outside `i32`.
pub open spec fn combined(op: Operator, left: Seq<i32>, right: Seq<i32>) -> Result<
    Seq<i32>,
    EvalError,
> {
    if fits(cross(op, left, right)) {
        Ok(narrow(cross(op, left, right)))
    } else {
        Err(EvalError::Overflow)
    }
}

/// What an outcome of executable code holds, over sequences.
pub open spec fn outcome(r: Result<Vec<i32>, EvalError>) -> Result<Seq<i32>, EvalError> {
    match r {
        Ok(v) => Ok(v@),
        Err(x) => Err(x),
    }
}

/// The combination holds one value for each pair, and the value for the pair
/// of `left[i]` and `right[j]` stands at position `i * right.len() + j`.
pub proof fn lemma_cross_index(op: Operator, left: Seq<i32>, right: Seq<i32>, i: int, j: int)
    requires
        0 <= i < left.len(),
        0 <= j < right.len(),
    ensures
        cross(op, left, right).len() == left.len() * right.len(),
        0 <= i * right.len() + j < cross(op, left, right).len(),
        cross(op, left, right)[i * right.len() + j] == apply(op, left[i] as int, right[j] as int),
    decreases left.len(),
{
    lemma_cross_len(op, left, right);
    let rest = left.drop_last();
    let m = right.len() as int;
    let n = left.len() as int;
    lemma_cross_len(op, rest, right);
    assert(0 <= i * m && (i + 1) * m <= n * m && (n - 1) * m == n * m - m && (i + 1) * m == i * m
        + m) by (nonlinear_arith)
        requires
            0 <= i < n,
            0 <= m,
    ;
    if i < n - 1 {
        lemma_cross_index(op, rest, right, i, j);
        assert((i + 1) * m <= (n - 1) * m) by (nonlinear_arith)
            requires
                0 <= i < n - 1,
                0 <= m,
        ;
    } else {
        assert(cross(op, left, right)[i * m + j] == row(op, left.last(), right)[j]);
    }
}

/// The combination holds one value for each pair.
pub proof fn lemma_cross_len(op: Operator, left: Seq<i32>, right: Seq<i32>)
    ensures
        cross(op, left, right).len() == left.len() * right.len(),
    decreases left.len(),
{
    let m = right.len() as int;
    let n = left.len() as int;
    if n == 0 {
        assert(0 * m == 0) by (nonlinear_arith);
    } else {
        lemma_cross_len(op, left.drop_last(), right);
        assert((n - 1) * m + m == n * m) by (nonlinear_arith);
    }
}

impl Operator {
    /// Reads an operator character.
    pub fn from_char(c: char) -> (r: Option<Operator>)
        ensures
            r == operator_of(c),
    {
        if c == '+' {
            Some(Operator::Add)
        } else if c == '-' {
            Some(Operator::Sub)
        } else if c == '*' {
            Some(Operator::Mul)
        } else {
            None
        }
    }

    /// Applies the operator to two values, or reports that the result leaves `i32`.
    pub fn checked_apply(self, a: i32, b: i32) -> (r: Option<i32>)
        ensures
            r == (if i32::MIN <= apply(self, a as int, b as int) <= i32::MAX {
                Some(apply(self, a as int, b as int) as i32)
            } else {
                None
            }),
    {
        match self {
            Operator::Add => a.checked_add(b),
            Operator::Sub => a.checked_sub(b),
            Operator::Mul => a.checked_mul(b),
        }
    }
}

/// Combines every value of `left` with every value of `right` under `op`,
/// those of the first value of `left` first.
pub fn combine(left: &Vec<i32>, right: &Vec<i32>, op: Operator) -> (r: Result<Vec<i32>, EvalError>)
    ensures
        outcome(r) == combined(op, left@, right@),
{
    let mut out: Vec<i32> = Vec::new();
    let mut i: usize = 0;
    while i < left.len()
        invariant
            i <= left.len(),
            fits(cross(op, left@.take(i as int), right@)),
            out@ == narrow(cross(op, left@.take(i as int), right@)),
        decreases left.len() - i,
    {
        let a: i32 = left[i];
        let ghost done = cross(op, left@.take(i as int), right@);
        let mut j: usize = 0;
        while j < right.len()
            invariant
                i < left.len(),
                j <= right.len(),
                a == left@[i as int],
                done == cross(op, left@.take(i as int), right@),
                fits(done + row(op, a, right@.take(j as int))),
                out@ == narrow(done + row(op, a, right@.take(j as int))),
            decreases right.len() - j,
        {
            let b: i32 = right[j];
            match op.checked_apply(a, b) {
                Some(v) => {
                    proof {
                        let before = done + row(op, a, right@.take(j as int));
                        let after = done + row(op, a, right@.take(j + 1));
                        assert(after =~= before.push(v as int));
                        assert(out@.push(v) =~= narrow(after));
                    }
                    out.push(v);
                },
                None => {
                    proof {
                        lemma_cross_index(op, left@, right@, i as int, j as int);
                    }
                    return Err(EvalError::Overflow);
                },
            }
            j += 1;
        }
        proof {
            assert(right@.take(j as int) =~= right@);
            assert(left@.take(i + 1).drop_last() =~= left@.take(i as int));
        }
        i += 1;
    }
    assert(left@.take(i as int) =~= left@);
    Ok(out)
}

} // verus!
