//! Chaining numbers by their digits: one number may follow another where its
//! first digit is the other's last.

use vstd::prelude::*;

verus! {

/// The size of `n` without its sign.
pub open spec fn magnitude(n: int) -> nat {
    if n < 0 {
        (-n) as nat
    } else {
        n as nat
    }
}

/// The first decimal digit of `n`.
pub open spec fn leading_digit(n: nat) -> nat
    decreases n,
{
    if n < 10 {
        n
    } else {
        leading_digit(n / 10)
    }
}

/// The last decimal digit of `n`.
pub open spec fn trailing_digit(n: nat) -> nat {
    n % 10
}

/// `next` may stand directly after `prev` in a chain.
pub open spec fn chains(prev: int, next: int) -> bool {
    trailing_digit(magnitude(prev)) == leading_digit(magnitude(next))
}

/// The first decimal digit of `num`, whatever its sign.
pub fn first_digit(num: i32) -> (d: i32)
    ensures
        d == leading_digit(magnitude(num as int)),
        0 <= d <= 9,
{
    let wide: i64 = num as i64;
    let mut rest: i64 = if wide < 0 { -wide } else { wide };
    while rest >= 10
        invariant
            0 <= rest <= 2147483648,
            leading_digit(rest as nat) == leading_digit(magnitude(num as int)),
        decreases rest,
    {
        rest = rest / 10;
    }
    rest as i32
}

/// Whether the first digit of `next` is the last digit of `prev`.
pub fn can_place(prev: i32, next: i32) -> (b: bool)
    ensures
        b == chains(prev as int, next as int),
{
    let wide: i64 = prev as i64;
    let size: i64 = if wide < 0 { -wide } else { wide };
    let last: i64 = size % 10;
    last == first_digit(next) as i64
}

/// A chain over `numbers`: `order` lists places of `numbers`, none of them
/// twice, and each number after the first may stand after the one before it.
pub open spec fn is_chain(numbers: Seq<i32>, order: Seq<int>) -> bool {
    &&& forall|k: int| 0 <= k < order.len() ==> 0 <= #[trigger] order[k] < numbers.len()
    &&& forall|k: int, l: int| 0 <= k < l < order.len() ==> order[k] != order[l]
    &&& forall|k: int|
        0 < k < order.len() ==> chains(
            numbers[order[k - 1]] as int,
            numbers[#[trigger] order[k]] as int,
        )
}

/// A chain that uses every place of `numbers`.
pub open spec fn arranges(numbers: Seq<i32>, order: Seq<int>) -> bool {
    is_chain(numbers, order) && order.len() == numbers.len()
}

/// The numbers at the places that `order` lists.
pub open spec fn picked(numbers: Seq<i32>, order: Seq<int>) -> Seq<i32> {
    Seq::new(order.len(), |k: int| numbers[order[k]])
}

/// `full` starts with `order`.
pub open spec fn begins_with(full: Seq<int>, order: Seq<int>) -> bool {
    order.len() <= full.len() && forall|k: int| 0 <= k < order.len() ==> full[k] == order[k]
}

/// The state of a search, the marks `used` and the numbers `current`, is that
/// of the chain `order`.
pub open spec fn stands_for(
    numbers: Seq<i32>,
    used: Seq<bool>,
    current: Seq<i32>,
    order: Seq<int>,
) -> bool {
    &&& is_chain(numbers, order)
    &&& current == picked(numbers, order)
    &&& used.len() == numbers.len()
    &&& forall|i: int| 0 <= i < numbers.len() ==> (#[trigger] used[i] <==> order.contains(i))
}

/// No chain that uses every place starts with a chain of this state.
pub open spec fn hopeless(numbers: Seq<i32>, used: Seq<bool>, current: Seq<i32>) -> bool {
    forall|order: Seq<int>, full: Seq<int>|
        #![trigger stands_for(numbers, used, current, order), arranges(numbers, full)]
        stands_for(numbers, used, current, order) && arranges(numbers, full) ==> !begins_with(
            full,
            order,
        )
}

/// The number at place `j` may be taken next in this state.
pub open spec fn may_take(numbers: Seq<i32>, used: Seq<bool>, current: Seq<i32>, j: int) -> bool {
    !used[j] && (current.len() == 0 || chains(current.last() as int, numbers[j] as int))
}

/// Taking the number at place `j` next leads nowhere, or it may not be taken.
pub open spec fn branch_dead(numbers: Seq<i32>, used: Seq<bool>, current: Seq<i32>, j: int) -> bool {
    may_take(numbers, used, current, j) ==> hopeless(
        numbers,
        used.update(j, true),
        current.push(numbers[j]),
    )
}

/// Taking a number that may be taken extends the chain of the state by its place.
pub proof fn lemma_step_stands(
    numbers: Seq<i32>,
    used: Seq<bool>,
    current: Seq<i32>,
    order: Seq<int>,
    j: int,
)
    requires
        stands_for(numbers, used, current, order),
        0 <= j < numbers.len(),
        may_take(numbers, used, current, j),
    ensures
        stands_for(numbers, used.update(j, true), current.push(numbers[j]), order.push(j)),
{
    let longer = order.push(j);
    assert(!order.contains(j));
    assert forall|k: int, l: int| 0 <= k < l < longer.len() implies longer[k] != longer[l] by {
        if l == order.len() {
            assert(order[k] != j);
        }
    }
    assert forall|k: int| 0 < k < longer.len() implies chains(
        numbers[longer[k - 1]] as int,
        numbers[#[trigger] longer[k]] as int,
    ) by {
        if k == order.len() {
            assert(current.last() == numbers[order[k - 1]]);
        }
    }
    assert(current.push(numbers[j]) =~= picked(numbers, longer));
    assert forall|i: int| 0 <= i < numbers.len() implies (#[trigger] used.update(j, true)[i]
        <==> longer.contains(i)) by {
        if i == j {
            assert(longer[order.len() as int] == j);
        } else if order.contains(i) {
            let k = choose|k: int| 0 <= k < order.len() && order[k] == i;
            assert(longer[k] == i);
        } else if longer.contains(i) {
            let k = choose|k: int| 0 <= k < longer.len() && longer[k] == i;
            assert(order[k] == i);
        }
    }
}

/// Where no number that may be taken next leads anywhere, the state leads nowhere.
pub proof fn lemma_all_tried(numbers: Seq<i32>, used: Seq<bool>, current: Seq<i32>)
    requires
        current.len() < numbers.len(),
        forall|j: int| 0 <= j < numbers.len() ==> #[trigger] branch_dead(numbers, used, current, j),
    ensures
        hopeless(numbers, used, current),
{
    assert forall|order: Seq<int>, full: Seq<int>|
        #![trigger stands_for(numbers, used, current, order), arranges(numbers, full)]
        stands_for(numbers, used, current, order) && arranges(numbers, full) implies !begins_with(
        full,
        order,
    ) by {
        if begins_with(full, order) {
            let n = order.len() as int;
            let j = full[n];
            assert(0 <= j < numbers.len());
            if order.contains(j) {
                let k = choose|k: int| 0 <= k < order.len() && order[k] == j;
                assert(full[k] == full[n]);
            }
            assert(!used[j]);
            if n > 0 {
                assert(full[n - 1] == order[n - 1]);
                assert(current.last() == numbers[order[n - 1]]);
                assert(chains(numbers[full[n - 1]] as int, numbers[full[n]] as int));
            }
            assert(branch_dead(numbers, used, current, j));
            lemma_step_stands(numbers, used, current, order, j);
            assert(begins_with(full, order.push(j)));
        }
    }
}

/// Searches, from the state given, for a chain that uses every number, taking
/// the numbers in the order of `numbers` and going back where none fits.
/// With `found` set nothing is done. Else `found` is set where a chain was
/// completed, which `current` then holds; where none can be, the state is
/// as it was.
pub fn find_sequence(
    numbers: &[i32],
    used: &mut Vec<bool>,
    current: &mut Vec<i32>,
    found: &mut bool,
)
    requires
        old(current)@.len() <= numbers@.len(),
        exists|order: Seq<int>| stands_for(numbers@, old(used)@, old(current)@, order),
    ensures
        *old(found) ==> *final(found) && final(used)@ == old(used)@ && final(current)@ == old(
            current,
        )@,
        !*old(found) && *final(found) ==> exists|full: Seq<int>|
            arranges(numbers@, full) && final(current)@ == picked(numbers@, full),
        !*final(found) ==> final(used)@ == old(used)@ && final(current)@ == old(current)@
            && hopeless(numbers@, old(used)@, old(current)@),
    decreases numbers@.len() - old(current)@.len(),
{
    if *found {
        return;
    }
    let ghost order = choose|order: Seq<int>| stands_for(numbers@, used@, current@, order);
    if current.len() == numbers.len() {
        *found = true;
        proof {
            assert(arranges(numbers@, order));
        }
        return;
    }
    let mut i: usize = 0;
    while i < numbers.len()
        invariant
            i <= numbers.len(),
            !*found,
            !*old(found),
            used@ == old(used)@,
            current@ == old(current)@,
            current@.len() < numbers@.len(),
            stands_for(numbers@, used@, current@, order),
            forall|j: int| 0 <= j < i ==> #[trigger] branch_dead(numbers@, used@, current@, j),
        decreases numbers.len() - i,
    {
        if !used[i] {
            if current.is_empty() || can_place(current[current.len() - 1], numbers[i]) {
                proof {
                    lemma_step_stands(numbers@, used@, current@, order, i as int);
                }
                used.set(i, true);
                current.push(numbers[i]);
                find_sequence(numbers, used, current, found);
                if *found {
                    return;
                }
                used.set(i, false);
                current.pop();
                assert(used@ =~= old(used)@);
                assert(current@ =~= old(current)@);
            }
        }
        i += 1;
    }
    proof {
        lemma_all_tried(numbers@, used@, current@);
    }
}

/// An arrangement of all of `numbers` in which each number begins with the
/// digit that the one before it ends with, if there is one.
pub fn find_chain(numbers: &[i32]) -> (r: Option<Vec<i32>>)
    ensures
        match r {
            Some(v) => exists|full: Seq<int>| arranges(numbers@, full) && v@ == picked(numbers@, full),
            None => forall|full: Seq<int>| !arranges(numbers@, full),
        },
{
    let mut used: Vec<bool> = Vec::new();
    let mut i: usize = 0;
    while i < numbers.len()
        invariant
            i <= numbers.len(),
            used@.len() == i,
            forall|k: int| 0 <= k < i ==> !#[trigger] used@[k],
        decreases numbers.len() - i,
    {
        used.push(false);
        i += 1;
    }
    let mut current: Vec<i32> = Vec::new();
    let mut found: bool = false;
    let ghost nothing = Seq::<int>::empty();
    proof {
        assert(current@ =~= picked(numbers@, nothing));
        assert(stands_for(numbers@, used@, current@, nothing));
    }
    let ghost blank = used@;
    find_sequence(numbers, &mut used, &mut current, &mut found);
    if found {
        Some(current)
    } else {
        proof {
            assert forall|full: Seq<int>| !arranges(numbers@, full) by {
                if arranges(numbers@, full) {
                    assert(stands_for(numbers@, blank, Seq::<i32>::empty(), nothing));
                    assert(begins_with(full, nothing));
                }
            }
        }
        None
    }
}

} // verus!
