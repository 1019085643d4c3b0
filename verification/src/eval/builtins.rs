//! The built-in operations. Each reduces a list of operands that comes in
//! source order: it reads from the front of the list, and stops reading at
//! the first operand that is not an integer.
use super::{outcome_view, value_views, EvalError, PlicType, SpecValue};
use vstd::prelude::*;

verus! {

/// The sum of the integers that `operands` begins with: read from the front,
/// up to the first value that is not an integer.
pub open spec fn integer_run_sum(operands: Seq<SpecValue>) -> nat
    decreases operands.len(),
{
    if operands.len() == 0 {
        0
    } else {
        match operands[0] {
            SpecValue::Integer(n) => n + integer_run_sum(operands.drop_first()),
            _ => 0,
        }
    }
}

/// What `plus` makes of `operands`: the sum of the integers they begin with,
/// zero where there is none, and `Other` where the sum does not fit a
/// machine word.
pub open spec fn plus_spec(operands: Seq<SpecValue>) -> Result<SpecValue, EvalError> {
    let sum = integer_run_sum(operands);
    if sum <= usize::MAX {
        Ok(SpecValue::Integer(sum))
    } else {
        Err(EvalError::Other)
    }
}

/// What `minus` makes of `operands`: the first of them, less the integers
/// that follow it. `Other` where the first is missing or no integer, or
/// where the difference would be negative.
pub open spec fn minus_spec(operands: Seq<SpecValue>) -> Result<SpecValue, EvalError> {
    if operands.len() == 0 {
        Err(EvalError::Other)
    } else {
        match operands[0] {
            SpecValue::Integer(first) => {
                let rest = integer_run_sum(operands.drop_first());
                if rest <= first {
                    Ok(SpecValue::Integer((first - rest) as nat))
                } else {
                    Err(EvalError::Other)
                }
            },
            _ => Err(EvalError::Other),
        }
    }
}

/// Every operand is an integer.
pub open spec fn all_integers(operands: Seq<SpecValue>) -> bool {
    forall|i: int| 0 <= i < operands.len() ==> #[trigger] operands[i] is Integer
}

/// Among integers, taking one operand out takes its value out of the sum.
proof fn lemma_sum_remove(operands: Seq<SpecValue>, i: int)
    requires
        all_integers(operands),
        0 <= i < operands.len(),
    ensures
        integer_run_sum(operands) == integer_run_sum(operands.remove(i))
            + operands[i]->Integer_0,
    decreases operands.len(),
{
    let shorter = operands.remove(i);
    if i == 0 {
        assert(shorter =~= operands.drop_first());
    } else {
        lemma_sum_remove(operands.drop_first(), i - 1);
        assert(shorter.drop_first() =~= operands.drop_first().remove(i - 1));
        assert(shorter[0] == operands[0]);
    }
}

/// The sum of integers does not depend on their order.
proof fn lemma_sum_permutation(a: Seq<SpecValue>, b: Seq<SpecValue>)
    requires
        all_integers(a),
        all_integers(b),
        a.to_multiset() == b.to_multiset(),
    ensures
        integer_run_sum(a) == integer_run_sum(b),
    decreases a.len(),
{
    a.to_multiset_ensures();
    b.to_multiset_ensures();
    if a.len() > 0 {
        let x = a[0];
        assert(a.contains(x));
        assert(b.to_multiset().count(x) > 0);
        assert(b.contains(x));
        let i = choose|i: int| 0 <= i < b.len() && b[i] == x;
        let shorter = b.remove(i);
        assert forall|j: int| 0 <= j < shorter.len() implies #[trigger] shorter[j] is Integer by {
            if j < i {
                assert(shorter[j] == b[j]);
            } else {
                assert(shorter[j] == b[j + 1]);
            }
        }
        assert(a.drop_first() =~= a.remove(0));
        assert(all_integers(a.drop_first())) by {
            assert forall|j: int| 0 <= j < a.drop_first().len() implies #[trigger] a.drop_first()[j] is Integer by {
                assert(a.drop_first()[j] == a[j + 1]);
            }
        }
        lemma_sum_permutation(a.drop_first(), shorter);
        lemma_sum_remove(b, i);
    }
}

/// Order independence of `plus`. Where all operands are integers, `plus`
/// gives the same result for them in any order.
pub proof fn lemma_plus_order_independent(a: Seq<SpecValue>, b: Seq<SpecValue>)
    requires
        all_integers(a),
        all_integers(b),
        a.to_multiset() == b.to_multiset(),
    ensures
        plus_spec(a) == plus_spec(b),
{
    lemma_sum_permutation(a, b);
}

/// Adds up the integers at the front of `operands`, up to the first operand
/// that is no integer. No operand gives zero. A sum that does not fit a
/// machine word is an error, `Other`.
pub fn plus(operands: Vec<PlicType>) -> (result: Result<PlicType, EvalError>)
    ensures
        outcome_view(result) == plus_spec(value_views(operands@)),
{
    let ghost all = value_views(operands@);
    let mut s: usize = 0;
    let mut i: usize = 0;
    assert(all.skip(0) =~= all);
    while i < operands.len()
        invariant
            all == value_views(operands@),
            i <= operands.len(),
            s + integer_run_sum(all.skip(i as int)) == integer_run_sum(all),
        ensures
            s == integer_run_sum(all),
        decreases operands.len() - i,
    {
        proof {
            assert(all.skip(i as int)[0] == operands@[i as int]@);
            assert(all.skip(i as int).drop_first() =~= all.skip(i + 1));
        }
        match &operands[i] {
            PlicType::Integer(n) => {
                match s.checked_add(*n) {
                    Some(sum) => {
                        s = sum;
                    },
                    None => {
                        return Err(EvalError::Other);
                    },
                }
            },
            _ => {
                break ;
            },
        }
        i = i + 1;
    }
    Ok(PlicType::Integer(s))
}

/// Takes the integer at the front of `operands` and subtracts from it the
/// integers that follow, in order, up to the first operand that is no
/// integer. It is an error, `Other`, where there is no operand, where the
/// first one is no integer, and where the difference would be negative.
pub fn minus(operands: Vec<PlicType>) -> (result: Result<PlicType, EvalError>)
    ensures
        outcome_view(result) == minus_spec(value_views(operands@)),
{
    let ghost all = value_views(operands@);
    if operands.len() == 0 {
        return Err(EvalError::Other);
    }
    assert(all[0] == operands@[0]@);
    if let PlicType::Integer(first) = &operands[0] {
        let first: usize = *first;
        let ghost rest = integer_run_sum(all.drop_first());
        let mut s: usize = first;
        let mut i: usize = 1;
        assert(all.skip(1) =~= all.drop_first());
        while i < operands.len()
            invariant
                all == value_views(operands@),
                all.len() > 0,
                all[0] == SpecValue::Integer(first as nat),
                rest == integer_run_sum(all.drop_first()),
                1 <= i <= operands.len(),
                s <= first,
                (first - s) + integer_run_sum(all.skip(i as int)) == rest,
            ensures
                s <= first,
                first - s == rest,
            decreases operands.len() - i,
        {
            proof {
                assert(all.skip(i as int)[0] == operands@[i as int]@);
                assert(all.skip(i as int).drop_first() =~= all.skip(i + 1));
            }
            match &operands[i] {
                PlicType::Integer(n) => {
                    match s.checked_sub(*n) {
                        Some(difference) => {
                            s = difference;
                        },
                        None => {
                            return Err(EvalError::Other);
                        },
                    }
                },
                _ => {
                    break ;
                },
            }
            i = i + 1;
        }
        Ok(PlicType::Integer(s))
    } else {
        Err(EvalError::Other)
    }
}

} // verus!
