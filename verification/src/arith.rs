//! The arithmetic that the fleet delegates.
//!
//! Rounded single-precision arithmetic is the business of a floating-point unit. The
//! library asks for one operation at a time and works with whatever the unit answers:
//! its contracts say which operations are asked for, on which numbers, and what is made
//! of the answers.
use crate::scalar::{Scalar, ONE, ZERO};
use vstd::arithmetic::power2::pow2;
use vstd::prelude::*;

verus! {

/// One request to a floating-point unit.
#[derive(Debug, Clone, Copy, PartialEq, Eq, Structural)]
pub enum ArithOp {
    /// The sum of two numbers.
    Add(Scalar, Scalar),
    /// The first number less the second.
    Sub(Scalar, Scalar),
    /// The product of two numbers.
    Mul(Scalar, Scalar),
    /// The first number divided by the second.
    Div(Scalar, Scalar),
    /// The square root of a number.
    Sqrt(Scalar),
    /// The number nearest to a count.
    Count(u64),
}

/// `unit` takes every request.
pub open spec fn takes_all<U: Fn(ArithOp) -> Scalar>(unit: U) -> bool {
    forall|op: ArithOp| #[trigger] call_requires(unit, (op,))
}

/// `r` is an answer that `unit` gives to `op`.
pub open spec fn answers<U: Fn(ArithOp) -> Scalar>(unit: U, op: ArithOp, r: Scalar) -> bool {
    call_ensures(unit, (op,), r)
}

/// `unit` answers every request in one way only.
pub open spec fn steady<U: Fn(ArithOp) -> Scalar>(unit: U) -> bool {
    forall|op: ArithOp, a: Scalar, b: Scalar| #[trigger]
        answers(unit, op, a) && #[trigger] answers(unit, op, b) ==> a == b
}

/// `unit` turns the count `n` into a number without rounding it.
pub open spec fn counts_exactly<U: Fn(ArithOp) -> Scalar>(unit: U, n: nat) -> bool {
    forall|r: Scalar| #[trigger]
        answers(unit, ArithOp::Count(n as u64), r) ==> r.is_finite() && r.units() == n * pow2(149)
}

/// For `unit`, a finite number times one is that number, and the smaller of two finite
/// numbers that are not negative, divided by the larger, is less than one. Rounding to
/// nearest has both properties.
pub open spec fn treats_one_as_one<U: Fn(ArithOp) -> Scalar>(unit: U) -> bool {
    &&& forall|a: Scalar, r: Scalar| #[trigger]
        answers(unit, ArithOp::Mul(a, Scalar { bits: ONE }), r) && a.is_finite() ==> r == a
    &&& forall|a: Scalar, b: Scalar, r: Scalar| #[trigger]
        answers(unit, ArithOp::Div(a, b), r) && a.is_finite() && b.is_finite() && a.units() >= 0
            && b.above(a) ==> (Scalar { bits: ONE }).above(r)
}

/// For `unit`, a number that is not negative, times a factor between zero and one, does not
/// exceed that number. Rounding to nearest has this property.
pub open spec fn factors_shrink<U: Fn(ArithOp) -> Scalar>(unit: U) -> bool {
    forall|a: Scalar, factor: Scalar, r: Scalar| #[trigger]
        answers(unit, ArithOp::Mul(a, factor), r) && is_level(a) && is_share(factor)
            ==> !r.above(a)
}

/// A number that is not negative.
pub open spec fn is_level(a: Scalar) -> bool {
    !a.is_nan() && !(Scalar { bits: ZERO }).above(a)
}

/// A number between zero and one.
pub open spec fn is_share(a: Scalar) -> bool {
    is_level(a) && !a.above(Scalar { bits: ONE })
}

/// For `unit`, a finite number no smaller than one, divided by a finite positive number, is
/// positive. Rounding to nearest has this property.
pub open spec fn quotients_stay_positive<U: Fn(ArithOp) -> Scalar>(unit: U) -> bool {
    forall|a: Scalar, b: Scalar, r: Scalar| #[trigger]
        answers(unit, ArithOp::Div(a, b), r) && a.is_finite() && b.is_finite() && !(Scalar {
            bits: ONE,
        }).above(a) && b.above(Scalar { bits: ZERO }) ==> r.above(Scalar { bits: ZERO })
}

/// Asks `unit` for one operation.
pub fn compute<U: Fn(ArithOp) -> Scalar>(unit: &U, op: ArithOp) -> (r: Scalar)
    requires
        takes_all(*unit),
    ensures
        answers(*unit, op, r),
{
    unit(op)
}

/// `running[i + 1]` is the unit's answer for `running[i]` and the term at `i`.
pub open spec fn adds_term<U: Fn(ArithOp) -> Scalar>(
    unit: U,
    terms: Seq<Scalar>,
    running: Seq<Scalar>,
    i: int,
) -> bool {
    answers(unit, ArithOp::Add(running[i], terms[i]), running[i + 1])
}

/// `running` holds the partial sums of `terms` from left to right, starting at zero,
/// each the unit's answer for the one before it and the next term.
pub open spec fn partial_sums<U: Fn(ArithOp) -> Scalar>(
    unit: U,
    terms: Seq<Scalar>,
    running: Seq<Scalar>,
) -> bool {
    &&& running.len() == terms.len() + 1
    &&& running[0] == (Scalar { bits: ZERO })
    &&& forall|i: int| 0 <= i < terms.len() ==> #[trigger] adds_term(unit, terms, running, i)
}

/// `total` is the sum of `terms`, added up from left to right starting at zero.
pub open spec fn sums_to<U: Fn(ArithOp) -> Scalar>(
    unit: U,
    terms: Seq<Scalar>,
    total: Scalar,
) -> bool {
    exists|running: Seq<Scalar>| #[trigger]
        partial_sums(unit, terms, running) && total == running.last()
}

/// Adding one more term extends the partial sums by the unit's answer.
proof fn lemma_partial_sums_extend<U: Fn(ArithOp) -> Scalar>(
    unit: U,
    terms: Seq<Scalar>,
    running: Seq<Scalar>,
    term: Scalar,
    total: Scalar,
)
    requires
        partial_sums(unit, terms, running),
        answers(unit, ArithOp::Add(running.last(), term), total),
    ensures
        partial_sums(unit, terms.push(term), running.push(total)),
{
    let more = running.push(total);
    assert forall|i: int| 0 <= i < terms.push(term).len() implies #[trigger] adds_term(
        unit,
        terms.push(term),
        more,
        i,
    ) by {
        if i < terms.len() {
            assert(adds_term(unit, terms, running, i));
        }
    }
}

/// Adds up `terms` from left to right.
pub fn add_up<U: Fn(ArithOp) -> Scalar>(unit: &U, terms: &Vec<Scalar>) -> (total: Scalar)
    requires
        takes_all(*unit),
    ensures
        sums_to(*unit, terms@, total),
{
    let mut total = Scalar { bits: ZERO };
    let ghost mut running: Seq<Scalar> = seq![total];
    let mut i: usize = 0;
    assert(terms@.take(0) =~= Seq::<Scalar>::empty());
    while i < terms.len()
        invariant
            takes_all(*unit),
            i <= terms@.len(),
            partial_sums(*unit, terms@.take(i as int), running),
            total == running.last(),
        decreases terms@.len() - i,
    {
        let ghost seen = terms@.take(i as int);
        let ghost before = running;
        total = compute(unit, ArithOp::Add(total, terms[i]));
        proof {
            running = running.push(total);
            lemma_partial_sums_extend(*unit, seen, before, terms@[i as int], total);
            assert(seen.push(terms@[i as int]) =~= terms@.take(i + 1));
        }
        i = i + 1;
    }
    assert(terms@.take(i as int) =~= terms@);
    total
}

proof fn lemma_partial_sums_agree<U: Fn(ArithOp) -> Scalar>(
    unit: U,
    terms: Seq<Scalar>,
    left: Seq<Scalar>,
    right: Seq<Scalar>,
    i: int,
)
    requires
        steady(unit),
        partial_sums(unit, terms, left),
        partial_sums(unit, terms, right),
        0 <= i <= terms.len(),
    ensures
        left[i] == right[i],
    decreases i,
{
    if i > 0 {
        lemma_partial_sums_agree(unit, terms, left, right, i - 1);
        assert(adds_term(unit, terms, left, i - 1));
        assert(adds_term(unit, terms, right, i - 1));
    }
}

/// With a steady unit the same terms in the same order have one sum.
pub proof fn sums_are_reproducible<U: Fn(ArithOp) -> Scalar>(
    unit: U,
    terms: Seq<Scalar>,
    left: Scalar,
    right: Scalar,
)
    requires
        steady(unit),
        sums_to(unit, terms, left),
        sums_to(unit, terms, right),
    ensures
        left == right,
{
    let a = choose|running: Seq<Scalar>| #[trigger]
        partial_sums(unit, terms, running) && left == running.last();
    let b = choose|running: Seq<Scalar>| #[trigger]
        partial_sums(unit, terms, running) && right == running.last();
    lemma_partial_sums_agree(unit, terms, a, b, terms.len() as int);
}

/// Nothing adds up to zero.
pub proof fn sum_of_nothing_is_zero<U: Fn(ArithOp) -> Scalar>(unit: U, total: Scalar)
    ensures
        sums_to(unit, Seq::empty(), total) <==> total == (Scalar { bits: ZERO }),
{
    let terms = Seq::<Scalar>::empty();
    if total == (Scalar { bits: ZERO }) {
        assert(partial_sums(unit, terms, seq![total]));
    }
}

/// One more term is added to what the terms before it add up to.
pub proof fn sum_grows_term_by_term<U: Fn(ArithOp) -> Scalar>(
    unit: U,
    terms: Seq<Scalar>,
    term: Scalar,
    total: Scalar,
)
    ensures
        sums_to(unit, terms.push(term), total) <==> exists|before: Scalar| #[trigger]
            sums_to(unit, terms, before) && answers(unit, ArithOp::Add(before, term), total),
{
    let more = terms.push(term);
    if sums_to(unit, more, total) {
        let running = choose|running: Seq<Scalar>| #[trigger]
            partial_sums(unit, more, running) && total == running.last();
        let shorter = running.drop_last();
        assert forall|i: int| 0 <= i < terms.len() implies #[trigger] adds_term(
            unit,
            terms,
            shorter,
            i,
        ) by {
            assert(adds_term(unit, more, running, i));
        }
        assert(partial_sums(unit, terms, shorter));
        assert(adds_term(unit, more, running, terms.len() as int));
        assert(sums_to(unit, terms, shorter.last()));
    }
    if exists|before: Scalar| #[trigger]
        sums_to(unit, terms, before) && answers(unit, ArithOp::Add(before, term), total) {
        let before = choose|before: Scalar| #[trigger]
            sums_to(unit, terms, before) && answers(unit, ArithOp::Add(before, term), total);
        let running = choose|running: Seq<Scalar>| #[trigger]
            partial_sums(unit, terms, running) && before == running.last();
        lemma_partial_sums_extend(unit, terms, running, term, total);
        assert(partial_sums(unit, more, running.push(total)));
    }
}

} // verus!
