//! Summing a sequence of unsigned integers by left-to-right accumulation.

use vstd::prelude::*;

verus! {

/// The sum of a sequence of unsigned integers, accumulated from zero.
pub open spec fn sum_seq(v: Seq<usize>) -> nat
    decreases v.len(),
{
    if v.len() == 0 {
        0
    } else {
        sum_seq(v.drop_last()) + v.last() as nat
    }
}

/// The sum of a prefix never exceeds the sum of the whole sequence.
proof fn lemma_sum_seq_take_le(v: Seq<usize>, j: int)
    requires
        0 <= j <= v.len(),
    ensures
        sum_seq(v.take(j)) <= sum_seq(v),
    decreases v.len() - j,
{
    if j == v.len() {
        assert(v.take(j) =~= v);
    } else {
        assert(v.take(j + 1).drop_last() =~= v.take(j));
        assert(v.take(j + 1).last() == v[j]);
        lemma_sum_seq_take_le(v, j + 1);
    }
}

/// Splitting a sequence anywhere splits its sum.
proof fn lemma_sum_seq_add(a: Seq<usize>, b: Seq<usize>)
    ensures
        sum_seq(a + b) == sum_seq(a) + sum_seq(b),
    decreases b.len(),
{
    if b.len() == 0 {
        assert(a + b =~= a);
    } else {
        assert((a + b).drop_last() =~= a + b.drop_last());
        assert((a + b).last() == b.last());
        lemma_sum_seq_add(a, b.drop_last());
    }
}

/// Addition is order-independent: summing a sequence and summing its
/// reversal give the same value, and the empty sequence sums to zero.
pub proof fn lemma_sum_seq_reverse(v: Seq<usize>)
    ensures
        sum_seq(v.reverse()) == sum_seq(v),
        sum_seq(Seq::<usize>::empty()) == 0,
    decreases v.len(),
{
    if v.len() > 0 {
        assert(v.reverse() =~= seq![v.last()] + v.drop_last().reverse());
        lemma_sum_seq_add(seq![v.last()], v.drop_last().reverse());
        lemma_sum_seq_reverse(v.drop_last());
        assert(sum_seq(seq![v.last()]) == v.last()) by {
            assert(seq![v.last()].drop_last() =~= Seq::<usize>::empty());
        }
    }
}

/// Sums a vector of numbers by linear left-to-right accumulation from zero.
///
/// The caller must know that the total fits in `usize`; `add_numbers_checked`
/// makes that test at run time.
pub fn add_numbers(v: Vec<usize>) -> (sum: usize)
    requires
        sum_seq(v@) <= usize::MAX,
    ensures
        sum == sum_seq(v@),
{
    let mut sum: usize = 0;
    let mut i: usize = 0;
    while i < v.len()
        invariant
            i <= v.len(),
            sum == sum_seq(v@.take(i as int)),
            sum_seq(v@) <= usize::MAX,
        decreases v.len() - i,
    {
        proof {
            assert(v@.take(i + 1).drop_last() =~= v@.take(i as int));
            assert(v@.take(i + 1).last() == v@[i as int]);
            lemma_sum_seq_take_le(v@, i + 1);
        }
        sum = sum + v[i];
        i = i + 1;
    }
    proof {
        assert(v@.take(v.len() as int) =~= v@);
    }
    sum
}

/// Sums a vector of numbers, reporting `None` exactly when the total does
/// not fit in `usize`.
pub fn add_numbers_checked(v: &Vec<usize>) -> (r: Option<usize>)
    ensures
        match r {
            Some(sum) => sum == sum_seq(v@),
            None => sum_seq(v@) > usize::MAX,
        },
{
    let mut sum: usize = 0;
    let mut i: usize = 0;
    while i < v.len()
        invariant
            i <= v.len(),
            sum == sum_seq(v@.take(i as int)),
        decreases v.len() - i,
    {
        proof {
            assert(v@.take(i + 1).drop_last() =~= v@.take(i as int));
            assert(v@.take(i + 1).last() == v@[i as int]);
        }
        if sum > usize::MAX - v[i] {
            proof {
                lemma_sum_seq_take_le(v@, i + 1);
            }
            return None;
        }
        sum = sum + v[i];
        i = i + 1;
    }
    proof {
        assert(v@.take(v.len() as int) =~= v@);
    }
    Some(sum)
}

} // verus!
