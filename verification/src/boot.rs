//! The computation that the kernel performs and reports at boot.
use vstd::prelude::*;

verus! {

/// The sum of the values of `s`.
pub open spec fn seq_sum(s: Seq<usize>) -> int
    decreases s.len(),
{
    if s.len() == 0 {
        0
    } else {
        seq_sum(s.drop_last()) + s.last()
    }
}

/// The sum of a prefix is at most the sum of the whole.
proof fn lemma_prefix_sum(s: Seq<usize>, i: int)
    requires
        0 <= i <= s.len(),
    ensures
        0 <= seq_sum(s.take(i)) <= seq_sum(s),
    decreases s.len(),
{
    if s.len() > 0 {
        if i == s.len() {
            assert(s.take(i) =~= s);
            lemma_prefix_sum(s.drop_last(), s.len() - 1);
            assert(s.drop_last().take(s.len() - 1) =~= s.drop_last());
        } else {
            lemma_prefix_sum(s.drop_last(), i);
            assert(s.drop_last().take(i) =~= s.take(i));
        }
    }
}

/// The sum of `values`, element by element.
pub fn sum(values: &[usize]) -> (r: usize)
    requires
        seq_sum(values@) <= usize::MAX,
    ensures
        r == seq_sum(values@),
{
    let mut total: usize = 0;
    let mut i: usize = 0;
    while i < values.len()
        invariant
            i <= values@.len(),
            total == seq_sum(values@.take(i as int)),
            seq_sum(values@) <= usize::MAX,
        decreases values@.len() - i,
    {
        proof {
            lemma_prefix_sum(values@, i + 1);
            assert(values@.take(i + 1).drop_last() =~= values@.take(i as int));
        }
        total = total + values[i];
        i = i + 1;
    }
    proof {
        assert(values@.take(values@.len() as int) =~= values@);
    }
    total
}

} // verus!
