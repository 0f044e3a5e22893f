//! Small helpers shared across the engine.
use vstd::prelude::*;

verus! {

/// The sum of the sizes.
pub open spec fn sum_sizes(sizes: Seq<u64>) -> int
    decreases sizes.len(),
{
    if sizes.len() == 0 {
        0
    } else {
        sum_sizes(sizes.drop_last()) + sizes.last()
    }
}

/// Total size in bytes of every input, given each input's size (a directory's
/// counted recursively by the caller).
pub fn total_size(sizes: &[u64]) -> (r: u64)
    requires
        sum_sizes(sizes@) <= u64::MAX,
    ensures
        r == sum_sizes(sizes@),
{
    let mut total: u64 = 0;
    let mut i: usize = 0;
    while i < sizes.len()
        invariant
            i <= sizes@.len(),
            total == sum_sizes(sizes@.take(i as int)),
            sum_sizes(sizes@) <= u64::MAX,
        decreases sizes@.len() - i,
    {
        proof {
            assert(sizes@.take(i + 1).drop_last() =~= sizes@.take(i as int));
            lemma_sum_prefix(sizes@, i + 1);
        }
        total = total + sizes[i];
        i += 1;
    }
    assert(sizes@.take(sizes@.len() as int) =~= sizes@);
    total
}

/// A prefix never sums to more than the whole.
proof fn lemma_sum_prefix(s: Seq<u64>, n: int)
    requires
        0 <= n <= s.len(),
    ensures
        sum_sizes(s.take(n)) <= sum_sizes(s),
    decreases s.len() - n,
{
    if n < s.len() {
        lemma_sum_prefix(s, n + 1);
        assert(s.take(n + 1).drop_last() =~= s.take(n));
    } else {
        assert(s.take(n) =~= s);
    }
}

} // verus!
