//! Summaries of a process's memory readings over several samples.

use vstd::prelude::*;

verus! {

/// The sum of `s`.
pub open spec fn total(s: Seq<u64>) -> nat
    decreases s.len(),
{
    if s.len() == 0 {
        0
    } else {
        total(s.drop_last()) + s.last() as nat
    }
}

/// The largest entry of `s` (0 for none).
pub open spec fn largest(s: Seq<u64>) -> u64
    decreases s.len(),
{
    if s.len() == 0 {
        0
    } else if s.last() >= largest(s.drop_last()) {
        s.last()
    } else {
        largest(s.drop_last())
    }
}

proof fn lemma_total_prefix(s: Seq<u64>, i: int)
    requires
        0 <= i <= s.len(),
    ensures
        total(s.take(i)) <= total(s),
    decreases s.len() - i,
{
    if i < s.len() {
        lemma_total_prefix(s, i + 1);
        assert(s.take(i + 1).drop_last() =~= s.take(i));
    } else {
        assert(s.take(i) =~= s);
    }
}

/// The mean (rounded down) and the largest of the memory readings
/// `mem_bytes` of one process, or `None` when there are none.
pub fn memory_summary(mem_bytes: &[u64]) -> (r: Option<(u64, u64)>)
    requires
        total(mem_bytes@) <= u64::MAX,
    ensures
        mem_bytes@.len() == 0 ==> r is None,
        mem_bytes@.len() > 0 ==> r == Some(
            ((total(mem_bytes@) / mem_bytes@.len() as nat) as u64, largest(mem_bytes@)),
        ),
{
    let n = mem_bytes.len();
    if n == 0 {
        return None;
    }
    let mut sum: u64 = 0;
    let mut max: u64 = 0;
    let mut i: usize = 0;
    proof {
        assert(mem_bytes@.take(0) =~= Seq::<u64>::empty());
    }
    while i < n
        invariant
            n == mem_bytes@.len(),
            i <= n,
            total(mem_bytes@) <= u64::MAX,
            sum == total(mem_bytes@.take(i as int)),
            max == largest(mem_bytes@.take(i as int)),
        decreases n - i,
    {
        proof {
            assert(mem_bytes@.take(i + 1).drop_last() =~= mem_bytes@.take(i as int));
            lemma_total_prefix(mem_bytes@, i + 1);
        }
        let m = mem_bytes[i];
        sum = sum + m;
        if m >= max {
            max = m;
        }
        i = i + 1;
    }
    proof {
        assert(mem_bytes@.take(n as int) =~= mem_bytes@);
    }
    Some((sum / (n as u64), max))
}

/// The largest reading is one of the readings and no reading exceeds it.
pub proof fn lemma_largest_bounds(s: Seq<u64>)
    requires
        s.len() > 0,
    ensures
        s.contains(largest(s)),
        forall|i: int| 0 <= i < s.len() ==> #[trigger] s[i] <= largest(s),
    decreases s.len(),
{
    if s.len() > 1 {
        lemma_largest_bounds(s.drop_last());
        assert forall|i: int| 0 <= i < s.len() implies #[trigger] s[i] <= largest(s) by {
            if i < s.len() - 1 {
                assert(s[i] == s.drop_last()[i]);
            }
        }
        if s.last() < largest(s.drop_last()) {
            let j = choose|j: int| 0 <= j < s.drop_last().len() && s.drop_last()[j] == largest(s.drop_last());
            assert(s[j] == largest(s));
        } else {
            assert(s[s.len() - 1] == largest(s));
        }
    } else {
        assert(s.drop_last() =~= Seq::<u64>::empty());
        assert(largest(s.drop_last()) == 0);
        assert(s[0] == largest(s));
    }
}

} // verus!
