use vstd::prelude::*;

verus! {

/// Sum of a sequence of counter values.
pub open spec fn sum_of(s: Seq<u64>) -> int
    decreases s.len(),
{
    if s.len() == 0 {
        0
    } else {
        sum_of(s.drop_last()) + s.last()
    }
}

/// Sum of the squares of a sequence of counter values.
pub open spec fn sum_sq_of(s: Seq<u64>) -> int
    decreases s.len(),
{
    if s.len() == 0 {
        0
    } else {
        sum_sq_of(s.drop_last()) + s.last() * s.last()
    }
}

/// Smallest value of a sequence (0 for the empty sequence).
pub open spec fn min_of(s: Seq<u64>) -> int
    decreases s.len(),
{
    if s.len() == 0 {
        0
    } else if s.len() == 1 {
        s[0] as int
    } else {
        let m = min_of(s.drop_last());
        if s.last() < m {
            s.last() as int
        } else {
            m
        }
    }
}

/// Largest value of a sequence (0 for the empty sequence).
pub open spec fn max_of(s: Seq<u64>) -> int
    decreases s.len(),
{
    if s.len() == 0 {
        0
    } else if s.len() == 1 {
        s[0] as int
    } else {
        let m = max_of(s.drop_last());
        if s.last() > m {
            s.last() as int
        } else {
            m
        }
    }
}

/// Exact aggregates of one counter slot over a sequence of samples.
/// The sum of squares is held in two parts, `sum_sq_hi * 2^128 + sum_sq_lo`,
/// so that it is exact for any number of samples. The arithmetic mean is
/// `sum / count`; the population variance is
/// `(count * sum_of_squares - sum * sum) / (count * count)`.
#[derive(Clone, Copy, Debug, PartialEq, Eq, Structural)]
pub struct Statistics {
    pub count: u64,
    pub min: u64,
    pub max: u64,
    pub sum: u128,
    pub sum_sq_hi: u64,
    pub sum_sq_lo: u128,
}

/// The sum of squares that the two parts denote.
pub open spec fn sum_sq_value(st: Statistics) -> int {
    st.sum_sq_hi * (u128::MAX as int + 1) + st.sum_sq_lo
}

/// The aggregates that describe a sequence of values.
pub open spec fn describes(st: Statistics, s: Seq<u64>) -> bool {
    &&& st.count == s.len()
    &&& st.min == min_of(s)
    &&& st.max == max_of(s)
    &&& st.sum == sum_of(s)
    &&& sum_sq_value(st) == sum_sq_of(s)
}

/// `count * count` times the population variance.
pub open spec fn variance_numerator(st: Statistics) -> int {
    st.count * sum_sq_value(st) - st.sum * st.sum
}

proof fn lemma_sum_bound(s: Seq<u64>)
    ensures
        0 <= sum_of(s) <= s.len() * (u64::MAX as int),
    decreases s.len(),
{
    if s.len() > 0 {
        lemma_sum_bound(s.drop_last());
    }
}

impl Statistics {
    /// Aggregates a sequence of values.
    pub fn of(values: &Vec<u64>) -> (r: Statistics)
        ensures
            describes(r, values@),
    {
        let n = values.len();
        let mut min: u64 = 0;
        let mut max: u64 = 0;
        let mut sum: u128 = 0;
        let mut hi: u64 = 0;
        let mut lo: u128 = 0;
        let mut i: usize = 0;
        while i < n
            invariant
                n == values@.len(),
                0 <= i <= n,
                hi <= i,
                min == min_of(values@.take(i as int)),
                max == max_of(values@.take(i as int)),
                sum == sum_of(values@.take(i as int)),
                hi * (u128::MAX as int + 1) + lo == sum_sq_of(values@.take(i as int)),
            decreases n - i,
        {
            let v = values[i];
            proof {
                let t = values@.take(i as int + 1);
                assert(t.drop_last() =~= values@.take(i as int));
                assert(t.last() == v);
                lemma_sum_bound(t);
                assert(t.len() * (u64::MAX as int) <= u128::MAX) by (nonlinear_arith)
                    requires
                        t.len() <= usize::MAX,
                ;
            }
            assert((v as u128) * (v as u128) <= u128::MAX) by (nonlinear_arith)
                requires
                    v <= u64::MAX,
            ;
            let sq = (v as u128) * (v as u128);
            if lo > u128::MAX - sq {
                lo = lo - (u128::MAX - sq) - 1;
                hi = hi + 1;
            } else {
                lo = lo + sq;
            }
            if i == 0 || v < min {
                min = v;
            }
            if i == 0 || v > max {
                max = v;
            }
            sum = sum + v as u128;
            i = i + 1;
        }
        assert(values@.take(n as int) =~= values@);
        Statistics { count: n as u64, min, max, sum, sum_sq_hi: hi, sum_sq_lo: lo }
    }

    /// The arithmetic mean rounded down (0 when nothing was counted).
    pub fn mean_floor(&self) -> (r: u128)
        ensures
            self.count == 0 ==> r == 0,
            self.count > 0 ==> r == (self.sum as int) / (self.count as int),
    {
        if self.count == 0 {
            0
        } else {
            self.sum / (self.count as u128)
        }
    }
}

/// Of a sequence in which every value is `c`: the smallest and largest
/// values are `c`, the mean is `c` (the sum is `count * c`), and the
/// population standard deviation is 0.
pub proof fn lemma_constant_statistics(st: Statistics, s: Seq<u64>, c: u64)
    requires
        s.len() > 0,
        forall|i: int| 0 <= i < s.len() ==> s[i] == c,
        describes(st, s),
    ensures
        st.min == c,
        st.max == c,
        st.sum == st.count * c,
        variance_numerator(st) == 0,
{
    lemma_constant_sums(s, c);
    let n = s.len() as int;
    let ci = c as int;
    assert(n * (n * (ci * ci)) - (n * ci) * (n * ci) == 0) by (nonlinear_arith);
    assert(variance_numerator(st) == n * (n * (ci * ci)) - (n * ci) * (n * ci));
}

proof fn lemma_constant_sums(s: Seq<u64>, c: u64)
    requires
        s.len() > 0,
        forall|i: int| 0 <= i < s.len() ==> s[i] == c,
    ensures
        min_of(s) == c,
        max_of(s) == c,
        sum_of(s) == s.len() * c,
        sum_sq_of(s) == s.len() * (c * c),
    decreases s.len(),
{
    if s.len() > 1 {
        let t = s.drop_last();
        assert forall|i: int| 0 <= i < t.len() implies t[i] == c by {
            assert(t[i] == s[i]);
        }
        lemma_constant_sums(t, c);
        assert(s.last() == s[s.len() - 1]);
        assert(sum_of(s) == sum_of(t) + c);
        assert(sum_sq_of(s) == sum_sq_of(t) + c * c);
        assert(s.len() * (c as int) == t.len() * (c as int) + c) by (nonlinear_arith)
            requires
                s.len() == t.len() + 1,
        ;
        assert(s.len() * (c * c) == t.len() * (c * c) + c * c) by (nonlinear_arith)
            requires
                s.len() == t.len() + 1,
        ;
    } else {
        assert(s.drop_last().len() == 0);
        assert(s.last() == s[0]);
        assert(sum_of(s.drop_last()) == 0);
        assert(sum_sq_of(s.drop_last()) == 0);
    }
}

} // verus!
