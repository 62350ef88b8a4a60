use vstd::prelude::*;

verus! {

/// The sum of the elements of `s`.
pub open spec fn sum(s: Seq<i32>) -> int
    decreases s.len(),
{
    if s.len() == 0 {
        0
    } else {
        sum(s.drop_last()) + s.last()
    }
}

/// The sum of the elements of `s` from index `i` up to, not including, `j`.
pub open spec fn segment_sum(s: Seq<i32>, i: int, j: int) -> int {
    sum(s.subrange(i, j))
}

/// No run of neighbouring elements of `s` adds up to more than an `i32`
/// holds.
pub open spec fn sums_fit(s: Seq<i32>) -> bool {
    forall|i: int, j: int| 0 <= i <= j <= s.len() ==> #[trigger] segment_sum(s, i, j) <= i32::MAX
}

/// `best` is the largest sum of a run of neighbouring elements of `s`, the
/// empty run counting as 0.
pub open spec fn is_max_segment_sum(s: Seq<i32>, best: int) -> bool {
    &&& forall|i: int, j: int| 0 <= i <= j <= s.len() ==> #[trigger] segment_sum(s, i, j) <= best
    &&& exists|i: int, j: int| 0 <= i <= j <= s.len() && #[trigger] segment_sum(s, i, j) == best
}

/// `current` is the largest sum of a run of neighbouring elements that ends
/// where `s` ends, the empty run counting as 0.
pub open spec fn is_max_suffix_sum(s: Seq<i32>, current: int) -> bool {
    &&& forall|i: int| 0 <= i <= s.len() ==> #[trigger] segment_sum(s, i, s.len() as int) <= current
    &&& exists|i: int| 0 <= i <= s.len() && #[trigger] segment_sum(s, i, s.len() as int) == current
}

/// Where a scan of a sequence stands.
pub struct Scan {
    /// The largest sum of a run seen so far.
    pub best: int,
    /// The largest sum of a run that ends at the last element seen.
    pub current: int,
    /// The elements seen since the last time `current` fell below 0 or
    /// `best` rose.
    pub buffer: Seq<i32>,
    /// The elements collected so far: what `buffer` held each time `best`
    /// rose, one after the other.
    pub collected: Seq<i32>,
}

/// The scan after one more element, `x`.
pub open spec fn scan_step(before: Scan, x: i32) -> Scan {
    let sum = before.current + x;
    let current = if sum < 0 {
        0
    } else {
        sum
    };
    let buffer = if sum < 0 {
        Seq::empty()
    } else {
        before.buffer.push(x)
    };
    if current > before.best {
        Scan {
            best: current,
            current,
            buffer: Seq::empty(),
            collected: before.collected + buffer,
        }
    } else {
        Scan { best: before.best, current, buffer, collected: before.collected }
    }
}

/// The scan after the elements of `s`.
pub open spec fn scan(s: Seq<i32>) -> Scan
    decreases s.len(),
{
    if s.len() == 0 {
        Scan { best: 0, current: 0, buffer: Seq::empty(), collected: Seq::empty() }
    } else {
        scan_step(scan(s.drop_last()), s.last())
    }
}

/// A run that ends one element further on has the last element added.
proof fn lemma_segment_extend(s: Seq<i32>, i: int, j: int)
    requires
        0 <= i <= j < s.len(),
    ensures
        segment_sum(s, i, j + 1) == segment_sum(s, i, j) + s[j],
{
    assert(s.subrange(i, j + 1).drop_last() =~= s.subrange(i, j));
}

/// Runs within a prefix are runs of the whole.
proof fn lemma_segment_of_prefix(s: Seq<i32>, n: int, i: int, j: int)
    requires
        0 <= i <= j <= n <= s.len(),
    ensures
        segment_sum(s.take(n), i, j) == segment_sum(s, i, j),
{
    assert(s.take(n).subrange(i, j) =~= s.subrange(i, j));
}

/// What a scan finds: the largest sum of a run, and the largest sum of a run
/// that ends at the last element.
pub proof fn lemma_scan_finds_max(s: Seq<i32>)
    ensures
        is_max_segment_sum(s, scan(s).best),
        is_max_suffix_sum(s, scan(s).current),
        0 <= scan(s).current <= scan(s).best,
    decreases s.len(),
{
    let n = s.len() as int;
    if n == 0 {
        assert(segment_sum(s, 0, 0) == 0);
        assert forall|i: int, j: int| 0 <= i <= j <= s.len() implies #[trigger] segment_sum(
            s,
            i,
            j,
        ) <= 0 by {
            assert(s.subrange(i, j) =~= s.subrange(0, 0));
        }
    } else {
        let p = s.drop_last();
        let before = scan(p);
        let after = scan(s);
        lemma_scan_finds_max(p);
        assert(p =~= s.take(n - 1));
        // the runs that end at the last element
        assert forall|i: int| 0 <= i <= n implies #[trigger] segment_sum(s, i, n)
            <= after.current by {
            if i < n {
                lemma_segment_extend(s, i, n - 1);
                lemma_segment_of_prefix(s, n - 1, i, n - 1);
                assert(segment_sum(p, i, p.len() as int) <= before.current);
            } else {
                assert(s.subrange(n, n) =~= Seq::<i32>::empty());
            }
        }
        let k = choose|i: int| 0 <= i <= p.len() && #[trigger] segment_sum(p, i, p.len() as int)
            == before.current;
        if before.current + s.last() < 0 {
            assert(s.subrange(n, n) =~= Seq::<i32>::empty());
            assert(segment_sum(s, n, n) == after.current);
        } else {
            lemma_segment_extend(s, k, n - 1);
            lemma_segment_of_prefix(s, n - 1, k, n - 1);
            assert(segment_sum(s, k, n) == after.current);
        }
        // all runs
        assert forall|i: int, j: int| 0 <= i <= j <= n implies #[trigger] segment_sum(s, i, j)
            <= after.best by {
            if j < n {
                lemma_segment_of_prefix(s, n - 1, i, j);
                assert(segment_sum(p, i, j) <= before.best);
            } else {
                assert(segment_sum(s, i, n) <= after.current);
            }
        }
        if after.current > before.best {
            let w = choose|i: int| 0 <= i <= n && #[trigger] segment_sum(s, i, n) == after.current;
            assert(segment_sum(s, w, n) == after.best);
        } else {
            let (a, b) = choose|i: int, j: int|
                0 <= i <= j <= p.len() && #[trigger] segment_sum(p, i, j) == before.best;
            lemma_segment_of_prefix(s, n - 1, a, b);
            assert(segment_sum(s, a, b) == after.best);
        }
    }
}

/// Where every element lies between `-bound` and `bound`, a run of `n`
/// elements adds up to something between `-n * bound` and `n * bound`.
pub proof fn lemma_sum_of_bounded(s: Seq<i32>, bound: nat)
    requires
        forall|i: int| 0 <= i < s.len() ==> -bound <= #[trigger] s[i] <= bound,
    ensures
        -(s.len() * bound) <= sum(s) <= s.len() * bound,
    decreases s.len(),
{
    if s.len() > 0 {
        lemma_sum_of_bounded(s.drop_last(), bound);
        assert((s.len() - 1) * bound + bound == s.len() * bound) by (nonlinear_arith);
    } else {
        assert(s.len() * bound == 0) by (nonlinear_arith)
            requires
                s.len() == 0,
        ;
    }
}

/// Short arrays of small numbers are safe to scan: where every element
/// lies between `-bound` and `bound` and as many times `bound` as there
/// are elements is an `i32`, no run adds up to more than an `i32` holds.
pub proof fn lemma_bounded_sums_fit(s: Seq<i32>, bound: nat)
    requires
        forall|i: int| 0 <= i < s.len() ==> -bound <= #[trigger] s[i] <= bound,
        s.len() * bound <= i32::MAX,
    ensures
        sums_fit(s),
{
    assert forall|i: int, j: int| 0 <= i <= j <= s.len() implies #[trigger] segment_sum(s, i, j)
        <= i32::MAX by {
        let run = s.subrange(i, j);
        assert forall|k: int| 0 <= k < run.len() implies -bound <= #[trigger] run[k] <= bound by {
            assert(run[k] == s[i + k]);
        }
        lemma_sum_of_bounded(run, bound);
        assert(run.len() * bound <= s.len() * bound) by (nonlinear_arith)
            requires
                run.len() <= s.len(),
        ;
    }
}

/// The largest sum of a run of neighbouring elements of `array`; 0 where no
/// run has a positive sum.
pub fn kadane(array: &Vec<i32>) -> (best: usize)
    requires
        sums_fit(array@),
    ensures
        best == scan(array@).best,
        is_max_segment_sum(array@, best as int),
{
    let mut max_so_far: i32 = 0;
    let mut max_current: i32 = 0;
    let mut n: usize = 0;
    while n < array.len()
        invariant
            n <= array.len(),
            sums_fit(array@),
            max_so_far == scan(array@.take(n as int)).best,
            max_current == scan(array@.take(n as int)).current,
        decreases array.len() - n,
    {
        proof {
            lemma_scan_step_fits(array@, n as int);
        }
        max_current += array[n];
        if max_current < 0 {
            max_current = 0;
        }
        if max_current > max_so_far {
            max_so_far = max_current;
        }
        n += 1;
    }
    proof {
        assert(array@.take(n as int) =~= array@);
        lemma_scan_finds_max(array@);
    }
    max_so_far as usize
}

/// One step of a scan over a sequence whose runs all fit an `i32` stays
/// within an `i32`.
proof fn lemma_scan_step_fits(s: Seq<i32>, n: int)
    requires
        0 <= n < s.len(),
        sums_fit(s),
    ensures
        s.take(n + 1).drop_last() == s.take(n),
        s.take(n + 1).last() == s[n],
        0 <= scan(s.take(n)).current <= scan(s.take(n)).best <= i32::MAX,
        i32::MIN <= scan(s.take(n)).current + s[n] <= i32::MAX,
        0 <= scan(s.take(n + 1)).current <= scan(s.take(n + 1)).best <= i32::MAX,
{
    assert(s.take(n + 1).drop_last() =~= s.take(n));
    lemma_scan_finds_max(s.take(n));
    lemma_scan_finds_max(s.take(n + 1));
    let p = s.take(n);
    let q = s.take(n + 1);
    let (a, b) = choose|i: int, j: int|
        0 <= i <= j <= p.len() && #[trigger] segment_sum(p, i, j) == scan(p).best;
    lemma_segment_of_prefix(s, n, a, b);
    assert(segment_sum(s, a, b) <= i32::MAX);
    let (c, d) = choose|i: int, j: int|
        0 <= i <= j <= q.len() && #[trigger] segment_sum(q, i, j) == scan(q).best;
    lemma_segment_of_prefix(s, n + 1, c, d);
    assert(segment_sum(s, c, d) <= i32::MAX);
    let k = choose|i: int| 0 <= i <= p.len() && #[trigger] segment_sum(p, i, p.len() as int)
        == scan(p).current;
    lemma_segment_of_prefix(s, n, k, n);
    lemma_segment_extend(s, k, n);
    assert(segment_sum(s, k, n + 1) <= i32::MAX);
}

/// The elements that a scan of `array` collects: each time the largest sum
/// so far is beaten, the elements seen since the last such time, or since
/// the running sum last fell below 0, are added to what is returned.
pub fn kadane_find_subarray(array: &Vec<i32>) -> (collected: Vec<i32>)
    requires
        sums_fit(array@),
    ensures
        collected@ == scan(array@).collected,
{
    let mut max_so_far: i32 = 0;
    let mut max_current: i32 = 0;
    let mut buffer: Vec<i32> = Vec::new();
    let mut max_subarray: Vec<i32> = Vec::new();
    let mut n: usize = 0;
    while n < array.len()
        invariant
            n <= array.len(),
            sums_fit(array@),
            max_so_far == scan(array@.take(n as int)).best,
            max_current == scan(array@.take(n as int)).current,
            buffer@ == scan(array@.take(n as int)).buffer,
            max_subarray@ == scan(array@.take(n as int)).collected,
        decreases array.len() - n,
    {
        proof {
            lemma_scan_step_fits(array@, n as int);
        }
        buffer.push(array[n]);
        max_current += array[n];
        if max_current < 0 {
            buffer.clear();
            max_current = 0;
        }
        if max_current > max_so_far {
            max_so_far = max_current;
            max_subarray.append(&mut buffer);
        }
        n += 1;
    }
    proof {
        assert(array@.take(n as int) =~= array@);
    }
    max_subarray
}

} // verus!
