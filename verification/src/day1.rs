//! Sonar sweep: counting how often the depth reading, smoothed over a
//! sliding window, increases from one window to the next.
use vstd::prelude::*;

verus! {

/// The sum of the `w` readings starting at index `i`.
pub open spec fn window_sum(entries: Seq<i32>, i: int, w: int) -> int
    decreases w,
{
    if w <= 0 {
        0
    } else {
        entries[i] + window_sum(entries, i + 1, w - 1)
    }
}

/// How many of the first `n` window positions see the next window sum more
/// than their own.
pub open spec fn increase_count(entries: Seq<i32>, w: int, n: int) -> int
    decreases n,
{
    if n <= 0 {
        0
    } else {
        increase_count(entries, w, n - 1) + if window_sum(entries, n, w) > window_sum(
            entries,
            n - 1,
            w,
        ) {
            1int
        } else {
            0int
        }
    }
}

/// Counts the sliding windows of `windowsize` readings whose sum exceeds
/// the previous window's sum.
pub fn find(entries: &Vec<i32>, windowsize: usize) -> (r: usize)
    requires
        windowsize >= 1,
        windowsize <= 0x1_0000_0000,
        forall|i: int| 0 <= i && i + windowsize <= entries@.len() ==> i32::MIN <= #[trigger]
            window_sum(entries@, i, windowsize as int) <= i32::MAX,
    ensures
        entries@.len() >= windowsize ==> r as int == increase_count(
            entries@,
            windowsize as int,
            entries@.len() - windowsize,
        ),
        entries@.len() < windowsize ==> r == 0,
{
    let n = entries.len();
    if n < windowsize {
        return 0;
    }
    let mut sums: Vec<i32> = Vec::new();
    let mut i: usize = 0;
    while i <= n - windowsize
        invariant
            0 <= i,
            windowsize >= 1,
            windowsize <= 0x1_0000_0000,
            windowsize <= n,
            n == entries@.len(),
            i + windowsize <= n + 1,
            forall|j: int| 0 <= j && j + windowsize <= n ==> i32::MIN <= #[trigger] window_sum(
                entries@,
                j,
                windowsize as int,
            ) <= i32::MAX,
            sums@.len() == i,
            forall|j: int| 0 <= j < i ==> #[trigger] sums@[j] as int == window_sum(
                entries@,
                j,
                windowsize as int,
            ),
        decreases n - i,
    {
        let mut s: i64 = 0;
        let mut k: usize = 0;
        while k < windowsize
            invariant
                0 <= k <= windowsize,
                windowsize <= 0x1_0000_0000,
                0 <= i,
                i + windowsize <= n,
                n == entries@.len(),
                forall|j: int| 0 <= j && j + windowsize <= n ==> i32::MIN <= #[trigger] window_sum(
                    entries@,
                    j,
                    windowsize as int,
                ) <= i32::MAX,
                s == window_sum(entries@, i as int, k as int),
                i32::MIN as int * (k as int) <= s <= i32::MAX as int * (k as int),
            decreases windowsize - k,
        {
            proof {
                lemma_window_sum_snoc(entries@, i as int, k as int);
            }
            s = s + entries[i + k] as i64;
            k = k + 1;
        }
        sums.push(s as i32);
        i = i + 1;
    }
    let mut r: usize = 0;
    let mut j: usize = 1;
    while j < sums.len()
        invariant
            1 <= j <= sums@.len() || (sums@.len() == 0 && j == 1),
            windowsize >= 1,
            n == entries@.len(),
            sums@.len() == n - windowsize + 1,
            r <= j,
            forall|q: int| 0 <= q < sums@.len() ==> #[trigger] sums@[q] as int == window_sum(
                entries@,
                q,
                windowsize as int,
            ),
            r as int == increase_count(entries@, windowsize as int, j - 1),
        decreases sums@.len() - j,
    {
        if sums[j] > sums[j - 1] {
            r = r + 1;
        }
        j = j + 1;
    }
    r
}

/// Extending a window by one reading adds that reading to its sum.
proof fn lemma_window_sum_snoc(entries: Seq<i32>, i: int, k: int)
    requires
        k >= 0,
    ensures
        window_sum(entries, i, k + 1) == window_sum(entries, i, k) + entries[i + k],
    decreases k,
{
    if k == 0 {
        assert(window_sum(entries, i, 1) == entries[i] + window_sum(entries, i + 1, 0));
    } else {
        lemma_window_sum_snoc(entries, i + 1, k - 1);
        assert(window_sum(entries, i, k + 1) == entries[i] + window_sum(entries, i + 1, k));
        assert(window_sum(entries, i, k) == entries[i] + window_sum(entries, i + 1, k - 1));
    }
}

} // verus!
