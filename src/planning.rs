use vstd::prelude::*;

use crate::range_ops::max_int;

verus! {

/// Sum of the first `s` values of `row`.
pub open spec fn row_sum(row: Seq<usize>, s: int) -> int
    decreases s,
{
    if s <= 0 {
        0
    } else {
        row_sum(row, s - 1) + row[s - 1]
    }
}

/// Attractions seen by spending `s` days in a city with itinerary `row`: the first `s`
/// values, or nothing when `s` exceeds the itinerary.
pub open spec fn gain(row: Seq<usize>, s: int) -> int {
    if s <= row.len() {
        row_sum(row, s)
    } else {
        0
    }
}

/// Most attractions seen in `days` days over the first `city` cities.
pub open spec fn plan(a: Seq<Seq<usize>>, days: int, city: int) -> int
    decreases city, days + 2,
{
    if city <= 0 || days <= 0 {
        0
    } else {
        split(a, days, city, days)
    }
}

/// Best of `plan(a, days - s, city - 1) + gain(a[city - 1], s)` over `0 <= s <= k`.
pub open spec fn split(a: Seq<Seq<usize>>, days: int, city: int, k: int) -> int
    decreases city, k + 1,
{
    if city <= 0 || k < 0 {
        0
    } else {
        let v = plan(a, days - k, city - 1) + gain(a[city - 1], k);
        if k == 0 {
            v
        } else {
            max_int(split(a, days, city, k - 1), v)
        }
    }
}

/// Sum of every itinerary value of the first `city` cities.
pub open spec fn total(a: Seq<Seq<usize>>, city: int) -> int
    decreases city,
{
    if city <= 0 {
        0
    } else {
        total(a, city - 1) + row_sum(a[city - 1], a[city - 1].len() as int)
    }
}

/// The itineraries as sequences.
pub open spec fn rows(a: Seq<Vec<usize>>) -> Seq<Seq<usize>> {
    a.map_values(|v: Vec<usize>| v@)
}

proof fn lemma_row_sum_mono(row: Seq<usize>, s: int, t: int)
    requires
        0 <= s <= t <= row.len(),
    ensures
        0 <= row_sum(row, s) <= row_sum(row, t),
    decreases t,
{
    if t > s {
        lemma_row_sum_mono(row, s, t - 1);
    } else if s > 0 {
        lemma_row_sum_mono(row, s - 1, s - 1);
    }
}

proof fn lemma_total_mono(a: Seq<Seq<usize>>, c: int, n: int)
    requires
        0 <= c <= n <= a.len(),
    ensures
        0 <= total(a, c) <= total(a, n),
    decreases n,
{
    if n > c {
        lemma_total_mono(a, c, n - 1);
        lemma_row_sum_mono(a[n - 1], 0, a[n - 1].len() as int);
    } else if c > 0 {
        lemma_total_mono(a, c - 1, c - 1);
        lemma_row_sum_mono(a[c - 1], 0, a[c - 1].len() as int);
    }
}

proof fn lemma_plan_bounds(a: Seq<Seq<usize>>, days: int, city: int)
    requires
        city <= a.len(),
    ensures
        0 <= plan(a, days, city) <= total(a, city),
    decreases city, days + 2,
{
    if city > 0 && days > 0 {
        lemma_split_bounds(a, days, city, days);
    } else if city > 0 {
        lemma_total_mono(a, 0, city);
    }
}

proof fn lemma_split_bounds(a: Seq<Seq<usize>>, days: int, city: int, k: int)
    requires
        0 < city <= a.len(),
        0 <= k,
    ensures
        0 <= split(a, days, city, k) <= total(a, city),
    decreases city, k + 1,
{
    lemma_plan_bounds(a, days - k, city - 1);
    lemma_total_mono(a, city - 1, city - 1);
    let row = a[city - 1];
    lemma_row_sum_mono(row, 0, row.len() as int);
    if k <= row.len() {
        lemma_row_sum_mono(row, k, row.len() as int);
    }
    if k > 0 {
        lemma_split_bounds(a, days, city, k - 1);
    }
}

/// Most attractions that can be visited in `d` days over the first `n` cities, where
/// `attractions[c]` lists what each successive day spent in city `c` offers.
pub fn holiday_planning(n: usize, d: usize, attractions: Vec<Vec<usize>>) -> (r: usize)
    requires
        n < usize::MAX,
        d < usize::MAX,
        attractions.len() >= n,
        forall|c: int| 0 <= c < n ==> (#[trigger] attractions@[c]).len() <= d,
        total(rows(attractions@), n as int) <= usize::MAX,
    ensures
        r == plan(rows(attractions@), d as int, n as int),
{
    let ghost a = rows(attractions@);
    assert(a.len() == attractions.len());
    let mut dp: Vec<Vec<usize>> = Vec::new();
    let mut k: usize = 0;
    while k <= d
        invariant
            k <= d + 1,
            d < usize::MAX,
            n < usize::MAX,
            dp.len() == k,
            forall|p: int| 0 <= p < k ==> (#[trigger] dp@[p])@ == Seq::new((n + 1) as nat, |c: int| 0usize),
        decreases d + 1 - k,
    {
        dp.push(vec![0; n + 1]);
        k += 1;
    }
    let mut days: usize = 1;
    while days <= d
        invariant
            1 <= days <= d + 1,
            d < usize::MAX,
            n < usize::MAX,
            a == rows(attractions@),
            a.len() == attractions.len(),
            attractions.len() >= n,
            forall|c: int| 0 <= c < n ==> (#[trigger] attractions@[c]).len() <= d,
            total(a, n as int) <= usize::MAX,
            dp.len() == d + 1,
            forall|p: int| 0 <= p <= d ==> (#[trigger] dp@[p]).len() == n + 1,
            forall|p: int, c: int|
                0 <= p <= d && 0 <= c <= n ==> #[trigger] dp@[p]@[c] == if p < days {
                    plan(a, p, c)
                } else {
                    0
                },
        decreases d + 1 - days,
    {
        let mut city: usize = 1;
        while city <= n
            invariant
                1 <= days <= d,
                1 <= city <= n + 1,
                d < usize::MAX,
                n < usize::MAX,
                a == rows(attractions@),
                a.len() == attractions.len(),
                attractions.len() >= n,
                forall|c: int| 0 <= c < n ==> (#[trigger] attractions@[c]).len() <= d,
                total(a, n as int) <= usize::MAX,
                dp.len() == d + 1,
                forall|p: int| 0 <= p <= d ==> (#[trigger] dp@[p]).len() == n + 1,
                forall|p: int, c: int|
                    0 <= p <= d && 0 <= c <= n ==> #[trigger] dp@[p]@[c] == if p < days || (p
                        == days && c < city) {
                        plan(a, p, c)
                    } else {
                        0
                    },
            decreases n + 1 - city,
        {
            proof {
                lemma_total_mono(a, city as int, n as int);
                lemma_plan_bounds(a, days as int, city - 1);
            }
            dp[days][city] = dp[days][city - 1];
            let mut prefix_sum: Vec<usize> = vec![0; d + 1];
            let len = attractions[city - 1].len();
            let ghost row = a[city - 1];
            assert(row == attractions@[city - 1]@);
            let mut day: usize = 1;
            while day <= len
                invariant
                    1 <= day <= len + 1,
                    1 <= city <= n,
                    attractions.len() >= n,
                    len <= d,
                    d < usize::MAX,
                    row == attractions@[city - 1]@,
                    len == row.len(),
                    prefix_sum.len() == d + 1,
                    row_sum(row, len as int) <= usize::MAX,
                    forall|s: int|
                        0 <= s <= d ==> #[trigger] prefix_sum@[s] == if s < day {
                            row_sum(row, s)
                        } else {
                            0
                        },
                decreases len + 1 - day,
            {
                proof {
                    lemma_row_sum_mono(row, day as int, len as int);
                }
                prefix_sum[day] = prefix_sum[day - 1] + attractions[city - 1][day - 1];
                day += 1;
            }
            let mut days_spent: usize = 0;
            while days_spent <= days
                invariant
                    1 <= days <= d,
                    1 <= city <= n,
                    days_spent <= days + 1,
                    d < usize::MAX,
                    a == rows(attractions@),
                    a.len() == attractions.len(),
                    attractions.len() >= n,
                    row == a[city - 1],
                    total(a, city as int) <= usize::MAX,
                    prefix_sum.len() == d + 1,
                    forall|s: int| 0 <= s <= d ==> #[trigger] prefix_sum@[s] == gain(row, s),
                    dp.len() == d + 1,
                    forall|p: int| 0 <= p <= d ==> (#[trigger] dp@[p]).len() == n + 1,
                    forall|p: int, c: int|
                        0 <= p <= d && 0 <= c <= n && !(p == days && c == city) ==> #[trigger] dp@[p]@[c]
                            == if p < days || (p == days && c < city) {
                            plan(a, p, c)
                        } else {
                            0
                        },
                    dp@[days as int]@[city as int] == if days_spent == 0 {
                        plan(a, days as int, city - 1)
                    } else {
                        split(a, days as int, city as int, days_spent - 1)
                    },
                decreases days + 1 - days_spent,
            {
                proof {
                    lemma_plan_bounds(a, days - days_spent, city - 1);
                    lemma_split_bounds(a, days as int, city as int, days_spent as int);
                    lemma_total_mono(a, city - 1, city as int);
                    if days_spent <= row.len() {
                        lemma_row_sum_mono(row, days_spent as int, row.len() as int);
                    }
                }
                dp[days][city] = dp[days][city].max(
                    dp[days - days_spent][city - 1] + prefix_sum[days_spent],
                );
                days_spent += 1;
            }
            city += 1;
        }
        days += 1;
    }
    dp[d][n]
}

} // verus!
