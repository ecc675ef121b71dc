use vstd::prelude::*;
use vstd::relations::sorted_by;
use vstd::seq_lib::{group_to_multiset_ensures, lemma_sorted_unique};

use crate::record::{record_views, sizes_of, FileRecord};

verus! {

broadcast use group_to_multiset_ensures;

/// The sizes in ascending order.
pub open spec fn sorted_sizes(s: Seq<u64>) -> Seq<u64> {
    s.sort_by(|a: u64, b: u64| a <= b)
}

pub open spec fn is_ascending(s: Seq<u64>) -> bool {
    forall|i: int, j: int| 0 <= i < j < s.len() ==> s[i] <= s[j]
}

proof fn lemma_sorted_sizes(s: Seq<u64>)
    ensures
        is_ascending(sorted_sizes(s)),
        sorted_sizes(s).to_multiset() == s.to_multiset(),
        sorted_sizes(s).len() == s.len(),
{
    let leq = |a: u64, b: u64| a <= b;
    s.lemma_sort_by_ensures(leq);
    let t = sorted_sizes(s);
    assert forall|i: int, j: int| 0 <= i < j < t.len() implies t[i] <= t[j] by {
        assert(leq(t[i], t[j]));
    }
    vstd::seq_lib::to_multiset_len(s);
    vstd::seq_lib::to_multiset_len(t);
}

/// An ascending sequence with the same elements as `s` is `sorted_sizes(s)`.
proof fn lemma_ascending_is_sorted_sizes(s: Seq<u64>, t: Seq<u64>)
    requires
        is_ascending(t),
        t.to_multiset() == s.to_multiset(),
    ensures
        t == sorted_sizes(s),
{
    let leq = |a: u64, b: u64| a <= b;
    lemma_sorted_sizes(s);
    assert(sorted_by(t, leq));
    assert(sorted_by(sorted_sizes(s), leq)) by {
        assert forall|i: int, j: int| 0 <= i < j < sorted_sizes(s).len() implies #[trigger] leq(
            sorted_sizes(s)[i],
            sorted_sizes(s)[j],
        ) by {}
    }
    lemma_sorted_unique(t, sorted_sizes(s), leq);
}

/// Sorts sizes into ascending order.
pub fn sort_sizes(v: &mut Vec<u64>)
    ensures
        final(v)@ == sorted_sizes(old(v)@),
{
    let ghost input = v@;
    let mut out: Vec<u64> = Vec::new();
    let mut i: usize = 0;
    while i < v.len()
        invariant
            v@ == input,
            i <= v.len(),
            is_ascending(out@),
            out@.to_multiset() == input.subrange(0, i as int).to_multiset(),
        decreases v.len() - i,
    {
        let x = v[i];
        let mut pos: usize = 0;
        while pos < out.len() && out[pos] <= x
            invariant
                pos <= out.len(),
                forall|k: int| 0 <= k < pos ==> out@[k] <= x,
            decreases out.len() - pos,
        {
            pos = pos + 1;
        }
        let ghost before = out@;
        out.insert(pos, x);
        proof {
            assert(out@ == before.insert(pos as int, x));
            assert(input.subrange(0, i + 1) == input.subrange(0, i as int).push(x));
            vstd::seq_lib::to_multiset_insert(before, pos as int, x);
            assert forall|a: int, b: int| 0 <= a < b < out@.len() implies out@[a] <= out@[b] by {
                if b < pos {
                } else if b == pos {
                } else if a < pos {
                    assert(out@[b] == before[b - 1]);
                    if pos < before.len() {
                        assert(before[pos as int] > x);
                        assert(before[pos as int] <= before[b - 1]);
                    }
                } else if a == pos {
                    assert(before[pos as int] > x);
                    assert(before[pos as int] <= before[b - 1]);
                } else {
                    assert(out@[a] == before[a - 1]);
                    assert(out@[b] == before[b - 1]);
                }
            }
        }
        i = i + 1;
    }
    proof {
        assert(input.subrange(0, input.len() as int) == input);
        lemma_ascending_is_sorted_sizes(input, out@);
    }
    *v = out;
}

/// The middle of an ascending sequence: its middle element when the length is
/// odd, else the floor of the mean of its two middle elements.
pub open spec fn median_of_sorted(s: Seq<u64>) -> u64 {
    let n = s.len() as int;
    if n % 2 == 1 {
        s[n / 2]
    } else {
        ((s[n / 2 - 1] + s[n / 2]) / 2) as u64
    }
}

/// Median of ascending sizes. The mean of the two middle elements is taken
/// without ever forming their sum, so it cannot overflow.
pub fn median_of(sorted: &Vec<u64>) -> (r: u64)
    requires
        sorted@.len() > 0,
    ensures
        r == median_of_sorted(sorted@),
{
    let n = sorted.len();
    if n % 2 == 1 {
        sorted[n / 2]
    } else {
        let a = sorted[n / 2 - 1];
        let b = sorted[n / 2];
        a / 2 + b / 2 + (a % 2 + b % 2) / 2
    }
}

/// How many times `v` occurs in `s`.
pub open spec fn frequency(s: Seq<u64>, v: u64) -> nat {
    s.to_multiset().count(v)
}

/// `m` is the most frequent size of `s`, and the smallest among the sizes that
/// are equally frequent.
pub open spec fn is_mode(s: Seq<u64>, m: u64) -> bool {
    &&& forall|v: u64| #[trigger] frequency(s, v) <= frequency(s, m)
    &&& forall|v: u64| #[trigger] frequency(s, v) == frequency(s, m) ==> m <= v
}

proof fn lemma_frequency_push(s: Seq<u64>, x: u64, v: u64)
    ensures
        frequency(s.push(x), v) == frequency(s, v) + if x == v { 1nat } else { 0nat },
{
    broadcast use vstd::multiset::group_multiset_axioms;
    vstd::seq_lib::to_multiset_build(s, x);
}

proof fn lemma_frequency_absent(s: Seq<u64>, v: u64)
    requires
        forall|k: int| 0 <= k < s.len() ==> s[k] != v,
    ensures
        frequency(s, v) == 0,
{
    broadcast use vstd::multiset::group_multiset_axioms;
    vstd::seq_lib::to_multiset_contains(s, v);
    if s.to_multiset().count(v) > 0 {
        assert(s.contains(v));
    }
}

/// Most frequent size of ascending sizes, the smallest one on a tie.
pub fn mode_of(sorted: &Vec<u64>) -> (r: u64)
    requires
        sorted@.len() > 0,
        is_ascending(sorted@),
    ensures
        is_mode(sorted@, r),
{
    let ghost s = sorted@;
    let n = sorted.len();
    let mut best = sorted[0];
    let mut best_count: usize = 1;
    let mut run = sorted[0];
    let mut run_count: usize = 1;
    let mut i: usize = 1;
    proof {
        assert(s.subrange(0, 1) == Seq::<u64>::empty().push(s[0]));
        assert forall|v: u64| frequency(s.subrange(0, 1), v) == if v == s[0] { 1nat } else { 0nat } by {
            lemma_frequency_push(Seq::<u64>::empty(), s[0], v);
        }
    }
    while i < n
        invariant
            s == sorted@,
            is_ascending(s),
            n == s.len(),
            1 <= i <= n,
            run == s[i - 1],
            run_count as nat == frequency(s.subrange(0, i as int), run),
            best_count as nat == frequency(s.subrange(0, i as int), best),
            best <= run,
            1 <= run_count <= i,
            forall|v: u64| #[trigger]
                frequency(s.subrange(0, i as int), v) <= frequency(s.subrange(0, i as int), best),
            forall|v: u64| #[trigger]
                frequency(s.subrange(0, i as int), v) == frequency(s.subrange(0, i as int), best)
                    ==> best <= v,
        decreases n - i,
    {
        let x = sorted[i];
        let ghost pre = s.subrange(0, i as int);
        proof {
            assert(s.subrange(0, i + 1) == pre.push(x));
            assert forall|v: u64| #[trigger] frequency(pre.push(x), v) == frequency(pre, v) + if x == v { 1nat } else { 0nat } by {
                lemma_frequency_push(pre, x, v);
            }
        }
        if x == run {
            run_count = run_count + 1;
        } else {
            proof {
                assert forall|k: int| 0 <= k < pre.len() implies pre[k] != x by {
                    assert(s[k] <= s[i - 1]);
                }
                lemma_frequency_absent(pre, x);
            }
            run = x;
            run_count = 1;
        }
        if run_count > best_count {
            best = run;
            best_count = run_count;
        }
        i = i + 1;
    }
    proof {
        assert(s.subrange(0, n as int) == s);
    }
    best
}

/// Sum of the sizes.
pub open spec fn total_of(s: Seq<u64>) -> nat
    decreases s.len(),
{
    if s.len() == 0 {
        0
    } else {
        total_of(s.drop_last()) + s.last() as nat
    }
}

proof fn lemma_total_prefix(s: Seq<u64>, i: int)
    requires
        0 <= i <= s.len(),
    ensures
        total_of(s.subrange(0, i)) <= total_of(s),
    decreases s.len() - i,
{
    if i < s.len() {
        lemma_total_prefix(s, i + 1);
        assert(s.subrange(0, i + 1).drop_last() == s.subrange(0, i));
    } else {
        assert(s.subrange(0, i) == s);
    }
}

/// The sum of the sizes, or `None` when it does not fit in a `u64`.
pub fn checked_total(sizes: &Vec<u64>) -> (r: Option<u64>)
    ensures
        r == (if total_of(sizes@) <= u64::MAX {
            Some(total_of(sizes@) as u64)
        } else {
            None
        }),
{
    let ghost s = sizes@;
    let mut sum: u64 = 0;
    let mut i: usize = 0;
    proof {
        assert(s.subrange(0, 0) == Seq::<u64>::empty());
    }
    while i < sizes.len()
        invariant
            s == sizes@,
            i <= s.len(),
            sum as nat == total_of(s.subrange(0, i as int)),
        decreases s.len() - i,
    {
        proof {
            assert(s.subrange(0, i + 1).drop_last() == s.subrange(0, i as int));
        }
        match sum.checked_add(sizes[i]) {
            Some(t) => {
                sum = t;
            },
            None => {
                proof {
                    lemma_total_prefix(s, i + 1);
                }
                return None;
            },
        }
        i = i + 1;
    }
    proof {
        assert(s.subrange(0, s.len() as int) == s);
    }
    Some(sum)
}

/// Descriptive statistics of the sizes of a non-empty set of files, in KiB.
/// The mean is `total_kib / count`.
#[derive(Clone, Copy, Debug, PartialEq, Eq, Structural)]
pub struct Summary {
    pub count: usize,
    /// The sum of the sizes; `None` when it does not fit in a `u64`.
    pub total_kib: Option<u64>,
    pub mode_kib: u64,
    pub median_kib: u64,
    pub min_kib: u64,
    pub max_kib: u64,
}

/// The one way a summary can be refused: there is nothing to summarize.
#[derive(Clone, Copy, Debug, PartialEq, Eq, Structural)]
pub enum SummaryError {
    NoFiles,
}

/// `sum` holds the statistics of the sizes `s`.
pub open spec fn describes(sum: Summary, s: Seq<u64>) -> bool {
    let t = sorted_sizes(s);
    &&& sum.count == s.len()
    &&& sum.total_kib == if total_of(s) <= u64::MAX {
        Some(total_of(s) as u64)
    } else {
        None
    }
    &&& is_mode(s, sum.mode_kib)
    &&& sum.median_kib == median_of_sorted(t)
    &&& sum.min_kib == t[0]
    &&& sum.max_kib == t.last()
}

/// The sizes of the records, in order.
pub fn record_sizes(records: &Vec<FileRecord>) -> (r: Vec<u64>)
    ensures
        r@ == sizes_of(record_views(records@)),
{
    let mut out: Vec<u64> = Vec::new();
    let mut i: usize = 0;
    while i < records.len()
        invariant
            i <= records@.len(),
            out@ == sizes_of(record_views(records@)).subrange(0, i as int),
        decreases records.len() - i,
    {
        out.push(records[i].size_kib);
        i = i + 1;
    }
    proof {
        assert(out@ == sizes_of(record_views(records@)));
    }
    out
}

/// Statistics of the sizes of the records; refused when there are none.
pub fn summarize(records: &Vec<FileRecord>) -> (r: Result<Summary, SummaryError>)
    ensures
        records@.len() == 0 ==> r == Err::<Summary, SummaryError>(SummaryError::NoFiles),
        records@.len() > 0 ==> (r matches Ok(sum) && describes(
            sum,
            sizes_of(record_views(records@)),
        )),
{
    if records.len() == 0 {
        return Err(SummaryError::NoFiles);
    }
    let mut sizes = record_sizes(records);
    let ghost s = sizes@;
    let total_kib = checked_total(&sizes);
    sort_sizes(&mut sizes);
    proof {
        lemma_sorted_sizes(s);
        assert forall|v: u64| #[trigger] frequency(sizes@, v) == frequency(s, v) by {}
    }
    let mode_kib = mode_of(&sizes);
    let median_kib = median_of(&sizes);
    let n = sizes.len();
    let sum = Summary {
        count: n,
        total_kib,
        mode_kib,
        median_kib,
        min_kib: sizes[0],
        max_kib: sizes[n - 1],
    };
    proof {
        assert forall|v: u64| #[trigger] frequency(s, v) <= frequency(s, mode_kib) by {
            assert(frequency(sizes@, v) == frequency(s, v));
            assert(frequency(sizes@, mode_kib) == frequency(s, mode_kib));
        }
        assert forall|v: u64| #[trigger] frequency(s, v) == frequency(s, mode_kib) implies mode_kib <= v by {
            assert(frequency(sizes@, v) == frequency(s, v));
            assert(frequency(sizes@, mode_kib) == frequency(s, mode_kib));
        }
    }
    Ok(sum)
}

proof fn lemma_total_bounds(s: Seq<u64>, lo: u64, hi: u64)
    requires
        forall|k: int| 0 <= k < s.len() ==> lo <= #[trigger] s[k] <= hi,
    ensures
        lo * s.len() <= total_of(s) <= hi * s.len(),
    decreases s.len(),
{
    if s.len() > 0 {
        let p = s.drop_last();
        lemma_total_bounds(p, lo, hi);
        let n = p.len();
        assert(lo * n + lo == lo * (n + 1)) by (nonlinear_arith);
        assert(hi * n + hi == hi * (n + 1)) by (nonlinear_arith);
    }
}

/// Every size lies between the first and the last of the sorted sizes.
proof fn lemma_sorted_extremes(s: Seq<u64>, k: int)
    requires
        0 <= k < s.len(),
    ensures
        sorted_sizes(s)[0] <= s[k] <= sorted_sizes(s).last(),
{
    let t = sorted_sizes(s);
    lemma_sorted_sizes(s);
    vstd::seq_lib::to_multiset_contains(s, s[k]);
    vstd::seq_lib::to_multiset_contains(t, s[k]);
    assert(s.contains(s[k]));
    let j = choose|j: int| 0 <= j < t.len() && t[j] == s[k];
    assert(t[0] <= t[j]);
    assert(t[j] <= t[t.len() - 1]);
}

/// For non-empty sizes, the median and the mean lie between the smallest and
/// the largest size. The mean is stated without division: `count * min`
/// bounds the total from below, `count * max` from above.
pub proof fn lemma_center_between_extremes(s: Seq<u64>)
    requires
        s.len() > 0,
    ensures
        sorted_sizes(s)[0] <= median_of_sorted(sorted_sizes(s)) <= sorted_sizes(s).last(),
        sorted_sizes(s)[0] * s.len() <= total_of(s) <= sorted_sizes(s).last() * s.len(),
{
    let t = sorted_sizes(s);
    lemma_sorted_sizes(s);
    let n = t.len() as int;
    if n % 2 == 0 {
        assert(t[0] <= t[n / 2 - 1]);
        assert(t[n / 2] <= t[n - 1]);
        assert(t[n / 2 - 1] <= t[n / 2]);
    } else {
        assert(t[0] <= t[n / 2]);
        assert(t[n / 2] <= t[n - 1]);
    }
    assert forall|k: int| 0 <= k < s.len() implies t[0] <= #[trigger] s[k] <= t.last() by {
        lemma_sorted_extremes(s, k);
    }
    lemma_total_bounds(s, t[0], t.last());
}

/// For a single size, the mean, median, mode, minimum and maximum are all
/// that size.
pub proof fn lemma_single_size(x: u64)
    ensures
        sorted_sizes(seq![x]) == seq![x],
        total_of(seq![x]) == x,
        median_of_sorted(sorted_sizes(seq![x])) == x,
        is_mode(seq![x], x),
        forall|m: u64| is_mode(seq![x], m) ==> m == x,
{
    let s = seq![x];
    lemma_ascending_is_sorted_sizes(s, s);
    assert(s.drop_last() == Seq::<u64>::empty());
    assert(s == Seq::<u64>::empty().push(x));
    assert(total_of(s) == total_of(Seq::<u64>::empty()) + x as nat);
    assert forall|v: u64| #[trigger] frequency(s, v) == if v == x { 1nat } else { 0nat } by {
        lemma_frequency_push(Seq::<u64>::empty(), x, v);
    }
    assert forall|m: u64| is_mode(s, m) implies m == x by {
        assert(frequency(s, x) <= frequency(s, m));
    }
}

/// For an even number of sizes, the median is the floor of the mean of the two
/// middle sorted sizes.
pub proof fn lemma_even_median(s: Seq<u64>)
    requires
        s.len() > 0,
        s.len() % 2 == 0,
    ensures
        median_of_sorted(sorted_sizes(s)) == (sorted_sizes(s)[s.len() / 2 - 1] as int
            + sorted_sizes(s)[s.len() as int / 2] as int) / 2,
{
    lemma_sorted_sizes(s);
}

} // verus!
