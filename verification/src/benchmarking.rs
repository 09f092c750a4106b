use vstd::prelude::*;

verus! {

broadcast use vstd::std_specs::vec::group_vec_axioms, vstd::seq::group_seq_axioms;

/// Summary statistics over a set of timed events, each keyed by `K`. All
/// durations are in nanoseconds.
pub struct Metrics<K> {
    pub total: u64,
    pub count: usize,
    pub mean: u64,
    pub standard_deviation: u64,
    pub max: (K, u64),
    pub min: (K, u64),
}

/// One timed run of the checker over one proof file.
pub struct CheckerRunMeasurement {
    pub proof_file_name: String,
    pub run_index: usize,
    pub parsing_time: u64,
    pub step_measurements: Vec<StepMeasurement>,
}

/// One timed proof step.
pub struct StepMeasurement {
    pub step_index: String,
    pub rule: String,
    pub time: u64,
}

/// The shape of one timed step.
pub struct StepMV {
    pub step_index: Seq<char>,
    pub rule: Seq<char>,
    pub time: u64,
}

impl View for StepMeasurement {
    type V = StepMV;

    open spec fn view(&self) -> StepMV {
        StepMV { step_index: self.step_index@, rule: self.rule@, time: self.time }
    }
}

/// The shape of one timed run.
pub struct RunV {
    pub proof_file_name: Seq<char>,
    pub run_index: usize,
    pub parsing_time: u64,
    pub step_measurements: Seq<StepMV>,
}

pub open spec fn steps_view(s: Seq<StepMeasurement>) -> Seq<StepMV>
    decreases s.len(),
{
    if s.len() == 0 {
        Seq::empty()
    } else {
        steps_view(s.drop_last()).push(s.last()@)
    }
}

pub proof fn lemma_steps_view_index(s: Seq<StepMeasurement>)
    ensures
        steps_view(s).len() == s.len(),
        forall|i: int| 0 <= i < s.len() ==> #[trigger] steps_view(s)[i] == s[i]@,
    decreases s.len(),
{
    if s.len() > 0 {
        lemma_steps_view_index(s.drop_last());
        assert forall|i: int| 0 <= i < s.len() implies #[trigger] steps_view(s)[i] == s[i]@ by {
            if i < s.len() - 1 {
                assert(s.drop_last()[i] == s[i]);
            } else {
                assert(s[i] == s.last());
            }
        }
    }
}

impl View for CheckerRunMeasurement {
    type V = RunV;

    open spec fn view(&self) -> RunV {
        RunV {
            proof_file_name: self.proof_file_name@,
            run_index: self.run_index,
            parsing_time: self.parsing_time,
            step_measurements: steps_view(self.step_measurements@),
        }
    }
}

pub open spec fn runs_view(s: Seq<CheckerRunMeasurement>) -> Seq<RunV>
    decreases s.len(),
{
    if s.len() == 0 {
        Seq::empty()
    } else {
        runs_view(s.drop_last()).push(s.last()@)
    }
}

pub proof fn lemma_runs_view_index(s: Seq<CheckerRunMeasurement>)
    ensures
        runs_view(s).len() == s.len(),
        forall|i: int| 0 <= i < s.len() ==> #[trigger] runs_view(s)[i] == s[i]@,
    decreases s.len(),
{
    if s.len() > 0 {
        lemma_runs_view_index(s.drop_last());
        assert forall|i: int| 0 <= i < s.len() implies #[trigger] runs_view(s)[i] == s[i]@ by {
            if i < s.len() - 1 {
                assert(s.drop_last()[i] == s[i]);
            } else {
                assert(s[i] == s.last());
            }
        }
    }
}

/// The sum of the durations.
pub open spec fn spec_dur_sum<K>(s: Seq<(K, u64)>) -> int
    decreases s.len(),
{
    if s.len() == 0 {
        0
    } else {
        spec_dur_sum(s.drop_last()) + s.last().1
    }
}

/// The sum of squared deviations from `mean`.
pub open spec fn spec_sq_dev_sum<K>(s: Seq<(K, u64)>, mean: int) -> int
    decreases s.len(),
{
    if s.len() == 0 {
        0
    } else {
        spec_sq_dev_sum(s.drop_last(), mean) + (s.last().1 - mean) * (s.last().1 - mean)
    }
}

/// What the statistics promise of the data: the exact sum, count and
/// truncated mean, a standard deviation that is the integer square root of
/// the variance, and extremes that bound every entry's duration and are,
/// key included, clones of entries attaining them.
pub open spec fn spec_metrics_ok<K: Clone>(m: Metrics<K>, s: Seq<(K, u64)>) -> bool {
    &&& s.len() > 0
    &&& m.count == s.len()
    &&& m.total == spec_dur_sum(s)
    &&& m.mean == spec_dur_sum(s) / s.len() as int
    &&& {
        let divisor = if s.len() > 1 {
            s.len() - 1
        } else {
            1int
        };
        let variance = spec_sq_dev_sum(s, m.mean as int) / divisor;
        m.standard_deviation * m.standard_deviation <= variance < (m.standard_deviation + 1) * (
        m.standard_deviation + 1)
    }
    &&& forall|i: int| 0 <= i < s.len() ==> (#[trigger] s[i]).1 <= m.max.1
    &&& exists|i: int|
        0 <= i < s.len() && (#[trigger] s[i]).1 == m.max.1 && vstd::pervasive::cloned(
            s[i].0,
            m.max.0,
        )
    &&& forall|i: int| 0 <= i < s.len() ==> (#[trigger] s[i]).1 >= m.min.1
    &&& exists|i: int|
        0 <= i < s.len() && (#[trigger] s[i]).1 == m.min.1 && vstd::pervasive::cloned(
            s[i].0,
            m.min.0,
        )
}

/// The integer square root: the largest value whose square is at most `v`.
fn isqrt_u128(v: u128) -> (r: u64)
    ensures
        (r as int) * (r as int) <= v < ((r as int) + 1) * ((r as int) + 1),
{
    let mut lo: u64 = 0;
    let mut hi: u64 = u64::MAX;
    proof {
        assert(((u64::MAX as int) + 1) * ((u64::MAX as int) + 1) > u128::MAX as int)
            by (nonlinear_arith);
    }
    while lo < hi
        invariant
            lo <= hi,
            (lo as int) * (lo as int) <= v as int,
            (v as int) < ((hi as int) + 1) * ((hi as int) + 1),
        decreases hi - lo,
    {
        let mid: u64 = lo + (hi - lo) / 2 + (hi - lo) % 2;
        if (mid as u128) <= v / (mid as u128) {
            proof {
                assert((mid as int) * (mid as int) <= v as int) by (nonlinear_arith)
                    requires
                        mid as int <= (v as int) / (mid as int),
                        mid >= 1,
                        v <= u128::MAX,
                ;
            }
            lo = mid;
        } else {
            proof {
                assert((v as int) < (mid as int) * (mid as int)) by (nonlinear_arith)
                    requires
                        mid as int > (v as int) / (mid as int),
                        mid >= 1,
                ;
            }
            hi = mid - 1;
        }
    }
    lo
}

impl<K: Clone> Metrics<K> {
    /// Computes the summary of a non-empty list of timed events; an empty
    /// list has no summary.
    pub fn new(data: &Vec<(K, u64)>) -> (r: Option<Metrics<K>>)
        requires
            spec_dur_sum(data@) <= u64::MAX,
            spec_sq_dev_sum(data@, spec_dur_sum(data@) / data@.len() as int) <= u128::MAX,
        ensures
            r is Some <==> data@.len() > 0,
            r matches Some(m) ==> spec_metrics_ok(m, data@),
    {
        if data.len() == 0 {
            return None;
        }
        let n = data.len();

        let mut total: u64 = 0;
        proof {
            assert(data@.take(0) =~= Seq::<(K, u64)>::empty());
            lemma_dur_sum_prefix(data@, 0);
        }
        let mut i: usize = 0;
        while i < n
            invariant
                n == data@.len(),
                0 <= i <= n,
                spec_dur_sum(data@) <= u64::MAX,
                total == spec_dur_sum(data@.take(i as int)),
                spec_dur_sum(data@.take(i as int)) <= spec_dur_sum(data@),
            decreases n - i,
        {
            proof {
                assert(data@.take(i as int + 1).drop_last() =~= data@.take(i as int));
                assert(data@.take(i as int + 1).last() == data@[i as int]);
                lemma_dur_sum_prefix(data@, i as int + 1);
            }
            total = total + data[i].1;
            i += 1;
        }
        proof {
            assert(data@.take(n as int) =~= data@);
        }

        let count = n;
        let mean: u64 = total / (count as u64);

        let mut sq_sum: u128 = 0;
        proof {
            assert(data@.take(0) =~= Seq::<(K, u64)>::empty());
            lemma_sq_dev_sum_prefix(data@, 0, mean as int);
        }
        let mut i: usize = 0;
        while i < n
            invariant
                n == data@.len(),
                0 <= i <= n,
                spec_sq_dev_sum(data@, mean as int) <= u128::MAX,
                sq_sum == spec_sq_dev_sum(data@.take(i as int), mean as int),
                spec_sq_dev_sum(data@.take(i as int), mean as int) <= spec_sq_dev_sum(
                    data@,
                    mean as int,
                ),
            decreases n - i,
        {
            proof {
                assert(data@.take(i as int + 1).drop_last() =~= data@.take(i as int));
                assert(data@.take(i as int + 1).last() == data@[i as int]);
                lemma_sq_dev_sum_prefix(data@, i as int + 1, mean as int);
            }
            let x = data[i].1;
            let diff: u64 = if x >= mean {
                x - mean
            } else {
                mean - x
            };
            proof {
                assert((diff as int) * (diff as int) == (x - mean) * (x - mean))
                    by (nonlinear_arith)
                    requires
                        diff as int == if x >= mean {
                            x - mean
                        } else {
                            mean as int - x
                        },
                ;
                assert((diff as u128 as int) * (diff as u128 as int) <= u128::MAX - sq_sum);
            }
            sq_sum = sq_sum + (diff as u128) * (diff as u128);
            i += 1;
        }
        proof {
            assert(data@.take(n as int) =~= data@);
        }
        let divisor: u128 = if count > 1 {
            (count - 1) as u128
        } else {
            1
        };
        let variance: u128 = sq_sum / divisor;
        let standard_deviation = isqrt_u128(variance);

        let mut max_idx: usize = 0;
        let mut min_idx: usize = 0;
        let mut i: usize = 1;
        while i < n
            invariant
                n == data@.len(),
                1 <= i <= n,
                0 <= max_idx < n,
                0 <= min_idx < n,
                forall|q: int| 0 <= q < i ==> (#[trigger] data@[q]).1 <= data@[max_idx as int].1,
                forall|q: int| 0 <= q < i ==> (#[trigger] data@[q]).1 >= data@[min_idx as int].1,
            decreases n - i,
        {
            if data[i].1 >= data[max_idx].1 {
                max_idx = i;
            }
            if data[i].1 < data[min_idx].1 {
                min_idx = i;
            }
            i += 1;
        }
        let max = (data[max_idx].0.clone(), data[max_idx].1);
        let min = (data[min_idx].0.clone(), data[min_idx].1);
        proof {
            assert(vstd::pervasive::cloned(data@[max_idx as int].0, max.0));
            assert(vstd::pervasive::cloned(data@[min_idx as int].0, min.0));
        }
        Some(Metrics { total, count, mean, standard_deviation, max, min })
    }
}

/// The run-index/parsing-time pairs of the runs, in order.
pub open spec fn parsing_pairs(rs: Seq<CheckerRunMeasurement>) -> Seq<(usize, u64)> {
    Seq::new(rs.len(), |i: int| (rs[i].run_index, rs[i].parsing_time))
}

/// The sum of the step times of one run.
pub open spec fn steps_time_sum(steps: Seq<StepMeasurement>) -> int
    decreases steps.len(),
{
    if steps.len() == 0 {
        0
    } else {
        steps_time_sum(steps.drop_last()) + steps.last().time
    }
}

/// The run-index/checking-time pairs of the runs, in order.
pub open spec fn checking_pairs(rs: Seq<CheckerRunMeasurement>) -> Seq<(usize, u64)> {
    Seq::new(
        rs.len(),
        |i: int| (rs[i].run_index, steps_time_sum(rs[i].step_measurements@) as u64),
    )
}

/// The run-index/total-time pairs of the runs, in order.
pub open spec fn total_pairs(rs: Seq<CheckerRunMeasurement>) -> Seq<(usize, u64)> {
    Seq::new(
        rs.len(),
        |i: int|
            (
                rs[i].run_index,
                (rs[i].parsing_time + steps_time_sum(rs[i].step_measurements@)) as u64,
            ),
    )
}

/// The timed events of one run that carry the given rule, keyed by file
/// name and step id, in order.
pub open spec fn run_rule_times(
    file: String,
    steps: Seq<StepMeasurement>,
    rule: Seq<char>,
) -> Seq<((String, String), u64)>
    decreases steps.len(),
{
    if steps.len() == 0 {
        Seq::empty()
    } else {
        let rest = run_rule_times(file, steps.drop_last(), rule);
        if steps.last().rule@ == rule {
            rest.push(((file, steps.last().step_index), steps.last().time))
        } else {
            rest
        }
    }
}

/// All timed events across the runs that carry the given rule, in order.
pub open spec fn rule_times(rs: Seq<CheckerRunMeasurement>, rule: Seq<char>) -> Seq<
    ((String, String), u64),
>
    decreases rs.len(),
{
    if rs.len() == 0 {
        Seq::empty()
    } else {
        rule_times(rs.drop_last(), rule) + run_rule_times(
            rs.last().proof_file_name,
            rs.last().step_measurements@,
            rule,
        )
    }
}

/// Whether any step across the runs carries the given rule.
pub open spec fn rule_occurs(rs: Seq<CheckerRunMeasurement>, rule: Seq<char>) -> bool {
    exists|i: int, j: int|
        #![trigger rs[i].step_measurements@[j]]
        0 <= i < rs.len() && 0 <= j < rs[i].step_measurements@.len()
            && rs[i].step_measurements@[j].rule@ == rule
}

/// The parsing times of all runs, summarised; the runs must not be empty.
pub fn total_parsing_time(runs: &Vec<CheckerRunMeasurement>) -> (r: Metrics<usize>)
    requires
        runs@.len() > 0,
        spec_dur_sum(parsing_pairs(runs@)) <= u64::MAX,
        spec_sq_dev_sum(
            parsing_pairs(runs@),
            spec_dur_sum(parsing_pairs(runs@)) / runs@.len() as int,
        ) <= u128::MAX,
    ensures
        spec_metrics_ok(r, parsing_pairs(runs@)),
{
    let ghost pp = parsing_pairs(runs@);
    let n = runs.len();
    let mut data: Vec<(usize, u64)> = Vec::new();
    let mut i: usize = 0;
    while i < n
        invariant
            n == runs@.len(),
            0 <= i <= n,
            pp == parsing_pairs(runs@),
            pp.len() == n,
            data@.len() == i,
            forall|q: int| 0 <= q < i ==> #[trigger] data@[q] == pp[q],
        decreases n - i,
    {
        data.push((runs[i].run_index, runs[i].parsing_time));
        i += 1;
    }
    proof {
        assert(data@ =~= pp);
    }
    match Metrics::new(&data) {
        Some(m) => m,
        None => {
            proof {
                assert(false);
            }
            Metrics {
                total: 0,
                count: 0,
                mean: 0,
                standard_deviation: 0,
                max: (0, 0),
                min: (0, 0),
            }
        },
    }
}

/// The per-run sums of step-checking times, summarised.
pub fn total_checking_time(runs: &Vec<CheckerRunMeasurement>) -> (r: Metrics<usize>)
    requires
        runs@.len() > 0,
        forall|i: int|
            0 <= i < runs@.len() ==> steps_time_sum((#[trigger] runs@[i]).step_measurements@)
                <= u64::MAX,
        spec_dur_sum(checking_pairs(runs@)) <= u64::MAX,
        spec_sq_dev_sum(
            checking_pairs(runs@),
            spec_dur_sum(checking_pairs(runs@)) / runs@.len() as int,
        ) <= u128::MAX,
    ensures
        spec_metrics_ok(r, checking_pairs(runs@)),
{
    let ghost pp = checking_pairs(runs@);
    let n = runs.len();
    let mut data: Vec<(usize, u64)> = Vec::new();
    let mut i: usize = 0;
    while i < n
        invariant
            n == runs@.len(),
            0 <= i <= n,
            pp == checking_pairs(runs@),
            pp.len() == n,
            forall|q: int|
                0 <= q < n ==> steps_time_sum((#[trigger] runs@[q]).step_measurements@)
                    <= u64::MAX,
            data@.len() == i,
            forall|q: int| 0 <= q < i ==> #[trigger] data@[q] == pp[q],
        decreases n - i,
    {
        let t = sum_step_times(&runs[i].step_measurements);
        data.push((runs[i].run_index, t));
        i += 1;
    }
    proof {
        assert(data@ =~= pp);
    }
    match Metrics::new(&data) {
        Some(m) => m,
        None => {
            proof {
                assert(false);
            }
            Metrics {
                total: 0,
                count: 0,
                mean: 0,
                standard_deviation: 0,
                max: (0, 0),
                min: (0, 0),
            }
        },
    }
}

/// The per-run totals of parsing plus checking time, summarised.
pub fn total_time(runs: &Vec<CheckerRunMeasurement>) -> (r: Metrics<usize>)
    requires
        runs@.len() > 0,
        forall|i: int|
            0 <= i < runs@.len() ==> (#[trigger] runs@[i]).parsing_time + steps_time_sum(
                runs@[i].step_measurements@,
            ) <= u64::MAX,
        spec_dur_sum(total_pairs(runs@)) <= u64::MAX,
        spec_sq_dev_sum(
            total_pairs(runs@),
            spec_dur_sum(total_pairs(runs@)) / runs@.len() as int,
        ) <= u128::MAX,
    ensures
        spec_metrics_ok(r, total_pairs(runs@)),
{
    let ghost pp = total_pairs(runs@);
    let n = runs.len();
    let mut data: Vec<(usize, u64)> = Vec::new();
    let mut i: usize = 0;
    while i < n
        invariant
            n == runs@.len(),
            0 <= i <= n,
            pp == total_pairs(runs@),
            pp.len() == n,
            forall|q: int|
                0 <= q < n ==> (#[trigger] runs@[q]).parsing_time + steps_time_sum(
                    runs@[q].step_measurements@,
                ) <= u64::MAX,
            data@.len() == i,
            forall|q: int| 0 <= q < i ==> #[trigger] data@[q] == pp[q],
        decreases n - i,
    {
        let t = sum_step_times(&runs[i].step_measurements);
        data.push((runs[i].run_index, runs[i].parsing_time + t));
        i += 1;
    }
    proof {
        assert(data@ =~= pp);
    }
    match Metrics::new(&data) {
        Some(m) => m,
        None => {
            proof {
                assert(false);
            }
            Metrics {
                total: 0,
                count: 0,
                mean: 0,
                standard_deviation: 0,
                max: (0, 0),
                min: (0, 0),
            }
        },
    }
}

/// The sum of the step times of one run.
fn sum_step_times(steps: &Vec<StepMeasurement>) -> (r: u64)
    requires
        steps_time_sum(steps@) <= u64::MAX,
    ensures
        r == steps_time_sum(steps@),
{
    let mut total: u64 = 0;
    proof {
        assert(steps@.take(0) =~= Seq::<StepMeasurement>::empty());
        lemma_steps_sum_prefix(steps@, 0);
    }
    let n = steps.len();
    let mut i: usize = 0;
    while i < n
        invariant
            n == steps@.len(),
            0 <= i <= n,
            steps_time_sum(steps@) <= u64::MAX,
            total == steps_time_sum(steps@.take(i as int)),
            steps_time_sum(steps@.take(i as int)) <= steps_time_sum(steps@),
        decreases n - i,
    {
        proof {
            assert(steps@.take(i as int + 1).drop_last() =~= steps@.take(i as int));
            assert(steps@.take(i as int + 1).last() == steps@[i as int]);
            lemma_steps_sum_prefix(steps@, i as int + 1);
        }
        total = total + steps[i].time;
        i += 1;
    }
    proof {
        assert(steps@.take(n as int) =~= steps@);
    }
    total
}

proof fn lemma_steps_sum_prefix(s: Seq<StepMeasurement>, i: int)
    requires
        0 <= i <= s.len(),
    ensures
        steps_time_sum(s.take(i)) <= steps_time_sum(s),
    decreases s.len() - i,
{
    if i < s.len() {
        lemma_steps_sum_prefix(s, i + 1);
        assert(s.take(i + 1).drop_last() =~= s.take(i));
        assert(s.take(i + 1).last() == s[i]);
    } else {
        assert(s.take(i) =~= s);
    }
}

/// Groups the step measurements by rule name and summarises each group.
/// The keys come out distinct, each names a rule some step carries, every
/// rule carried by some step is among them, and each summary covers
/// exactly that rule's events.
pub fn by_rule(runs: &Vec<CheckerRunMeasurement>) -> (r: Vec<(String, Metrics<(String, String)>)>)
    requires
        forall|rule: Seq<char>|
            spec_dur_sum(#[trigger] rule_times(runs@, rule)) <= u64::MAX && spec_sq_dev_sum(
                rule_times(runs@, rule),
                spec_dur_sum(rule_times(runs@, rule)) / rule_times(runs@, rule).len() as int,
            ) <= u128::MAX,
    ensures
        forall|i: int, j: int| 0 <= i < j < r@.len() ==> (#[trigger] r@[i]).0@ != (
        #[trigger] r@[j]).0@,
        forall|i: int| 0 <= i < r@.len() ==> rule_occurs(runs@, (#[trigger] r@[i]).0@),
        forall|rule: Seq<char>| #[trigger]
            rule_occurs(runs@, rule) ==> exists|i: int|
                0 <= i < r@.len() && (#[trigger] r@[i]).0@ == rule,
        forall|i: int|
            0 <= i < r@.len() ==> spec_metrics_ok(
                (#[trigger] r@[i]).1,
                rule_times(runs@, r@[i].0@),
            ),
{
    let keys = collect_rules(runs);
    let mut out: Vec<(String, Metrics<(String, String)>)> = Vec::new();
    let nk = keys.len();
    let mut k: usize = 0;
    while k < nk
        invariant
            nk == keys@.len(),
            0 <= k <= nk,
            forall|rule: Seq<char>|
                spec_dur_sum(#[trigger] rule_times(runs@, rule)) <= u64::MAX && spec_sq_dev_sum(
                    rule_times(runs@, rule),
                    spec_dur_sum(rule_times(runs@, rule)) / rule_times(runs@, rule).len() as int,
                ) <= u128::MAX,
            forall|a: int, b: int| 0 <= a < b < nk ==> (#[trigger] keys@[a])@ != (
            #[trigger] keys@[b])@,
            forall|a: int| 0 <= a < nk ==> rule_occurs(runs@, (#[trigger] keys@[a])@),
            out@.len() == k,
            forall|a: int| 0 <= a < k ==> (#[trigger] out@[a]).0@ == keys@[a]@,
            forall|a: int|
                0 <= a < k ==> spec_metrics_ok(
                    (#[trigger] out@[a]).1,
                    rule_times(runs@, out@[a].0@),
                ),
        decreases nk - k,
    {
        let key = keys[k].clone();
        let data = collect_rule_times(runs, &key);
        proof {
            if rule_times(runs@, key@).len() == 0 {
                lemma_occurs_nonempty(runs@, key@);
            }
        }
        match Metrics::new(&data) {
            Some(m) => {
                out.push((key, m));
            },
            None => {
                proof {
                    assert(false);
                }
            },
        }
        k += 1;
    }
    proof {
        assert forall|rule: Seq<char>| #[trigger] rule_occurs(runs@, rule) implies exists|i: int|
            0 <= i < out@.len() && (#[trigger] out@[i]).0@ == rule by {
            assert(rule_in_keys(keys@, rule));
            let a = choose|a: int| 0 <= a < keys@.len() && (#[trigger] keys@[a])@ == rule;
            assert(out@[a].0@ == keys@[a]@);
        }
    }
    out
}

/// An occurring rule contributes at least one timed event.
proof fn lemma_occurs_nonempty(rs: Seq<CheckerRunMeasurement>, rule: Seq<char>)
    requires
        rule_occurs(rs, rule),
    ensures
        rule_times(rs, rule).len() > 0,
{
    let (i, j) = choose|i: int, j: int|
        #![trigger rs[i].step_measurements@[j]]
        0 <= i < rs.len() && 0 <= j < rs[i].step_measurements@.len()
            && rs[i].step_measurements@[j].rule@ == rule;
    lemma_rule_times_occurrence(rs, rule, i, j);
}

/// An occurrence at a known place makes the collected events non-empty.
proof fn lemma_rule_times_occurrence(rs: Seq<CheckerRunMeasurement>, rule: Seq<char>, i: int, j: int)
    requires
        0 <= i < rs.len(),
        0 <= j < rs[i].step_measurements@.len(),
        rs[i].step_measurements@[j].rule@ == rule,
    ensures
        rule_times(rs, rule).len() > 0,
    decreases rs.len(),
{
    if i == rs.len() - 1 {
        lemma_run_rule_times_occurrence(
            rs.last().proof_file_name,
            rs.last().step_measurements@,
            rule,
            j,
        );
    } else {
        assert(rs.drop_last()[i] == rs[i]);
        lemma_rule_times_occurrence(rs.drop_last(), rule, i, j);
    }
}

proof fn lemma_run_rule_times_occurrence(
    file: String,
    steps: Seq<StepMeasurement>,
    rule: Seq<char>,
    j: int,
)
    requires
        0 <= j < steps.len(),
        steps[j].rule@ == rule,
    ensures
        run_rule_times(file, steps, rule).len() > 0,
    decreases steps.len(),
{
    if j < steps.len() - 1 {
        assert(steps.drop_last()[j] == steps[j]);
        lemma_run_rule_times_occurrence(file, steps.drop_last(), rule, j);
    }
}

/// The distinct rule names across the runs, in order of first appearance.
/// Whether one of the keys equals the given rule name.
pub open spec fn rule_in_keys(keys: Seq<String>, rule: Seq<char>) -> bool {
    exists|a: int| 0 <= a < keys.len() && (#[trigger] keys[a])@ == rule
}

/// Whether every step rule up to position `(i, j)` of the runs already has
/// an equal key collected.
pub open spec fn rules_covered(
    keys: Seq<String>,
    rs: Seq<CheckerRunMeasurement>,
    i: int,
    j: int,
) -> bool {
    forall|p: int, q: int|
        #![trigger rs[p].step_measurements@[q]]
        0 <= p < rs.len() && 0 <= q < rs[p].step_measurements@.len() && (p < i || (p == i && q < j))
            ==> rule_in_keys(keys, rs[p].step_measurements@[q].rule@)
}

fn collect_rules(runs: &Vec<CheckerRunMeasurement>) -> (r: Vec<String>)
    ensures
        forall|a: int, b: int| 0 <= a < b < r@.len() ==> (#[trigger] r@[a])@ != (
        #[trigger] r@[b])@,
        forall|a: int| 0 <= a < r@.len() ==> rule_occurs(runs@, (#[trigger] r@[a])@),
        forall|rule: Seq<char>| #[trigger] rule_occurs(runs@, rule) ==> rule_in_keys(r@, rule),
{
    let mut keys: Vec<String> = Vec::new();
    let n = runs.len();
    let mut i: usize = 0;
    while i < n
        invariant
            n == runs@.len(),
            0 <= i <= n,
            forall|a: int, b: int| 0 <= a < b < keys@.len() ==> (#[trigger] keys@[a])@ != (
            #[trigger] keys@[b])@,
            forall|a: int| 0 <= a < keys@.len() ==> rule_occurs(runs@, (#[trigger] keys@[a])@),
            rules_covered(keys@, runs@, i as int, 0),
        decreases n - i,
    {
        let steps: &Vec<StepMeasurement> = &runs[i].step_measurements;
        let m = steps.len();
        let mut j: usize = 0;
        while j < m
            invariant
                n == runs@.len(),
                0 <= i < n,
                m == steps@.len(),
                steps@ == runs@[i as int].step_measurements@,
                0 <= j <= m,
                forall|a: int, b: int| 0 <= a < b < keys@.len() ==> (#[trigger] keys@[a])@ != (
                #[trigger] keys@[b])@,
                forall|a: int| 0 <= a < keys@.len() ==> rule_occurs(runs@, (#[trigger] keys@[a])@),
                rules_covered(keys@, runs@, i as int, j as int),
            decreases m - j,
        {
            let rule = &steps[j].rule;
            let ghost old_keys = keys@;
            if !contains_string(&keys, rule) {
                proof {
                    assert(runs@[i as int].step_measurements@[j as int].rule@ == rule@);
                }
                keys.push(rule.clone());
                proof {
                    assert(keys@[keys@.len() - 1]@ == rule@);
                    assert forall|a: int, b: int|
                        0 <= a < b < keys@.len() implies (#[trigger] keys@[a])@ != (
                    #[trigger] keys@[b])@ by {
                        if b < keys@.len() - 1 {
                            assert(keys@[a] == old_keys[a] && keys@[b] == old_keys[b]);
                        } else {
                            assert(keys@[a] == old_keys[a]);
                        }
                    }
                    assert forall|a: int|
                        0 <= a < keys@.len() implies rule_occurs(runs@, (#[trigger] keys@[a])@) by {
                        if a < old_keys.len() {
                            assert(keys@[a] == old_keys[a]);
                        } else {
                            assert(runs@[i as int].step_measurements@[j as int].rule@
                                == keys@[a]@);
                        }
                    }
                }
            }
            proof {
                assert(keys@.len() >= old_keys.len());
                assert(forall|a: int| 0 <= a < old_keys.len() ==> keys@[a] == #[trigger] old_keys[a]);
                assert(rule_in_keys(
                    keys@,
                    runs@[i as int].step_measurements@[j as int].rule@,
                ));
                assert forall|p: int, q: int|
                    #![trigger runs@[p].step_measurements@[q]]
                    0 <= p < runs@.len() && 0 <= q < runs@[p].step_measurements@.len() && (p
                        < i as int || (p == i as int && q < j as int + 1)) implies rule_in_keys(
                    keys@,
                    runs@[p].step_measurements@[q].rule@,
                ) by {
                    if p == i as int && q == j as int {
                    } else {
                        assert(rule_in_keys(old_keys, runs@[p].step_measurements@[q].rule@));
                        let a0 = choose|a0: int|
                            0 <= a0 < old_keys.len() && (#[trigger] old_keys[a0])@
                                == runs@[p].step_measurements@[q].rule@;
                        assert(keys@[a0] == old_keys[a0]);
                        assert(keys@[a0]@ == runs@[p].step_measurements@[q].rule@);
                    }
                }
            }
            j += 1;
        }
        proof {
            assert(j == m);
            assert forall|p: int, q: int|
                #![trigger runs@[p].step_measurements@[q]]
                0 <= p < runs@.len() && 0 <= q < runs@[p].step_measurements@.len() && (p < i as int
                    + 1 || (p == i as int + 1 && q < 0)) implies rule_in_keys(
                keys@,
                runs@[p].step_measurements@[q].rule@,
            ) by {
                if p == i as int {
                    assert(runs@[p].step_measurements@ == steps@);
                    assert(q < j as int);
                }
            }
            assert(rules_covered(keys@, runs@, i as int + 1, 0));
        }
        i += 1;
    }
    proof {
        assert forall|rule: Seq<char>| #[trigger] rule_occurs(runs@, rule) implies rule_in_keys(
            keys@,
            rule,
        ) by {
            let (p, q) = choose|p: int, q: int|
                #![trigger runs@[p].step_measurements@[q]]
                0 <= p < runs@.len() && 0 <= q < runs@[p].step_measurements@.len()
                    && runs@[p].step_measurements@[q].rule@ == rule;
            assert(p < n as int);
        }
    }
    keys
}

/// Whether the list already holds an equal string.
fn contains_string(keys: &Vec<String>, s: &String) -> (r: bool)
    ensures
        r == exists|a: int| 0 <= a < keys@.len() && (#[trigger] keys@[a])@ == s@,
{
    let n = keys.len();
    let mut i: usize = 0;
    while i < n
        invariant
            n == keys@.len(),
            0 <= i <= n,
            forall|a: int| 0 <= a < i ==> (#[trigger] keys@[a])@ != s@,
        decreases n - i,
    {
        if keys[i].eq(s) {
            proof {
                assert(keys@[i as int]@ == s@);
            }
            return true;
        }
        i += 1;
    }
    false
}

/// All timed events carrying the given rule, keyed by file and step id.
fn collect_rule_times(runs: &Vec<CheckerRunMeasurement>, rule: &String) -> (r: Vec<
    ((String, String), u64),
>)
    ensures
        r@ == rule_times(runs@, rule@),
{
    let mut data: Vec<((String, String), u64)> = Vec::new();
    proof {
        assert(runs@.take(0) =~= Seq::<CheckerRunMeasurement>::empty());
    }
    let n = runs.len();
    let mut i: usize = 0;
    while i < n
        invariant
            n == runs@.len(),
            0 <= i <= n,
            data@ == rule_times(runs@.take(i as int), rule@),
        decreases n - i,
    {
        let steps: &Vec<StepMeasurement> = &runs[i].step_measurements;
        let m = steps.len();
        let mut j: usize = 0;
        proof {
            assert(steps@.take(0) =~= Seq::<StepMeasurement>::empty());
            assert(runs@.take(i as int + 1).drop_last() =~= runs@.take(i as int));
            assert(runs@.take(i as int + 1).last() == runs@[i as int]);
        }
        while j < m
            invariant
                n == runs@.len(),
                0 <= i < n,
                m == steps@.len(),
                steps@ == runs@[i as int].step_measurements@,
                0 <= j <= m,
                data@ == rule_times(runs@.take(i as int), rule@) + run_rule_times(
                    runs@[i as int].proof_file_name,
                    steps@.take(j as int),
                    rule@,
                ),
            decreases m - j,
        {
            proof {
                assert(steps@.take(j as int + 1).drop_last() =~= steps@.take(j as int));
                assert(steps@.take(j as int + 1).last() == steps@[j as int]);
            }
            let ghost before = data@;
            if steps[j].rule.eq(rule) {
                data.push(
                    ((runs[i].proof_file_name.clone(), steps[j].step_index.clone()), steps[j].time),
                );
                proof {
                    assert(data@ =~= rule_times(runs@.take(i as int), rule@) + run_rule_times(
                        runs@[i as int].proof_file_name,
                        steps@.take(j as int + 1),
                        rule@,
                    ));
                }
            } else {
                proof {
                    assert(data@ =~= rule_times(runs@.take(i as int), rule@) + run_rule_times(
                        runs@[i as int].proof_file_name,
                        steps@.take(j as int + 1),
                        rule@,
                    ));
                }
            }
            j += 1;
        }
        proof {
            assert(steps@.take(m as int) =~= steps@);
            assert(runs@.take(i as int + 1).drop_last() =~= runs@.take(i as int));
            assert(runs@.take(i as int + 1).last() == runs@[i as int]);
        }
        i += 1;
    }
    proof {
        assert(runs@.take(n as int) =~= runs@);
    }
    data
}

/// Summing a prefix never exceeds summing the whole.
proof fn lemma_dur_sum_prefix<K>(s: Seq<(K, u64)>, i: int)
    requires
        0 <= i <= s.len(),
    ensures
        spec_dur_sum(s.take(i)) <= spec_dur_sum(s),
    decreases s.len() - i,
{
    if i < s.len() {
        lemma_dur_sum_prefix(s, i + 1);
        assert(s.take(i + 1).drop_last() =~= s.take(i));
        assert(s.take(i + 1).last() == s[i]);
    } else {
        assert(s.take(i) =~= s);
    }
}

/// Summing squared deviations over a prefix never exceeds the whole.
proof fn lemma_sq_dev_sum_prefix<K>(s: Seq<(K, u64)>, i: int, mean: int)
    requires
        0 <= i <= s.len(),
    ensures
        spec_sq_dev_sum(s.take(i), mean) <= spec_sq_dev_sum(s, mean),
    decreases s.len() - i,
{
    if i < s.len() {
        lemma_sq_dev_sum_prefix(s, i + 1, mean);
        assert(s.take(i + 1).drop_last() =~= s.take(i));
        assert(s.take(i + 1).last() == s[i]);
        assert((s[i].1 - mean) * (s[i].1 - mean) >= 0) by (nonlinear_arith);
    } else {
        assert(s.take(i) =~= s);
    }
}

} // verus!
