use vstd::prelude::*;

use crate::labels::{first_arrow, parse_format_string, parsed_format};
use crate::stats::{median_and_iqr, median_of, q1_of, q3_of};
use crate::tree::{
    build_contraction_tree, check_path, leaf_worklist, path_ok, run_path, ContractionTree,
};

verus! {

/// Element type of a benchmark instance.
#[derive(Clone, Copy, Debug, PartialEq, Eq)]
pub enum Dtype {
    Float64,
    Complex128,
}

/// Tells whether two strings hold the same characters.
pub fn str_equal(a: &str, b: &str) -> (r: bool)
    ensures
        r == (a@ == b@),
{
    let n = a.unicode_len();
    if n != b.unicode_len() {
        return false;
    }
    let mut k: usize = 0;
    while k < n
        invariant
            n == a@.len() == b@.len(),
            k <= n,
            forall|j: int| 0 <= j < k ==> a@[j] == b@[j],
        decreases n - k,
    {
        if a.get_char(k) != b.get_char(k) {
            return false;
        }
        k += 1;
    }
    assert(a@ =~= b@);
    true
}

/// The element type named `name` (`float64` or `complex128`), or `None`
/// for an unsupported name.
pub fn parse_dtype(name: &str) -> (r: Option<Dtype>)
    ensures
        r == Some(Dtype::Float64) <==> name@ == "float64"@,
        r == Some(Dtype::Complex128) <==> name@ == "complex128"@,
        r is None <==> (name@ != "float64"@ && name@ != "complex128"@),
{
    proof {
        reveal_strlit("float64");
        reveal_strlit("complex128");
        assert("float64"@ != "complex128"@) by {
            assert("float64"@.len() != "complex128"@.len());
        }
    }
    if str_equal(name, "float64") {
        Some(Dtype::Float64)
    } else if str_equal(name, "complex128") {
        Some(Dtype::Complex128)
    } else {
        None
    }
}

/// A contraction tree ready for evaluation, with the output labels.
pub struct ContractionPlan {
    pub root: ContractionTree,
    pub output_ids: Vec<char>,
}

/// Why a benchmark instance cannot be turned into a contraction plan.
#[derive(Clone, Copy, Debug, PartialEq, Eq)]
pub enum InstanceError {
    /// The format string has no `->`.
    MissingArrow,
    /// The format string names a different number of operands than declared.
    TensorCountMismatch { parsed: usize, declared: usize },
    /// The path does not reduce the operands to a single tree.
    BadPath,
}

/// Parses an instance's format string, checks the operand count against
/// `num_tensors` and the path against the operands, and builds the tree.
pub fn prepare_instance(format: &str, num_tensors: usize, path: &[[usize; 2]]) -> (r: Result<
    ContractionPlan,
    InstanceError,
>)
    ensures
        first_arrow(format@) is None <==> r == Err::<ContractionPlan, InstanceError>(
            InstanceError::MissingArrow,
        ),
        first_arrow(format@) is Some && parsed_format(format@).0.len() != num_tensors ==> r
            == Err::<ContractionPlan, InstanceError>(
            InstanceError::TensorCountMismatch {
                parsed: parsed_format(format@).0.len() as usize,
                declared: num_tensors,
            },
        ),
        first_arrow(format@) is Some && parsed_format(format@).0.len() == num_tensors ==> (r
            == Err::<ContractionPlan, InstanceError>(InstanceError::BadPath) <==> !(path_ok(
            num_tensors as int,
            path@,
        ) && path@.len() + 1 == num_tensors)),
        r is Ok <==> (first_arrow(format@) is Some && parsed_format(format@).0.len() == num_tensors
            && path_ok(num_tensors as int, path@) && path@.len() + 1 == num_tensors),
        r is Ok ==> r->Ok_0.output_ids@ == parsed_format(format@).1,
        r is Ok ==> exists|ids: Seq<Vec<char>>|
            ids.map_values(|v: Vec<char>| v@) == parsed_format(format@).0 && r->Ok_0.root.model()
                == run_path(leaf_worklist(ids), path@)[0],
{
    let chars = crate::labels::chars_of(format);
    if crate::labels::find_arrow(&chars).is_none() {
        return Err(InstanceError::MissingArrow);
    }
    let (inputs, output) = parse_format_string(format);
    if inputs.len() != num_tensors {
        return Err(InstanceError::TensorCountMismatch { parsed: inputs.len(), declared: num_tensors });
    }
    if !check_path(inputs.len(), path) {
        return Err(InstanceError::BadPath);
    }
    let root = build_contraction_tree(inputs.as_slice(), path);
    Ok(ContractionPlan { root, output_ids: output })
}

/// A path-selection strategy of the benchmark.
#[derive(Clone, Copy, Debug, PartialEq, Eq)]
pub enum Strategy {
    OptFlops,
    OptSize,
}

impl Strategy {
    /// The name printed for this strategy.
    pub fn name(&self) -> (r: &'static str)
        ensures
            *self == Strategy::OptFlops ==> r@ == "opt_flops"@,
            *self == Strategy::OptSize ==> r@ == "opt_size"@,
    {
        match self {
            Strategy::OptFlops => "opt_flops",
            Strategy::OptSize => "opt_size",
        }
    }
}

/// The strategies in report order.
pub open spec fn strategy_at(g: int) -> Strategy {
    if g == 0 { Strategy::OptFlops } else { Strategy::OptSize }
}

/// One line of the results report: a strategy's heading, or the row of one
/// instance under a strategy.
#[derive(Clone, Copy, Debug, PartialEq, Eq)]
pub enum ReportLine {
    Heading(Strategy),
    Row(Strategy, usize),
}

/// Line `k` of the report over `n` instances: each strategy in turn, its
/// heading followed by one row per instance in order.
pub open spec fn report_line(n: int, k: int) -> ReportLine {
    let g = k / (n + 1);
    let i = k % (n + 1);
    if i == 0 {
        ReportLine::Heading(strategy_at(g))
    } else {
        ReportLine::Row(strategy_at(g), (i - 1) as usize)
    }
}

/// The report over `n` instances has one heading per strategy, at the start
/// of its group, and `2 * n` rows: each instance once under each strategy.
pub proof fn lemma_report_rows(n: int)
    requires
        n >= 0,
    ensures
        forall|k: int|
            0 <= k < 2 * (n + 1) ==> (#[trigger] report_line(n, k) is Heading <==> (k == 0
                || k == n + 1)),
        report_line(n, 0) == ReportLine::Heading(Strategy::OptFlops),
        report_line(n, n + 1) == ReportLine::Heading(Strategy::OptSize),
        forall|g: int, i: int|
            0 <= g < 2 && 0 <= i < n ==> #[trigger] report_line(n, g * (n + 1) + 1 + i)
                == ReportLine::Row(strategy_at(g), i as usize),
{
    assert forall|k: int| 0 <= k < 2 * (n + 1) implies (#[trigger] report_line(n, k) is Heading
        <==> (k == 0 || k == n + 1)) by {
        let m = n + 1;
        if k < m {
            assert(k / m == 0 && k % m == k) by (nonlinear_arith)
                requires
                    0 <= k < m,
            ;
        } else {
            assert(k / m == 1 && k % m == k - m) by (nonlinear_arith)
                requires
                    m <= k < 2 * m,
            ;
        }
    }
    assert(report_line(n, n + 1) == ReportLine::Heading(Strategy::OptSize)) by {
        assert((n + 1) / (n + 1) == 1 && (n + 1) % (n + 1) == 0) by (nonlinear_arith)
            requires
                n >= 0,
        ;
    }
    assert forall|g: int, i: int| 0 <= g < 2 && 0 <= i < n implies #[trigger] report_line(
        n,
        g * (n + 1) + 1 + i,
    ) == ReportLine::Row(strategy_at(g), i as usize) by {
        let k = g * (n + 1) + 1 + i;
        assert(k / (n + 1) == g && k % (n + 1) == i + 1) by (nonlinear_arith)
            requires
                k == g * (n + 1) + 1 + i,
                0 <= i < n,
                0 <= g,
        ;
    }
}

/// The layout of the results report over `n` instances.
pub fn report_layout(n: usize) -> (r: Vec<ReportLine>)
    requires
        n < usize::MAX / 2,
    ensures
        r@.len() == 2 * (n + 1),
        forall|k: int| 0 <= k < r@.len() ==> #[trigger] r@[k] == report_line(n as int, k),
{
    let mut r: Vec<ReportLine> = Vec::new();
    let mut g: usize = 0;
    while g < 2
        invariant
            g <= 2,
            n < usize::MAX / 2,
            r@.len() == g * (n + 1),
            forall|k: int| 0 <= k < r@.len() ==> #[trigger] r@[k] == report_line(n as int, k),
        decreases 2 - g,
    {
        let s = if g == 0 { Strategy::OptFlops } else { Strategy::OptSize };
        proof {
            let k = (g * (n + 1)) as int;
            assert(k / (n as int + 1) == g && k % (n as int + 1) == 0) by (nonlinear_arith)
                requires
                    k == g * (n as int + 1),
                    n >= 0,
            ;
        }
        r.push(ReportLine::Heading(s));
        let mut i: usize = 0;
        while i < n
            invariant
                g < 2,
                i <= n,
                n < usize::MAX / 2,
                s == strategy_at(g as int),
                r@.len() == g * (n + 1) + 1 + i,
                forall|k: int| 0 <= k < r@.len() ==> #[trigger] r@[k] == report_line(n as int, k),
            decreases n - i,
        {
            proof {
                let k = (g * (n + 1) + 1 + i) as int;
                assert(k / (n as int + 1) == g && k % (n as int + 1) == i + 1) by (nonlinear_arith)
                    requires
                        k == g * (n as int + 1) + 1 + i,
                        i < n,
                ;
            }
            r.push(ReportLine::Row(s, i));
            i += 1;
        }
        g += 1;
    }
    r
}

/// What the timing harness does next.
#[derive(Clone, Copy, Debug, PartialEq, Eq)]
pub enum HarnessStep {
    /// Run the operation and discard its time.
    Warmup,
    /// Run the operation and record its elapsed time.
    Measure,
    /// All runs are done.
    Finished,
}

/// Progress of a timing harness: warmup runs left, measured runs left, and
/// the elapsed times recorded so far (nanoseconds).
pub struct Harness {
    pub warmup_left: usize,
    pub runs_left: usize,
    pub samples: Vec<u64>,
}

impl Harness {
    /// A harness that warms up `warmup` times, then measures `runs` times.
    pub fn new(warmup: usize, runs: usize) -> (r: Harness)
        ensures
            r.warmup_left == warmup,
            r.runs_left == runs,
            r.samples@ == Seq::<u64>::empty(),
    {
        Harness { warmup_left: warmup, runs_left: runs, samples: Vec::new() }
    }

    /// Warmup runs come first, then measured runs.
    pub fn next_step(&self) -> (r: HarnessStep)
        ensures
            self.warmup_left > 0 ==> r == HarnessStep::Warmup,
            self.warmup_left == 0 && self.runs_left > 0 ==> r == HarnessStep::Measure,
            self.warmup_left == 0 && self.runs_left == 0 ==> r == HarnessStep::Finished,
    {
        if self.warmup_left > 0 {
            HarnessStep::Warmup
        } else if self.runs_left > 0 {
            HarnessStep::Measure
        } else {
            HarnessStep::Finished
        }
    }

    /// Takes the elapsed time of the run that `next_step` asked for: a warmup
    /// time is discarded, a measured time is recorded, nothing once finished.
    pub fn record(&mut self, elapsed: u64)
        ensures
            old(self).warmup_left > 0 ==> final(self).warmup_left == old(self).warmup_left - 1
                && final(self).runs_left == old(self).runs_left && final(self).samples@ == old(
                self,
            ).samples@,
            old(self).warmup_left == 0 && old(self).runs_left > 0 ==> final(self).warmup_left == 0
                && final(self).runs_left == old(self).runs_left - 1 && final(self).samples@ == old(
                self,
            ).samples@.push(elapsed),
            old(self).warmup_left == 0 && old(self).runs_left == 0 ==> final(self).warmup_left
                == 0 && final(self).runs_left == 0 && final(self).samples@ == old(self).samples@,
    {
        if self.warmup_left > 0 {
            self.warmup_left = self.warmup_left - 1;
        } else if self.runs_left > 0 {
            self.runs_left = self.runs_left - 1;
            self.samples.push(elapsed);
        }
    }

    /// Median and interquartile range of the recorded times, once at least
    /// one has been recorded; `None` before that.
    pub fn summary(&self) -> (r: Option<(u64, u64)>)
        ensures
            self.samples@.len() == 0 <==> r is None,
            r is Some ==> r.unwrap().0 == median_of(self.samples@),
            r is Some ==> r.unwrap().1 == q3_of(self.samples@) - q1_of(self.samples@),
    {
        if self.samples.len() == 0 {
            return None;
        }
        let copy = crate::stats::copy_vec_u64(&self.samples);
        Some(median_and_iqr(copy))
    }
}

/// `part` as a whole percentage of `whole`, rounded down; `None` where
/// `whole` is zero.
pub fn percent_of(part: u64, whole: u64) -> (r: Option<u128>)
    ensures
        whole == 0 <==> r is None,
        r is Some ==> r->0 as int == (part as int * 100) / (whole as int),
{
    if whole == 0 {
        None
    } else {
        Some((part as u128) * 100 / (whole as u128))
    }
}

} // verus!
