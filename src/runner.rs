//! Dispatch of a child invocation, and the decisions of a top-level run.
//!
//! A top-level run validates the registry, probes the profiler, measures an
//! empty child run for calibration, measures every benchmark in a child run of
//! its own, and reports the adjusted counts in registration order. The caller
//! performs each measurement that [`next_step`] asks for and hands back its
//! result as a [`RunEvent`].

use crate::benchmark::{
    is_dangling, models_of, names_of, references, validate, valid_registry, validation_explained, Benchmark, BenchmarkModel, ModeModel,
    ReportingMode, ValidationError,
};
use vstd::prelude::*;
use vstd::string::*;

verus! {

/// The argument that marks a child invocation; the next one is the index.
pub open spec fn bench_run_flag() -> Seq<char> {
    "--bench-run"@
}

pub open spec fn is_char_digit(c: char) -> bool {
    '0' <= c && c <= '9'
}

pub open spec fn all_char_digits(d: Seq<char>) -> bool {
    forall|i: int| 0 <= i < d.len() ==> is_char_digit(#[trigger] d[i])
}

/// The number that a sequence of decimal digits denotes.
pub open spec fn char_digits_value(d: Seq<char>) -> nat
    decreases d.len(),
{
    if d.len() == 0 {
        0
    } else {
        char_digits_value(d.drop_last()) * 10 + (d.last() as int - '0' as int) as nat
    }
}

/// The signed decimal number that `t` spells: an optional `+` or `-`, then at
/// least one digit, with a value in the range of `isize`.
pub open spec fn isize_of_text(t: Seq<char>) -> Option<isize> {
    let signed = t.len() > 0 && (t[0] == '+' || t[0] == '-');
    let d = if signed {
        t.drop_first()
    } else {
        t
    };
    let v: int = if signed && t[0] == '-' {
        -char_digits_value(d)
    } else {
        char_digits_value(d) as int
    };
    if d.len() > 0 && all_char_digits(d) && isize::MIN <= v <= isize::MAX {
        Some(v as isize)
    } else {
        None
    }
}

proof fn lemma_char_digits_step(s: Seq<char>, a: int, i: int)
    requires
        0 <= a <= i < s.len(),
    ensures
        char_digits_value(s.subrange(a, i + 1)) == char_digits_value(s.subrange(a, i)) * 10 + (
        s[i] as int - '0' as int) as nat,
{
    assert(s.subrange(a, i + 1).drop_last() =~= s.subrange(a, i));
}

proof fn lemma_char_digits_monotone(d: Seq<char>, j: int, k: int)
    requires
        0 <= j <= k <= d.len(),
        all_char_digits(d),
    ensures
        char_digits_value(d.subrange(0, j)) <= char_digits_value(d.subrange(0, k)),
    decreases k - j,
{
    if j < k {
        lemma_char_digits_monotone(d, j, k - 1);
        assert(d.subrange(0, k).drop_last() =~= d.subrange(0, k - 1));
    }
}

/// Reads a signed decimal number, as a child's index argument is written.
pub fn parse_index(s: &str) -> (r: Option<isize>)
    ensures
        r == isize_of_text(s@),
{
    let n = s.unicode_len();
    let ghost t = s@;
    let mut i: usize = 0;
    let mut negative = false;
    if n > 0 {
        let c = s.get_char(0);
        if c == '+' || c == '-' {
            negative = c == '-';
            i = 1;
        }
    }
    let start = i;
    let ghost d = t.subrange(start as int, n as int);
    assert(d =~= if t.len() > 0 && (t[0] == '+' || t[0] == '-') { t.drop_first() } else { t });
    if i == n {
        return None;
    }
    let mut acc: isize = 0;
    while i < n
        invariant
            start <= i <= n,
            n == t.len(),
            t == s@,
            d == t.subrange(start as int, n as int),
            start == if t.len() > 0 && (t[0] == '+' || t[0] == '-') { 1int } else { 0int },
            negative == (t.len() > 0 && t[0] == '-'),
            d == (if t.len() > 0 && (t[0] == '+' || t[0] == '-') { t.drop_first() } else { t }),
            forall|k: int| start <= k < i ==> is_char_digit(#[trigger] t[k]),
            acc as int == if negative {
                -char_digits_value(t.subrange(start as int, i as int))
            } else {
                char_digits_value(t.subrange(start as int, i as int)) as int
            },
        decreases n - i,
    {
        let c = s.get_char(i);
        if c < '0' || c > '9' {
            assert(!is_char_digit(d[i - start]));
            assert(!all_char_digits(d));
            assert(isize_of_text(t) is None);
            return None;
        }
        let digit = (c as u32 - '0' as u32) as isize;
        proof {
            lemma_char_digits_step(t, start as int, i as int);
        }
        let next = match acc.checked_mul(10) {
            Some(m) => if negative {
                m.checked_sub(digit)
            } else {
                m.checked_add(digit)
            },
            None => None,
        };
        match next {
            Some(v) => {
                acc = v;
            },
            None => {
                proof {
                    let pv = char_digits_value(t.subrange(start as int, i + 1));
                    assert(pv == char_digits_value(t.subrange(start as int, i as int)) * 10 + digit);
                    if negative {
                        assert(-pv < isize::MIN);
                    } else {
                        assert(pv > isize::MAX);
                    }
                    if all_char_digits(d) {
                        assert(d.subrange(0, i + 1 - start) =~= t.subrange(start as int, i + 1));
                        assert(d.subrange(0, d.len() as int) =~= d);
                        lemma_char_digits_monotone(d, i + 1 - start, d.len() as int);
                    }
                    assert(isize_of_text(t) is None);
                }
                return None;
            },
        }
        i = i + 1;
    }
    assert(t.subrange(start as int, i as int) =~= d);
    Some(acc)
}

/// What this process is asked to do.
pub enum Invocation {
    /// Orchestrate a full run.
    TopLevel,
    /// Run the benchmark at this index, or nothing for the calibration index `-1`.
    Child(isize),
}

/// Tells a child invocation (`<exe> --bench-run <index>`, the index a signed
/// decimal number) from a top-level one (any other shape).
pub fn dispatch(args: &Vec<String>) -> (r: Invocation)
    ensures
        r == if args@.len() >= 3 && args@[1]@ == bench_run_flag() && isize_of_text(args@[2]@) is Some {
            Invocation::Child(isize_of_text(args@[2]@).unwrap())
        } else {
            Invocation::TopLevel
        },
{
    if args.len() < 3 {
        return Invocation::TopLevel;
    }
    let flag = String::from_str("--bench-run");
    if args[1] != flag {
        return Invocation::TopLevel;
    }
    match parse_index(args[2].as_str()) {
        Some(index) => Invocation::Child(index),
        None => Invocation::TopLevel,
    }
}

/// Why a child invocation cannot run.
pub enum DispatchError {
    /// The index is neither `-1` nor the position of a registered benchmark.
    IndexOutOfRange(isize),
}

/// The index that asks a child to run nothing, for calibration.
pub const CALIBRATION_INDEX: isize = -1;

/// Runs the benchmark at `index` and returns that index; for the calibration
/// index `-1` it runs nothing and returns `None`.
pub fn run_single<F: Fn()>(index: isize, benchmarks: &[Benchmark<F>]) -> (r: Result<
    Option<usize>,
    DispatchError,
>)
    requires
        forall|i: int| 0 <= i < benchmarks@.len() ==> (#[trigger] benchmarks@[i]).callable().requires(()),
    ensures
        index == -1 ==> r == Ok::<Option<usize>, DispatchError>(None),
        0 <= index < benchmarks@.len() ==> r == Ok::<Option<usize>, DispatchError>(Some(index as usize))
            && benchmarks@[index as int].callable().ensures((), ()),
        (index < -1 || index >= benchmarks@.len()) ==> r == Err::<Option<usize>, DispatchError>(
            DispatchError::IndexOutOfRange(index),
        ),
{
    if index == CALIBRATION_INDEX {
        return Ok(None);
    }
    if index < 0 || index as usize >= benchmarks.len() {
        return Err(DispatchError::IndexOutOfRange(index));
    }
    let i = index as usize;
    benchmarks[i].run();
    Ok(Some(i))
}

/// One line of the final report: `<count> : <name>`.
pub struct ReportLine {
    pub count: u64,
    pub name: String,
}

/// The report lines as pairs of a count and a name.
pub open spec fn lines_view(lines: Seq<ReportLine>) -> Seq<(int, Seq<char>)> {
    lines.map_values(|l: ReportLine| (l.count as int, l.name@))
}

/// `j` is the first benchmark called `name`.
pub open spec fn first_named(models: Seq<BenchmarkModel>, name: Seq<char>, j: int) -> bool {
    &&& 0 <= j < models.len()
    &&& models[j].name == name
    &&& forall|k: int| 0 <= k < j ==> #[trigger] models[k].name != name
}

/// The position of the first benchmark called `name`.
pub open spec fn setup_position(models: Seq<BenchmarkModel>, name: Seq<char>) -> int {
    choose|j: int| first_named(models, name, j)
}

/// Benchmark `i` is reported net of a setup benchmark that is not registered,
/// or that counted more instructions than it did.
pub open spec fn setup_fault(models: Seq<BenchmarkModel>, raw: Seq<u64>, i: int) -> bool {
    match models[i].mode {
        ModeModel::ExceptSetup(name) => !names_of(models).contains(name) || raw[i] < raw[setup_position(
            models,
            name,
        )],
        _ => false,
    }
}

/// The report for the first `n` benchmarks: one line for each benchmark that
/// is not hidden, in registration order, with its count less the calibration,
/// and less the setup benchmark's count (itself less the calibration) where it
/// excludes a setup.
pub open spec fn visible_lines(
    models: Seq<BenchmarkModel>,
    calibration: u64,
    raw: Seq<u64>,
    n: int,
) -> Seq<(int, Seq<char>)>
    decreases n,
{
    if n <= 0 {
        seq![]
    } else {
        let i = n - 1;
        let before = visible_lines(models, calibration, raw, i);
        let adjusted = raw[i] - calibration;
        match models[i].mode {
            ModeModel::Hidden => before,
            ModeModel::All => before.push((adjusted, models[i].name)),
            ModeModel::ExceptSetup(name) => before.push(
                (adjusted - (raw[setup_position(models, name)] - calibration), models[i].name),
            ),
        }
    }
}

/// The names of the benchmarks among the first `n` that are not hidden, in
/// registration order.
pub open spec fn visible_names(models: Seq<BenchmarkModel>, n: int) -> Seq<Seq<char>> {
    models.subrange(0, n).filter(|b: BenchmarkModel| !(b.mode is Hidden)).map_values(
        |b: BenchmarkModel| b.name,
    )
}

/// The report lists the benchmarks that are not hidden, each once, in
/// registration order, whatever order their counts were measured in.
pub proof fn report_follows_registration(
    models: Seq<BenchmarkModel>,
    calibration: u64,
    raw: Seq<u64>,
    n: int,
)
    requires
        0 <= n <= models.len(),
    ensures
        visible_lines(models, calibration, raw, n).map_values(|l: (int, Seq<char>)| l.1)
            == visible_names(models, n),
    decreases n,
{
    reveal(Seq::filter);
    let pred = |b: BenchmarkModel| !(b.mode is Hidden);
    if n == 0 {
        assert(models.subrange(0, 0).filter(pred) =~= Seq::<BenchmarkModel>::empty());
        assert(visible_names(models, 0) =~= Seq::<Seq<char>>::empty());
        assert(visible_lines(models, calibration, raw, 0).map_values(|l: (int, Seq<char>)| l.1)
            =~= Seq::<Seq<char>>::empty());
    } else {
        report_follows_registration(models, calibration, raw, n - 1);
        let sub = models.subrange(0, n);
        assert(sub.drop_last() =~= models.subrange(0, n - 1));
        assert(sub.last() == models[n - 1]);
        let before = visible_lines(models, calibration, raw, n - 1);
        let now = visible_lines(models, calibration, raw, n);
        if models[n - 1].mode is Hidden {
            assert(sub.filter(pred) == models.subrange(0, n - 1).filter(pred));
            assert(now == before);
        } else {
            assert(sub.filter(pred) == models.subrange(0, n - 1).filter(pred).push(models[n - 1]));
            assert(now.map_values(|l: (int, Seq<char>)| l.1) =~= before.map_values(
                |l: (int, Seq<char>)| l.1,
            ).push(models[n - 1].name));
            assert(visible_names(models, n) =~= visible_names(models, n - 1).push(models[n - 1].name));
        }
    }
}

/// Every line of the report for the first `n` benchmarks bears the name of one
/// of them that is not hidden.
proof fn lemma_lines_named_by_visible(
    models: Seq<BenchmarkModel>,
    calibration: u64,
    raw: Seq<u64>,
    n: int,
)
    requires
        0 <= n <= models.len(),
    ensures
        forall|k: int|
            0 <= k < visible_lines(models, calibration, raw, n).len() ==> exists|j: int|
                0 <= j < n && !(models[j].mode is Hidden) && #[trigger] models[j].name == (
                #[trigger] visible_lines(models, calibration, raw, n)[k]).1,
    decreases n,
{
    if n > 0 {
        lemma_lines_named_by_visible(models, calibration, raw, n - 1);
        let before = visible_lines(models, calibration, raw, n - 1);
        let now = visible_lines(models, calibration, raw, n);
        assert forall|k: int| 0 <= k < now.len() implies exists|j: int|
            0 <= j < n && !(models[j].mode is Hidden) && #[trigger] models[j].name == (
            #[trigger] now[k]).1 by {
            if k < before.len() {
                assert(now[k] == before[k]);
                let j = choose|j: int|
                    0 <= j < n - 1 && !(models[j].mode is Hidden) && #[trigger] models[j].name == (
                    #[trigger] before[k]).1;
                assert(models[j].name == now[k].1);
            } else {
                assert(!(models[n - 1].mode is Hidden));
                assert(models[n - 1].name == now[k].1);
            }
        }
    }
}

/// In a registry without duplicate names, a hidden benchmark never appears in
/// the report.
pub proof fn hidden_never_reported(
    models: Seq<BenchmarkModel>,
    calibration: u64,
    raw: Seq<u64>,
    hidden: int,
)
    requires
        names_of(models).no_duplicates(),
        0 <= hidden < models.len(),
        models[hidden].mode is Hidden,
    ensures
        forall|k: int|
            0 <= k < visible_lines(models, calibration, raw, models.len() as int).len() ==> (
            #[trigger] visible_lines(models, calibration, raw, models.len() as int)[k]).1
                != models[hidden].name,
{
    let n = models.len() as int;
    lemma_lines_named_by_visible(models, calibration, raw, n);
    assert forall|k: int| 0 <= k < visible_lines(models, calibration, raw, n).len() implies (
    #[trigger] visible_lines(models, calibration, raw, n)[k]).1 != models[hidden].name by {
        let j = choose|j: int|
            0 <= j < n && !(models[j].mode is Hidden) && #[trigger] models[j].name == (
            #[trigger] visible_lines(models, calibration, raw, n)[k]).1;
        assert(names_of(models)[j] == models[j].name);
        assert(names_of(models)[hidden] == models[hidden].name);
    }
}

/// Why the measured counts cannot be reported.
pub enum ReportError {
    /// This benchmark counted fewer instructions than the calibration run.
    BelowCalibration { index: usize },
    /// This benchmark excludes a setup benchmark that is not registered.
    UnknownSetup { index: usize },
    /// This benchmark counted fewer instructions than its setup benchmark.
    BelowSetup { index: usize },
}

/// `r` is the report of the counts `raw` against the calibration count: the
/// first benchmark below the calibration fails it; otherwise the first
/// benchmark with a setup fault does; otherwise it lists the visible lines.
pub open spec fn report_explained(
    models: Seq<BenchmarkModel>,
    calibration: u64,
    raw: Seq<u64>,
    r: Result<Vec<ReportLine>, ReportError>,
) -> bool {
    let n = models.len() as int;
    let below = exists|i: int| 0 <= i < n && raw[i] < calibration;
    let faulty = exists|i: int| 0 <= i < n && setup_fault(models, raw, i);
    match r {
        Ok(lines) => !below && !faulty && lines_view(lines@) == visible_lines(models, calibration, raw, n),
        Err(ReportError::BelowCalibration { index }) => {
            &&& index < n
            &&& raw[index as int] < calibration
            &&& forall|k: int| 0 <= k < index ==> raw[k] >= calibration
        },
        Err(ReportError::UnknownSetup { index }) => {
            &&& !below
            &&& index < n
            &&& setup_fault(models, raw, index as int)
            &&& forall|k: int| 0 <= k < index ==> !setup_fault(models, raw, k)
            &&& models[index as int].mode matches ModeModel::ExceptSetup(name) && !names_of(models).contains(name)
        },
        Err(ReportError::BelowSetup { index }) => {
            &&& !below
            &&& index < n
            &&& setup_fault(models, raw, index as int)
            &&& forall|k: int| 0 <= k < index ==> !setup_fault(models, raw, k)
            &&& models[index as int].mode matches ModeModel::ExceptSetup(name) && names_of(models).contains(name)
        },
    }
}

/// Benchmark `i` counted at least as many instructions as its setup benchmark,
/// where it excludes one.
pub open spec fn covers_setup(models: Seq<BenchmarkModel>, raw: Seq<u64>, i: int) -> bool {
    match models[i].mode {
        ModeModel::ExceptSetup(name) => raw[i] >= raw[setup_position(models, name)],
        _ => true,
    }
}

/// For a valid registry whose counts are none below the calibration count and
/// none below their setup's count, the report succeeds. It lists exactly the
/// benchmarks that are not hidden, in registration order, whatever order they
/// were measured in; no hidden benchmark appears; and each line carries the
/// count less the calibration, less the setup's adjusted count where a setup
/// is excluded.
pub proof fn sound_counts_are_reported(
    models: Seq<BenchmarkModel>,
    calibration: u64,
    raw: Seq<u64>,
    r: Result<Vec<ReportLine>, ReportError>,
)
    requires
        valid_registry(models),
        raw.len() == models.len(),
        forall|i: int| 0 <= i < models.len() ==> #[trigger] raw[i] >= calibration,
        forall|i: int| 0 <= i < models.len() ==> #[trigger] covers_setup(models, raw, i),
        report_explained(models, calibration, raw, r),
    ensures
        r is Ok,
        lines_view(r->Ok_0@) == visible_lines(models, calibration, raw, models.len() as int),
        lines_view(r->Ok_0@).map_values(|l: (int, Seq<char>)| l.1) == visible_names(
            models,
            models.len() as int,
        ),
        forall|h: int, k: int|
            0 <= h < models.len() && models[h].mode is Hidden && 0 <= k < lines_view(r->Ok_0@).len()
                ==> #[trigger] lines_view(r->Ok_0@)[k].1 != #[trigger] models[h].name,
{
    let n = models.len() as int;
    assert forall|i: int| 0 <= i < n implies !#[trigger] setup_fault(models, raw, i) by {
        assert(covers_setup(models, raw, i));
        if let ModeModel::ExceptSetup(name) = models[i].mode {
            assert(references(models, name));
            assert(!is_dangling(models, name));
        }
    }
    match r {
        Ok(_) => {},
        Err(ReportError::BelowCalibration { index }) => {
            assert(raw[index as int] >= calibration);
        },
        Err(ReportError::UnknownSetup { index }) => {
            assert(!setup_fault(models, raw, index as int));
        },
        Err(ReportError::BelowSetup { index }) => {
            assert(!setup_fault(models, raw, index as int));
        },
    }
    report_follows_registration(models, calibration, raw, n);
    assert forall|h: int, k: int|
        0 <= h < n && models[h].mode is Hidden && 0 <= k < lines_view(r->Ok_0@).len()
            implies #[trigger] lines_view(r->Ok_0@)[k].1 != #[trigger] models[h].name by {
        hidden_never_reported(models, calibration, raw, h);
    }
}

/// The report is determined by the registry and the measured counts: two runs
/// that measure the same counts report the same lines, or fail alike.
pub proof fn report_determined_by_counts(
    models: Seq<BenchmarkModel>,
    calibration: u64,
    raw: Seq<u64>,
    first: Result<Vec<ReportLine>, ReportError>,
    second: Result<Vec<ReportLine>, ReportError>,
)
    requires
        report_explained(models, calibration, raw, first),
        report_explained(models, calibration, raw, second),
    ensures
        first is Ok <==> second is Ok,
        first is Ok && second is Ok ==> lines_view(first->Ok_0@) == lines_view(second->Ok_0@),
        first is Err && second is Err ==> first->Err_0 == second->Err_0,
{
    let n = models.len() as int;
    if first is Err && second is Err {
        let a = first->Err_0;
        let b = second->Err_0;
        match (a, b) {
            (ReportError::BelowCalibration { index: i }, ReportError::BelowCalibration { index: j }) => {
                if i < j {
                    assert(raw[i as int] >= calibration);
                } else if j < i {
                    assert(raw[j as int] >= calibration);
                }
            },
            (ReportError::UnknownSetup { index: i }, ReportError::UnknownSetup { index: j })
            | (ReportError::BelowSetup { index: i }, ReportError::BelowSetup { index: j })
            | (ReportError::UnknownSetup { index: i }, ReportError::BelowSetup { index: j })
            | (ReportError::BelowSetup { index: i }, ReportError::UnknownSetup { index: j }) => {
                if i < j {
                    assert(!setup_fault(models, raw, i as int));
                } else if j < i {
                    assert(!setup_fault(models, raw, j as int));
                }
            },
            (ReportError::BelowCalibration { index: i }, _) => {
                assert(0 <= i < n && raw[i as int] < calibration);
            },
            (_, ReportError::BelowCalibration { index: j }) => {
                assert(0 <= j < n && raw[j as int] < calibration);
            },
        }
    }
    if first is Ok && second is Err {
        match second->Err_0 {
            ReportError::BelowCalibration { index: j } => {
                assert(0 <= j < n && raw[j as int] < calibration);
            },
            ReportError::UnknownSetup { index: j } => {
                assert(setup_fault(models, raw, j as int));
            },
            ReportError::BelowSetup { index: j } => {
                assert(setup_fault(models, raw, j as int));
            },
        }
    }
    if first is Err && second is Ok {
        match first->Err_0 {
            ReportError::BelowCalibration { index: j } => {
                assert(0 <= j < n && raw[j as int] < calibration);
            },
            ReportError::UnknownSetup { index: j } => {
                assert(setup_fault(models, raw, j as int));
            },
            ReportError::BelowSetup { index: j } => {
                assert(setup_fault(models, raw, j as int));
            },
        }
    }
}

/// The position of the first benchmark called `name`, if any.
fn find_benchmark<F: Fn()>(benchmarks: &[Benchmark<F>], name: &str) -> (r: Option<usize>)
    ensures
        ({
            let models = models_of(benchmarks@);
            &&& r matches Some(j) ==> first_named(models, name@, j as int)
            &&& r is None ==> !names_of(models).contains(name@)
        }),
{
    let ghost models = models_of(benchmarks@);
    let target = String::from_str(name);
    for j in 0..benchmarks.len()
        invariant
            models == models_of(benchmarks@),
            target@ == name@,
            forall|k: int| 0 <= k < j ==> #[trigger] models[k].name != name@,
    {
        let candidate = String::from_str(benchmarks[j].name());
        if candidate == target {
            return Some(j);
        }
    }
    proof {
        if names_of(models).contains(name@) {
            let k = choose|k: int| 0 <= k < names_of(models).len() && names_of(models)[k] == name@;
            assert(models[k].name == name@);
        }
    }
    None
}

/// Turns the raw counts of the benchmarks (in registration order) into the
/// report: each count less the calibration count, less the setup benchmark's
/// adjusted count where the benchmark excludes a setup, hidden benchmarks left
/// out, in registration order.
pub fn report<F: Fn()>(benchmarks: &[Benchmark<F>], calibration: u64, raw: &Vec<u64>) -> (r: Result<
    Vec<ReportLine>,
    ReportError,
>)
    requires
        raw@.len() == benchmarks@.len(),
    ensures
        report_explained(models_of(benchmarks@), calibration, raw@, r),
{
    let ghost models = models_of(benchmarks@);
    let n = benchmarks.len();
    for i in 0..n
        invariant
            n == raw@.len(),
            n == benchmarks@.len(),
            forall|k: int| 0 <= k < i ==> raw@[k] >= calibration,
    {
        if raw[i] < calibration {
            return Err(ReportError::BelowCalibration { index: i });
        }
    }
    let mut lines: Vec<ReportLine> = Vec::new();
    for i in 0..n
        invariant
            n == raw@.len(),
            n == models.len(),
            models == models_of(benchmarks@),
            forall|k: int| 0 <= k < n ==> raw@[k] >= calibration,
            forall|k: int| 0 <= k < i ==> !setup_fault(models, raw@, k),
            lines_view(lines@) == visible_lines(models, calibration, raw@, i as int),
    {
        let ghost before = lines@;
        assert(models[i as int] == benchmarks@[i as int]@);
        match benchmarks[i].reporting_mode() {
            ReportingMode::Hidden => {},
            ReportingMode::AllInstructions => {
                lines.push(ReportLine { count: raw[i] - calibration, name: String::from_str(benchmarks[i].name()) });
                assert(lines_view(lines@) =~= lines_view(before).push(
                    ((raw@[i as int] - calibration) as int, models[i as int].name),
                ));
            },
            ReportingMode::AllInstructionsExceptSetup(setup) => {
                match find_benchmark(benchmarks, setup.as_str()) {
                    None => {
                        return Err(ReportError::UnknownSetup { index: i });
                    },
                    Some(j) => {
                        assert(first_named(models, setup@, j as int));
                        assert(setup_position(models, setup@) == j) by {
                            let c = setup_position(models, setup@);
                            assert(first_named(models, setup@, c));
                            if c < j {
                                assert(models[c].name != setup@);
                            }
                            if j < c {
                                assert(models[j as int].name != setup@);
                            }
                        }
                        assert(names_of(models)[j as int] == setup@);
                        if raw[i] < raw[j] {
                            return Err(ReportError::BelowSetup { index: i });
                        }
                        lines.push(
                            ReportLine {
                                count: (raw[i] - calibration) - (raw[j] - calibration),
                                name: String::from_str(benchmarks[i].name()),
                            },
                        );
                        assert(lines_view(lines@) =~= lines_view(before).push(
                            (
                                (raw@[i as int] - calibration) - (raw@[j as int] - calibration),
                                models[i as int].name,
                            ),
                        ));
                    },
                }
            },
        }
    }
    Ok(lines)
}

/// Why a top-level run stops without a report.
pub enum RunError {
    /// The registry was refused before anything was measured.
    Invalid(ValidationError),
    /// The measured counts cannot be reported.
    Report(ReportError),
    /// The number of measured counts differs from the number of benchmarks.
    CountMismatch,
    /// The event does not answer the step that was asked for.
    UnexpectedEvent,
}

/// What a top-level run asks its caller to do next.
pub enum RunStep {
    /// Find out whether the profiler can be run.
    ProbeProfiler,
    /// Measure a child invocation with the calibration index `-1`.
    MeasureCalibration,
    /// Measure a child invocation for every benchmark, by index.
    MeasureAll { calibration: u64 },
    /// Print these lines, in this order, and stop.
    Finish(Vec<ReportLine>),
    /// Stop with this error.
    Fail(RunError),
}

/// What the caller found when it did what a [`RunStep`] asked.
pub enum RunEvent {
    ProfilerProbed(bool),
    CalibrationMeasured(u64),
    /// The raw counts of the benchmarks, in registration order.
    AllMeasured(Vec<u64>),
}

/// The first step of a top-level run: the registry is validated before any
/// measurement.
pub fn start<F: Fn()>(benchmarks: &[Benchmark<F>]) -> (r: RunStep)
    ensures
        r is ProbeProfiler <==> valid_registry(models_of(benchmarks@)),
        !(r is ProbeProfiler) ==> (r matches RunStep::Fail(RunError::Invalid(e))
            && validation_explained(models_of(benchmarks@), e)),
{
    match validate(benchmarks) {
        Ok(()) => RunStep::ProbeProfiler,
        Err(e) => RunStep::Fail(RunError::Invalid(e)),
    }
}

/// The step that follows `step` once the caller reports `event`. Without the
/// profiler the run finishes with nothing to print.
pub fn next_step<F: Fn()>(benchmarks: &[Benchmark<F>], step: &RunStep, event: RunEvent) -> (r: RunStep)
    ensures
        ({
            let models = models_of(benchmarks@);
            match (*step, event) {
                (RunStep::ProbeProfiler, RunEvent::ProfilerProbed(true)) => r is MeasureCalibration,
                (RunStep::ProbeProfiler, RunEvent::ProfilerProbed(false)) => (r matches RunStep::Finish(
                    lines,
                ) && lines@.len() == 0),
                (RunStep::MeasureCalibration, RunEvent::CalibrationMeasured(c)) => r
                    == RunStep::MeasureAll { calibration: c },
                (RunStep::MeasureAll { calibration }, RunEvent::AllMeasured(raw)) => if raw@.len()
                    == models.len() {
                    ||| (r matches RunStep::Finish(lines) && report_explained(
                        models,
                        calibration,
                        raw@,
                        Ok(lines),
                    ))
                    ||| (r matches RunStep::Fail(RunError::Report(e)) && report_explained(
                        models,
                        calibration,
                        raw@,
                        Err(e),
                    ))
                } else {
                    r matches RunStep::Fail(RunError::CountMismatch)
                },
                _ => r matches RunStep::Fail(RunError::UnexpectedEvent),
            }
        }),
{
    match (step, event) {
        (RunStep::ProbeProfiler, RunEvent::ProfilerProbed(available)) => {
            if available {
                RunStep::MeasureCalibration
            } else {
                RunStep::Finish(Vec::new())
            }
        },
        (RunStep::MeasureCalibration, RunEvent::CalibrationMeasured(c)) => {
            RunStep::MeasureAll { calibration: c }
        },
        (RunStep::MeasureAll { calibration }, RunEvent::AllMeasured(raw)) => {
            if raw.len() != benchmarks.len() {
                RunStep::Fail(RunError::CountMismatch)
            } else {
                match report(benchmarks, *calibration, &raw) {
                    Ok(lines) => RunStep::Finish(lines),
                    Err(e) => RunStep::Fail(RunError::Report(e)),
                }
            }
        },
        _ => RunStep::Fail(RunError::UnexpectedEvent),
    }
}

} // verus!
