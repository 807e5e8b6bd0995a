//! The benchmark registry and its validation.

use itertools::Itertools;
use vstd::prelude::*;
use vstd::string::*;

verus! {

/// How the instruction count of a benchmark is reported.
pub enum ReportingMode {
    /// The benchmark is not mentioned in the results.
    Hidden,
    /// All instructions are reported.
    AllInstructions,
    /// All instructions are reported, after subtracting those of the named
    /// setup benchmark (which may itself be hidden).
    AllInstructionsExceptSetup(String),
}

/// The mathematical model of a [`ReportingMode`].
pub ghost enum ModeModel {
    Hidden,
    All,
    ExceptSetup(Seq<char>),
}

impl View for ReportingMode {
    type V = ModeModel;

    open spec fn view(&self) -> ModeModel {
        match self {
            ReportingMode::Hidden => ModeModel::Hidden,
            ReportingMode::AllInstructions => ModeModel::All,
            ReportingMode::AllInstructionsExceptSetup(s) => ModeModel::ExceptSetup(s@),
        }
    }
}

/// The mathematical model of a [`Benchmark`]: its name and reporting mode.
pub ghost struct BenchmarkModel {
    pub name: Seq<char>,
    pub mode: ModeModel,
}

/// A named callable together with the way its count is reported.
pub struct Benchmark<F> {
    /// The name of the benchmark, as shown in the results
    name: String,
    /// The function that is run as part of the benchmark
    function: F,
    /// The way instructions are reported for this benchmark
    reporting_mode: ReportingMode,
}

impl<F> View for Benchmark<F> {
    type V = BenchmarkModel;

    closed spec fn view(&self) -> BenchmarkModel {
        BenchmarkModel { name: self.name@, mode: self.reporting_mode@ }
    }
}

impl<F: Fn()> Benchmark<F> {
    /// The callable that the benchmark runs.
    pub closed spec fn callable(&self) -> F {
        self.function
    }

    /// Registers `function` under `name`; all its instructions are reported.
    pub fn new(name: String, function: F) -> (r: Self)
        ensures
            r@ == (BenchmarkModel { name: name@, mode: ModeModel::All }),
            r.callable() == function,
    {
        Benchmark { name, function, reporting_mode: ReportingMode::AllInstructions }
    }

    /// The same benchmark, left out of the results.
    pub fn hidden(self) -> (r: Self)
        ensures
            r@ == (BenchmarkModel { name: self@.name, mode: ModeModel::Hidden }),
            r.callable() == self.callable(),
    {
        Benchmark { name: self.name, function: self.function, reporting_mode: ReportingMode::Hidden }
    }

    /// The same benchmark, reported net of the setup benchmark called `name`.
    pub fn exclude_setup_instructions(self, name: String) -> (r: Self)
        ensures
            r@ == (BenchmarkModel { name: self@.name, mode: ModeModel::ExceptSetup(name@) }),
            r.callable() == self.callable(),
    {
        Benchmark {
            name: self.name,
            function: self.function,
            reporting_mode: ReportingMode::AllInstructionsExceptSetup(name),
        }
    }

    pub fn name(&self) -> (r: &str)
        ensures
            r@ == self@.name,
    {
        self.name.as_str()
    }

    /// Runs the benchmark's callable once.
    pub fn run(&self)
        requires
            self.callable().requires(()),
        ensures
            self.callable().ensures((), ()),
    {
        (self.function)()
    }

    pub fn reporting_mode(&self) -> (r: &ReportingMode)
        ensures
            r@ == self@.mode,
    {
        &self.reporting_mode
    }
}


/// The models of a registry's benchmarks, in registration order.
pub open spec fn models_of<F>(benchmarks: Seq<Benchmark<F>>) -> Seq<BenchmarkModel> {
    benchmarks.map_values(|b: Benchmark<F>| b@)
}

/// The names of the benchmarks, in registration order.
pub open spec fn names_of(models: Seq<BenchmarkModel>) -> Seq<Seq<char>> {
    models.map_values(|b: BenchmarkModel| b.name)
}

/// The views of a sequence of strings.
pub open spec fn views_of(v: Seq<String>) -> Seq<Seq<char>> {
    v.map_values(|s: String| s@)
}

/// How many times `x` occurs in `s`.
pub open spec fn count_of(s: Seq<Seq<char>>, x: Seq<char>) -> nat
    decreases s.len(),
{
    if s.len() == 0 {
        0
    } else {
        count_of(s.drop_last(), x) + if s.last() == x {
            1nat
        } else {
            0nat
        }
    }
}

/// The items of `s` that occur more than once, each taken at its second
/// occurrence, in the order of those occurrences.
pub open spec fn duplicates_of(s: Seq<Seq<char>>) -> Seq<Seq<char>>
    decreases s.len(),
{
    if s.len() == 0 {
        seq![]
    } else {
        let rest = duplicates_of(s.drop_last());
        if count_of(s.drop_last(), s.last()) == 1 {
            rest.push(s.last())
        } else {
            rest
        }
    }
}

/// Some benchmark is reported net of a setup benchmark called `name`.
pub open spec fn references(models: Seq<BenchmarkModel>, name: Seq<char>) -> bool {
    exists|i: int| 0 <= i < models.len() && #[trigger] models[i].mode == ModeModel::ExceptSetup(name)
}

/// `name` is referenced as a setup benchmark, but no benchmark has that name.
pub open spec fn is_dangling(models: Seq<BenchmarkModel>, name: Seq<char>) -> bool {
    references(models, name) && !names_of(models).contains(name)
}

/// No name is registered twice, and every setup reference names a benchmark.
pub open spec fn valid_registry(models: Seq<BenchmarkModel>) -> bool {
    &&& names_of(models).no_duplicates()
    &&& forall|name: Seq<char>| !#[trigger] is_dangling(models, name)
}

/// Why a registry is refused: all its duplicate names and all its dangling
/// setup names, at least one of the two lists not empty.
pub struct ValidationError {
    /// The names that are registered more than once, each listed once.
    pub duplicate_names: Vec<String>,
    /// The setup names that are referenced but not registered, each listed once.
    pub undefined_names: Vec<String>,
}

/// `e` is what validation reports for a registry: every duplicate name, each
/// once, in the order of their second registration; and the set of dangling
/// setup names, each once.
pub open spec fn validation_explained(models: Seq<BenchmarkModel>, e: ValidationError) -> bool {
    &&& views_of(e.duplicate_names@) == duplicates_of(names_of(models))
    &&& views_of(e.undefined_names@).no_duplicates()
    &&& forall|name: Seq<char>| #[trigger]
        views_of(e.undefined_names@).contains(name) <==> is_dangling(models, name)
}

/// The names of `names`, separated by `, `.
pub open spec fn joined(names: Seq<Seq<char>>) -> Seq<char>
    decreases names.len(),
{
    if names.len() == 0 {
        seq![]
    } else if names.len() == 1 {
        names[0]
    } else {
        joined(names.drop_last()) + ", "@ + names.last()
    }
}

/// The names of `names`, separated by `, `.
fn join_names(names: &Vec<String>) -> (r: String)
    ensures
        r@ == joined(views_of(names@)),
{
    let mut r = String::new();
    for i in 0..names.len()
        invariant
            r@ == joined(views_of(names@).subrange(0, i as int)),
    {
        let ghost before = views_of(names@).subrange(0, i as int);
        proof {
            assert(views_of(names@).subrange(0, i + 1).drop_last() =~= before);
        }
        if i > 0 {
            r.append(", ");
        }
        r.append(names[i].as_str());
        proof {
            if i == 0 {
                assert(r@ =~= views_of(names@).subrange(0, 1)[0]);
            }
        }
    }
    assert(views_of(names@).subrange(0, names@.len() as int) =~= views_of(names@));
    r
}

/// The message of a refused registry with these duplicate and dangling names:
/// one sentence for each list that is not empty, separated by `; `.
pub open spec fn validation_message(duplicate: Seq<Seq<char>>, undefined: Seq<Seq<char>>) -> Seq<char> {
    let first = if duplicate.len() > 0 {
        "The following benchmarks are defined multiple times: "@ + joined(duplicate)
    } else {
        seq![]
    };
    let separator = if duplicate.len() > 0 && undefined.len() > 0 {
        "; "@
    } else {
        seq![]
    };
    let second = if undefined.len() > 0 {
        "The following benchmark names are referenced, but have no corresponding benchmarks: "@
            + joined(undefined)
    } else {
        seq![]
    };
    first + separator + second
}

impl ValidationError {
    /// The message that names every offending benchmark.
    pub fn message(&self) -> (r: String)
        ensures
            r@ == validation_message(views_of(self.duplicate_names@), views_of(self.undefined_names@)),
    {
        let ghost d = views_of(self.duplicate_names@);
        let ghost u = views_of(self.undefined_names@);
        let mut r = String::new();
        if self.duplicate_names.len() > 0 {
            r.append("The following benchmarks are defined multiple times: ");
            let names = join_names(&self.duplicate_names);
            r.append(names.as_str());
        }
        if self.duplicate_names.len() > 0 && self.undefined_names.len() > 0 {
            r.append("; ");
        }
        if self.undefined_names.len() > 0 {
            r.append(
                "The following benchmark names are referenced, but have no corresponding benchmarks: ",
            );
            let names = join_names(&self.undefined_names);
            r.append(names.as_str());
        }
        assert(r@ =~= validation_message(d, u));
        r
    }
}

/// Relies on `itertools::Itertools::duplicates`: it yields each item that occurs
/// more than once, exactly once, at its second occurrence, in input order.
#[verifier::external_body]
fn duplicates(names: &Vec<String>) -> (r: Vec<String>)
    ensures
        views_of(r@) == duplicates_of(views_of(names@)),
{
    names.iter().duplicates().cloned().collect()
}

proof fn lemma_count_push(s: Seq<Seq<char>>, y: Seq<char>, x: Seq<char>)
    ensures
        count_of(s.push(y), x) == count_of(s, x) + if y == x {
            1nat
        } else {
            0nat
        },
{
    assert(s.push(y).drop_last() =~= s);
}

proof fn lemma_count_contains(s: Seq<Seq<char>>, x: Seq<char>)
    ensures
        count_of(s, x) > 0 <==> s.contains(x),
    decreases s.len(),
{
    if s.len() > 0 {
        let p = s.drop_last();
        lemma_count_contains(p, x);
        assert(s =~= p.push(s.last()));
        if p.contains(x) {
            let j = choose|j: int| 0 <= j < p.len() && p[j] == x;
            assert(s[j] == x);
        }
        if s.contains(x) && s.last() != x {
            let j = choose|j: int| 0 <= j < s.len() && s[j] == x;
            assert(p[j] == x);
        }
    }
}

proof fn lemma_count_duplicates(s: Seq<Seq<char>>, x: Seq<char>)
    ensures
        count_of(duplicates_of(s), x) == if count_of(s, x) >= 2 {
            1nat
        } else {
            0nat
        },
    decreases s.len(),
{
    if s.len() > 0 {
        let p = s.drop_last();
        let y = s.last();
        lemma_count_duplicates(p, x);
        assert(s =~= p.push(y));
        lemma_count_push(p, y, x);
        lemma_count_push(duplicates_of(p), y, x);
    }
}

proof fn lemma_no_duplicates_count(s: Seq<Seq<char>>)
    ensures
        s.no_duplicates() <==> forall|x: Seq<char>| #[trigger] count_of(s, x) <= 1,
    decreases s.len(),
{
    if s.len() > 0 {
        let p = s.drop_last();
        let y = s.last();
        lemma_no_duplicates_count(p);
        assert(s =~= p.push(y));
        lemma_count_contains(p, y);
        assert forall|x: Seq<char>| #[trigger] count_of(s, x) == count_of(p, x) + if y == x {
            1nat
        } else {
            0nat
        } by {
            lemma_count_push(p, y, x);
        }
        if s.no_duplicates() {
            assert(p.no_duplicates()) by {
                assert forall|i: int, j: int| 0 <= i < p.len() && 0 <= j < p.len() && i != j implies p[i] != p[j] by {
                    assert(s[i] == p[i] && s[j] == p[j]);
                }
            }
            if p.contains(y) {
                let j = choose|j: int| 0 <= j < p.len() && p[j] == y;
                assert(s[j] == s[s.len() - 1]);
            }
        }
        if forall|x: Seq<char>| #[trigger] count_of(s, x) <= 1 {
            assert(count_of(s, y) <= 1);
            assert forall|x: Seq<char>| #[trigger] count_of(p, x) <= 1 by {
                assert(count_of(s, x) <= 1);
            }
            assert forall|i: int, j: int| 0 <= i < s.len() && 0 <= j < s.len() && i != j implies s[i] != s[j] by {
                if i < p.len() && j < p.len() {
                    assert(s[i] == p[i] && s[j] == p[j]);
                } else if i < p.len() {
                    assert(s[i] == p[i]);
                    assert(p.contains(p[i]));
                } else {
                    assert(s[j] == p[j]);
                    assert(p.contains(p[j]));
                }
            }
        }
    }
}

/// A registry has a duplicate name exactly when the duplicates reported for its
/// names are not empty.
proof fn lemma_duplicates_empty(s: Seq<Seq<char>>)
    ensures
        duplicates_of(s).len() == 0 <==> s.no_duplicates(),
{
    lemma_no_duplicates_count(s);
    if duplicates_of(s).len() == 0 {
        assert forall|x: Seq<char>| #[trigger] count_of(s, x) <= 1 by {
            lemma_count_duplicates(s, x);
            lemma_count_contains(duplicates_of(s), x);
        }
    } else {
        let x = duplicates_of(s)[0];
        assert(duplicates_of(s).contains(x));
        lemma_count_contains(duplicates_of(s), x);
        lemma_count_duplicates(s, x);
    }
}

/// A name registered more than once is listed exactly once among the
/// duplicates that validation reports.
pub proof fn duplicate_listed_once(names: Seq<Seq<char>>, x: Seq<char>)
    requires
        count_of(names, x) > 1,
    ensures
        count_of(duplicates_of(names), x) == 1,
{
    lemma_count_duplicates(names, x);
}

/// The names of `benchmarks`, in registration order.
fn collect_names<F: Fn()>(benchmarks: &[Benchmark<F>]) -> (r: Vec<String>)
    ensures
        views_of(r@) == names_of(models_of(benchmarks@)),
{
    let mut r: Vec<String> = Vec::new();
    for i in 0..benchmarks.len()
        invariant
            r@.len() == i,
            forall|k: int| 0 <= k < i ==> #[trigger] r@[k]@ == benchmarks@[k]@.name,
    {
        r.push(benchmarks[i].name.clone());
    }
    assert(views_of(r@) =~= names_of(models_of(benchmarks@)));
    r
}

/// Whether `names` holds a string equal to `s`.
fn contains_name(names: &Vec<String>, s: &String) -> (r: bool)
    ensures
        r == views_of(names@).contains(s@),
{
    for i in 0..names.len()
        invariant
            forall|k: int| 0 <= k < i ==> names@[k]@ != s@,
    {
        if names[i] == *s {
            assert(views_of(names@)[i as int] == s@);
            return true;
        }
    }
    proof {
        if views_of(names@).contains(s@) {
            let k = choose|k: int| 0 <= k < views_of(names@).len() && views_of(names@)[k] == s@;
            assert(names@[k]@ == s@);
        }
    }
    false
}

/// Checks a registry before anything is measured: no name may be registered
/// twice, and every setup reference must name a registered benchmark. A
/// refused registry is reported with every duplicate name and every dangling
/// setup name, each once.
pub fn validate<F: Fn()>(benchmarks: &[Benchmark<F>]) -> (r: Result<(), ValidationError>)
    ensures
        r is Ok <==> valid_registry(models_of(benchmarks@)),
        r matches Err(e) ==> validation_explained(models_of(benchmarks@), e),
        forall|x: Seq<char>| #[trigger]
            count_of(names_of(models_of(benchmarks@)), x) > 1 ==> (r matches Err(e) && count_of(
                views_of(e.duplicate_names@),
                x,
            ) == 1),
        forall|name: Seq<char>| #[trigger]
            is_dangling(models_of(benchmarks@), name) ==> (r matches Err(e) && views_of(
                e.undefined_names@,
            ).contains(name)),
{
    let ghost models = models_of(benchmarks@);
    let names = collect_names(benchmarks);
    let duplicate_names = duplicates(&names);
    proof {
        lemma_duplicates_empty(names_of(models));
        lemma_no_duplicates_count(names_of(models));
        assert forall|x: Seq<char>| #[trigger] count_of(names_of(models), x) > 1 implies count_of(
            duplicates_of(names_of(models)),
            x,
        ) == 1 by {
            duplicate_listed_once(names_of(models), x);
        }
    }
    let mut undefined: Vec<String> = Vec::new();
    for i in 0..benchmarks.len()
        invariant
            models == models_of(benchmarks@),
            views_of(names@) == names_of(models),
            views_of(undefined@).no_duplicates(),
            forall|name: Seq<char>| #[trigger] views_of(undefined@).contains(name) <==> {
                &&& !names_of(models).contains(name)
                &&& exists|k: int| 0 <= k < i && #[trigger] models[k].mode == ModeModel::ExceptSetup(name)
            },
    {
        let ghost before = undefined@;
        if let ReportingMode::AllInstructionsExceptSetup(setup) = &benchmarks[i].reporting_mode {
            assert(models[i as int].mode == ModeModel::ExceptSetup(setup@));
            if !contains_name(&names, setup) && !contains_name(&undefined, setup) {
                undefined.push(setup.clone());
                assert(views_of(undefined@) =~= views_of(before).push(setup@));
                assert forall|name: Seq<char>| #[trigger] views_of(undefined@).contains(name) <==> {
                    &&& !names_of(models).contains(name)
                    &&& exists|k: int| 0 <= k < i + 1 && #[trigger] models[k].mode == ModeModel::ExceptSetup(name)
                } by {
                    if views_of(undefined@).contains(name) && name != setup@ {
                        let j = choose|j: int| 0 <= j < views_of(undefined@).len() && views_of(undefined@)[j] == name;
                        assert(views_of(before)[j] == name);
                    }
                    if name == setup@ {
                        assert(views_of(undefined@)[before.len() as int] == name);
                        assert(models[i as int].mode == ModeModel::ExceptSetup(name));
                    }
                    if views_of(before).contains(name) {
                        let k = choose|k: int| 0 <= k < i && #[trigger] models[k].mode == ModeModel::ExceptSetup(name);
                        assert(0 <= k < i + 1);
                    }
                    if !names_of(models).contains(name) && name != setup@ && (exists|k: int| 0 <= k < i + 1 && #[trigger] models[k].mode == ModeModel::ExceptSetup(name)) {
                        assert(views_of(before).contains(name));
                        let j = choose|j: int| 0 <= j < views_of(before).len() && views_of(before)[j] == name;
                        assert(views_of(undefined@)[j] == name);
                    }
                }
            } else {
                assert forall|name: Seq<char>| #[trigger] views_of(undefined@).contains(name) <==> {
                    &&& !names_of(models).contains(name)
                    &&& exists|k: int| 0 <= k < i + 1 && #[trigger] models[k].mode == ModeModel::ExceptSetup(name)
                } by {
                    if !names_of(models).contains(name) && (exists|k: int| 0 <= k < i + 1 && #[trigger] models[k].mode == ModeModel::ExceptSetup(name)) && name != setup@ {
                        let k = choose|k: int| 0 <= k < i + 1 && #[trigger] models[k].mode == ModeModel::ExceptSetup(name);
                        assert(k < i);
                    }
                }
            }
        } else {
            assert forall|name: Seq<char>| #[trigger] views_of(undefined@).contains(name) <==> {
                &&& !names_of(models).contains(name)
                &&& exists|k: int| 0 <= k < i + 1 && #[trigger] models[k].mode == ModeModel::ExceptSetup(name)
            } by {
                if exists|k: int| 0 <= k < i + 1 && #[trigger] models[k].mode == ModeModel::ExceptSetup(name) {
                    let k = choose|k: int| 0 <= k < i + 1 && #[trigger] models[k].mode == ModeModel::ExceptSetup(name);
                    assert(k < i);
                }
            }
        }
    }
    proof {
        if undefined.len() > 0 {
            let name = views_of(undefined@)[0];
            assert(views_of(undefined@).contains(name));
            assert(is_dangling(models, name));
        } else {
            assert forall|name: Seq<char>| !#[trigger] is_dangling(models, name) by {
                if is_dangling(models, name) {
                    assert(views_of(undefined@).contains(name));
                }
            }
        }
    }
    if duplicate_names.len() > 0 || undefined.len() > 0 {
        return Err(ValidationError { duplicate_names, undefined_names: undefined });
    }
    Ok(())
}

} // verus!
