//! Metric bookkeeping: custom metric definitions and their checks, the
//! schedule on which each metric is refreshed, which refreshes a tick calls
//! for, and the structure of custom metric formulas.
//!
//! Metric values themselves are kept by the caller; this module decides when
//! and what to compute.

use vstd::prelude::*;
use crate::text::{
    contains_char, ends_with_char, has_prefix, joined, lemma_split_text_len, same_text, split_on,
    split_text,
    starts_with_text, trim_text, trimmed, views_of,
};
use crate::text_map::TextMap;

verus! {

/// A metric defined by a formula over other metrics.
#[derive(Debug, Clone)]
pub struct CustomMetric {
    pub name: String,
    pub formula: String,
    pub description: String,
    pub update_frequency: String,
}

/// Why a metric could not be defined or evaluated.
#[derive(Debug, Clone)]
pub enum MetricsError {
    FormulaParseError(String),
    EvaluationError(String),
    InvalidFrequency(String),
}

/// The meaning of a `MetricsError`.
pub enum MetricsFault {
    FormulaParse(Seq<char>),
    Evaluation(Seq<char>),
    InvalidFrequency(Seq<char>),
}

impl MetricsError {
    pub open spec fn fault(&self) -> MetricsFault {
        match self {
            MetricsError::FormulaParseError(m) => MetricsFault::FormulaParse(m@),
            MetricsError::EvaluationError(m) => MetricsFault::Evaluation(m@),
            MetricsError::InvalidFrequency(m) => MetricsFault::InvalidFrequency(m@),
        }
    }

    /// The text that the error displays.
    pub fn message(&self) -> (r: String)
        ensures
            r@ == metrics_fault_text(self.fault()),
    {
        match self {
            MetricsError::FormulaParseError(m) => joined("Formula parse error: ", m.as_str()),
            MetricsError::EvaluationError(m) => joined("Evaluation error: ", m.as_str()),
            MetricsError::InvalidFrequency(m) => joined("Invalid frequency: ", m.as_str()),
        }
    }
}

/// The text displayed for each kind of failure.
pub open spec fn metrics_fault_text(f: MetricsFault) -> Seq<char> {
    match f {
        MetricsFault::FormulaParse(m) => "Formula parse error: "@ + m,
        MetricsFault::Evaluation(m) => "Evaluation error: "@ + m,
        MetricsFault::InvalidFrequency(m) => "Invalid frequency: "@ + m,
    }
}

/// Whether `f` names one of the accepted update frequencies.
pub open spec fn is_known_frequency(f: Seq<char>) -> bool {
    f == "daily"@ || f == "monthly"@ || f == "yearly"@
}

/// What is wrong with a custom metric definition, if anything: a formula
/// that ends in `/` is malformed; otherwise the frequency must be known.
pub open spec fn custom_metric_fault(formula: Seq<char>, frequency: Seq<char>) -> Option<MetricsFault> {
    if formula.contains('/') && formula.len() > 0 && formula.last() == '/' {
        Some(MetricsFault::FormulaParse("Invalid formula syntax"@))
    } else if !is_known_frequency(frequency) {
        Some(MetricsFault::InvalidFrequency("Invalid update frequency: "@ + frequency))
    } else {
        None
    }
}

/// Checks a custom metric definition and hands it back when it is sound.
pub fn check_custom_metric(custom_metric: CustomMetric) -> (r: Result<CustomMetric, MetricsError>)
    ensures
        match custom_metric_fault(custom_metric.formula@, custom_metric.update_frequency@) {
            Some(f) => r matches Err(e) && e.fault() == f,
            None => r == Ok::<CustomMetric, MetricsError>(custom_metric),
        },
{
    let formula = custom_metric.formula.as_str();
    if contains_char(formula, '/') && ends_with_char(formula, '/') {
        return Err(MetricsError::FormulaParseError("Invalid formula syntax".to_owned()));
    }
    let frequency = custom_metric.update_frequency.as_str();
    if !(same_text(frequency, "daily") || same_text(frequency, "monthly") || same_text(
        frequency,
        "yearly",
    )) {
        return Err(
            MetricsError::InvalidFrequency(joined("Invalid update frequency: ", frequency)),
        );
    }
    Ok(custom_metric)
}

/// A custom metric definition is accepted exactly when its formula does not
/// end in `/` and its frequency is `daily`, `monthly` or `yearly`. A formula
/// ending in `/` is a formula error whatever the frequency; otherwise an
/// unknown frequency is reported with its text.
pub proof fn lemma_custom_metric_acceptance(formula: Seq<char>, frequency: Seq<char>)
    ensures
        custom_metric_fault(formula, frequency) is None <==> !(formula.len() > 0 && formula.last()
            == '/') && (frequency == "daily"@ || frequency == "monthly"@ || frequency
            == "yearly"@),
        formula.len() > 0 && formula.last() == '/' ==> custom_metric_fault(formula, frequency)
            == Some(MetricsFault::FormulaParse("Invalid formula syntax"@)),
        !(formula.len() > 0 && formula.last() == '/') && !(frequency == "daily"@ || frequency
            == "monthly"@ || frequency == "yearly"@) ==> custom_metric_fault(formula, frequency)
            == Some(MetricsFault::InvalidFrequency("Invalid update frequency: "@ + frequency)),
{
    if formula.len() > 0 && formula.last() == '/' {
        assert(formula[formula.len() - 1] == '/');
        assert(formula.contains('/'));
    }
}

/// The number of ticks between refreshes of a metric, decided by its name:
/// thirty for averages, a year of days for the birth rate, and every tick for
/// the rest. Custom metrics follow the same rule.
pub open spec fn update_interval(name: Seq<char>) -> int {
    if has_prefix(name, "average_"@) {
        30
    } else if name == "birth_rate"@ {
        365
    } else {
        1
    }
}

/// The number of ticks between refreshes of the metric `name`.
pub fn update_interval_of(name: &str) -> (r: i64)
    ensures
        r == update_interval(name@),
{
    if starts_with_text(name, "average_") {
        30
    } else if same_text(name, "birth_rate") {
        365
    } else {
        1
    }
}

/// The tick at which `name` was last refreshed; zero if never.
pub open spec fn last_update_in(m: Map<Seq<char>, i64>, name: Seq<char>) -> int {
    if m.contains_key(name) {
        m[name] as int
    } else {
        0
    }
}

/// Whether `name` is due at `tick`: the ticks since its last refresh are a
/// multiple of its interval.
pub open spec fn is_due(
    m: Map<Seq<char>, i64>,
    name: Seq<char>,
    tick: int,
) -> bool {
    (tick - last_update_in(m, name)) % update_interval(name) == 0
}

/// The names of the predefined metrics, in the order they are checked.
pub open spec fn predefined_names() -> Seq<Seq<char>> {
    seq![
        "population_count"@,
        "average_health"@,
        "average_happiness"@,
        "average_wealth"@,
        "birth_rate"@,
    ]
}

/// Goes through metric names in order, recording `tick` as the last refresh
/// of each one that is due; gives the new record and the positions of the
/// due ones.
pub open spec fn refresh_pass(
    m: Map<Seq<char>, i64>,
    names: Seq<Seq<char>>,
    tick: i64,
) -> (Map<Seq<char>, i64>, Seq<usize>)
    decreases names.len(),
{
    if names.len() == 0 {
        (m, Seq::empty())
    } else {
        let (m0, due) = refresh_pass(m, names.drop_last(), tick);
        if is_due(m0, names.last(), tick as int) {
            (m0.insert(names.last(), tick), due.push((names.len() - 1) as usize))
        } else {
            (m0, due)
        }
    }
}

/// Whether a metric is due repeats with its interval: it is due one interval
/// later exactly when it is due now.
pub proof fn lemma_due_is_periodic(
    m: Map<Seq<char>, i64>,
    name: Seq<char>,
    tick: int,
)
    ensures
        is_due(m, name, tick + update_interval(name)) == is_due(
            m,
            name,
            tick,
        ),
{
    let f = update_interval(name);
    let gap = tick - last_update_in(m, name);
    assert(tick + f - last_update_in(m, name) == f + gap);
    vstd::arithmetic::div_mod::lemma_mod_add_multiples_vanish(gap, f);
}

/// Metrics other than averages and the birth rate are due at every tick.
pub proof fn lemma_other_metrics_always_due(m: Map<Seq<char>, i64>, name: Seq<char>, tick: int)
    requires
        !has_prefix(name, "average_"@),
        name != "birth_rate"@,
    ensures
        is_due(m, name, tick),
{
    let gap = tick - last_update_in(m, name);
    assert(gap % 1 == 0) by (nonlinear_arith);
}

/// Right after a refresh at tick `t`, a metric is due at `t + k` exactly when
/// `k` is a multiple of its interval.
pub proof fn lemma_due_after_refresh(
    m: Map<Seq<char>, i64>,
    name: Seq<char>,
    t: i64,
    k: int,
)
    ensures
        is_due(m.insert(name, t), name, t + k) == (k % update_interval(name) == 0),
{
    assert(t + k - last_update_in(m.insert(name, t), name) == k);
}

/// Which metrics a pass refreshes does not depend on the order in which they
/// are gone through: exactly those that are due against the record before
/// the pass, and each of their names ends with `tick` as its last refresh
/// while every other name keeps its record.
pub proof fn lemma_refresh_pass(
    m: Map<Seq<char>, i64>,
    names: Seq<Seq<char>>,
    tick: i64,
)
    requires
        names.len() <= usize::MAX,
    ensures
        forall|k: int|
            0 <= k < refresh_pass(m, names, tick).1.len() ==> #[trigger] refresh_pass(
                m,
                names,
                tick,
            ).1[k] < names.len(),
        forall|j: int|
            0 <= j < names.len() ==> (refresh_pass(m, names, tick).1.contains(j as usize)
                <==> is_due(m, #[trigger] names[j], tick as int)),
        forall|x: Seq<char>|
            #[trigger] refresh_pass(m, names, tick).0.contains_key(x) == (m.contains_key(x)
                || (names.contains(x) && is_due(m, x, tick as int))),
        forall|x: Seq<char>|
            #[trigger] refresh_pass(m, names, tick).0.contains_key(x) ==> refresh_pass(
                m,
                names,
                tick,
            ).0[x] == if names.contains(x) && is_due(m, x, tick as int) {
                tick
            } else {
                m[x]
            },
    decreases names.len(),
{
    if names.len() > 0 {
        let init = names.drop_last();
        lemma_refresh_pass(m, init, tick);
        let m0 = refresh_pass(m, init, tick).0;
        let due0 = refresh_pass(m, init, tick).1;
        let n = names.last();
        let last_index = (names.len() - 1) as usize;
        assert forall|x: Seq<char>| #[trigger] names.contains(x) <==> (init.contains(x) || x == n) by {
            if names.contains(x) {
                let j = names.index_of(x);
                if j < init.len() {
                    assert(init[j] == x);
                }
            }
            if init.contains(x) {
                let j = init.index_of(x);
                assert(names[j] == x);
            }
            if x == n {
                assert(names[names.len() - 1] == x);
            }
        }
        assert(is_due(m0, n, tick as int) == is_due(m, n, tick as int)) by {
            if init.contains(n) && is_due(m, n, tick as int) {
                assert(refresh_pass(m, init, tick).0.contains_key(n));
                assert(m0[n] == tick);
                assert(0int % update_interval(n) == 0);
            } else {
                assert(refresh_pass(m, init, tick).0.contains_key(n) == m.contains_key(n));
                if m.contains_key(n) {
                    assert(m0[n] == m[n]);
                }
            }
        }
        assert forall|j: int| 0 <= j < names.len() implies (refresh_pass(
            m,
            names,
            tick,
        ).1.contains(j as usize) <==> is_due(m, #[trigger] names[j], tick as int)) by {
            if j < init.len() {
                assert(names[j] == init[j]);
                if is_due(m0, n, tick as int) {
                    let due = due0.push(last_index);
                    if due.contains(j as usize) {
                        let k = due.index_of(j as usize);
                        if k < due0.len() {
                            assert(due0[k] == due[k]);
                        }
                    }
                    if due0.contains(j as usize) {
                        let k = due0.index_of(j as usize);
                        assert(due[k] == j as usize);
                    }
                }
            } else {
                if is_due(m0, n, tick as int) {
                    let due = due0.push(last_index);
                    assert(due[due0.len() as int] == last_index);
                } else {
                    if due0.contains(last_index) {
                        let k = due0.index_of(last_index);
                        assert(due0[k] < init.len());
                    }
                }
            }
        }
        if is_due(m0, n, tick as int) {
            let due = due0.push(last_index);
            assert forall|k: int| 0 <= k < due.len() implies #[trigger] due[k] < names.len() by {
                if k < due0.len() {
                    assert(due[k] == due0[k]);
                }
            }
        }
    }
}

/// What a tick's refresh calls for: which predefined metrics (by position in
/// `predefined_names`) and which custom metrics (by position) are due, in
/// order.
pub struct MetricsUpdate {
    pub predefined_due: Vec<usize>,
    pub custom_due: Vec<usize>,
}

impl MetricsUpdate {
    /// Whether any predefined metric is to be recomputed.
    pub fn recompute_predefined(&self) -> (r: bool)
        ensures
            r == (self.predefined_due@.len() > 0),
    {
        self.predefined_due.len() > 0
    }
}

/// The names of the predefined metrics, in the order they are checked.
pub fn predefined_metric_names() -> (r: Vec<String>)
    ensures
        views_of(r@) == predefined_names(),
{
    let mut r: Vec<String> = Vec::new();
    r.push("population_count".to_owned());
    r.push("average_health".to_owned());
    r.push("average_happiness".to_owned());
    r.push("average_wealth".to_owned());
    r.push("birth_rate".to_owned());
    proof {
        assert(views_of(r@) =~= predefined_names());
    }
    r
}

/// The refresh schedule of the metrics and the custom metric definitions.
pub struct MetricsSystem {
    last_updates: TextMap<i64>,
    custom_metrics: Vec<CustomMetric>,
}

impl MetricsSystem {
    /// The tick of the last refresh of each metric refreshed so far.
    pub closed spec fn last_updates(&self) -> Map<Seq<char>, i64> {
        self.last_updates.spec_map()
    }

    /// The custom metric definitions, in the order they were added.
    pub closed spec fn customs(&self) -> Seq<CustomMetric> {
        self.custom_metrics@
    }

    /// The names of the custom metrics, in order.
    pub open spec fn custom_names(&self) -> Seq<Seq<char>> {
        self.customs().map_values(|c: CustomMetric| c.name@)
    }

    /// A metrics system with nothing refreshed and no custom metrics.
    pub fn new() -> (r: Self)
        ensures
            r.last_updates() == Map::<Seq<char>, i64>::empty(),
            r.customs() == Seq::<CustomMetric>::empty(),
    {
        MetricsSystem { last_updates: TextMap::new(), custom_metrics: Vec::new() }
    }

    /// The tick at which `metric_name` was last refreshed; zero if never.
    pub fn last_update(&self, metric_name: &str) -> (r: i64)
        ensures
            r == last_update_in(self.last_updates(), metric_name@),
    {
        match self.last_updates.get(metric_name) {
            Some(t) => *t,
            None => 0,
        }
    }

    /// Whether the metric `metric_name` is due for a refresh at `current_tick`.
    pub fn should_update_metric(&self, metric_name: &str, current_tick: i64) -> (r: bool)
        ensures
            r == is_due(self.last_updates(), metric_name@, current_tick as int),
    {
        let frequency = update_interval_of(metric_name) as i128;
        let last_update = self.last_update(metric_name) as i128;
        (current_tick as i128 - last_update) % frequency == 0
    }

    /// Records `current_tick` as the last refresh of each of `names` that is
    /// due, in order, and returns the positions of those names.
    fn refresh(&mut self, names: &Vec<String>, current_tick: i64) -> (r: Vec<usize>)
        ensures
            (final(self).last_updates(), r@) == refresh_pass(
                old(self).last_updates(),
                views_of(names@),
                current_tick,
            ),
            final(self).customs() == old(self).customs(),
    {
        let ghost m0 = self.last_updates();
        let ghost cs = self.customs();
        let ghost vs = views_of(names@);
        let mut due: Vec<usize> = Vec::new();
        let mut j: usize = 0;
        proof {
            assert(vs.subrange(0, 0) =~= Seq::<Seq<char>>::empty());
        }
        while j < names.len()
            invariant
                j <= names.len(),
                vs == views_of(names@),
                self.customs() == cs,
                forall|n: Seq<char>|
                    #[trigger] self.last_updates().contains_key(n) ==> self.last_updates()[n]
                        == current_tick || (m0.contains_key(n) && self.last_updates()[n]
                        == m0[n]),
                forall|n: Seq<char>|
                    m0.contains_key(n) ==> #[trigger] self.last_updates().contains_key(n),
                (self.last_updates(), due@) == refresh_pass(
                    m0,
                    vs.subrange(0, j as int),
                    current_tick,
                ),
            decreases names.len() - j,
        {
            proof {
                assert(vs.subrange(0, j + 1).drop_last() =~= vs.subrange(0, j as int));
                assert(vs.subrange(0, j + 1).last() == names@[j as int]@);
            }
            if self.should_update_metric(names[j].as_str(), current_tick) {
                self.last_updates.insert(names[j].clone(), current_tick);
                due.push(j);
            }
            j = j + 1;
        }
        proof {
            assert(vs.subrange(0, vs.len() as int) =~= vs);
        }
        due
    }

    /// Decides the refresh of one tick. Each predefined metric that is due
    /// has `current_tick` recorded as its last refresh, in the order of
    /// `predefined_names`; then each custom metric that is due has
    /// `current_tick` recorded, in order. The result lists both.
    pub fn update_metrics(&mut self, current_tick: i64) -> (r: MetricsUpdate)
        ensures
            ({
                let first = refresh_pass(
                    old(self).last_updates(),
                    predefined_names(),
                    current_tick,
                );
                let second = refresh_pass(
                    first.0,
                    old(self).custom_names(),
                    current_tick,
                );
                &&& r.predefined_due@ == first.1
                &&& r.custom_due@ == second.1
                &&& final(self).last_updates() == second.0
            }),
            final(self).customs() == old(self).customs(),
    {
        let predefined = predefined_metric_names();
        let predefined_due = self.refresh(&predefined, current_tick);
        let names = self.custom_name_list();
        let custom_due = self.refresh(&names, current_tick);
        MetricsUpdate { predefined_due, custom_due }
    }

    /// The names of the custom metrics, in order.
    fn custom_name_list(&self) -> (r: Vec<String>)
        ensures
            views_of(r@) == self.custom_names(),
            r@.len() == self.customs().len(),
            forall|j: int| 0 <= j < r@.len() ==> (#[trigger] r@[j])@ == self.customs()[j].name@,
    {
        let mut r: Vec<String> = Vec::new();
        let mut j: usize = 0;
        while j < self.custom_metrics.len()
            invariant
                j <= self.custom_metrics.len(),
                r@.len() == j,
                forall|k: int| 0 <= k < j ==> (#[trigger] r@[k])@ == self.customs()[k].name@,
            decreases self.custom_metrics.len() - j,
        {
            r.push(self.custom_metrics[j].name.clone());
            j = j + 1;
        }
        proof {
            assert(views_of(r@) =~= self.custom_names());
        }
        r
    }

    /// Adds a custom metric definition.
    pub fn add_custom_metric(&mut self, custom_metric: CustomMetric)
        ensures
            final(self).customs() == old(self).customs().push(custom_metric),
            final(self).last_updates() == old(self).last_updates(),
    {
        self.custom_metrics.push(custom_metric);
    }

    /// The custom metric definitions, in the order they were added.
    pub fn custom_metrics(&self) -> (r: &Vec<CustomMetric>)
        ensures
            r@ == self.customs(),
    {
        &self.custom_metrics
    }
}

/// One term of a custom metric formula.
#[derive(Debug)]
pub enum FormulaTerm {
    /// `coefficient * metric`, both trimmed; the coefficient is still text.
    Scaled { coefficient: String, metric: String },
    /// A metric name on its own, trimmed.
    Single { metric: String },
    /// A term with more than one `*`.
    Malformed,
}

/// The meaning of a `FormulaTerm`.
pub enum TermModel {
    Scaled { coefficient: Seq<char>, metric: Seq<char> },
    Single { metric: Seq<char> },
    Malformed,
}

impl FormulaTerm {
    pub open spec fn model(&self) -> TermModel {
        match self {
            FormulaTerm::Scaled { coefficient, metric } => TermModel::Scaled {
                coefficient: coefficient@,
                metric: metric@,
            },
            FormulaTerm::Single { metric } => TermModel::Single { metric: metric@ },
            FormulaTerm::Malformed => TermModel::Malformed,
        }
    }
}

/// How one `+`-separated piece of a formula reads: trimmed, a piece with `*`
/// must split into exactly two trimmed factors, coefficient first.
pub open spec fn term_of(piece: Seq<char>) -> TermModel {
    let t = trim_text(piece);
    if t.contains('*') {
        let parts = split_text(t, '*');
        if parts.len() == 2 {
            TermModel::Scaled { coefficient: trim_text(parts[0]), metric: trim_text(parts[1]) }
        } else {
            TermModel::Malformed
        }
    } else {
        TermModel::Single { metric: t }
    }
}

/// The terms of a formula: its `+`-separated pieces, each read as `term_of` says.
pub open spec fn formula_terms(formula: Seq<char>) -> Seq<TermModel> {
    split_text(formula, '+').map_values(|p: Seq<char>| term_of(p))
}

/// A formula has one term more than it has `+` signs.
pub proof fn lemma_formula_term_count(formula: Seq<char>)
    ensures
        formula_terms(formula).len() == formula.filter(|c: char| c == '+').len() + 1,
{
    lemma_split_text_len(formula, '+');
}

/// Reads one `+`-separated piece of a formula.
pub fn read_term(piece: &str) -> (r: FormulaTerm)
    ensures
        r.model() == term_of(piece@),
{
    let t = trimmed(piece);
    if contains_char(t, '*') {
        let parts = split_on(t, '*');
        if parts.len() == 2 {
            let coefficient = trimmed(parts[0].as_str()).to_owned();
            let metric = trimmed(parts[1].as_str()).to_owned();
            FormulaTerm::Scaled { coefficient, metric }
        } else {
            FormulaTerm::Malformed
        }
    } else {
        FormulaTerm::Single { metric: t.to_owned() }
    }
}

/// The terms of a custom metric formula, in order.
pub fn split_formula(formula: &str) -> (r: Vec<FormulaTerm>)
    ensures
        r@.map_values(|t: FormulaTerm| t.model()) == formula_terms(formula@),
{
    let pieces = split_on(formula, '+');
    let ghost pv = views_of(pieces@);
    let mut out: Vec<FormulaTerm> = Vec::new();
    let mut i: usize = 0;
    while i < pieces.len()
        invariant
            i <= pieces.len(),
            pv == views_of(pieces@),
            pv == split_text(formula@, '+'),
            out@.map_values(|t: FormulaTerm| t.model()) == pv.subrange(0, i as int).map_values(
                |p: Seq<char>| term_of(p),
            ),
        decreases pieces.len() - i,
    {
        let term = read_term(pieces[i].as_str());
        let ghost old_out = out@;
        out.push(term);
        proof {
            assert(pv[i as int] == pieces@[i as int]@);
            assert(out@.map_values(|t: FormulaTerm| t.model()) =~= old_out.map_values(
                |t: FormulaTerm| t.model(),
            ).push(term.model()));
            assert(pv.subrange(0, i + 1).map_values(|p: Seq<char>| term_of(p)) =~= pv.subrange(
                0,
                i as int,
            ).map_values(|p: Seq<char>| term_of(p)).push(term_of(pv[i as int])));
        }
        i = i + 1;
    }
    proof {
        assert(pv.subrange(0, pv.len() as int) =~= pv);
    }
    out
}

/// The first failure among the terms from position `i` on, in order: a
/// malformed term, a coefficient that does not read as a number
/// (`coefficient_ok` tells which do), or a metric that is not among `known`.
/// Within a scaled term the coefficient is read before the metric is looked up.
pub open spec fn formula_fault_from(
    terms: Seq<TermModel>,
    coefficient_ok: Seq<bool>,
    known: Seq<Seq<char>>,
    i: int,
) -> Option<MetricsFault>
    decreases terms.len() - i,
{
    if i < 0 || i >= terms.len() {
        None
    } else {
        match terms[i] {
            TermModel::Malformed => Some(MetricsFault::FormulaParse("Invalid multiplication format"@)),
            TermModel::Scaled { coefficient, metric } => if !coefficient_ok[i] {
                Some(MetricsFault::FormulaParse("Invalid coefficient: "@ + coefficient))
            } else if !known.contains(metric) {
                Some(MetricsFault::Evaluation("Metric not found: "@ + metric))
            } else {
                formula_fault_from(terms, coefficient_ok, known, i + 1)
            },
            TermModel::Single { metric } => if !known.contains(metric) {
                Some(MetricsFault::Evaluation("Metric not found: "@ + metric))
            } else {
                formula_fault_from(terms, coefficient_ok, known, i + 1)
            },
        }
    }
}

/// Whether a term passes: it is well formed, a scaled term's coefficient
/// reads as a number, and its metric is known.
pub open spec fn term_passes(term: TermModel, coefficient_readable: bool, known: Seq<Seq<char>>) -> bool {
    match term {
        TermModel::Malformed => false,
        TermModel::Scaled { coefficient, metric } => coefficient_readable && known.contains(metric),
        TermModel::Single { metric } => known.contains(metric),
    }
}

/// The error a failing term reports: a malformed term, then an unreadable
/// coefficient, then an unknown metric.
pub open spec fn term_failure(term: TermModel, coefficient_readable: bool) -> MetricsFault {
    match term {
        TermModel::Malformed => MetricsFault::FormulaParse("Invalid multiplication format"@),
        TermModel::Scaled { coefficient, metric } => if !coefficient_readable {
            MetricsFault::FormulaParse("Invalid coefficient: "@ + coefficient)
        } else {
            MetricsFault::Evaluation("Metric not found: "@ + metric)
        },
        TermModel::Single { metric } => MetricsFault::Evaluation("Metric not found: "@ + metric),
    }
}

/// A formula has no error exactly when every term passes; otherwise its error
/// is that of the first term that fails, every term before it passing. So a
/// term that names an unknown metric, wherever it stands, makes the formula
/// fail.
pub proof fn lemma_formula_error_is_first_failure(
    terms: Seq<TermModel>,
    coefficient_ok: Seq<bool>,
    known: Seq<Seq<char>>,
    i: int,
)
    requires
        coefficient_ok.len() == terms.len(),
        0 <= i <= terms.len(),
    ensures
        formula_fault_from(terms, coefficient_ok, known, i) is None <==> forall|j: int|
            i <= j < terms.len() ==> term_passes(#[trigger] terms[j], coefficient_ok[j], known),
        formula_fault_from(terms, coefficient_ok, known, i) is Some ==> exists|j: int|
            i <= j < terms.len() && !term_passes(#[trigger] terms[j], coefficient_ok[j], known)
                && formula_fault_from(terms, coefficient_ok, known, i) == Some(
                term_failure(terms[j], coefficient_ok[j]),
            ) && forall|l: int|
                i <= l < j ==> term_passes(#[trigger] terms[l], coefficient_ok[l], known),
    decreases terms.len() - i,
{
    if i < terms.len() {
        lemma_formula_error_is_first_failure(terms, coefficient_ok, known, i + 1);
        if term_passes(terms[i], coefficient_ok[i], known) {
            assert(formula_fault_from(terms, coefficient_ok, known, i) == formula_fault_from(
                terms,
                coefficient_ok,
                known,
                i + 1,
            ));
            assert forall|j: int| i <= j < terms.len() && (forall|l: int| i + 1 <= l < terms.len() ==> term_passes(#[trigger] terms[l], coefficient_ok[l], known)) implies term_passes(#[trigger] terms[j], coefficient_ok[j], known) by {
                if j > i {
                    assert(term_passes(terms[j], coefficient_ok[j], known));
                }
            }
            if formula_fault_from(terms, coefficient_ok, known, i) is Some {
                let j = choose|j: int|
                    i + 1 <= j < terms.len() && !term_passes(#[trigger] terms[j], coefficient_ok[j], known)
                        && formula_fault_from(terms, coefficient_ok, known, i + 1) == Some(
                        term_failure(terms[j], coefficient_ok[j]),
                    ) && forall|l: int|
                        i + 1 <= l < j ==> term_passes(#[trigger] terms[l], coefficient_ok[l], known);
                assert forall|l: int| i <= l < j implies term_passes(#[trigger] terms[l], coefficient_ok[l], known) by {
                    if l > i {
                        assert(term_passes(terms[l], coefficient_ok[l], known));
                    }
                }
            }
        } else {
            assert(!term_passes(terms[i], coefficient_ok[i], known));
            assert(formula_fault_from(terms, coefficient_ok, known, i) == Some(
                term_failure(terms[i], coefficient_ok[i]),
            ));
        }
    }
}

/// Any one bad term makes the whole formula fail, wherever it stands: a
/// malformed term, a scaled term whose coefficient does not read as a number,
/// or a term naming a metric that is not known.
pub proof fn lemma_bad_term_fails_formula(
    terms: Seq<TermModel>,
    coefficient_ok: Seq<bool>,
    known: Seq<Seq<char>>,
    j: int,
)
    requires
        coefficient_ok.len() == terms.len(),
        0 <= j < terms.len(),
        terms[j] is Malformed || (terms[j] is Scaled && !coefficient_ok[j]) || (terms[j] matches TermModel::Scaled { metric, .. } && !known.contains(metric)) || (terms[j] matches TermModel::Single { metric } && !known.contains(metric)),
    ensures
        formula_fault_from(terms, coefficient_ok, known, 0) is Some,
{
    lemma_formula_error_is_first_failure(terms, coefficient_ok, known, 0);
    assert(!term_passes(terms[j], coefficient_ok[j], known));
}

/// Whether `name` is one of `list`.
pub fn contains_text(list: &Vec<String>, name: &str) -> (r: bool)
    ensures
        r == views_of(list@).contains(name@),
{
    let mut i: usize = 0;
    while i < list.len()
        invariant
            i <= list.len(),
            forall|k: int| 0 <= k < i ==> views_of(list@)[k] != name@,
        decreases list.len() - i,
    {
        if same_text(list[i].as_str(), name) {
            proof {
                assert(views_of(list@)[i as int] == name@);
            }
            return true;
        }
        i = i + 1;
    }
    false
}

/// The error that evaluating a formula with these terms gives, if any: that
/// of the first failing term. `coefficient_ok[i]` tells whether the
/// coefficient of term `i` reads as a number; `known_metrics` are the names
/// that have values.
pub fn formula_error(
    terms: &Vec<FormulaTerm>,
    coefficient_ok: &Vec<bool>,
    known_metrics: &Vec<String>,
) -> (r: Option<MetricsError>)
    requires
        coefficient_ok@.len() == terms@.len(),
    ensures
        match r {
            Some(e) => formula_fault_from(
                terms@.map_values(|t: FormulaTerm| t.model()),
                coefficient_ok@,
                views_of(known_metrics@),
                0,
            ) == Some(e.fault()),
            None => formula_fault_from(
                terms@.map_values(|t: FormulaTerm| t.model()),
                coefficient_ok@,
                views_of(known_metrics@),
                0,
            ) is None,
        },
{
    let ghost models = terms@.map_values(|t: FormulaTerm| t.model());
    let ghost known = views_of(known_metrics@);
    let mut i: usize = 0;
    while i < terms.len()
        invariant
            i <= terms.len(),
            coefficient_ok@.len() == terms@.len(),
            models == terms@.map_values(|t: FormulaTerm| t.model()),
            known == views_of(known_metrics@),
            formula_fault_from(models, coefficient_ok@, known, 0) == formula_fault_from(
                models,
                coefficient_ok@,
                known,
                i as int,
            ),
        decreases terms.len() - i,
    {
        proof {
            assert(models[i as int] == terms@[i as int].model());
        }
        match &terms[i] {
            FormulaTerm::Malformed => {
                return Some(
                    MetricsError::FormulaParseError("Invalid multiplication format".to_owned()),
                );
            },
            FormulaTerm::Scaled { coefficient, metric } => {
                if !coefficient_ok[i] {
                    return Some(
                        MetricsError::FormulaParseError(
                            joined("Invalid coefficient: ", coefficient.as_str()),
                        ),
                    );
                }
                if !contains_text(known_metrics, metric.as_str()) {
                    return Some(
                        MetricsError::EvaluationError(joined("Metric not found: ", metric.as_str())),
                    );
                }
            },
            FormulaTerm::Single { metric } => {
                if !contains_text(known_metrics, metric.as_str()) {
                    return Some(
                        MetricsError::EvaluationError(joined("Metric not found: ", metric.as_str())),
                    );
                }
            },
        }
        i = i + 1;
    }
    None
}

} // verus!
