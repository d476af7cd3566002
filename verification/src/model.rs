//! Models: an objective to optimize, constraints on it, and the environment of their
//! variables.
use vstd::prelude::*;
use vstd::string::*;

use crate::collection::{distinct_names, find_name, table_entries, ConstraintCollection};
use crate::constraint::Constraint;
use crate::environment::{is_name_char, is_valid_var_name, Environment, VarIndex, VarRef};
use crate::creation::{dense_form, seq_abs};
use crate::errors::VariableCreationErr;
use crate::text::{decimal, lemma_decimal_digits, lemma_decimal_injective, to_decimal};
use crate::errors::{DifferentEnvsErr, EvaluationErr};
use crate::removal::{lemma_renumbered_active, lowered};
use crate::evaluation::sample_values;
use crate::expression::{Bias, Expression};
use crate::inspection::{count_true, lemma_count_true, terms_degree, true_below};
use crate::monomial::{is_canonical, valid_sample};
use crate::types::{Comparator, Sense, Vtype};

verus! {

/// The kinds of constraints.
#[derive(Debug, Clone, Copy, PartialEq, Eq, Hash, Structural)]
pub enum ConstraintType {
    Equality,
    LessEqual,
    GreaterEqual,
}

/// The kind of constraint of a comparator.
pub open spec fn constraint_type_of(c: Comparator) -> ConstraintType {
    match c {
        Comparator::Eq => ConstraintType::Equality,
        Comparator::Le => ConstraintType::LessEqual,
        Comparator::Ge => ConstraintType::GreaterEqual,
    }
}

/// What a model is made of: its sense, the types of its variables, the kinds of its
/// constraints, the degrees of its objective and constraints and its number of
/// variables.
pub struct ModelSpecs {
    pub sense: Sense,
    pub vtypes: Vec<Vtype>,
    pub constraints: Vec<ConstraintType>,
    pub max_objective_degree: usize,
    pub max_constraint_degree: usize,
    pub num_variables: usize,
}

/// The values of a model at a sample.
pub struct SampleEvaluation {
    /// The value of the objective.
    pub objective: i64,
    /// For each constraint, in order, whether it holds.
    pub constraints: Vec<bool>,
    /// Whether every constraint holds.
    pub feasible: bool,
}

/// The constraint `c` holds under `s`.
pub open spec fn holds_at(c: Constraint, s: Seq<int>) -> bool {
    c.comparator.holds(c.lhs.value(s), c.rhs as int)
}

/// The names of the entries whose constraint does not hold under `s`, in order.
pub open spec fn violated_names(es: Seq<(Seq<char>, Constraint)>, s: Seq<int>) -> Seq<Seq<char>>
    decreases es.len(),
{
    if es.len() == 0 {
        Seq::empty()
    } else {
        let prev = violated_names(es.drop_last(), s);
        if holds_at(es.last().1, s) {
            prev
        } else {
            prev.push(es.last().0)
        }
    }
}

/// The largest degree of the left-hand sides of the entries.
pub open spec fn max_lhs_degree(es: Seq<(Seq<char>, Constraint)>) -> nat
    decreases es.len(),
{
    if es.len() == 0 {
        0
    } else {
        let p = max_lhs_degree(es.drop_last());
        let d = terms_degree(es.last().1.lhs.terms@);
        if d > p {
            d
        } else {
            p
        }
    }
}

/// The name of the variable at position `i` where no names are given.
pub open spec fn default_var_name(i: nat) -> Seq<char> {
    "x_"@ + decimal(i)
}

/// The names of the first `n` variables: those given, or else `x_` followed by the
/// position.
pub open spec fn dense_var_names(names: Option<Seq<Seq<char>>>, n: nat) -> Seq<Seq<char>> {
    match names {
        Some(ns) => ns.take(n as int),
        None => Seq::new(n, |i: int| default_var_name(i as nat)),
    }
}

/// The names that `Model::new_from_dense` gives its variables.
pub open spec fn requested_names(variable_names: Option<Vec<String>>, n: VarIndex) -> Seq<Seq<char>> {
    dense_var_names(names_view(variable_names), n as nat)
}

/// The name at position `k` can follow the names before it: it is legal and new.
pub open spec fn name_ok_at(names: Seq<Seq<char>>, k: int) -> bool {
    is_valid_var_name(names[k]) && !names.take(k).contains(names[k])
}

/// The views of the given names.
pub open spec fn names_view(names: Option<Vec<String>>) -> Option<Seq<Seq<char>>> {
    match names {
        Some(ns) => Some(ns@.map_values(|s: String| s@)),
        None => None,
    }
}

/// The default names are legal and distinct.
pub proof fn law_default_names_are_accepted(n: nat, k: int)
    requires
        0 <= k < n,
    ensures
        name_ok_at(dense_var_names(None, n), k),
{
    let names = dense_var_names(None, n);
    reveal_strlit("x_");
    lemma_decimal_digits(k as nat);
    let nm = default_var_name(k as nat);
    assert(nm[0] == 'x');
    assert forall|i: int| 0 <= i < nm.len() implies is_name_char(#[trigger] nm[i]) by {
        if i >= 2 {
            assert(nm[i] == decimal(k as nat)[i - 2]);
        }
    }
    if names.take(k).contains(nm) {
        let j = choose|j: int| 0 <= j < names.take(k).len() && names.take(k)[j] == nm;
        let other = default_var_name(j as nat);
        assert(other == nm);
        assert(other.subrange(2, other.len() as int) =~= decimal(j as nat));
        assert(nm.subrange(2, nm.len() as int) =~= decimal(k as nat));
        lemma_decimal_injective(j as nat, k as nat);
    }
}

/// A quadratic unconstrained problem: the row-major `num_variables` by
/// `num_variables` matrix of its quadratic form, an offset, and the names and type of
/// its variables.
pub struct Qubo {
    pub name: String,
    pub vtype: Vtype,
    pub matrix_flat: Vec<Bias>,
    pub num_variables: VarIndex,
    pub offset: Bias,
    pub variable_names: Vec<String>,
}

/// The types of the variables whose mark is set, each once, in the order of the first
/// such variable.
pub fn unique_marked_vtypes(env: &Environment, marks: &Vec<bool>) -> (r: Vec<Vtype>)
    requires
        env.wf(),
        marks@.len() <= env.len(),
    ensures
        forall|a: int, b: int| 0 <= a < b < r@.len() ==> r@[a] != r@[b],
        forall|t: Vtype| #[trigger] r@.contains(t) <==> exists|u: u32|
            (u as int) < marks@.len() && #[trigger] marks@[u as int] && env.vtypes()[u as int] == t,
{
    let mut r: Vec<Vtype> = Vec::new();
    let mut v: usize = 0;
    while v < marks.len()
        invariant
            0 <= v <= marks@.len(),
            env.wf(),
            marks@.len() <= env.len(),
            forall|a: int, b: int| 0 <= a < b < r@.len() ==> r@[a] != r@[b],
            forall|t: Vtype| #[trigger] r@.contains(t) <==> exists|u: u32|
                (u as int) < v && #[trigger] marks@[u as int] && env.vtypes()[u as int] == t,
        decreases marks@.len() - v,
    {
        let ghost before = r@;
        proof {
            assert(env.len() == env.varcount as nat);
        }
        if marks[v] {
            let t = env.get_vtype(v as u32);
            let mut seen = false;
            let mut j: usize = 0;
            while j < r.len()
                invariant
                    0 <= j <= r.len(),
                    seen == exists|k: int| 0 <= k < j && r@[k] == t,
                decreases r.len() - j,
            {
                if r[j] == t {
                    seen = true;
                }
                j = j + 1;
            }
            if !seen {
                r.push(t);
            }
            proof {
                let w = v as u32;
                assert(marks@[w as int]);
                assert forall|t2: Vtype| #[trigger] r@.contains(t2) <==> exists|u: u32|
                    (u as int) < v + 1 && #[trigger] marks@[u as int] && env.vtypes()[u as int] == t2 by {
                    if r@.contains(t2) && !before.contains(t2) {
                        assert(t2 == t);
                        assert((w as int) < v + 1 && marks@[w as int] && env.vtypes()[w as int] == t2);
                    }
                    if before.contains(t2) {
                        let k = choose|k: int| 0 <= k < before.len() && before[k] == t2;
                        assert(r@[k] == t2);
                    }
                    if exists|u: u32| (u as int) < v + 1 && #[trigger] marks@[u as int] && env.vtypes()[u as int] == t2 {
                        let u = choose|u: u32| (u as int) < v + 1 && #[trigger] marks@[u as int] && env.vtypes()[u as int] == t2;
                        if u == w {
                            if seen {
                                let k = choose|k: int| 0 <= k < before.len() && before[k] == t;
                                assert(before.contains(t2));
                            } else {
                                assert(r@[before.len() as int] == t2);
                            }
                        }
                    }
                }
            }
        } else {
            proof {
                assert forall|t2: Vtype| #[trigger] r@.contains(t2) <==> exists|u: u32|
                    (u as int) < v + 1 && #[trigger] marks@[u as int] && env.vtypes()[u as int] == t2 by {
                    if exists|u: u32| (u as int) < v + 1 && #[trigger] marks@[u as int] && env.vtypes()[u as int] == t2 {
                        let u = choose|u: u32| (u as int) < v + 1 && #[trigger] marks@[u as int] && env.vtypes()[u as int] == t2;
                        assert(u as int != v);
                    }
                }
            }
        }
        v = v + 1;
    }
    r
}

/// An objective to optimize in a direction, and constraints on its variables.
pub struct Model {
    pub name: String,
    pub environment: Environment,
    pub objective: Expression,
    pub constraints: ConstraintCollection,
    pub sense: Sense,
}

impl Model {
    /// The model's invariant: the objective and every left-hand side belong to the
    /// environment, and no two constraints share a name.
    pub open spec fn wf(&self) -> bool {
        &&& self.environment.wf()
        &&& self.objective.belongs_to(&self.environment)
        &&& self.constraints.wf()
        &&& forall|i: int|
            0 <= i < self.constraints.entries().len() ==> (#[trigger] self.constraints.entries()[i]).1.lhs.belongs_to(
                &self.environment,
            )
    }

    /// Variable `u` occurs in the objective or in a constraint.
    pub open spec fn uses(&self, u: u32) -> bool {
        ||| self.objective.is_active(u)
        ||| exists|i: int|
            0 <= i < self.constraints.entries().len() && (#[trigger] self.constraints.entries()[i]).1.lhs.is_active(
                u,
            )
    }

    /// A model in `env` without objective terms and without constraints, named `name`
    /// or `unnamed`, optimized in the direction `sense` or minimized.
    pub fn new_with_env(name: Option<String>, sense: Option<Sense>, env: Environment) -> (r: Model)
        requires
            env.wf(),
        ensures
            r.wf(),
            r.name@ == match name {
                Some(n) => n@,
                None => "unnamed"@,
            },
            r.sense == match sense {
                Some(s) => s,
                None => Sense::Min,
            },
            r.environment == env,
            r.objective.offset == 0,
            r.objective.terms@.len() == 0,
            r.objective.active@.len() == 0,
            r.constraints.entries().len() == 0,
    {
        let name = match name {
            Some(n) => n,
            None => String::from_str("unnamed"),
        };
        let sense = match sense {
            Some(s) => s,
            None => Sense::Min,
        };
        let objective = Expression::empty(env.id);
        Model { name, environment: env, objective, constraints: ConstraintCollection::default(), sense }
    }

    /// Sets the direction of optimization.
    pub fn set_sense(&mut self, sense: Sense)
        ensures
            final(self).sense == sense,
            final(self).name == old(self).name,
            final(self).environment == old(self).environment,
            final(self).objective == old(self).objective,
            final(self).constraints == old(self).constraints,
    {
        self.sense = sense;
    }

    /// For each variable of the environment, whether the model uses it.
    fn used_marks(&self) -> (r: Vec<bool>)
        requires
            self.wf(),
        ensures
            r@.len() == self.environment.len(),
            forall|u: u32| (u as int) < r@.len() ==> r@[u as int] == #[trigger] self.uses(u),
            forall|u: u32| #[trigger] self.uses(u) ==> (u as int) < r@.len(),
    {
        let n = self.environment.num_variables();
        let mut r: Vec<bool> = Vec::new();
        let mut v: usize = 0;
        while v < n
            invariant
                0 <= v <= n,
                n == self.environment.len(),
                r@.len() == v,
                forall|u: u32| (u as int) < v ==> r@[u as int] == self.objective.is_active(u),
            decreases n - v,
        {
            r.push(v < self.objective.active.len() && self.objective.active[v]);
            v = v + 1;
        }
        let m = self.constraints.len();
        let mut i: usize = 0;
        while i < m
            invariant
                0 <= i <= m,
                m == self.constraints.entries().len(),
                n == self.environment.len(),
                r@.len() == n,
                self.wf(),
                forall|u: u32| (u as int) < n ==> r@[u as int] == (self.objective.is_active(u) || exists|j: int|
                    0 <= j < i && (#[trigger] self.constraints.entries()[j]).1.lhs.is_active(u)),
            decreases m - i,
        {
            let c = self.constraints.get_index(i).1;
            proof {
                assert(c.lhs.belongs_to(&self.environment));
            }
            let mut v: usize = 0;
            while v < c.lhs.active.len()
                invariant
                    0 <= v <= c.lhs.active.len(),
                    c.lhs.active@.len() <= n,
                    r@.len() == n,
                    forall|u: u32| (u as int) < n ==> r@[u as int] == (self.objective.is_active(u) || (
                    exists|j: int|
                        0 <= j < i && (#[trigger] self.constraints.entries()[j]).1.lhs.is_active(u))
                        || ((u as int) < v && c.lhs.is_active(u))),
                decreases c.lhs.active.len() - v,
            {
                if c.lhs.active[v] {
                    r.set(v, true);
                }
                v = v + 1;
            }
            proof {
                assert forall|u: u32| (u as int) < n implies r@[u as int] == (self.objective.is_active(u)
                    || exists|j: int|
                    0 <= j < i + 1 && (#[trigger] self.constraints.entries()[j]).1.lhs.is_active(u)) by {
                    if c.lhs.is_active(u) {
                        assert(self.constraints.entries()[i as int].1.lhs.is_active(u));
                    }
                    if exists|j: int| 0 <= j < i + 1 && (#[trigger] self.constraints.entries()[j]).1.lhs.is_active(u) {
                        let j = choose|j: int| 0 <= j < i + 1 && (#[trigger] self.constraints.entries()[j]).1.lhs.is_active(u);
                        if j == i {
                            assert(c.lhs.is_active(u));
                        }
                    }
                }
            }
            i = i + 1;
        }
        proof {
            assert forall|u: u32| #[trigger] self.uses(u) implies (u as int) < r@.len() by {
                if !self.objective.is_active(u) {
                    let j = choose|j: int|
                        0 <= j < self.constraints.entries().len() && (#[trigger] self.constraints.entries()[j]).1.lhs.is_active(u);
                    assert(self.constraints.entries()[j].1.lhs.belongs_to(&self.environment));
                }
            }
        }
        r
    }

    /// The number of variables that the objective or a constraint uses.
    pub fn num_variables(&self) -> (r: usize)
        requires
            self.wf(),
        ensures
            r == Set::new(|u: u32| self.uses(u)).len(),
            Set::new(|u: u32| self.uses(u)).finite(),
    {
        let marks = self.used_marks();
        let n = marks.len();
        let mut count: usize = 0;
        let mut v: usize = 0;
        while v < n
            invariant
                0 <= v <= n,
                n == marks@.len(),
                count == count_true(marks@.take(v as int)),
                count <= v,
            decreases n - v,
        {
            proof {
                assert(marks@.take(v + 1).drop_last() =~= marks@.take(v as int));
            }
            if marks[v] {
                count = count + 1;
            }
            v = v + 1;
        }
        proof {
            assert(self.environment.len() == self.environment.varcount as nat);
            lemma_count_true(marks@, n as int);
            assert(marks@.take(n as int) =~= marks@);
            assert(Set::new(|u: u32| self.uses(u)) =~= true_below(marks@, n as int));
        }
        count
    }

    /// The types of the variables that the model uses, each once.
    pub fn vtypes(&self) -> (r: Vec<Vtype>)
        requires
            self.wf(),
        ensures
            forall|a: int, b: int| 0 <= a < b < r@.len() ==> r@[a] != r@[b],
            forall|t: Vtype| #[trigger] r@.contains(t) <==> exists|u: u32|
                #[trigger] self.uses(u) && self.environment.vtypes()[u as int] == t,
    {
        let marks = self.used_marks();
        let r = unique_marked_vtypes(&self.environment, &marks);
        proof {
            assert forall|t: Vtype| #[trigger] r@.contains(t) <==> exists|u: u32|
                #[trigger] self.uses(u) && self.environment.vtypes()[u as int] == t by {
                if r@.contains(t) {
                    let u = choose|u: u32| (u as int) < marks@.len() && #[trigger] marks@[u as int]
                        && self.environment.vtypes()[u as int] == t;
                    assert(self.uses(u));
                }
                if exists|u: u32| #[trigger] self.uses(u) && self.environment.vtypes()[u as int] == t {
                    let u = choose|u: u32| #[trigger] self.uses(u) && self.environment.vtypes()[u as int] == t;
                    assert((u as int) < marks@.len() && marks@[u as int]);
                }
            }
        }
        r
    }

    /// What the model is made of.
    pub fn get_specs(&self) -> (r: ModelSpecs)
        requires
            self.wf(),
        ensures
            r.sense == self.sense,
            forall|a: int, b: int| 0 <= a < b < r.vtypes@.len() ==> r.vtypes@[a] != r.vtypes@[b],
            forall|t: Vtype| #[trigger] r.vtypes@.contains(t) <==> exists|u: u32|
                #[trigger] self.uses(u) && self.environment.vtypes()[u as int] == t,
            r.constraints@ == crate::collection::unique_comparators(self.constraints.entries()).map_values(
                |c: Comparator| constraint_type_of(c),
            ),
            r.max_objective_degree == terms_degree(self.objective.terms@),
            r.max_constraint_degree == max_lhs_degree(self.constraints.entries()),
            r.num_variables == Set::new(|u: u32| self.uses(u)).len(),
    {
        let vtypes = self.vtypes();
        let comparators = self.constraints.ctypes();
        let mut kinds: Vec<ConstraintType> = Vec::new();
        let mut j: usize = 0;
        while j < comparators.len()
            invariant
                0 <= j <= comparators.len(),
                kinds@ == comparators@.take(j as int).map_values(|c: Comparator| constraint_type_of(c)),
            decreases comparators.len() - j,
        {
            let k = match comparators[j] {
                Comparator::Eq => ConstraintType::Equality,
                Comparator::Le => ConstraintType::LessEqual,
                Comparator::Ge => ConstraintType::GreaterEqual,
            };
            kinds.push(k);
            proof {
                assert(comparators@.take(j + 1) =~= comparators@.take(j as int).push(comparators@[j as int]));
                assert(kinds@ =~= comparators@.take(j + 1).map_values(|c: Comparator| constraint_type_of(c)));
            }
            j = j + 1;
        }
        proof {
            assert(comparators@.take(comparators@.len() as int) =~= comparators@);
        }
        let m = self.constraints.len();
        let mut max_constraint_degree: usize = 0;
        let mut i: usize = 0;
        while i < m
            invariant
                0 <= i <= m,
                m == self.constraints.entries().len(),
                max_constraint_degree == max_lhs_degree(self.constraints.entries().take(i as int)),
            decreases m - i,
        {
            let d = self.constraints.get_index(i).1.lhs.degree();
            proof {
                let es = self.constraints.entries();
                assert(es.take(i + 1).drop_last() =~= es.take(i as int));
                assert(es.take(i + 1).last() == es[i as int]);
            }
            if d > max_constraint_degree {
                max_constraint_degree = d;
            }
            i = i + 1;
        }
        proof {
            assert(self.constraints.entries().take(m as int) =~= self.constraints.entries());
        }
        ModelSpecs {
            sense: self.sense,
            vtypes,
            constraints: kinds,
            max_objective_degree: self.objective.degree(),
            max_constraint_degree,
            num_variables: self.num_variables(),
        }
    }

    /// Every variable of the objective and of the constraints lies below the number of
    /// variables of the environment.
    proof fn lemma_vars_below(&self)
        requires
            self.wf(),
        ensures
            self.objective.vars_below(self.environment.len()),
            forall|i: int| 0 <= i < self.constraints.entries().len() ==> (#[trigger] self.constraints.entries()[i]).1.lhs.vars_below(
                self.environment.len(),
            ),
    {
        let vt = self.environment.vtypes();
        assert forall|i: int, k: int|
            0 <= i < self.objective.terms@.len() && 0 <= k < self.objective.terms@[i].vars@.len() implies (
            #[trigger] self.objective.terms@[i].vars@[k] as nat) < self.environment.len() by {
            assert(is_canonical(self.objective.terms@[i].vars@, vt));
        }
        assert forall|j: int| 0 <= j < self.constraints.entries().len() implies (#[trigger] self.constraints.entries()[j]).1.lhs.vars_below(
            self.environment.len(),
        ) by {
            let e = self.constraints.entries()[j].1.lhs;
            assert(e.belongs_to(&self.environment));
            assert forall|i: int, k: int| 0 <= i < e.terms@.len() && 0 <= k < e.terms@[i].vars@.len() implies (
            #[trigger] e.terms@[i].vars@[k] as nat) < self.environment.len() by {
                assert(is_canonical(e.terms@[i].vars@, vt));
            }
        }
    }

    /// The value of the objective and, for each constraint, whether it holds when each
    /// variable `v` takes the value `sample[v]`; an error when the sample does not give
    /// one value for each variable of the environment.
    pub fn evaluate_sample(&self, sample: &Vec<i64>) -> (r: Result<SampleEvaluation, EvaluationErr>)
        requires
            self.wf(),
            sample@.len() == self.environment.len() ==> {
                &&& self.objective.eval_bound(sample_values(sample@)) <= Bias::MAX
                &&& forall|i: int| 0 <= i < self.constraints.entries().len() ==> (#[trigger] self.constraints.entries()[i]).1.lhs.eval_bound(
                    sample_values(sample@),
                ) <= Bias::MAX
            },
        ensures
            r is Err <==> sample@.len() != self.environment.len(),
            r matches Ok(e) ==> {
                &&& e.objective == self.objective.value(sample_values(sample@))
                &&& e.constraints@.len() == self.constraints.entries().len()
                &&& forall|i: int| 0 <= i < e.constraints@.len() ==> e.constraints@[i] == holds_at(
                    #[trigger] self.constraints.entries()[i].1,
                    sample_values(sample@),
                )
                &&& e.feasible == forall|i: int| 0 <= i < self.constraints.entries().len() ==> holds_at(
                    #[trigger] self.constraints.entries()[i].1,
                    sample_values(sample@),
                )
            },
    {
        if sample.len() != self.environment.num_variables() {
            return Err(EvaluationErr);
        }
        proof {
            self.lemma_vars_below();
        }
        let objective = self.objective.evaluate_sample(sample);
        let m = self.constraints.len();
        let mut holds: Vec<bool> = Vec::new();
        let mut feasible = true;
        let mut i: usize = 0;
        while i < m
            invariant
                0 <= i <= m,
                m == self.constraints.entries().len(),
                holds@.len() == i,
                forall|j: int| 0 <= j < self.constraints.entries().len() ==> (#[trigger] self.constraints.entries()[j]).1.lhs.vars_below(
                    sample@.len(),
                ),
                forall|j: int| 0 <= j < self.constraints.entries().len() ==> (#[trigger] self.constraints.entries()[j]).1.lhs.eval_bound(
                    sample_values(sample@),
                ) <= Bias::MAX,
                forall|j: int| 0 <= j < i ==> holds@[j] == holds_at(
                    #[trigger] self.constraints.entries()[j].1,
                    sample_values(sample@),
                ),
                feasible == forall|j: int| 0 <= j < i ==> holds_at(
                    #[trigger] self.constraints.entries()[j].1,
                    sample_values(sample@),
                ),
            decreases m - i,
        {
            let c = self.constraints.get_index(i).1;
            let h = c.evaluate_sample(sample);
            holds.push(h);
            feasible = feasible && h;
            i = i + 1;
        }
        Ok(SampleEvaluation { objective, constraints: holds, feasible })
    }

    /// Copies of the constraints that do not hold when each variable `v` takes the value
    /// `sample[v]`, under their names and in their order.
    pub fn violated_constraints(&self, sample: &Vec<i64>) -> (r: ConstraintCollection)
        requires
            self.wf(),
            sample@.len() == self.environment.len(),
            forall|i: int| 0 <= i < self.constraints.entries().len() ==> (#[trigger] self.constraints.entries()[i]).1.lhs.eval_bound(
                sample_values(sample@),
            ) <= Bias::MAX,
        ensures
            r.wf(),
            r.entries().map_values(|e: (Seq<char>, Constraint)| e.0) == violated_names(
                self.constraints.entries(),
                sample_values(sample@),
            ),
            forall|j: int| 0 <= j < r.entries().len() ==> exists|i: int|
                0 <= i < self.constraints.entries().len() && self.constraints.entries()[i].0
                    == (#[trigger] r.entries()[j]).0 && r.entries()[j].1.same_content(
                    &self.constraints.entries()[i].1,
                ),
    {
        proof {
            self.lemma_vars_below();
        }
        let ghost es = self.constraints.entries();
        let ghost sv = sample_values(sample@);
        let ghost name_of = |e: (Seq<char>, Constraint)| e.0;
        let mut out = ConstraintCollection::default();
        let m = self.constraints.len();
        let mut i: usize = 0;
        proof {
            assert(out.entries().map_values(name_of) =~= violated_names(es.take(0), sv));
        }
        while i < m
            invariant
                0 <= i <= m,
                m == es.len(),
                es == self.constraints.entries(),
                sv == sample_values(sample@),
                distinct_names(es),
                name_of == (|e: (Seq<char>, Constraint)| e.0),
                forall|j: int| 0 <= j < es.len() ==> (#[trigger] es[j]).1.lhs.vars_below(sample@.len()),
                forall|j: int| 0 <= j < es.len() ==> (#[trigger] es[j]).1.lhs.eval_bound(sv) <= Bias::MAX,
                out.wf(),
                out.entries().map_values(name_of) == violated_names(es.take(i as int), sv),
                forall|j: int| 0 <= j < out.entries().len() ==> exists|k: int|
                    0 <= k < i && es[k].0 == (#[trigger] out.entries()[j]).0 && out.entries()[j].1.same_content(&es[k].1),
            decreases m - i,
        {
            let ghost before = out.entries();
            proof {
                assert(es.take(i + 1).drop_last() =~= es.take(i as int));
                assert(es.take(i + 1).last() == es[i as int]);
            }
            let (name, c) = self.constraints.get_index(i);
            if !c.evaluate_sample(sample) {
                let copy = c.copy();
                let key = name.clone();
                proof {
                    assert(find_name(before, key@) is None) by {
                        if exists|k: int| 0 <= k < before.len() && (#[trigger] before[k]).0 == key@ {
                            let k = choose|k: int| 0 <= k < before.len() && (#[trigger] before[k]).0 == key@;
                            let k2 = choose|k2: int| 0 <= k2 < i && es[k2].0 == (#[trigger] before[k]).0 && before[k].1.same_content(&es[k2].1);
                            assert(es[k2].0 != es[i as int].0);
                        }
                    }
                }
                let ghost cg = copy;
                let _ = crate::collection::table_insert_fresh(&mut out.data, key, copy);
                proof {
                    assert(out.entries() == before.push((key@, cg)));
                    assert(out.entries().map_values(name_of) =~= before.map_values(name_of).push(key@));
                    assert forall|a: int, b: int| 0 <= a < b < out.entries().len() implies out.entries()[a].0
                        != out.entries()[b].0 by {
                        if b == before.len() {
                            assert(before[a].0 != key@);
                        }
                    }
                    assert forall|j: int| 0 <= j < out.entries().len() implies exists|k: int|
                        0 <= k < i + 1 && es[k].0 == (#[trigger] out.entries()[j]).0 && out.entries()[j].1.same_content(&es[k].1) by {
                        if j == before.len() {
                            assert(es[i as int].0 == out.entries()[j].0);
                        } else {
                            assert(out.entries()[j] == before[j]);
                        }
                    }
                }
            }
            i = i + 1;
        }
        proof {
            assert(es.take(m as int) =~= es);
        }
        out
    }

    /// Replaces every occurrence of `target` in the objective and in every constraint by
    /// `replacement`; an error, with the model unchanged, when either belongs to another
    /// environment. Where the replacement does not use the target, the target is then
    /// removed from the environment: the variables after it move one place forward, and
    /// the objective and the constraints are renumbered to match.
    pub fn substitute(&mut self, target: &VarRef, replacement: &Expression) -> (r: Result<
        (),
        DifferentEnvsErr,
    >)
        requires
            old(self).wf(),
            target.env_id == old(self).environment.id && replacement.env_id == old(self).environment.id ==> {
                &&& replacement.belongs_to(&old(self).environment)
                &&& (target.id as nat) < old(self).environment.len()
                &&& old(self).objective.subst_bound(target.id, replacement.abs_sum()) <= Bias::MAX
                &&& forall|i: int| 0 <= i < old(self).constraints.entries().len() ==> (#[trigger] old(self).constraints.entries()[i]).1.lhs.subst_bound(
                    target.id,
                    replacement.abs_sum(),
                ) <= Bias::MAX
            },
        ensures
            r is Err <==> (target.env_id != old(self).environment.id || replacement.env_id != old(self).environment.id),
            r is Err ==> final(self).objective == old(self).objective && final(self).constraints.entries()
                == old(self).constraints.entries() && final(self).environment == old(self).environment,
            final(self).name == old(self).name,
            final(self).sense == old(self).sense,
            final(self).wf(),
            r is Ok && replacement.is_active(target.id) ==> {
                &&& final(self).environment == old(self).environment
                &&& forall|s: Seq<int>| valid_sample(old(self).environment.vtypes(), s) ==> #[trigger] final(self).objective.value(s)
                    == old(self).objective.value(s.update(target.id as int, replacement.value(s)))
                &&& final(self).constraints.entries().len() == old(self).constraints.entries().len()
                &&& forall|i: int| 0 <= i < old(self).constraints.entries().len() ==> {
                    let (n, c) = #[trigger] final(self).constraints.entries()[i];
                    let (n0, c0) = old(self).constraints.entries()[i];
                    &&& n == n0
                    &&& c.rhs == c0.rhs
                    &&& c.comparator == c0.comparator
                    &&& c.name == c0.name
                    &&& forall|s: Seq<int>| valid_sample(old(self).environment.vtypes(), s) ==> #[trigger] c.lhs.value(s)
                        == c0.lhs.value(s.update(target.id as int, replacement.value(s)))
                    &&& forall|u: u32| #[trigger] c.lhs.is_active(u) == ((c0.lhs.is_active(u) && u != target.id) || (
                    crate::substitution::mentions(c0.lhs.terms@, target.id) && replacement.is_active(u) && (u != target.id || crate::substitution::mentions(replacement.terms@, target.id))))
                }
                &&& forall|u: u32| #[trigger] final(self).objective.is_active(u) == ((old(self).objective.is_active(u)
                    && u != target.id) || (crate::substitution::mentions(old(self).objective.terms@, target.id)
                    && replacement.is_active(u) && (u != target.id || crate::substitution::mentions(replacement.terms@, target.id))))
            },
            r is Ok && !replacement.is_active(target.id) ==> {
                &&& final(self).environment.id == old(self).environment.id
                &&& final(self).environment.names() == old(self).environment.names().remove(target.id as int)
                &&& final(self).environment.vtypes() == old(self).environment.vtypes().remove(target.id as int)
                &&& forall|s: Seq<int>| valid_sample(old(self).environment.vtypes(), s) ==> #[trigger] final(self).objective.value(
                    s.remove(target.id as int),
                ) == old(self).objective.value(s.update(target.id as int, replacement.value(s)))
                &&& forall|u: u32| u != target.id ==> #[trigger] final(self).objective.is_active(lowered(u, target.id))
                    == (old(self).objective.is_active(u) || (crate::substitution::mentions(old(self).objective.terms@, target.id)
                    && replacement.is_active(u)))
                &&& final(self).constraints.entries().len() == old(self).constraints.entries().len()
                &&& forall|i: int| 0 <= i < old(self).constraints.entries().len() ==> {
                    let (n, c) = #[trigger] final(self).constraints.entries()[i];
                    let (n0, c0) = old(self).constraints.entries()[i];
                    &&& n == n0
                    &&& c.rhs == c0.rhs
                    &&& c.comparator == c0.comparator
                    &&& c.name == c0.name
                    &&& forall|s: Seq<int>| valid_sample(old(self).environment.vtypes(), s) ==> #[trigger] c.lhs.value(
                        s.remove(target.id as int),
                    ) == c0.lhs.value(s.update(target.id as int, replacement.value(s)))
                    &&& forall|u: u32| u != target.id ==> #[trigger] c.lhs.is_active(lowered(u, target.id)) == (
                    c0.lhs.is_active(u) || (crate::substitution::mentions(c0.lhs.terms@, target.id)
                        && replacement.is_active(u)))
                }
            },
    {
        if target.env_id != self.environment.id || replacement.env_id != self.environment.id {
            return Err(DifferentEnvsErr);
        }
        let ghost old_model = *self;
        let objective = match self.objective.substitute(&self.environment, target, replacement) {
            Ok(o) => o,
            Err(_) => {
                return Err(DifferentEnvsErr);
            },
        };
        self.objective = objective;
        let res = self.constraints.substitute(&self.environment, target, replacement);
        proof {
            assert(res is Ok);
        }
        let t = target.id;
        let keeps = (t as usize) < replacement.active.len() && replacement.active[t as usize];
        if !keeps {
            let ghost sub = *self;
            proof {
                assert(!self.objective.is_active(t));
                assert forall|i: int| 0 <= i < self.constraints.entries().len() implies !(#[trigger] self.constraints.entries()[i]).1.lhs.is_active(t) by {
                    let c = self.constraints.entries()[i].1;
                    assert(c.lhs.is_active(t) == ((old_model.constraints.entries()[i].1.lhs.is_active(t) && t != t) || (
                    crate::substitution::mentions(old_model.constraints.entries()[i].1.lhs.terms@, t) && replacement.is_active(t)
                        && (t != t || crate::substitution::mentions(replacement.terms@, t)))));
                }
            }
            let obj = self.objective.renumbered_without(&self.environment, t);
            self.constraints.renumber_without(&self.environment, t);
            self.objective = obj;
            self.environment.remove(target);
            proof {
                let vt = old_model.environment.vtypes();
                assert(self.objective.belongs_to(&self.environment));
                assert forall|i: int| 0 <= i < self.constraints.entries().len() implies (#[trigger] self.constraints.entries()[i]).1.lhs.belongs_to(
                    &self.environment,
                ) by {
                    assert(self.constraints.entries()[i].1.lhs.env_id == sub.constraints.entries()[i].1.lhs.env_id);
                }
                assert forall|s: Seq<int>| valid_sample(vt, s) implies #[trigger] self.objective.value(s.remove(t as int))
                    == old_model.objective.value(s.update(t as int, replacement.value(s))) by {
                    assert(sub.objective.value(s) == old_model.objective.value(s.update(t as int, replacement.value(s))));
                }
                assert forall|u: u32| u != t implies #[trigger] self.objective.is_active(lowered(u, t)) == (
                old_model.objective.is_active(u) || (crate::substitution::mentions(old_model.objective.terms@, t)
                    && replacement.is_active(u))) by {
                    lemma_renumbered_active(self.objective, sub.objective, t, u);
                }
                assert forall|i: int| 0 <= i < old_model.constraints.entries().len() implies {
                    let (n, c) = #[trigger] self.constraints.entries()[i];
                    let (n0, c0) = old_model.constraints.entries()[i];
                    &&& n == n0
                    &&& c.rhs == c0.rhs
                    &&& c.comparator == c0.comparator
                    &&& c.name == c0.name
                    &&& forall|s: Seq<int>| valid_sample(vt, s) ==> #[trigger] c.lhs.value(s.remove(t as int))
                        == c0.lhs.value(s.update(t as int, replacement.value(s)))
                    &&& forall|u: u32| u != t ==> #[trigger] c.lhs.is_active(lowered(u, t)) == (c0.lhs.is_active(u) || (
                    crate::substitution::mentions(c0.lhs.terms@, t) && replacement.is_active(u)))
                } by {
                    let c = self.constraints.entries()[i].1;
                    let cs = sub.constraints.entries()[i].1;
                    let c0 = old_model.constraints.entries()[i].1;
                    assert forall|s: Seq<int>| valid_sample(vt, s) implies #[trigger] c.lhs.value(s.remove(t as int))
                        == c0.lhs.value(s.update(t as int, replacement.value(s))) by {
                        assert(c.lhs.value(s.remove(t as int)) == cs.lhs.value(s));
                    }
                    assert forall|u: u32| u != t implies #[trigger] c.lhs.is_active(lowered(u, t)) == (c0.lhs.is_active(u) || (
                    crate::substitution::mentions(c0.lhs.terms@, t) && replacement.is_active(u))) by {
                        lemma_renumbered_active(c.lhs, cs.lhs, t, u);
                        assert(cs.lhs.is_active(u) == ((c0.lhs.is_active(u) && u != t) || (
                        crate::substitution::mentions(c0.lhs.terms@, t) && replacement.is_active(u) && (u != t
                            || crate::substitution::mentions(replacement.terms@, t)))));
                    }
                }
            }
        }
        Ok(())
    }

    /// A model of the quadratic form of the row-major `num_variables` by
    /// `num_variables` matrix `matrix_flat` plus `offset`, to be minimized, over
    /// variables of type `vtype` (binary by default) named by `variable_names` or else
    /// `x_` followed by their position; an error, for the first name that is illegal or
    /// repeated, when a variable cannot be created.
    pub fn new_from_dense(
        name: Option<String>,
        vtype: Option<Vtype>,
        matrix_flat: &Vec<Bias>,
        num_variables: VarIndex,
        offset: Option<Bias>,
        variable_names: Option<Vec<String>>,
        env: Environment,
    ) -> (r: Result<Model, VariableCreationErr>)
        requires
            env.wf(),
            env.len() == 0,
            matrix_flat@.len() == num_variables as int * num_variables as int,
            variable_names matches Some(ns) ==> ns@.len() >= num_variables,
            seq_abs(matrix_flat@) + crate::expression::abs(
                match offset {
                    Some(o) => o as int,
                    None => 0,
                },
            ) <= Bias::MAX,
        ensures
            r is Ok <==> forall|k: int|
                0 <= k < num_variables ==> name_ok_at(requested_names(variable_names, num_variables), k),
            r matches Err(e) ==> exists|k: int|
                0 <= k < num_variables && (forall|j: int|
                    0 <= j < k ==> name_ok_at(requested_names(variable_names, num_variables), j))
                    && !name_ok_at(requested_names(variable_names, num_variables), k) && if requested_names(
                    variable_names,
                    num_variables,
                ).take(k).contains(requested_names(variable_names, num_variables)[k]) {
                    e matches VariableCreationErr::VariableExists(m) && m@ == requested_names(
                        variable_names,
                        num_variables,
                    )[k]
                } else {
                    e is VarName
                },
            r matches Ok(m) ==> m.wf(),
            r matches Ok(m) ==> m.environment.id == env.id,
            r matches Ok(m) ==> m.environment.names() == requested_names(variable_names, num_variables),
            r matches Ok(m) ==> forall|i: int|
                0 <= i < num_variables ==> m.environment.vtypes()[i] == match vtype {
                    Some(t) => t,
                    None => Vtype::Binary,
                },
            r matches Ok(m) ==> forall|u: u32| #[trigger] m.objective.is_active(u) == (u < num_variables),
            r matches Ok(m) ==> forall|s: Seq<int>| valid_sample(m.environment.vtypes(), s) ==> #[trigger] m.objective.value(s)
                == dense_form(matrix_flat@, num_variables as nat, s) + match offset {
                    Some(o) => o as int,
                    None => 0,
                },
            r matches Ok(m) ==> m.constraints.entries().len() == 0,
            r matches Ok(m) ==> m.sense == Sense::Min,
            r matches Ok(m) ==> m.name@ == match name {
                Some(n) => n@,
                None => "unnamed"@,
            },
    {
        let ghost names = dense_var_names(names_view(variable_names), num_variables as nat);
        let t = match vtype {
            Some(t) => t,
            None => Vtype::Binary,
        };
        let ghost env_id = env.id;
        let mut env = env;
        let n = num_variables as usize;
        let mut idx: usize = 0;
        proof {
            assert(env.names() =~= names.take(0));
        }
        while idx < n
            invariant
                0 <= idx <= n,
                n == num_variables as usize,
                env.wf(),
                env.id == env_id,
                env.len() == idx,
                env.names() == names.take(idx as int),
                names.len() == n,
                names == dense_var_names(names_view(variable_names), num_variables as nat),
                variable_names matches Some(ns) ==> ns@.len() >= num_variables,
                forall|i: int| 0 <= i < idx ==> env.vtypes()[i] == t,
                forall|j: int| 0 <= j < idx ==> name_ok_at(names, j),
            decreases n - idx,
        {
            let var_name = match &variable_names {
                Some(ns) => ns[idx].clone(),
                None => String::from_str("x_").concat(to_decimal(idx as u64).as_str()),
            };
            proof {
                assert(var_name@ == names[idx as int]);
                assert(names.take(idx as int + 1) =~= names.take(idx as int).push(names[idx as int]));
            }
            let ghost before = env;
            match env.add_variable(var_name.as_str(), Some(t)) {
                Ok(_) => {},
                Err(e) => {
                    proof {
                        assert(!name_ok_at(names, idx as int));
                        assert(names == requested_names(variable_names, num_variables));
                        let k = idx as int;
                        assert(0 <= k < num_variables && (forall|j: int|
                            0 <= j < k ==> name_ok_at(requested_names(variable_names, num_variables), j))
                            && !name_ok_at(requested_names(variable_names, num_variables), k));
                        if names.take(k).contains(names[k]) {
                            assert(before.names().contains(var_name@));
                        } else {
                            assert(!before.names().contains(var_name@));
                        }
                    }
                    return Err(e);
                },
            }
            proof {
                assert(name_ok_at(names, idx as int));
            }
            idx = idx + 1;
        }
        proof {
            assert(names.take(n as int) =~= names);
        }
        let ghost env_final = env;
        let mut model = Model::new_with_env(name, Some(Sense::Min), env);
        let ghost empty = model.objective;
        proof {
            crate::expression::lemma_terms_abs_nonneg(model.objective.terms@);
            assert forall|s: Seq<int>| #[trigger] empty.value(s) == 0 by {}
            assert forall|u: u32| !#[trigger] empty.is_active(u) by {}
        }
        model.objective.add_quadratic_from_dense(&model.environment, matrix_flat, num_variables);
        let ghost dense = model.objective;
        match offset {
            Some(o) => {
                model.objective.add_offset(o);
            },
            None => {},
        }
        proof {
            assert forall|u: u32| #[trigger] model.objective.is_active(u) == (u < num_variables) by {
                assert(model.objective.is_active(u) == dense.is_active(u));
                assert(dense.is_active(u) == (empty.is_active(u) || u < num_variables));
            }
            assert forall|s: Seq<int>| valid_sample(model.environment.vtypes(), s) implies #[trigger] model.objective.value(s)
                == dense_form(matrix_flat@, num_variables as nat, s) + match offset {
                    Some(o) => o as int,
                    None => 0,
                } by {
                assert(dense.value(s) == empty.value(s) + dense_form(matrix_flat@, num_variables as nat, s));
            }
            assert(model.environment == env_final);
            assert(model.wf());
        }
        Ok(model)
    }

    /// A copy of the model with a copy of its environment under the identity `id`.
    pub fn deep_clone(&self, id: crate::environment::EnvId) -> (r: Model)
        requires
            self.wf(),
        ensures
            r.wf(),
            r.environment.id == id,
            r.environment.names() == self.environment.names(),
            r.environment.vtypes() == self.environment.vtypes(),
            r.objective.env_id == id,
            r.objective.same_but_env(&self.objective),
            r.constraints.entries().len() == self.constraints.entries().len(),
            forall|i: int| 0 <= i < self.constraints.entries().len() ==> {
                let (n, c) = #[trigger] r.constraints.entries()[i];
                let (n0, c0) = self.constraints.entries()[i];
                &&& n == n0
                &&& c.lhs.same_but_env(&c0.lhs)
                &&& c.rhs == c0.rhs
                &&& c.comparator == c0.comparator
                &&& c.name@ == c0.name@
            },
            r.name@ == self.name@,
            r.sense == self.sense,
    {
        let environment = self.environment.deep_clone(id);
        let objective = self.objective.deep_clone(id);
        let constraints = self.constraints.deep_clone(id);
        let r = Model { name: self.name.clone(), environment, objective, constraints, sense: self.sense };
        proof {
            assert forall|i: int| 0 <= i < r.constraints.entries().len() implies (#[trigger] r.constraints.entries()[i]).1.lhs.belongs_to(
                &r.environment,
            ) by {
                assert(self.constraints.entries()[i].1.lhs.belongs_to(&self.environment));
            }
        }
        r
    }

    /// The evaluation of every sample, in order; an error when a sample does not give
    /// one value for each variable of the environment.
    pub fn evaluate_samples(&self, samples: &Vec<Vec<i64>>) -> (r: Result<Vec<SampleEvaluation>, EvaluationErr>)
        requires
            self.wf(),
            forall|j: int| 0 <= j < samples@.len() && (#[trigger] samples@[j])@.len() == self.environment.len()
                ==> self.objective.eval_bound(sample_values(samples@[j]@)) <= Bias::MAX,
            forall|j: int, i: int|
                0 <= j < samples@.len() && 0 <= i < self.constraints.entries().len() && (#[trigger] samples@[j])@.len()
                    == self.environment.len() ==> (#[trigger] self.constraints.entries()[i]).1.lhs.eval_bound(
                    sample_values(samples@[j]@),
                ) <= Bias::MAX,
        ensures
            r is Err <==> exists|j: int| 0 <= j < samples@.len() && (#[trigger] samples@[j])@.len() != self.environment.len(),
            r matches Ok(es) ==> {
                &&& es@.len() == samples@.len()
                &&& forall|j: int| 0 <= j < samples@.len() ==> {
                    let e = #[trigger] es@[j];
                    let s = sample_values(samples@[j]@);
                    &&& e.objective == self.objective.value(s)
                    &&& e.constraints@.len() == self.constraints.entries().len()
                    &&& forall|i: int| 0 <= i < e.constraints@.len() ==> e.constraints@[i] == holds_at(
                        #[trigger] self.constraints.entries()[i].1,
                        s,
                    )
                    &&& e.feasible == forall|i: int| 0 <= i < self.constraints.entries().len() ==> holds_at(
                        #[trigger] self.constraints.entries()[i].1,
                        s,
                    )
                }
            },
    {
        let mut j: usize = 0;
        while j < samples.len()
            invariant
                0 <= j <= samples@.len(),
                self.environment.wf(),
                forall|k: int| 0 <= k < j ==> (#[trigger] samples@[k])@.len() == self.environment.len(),
            decreases samples@.len() - j,
        {
            if samples[j].len() != self.environment.num_variables() {
                return Err(EvaluationErr);
            }
            j = j + 1;
        }
        let mut r: Vec<SampleEvaluation> = Vec::new();
        let mut j: usize = 0;
        while j < samples.len()
            invariant
                0 <= j <= samples@.len(),
                r@.len() == j,
                self.wf(),
                forall|k: int| 0 <= k < samples@.len() ==> (#[trigger] samples@[k])@.len() == self.environment.len(),
                forall|k: int| 0 <= k < samples@.len() ==> self.objective.eval_bound(sample_values(#[trigger] samples@[k]@))
                    <= Bias::MAX,
                forall|k: int, i: int|
                    0 <= k < samples@.len() && 0 <= i < self.constraints.entries().len() ==> (#[trigger] self.constraints.entries()[i]).1.lhs.eval_bound(
                        sample_values(#[trigger] samples@[k]@),
                    ) <= Bias::MAX,
                forall|k: int| 0 <= k < j ==> {
                    let e = #[trigger] r@[k];
                    let s = sample_values(samples@[k]@);
                    &&& e.objective == self.objective.value(s)
                    &&& e.constraints@.len() == self.constraints.entries().len()
                    &&& forall|i: int| 0 <= i < e.constraints@.len() ==> e.constraints@[i] == holds_at(
                        #[trigger] self.constraints.entries()[i].1,
                        s,
                    )
                    &&& e.feasible == forall|i: int| 0 <= i < self.constraints.entries().len() ==> holds_at(
                        #[trigger] self.constraints.entries()[i].1,
                        s,
                    )
                },
            decreases samples@.len() - j,
        {
            proof {
                assert(samples@[j as int]@.len() == self.environment.len());
            }
            match self.evaluate_sample(&samples[j]) {
                Ok(e) => {
                    r.push(e);
                },
                Err(e) => {
                    return Err(e);
                },
            }
            j = j + 1;
        }
        Ok(r)
    }

    /// The model of a quadratic unconstrained problem, in the empty environment `env`;
    /// an error, for the first name that is illegal or repeated, when a variable
    /// cannot be created.
    pub fn from_qubo(qubo: Qubo, env: Environment) -> (r: Result<Model, VariableCreationErr>)
        requires
            env.wf(),
            env.len() == 0,
            qubo.matrix_flat@.len() == qubo.num_variables as int * qubo.num_variables as int,
            qubo.variable_names@.len() >= qubo.num_variables,
            seq_abs(qubo.matrix_flat@) + crate::expression::abs(qubo.offset as int) <= Bias::MAX,
        ensures
            r is Ok <==> forall|k: int|
                0 <= k < qubo.num_variables ==> name_ok_at(
                    requested_names(Some(qubo.variable_names), qubo.num_variables),
                    k,
                ),
            r matches Ok(m) ==> m.wf(),
            r matches Ok(m) ==> m.name@ == qubo.name@,
            r matches Ok(m) ==> m.environment.names() == requested_names(
                Some(qubo.variable_names),
                qubo.num_variables,
            ),
            r matches Ok(m) ==> forall|i: int|
                0 <= i < qubo.num_variables ==> m.environment.vtypes()[i] == qubo.vtype,
            r matches Ok(m) ==> forall|s: Seq<int>| valid_sample(m.environment.vtypes(), s) ==> #[trigger] m.objective.value(s)
                == dense_form(qubo.matrix_flat@, qubo.num_variables as nat, s) + qubo.offset,
    {
        let Qubo { name, vtype, matrix_flat, num_variables, offset, variable_names } = qubo;
        Model::new_from_dense(
            Some(name),
            Some(vtype),
            &matrix_flat,
            num_variables,
            Some(offset),
            Some(variable_names),
            env,
        )
    }

    /// Whether the two models have the same name and environment, equal objectives and
    /// equal constraints.
    pub fn eq(&self, other: &Model) -> (r: bool)
        requires
            self.wf(),
            other.wf(),
        ensures
            r == (self.name@ == other.name@ && self.environment.id == other.environment.id
                && self.objective.equals(&other.objective) && self.constraints.equals(&other.constraints)),
    {
        proof {
            assert(self.environment.len() == self.environment.varcount as nat);
            assert(other.environment.len() == other.environment.varcount as nat);
            assert forall|i: int| 0 <= i < self.constraints.entries().len() implies (#[trigger] self.constraints.entries()[i]).1.lhs.comparable() by {
                assert(self.constraints.entries()[i].1.lhs.belongs_to(&self.environment));
            }
            assert forall|i: int| 0 <= i < other.constraints.entries().len() implies (#[trigger] other.constraints.entries()[i]).1.lhs.comparable() by {
                assert(other.constraints.entries()[i].1.lhs.belongs_to(&other.environment));
            }
        }
        self.name == other.name && self.environment.id == other.environment.id && self.objective.eq(&other.objective)
            && self.constraints.eq(&other.constraints)
    }

    /// Whether the two models have the same name, sense and variables (names and types
    /// in order), objectives of equal contents and constraint collections of equal
    /// contents, whatever their environments' identities.
    pub fn is_equal_contents(&self, other: &Model) -> (r: bool)
        requires
            self.wf(),
            other.wf(),
        ensures
            r == (self.name@ == other.name@ && self.environment.names() == other.environment.names()
                && self.environment.vtypes() == other.environment.vtypes()
                && self.objective.contents_equal(&other.objective)
                && self.constraints.contents_equal(&other.constraints) && self.sense == other.sense),
    {
        proof {
            assert(self.environment.len() == self.environment.varcount as nat);
            assert(other.environment.len() == other.environment.varcount as nat);
            assert forall|i: int| 0 <= i < self.constraints.entries().len() implies (#[trigger] self.constraints.entries()[i]).1.lhs.comparable() by {
                assert(self.constraints.entries()[i].1.lhs.belongs_to(&self.environment));
            }
            assert forall|i: int| 0 <= i < other.constraints.entries().len() implies (#[trigger] other.constraints.entries()[i]).1.lhs.comparable() by {
                assert(other.constraints.entries()[i].1.lhs.belongs_to(&other.environment));
            }
        }
        let name_eq = self.name == other.name;
        let env_eq = self.environment.is_equal_contents(&other.environment);
        let obj_eq = self.objective.is_equal_contents(&other.objective);
        let const_eq = self.constraints.is_equal_contents(&other.constraints);
        let sense_eq = self.sense == other.sense;
        name_eq && env_eq && obj_eq && const_eq && sense_eq
    }
}

} // verus!
