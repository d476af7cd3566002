//! Properties that relate several operations of the library.
use vstd::prelude::*;

use crate::addition::lemma_terms_same_view;
use crate::collection::{distinct_names, entries_insert, find_name};
use crate::constraint::Constraint;
use crate::environment::{is_valid_var_name, Environment, VarRef};
use crate::expression::{terms_value, Bias, Expression, Term};
use crate::inspection::terms_degree;
use crate::model::{holds_at, max_lhs_degree, violated_names, Model};
use crate::monomial::{count, is_reduction, lemma_sorted_unique, reduced_count, valid_sample};
use crate::types::{Comparator, Vtype};

verus! {

/// Moving the offset of the left-hand side to the right-hand side, as `Constraint::new`
/// does, keeps the meaning of the constraint: it holds at exactly the samples at which
/// the given left-hand side and right-hand side are in the relation.
pub proof fn law_new_constraint_keeps_verdicts(
    lhs: Expression,
    rhs: Bias,
    comparator: Comparator,
    c: Constraint,
    s: Seq<int>,
)
    requires
        c.lhs.offset == 0,
        c.lhs.terms@ == lhs.terms@,
        c.rhs == rhs - lhs.offset,
        c.comparator == comparator,
    ensures
        holds_at(c, s) == comparator.holds(lhs.value(s), rhs as int),
{
    assert(c.lhs.value(s) == lhs.value(s) - lhs.offset);
}

/// A constraint added under a new name is found under that name, at the end.
pub proof fn law_added_constraint_is_found(
    before: Seq<(Seq<char>, Constraint)>,
    name: Seq<char>,
    c: Constraint,
)
    requires
        distinct_names(before),
        find_name(before, name) is None,
    ensures
        find_name(entries_insert(before, name, c), name) == Some(before.len() as int),
        entries_insert(before, name, c)[before.len() as int] == (name, c),
        distinct_names(entries_insert(before, name, c)),
{
    let after = entries_insert(before, name, c);
    assert(after == before.push((name, c)));
    assert(after[before.len() as int].0 == name);
    let j = choose|j: int| 0 <= j < after.len() && (#[trigger] after[j]).0 == name;
    if j < before.len() {
        assert(after[j] == before[j]);
    }
    assert forall|a: int, b: int| 0 <= a < b < after.len() implies after[a].0 != after[b].0 by {
        if b == before.len() {
            assert(after[a] == before[a]);
        }
    }
}

/// Once a constraint is removed by its name, no constraint has that name, and the
/// others keep their order.
pub proof fn law_removed_constraint_is_gone(before: Seq<(Seq<char>, Constraint)>, name: Seq<char>)
    requires
        distinct_names(before),
    ensures
        find_name(
            match find_name(before, name) {
                Some(j) => before.remove(j),
                None => before,
            },
            name,
        ) is None,
{
    match find_name(before, name) {
        Some(j) => {
            let after = before.remove(j);
            if exists|i: int| 0 <= i < after.len() && (#[trigger] after[i]).0 == name {
                let i = choose|i: int| 0 <= i < after.len() && (#[trigger] after[i]).0 == name;
                let src = if i < j { i } else { i + 1 };
                assert(after[i] == before[src]);
                if src < j {
                    assert(before[src].0 != before[j].0);
                } else {
                    assert(before[j].0 != before[src].0);
                }
            }
        },
        None => {},
    }
}

/// After a variable is added, looking its name up gives its index.
pub proof fn law_added_variable_is_found(before: Environment, after: Environment, name: Seq<char>, v: VarRef, i: u32)
    requires
        after.wf(),
        v.id == before.len(),
        after.names() == before.names().push(name),
        i < after.len(),
        after.names()[i as int] == name,
    ensures
        i == v.id,
{
    assert(after.names().len() == after.len());
    assert(before.names().len() == before.len());
    if i != v.id {
        assert(after.names()[v.id as int] == name);
        if i < v.id {
            assert(after.names()[i as int] != after.names()[v.id as int]);
        }
    }
}

/// A sample satisfies every constraint exactly when no constraint is violated.
pub proof fn law_feasible_iff_nothing_violated(es: Seq<(Seq<char>, Constraint)>, s: Seq<int>)
    ensures
        (violated_names(es, s).len() == 0) == (forall|i: int| 0 <= i < es.len() ==> holds_at(#[trigger] es[i].1, s)),
    decreases es.len(),
{
    if es.len() > 0 {
        let d = es.drop_last();
        law_feasible_iff_nothing_violated(d, s);
        if forall|i: int| 0 <= i < es.len() ==> holds_at(#[trigger] es[i].1, s) {
            assert forall|i: int| 0 <= i < d.len() implies holds_at(#[trigger] d[i].1, s) by {
                assert(d[i] == es[i]);
                assert(holds_at(es[i].1, s));
            }
            assert(holds_at(es[es.len() - 1].1, s));
        } else {
            let i = choose|i: int| 0 <= i < es.len() && !holds_at(#[trigger] es[i].1, s);
            if i < d.len() {
                assert(d[i] == es[i]);
            }
        }
    }
}

/// Replacing a variable by itself changes no value.
pub proof fn law_substitution_by_itself(e: Expression, o: Expression, t: u32, vtypes: Seq<crate::types::Vtype>)
    requires
        (t as int) < vtypes.len(),
        forall|s: Seq<int>| valid_sample(vtypes, s) ==> #[trigger] o.value(s) == e.value(s.update(t as int, s[t as int])),
    ensures
        forall|s: Seq<int>| valid_sample(vtypes, s) ==> #[trigger] o.value(s) == e.value(s),
{
    assert forall|s: Seq<int>| valid_sample(vtypes, s) implies #[trigger] o.value(s) == e.value(s) by {
        assert(s.update(t as int, s[t as int]) =~= s);
    }
}

/// Negating twice gives back every coefficient.
pub proof fn law_double_negation(e: Expression, f: Expression, g: Expression)
    requires
        forall|k: Seq<u32>| #[trigger] f.coeff(k) == -e.coeff(k),
        forall|k: Seq<u32>| #[trigger] g.coeff(k) == -f.coeff(k),
    ensures
        forall|k: Seq<u32>| #[trigger] g.coeff(k) == e.coeff(k),
{
    assert forall|k: Seq<u32>| #[trigger] g.coeff(k) == e.coeff(k) by {
        assert(f.coeff(k) == -e.coeff(k));
    }
}

/// Reducing a reduced product changes nothing: the canonical form of a canonical form
/// is itself.
pub proof fn law_reduction_is_idempotent(vars: Seq<u32>, vtypes: Seq<Vtype>, r: Seq<u32>, r2: Seq<u32>)
    requires
        is_reduction(vars, vtypes, r),
        is_reduction(r, vtypes, r2),
    ensures
        r2 == r,
{
    assert forall|v: u32| #[trigger] count(r2, v) == count(r, v) by {
        assert(count(r, v) == reduced_count(count(vars, v), vtypes[v as int]));
        assert(count(r2, v) == reduced_count(count(r, v), vtypes[v as int]));
    }
    lemma_sorted_unique(r2, r);
}

/// Subtracting what was added gives back every coefficient.
pub proof fn law_subtraction_undoes_addition(a: Expression, b: Expression, sum: Expression, back: Expression)
    requires
        forall|k: Seq<u32>| #[trigger] sum.coeff(k) == a.coeff(k) + b.coeff(k),
        forall|k: Seq<u32>| #[trigger] back.coeff(k) == sum.coeff(k) - b.coeff(k),
    ensures
        forall|k: Seq<u32>| #[trigger] back.coeff(k) == a.coeff(k),
{
    assert forall|k: Seq<u32>| #[trigger] back.coeff(k) == a.coeff(k) by {
        assert(sum.coeff(k) == a.coeff(k) + b.coeff(k));
    }
}

/// The product of two expressions does not depend on their order: wherever every
/// variable takes a value of its type, `a * b` and `b * a` have the same value.
pub proof fn law_product_commutes(a: Expression, b: Expression, ab: Expression, ba: Expression, vtypes: Seq<Vtype>)
    requires
        forall|s: Seq<int>| valid_sample(vtypes, s) ==> #[trigger] ab.value(s) == a.value(s) * b.value(s),
        forall|s: Seq<int>| valid_sample(vtypes, s) ==> #[trigger] ba.value(s) == b.value(s) * a.value(s),
    ensures
        forall|s: Seq<int>| valid_sample(vtypes, s) ==> #[trigger] ab.value(s) == ba.value(s),
{
    assert forall|s: Seq<int>| valid_sample(vtypes, s) implies #[trigger] ab.value(s) == ba.value(s) by {
        let x = a.value(s);
        let y = b.value(s);
        assert(x * y == y * x) by (nonlinear_arith);
    }
}

/// Expressions that hold the same terms and variables have equal contents, whatever
/// their environments.
proof fn lemma_same_but_env_contents(a: Expression, b: Expression)
    requires
        a.same_but_env(&b),
    ensures
        a.contents_equal(&b),
{
    assert forall|i: int| 0 <= i < a.terms@.len() implies #[trigger] a.terms@[i].vars@ == b.terms@[i].vars@
        && a.terms@[i].bias == b.terms@[i].bias by {
        assert(b.terms@[i].vars@ == a.terms@[i].vars@);
    }
    lemma_terms_same_view(a.terms@, b.terms@);
    assert(a.active_set() =~= b.active_set());
}

/// With distinct names, the entry named like the one at `i` is the one at `i`.
proof fn lemma_name_at(es: Seq<(Seq<char>, Constraint)>, i: int)
    requires
        distinct_names(es),
        0 <= i < es.len(),
    ensures
        find_name(es, es[i].0) == Some(i),
{
    let j = choose|j: int| 0 <= j < es.len() && (#[trigger] es[j]).0 == es[i].0;
    if j != i {
        if j < i {
            assert(es[j].0 != es[i].0);
        } else {
            assert(es[i].0 != es[j].0);
        }
    }
}

/// A deep clone has the contents of the model that it was cloned from: the same name,
/// sense and variables, an objective of equal contents and constraints of equal
/// contents under the same names.
pub proof fn law_deep_clone_keeps_contents(m: Model, c: Model)
    requires
        m.wf(),
        c.wf(),
        c.environment.names() == m.environment.names(),
        c.environment.vtypes() == m.environment.vtypes(),
        c.objective.same_but_env(&m.objective),
        c.constraints.entries().len() == m.constraints.entries().len(),
        forall|i: int| 0 <= i < m.constraints.entries().len() ==> {
            let (n, d) = #[trigger] c.constraints.entries()[i];
            let (n0, d0) = m.constraints.entries()[i];
            &&& n == n0
            &&& d.lhs.same_but_env(&d0.lhs)
            &&& d.rhs == d0.rhs
            &&& d.comparator == d0.comparator
            &&& d.name@ == d0.name@
        },
        c.name@ == m.name@,
        c.sense == m.sense,
    ensures
        m.objective.contents_equal(&c.objective),
        m.constraints.contents_equal(&c.constraints),
{
    lemma_same_but_env_contents(m.objective, c.objective);
    let es = m.constraints.entries();
    let cs = c.constraints.entries();
    assert forall|i: int| 0 <= i < es.len() implies match find_name(cs, #[trigger] es[i].0) {
        Some(j) => es[i].1.contents_equal(&cs[j].1),
        None => false,
    } by {
        assert(cs[i].0 == es[i].0);
        lemma_name_at(cs, i);
        lemma_same_but_env_contents(es[i].1.lhs, cs[i].1.lhs);
    }
}

/// The comparators mean what their symbols say: `==` holds exactly for equal sides,
/// `<=` exactly where the left side is not larger, and `>=` exactly where it is not
/// smaller, so a constraint whose sides are equal holds under each of them.
pub proof fn law_comparators_compare(lhs: int, rhs: int)
    ensures
        Comparator::Eq.holds(lhs, rhs) == (lhs == rhs),
        Comparator::Le.holds(lhs, rhs) == (lhs <= rhs),
        Comparator::Ge.holds(lhs, rhs) == (lhs >= rhs),
        Comparator::Eq.holds(lhs, lhs) && Comparator::Le.holds(lhs, lhs) && Comparator::Ge.holds(lhs, lhs),
{
}

/// A variable name is legal exactly when it is not empty, starts with an ASCII letter,
/// lower or upper case, and holds nothing but ASCII letters, digits, `_` and `,`.
pub proof fn law_legal_names(name: Seq<char>)
    ensures
        is_valid_var_name(name) <==> {
            &&& name.len() > 0
            &&& ('a' <= name[0] <= 'z') || ('A' <= name[0] <= 'Z')
            &&& forall|i: int|
                0 <= i < name.len() ==> ('a' <= #[trigger] name[i] <= 'z') || ('A' <= name[i] <= 'Z') || ('0'
                    <= name[i] <= '9') || name[i] == '_' || name[i] == ','
        },
{
}

/// The degree of a list of terms is the largest number of factors of a term whose bias
/// is not zero: no such term has more, one of them has that many, and it is zero where
/// there is none.
pub proof fn law_degree_is_the_largest(ts: Seq<Term>)
    ensures
        forall|j: int| 0 <= j < ts.len() && (#[trigger] ts[j]).bias != 0 ==> ts[j].vars@.len() <= terms_degree(ts),
        terms_degree(ts) == 0 || exists|j: int|
            0 <= j < ts.len() && (#[trigger] ts[j]).bias != 0 && ts[j].vars@.len() == terms_degree(ts),
    decreases ts.len(),
{
    if ts.len() > 0 {
        let p = ts.drop_last();
        law_degree_is_the_largest(p);
        assert forall|j: int| 0 <= j < ts.len() && (#[trigger] ts[j]).bias != 0 implies ts[j].vars@.len() <= terms_degree(ts) by {
            if j < p.len() {
                assert(p[j] == ts[j]);
            }
        }
        if terms_degree(ts) != 0 {
            if terms_degree(ts) == terms_degree(p) {
                let j = choose|j: int| 0 <= j < p.len() && (#[trigger] p[j]).bias != 0 && p[j].vars@.len() == terms_degree(p);
                assert(ts[j] == p[j]);
            } else {
                assert(ts[ts.len() - 1] == ts.last());
            }
        }
    }
}

/// The largest constraint degree of a model bounds the number of factors of every term
/// with non-zero bias of every left-hand side, is reached by one of them, and is zero
/// where there is none.
pub proof fn law_constraint_degree_is_the_largest(es: Seq<(Seq<char>, Constraint)>)
    ensures
        forall|i: int, j: int|
            0 <= i < es.len() && 0 <= j < es[i].1.lhs.terms@.len() && (#[trigger] es[i].1.lhs.terms@[j]).bias != 0
                ==> es[i].1.lhs.terms@[j].vars@.len() <= max_lhs_degree(es),
        max_lhs_degree(es) == 0 || exists|i: int, j: int|
            0 <= i < es.len() && 0 <= j < es[i].1.lhs.terms@.len() && (#[trigger] es[i].1.lhs.terms@[j]).bias != 0
                && es[i].1.lhs.terms@[j].vars@.len() == max_lhs_degree(es),
    decreases es.len(),
{
    if es.len() > 0 {
        let p = es.drop_last();
        let n = es.len() - 1;
        law_constraint_degree_is_the_largest(p);
        law_degree_is_the_largest(es[n].1.lhs.terms@);
        assert(es.last() == es[n]);
        assert forall|i: int, j: int|
            0 <= i < es.len() && 0 <= j < es[i].1.lhs.terms@.len() && (#[trigger] es[i].1.lhs.terms@[j]).bias != 0
                implies es[i].1.lhs.terms@[j].vars@.len() <= max_lhs_degree(es) by {
            if i < n {
                assert(p[i] == es[i]);
            }
        }
        if max_lhs_degree(es) != 0 {
            if max_lhs_degree(es) == max_lhs_degree(p) {
                let (i, j) = choose|i: int, j: int|
                    0 <= i < p.len() && 0 <= j < p[i].1.lhs.terms@.len() && (#[trigger] p[i].1.lhs.terms@[j]).bias != 0
                        && p[i].1.lhs.terms@[j].vars@.len() == max_lhs_degree(p);
                assert(es[i] == p[i]);
                assert(es[i].1.lhs.terms@[j] == p[i].1.lhs.terms@[j]);
            } else {
                let ts = es[n].1.lhs.terms@;
                let j = choose|j: int| 0 <= j < ts.len() && (#[trigger] ts[j]).bias != 0 && ts[j].vars@.len() == terms_degree(ts);
                assert(es[n].1.lhs.terms@[j] == ts[j]);
            }
        }
    }
}

/// Two expressions have equal contents exactly when they have the same offset, hold
/// the same number of variables and give every product of one or more variables the
/// same coefficient, those that only one of them holds included; so equality of
/// contents, and equality, do not depend on the order of the two.
pub proof fn law_equal_contents(a: Expression, b: Expression)
    ensures
        a.contents_equal(&b) <==> {
            &&& a.offset == b.offset
            &&& a.active_set().len() == b.active_set().len()
            &&& forall|k: Seq<u32>| k.len() > 0 ==> #[trigger] a.coeff(k) == b.coeff(k)
        },
        a.contents_equal(&b) == b.contents_equal(&a),
        a.equals(&b) == b.equals(&a),
        a.equals(&b) <==> a.env_id == b.env_id && a.contents_equal(&b),
{
    if a.contents_equal(&b) {
        assert forall|k: Seq<u32>| k.len() > 0 implies #[trigger] b.coeff(k) == a.coeff(k) by {
            assert(a.coeff(k) == b.coeff(k));
        }
    }
    if b.contents_equal(&a) {
        assert forall|k: Seq<u32>| k.len() > 0 implies #[trigger] a.coeff(k) == b.coeff(k) by {
            assert(b.coeff(k) == a.coeff(k));
        }
    }
}

} // verus!
