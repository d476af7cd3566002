//! Copying, negating, adding and subtracting expressions.
use vstd::prelude::*;

use crate::environment::{Environment, VarIndex, VarRef};
use crate::errors::VariablesFromDifferentEnvsErr;
use crate::expression::{
    abs, lemma_terms_abs_nonneg, terms_abs, terms_coeff, terms_value, Bias, Expression, Term,
};
use crate::monomial::monomial_value;

verus! {

/// Terms that agree in every monomial and bias have the same coefficients, value
/// and absolute sum.
pub proof fn lemma_terms_same_view(a: Seq<Term>, b: Seq<Term>)
    requires
        a.len() == b.len(),
        forall|i: int| 0 <= i < a.len() ==> #[trigger] a[i].vars@ == b[i].vars@ && a[i].bias == b[i].bias,
    ensures
        forall|k: Seq<u32>| #[trigger] terms_coeff(a, k) == terms_coeff(b, k),
        forall|s: Seq<int>| #[trigger] terms_value(a, s) == terms_value(b, s),
        terms_abs(a) == terms_abs(b),
    decreases a.len(),
{
    if a.len() > 0 {
        let n = a.len() - 1;
        lemma_terms_same_view(a.drop_last(), b.drop_last());
        assert(a[n].vars@ == b[n].vars@ && a[n].bias == b[n].bias);
        assert forall|k: Seq<u32>| #[trigger] terms_coeff(a, k) == terms_coeff(b, k) by {
            assert(terms_coeff(a.drop_last(), k) == terms_coeff(b.drop_last(), k));
        }
        assert forall|s: Seq<int>| #[trigger] terms_value(a, s) == terms_value(b, s) by {
            assert(terms_value(a.drop_last(), s) == terms_value(b.drop_last(), s));
        }
    }
}

pub proof fn lemma_terms_abs_prefix(ts: Seq<Term>, i: int)
    requires
        0 <= i <= ts.len(),
    ensures
        terms_abs(ts.take(i)) <= terms_abs(ts),
    decreases ts.len() - i,
{
    if i < ts.len() {
        lemma_terms_abs_prefix(ts, i + 1);
        assert(ts.take(i + 1).drop_last() =~= ts.take(i));
    } else {
        assert(ts.take(i) =~= ts);
    }
}

/// The terms of `ts` with every bias negated.
pub open spec fn negated(ts: Seq<Term>, out: Seq<Term>) -> bool {
    &&& out.len() == ts.len()
    &&& forall|i: int| 0 <= i < ts.len() ==> #[trigger] out[i].vars@ == ts[i].vars@ && out[i].bias == -ts[i].bias
}

pub proof fn lemma_terms_negated(ts: Seq<Term>, out: Seq<Term>)
    requires
        negated(ts, out),
    ensures
        forall|k: Seq<u32>| #[trigger] terms_coeff(out, k) == -terms_coeff(ts, k),
        forall|s: Seq<int>| #[trigger] terms_value(out, s) == -terms_value(ts, s),
        terms_abs(out) == terms_abs(ts),
    decreases ts.len(),
{
    if ts.len() > 0 {
        assert(negated(ts.drop_last(), out.drop_last()));
        lemma_terms_negated(ts.drop_last(), out.drop_last());
        let n = ts.len() - 1;
        assert(out[n].vars@ == ts[n].vars@ && out[n].bias == -ts[n].bias);
        assert forall|k: Seq<u32>| #[trigger] terms_coeff(out, k) == -terms_coeff(ts, k) by {
            assert(terms_coeff(out.drop_last(), k) == -terms_coeff(ts.drop_last(), k));
        }
        assert forall|s: Seq<int>| #[trigger] terms_value(out, s) == -terms_value(ts, s) by {
            assert(terms_value(out.drop_last(), s) == -terms_value(ts.drop_last(), s));
            let m = monomial_value(ts[n].vars@, s);
            let b = ts[n].bias as int;
            assert((-b) * m == -(b * m)) by (nonlinear_arith);
        }
    }
}

impl Expression {
    /// The two expressions hold the same environment, offset, terms and variables.
    pub open spec fn same_content(&self, other: &Expression) -> bool {
        &&& self.env_id == other.env_id
        &&& self.offset == other.offset
        &&& self.active@ == other.active@
        &&& self.terms@.len() == other.terms@.len()
        &&& forall|i: int| 0 <= i < self.terms@.len() ==> #[trigger] self.terms@[i].vars@ == other.terms@[i].vars@
            && self.terms@[i].bias == other.terms@[i].bias
    }

    /// The two expressions hold the same offset, terms and variables, whatever their
    /// environments.
    pub open spec fn same_but_env(&self, other: &Expression) -> bool {
        &&& self.offset == other.offset
        &&& self.active@ == other.active@
        &&& self.terms@.len() == other.terms@.len()
        &&& forall|i: int| 0 <= i < self.terms@.len() ==> #[trigger] self.terms@[i].vars@ == other.terms@[i].vars@
            && self.terms@[i].bias == other.terms@[i].bias
    }

    /// A copy of the expression that belongs to the environment of identity `env_id`.
    pub fn deep_clone(&self, env_id: crate::environment::EnvId) -> (r: Expression)
        ensures
            r.env_id == env_id,
            r.same_but_env(self),
            forall|vt| self.wf(vt) ==> r.wf(vt),
            forall|s: Seq<int>| #[trigger] r.value(s) == self.value(s),
            forall|k: Seq<u32>| #[trigger] r.coeff(k) == self.coeff(k),
            forall|u: u32| #[trigger] r.is_active(u) == self.is_active(u),
            r.abs_sum() == self.abs_sum(),
    {
        let c = self.copy();
        let ghost cg = c;
        let r = Expression { env_id, offset: c.offset, terms: c.terms, active: c.active };
        proof {
            assert forall|s: Seq<int>| #[trigger] r.value(s) == self.value(s) by {
                assert(cg.value(s) == self.value(s));
            }
            assert forall|k: Seq<u32>| #[trigger] r.coeff(k) == self.coeff(k) by {
                assert(cg.coeff(k) == self.coeff(k));
            }
        }
        r
    }

    /// A copy of the expression, in the same environment.
    pub fn copy(&self) -> (r: Expression)
        ensures
            r.same_content(self),
            r.env_id == self.env_id,
            r.offset == self.offset,
            r.active@ == self.active@,
            r.terms@.len() == self.terms@.len(),
            forall|i: int| 0 <= i < self.terms@.len() ==> #[trigger] r.terms@[i].vars@ == self.terms@[i].vars@
                && r.terms@[i].bias == self.terms@[i].bias,
            forall|k: Seq<u32>| #[trigger] r.coeff(k) == self.coeff(k),
            forall|s: Seq<int>| #[trigger] r.value(s) == self.value(s),
            r.abs_sum() == self.abs_sum(),
            forall|vt| self.wf(vt) ==> r.wf(vt),
            forall|u: u32| #[trigger] r.is_active(u) == self.is_active(u),
    {
        let mut terms: Vec<Term> = Vec::new();
        let mut i: usize = 0;
        while i < self.terms.len()
            invariant
                0 <= i <= self.terms.len(),
                terms@.len() == i,
                forall|k: int| 0 <= k < i ==> #[trigger] terms@[k].vars@ == self.terms@[k].vars@
                    && terms@[k].bias == self.terms@[k].bias,
            decreases self.terms.len() - i,
        {
            terms.push(self.terms[i].copy());
            i = i + 1;
        }
        let mut active: Vec<bool> = Vec::new();
        let mut j: usize = 0;
        while j < self.active.len()
            invariant
                0 <= j <= self.active.len(),
                active@ =~= self.active@.take(j as int),
            decreases self.active.len() - j,
        {
            active.push(self.active[j]);
            j = j + 1;
        }
        assert(active@ =~= self.active@);
        let r = Expression { env_id: self.env_id, offset: self.offset, terms, active };
        proof {
            lemma_terms_same_view(r.terms@, self.terms@);
            assert forall|vt| self.wf(vt) implies r.wf(vt) by {
                assert forall|a: int, b: int|
                    0 <= a < b < r.terms@.len() implies r.terms@[a].vars@ != r.terms@[b].vars@ by {
                    assert(self.terms@[a].vars@ != self.terms@[b].vars@);
                }
                assert forall|a: int, k: int|
                    0 <= a < r.terms@.len() && 0 <= k < r.terms@[a].vars@.len() implies r.is_active(
                    #[trigger] r.terms@[a].vars@[k],
                ) by {
                    assert(self.is_active(self.terms@[a].vars@[k]));
                }
                assert forall|a: int| 0 <= a < r.terms@.len() implies crate::monomial::is_canonical(
                    #[trigger] r.terms@[a].vars@,
                    vt,
                ) && r.terms@[a].vars@.len() > 0 by {
                    assert(crate::monomial::is_canonical(self.terms@[a].vars@, vt));
                }
            }
        }
        r
    }

    /// The expression with every coefficient, the offset included, negated.
    pub(crate) fn negated(&self) -> (r: Expression)
        requires
            self.negatable(),
        ensures
            r.offset == -self.offset,
            forall|s: Seq<int>| #[trigger] terms_value(r.terms@, s) == -terms_value(self.terms@, s),
            terms_abs(r.terms@) == terms_abs(self.terms@),
            r.env_id == self.env_id,
            r.active@ == self.active@,
            forall|k: Seq<u32>| #[trigger] r.coeff(k) == -self.coeff(k),
            forall|s: Seq<int>| #[trigger] r.value(s) == -self.value(s),
            r.abs_sum() == self.abs_sum(),
            forall|vt| self.wf(vt) ==> r.wf(vt),
            forall|u: u32| #[trigger] r.is_active(u) == self.is_active(u),
    {
        let c = self.copy();
        let mut terms: Vec<Term> = Vec::new();
        let mut i: usize = 0;
        proof {
            lemma_terms_abs_nonneg(self.terms@);
        }
        while i < self.terms.len()
            invariant
                0 <= i <= self.terms.len(),
                self.negatable(),
                terms_abs(self.terms@) >= 0,
                negated(self.terms@.take(i as int), terms@),
            decreases self.terms.len() - i,
        {
            let t = Term { vars: self.terms[i].vars.clone(), bias: -self.terms[i].bias };
            proof {
                assert(t.vars@ =~= self.terms@[i as int].vars@);
            }
            terms.push(t);
            proof {
                assert forall|k: int| 0 <= k < i + 1 implies #[trigger] terms@[k].vars@ == self.terms@.take(
                    i + 1,
                )[k].vars@ && terms@[k].bias == -self.terms@.take(i + 1)[k].bias by {
                    if k < i {
                        assert(self.terms@.take(i as int)[k] == self.terms@.take(i + 1)[k]);
                    }
                }
            }
            i = i + 1;
        }
        assert(self.terms@.take(self.terms@.len() as int) =~= self.terms@);
        let r = Expression { env_id: c.env_id, offset: -c.offset, terms, active: c.active };
        proof {
            lemma_terms_negated(self.terms@, r.terms@);
            assert forall|vt| self.wf(vt) implies r.wf(vt) by {
                assert forall|a: int, b: int|
                    0 <= a < b < r.terms@.len() implies r.terms@[a].vars@ != r.terms@[b].vars@ by {
                    assert(self.terms@[a].vars@ != self.terms@[b].vars@);
                }
                assert forall|a: int, k: int|
                    0 <= a < r.terms@.len() && 0 <= k < r.terms@[a].vars@.len() implies r.is_active(
                    #[trigger] r.terms@[a].vars@[k],
                ) by {
                    assert(self.is_active(self.terms@[a].vars@[k]));
                }
                assert forall|a: int| 0 <= a < r.terms@.len() implies crate::monomial::is_canonical(
                    #[trigger] r.terms@[a].vars@,
                    vt,
                ) && r.terms@[a].vars@.len() > 0 by {
                    assert(crate::monomial::is_canonical(self.terms@[a].vars@, vt));
                }
            }
        }
        r
    }

    /// No coefficient is the one 64-bit value whose negation does not fit.
    pub open spec fn negatable(&self) -> bool {
        &&& self.offset != Bias::MIN
        &&& forall|i: int| 0 <= i < self.terms@.len() ==> #[trigger] self.terms@[i].bias != Bias::MIN
    }

    /// An expression whose absolute sum fits can be negated.
    pub proof fn lemma_negatable(&self)
        requires
            self.abs_sum() <= Bias::MAX,
        ensures
            self.negatable(),
    {
        lemma_terms_abs_nonneg(self.terms@);
        assert forall|i: int| 0 <= i < self.terms@.len() implies #[trigger] self.terms@[i].bias
            != Bias::MIN by {
            crate::expression::lemma_terms_abs_bound(self.terms@, i);
        }
    }

    /// The negated expression: every coefficient, the offset included, negated.
    pub fn negate(&self) -> (r: Expression)
        requires
            self.negatable(),
        ensures
            r.env_id == self.env_id,
            r.active@ == self.active@,
            r.offset == -self.offset,
            forall|k: Seq<u32>| #[trigger] r.coeff(k) == -self.coeff(k),
            forall|s: Seq<int>| #[trigger] r.value(s) == -self.value(s),
            r.abs_sum() == self.abs_sum(),
            forall|vt| self.wf(vt) ==> r.wf(vt),
            forall|u: u32| #[trigger] r.is_active(u) == self.is_active(u),
    {
        self.negated()
    }

    /// The negation operator: `negate`.
    pub fn neg(&self) -> (r: Expression)
        requires
            self.negatable(),
        ensures
            r.env_id == self.env_id,
            r.active@ == self.active@,
            r.offset == -self.offset,
            forall|k: Seq<u32>| #[trigger] r.coeff(k) == -self.coeff(k),
            forall|s: Seq<int>| #[trigger] r.value(s) == -self.value(s),
            r.abs_sum() == self.abs_sum(),
            forall|vt| self.wf(vt) ==> r.wf(vt),
            forall|u: u32| #[trigger] r.is_active(u) == self.is_active(u),
    {
        self.negate()
    }

    /// Marks every variable of `other` as part of `self`.
    pub(crate) fn add_variables_of(&mut self, env: &Environment, other: &Expression)
        requires
            old(self).belongs_to(env),
            other.belongs_to(env),
        ensures
            final(self).belongs_to(env),
            forall|u: u32| #[trigger] final(self).is_active(u) == (old(self).is_active(u) || other.is_active(u)),
            forall|k: Seq<u32>| #[trigger] final(self).coeff(k) == old(self).coeff(k),
            forall|s: Seq<int>| #[trigger] final(self).value(s) == old(self).value(s),
            final(self).abs_sum() == old(self).abs_sum(),
            final(self).env_id == old(self).env_id,
    {
        let ghost old_self = *self;
        let mut v: usize = 0;
        while v < other.active.len()
            invariant
                0 <= v <= other.active.len(),
                other.belongs_to(env),
                self.belongs_to(env),
                forall|u: u32| #[trigger] self.is_active(u) == (old_self.is_active(u) || (other.is_active(u) && (u as int) < v)),
                self.offset == old_self.offset,
                self.terms@ == old_self.terms@,
                self.env_id == old_self.env_id,
            decreases other.active.len() - v,
        {
            if other.active[v] {
                proof {
                    assert(env.len() == env.varcount as nat);
                }
                self.add_variable(env, v as VarIndex);
            }
            v = v + 1;
        }
    }

    /// The sum of `self` and `rhs`; an error when they belong to different
    /// environments.
    pub fn add(&self, env: &Environment, rhs: &Expression) -> (r: Result<
        Expression,
        VariablesFromDifferentEnvsErr,
    >)
        requires
            self.belongs_to(env),
            rhs.env_id == self.env_id ==> rhs.belongs_to(env),
            rhs.env_id == self.env_id ==> self.abs_sum() + rhs.abs_sum() <= Bias::MAX,
        ensures
            r is Err <==> rhs.env_id != self.env_id,
            r matches Ok(o) ==> {
                &&& o.belongs_to(env)
                &&& forall|k: Seq<u32>| #[trigger] o.coeff(k) == self.coeff(k) + rhs.coeff(k)
                &&& forall|s: Seq<int>| #[trigger] o.value(s) == self.value(s) + rhs.value(s)
                &&& forall|u: u32| #[trigger] o.is_active(u) == (self.is_active(u) || rhs.is_active(u))
                &&& o.abs_sum() <= self.abs_sum() + rhs.abs_sum()
            },
    {
        if self.env_id != rhs.env_id {
            return Err(VariablesFromDifferentEnvsErr);
        }
        let mut out = self.copy();
        out.add_variables_of(env, rhs);
        proof {
            lemma_terms_abs_nonneg(rhs.terms@);
            lemma_terms_abs_nonneg(self.terms@);
        }
        let ghost joined = out;
        out.add_offset(rhs.offset);
        proof {
            assert forall|u: u32| #[trigger] out.is_active(u) == (self.is_active(u) || rhs.is_active(u)) by {
                assert(out.is_active(u) == joined.is_active(u));
            }
        }
        let ghost base = out;
        let mut i: usize = 0;
        while i < rhs.terms.len()
            invariant
                0 <= i <= rhs.terms.len(),
                rhs.belongs_to(env),
                out.belongs_to(env),
                self.abs_sum() + rhs.abs_sum() <= Bias::MAX,
                terms_abs(rhs.terms@) >= 0,
                forall|u: u32| #[trigger] out.is_active(u) == (self.is_active(u) || rhs.is_active(u)),
                forall|k: Seq<u32>| #[trigger] out.coeff(k) == base.coeff(k) + terms_coeff(rhs.terms@.take(i as int), k),
                forall|s: Seq<int>| #[trigger] out.value(s) == base.value(s) + terms_value(rhs.terms@.take(i as int), s),
                out.abs_sum() <= base.abs_sum() + terms_abs(rhs.terms@.take(i as int)),
                base.abs_sum() <= self.abs_sum() + abs(rhs.offset as int),
                forall|k: Seq<u32>| #[trigger] base.coeff(k) == self.coeff(k) + (if k.len() == 0 { rhs.offset as int } else { 0 }),
                forall|s: Seq<int>| #[trigger] base.value(s) == self.value(s) + rhs.offset,
                out.env_id == self.env_id,
            decreases rhs.terms.len() - i,
        {
            let ghost before = out;
            proof {
                assert(rhs.terms@.take(i + 1).drop_last() =~= rhs.terms@.take(i as int));
                assert(rhs.terms@.take(i + 1).last() == rhs.terms@[i as int]);
                lemma_terms_abs_prefix(rhs.terms@, i + 1);
                assert forall|k: int| 0 <= k < rhs.terms@[i as int].vars@.len() implies out.is_active(
                    #[trigger] rhs.terms@[i as int].vars@[k],
                ) by {
                    assert(rhs.is_active(rhs.terms@[i as int].vars@[k]));
                }
            }
            let key = rhs.terms[i].vars.clone();
            proof {
                assert(key@ =~= rhs.terms@[i as int].vars@);
            }
            out.add_term(env, key, rhs.terms[i].bias);
            proof {
                assert forall|u: u32| #[trigger] out.is_active(u) == (self.is_active(u) || rhs.is_active(u)) by {
                    assert(out.is_active(u) == before.is_active(u));
                }
            }
            i = i + 1;
        }
        proof {
            assert(rhs.terms@.take(rhs.terms@.len() as int) =~= rhs.terms@);
            assert forall|k: Seq<u32>| #[trigger] out.coeff(k) == self.coeff(k) + rhs.coeff(k) by {}
        }
        Ok(out)
    }

    /// The difference of `self` and `rhs`; an error when they belong to different
    /// environments.
    pub fn sub(&self, env: &Environment, rhs: &Expression) -> (r: Result<
        Expression,
        VariablesFromDifferentEnvsErr,
    >)
        requires
            self.belongs_to(env),
            rhs.env_id == self.env_id ==> rhs.belongs_to(env),
            rhs.env_id == self.env_id ==> self.abs_sum() + rhs.abs_sum() <= Bias::MAX,
        ensures
            r is Err <==> rhs.env_id != self.env_id,
            r matches Ok(o) ==> {
                &&& o.belongs_to(env)
                &&& forall|k: Seq<u32>| #[trigger] o.coeff(k) == self.coeff(k) - rhs.coeff(k)
                &&& forall|s: Seq<int>| #[trigger] o.value(s) == self.value(s) - rhs.value(s)
                &&& forall|u: u32| #[trigger] o.is_active(u) == (self.is_active(u) || rhs.is_active(u))
                &&& o.abs_sum() <= self.abs_sum() + rhs.abs_sum()
            },
    {
        if self.env_id != rhs.env_id {
            return Err(VariablesFromDifferentEnvsErr);
        }
        proof {
            lemma_terms_abs_nonneg(self.terms@);
        }
        proof {
            lemma_terms_abs_nonneg(rhs.terms@);
            rhs.lemma_negatable();
        }
        let n = rhs.negated();
        self.add(env, &n)
    }

    /// Adds `rhs` to `self`; an error, with `self` unchanged, when they belong to
    /// different environments.
    pub fn add_assign(&mut self, env: &Environment, rhs: &Expression) -> (r: Result<
        (),
        VariablesFromDifferentEnvsErr,
    >)
        requires
            old(self).belongs_to(env),
            rhs.env_id == old(self).env_id ==> rhs.belongs_to(env),
            rhs.env_id == old(self).env_id ==> old(self).abs_sum() + rhs.abs_sum() <= Bias::MAX,
        ensures
            r is Err <==> rhs.env_id != old(self).env_id,
            r is Err ==> *final(self) == *old(self),
            r is Ok ==> {
                &&& final(self).belongs_to(env)
                &&& forall|k: Seq<u32>| #[trigger] final(self).coeff(k) == old(self).coeff(k) + rhs.coeff(k)
                &&& forall|s: Seq<int>| #[trigger] final(self).value(s) == old(self).value(s) + rhs.value(s)
                &&& forall|u: u32| #[trigger] final(self).is_active(u) == (old(self).is_active(u) || rhs.is_active(u))
                &&& final(self).abs_sum() <= old(self).abs_sum() + rhs.abs_sum()
            },
    {
        match self.add(env, rhs) {
            Ok(e) => {
                *self = e;
                Ok(())
            },
            Err(e) => Err(e),
        }
    }

    /// Subtracts `rhs` from `self`; an error, with `self` unchanged, when they belong
    /// to different environments.
    pub fn sub_assign(&mut self, env: &Environment, rhs: &Expression) -> (r: Result<
        (),
        VariablesFromDifferentEnvsErr,
    >)
        requires
            old(self).belongs_to(env),
            rhs.env_id == old(self).env_id ==> rhs.belongs_to(env),
            rhs.env_id == old(self).env_id ==> old(self).abs_sum() + rhs.abs_sum() <= Bias::MAX,
        ensures
            r is Err <==> rhs.env_id != old(self).env_id,
            r is Err ==> *final(self) == *old(self),
            r is Ok ==> {
                &&& final(self).belongs_to(env)
                &&& forall|k: Seq<u32>| #[trigger] final(self).coeff(k) == old(self).coeff(k) - rhs.coeff(k)
                &&& forall|s: Seq<int>| #[trigger] final(self).value(s) == old(self).value(s) - rhs.value(s)
                &&& forall|u: u32| #[trigger] final(self).is_active(u) == (old(self).is_active(u) || rhs.is_active(u))
                &&& final(self).abs_sum() <= old(self).abs_sum() + rhs.abs_sum()
            },
    {
        match self.sub(env, rhs) {
            Ok(e) => {
                *self = e;
                Ok(())
            },
            Err(e) => Err(e),
        }
    }

    /// The sum of `self` and variable `v`; an error when `v` belongs to another
    /// environment.
    pub fn add_var(&self, env: &Environment, v: &VarRef) -> (r: Result<
        Expression,
        VariablesFromDifferentEnvsErr,
    >)
        requires
            self.belongs_to(env),
            v.env_id == self.env_id ==> (v.id as nat) < env.len(),
            self.abs_sum() + 1 <= Bias::MAX,
        ensures
            r is Err <==> v.env_id != self.env_id,
            r matches Ok(o) ==> {
                &&& o.belongs_to(env)
                &&& forall|k: Seq<u32>| #[trigger] o.coeff(k) == self.coeff(k) + (if k == seq![v.id] { 1int } else { 0 })
                &&& forall|s: Seq<int>| #[trigger] o.value(s) == self.value(s) + s[v.id as int]
                &&& o.active_set() == self.active_set().insert(v.id)
            },
    {
        if self.env_id != v.env_id {
            return Err(VariablesFromDifferentEnvsErr);
        }
        let mut out = self.copy();
        proof {
            assert(out.active_set() =~= self.active_set());
        }
        out.add_linear(env, v.id, 1);
        Ok(out)
    }

    /// The difference of `self` and variable `v`; an error when `v` belongs to
    /// another environment.
    pub fn sub_var(&self, env: &Environment, v: &VarRef) -> (r: Result<
        Expression,
        VariablesFromDifferentEnvsErr,
    >)
        requires
            self.belongs_to(env),
            v.env_id == self.env_id ==> (v.id as nat) < env.len(),
            self.abs_sum() + 1 <= Bias::MAX,
        ensures
            r is Err <==> v.env_id != self.env_id,
            r matches Ok(o) ==> {
                &&& o.belongs_to(env)
                &&& forall|k: Seq<u32>| #[trigger] o.coeff(k) == self.coeff(k) - (if k == seq![v.id] { 1int } else { 0 })
                &&& forall|s: Seq<int>| #[trigger] o.value(s) == self.value(s) - s[v.id as int]
                &&& o.active_set() == self.active_set().insert(v.id)
            },
    {
        if self.env_id != v.env_id {
            return Err(VariablesFromDifferentEnvsErr);
        }
        let mut out = self.copy();
        proof {
            assert(out.active_set() =~= self.active_set());
        }
        out.add_linear(env, v.id, -1);
        Ok(out)
    }

    /// The sum of `self` and the constant `rhs`.
    pub fn add_constant(&self, rhs: Bias) -> (r: Expression)
        requires
            self.abs_sum() + abs(rhs as int) <= Bias::MAX,
        ensures
            r.env_id == self.env_id,
            forall|vt| self.wf(vt) ==> r.wf(vt),
            forall|u: u32| #[trigger] r.is_active(u) == self.is_active(u),
            forall|k: Seq<u32>| #[trigger] r.coeff(k) == self.coeff(k) + (if k.len() == 0 { rhs as int } else { 0 }),
            forall|s: Seq<int>| #[trigger] r.value(s) == self.value(s) + rhs,
    {
        let mut out = self.copy();
        out.add_offset(rhs);
        out
    }
}

} // verus!
