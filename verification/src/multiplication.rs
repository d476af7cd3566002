//! Multiplying expressions: by another expression, by a variable and by a constant.
use vstd::prelude::*;

pub mod constant;

use crate::addition::lemma_terms_abs_prefix;
use crate::environment::{Environment, VarIndex, VarRef};
use crate::errors::VariablesFromDifferentEnvsErr;
use crate::expression::{
    abs, lemma_terms_abs_bound, lemma_terms_abs_nonneg, terms_abs, terms_value, Bias, Expression,
    Term,
};
use crate::monomial::{in_range, is_canonical, lemma_value_concat, monomial_value, valid_sample};
use crate::operations::{AqResult, MulToExpression, OperationErr};
use vstd::arithmetic::power::pow;

verus! {

/// The absolute value of a product is the product of the absolute values.
pub proof fn lemma_abs_mul(x: int, y: int)
    ensures
        abs(x * y) == abs(x) * abs(y),
        abs(x) >= 0,
{
    if x >= 0 && y >= 0 {
        assert(x * y >= 0) by (nonlinear_arith)
            requires
                x >= 0,
                y >= 0,
        ;
    } else if x >= 0 && y < 0 {
        assert(x * y <= 0 && x * (-y) == -(x * y)) by (nonlinear_arith)
            requires
                x >= 0,
                y < 0,
        ;
    } else if x < 0 && y >= 0 {
        assert(x * y <= 0 && (-x) * y == -(x * y)) by (nonlinear_arith)
            requires
                x < 0,
                y >= 0,
        ;
    } else {
        assert(x * y > 0 && (-x) * (-y) == x * y) by (nonlinear_arith)
            requires
                x < 0,
                y < 0,
        ;
    }
}

/// Products of non-negative numbers grow with their factors.
pub proof fn lemma_mul_le(x: int, a: int, y: int, b: int)
    requires
        0 <= x <= a,
        0 <= y <= b,
    ensures
        0 <= x * y <= a * b,
{
    assert(0 <= x * y <= a * b) by (nonlinear_arith)
        requires
            0 <= x <= a,
            0 <= y <= b,
    ;
}

/// One more term of a prefix: its bias times its monomial is added to the value, the
/// absolute value of its bias to the absolute sum.
pub proof fn lemma_terms_take_step(ts: Seq<Term>, i: int, s: Seq<int>)
    requires
        0 <= i < ts.len(),
    ensures
        terms_value(ts.take(i + 1), s) == terms_value(ts.take(i), s) + ts[i].bias * monomial_value(
            ts[i].vars@,
            s,
        ),
        terms_abs(ts.take(i + 1)) == terms_abs(ts.take(i)) + abs(ts[i].bias as int),
{
    assert(ts.take(i + 1).drop_last() =~= ts.take(i));
    assert(ts.take(i + 1).last() == ts[i]);
}

/// The concatenation of two monomials, as a product before reduction.
fn concat_keys(a: &Vec<VarIndex>, b: &Vec<VarIndex>) -> (r: Vec<VarIndex>)
    ensures
        r@ == a@ + b@,
{
    let mut r = a.clone();
    let mut j: usize = 0;
    proof {
        assert(r@ =~= a@);
    }
    while j < b.len()
        invariant
            0 <= j <= b.len(),
            r@ =~= a@ + b@.take(j as int),
        decreases b.len() - j,
    {
        r.push(b[j]);
        j = j + 1;
        proof {
            assert(b@.take(j as int) =~= b@.take(j - 1).push(b@[j - 1]));
        }
    }
    proof {
        assert(b@.take(b.len() as int) =~= b@);
    }
    r
}

impl Expression {
    /// Adds the product of `lhs` and `rhs`, which belong to the same environment as
    /// `result`, to `result`. The product of two monomials is reduced to canonical form,
    /// so the sum equals the old value plus the product wherever every variable takes a
    /// value of its type.
    pub fn multiply(lhs: &Expression, rhs: &Expression, env: &Environment, result: &mut Expression)
        requires
            lhs.belongs_to(env),
            rhs.belongs_to(env),
            old(result).belongs_to(env),
            old(result).abs_sum() + lhs.abs_sum() * rhs.abs_sum() <= Bias::MAX,
        ensures
            final(result).belongs_to(env),
            forall|s: Seq<int>| valid_sample(env.vtypes(), s) ==> #[trigger] final(result).value(s)
                == old(result).value(s) + lhs.value(s) * rhs.value(s),
            forall|u: u32| #[trigger] final(result).is_active(u) == (old(result).is_active(u) || lhs.is_active(u)
                || rhs.is_active(u)),
            final(result).abs_sum() <= old(result).abs_sum() + lhs.abs_sum() * rhs.abs_sum(),
    {
        let ghost vt = env.vtypes();
        let ghost a = lhs.abs_sum();
        let ghost b = rhs.abs_sum();
        let ghost ol = lhs.offset as int;
        let ghost or = rhs.offset as int;
        let ghost lt = lhs.terms@;
        let ghost rt = rhs.terms@;
        proof {
            lemma_terms_abs_nonneg(lt);
            lemma_terms_abs_nonneg(rt);
            lemma_abs_mul(ol, or);
            lemma_abs_mul(or, 1);
            lemma_mul_le(abs(ol), a, abs(or), b);
            lemma_mul_le(abs(ol), a, b, b);
        }
        let ghost init = *result;
        let ghost c0 = init.abs_sum();
        proof {
            lemma_terms_abs_nonneg(init.terms@);
        }
        result.add_offset(lhs.offset * rhs.offset);
        result.add_variables_of(env, lhs);
        result.add_variables_of(env, rhs);
        let mut j: usize = 0;
        while j < rhs.terms.len()
            invariant
                0 <= j <= rhs.terms.len(),
                lhs.belongs_to(env),
                rhs.belongs_to(env),
                result.belongs_to(env),
                init.belongs_to(env),
                c0 == init.abs_sum(),
                c0 >= 0,
                c0 + a * b <= Bias::MAX,
                vt == env.vtypes(),
                lt == lhs.terms@,
                rt == rhs.terms@,
                ol == lhs.offset,
                or == rhs.offset,
                a == lhs.abs_sum(),
                b == rhs.abs_sum(),
                a * b <= Bias::MAX,
                terms_abs(lt) >= 0,
                terms_abs(rt) >= 0,
                forall|u: u32| #[trigger] result.is_active(u) == (init.is_active(u) || lhs.is_active(u) || rhs.is_active(u)),
                forall|s: Seq<int>| valid_sample(vt, s) ==> #[trigger] result.value(s) == init.value(s) + ol * or + ol
                    * terms_value(rt.take(j as int), s),
                result.abs_sum() <= c0 + abs(ol) * abs(or) + abs(ol) * terms_abs(rt.take(j as int)),
            decreases rhs.terms.len() - j,
        {
            let ghost before = *result;
            let ghost bj = rt[j as int].bias as int;
            proof {
                lemma_terms_abs_prefix(rt, j + 1);
                lemma_terms_take_step(rt, j as int, Seq::empty());
                lemma_terms_abs_nonneg(rt.take(j as int));
                lemma_abs_mul(ol, bj);
                lemma_mul_le(abs(ol), a, abs(or) + terms_abs(rt.take(j + 1)), b);
                assert(abs(ol) * (abs(or) + terms_abs(rt.take(j + 1))) == abs(ol) * abs(or) + abs(
                    ol,
                ) * terms_abs(rt.take(j as int)) + abs(ol) * abs(bj)) by (nonlinear_arith)
                    requires
                        terms_abs(rt.take(j + 1)) == terms_abs(rt.take(j as int)) + abs(bj),
                ;
                assert(abs(ol) * terms_abs(rt.take(j + 1)) == abs(ol) * terms_abs(rt.take(j as int))
                    + abs(ol) * abs(bj)) by (nonlinear_arith)
                    requires
                        terms_abs(rt.take(j + 1)) == terms_abs(rt.take(j as int)) + abs(bj),
                ;
                assert(is_canonical(rt[j as int].vars@, vt));
            }
            let bias = lhs.offset * rhs.terms[j].bias;
            result.add_higher_order(env, &rhs.terms[j].vars, bias);
            proof {
                let vs = rt[j as int].vars@;
                assert forall|u: u32| #[trigger] result.is_active(u) == (init.is_active(u) || lhs.is_active(u) || rhs.is_active(u)) by {
                    if vs.contains(u) {
                        let k = choose|k: int| 0 <= k < vs.len() && vs[k] == u;
                        assert(rhs.is_active(rt[j as int].vars@[k]));
                    }
                }
                assert forall|s: Seq<int>| valid_sample(vt, s) implies #[trigger] result.value(s) == init.value(s) + ol
                    * or + ol * terms_value(rt.take(j + 1), s) by {
                    lemma_terms_take_step(rt, j as int, s);
                    let m = monomial_value(vs, s);
                    let x = terms_value(rt.take(j as int), s);
                    assert(ol * (x + bj * m) == ol * x + (ol * bj) * m) by (nonlinear_arith);
                }
            }
            j = j + 1;
        }
        proof {
            assert(rt.take(rt.len() as int) =~= rt);
            assert(lt.take(0) =~= Seq::<Term>::empty());
            assert forall|s: Seq<int>| valid_sample(vt, s) implies #[trigger] result.value(s) == init.value(s) + (ol
                + terms_value(lt.take(0), s)) * rhs.value(s) by {
                let t = terms_value(rt, s);
                assert(ol * or + ol * t == (ol + 0) * (or + t)) by (nonlinear_arith);
            }
            let ta = terms_abs(rt);
            assert(abs(ol) * abs(or) + abs(ol) * ta == (abs(ol) + 0) * (abs(or) + ta)) by (
            nonlinear_arith);
        }
        let mut i: usize = 0;
        while i < lhs.terms.len()
            invariant
                0 <= i <= lhs.terms.len(),
                lhs.belongs_to(env),
                rhs.belongs_to(env),
                result.belongs_to(env),
                init.belongs_to(env),
                c0 == init.abs_sum(),
                c0 >= 0,
                c0 + a * b <= Bias::MAX,
                vt == env.vtypes(),
                lt == lhs.terms@,
                rt == rhs.terms@,
                ol == lhs.offset,
                or == rhs.offset,
                a == lhs.abs_sum(),
                b == rhs.abs_sum(),
                a * b <= Bias::MAX,
                terms_abs(lt) >= 0,
                terms_abs(rt) >= 0,
                forall|u: u32| #[trigger] result.is_active(u) == (init.is_active(u) || lhs.is_active(u) || rhs.is_active(u)),
                forall|s: Seq<int>| valid_sample(vt, s) ==> #[trigger] result.value(s) == init.value(s) + (ol
                    + terms_value(lt.take(i as int), s)) * rhs.value(s),
                result.abs_sum() <= c0 + (abs(ol) + terms_abs(lt.take(i as int))) * b,
            decreases lhs.terms.len() - i,
        {
            let ghost bi = lt[i as int].bias as int;
            let ghost vi = lt[i as int].vars@;
            let ghost inner = *result;
            proof {
                lemma_terms_abs_prefix(lt, i + 1);
                lemma_terms_take_step(lt, i as int, Seq::empty());
                lemma_terms_abs_nonneg(lt.take(i as int));
                lemma_abs_mul(bi, or);
                lemma_mul_le(abs(ol) + terms_abs(lt.take(i + 1)), a, b, b);
                lemma_mul_le(abs(bi), a, abs(or), b);
                assert((abs(ol) + terms_abs(lt.take(i + 1))) * b == (abs(ol) + terms_abs(
                    lt.take(i as int),
                )) * b + abs(bi) * b) by (nonlinear_arith)
                    requires
                        terms_abs(lt.take(i + 1)) == terms_abs(lt.take(i as int)) + abs(bi),
                ;
                assert(b == abs(or) + terms_abs(rt));
                assert(abs(bi) * b == abs(bi) * abs(or) + abs(bi) * terms_abs(rt)) by (
                nonlinear_arith)
                    requires
                        b == abs(or) + terms_abs(rt),
                ;
                assert(is_canonical(vi, vt));
            }
            let bias0 = lhs.terms[i].bias * rhs.offset;
            result.add_higher_order(env, &lhs.terms[i].vars, bias0);
            proof {
                assert(rt.take(0) =~= Seq::<Term>::empty());
                assert forall|s: Seq<int>| valid_sample(vt, s) implies #[trigger] result.value(s) == init.value(s) + (ol
                    + terms_value(lt.take(i as int), s)) * rhs.value(s) + bi * monomial_value(vi, s)
                    * (or + terms_value(rt.take(0), s)) by {
                    let mi = monomial_value(vi, s);
                    assert((bi * or) * mi == bi * mi * (or + 0)) by (nonlinear_arith);
                }
                assert forall|u: u32| #[trigger] result.is_active(u) == (init.is_active(u) || lhs.is_active(u) || rhs.is_active(u)) by {
                    if vi.contains(u) {
                        let k = choose|k: int| 0 <= k < vi.len() && vi[k] == u;
                        assert(lhs.is_active(lt[i as int].vars@[k]));
                    }
                }
            }
            let mut j: usize = 0;
            while j < rhs.terms.len()
                invariant
                    0 <= j <= rhs.terms.len(),
                    0 <= i < lhs.terms.len(),
                    lhs.belongs_to(env),
                    rhs.belongs_to(env),
                    result.belongs_to(env),
                init.belongs_to(env),
                c0 == init.abs_sum(),
                c0 >= 0,
                c0 + a * b <= Bias::MAX,
                    vt == env.vtypes(),
                    lt == lhs.terms@,
                    rt == rhs.terms@,
                    ol == lhs.offset,
                    or == rhs.offset,
                    bi == lt[i as int].bias,
                    vi == lt[i as int].vars@,
                    a == lhs.abs_sum(),
                    b == rhs.abs_sum(),
                    a * b <= Bias::MAX,
                    terms_abs(rt) >= 0,
                    abs(bi) * b + (abs(ol) + terms_abs(lt.take(i as int))) * b <= a * b,
                    abs(bi) * b == abs(bi) * abs(or) + abs(bi) * terms_abs(rt),
                    forall|u: u32| #[trigger] result.is_active(u) == (init.is_active(u) || lhs.is_active(u) || rhs.is_active(u)),
                    forall|s: Seq<int>| valid_sample(vt, s) ==> #[trigger] result.value(s) == init.value(s) + (ol
                        + terms_value(lt.take(i as int), s)) * rhs.value(s) + bi * monomial_value(
                        vi,
                        s,
                    ) * (or + terms_value(rt.take(j as int), s)),
                    result.abs_sum() <= c0 + (abs(ol) + terms_abs(lt.take(i as int))) * b + abs(bi) * abs(
                        or,
                    ) + abs(bi) * terms_abs(rt.take(j as int)),
                decreases rhs.terms.len() - j,
            {
                let ghost bj = rt[j as int].bias as int;
                let ghost vj = rt[j as int].vars@;
                proof {
                    lemma_terms_abs_prefix(rt, j + 1);
                    lemma_terms_take_step(rt, j as int, Seq::empty());
                    lemma_terms_abs_nonneg(rt.take(j as int));
                    lemma_abs_mul(bi, bj);
                    lemma_terms_abs_bound(rt, j as int);
                    lemma_mul_le(abs(bi), abs(bi), abs(bj), terms_abs(rt));
                    lemma_mul_le(abs(bi), abs(bi), abs(or), abs(or));
                    lemma_mul_le(abs(bi), abs(bi), terms_abs(rt.take(j + 1)), terms_abs(rt));
                    lemma_terms_abs_nonneg(lt.take(i as int));
                    let c = abs(ol) + terms_abs(lt.take(i as int));
                    lemma_mul_le(c, c, b, b);
                    assert(abs(bi * bj) <= a * b);
                    assert(abs(bi) * terms_abs(rt.take(j + 1)) == abs(bi) * terms_abs(
                        rt.take(j as int),
                    ) + abs(bi) * abs(bj)) by (nonlinear_arith)
                        requires
                            terms_abs(rt.take(j + 1)) == terms_abs(rt.take(j as int)) + abs(bj),
                    ;
                    assert(is_canonical(vi, vt) && is_canonical(vj, vt));
                    assert(in_range(vi + vj, env.len())) by {
                        assert forall|k: int| 0 <= k < (vi + vj).len() implies ((vi + vj)[k] as nat)
                            < env.len() by {
                            if k < vi.len() {
                                assert((vi + vj)[k] == vi[k]);
                            } else {
                                assert((vi + vj)[k] == vj[k - vi.len()]);
                            }
                        }
                    }
                }
                let key = concat_keys(&lhs.terms[i].vars, &rhs.terms[j].vars);
                let bias = lhs.terms[i].bias * rhs.terms[j].bias;
                result.add_higher_order(env, &key, bias);
                proof {
                    assert forall|u: u32| #[trigger] result.is_active(u) == (init.is_active(u) || lhs.is_active(u) || rhs.is_active(u)) by {
                        if key@.contains(u) {
                            let k = choose|k: int| 0 <= k < key@.len() && key@[k] == u;
                            if k < vi.len() {
                                assert(lhs.is_active(lt[i as int].vars@[k]));
                            } else {
                                assert(key@[k] == vj[k - vi.len()]);
                                assert(rhs.is_active(rt[j as int].vars@[k - vi.len()]));
                            }
                        }
                    }
                    assert forall|s: Seq<int>| valid_sample(vt, s) implies #[trigger] result.value(s) == init.value(s) + (ol
                        + terms_value(lt.take(i as int), s)) * rhs.value(s) + bi * monomial_value(
                        vi,
                        s,
                    ) * (or + terms_value(rt.take(j + 1), s)) by {
                        lemma_terms_take_step(rt, j as int, s);
                        lemma_value_concat(vi, vj, s);
                        let mi = monomial_value(vi, s);
                        let mj = monomial_value(vj, s);
                        let x = terms_value(rt.take(j as int), s);
                        assert(bi * mi * (or + (x + bj * mj)) == bi * mi * (or + x) + (bi * bj) * (mi
                            * mj)) by (nonlinear_arith);
                    }
                }
                j = j + 1;
            }
            proof {
                assert(rt.take(rt.len() as int) =~= rt);
                assert forall|s: Seq<int>| valid_sample(vt, s) implies #[trigger] result.value(s) == init.value(s) + (ol
                    + terms_value(lt.take(i + 1), s)) * rhs.value(s) by {
                    lemma_terms_take_step(lt, i as int, s);
                    let mi = monomial_value(vi, s);
                    let x = terms_value(lt.take(i as int), s);
                    let v = rhs.value(s);
                    assert(v == or + terms_value(rt, s));
                    assert((ol + x) * v + bi * mi * v == (ol + (x + bi * mi)) * v) by (
                    nonlinear_arith);
                }
            }
            i = i + 1;
        }
        proof {
            assert(lt.take(lt.len() as int) =~= lt);
        }
    }
}

impl Expression {
    /// The product of `self` and `rhs`; an error when they belong to different
    /// environments.
    pub fn mul(&self, env: &Environment, rhs: &Expression) -> (r: Result<
        Expression,
        VariablesFromDifferentEnvsErr,
    >)
        requires
            self.belongs_to(env),
            rhs.env_id == self.env_id ==> rhs.belongs_to(env),
            rhs.env_id == self.env_id ==> self.abs_sum() * rhs.abs_sum() <= Bias::MAX,
        ensures
            r is Err <==> rhs.env_id != self.env_id,
            r matches Ok(o) ==> {
                &&& o.belongs_to(env)
                &&& forall|s: Seq<int>| valid_sample(env.vtypes(), s) ==> #[trigger] o.value(s)
                    == self.value(s) * rhs.value(s)
                &&& forall|u: u32| #[trigger] o.is_active(u) == (self.is_active(u) || rhs.is_active(u))
                &&& o.abs_sum() <= self.abs_sum() * rhs.abs_sum()
            },
    {
        if self.env_id != rhs.env_id {
            return Err(VariablesFromDifferentEnvsErr);
        }
        let mut out = Expression::empty(self.env_id);
        proof {
            lemma_terms_abs_nonneg(self.terms@);
            lemma_terms_abs_nonneg(rhs.terms@);
            assert forall|u: u32| #[trigger] out.is_active(u) == false by {
                assert(!out.active_set().contains(u));
            }
        }
        Expression::multiply(self, rhs, env, &mut out);
        Ok(out)
    }

    /// Multiplies `self` by `rhs`; an error, with `self` unchanged, when they belong to
    /// different environments.
    pub fn mul_assign(&mut self, env: &Environment, rhs: &Expression) -> (r: Result<
        (),
        VariablesFromDifferentEnvsErr,
    >)
        requires
            old(self).belongs_to(env),
            rhs.env_id == old(self).env_id ==> rhs.belongs_to(env),
            rhs.env_id == old(self).env_id ==> old(self).abs_sum() * rhs.abs_sum() <= Bias::MAX,
        ensures
            r is Err <==> rhs.env_id != old(self).env_id,
            r is Err ==> *final(self) == *old(self),
            r is Ok ==> {
                &&& final(self).belongs_to(env)
                &&& forall|s: Seq<int>| valid_sample(env.vtypes(), s) ==> #[trigger] final(self).value(
                    s,
                ) == old(self).value(s) * rhs.value(s)
                &&& forall|u: u32| #[trigger] final(self).is_active(u) == (old(self).is_active(u)
                    || rhs.is_active(u))
                &&& final(self).abs_sum() <= old(self).abs_sum() * rhs.abs_sum()
            },
    {
        match self.mul(env, rhs) {
            Ok(e) => {
                *self = e;
                Ok(())
            },
            Err(e) => Err(e),
        }
    }

    /// The product of `self` and variable `v`; an error when `v` belongs to another
    /// environment.
    pub fn mul_var(&self, env: &Environment, v: &VarRef) -> (r: Result<
        Expression,
        VariablesFromDifferentEnvsErr,
    >)
        requires
            self.belongs_to(env),
            v.env_id == self.env_id ==> (v.id as nat) < env.len(),
            self.abs_sum() <= Bias::MAX,
        ensures
            r is Err <==> v.env_id != self.env_id,
            r matches Ok(o) ==> {
                &&& o.belongs_to(env)
                &&& forall|s: Seq<int>| valid_sample(env.vtypes(), s) ==> #[trigger] o.value(s)
                    == self.value(s) * s[v.id as int]
                &&& forall|u: u32| #[trigger] o.is_active(u) == (self.is_active(u) || u == v.id)
                &&& o.abs_sum() <= self.abs_sum()
            },
    {
        if self.env_id != v.env_id {
            return Err(VariablesFromDifferentEnvsErr);
        }
        let x = Expression::new_linear_single(env, v.id, 1);
        proof {
            lemma_terms_abs_nonneg(self.terms@);
            lemma_terms_abs_nonneg(x.terms@);
            lemma_mul_le(self.abs_sum(), self.abs_sum(), x.abs_sum(), 1);
            assert forall|u: u32| #[trigger] x.is_active(u) == (u == v.id) by {
                assert(x.active_set().contains(u) == x.is_active(u));
            }
        }
        let mut o = Expression::empty(self.env_id);
        proof {
            assert forall|u: u32| #[trigger] o.is_active(u) == false by {
                assert(!o.active_set().contains(u));
            }
        }
        Expression::multiply(self, &x, env, &mut o);
        proof {
            assert forall|s: Seq<int>| valid_sample(env.vtypes(), s) implies #[trigger] o.value(s)
                == self.value(s) * s[v.id as int] by {
                assert(x.value(s) == 1 * s[v.id as int]);
            }
        }
        Ok(o)
    }

    /// Multiplies `self` by variable `v`; an error, with `self` unchanged, when `v`
    /// belongs to another environment.
    pub fn mul_assign_var(&mut self, env: &Environment, v: &VarRef) -> (r: Result<
        (),
        VariablesFromDifferentEnvsErr,
    >)
        requires
            old(self).belongs_to(env),
            v.env_id == old(self).env_id ==> (v.id as nat) < env.len(),
            old(self).abs_sum() <= Bias::MAX,
        ensures
            r is Err <==> v.env_id != old(self).env_id,
            r is Err ==> *final(self) == *old(self),
            r is Ok ==> {
                &&& final(self).belongs_to(env)
                &&& forall|s: Seq<int>| valid_sample(env.vtypes(), s) ==> #[trigger] final(self).value(
                    s,
                ) == old(self).value(s) * s[v.id as int]
                &&& forall|u: u32| #[trigger] final(self).is_active(u) == (old(self).is_active(u)
                    || u == v.id)
                &&& final(self).abs_sum() <= old(self).abs_sum()
            },
    {
        match self.mul_var(env, v) {
            Ok(e) => {
                *self = e;
                Ok(())
            },
            Err(e) => Err(e),
        }
    }
}

impl VarRef {
    /// The sum of two variables; an error when they belong to different environments.
    pub fn add(&self, env: &Environment, rhs: &VarRef) -> (r: Result<
        Expression,
        VariablesFromDifferentEnvsErr,
    >)
        requires
            env.wf(),
            self.env_id == env.id,
            (self.id as nat) < env.len(),
            rhs.env_id == env.id ==> (rhs.id as nat) < env.len(),
        ensures
            r is Err <==> rhs.env_id != self.env_id,
            r matches Ok(o) ==> {
                &&& o.belongs_to(env)
                &&& o.active_set() == set![self.id, rhs.id]
                &&& forall|s: Seq<int>| #[trigger] o.value(s) == s[self.id as int] + s[rhs.id as int]
            },
    {
        if self.env_id != rhs.env_id {
            return Err(VariablesFromDifferentEnvsErr);
        }
        let o = Expression::new_linear(env, (self.id, 1), (rhs.id, 1));
        Ok(o)
    }

    /// The difference of two variables; an error when they belong to different
    /// environments.
    pub fn sub(&self, env: &Environment, rhs: &VarRef) -> (r: Result<
        Expression,
        VariablesFromDifferentEnvsErr,
    >)
        requires
            env.wf(),
            self.env_id == env.id,
            (self.id as nat) < env.len(),
            rhs.env_id == env.id ==> (rhs.id as nat) < env.len(),
        ensures
            r is Err <==> rhs.env_id != self.env_id,
            r matches Ok(o) ==> {
                &&& o.belongs_to(env)
                &&& o.active_set() == set![self.id, rhs.id]
                &&& forall|s: Seq<int>| #[trigger] o.value(s) == s[self.id as int] - s[rhs.id as int]
            },
    {
        if self.env_id != rhs.env_id {
            return Err(VariablesFromDifferentEnvsErr);
        }
        let o = Expression::new_linear(env, (self.id, 1), (rhs.id, -1));
        Ok(o)
    }

    /// The product of two variables; an error when they belong to different
    /// environments.
    pub fn mul(&self, env: &Environment, rhs: &VarRef) -> (r: Result<
        Expression,
        VariablesFromDifferentEnvsErr,
    >)
        requires
            env.wf(),
            self.env_id == env.id,
            (self.id as nat) < env.len(),
            rhs.env_id == env.id ==> (rhs.id as nat) < env.len(),
        ensures
            r is Err <==> rhs.env_id != self.env_id,
            r matches Ok(o) ==> {
                &&& o.belongs_to(env)
                &&& o.active_set() == set![self.id, rhs.id]
                &&& forall|s: Seq<int>| valid_sample(env.vtypes(), s) ==> #[trigger] o.value(s)
                    == s[self.id as int] * s[rhs.id as int]
            },
    {
        if self.env_id != rhs.env_id {
            return Err(VariablesFromDifferentEnvsErr);
        }
        let o = Expression::new_quadratic(env, self.id, rhs.id, 1);
        proof {
            assert forall|s: Seq<int>| valid_sample(env.vtypes(), s) implies #[trigger] o.value(s)
                == s[self.id as int] * s[rhs.id as int] by {
                assert(1 * s[self.id as int] * s[rhs.id as int] == s[self.id as int] * s[rhs.id
                    as int]) by (nonlinear_arith);
            }
        }
        Ok(o)
    }

    /// The variable plus the constant `rhs`.
    pub fn add_bias(&self, env: &Environment, rhs: Bias) -> (r: Expression)
        requires
            env.wf(),
            self.env_id == env.id,
            (self.id as nat) < env.len(),
        ensures
            r.belongs_to(env),
            r.active_set() == set![self.id],
            r.offset == rhs,
            forall|k: Seq<u32>| #[trigger] r.coeff(k) == (if k == seq![self.id] { 1int } else { 0int }) + (
            if k.len() == 0 {
                rhs as int
            } else {
                0
            }),
            forall|s: Seq<int>| #[trigger] r.value(s) == s[self.id as int] + rhs,
    {
        let mut r = Expression::empty(env.id);
        r.add_linear(env, self.id, 1);
        let ghost a = r;
        r.offset = rhs;
        proof {
            assert forall|k: Seq<u32>| #[trigger] r.coeff(k) == a.coeff(k) + (if k.len() == 0 {
                rhs as int
            } else {
                0
            }) by {}
            assert forall|s: Seq<int>| #[trigger] r.value(s) == a.value(s) + rhs by {}
            assert(r.active_set() =~= a.active_set());
        }
        r
    }

    /// The variable minus the constant `rhs`.
    pub fn sub_bias(&self, env: &Environment, rhs: Bias) -> (r: Expression)
        requires
            env.wf(),
            self.env_id == env.id,
            (self.id as nat) < env.len(),
            rhs != Bias::MIN,
        ensures
            r.belongs_to(env),
            r.active_set() == set![self.id],
            r.offset == -rhs,
            forall|k: Seq<u32>| #[trigger] r.coeff(k) == (if k == seq![self.id] { 1int } else { 0int }) - (
            if k.len() == 0 {
                rhs as int
            } else {
                0
            }),
            forall|s: Seq<int>| #[trigger] r.value(s) == s[self.id as int] - rhs,
    {
        self.add_bias(env, -rhs)
    }

    /// The constant `rhs` minus the variable.
    pub fn rsub_bias(&self, env: &Environment, rhs: Bias) -> (r: Expression)
        requires
            env.wf(),
            self.env_id == env.id,
            (self.id as nat) < env.len(),
        ensures
            r.belongs_to(env),
            r.active_set() == set![self.id],
            r.offset == rhs,
            forall|k: Seq<u32>| #[trigger] r.coeff(k) == (if k == seq![self.id] { -1int } else { 0int }) + (
            if k.len() == 0 {
                rhs as int
            } else {
                0
            }),
            forall|s: Seq<int>| #[trigger] r.value(s) == rhs - s[self.id as int],
    {
        let mut r = Expression::empty(env.id);
        r.add_linear(env, self.id, -1);
        let ghost a = r;
        r.offset = rhs;
        proof {
            assert forall|k: Seq<u32>| #[trigger] r.coeff(k) == a.coeff(k) + (if k.len() == 0 {
                rhs as int
            } else {
                0
            }) by {}
            assert forall|s: Seq<int>| #[trigger] r.value(s) == a.value(s) + rhs by {}
            assert(r.active_set() =~= a.active_set());
        }
        r
    }

    /// The variable times the constant `rhs`.
    pub fn mul_bias(&self, env: &Environment, rhs: Bias) -> (r: Expression)
        requires
            env.wf(),
            self.env_id == env.id,
            (self.id as nat) < env.len(),
            rhs != Bias::MIN,
        ensures
            r.belongs_to(env),
            r.active_set() == set![self.id],
            r.offset == 0,
            forall|k: Seq<u32>| #[trigger] r.coeff(k) == if k == seq![self.id] { rhs as int } else { 0 },
            forall|s: Seq<int>| #[trigger] r.value(s) == rhs * s[self.id as int],
    {
        let mut r = Expression::empty(env.id);
        r.add_linear(env, self.id, rhs);
        r
    }

    /// The variable raised to the power `rhs`: the constant one for the power zero, the
    /// variable itself for the power one, and otherwise the product of `rhs` copies of
    /// it, in canonical form.
    pub fn pow(&self, env: &Environment, rhs: usize) -> (r: AqResult<Expression, OperationErr>)
        requires
            env.wf(),
            self.env_id == env.id,
            (self.id as nat) < env.len(),
        ensures
            r matches AqResult::Success(o) && {
                &&& o.belongs_to(env)
                &&& o.active_set() == if rhs == 0 { Set::<u32>::empty() } else { set![self.id] }
                &&& forall|s: Seq<int>| valid_sample(env.vtypes(), s) ==> #[trigger] o.value(s)
                    == pow(s[self.id as int], rhs as nat)
            },
    {
        proof {
            reveal(pow);
        }
        if rhs == 0 {
            let o = Expression::simple(env.id, 1);
            proof {
                assert forall|s: Seq<int>| valid_sample(env.vtypes(), s) implies #[trigger] o.value(s)
                    == pow(s[self.id as int], 0) by {}
            }
            return AqResult::Success(o);
        }
        if rhs == 1 {
            let o = Expression::new_linear_single(env, self.id, 1);
            proof {
                assert forall|s: Seq<int>| valid_sample(env.vtypes(), s) implies #[trigger] o.value(s)
                    == pow(s[self.id as int], 1) by {
                    assert(pow(s[self.id as int], 0) == 1);
                }
            }
            return AqResult::Success(o);
        }
        if rhs == 2 {
            let o = Expression::new_quadratic(env, self.id, self.id, 1);
            proof {
                assert(set![self.id, self.id] =~= set![self.id]);
                assert forall|s: Seq<int>| valid_sample(env.vtypes(), s) implies #[trigger] o.value(s)
                    == pow(s[self.id as int], 2) by {
                    let x = s[self.id as int];
                    assert(pow(x, 0) == 1);
                    assert(pow(x, 1) == x * 1);
                    assert(1 * x * x == x * (x * 1)) by (nonlinear_arith);
                }
            }
            return AqResult::Success(o);
        }
        let mut out = Expression::simple(env.id, 1);
        let mut i: usize = 0;
        while i < rhs
            invariant
                0 <= i <= rhs,
                rhs > 2,
                env.wf(),
                self.env_id == env.id,
                (self.id as nat) < env.len(),
                out.belongs_to(env),
                out.abs_sum() <= 1,
                forall|u: u32| #[trigger] out.is_active(u) == (i > 0 && u == self.id),
                forall|s: Seq<int>| valid_sample(env.vtypes(), s) ==> #[trigger] out.value(s) == pow(
                    s[self.id as int],
                    i as nat,
                ),
            decreases rhs - i,
        {
            let ghost before = out;
            let res = out.mul_assign_var(env, self);
            proof {
                reveal(pow);
                assert forall|s: Seq<int>| valid_sample(env.vtypes(), s) implies #[trigger] out.value(s)
                    == pow(s[self.id as int], (i + 1) as nat) by {
                    let x = s[self.id as int];
                    assert(pow(x, (i + 1) as nat) == x * pow(x, i as nat));
                    assert(before.value(s) * x == x * before.value(s)) by (nonlinear_arith);
                }
            }
            i = i + 1;
        }
        proof {
            assert(out.active_set() =~= set![self.id]);
        }
        AqResult::Success(out)
    }
}

impl AqResult<Expression, OperationErr> {
    /// The sum of two outcomes: the first failure where either failed, and otherwise
    /// the sum of the two expressions, a failure where they belong to different
    /// environments.
    pub fn add(self, env: &Environment, rhs: AqResult<Expression, OperationErr>) -> (r: AqResult<
        Expression,
        OperationErr,
    >)
        requires
            self matches AqResult::Success(a) ==> a.belongs_to(env),
            self matches AqResult::Success(a) ==> (rhs matches AqResult::Success(b) ==> (b.env_id
                == a.env_id ==> b.belongs_to(env) && a.abs_sum() + b.abs_sum() <= Bias::MAX)),
        ensures
            self matches AqResult::Failure(e) ==> r == AqResult::<Expression, OperationErr>::Failure(e),
            self is Success ==> (rhs matches AqResult::Failure(e) ==> r == AqResult::<
                Expression,
                OperationErr,
            >::Failure(e)),
            self matches AqResult::Success(a) ==> (rhs matches AqResult::Success(b) ==> if b.env_id
                != a.env_id {
                r matches AqResult::Failure(OperationErr::VariablesFromDifferentEnvs(_))
            } else {
                r matches AqResult::Success(o) && {
                    &&& o.belongs_to(env)
                    &&& forall|s: Seq<int>| #[trigger] o.value(s) == a.value(s) + b.value(s)
                    &&& forall|u: u32| #[trigger] o.is_active(u) == (a.is_active(u) || b.is_active(u))
                    &&& o.abs_sum() <= a.abs_sum() + b.abs_sum()
                }
            }),
    {
        match self {
            AqResult::Failure(err) => AqResult::Failure(err),
            AqResult::Success(expr) => match rhs {
                AqResult::Failure(err) => AqResult::Failure(err),
                AqResult::Success(rhsexpr) => match expr.add(env, &rhsexpr) {
                    Ok(o) => AqResult::Success(o),
                    Err(e) => AqResult::Failure(OperationErr::from(e)),
                },
            },
        }
    }

    /// The product of an outcome and the variable `v`: the failure where it failed, and
    /// otherwise the product, a failure where `v` belongs to another environment.
    pub fn mul(self, env: &Environment, v: &VarRef) -> (r: AqResult<Expression, OperationErr>)
        requires
            self matches AqResult::Success(a) ==> a.belongs_to(env) && a.abs_sum() <= Bias::MAX && (
            v.env_id == a.env_id ==> (v.id as nat) < env.len()),
        ensures
            self matches AqResult::Failure(e) ==> r == AqResult::<Expression, OperationErr>::Failure(e),
            self matches AqResult::Success(a) ==> if v.env_id != a.env_id {
                r matches AqResult::Failure(OperationErr::VariablesFromDifferentEnvs(_))
            } else {
                r matches AqResult::Success(o) && {
                    &&& o.belongs_to(env)
                    &&& forall|s: Seq<int>| valid_sample(env.vtypes(), s) ==> #[trigger] o.value(s)
                        == a.value(s) * s[v.id as int]
                    &&& forall|u: u32| #[trigger] o.is_active(u) == (a.is_active(u) || u == v.id)
                    &&& o.abs_sum() <= a.abs_sum()
                }
            },
    {
        match self {
            AqResult::Failure(err) => AqResult::Failure(err),
            AqResult::Success(expr) => match expr.mul_var(env, v) {
                Ok(o) => AqResult::Success(o),
                Err(e) => AqResult::Failure(OperationErr::from(e)),
            },
        }
    }

    /// The outcome scaled by the constant `c`: the failure where it failed, and
    /// otherwise the expression times `c`.
    pub fn scale(self, c: Bias) -> (r: AqResult<Expression, OperationErr>)
        requires
            self matches AqResult::Success(a) ==> abs(c as int) * a.abs_sum() <= Bias::MAX,
        ensures
            self matches AqResult::Failure(e) ==> r == AqResult::<Expression, OperationErr>::Failure(e),
            self matches AqResult::Success(a) ==> r matches AqResult::Success(o) && {
                &&& o.env_id == a.env_id
                &&& forall|vt| a.wf(vt) ==> o.wf(vt)
                &&& forall|k: Seq<u32>| #[trigger] o.coeff(k) == c * a.coeff(k)
                &&& forall|s: Seq<int>| #[trigger] o.value(s) == c * a.value(s)
                &&& forall|u: u32| #[trigger] o.is_active(u) == a.is_active(u)
            },
    {
        match self {
            AqResult::Failure(err) => AqResult::Failure(err),
            AqResult::Success(expr) => AqResult::Success(MulToExpression::mul(&expr, c)),
        }
    }
}

} // verus!
