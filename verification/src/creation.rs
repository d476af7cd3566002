//! Expressions made of a few given terms.
use vstd::prelude::*;

use crate::environment::{Environment, VarIndex};
use crate::expression::{abs, Bias, Expression};
use crate::monomial::{reduced, valid_sample};

verus! {

/// The quadratic form of the row-major `n` by `n` matrix `d`: the sum over its entries
/// of the entry times the values of its row's and its column's variable.
pub open spec fn dense_form(d: Seq<Bias>, n: nat, s: Seq<int>) -> int
    decreases d.len(),
{
    if d.len() == 0 {
        0
    } else {
        let i = d.len() - 1;
        dense_form(d.drop_last(), n, s) + d[i] * s[i / (n as int)] * s[i % (n as int)]
    }
}

/// The sum of the absolute values of the entries.
pub open spec fn seq_abs(d: Seq<Bias>) -> int
    decreases d.len(),
{
    if d.len() == 0 {
        0
    } else {
        seq_abs(d.drop_last()) + abs(d.last() as int)
    }
}

pub proof fn lemma_seq_abs_prefix(d: Seq<Bias>, i: int)
    requires
        0 <= i <= d.len(),
    ensures
        0 <= seq_abs(d.take(i)) <= seq_abs(d),
    decreases d.len(),
{
    if d.len() > 0 {
        if i == d.len() {
            assert(d.take(i) =~= d);
            lemma_seq_abs_prefix(d.drop_last(), d.len() - 1);
            assert(d.drop_last().take(d.len() - 1) =~= d.drop_last());
        } else {
            assert(d.take(i) =~= d.drop_last().take(i));
            lemma_seq_abs_prefix(d.drop_last(), i);
        }
    } else {
        assert(d.take(i) =~= d);
    }
}

impl Expression {
    /// Adds the quadratic form of the row-major `num_variables` by `num_variables`
    /// matrix `dense`: each entry times its row's and its column's variable, in
    /// canonical form, so that the diagonal of a binary variable becomes linear and
    /// that of a spin variable constant. Every variable below `num_variables` becomes
    /// part of the expression.
    pub fn add_quadratic_from_dense(&mut self, env: &Environment, dense: &Vec<Bias>, num_variables: VarIndex)
        requires
            old(self).belongs_to(env),
            dense@.len() == num_variables as int * num_variables as int,
            (num_variables as nat) <= env.len(),
            old(self).abs_sum() + seq_abs(dense@) <= Bias::MAX,
        ensures
            final(self).belongs_to(env),
            forall|u: u32| #[trigger] final(self).is_active(u) == (old(self).is_active(u) || u < num_variables),
            forall|s: Seq<int>| valid_sample(env.vtypes(), s) ==> #[trigger] final(self).value(s)
                == old(self).value(s) + dense_form(dense@, num_variables as nat, s),
            final(self).abs_sum() <= old(self).abs_sum() + seq_abs(dense@),
    {
        let n = num_variables as usize;
        let total = dense.len();
        let ghost d = dense@;
        let ghost start = *self;
        let mut idx: usize = 0;
        proof {
            assert(d.take(0) =~= Seq::<Bias>::empty());
        }
        while idx < total
            invariant
                0 <= idx <= total,
                n == num_variables as usize,
                total == n * n,
                total == dense@.len(),
                d == dense@,
                d.len() == total,
                (n as nat) <= env.len(),
                start.abs_sum() + seq_abs(d) <= Bias::MAX,
                self.belongs_to(env),
                self.env_id == start.env_id,
                forall|u: u32| #[trigger] self.is_active(u) ==> (start.is_active(u) || u < num_variables),
                forall|u: u32| (u < num_variables && (u as int) * (n as int + 1) < idx) ==> #[trigger] self.is_active(u),
                forall|u: u32| #[trigger] start.is_active(u) ==> self.is_active(u),
                forall|s: Seq<int>| valid_sample(env.vtypes(), s) ==> #[trigger] self.value(s)
                    == start.value(s) + dense_form(d.take(idx as int), n as nat, s),
                self.abs_sum() <= start.abs_sum() + seq_abs(d.take(idx as int)),
            decreases total - idx,
        {
            let u = idx / n;
            let v = idx % n;
            proof {
                assert(n > 0) by (nonlinear_arith)
                    requires
                        idx < n * n,
                ;
                assert(u < n) by (nonlinear_arith)
                    requires
                        u == idx / n,
                        idx < n * n,
                        n > 0,
                ;
                assert(d.take(idx + 1).drop_last() =~= d.take(idx as int));
                lemma_seq_abs_prefix(d, idx + 1);
                lemma_seq_abs_prefix(d, idx as int);
                crate::expression::lemma_terms_abs_nonneg(self.terms@);
            }
            let bias = dense[idx];
            let ghost before = *self;
            if u == v || bias != 0 {
                self.add_quadratic(env, u as VarIndex, v as VarIndex, bias);
            }
            proof {
                assert(v < n) by (nonlinear_arith)
                    requires
                        v == idx % n,
                        n > 0,
                ;
                assert forall|w: u32| #[trigger] self.is_active(w) == (before.is_active(w) || ((u == v || bias
                    != 0) && (w == u as u32 || w == v as u32))) by {
                    assert(self.active_set().contains(w) == self.is_active(w));
                    assert(before.active_set().contains(w) == before.is_active(w));
                }
                assert forall|s: Seq<int>| valid_sample(env.vtypes(), s) implies #[trigger] self.value(s)
                    == start.value(s) + dense_form(d.take(idx + 1), n as nat, s) by {
                    assert(dense_form(d.take(idx + 1), n as nat, s) == dense_form(d.take(idx as int), n as nat, s)
                        + d[idx as int] * s[idx as int / (n as int)] * s[idx as int % (n as int)]);
                    if !(u == v || bias != 0) {
                        assert(bias * s[u as int] * s[v as int] == 0) by (nonlinear_arith)
                            requires
                                bias == 0,
                        ;
                    }
                }
                assert forall|w: u32| (w < num_variables && (w as int) * (n as int + 1) < idx + 1) implies #[trigger] self.is_active(w) by {
                    if (w as int) * (n as int + 1) == idx {
                        assert(u == w && v == w) by (nonlinear_arith)
                            requires
                                (w as int) * (n as int + 1) == idx,
                                u == idx / n,
                                v == idx % n,
                                w < n,
                        ;
                    }
                }
            }
            idx = idx + 1;
        }
        proof {
            assert(d.take(total as int) =~= d);
            assert forall|w: u32| #[trigger] self.is_active(w) == (start.is_active(w) || w < num_variables) by {
                if w < num_variables {
                    assert((w as int) * (n as int + 1) < total) by (nonlinear_arith)
                        requires
                            w < n,
                            total == n * n,
                    ;
                }
            }
        }
    }

    /// The expression `bias * v`.
    pub fn new_linear_single(env: &Environment, v: VarIndex, bias: Bias) -> (r: Expression)
        requires
            env.wf(),
            (v as nat) < env.len(),
            abs(bias as int) <= Bias::MAX,
        ensures
            r.belongs_to(env),
            r.active_set() == set![v],
            forall|k: Seq<u32>| #[trigger] r.coeff(k) == if k == seq![v] { bias as int } else { 0 },
            forall|s: Seq<int>| #[trigger] r.value(s) == bias * s[v as int],
            r.abs_sum() <= abs(bias as int),
    {
        let mut r = Expression::empty(env.id);
        proof {
            assert(r.belongs_to(env));
        }
        r.add_linear(env, v, bias);
        proof {
            assert(r.active_set() =~= set![v]);
        }
        r
    }

    /// The expression `bias_u * u + bias_v * v`.
    pub fn new_linear(env: &Environment, u: (VarIndex, Bias), v: (VarIndex, Bias)) -> (r: Expression)
        requires
            env.wf(),
            (u.0 as nat) < env.len(),
            (v.0 as nat) < env.len(),
            abs(u.1 as int) + abs(v.1 as int) <= Bias::MAX,
        ensures
            r.belongs_to(env),
            r.active_set() == set![u.0, v.0],
            forall|k: Seq<u32>| #[trigger] r.coeff(k) == (if k == seq![u.0] { u.1 as int } else { 0 }) + (
            if k == seq![v.0] {
                v.1 as int
            } else {
                0
            }),
            forall|s: Seq<int>| #[trigger] r.value(s) == u.1 * s[u.0 as int] + v.1 * s[v.0 as int],
            r.abs_sum() <= abs(u.1 as int) + abs(v.1 as int),
    {
        let mut r = Expression::empty(env.id);
        proof {
            assert(r.belongs_to(env));
        }
        r.add_linear(env, u.0, u.1);
        r.add_linear(env, v.0, v.1);
        proof {
            assert(r.active_set() =~= set![u.0, v.0]);
        }
        r
    }

    /// The expression `bias * v + offset`.
    pub fn new_linear_and_offset(env: &Environment, v: VarIndex, bias: Bias, offset: Bias) -> (r:
        Expression)
        requires
            env.wf(),
            (v as nat) < env.len(),
            abs(bias as int) + abs(offset as int) <= Bias::MAX,
        ensures
            r.belongs_to(env),
            r.active_set() == set![v],
            forall|k: Seq<u32>| #[trigger] r.coeff(k) == (if k == seq![v] { bias as int } else { 0 }) + (
            if k.len() == 0 {
                offset as int
            } else {
                0
            }),
            forall|s: Seq<int>| #[trigger] r.value(s) == bias * s[v as int] + offset,
            r.abs_sum() <= abs(bias as int) + abs(offset as int),
    {
        let mut r = Expression::simple(env.id, offset);
        proof {
            assert(r.belongs_to(env));
        }
        r.add_linear(env, v, bias);
        proof {
            assert(r.active_set() =~= set![v]);
        }
        r
    }

    /// The expression `bias * u * v`, in canonical form.
    pub fn new_quadratic(env: &Environment, u: VarIndex, v: VarIndex, bias: Bias) -> (r: Expression)
        requires
            env.wf(),
            (u as nat) < env.len(),
            (v as nat) < env.len(),
            abs(bias as int) <= Bias::MAX,
        ensures
            r.belongs_to(env),
            r.active_set() == set![u, v],
            forall|k: Seq<u32>| #[trigger] r.coeff(k) == if k == reduced(seq![u, v], env.vtypes()) {
                bias as int
            } else {
                0
            },
            forall|s: Seq<int>| valid_sample(env.vtypes(), s) ==> #[trigger] r.value(s) == bias
                * s[u as int] * s[v as int],
            r.abs_sum() <= abs(bias as int),
    {
        let mut r = Expression::empty(env.id);
        proof {
            assert(r.belongs_to(env));
        }
        r.add_quadratic(env, u, v, bias);
        proof {
            assert(r.active_set() =~= set![u, v]);
        }
        r
    }
}

} // verus!
