//! Replacing a variable of an expression by another expression.
use vstd::prelude::*;

use crate::environment::{Environment, VarIndex, VarRef};
use crate::errors::DifferentEnvsErr;
use crate::expression::{abs, lemma_terms_abs_bound, lemma_terms_abs_nonneg, terms_value, Bias, Expression, Term};
use crate::monomial::{in_range, is_canonical, lemma_value_concat, monomial_value, valid_sample};
use crate::multiplication::{lemma_mul_le, lemma_terms_take_step};

verus! {

/// The product over the variables of `key` of `a` for each occurrence of `t` and one
/// for every other variable.
pub open spec fn subst_weight(key: Seq<u32>, t: u32, a: int) -> int
    decreases key.len(),
{
    if key.len() == 0 {
        1
    } else {
        (if key[0] == t {
            a
        } else {
            1
        }) * subst_weight(key.drop_first(), t, a)
    }
}

/// The sum over the terms of `|bias|` times the weight of the monomial.
pub open spec fn subst_terms_bound(ts: Seq<Term>, t: u32, a: int) -> int
    decreases ts.len(),
{
    if ts.len() == 0 {
        0
    } else {
        subst_terms_bound(ts.drop_last(), t, a) + abs(ts.last().bias as int) * subst_weight(
            ts.last().vars@,
            t,
            a,
        )
    }
}

/// One when `x` is at most one, else `x`.
pub open spec fn at_least_one_of(x: int) -> int {
    if x > 1 {
        x
    } else {
        1
    }
}

/// Some term of `ts` holds `t`.
pub open spec fn mentions(ts: Seq<Term>, t: u32) -> bool {
    exists|i: int, k: int| 0 <= i < ts.len() && 0 <= k < ts[i].vars@.len() && #[trigger] ts[i].vars@[k] == t
}

pub proof fn lemma_subst_weight_concat(a: Seq<u32>, b: Seq<u32>, t: u32, w: int)
    ensures
        subst_weight(a + b, t, w) == subst_weight(a, t, w) * subst_weight(b, t, w),
    decreases a.len(),
{
    if a.len() == 0 {
        assert(a + b =~= b);
    } else {
        assert((a + b).drop_first() =~= a.drop_first() + b);
        lemma_subst_weight_concat(a.drop_first(), b, t, w);
        let h: int = if a[0] == t { w } else { 1 };
        let x = subst_weight(a.drop_first(), t, w);
        let y = subst_weight(b, t, w);
        assert(h * (x * y) == (h * x) * y) by (nonlinear_arith);
    }
}

pub proof fn lemma_subst_weight_pos(key: Seq<u32>, t: u32, w: int)
    requires
        w >= 1,
    ensures
        subst_weight(key, t, w) >= 1,
    decreases key.len(),
{
    if key.len() > 0 {
        lemma_subst_weight_pos(key.drop_first(), t, w);
        let h: int = if key[0] == t { w } else { 1 };
        lemma_mul_le(1, h, 1, subst_weight(key.drop_first(), t, w));
    }
}

/// The weight of a prefix is at most that of the whole monomial.
pub proof fn lemma_subst_weight_prefix(key: Seq<u32>, k: int, t: u32, w: int)
    requires
        0 <= k <= key.len(),
        w >= 1,
    ensures
        1 <= subst_weight(key.take(k), t, w) <= subst_weight(key, t, w),
{
    assert(key =~= key.take(k) + key.skip(k));
    lemma_subst_weight_concat(key.take(k), key.skip(k), t, w);
    lemma_subst_weight_pos(key.take(k), t, w);
    lemma_subst_weight_pos(key.skip(k), t, w);
    let p = subst_weight(key.take(k), t, w);
    let q = subst_weight(key.skip(k), t, w);
    assert(p <= p * q) by (nonlinear_arith)
        requires
            p >= 1,
            q >= 1,
    ;
}

pub proof fn lemma_subst_terms_bound(ts: Seq<Term>, i: int, t: u32, w: int)
    requires
        0 <= i <= ts.len(),
        w >= 1,
    ensures
        0 <= subst_terms_bound(ts.take(i), t, w) <= subst_terms_bound(ts, t, w),
    decreases ts.len(),
{
    if ts.len() > 0 {
        let d = ts.drop_last();
        let a = abs(ts.last().bias as int);
        lemma_subst_weight_pos(ts.last().vars@, t, w);
        lemma_mul_le(0, a, 0, subst_weight(ts.last().vars@, t, w));
        if i == ts.len() {
            assert(ts.take(i) =~= ts);
            lemma_subst_terms_bound(d, d.len() as int, t, w);
            assert(d.take(d.len() as int) =~= d);
        } else {
            assert(ts.take(i) =~= d.take(i));
            lemma_subst_terms_bound(d, i, t, w);
        }
    } else {
        assert(ts.take(i) =~= ts);
    }
}

/// A monomial without `t` has the same value whatever value `t` takes.
pub proof fn lemma_value_without(key: Seq<u32>, s: Seq<int>, t: u32, x: int)
    requires
        !key.contains(t),
        in_range(key, s.len()),
        (t as nat) < s.len(),
    ensures
        monomial_value(key, s.update(t as int, x)) == monomial_value(key, s),
    decreases key.len(),
{
    if key.len() > 0 {
        assert(!key.drop_first().contains(t)) by {
            if key.drop_first().contains(t) {
                let j = choose|j: int| 0 <= j < key.drop_first().len() && key.drop_first()[j] == t;
                assert(key[j + 1] == t);
            }
        }
        assert(in_range(key.drop_first(), s.len())) by {
            assert forall|j: int| 0 <= j < key.drop_first().len() implies (key.drop_first()[j] as nat)
                < s.len() by {
                assert(key.drop_first()[j] == key[j + 1]);
            }
        }
        lemma_value_without(key.drop_first(), s, t, x);
        assert(key[0] != t);
        assert((key[0] as nat) < s.len());
        assert(s.update(t as int, x)[key[0] as int] == s[key[0] as int]);
    }
}

/// A term is added to the prefix: the prefix mentions `t` when it did before or the
/// new term holds `t`.
pub proof fn lemma_mentions_step(ts: Seq<Term>, i: int, t: u32)
    requires
        0 <= i < ts.len(),
    ensures
        mentions(ts.take(i + 1), t) == (mentions(ts.take(i), t) || ts[i].vars@.contains(t)),
{
    let a = ts.take(i);
    let b = ts.take(i + 1);
    if mentions(b, t) {
        let (j, k) = choose|j: int, k: int|
            0 <= j < b.len() && 0 <= k < b[j].vars@.len() && #[trigger] b[j].vars@[k] == t;
        if j < i {
            assert(a[j] == b[j]);
            assert(a[j].vars@[k] == t);
        } else {
            assert(ts[i].vars@[k] == t);
        }
    }
    if mentions(a, t) {
        let (j, k) = choose|j: int, k: int|
            0 <= j < a.len() && 0 <= k < a[j].vars@.len() && #[trigger] a[j].vars@[k] == t;
        assert(b[j] == a[j]);
        assert(b[j].vars@[k] == t);
    }
    if ts[i].vars@.contains(t) {
        let k = choose|k: int| 0 <= k < ts[i].vars@.len() && ts[i].vars@[k] == t;
        assert(b[i] == ts[i]);
        assert(b[i].vars@[k] == t);
    }
}

/// Whether `x` occurs in `key`.
fn key_contains(key: &Vec<VarIndex>, x: VarIndex) -> (r: bool)
    ensures
        r == key@.contains(x),
{
    let mut k: usize = 0;
    while k < key.len()
        invariant
            0 <= k <= key.len(),
            forall|j: int| 0 <= j < k ==> key@[j] != x,
        decreases key.len() - k,
    {
        if key[k] == x {
            proof {
                assert(key@[k as int] == x);
            }
            return true;
        }
        k = k + 1;
    }
    false
}

/// Whether some term of `ts` holds `t`.
fn terms_hold(ts: &Vec<Term>, t: VarIndex) -> (r: bool)
    ensures
        r == mentions(ts@, t),
{
    let mut i: usize = 0;
    while i < ts.len()
        invariant
            0 <= i <= ts.len(),
            forall|j: int, k: int| 0 <= j < i && 0 <= k < ts@[j].vars@.len() ==> #[trigger] ts@[j].vars@[k] != t,
        decreases ts.len() - i,
    {
        if key_contains(&ts[i].vars, t) {
            proof {
                let k = choose|k: int| 0 <= k < ts@[i as int].vars@.len() && ts@[i as int].vars@[k] == t;
                assert(ts@[i as int].vars@[k] == t);
            }
            return true;
        }
        proof {
            assert forall|k: int| 0 <= k < ts@[i as int].vars@.len() implies #[trigger] ts@[i as int].vars@[k] != t by {
                if ts@[i as int].vars@[k] == t {
                    assert(ts@[i as int].vars@.contains(t));
                }
            }
        }
        i = i + 1;
    }
    false
}

impl Expression {
    /// Every occurrence of variable `target` replaced by `replacement`; an error when
    /// the target or the replacement belongs to another environment. The target is
    /// removed from the variables of the result unless a term of the replacement holds
    /// it.
    pub fn substitute(&self, env: &Environment, target: &VarRef, replacement: &Expression) -> (r:
        Result<Expression, DifferentEnvsErr>)
        requires
            self.belongs_to(env),
            target.env_id == self.env_id && replacement.env_id == self.env_id ==> {
                &&& replacement.belongs_to(env)
                &&& (target.id as nat) < env.len()
                &&& self.subst_bound(target.id, replacement.abs_sum()) <= Bias::MAX
            },
        ensures
            r is Err <==> (target.env_id != self.env_id || replacement.env_id != self.env_id),
            r matches Ok(o) ==> {
                &&& o.belongs_to(env)
                &&& forall|s: Seq<int>| valid_sample(env.vtypes(), s) ==> #[trigger] o.value(s)
                    == self.value(s.update(target.id as int, replacement.value(s)))
                &&& forall|u: u32| #[trigger] o.is_active(u) == ((self.is_active(u) && u != target.id)
                    || (mentions(self.terms@, target.id) && replacement.is_active(u) && (u != target.id
                    || mentions(replacement.terms@, target.id))))
            },
    {
        if target.env_id != self.env_id || replacement.env_id != self.env_id {
            return Err(DifferentEnvsErr);
        }
        let t = target.id;
        let holds_target = terms_hold(&replacement.terms, t);
        let mut repl = replacement.copy();
        let ghost c0 = repl;
        if !holds_target {
            proof {
                assert forall|i: int, k: int|
                    0 <= i < repl.terms@.len() && 0 <= k < repl.terms@[i].vars@.len() implies #[trigger] repl.terms@[i].vars@[k]
                        != t by {
                    assert(repl.terms@[i].vars@ == replacement.terms@[i].vars@);
                    assert(replacement.terms@[i].vars@[k] != t);
                }
            }
            repl.remove_variable(env, t);
        }
        proof {
            assert(repl.abs_sum() == replacement.abs_sum());
            assert(repl.terms@ == c0.terms@ && repl.offset == c0.offset);
            assert forall|s: Seq<int>| #[trigger] repl.value(s) == replacement.value(s) by {
                assert(c0.value(s) == replacement.value(s));
            }
            assert forall|u: u32| #[trigger] repl.is_active(u) == (replacement.is_active(u) && (u != t
                || mentions(replacement.terms@, t))) by {}
        }
        let ghost ts = self.terms@;
        let ghost vt = env.vtypes();
        let ghost w = at_least_one_of(repl.abs_sum());
        let mut out = Expression::simple(env.id, self.offset);
        let mut v: usize = 0;
        while v < self.active.len()
            invariant
                0 <= v <= self.active.len(),
                self.belongs_to(env),
                out.belongs_to(env),
                out.offset == self.offset,
                out.terms@.len() == 0,
                forall|u: u32| #[trigger] out.is_active(u) == (self.is_active(u) && u != t && (u as int)
                    < v),
            decreases self.active.len() - v,
        {
            if self.active[v] && v != t as usize {
                proof {
                    assert(env.len() == env.varcount as nat);
                }
                out.add_variable(env, v as VarIndex);
            }
            v = v + 1;
        }
        proof {
            lemma_subst_terms_bound(ts, 0, t, w);
            assert(ts.take(0) =~= Seq::<Term>::empty());
            assert(!mentions(ts.take(0), t));
            lemma_terms_abs_nonneg(out.terms@);
            assert forall|s: Seq<int>| valid_sample(vt, s) implies #[trigger] out.value(s) == self.offset
                + terms_value(ts.take(0), s.update(t as int, repl.value(s))) by {}
        }
        let mut i: usize = 0;
        while i < self.terms.len()
            invariant
                0 <= i <= self.terms.len(),
                ts == self.terms@,
                vt == env.vtypes(),
                w == at_least_one_of(repl.abs_sum()),
                t == target.id,
                self.belongs_to(env),
                repl.belongs_to(env),
                (t as nat) < env.len(),
                self.subst_bound(t, repl.abs_sum()) <= Bias::MAX,
                out.belongs_to(env),
                forall|s: Seq<int>| valid_sample(vt, s) ==> #[trigger] out.value(s) == self.offset
                    + terms_value(ts.take(i as int), s.update(t as int, repl.value(s))),
                out.abs_sum() <= abs(self.offset as int) + subst_terms_bound(ts.take(i as int), t, w),
                forall|u: u32| #[trigger] out.is_active(u) == ((self.is_active(u) && u != t) || (
                mentions(ts.take(i as int), t) && repl.is_active(u))),
            decreases self.terms.len() - i,
        {
            let ghost key = ts[i as int].vars@;
            let ghost b = ts[i as int].bias;
            let ghost before = out;
            proof {
                lemma_subst_terms_bound(ts, i + 1, t, w);
                lemma_subst_terms_bound(ts, i as int, t, w);
                assert(ts.take(i + 1).drop_last() =~= ts.take(i as int));
                assert(ts.take(i + 1).last() == ts[i as int]);
                lemma_subst_weight_pos(key, t, w);
                lemma_mul_le(abs(b as int), abs(b as int), 1, subst_weight(key, t, w));
                lemma_mentions_step(ts, i as int, t);
                lemma_terms_abs_nonneg(out.terms@);
                assert(is_canonical(key, vt));
            }
            if key_contains(&self.terms[i].vars, t) {
                let p = Expression::substituted_term(env, &self.terms[i].vars, self.terms[i].bias, t, &repl);
                proof {
                    lemma_terms_abs_nonneg(p.terms@);
                }
                match out.add(env, &p) {
                    Ok(o) => {
                        out = o;
                    },
                    Err(_) => {
                        assert(false);
                    },
                }
                proof {
                    assert forall|s: Seq<int>| valid_sample(vt, s) implies #[trigger] out.value(s)
                        == self.offset + terms_value(ts.take(i + 1), s.update(t as int, repl.value(s))) by {
                        lemma_terms_take_step(ts, i as int, s.update(t as int, repl.value(s)));
                    }
                    assert forall|u: u32| #[trigger] out.is_active(u) == ((self.is_active(u) && u != t) || (
                    mentions(ts.take(i + 1), t) && repl.is_active(u))) by {
                        if key.contains(u) {
                            let k = choose|k: int| 0 <= k < key.len() && key[k] == u;
                            assert(self.is_active(ts[i as int].vars@[k]));
                        }
                    }
                }
            } else {
                proof {
                    assert forall|k: int| 0 <= k < key.len() implies out.is_active(#[trigger] key[k]) by {
                        assert(self.is_active(ts[i as int].vars@[k]));
                        assert(key.contains(key[k]));
                    }
                }
                let k = self.terms[i].vars.clone();
                proof {
                    assert(k@ =~= key);
                }
                out.add_term(env, k, self.terms[i].bias);
                proof {
                    assert forall|s: Seq<int>| valid_sample(vt, s) implies #[trigger] out.value(s)
                        == self.offset + terms_value(ts.take(i + 1), s.update(t as int, repl.value(s))) by {
                        lemma_terms_take_step(ts, i as int, s.update(t as int, repl.value(s)));
                        lemma_value_without(key, s, t, repl.value(s));
                    }
                    assert forall|u: u32| #[trigger] out.is_active(u) == ((self.is_active(u) && u != t) || (
                    mentions(ts.take(i + 1), t) && repl.is_active(u))) by {
                        assert(out.is_active(u) == before.is_active(u));
                    }
                }
            }
            i = i + 1;
        }
        proof {
            assert(ts.take(ts.len() as int) =~= ts);
            assert forall|s: Seq<int>| valid_sample(vt, s) implies #[trigger] out.value(s)
                == self.value(s.update(t as int, replacement.value(s))) by {
                assert(repl.value(s) == replacement.value(s));
            }
        }
        Ok(out)
    }

    /// The bound on the coefficients met while `t` is replaced by an expression whose
    /// absolute sum is `a`.
    pub open spec fn subst_bound(&self, t: u32, a: int) -> int {
        abs(self.offset as int) + subst_terms_bound(self.terms@, t, at_least_one_of(a))
    }

    /// The product of `bias` and the variables of `vars`, with `replacement` in place of
    /// each occurrence of `t`.
    fn substituted_term(
        env: &Environment,
        vars: &Vec<VarIndex>,
        bias: Bias,
        t: VarIndex,
        replacement: &Expression,
    ) -> (r: Expression)
        requires
            env.wf(),
            replacement.belongs_to(env),
            (t as nat) < env.len(),
            is_canonical(vars@, env.vtypes()),
            abs(bias as int) * subst_weight(vars@, t, at_least_one_of(replacement.abs_sum())) <= Bias::MAX,
        ensures
            r.belongs_to(env),
            r.abs_sum() <= abs(bias as int) * subst_weight(vars@, t, at_least_one_of(replacement.abs_sum())),
            forall|s: Seq<int>| valid_sample(env.vtypes(), s) ==> #[trigger] r.value(s) == bias
                * monomial_value(vars@, s.update(t as int, replacement.value(s))),
            forall|u: u32| #[trigger] r.is_active(u) == ((vars@.contains(u) && u != t) || (vars@.contains(t)
                && replacement.is_active(u))),
    {
        let ghost w = at_least_one_of(replacement.abs_sum());
        let ghost key = vars@;
        let ghost vt = env.vtypes();
        let mut out = Expression::simple(env.id, bias);
        proof {
            lemma_subst_weight_prefix(key, 0, t, w);
            assert(key.take(0) =~= Seq::<u32>::empty());
            lemma_terms_abs_nonneg(replacement.terms@);
            lemma_mul_le(abs(bias as int), abs(bias as int), 1, subst_weight(key, t, w));
            assert forall|s: Seq<int>| valid_sample(vt, s) implies #[trigger] out.value(s) == bias
                * monomial_value(key.take(0), s.update(t as int, replacement.value(s))) by {}
        }
        let mut k: usize = 0;
        while k < vars.len()
            invariant
                0 <= k <= vars.len(),
                key == vars@,
                vt == env.vtypes(),
                w == at_least_one_of(replacement.abs_sum()),
                env.wf(),
                replacement.belongs_to(env),
                (t as nat) < env.len(),
                is_canonical(key, vt),
                abs(bias as int) * subst_weight(key, t, w) <= Bias::MAX,
                out.belongs_to(env),
                out.abs_sum() <= abs(bias as int) * subst_weight(key.take(k as int), t, w),
                forall|s: Seq<int>| valid_sample(vt, s) ==> #[trigger] out.value(s) == bias
                    * monomial_value(key.take(k as int), s.update(t as int, replacement.value(s))),
                forall|u: u32| #[trigger] out.is_active(u) == ((key.take(k as int).contains(u) && u != t)
                    || (key.take(k as int).contains(t) && replacement.is_active(u))),
            decreases vars.len() - k,
        {
            let x = vars[k];
            let ghost before = out;
            proof {
                assert(key.take(k + 1) =~= key.take(k as int) + seq![x]);
                lemma_subst_weight_concat(key.take(k as int), seq![x], t, w);
                assert(seq![x].drop_first() =~= Seq::<u32>::empty());
                assert(subst_weight(seq![x].drop_first(), t, w) == 1);
                lemma_subst_weight_prefix(key, k + 1, t, w);
                lemma_subst_weight_prefix(key, k as int, t, w);
                lemma_terms_abs_nonneg(out.terms@);
                lemma_mul_le(abs(bias as int), abs(bias as int), subst_weight(key.take(k + 1), t, w),
                    subst_weight(key, t, w));
                lemma_mul_le(abs(bias as int), abs(bias as int), subst_weight(key.take(k as int), t, w),
                    subst_weight(key, t, w));
                lemma_terms_abs_nonneg(replacement.terms@);
                assert((x as nat) < env.len());
                assert forall|u: u32| #[trigger] key.take(k + 1).contains(u) == (key.take(k as int).contains(u)
                    || u == x) by {
                    if u == x {
                        assert(key.take(k + 1)[k as int] == x);
                    }
                    if key.take(k as int).contains(u) {
                        let j = choose|j: int| 0 <= j < key.take(k as int).len() && #[trigger] key.take(k as int)[j] == u;
                        assert(key.take(k + 1)[j] == u);
                    }
                    if key.take(k + 1).contains(u) {
                        let j = choose|j: int| 0 <= j < key.take(k + 1).len() && #[trigger] key.take(k + 1)[j] == u;
                        if j < k {
                            assert(key.take(k as int)[j] == u);
                        }
                    }
                }
            }
            if x == t {
                proof {
                    let p = abs(bias as int) * subst_weight(key.take(k as int), t, w);
                    assert(subst_weight(key.take(k + 1), t, w) == subst_weight(key.take(k as int), t, w) * (w * 1));
                    let a = replacement.abs_sum();
                    lemma_mul_le(out.abs_sum(), p, a, w);
                    assert(p * w == abs(bias as int) * subst_weight(key.take(k + 1), t, w)) by (nonlinear_arith)
                        requires
                            p == abs(bias as int) * subst_weight(key.take(k as int), t, w),
                            subst_weight(key.take(k + 1), t, w) == subst_weight(key.take(k as int), t, w) * (w * 1),
                    ;
                }
                let mut prod = Expression::empty(out.env_id);
                proof {
                    assert forall|u: u32| #[trigger] prod.is_active(u) == false by {
                        assert(!prod.active_set().contains(u));
                    }
                }
                Expression::multiply(&out, replacement, env, &mut prod);
                out = prod;
                proof {
                    assert(out.abs_sum() <= abs(bias as int) * subst_weight(key.take(k + 1), t, w));
                    assert forall|s: Seq<int>| valid_sample(vt, s) implies #[trigger] out.value(s) == bias
                        * monomial_value(key.take(k + 1), s.update(t as int, replacement.value(s))) by {
                        let s2 = s.update(t as int, replacement.value(s));
                        lemma_value_concat(key.take(k as int), seq![x], s2);
                        assert(monomial_value(seq![x].drop_first(), s2) == 1);
                        assert(s2[x as int] == replacement.value(s));
                        let m = monomial_value(key.take(k as int), s2);
                        assert(bias * m * replacement.value(s) == bias * (m * (replacement.value(s) * 1)))
                            by (nonlinear_arith);
                    }
                }
            } else {
                proof {
                    assert(subst_weight(key.take(k + 1), t, w) == subst_weight(key.take(k as int), t, w) * (1 * 1));
                    assert(subst_weight(key.take(k + 1), t, w) == subst_weight(key.take(k as int), t, w))
                        by (nonlinear_arith)
                        requires
                            subst_weight(key.take(k + 1), t, w) == subst_weight(key.take(k as int), t, w)
                                * (1 * 1),
                    ;
                    assert(before.abs_sum() <= abs(bias as int) * subst_weight(key.take(k + 1), t, w));
                }
                let res = out.mul_var(env, &VarRef::new(x, env.id));
                match res {
                    Ok(o) => {
                        assert(o.abs_sum() <= before.abs_sum());
                        out = o;
                    },
                    Err(_) => {
                        assert(false);
                    },
                }
                proof {
                    assert(out.abs_sum() <= abs(bias as int) * subst_weight(key.take(k + 1), t, w));
                    assert forall|s: Seq<int>| valid_sample(vt, s) implies #[trigger] out.value(s) == bias
                        * monomial_value(key.take(k + 1), s.update(t as int, replacement.value(s))) by {
                        let s2 = s.update(t as int, replacement.value(s));
                        lemma_value_concat(key.take(k as int), seq![x], s2);
                        assert(monomial_value(seq![x].drop_first(), s2) == 1);
                        assert(s2[x as int] == s[x as int]);
                        let m = monomial_value(key.take(k as int), s2);
                        assert(bias * m * s[x as int] == bias * (m * (s[x as int] * 1)))
                            by (nonlinear_arith);
                    }
                }
            }
            k = k + 1;
        }
        proof {
            assert(key.take(key.len() as int) =~= key);
        }
        out
    }
}

} // verus!
