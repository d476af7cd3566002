//! Expressions: polynomials of arbitrary degree over the variables of an
//! environment, with integer coefficients (biases).
//!
//! An expression is an offset plus a list of terms. Each term is a monomial in
//! canonical form (see `monomial`) with its bias; no monomial occurs twice. The
//! expression also tracks which variables it contains (is "active" in).
use vstd::prelude::*;

use crate::environment::{EnvId, Environment, VarIndex, VarRef};
use crate::monomial::{
    in_range, is_canonical, is_reduction, lemma_reduction_canonical, lemma_reduction_preserves_value,
    lemma_reduction_unique, lemma_value_concat, monomial_value, reduce_higher_order_vars, reduced,
    valid_sample, count, lemma_count_in, lemma_count_positive, lemma_count_single, is_sorted,
};
use crate::types::Vtype;

verus! {

/// The coefficient type of expressions.
pub type Bias = i64;

/// A monomial of degree one or more with its bias.
pub struct Term {
    pub vars: Vec<VarIndex>,
    pub bias: Bias,
}

/// A polynomial over the variables of one environment.
pub struct Expression {
    /// The identity of the environment the variables belong to.
    pub env_id: EnvId,
    /// The constant part.
    pub offset: Bias,
    /// The monomials of degree one or more, each with its bias.
    pub terms: Vec<Term>,
    /// `active[v]` tells whether variable `v` has been added to the expression.
    pub active: Vec<bool>,
}

pub open spec fn abs(x: int) -> int {
    if x < 0 {
        -x
    } else {
        x
    }
}

/// The sum of the biases of the terms whose monomial is `k`.
pub open spec fn terms_coeff(ts: Seq<Term>, k: Seq<u32>) -> int
    decreases ts.len(),
{
    if ts.len() == 0 {
        0
    } else {
        terms_coeff(ts.drop_last(), k) + (if ts.last().vars@ == k {
            ts.last().bias as int
        } else {
            0
        })
    }
}

/// The value of the terms under `sample`.
pub open spec fn terms_value(ts: Seq<Term>, sample: Seq<int>) -> int
    decreases ts.len(),
{
    if ts.len() == 0 {
        0
    } else {
        terms_value(ts.drop_last(), sample) + ts.last().bias * monomial_value(
            ts.last().vars@,
            sample,
        )
    }
}

/// The sum of the absolute values of the biases of the terms.
pub open spec fn terms_abs(ts: Seq<Term>) -> int
    decreases ts.len(),
{
    if ts.len() == 0 {
        0
    } else {
        terms_abs(ts.drop_last()) + abs(ts.last().bias as int)
    }
}

pub proof fn lemma_terms_abs_nonneg(ts: Seq<Term>)
    ensures
        terms_abs(ts) >= 0,
    decreases ts.len(),
{
    if ts.len() > 0 {
        lemma_terms_abs_nonneg(ts.drop_last());
    }
}

pub proof fn lemma_terms_abs_bound(ts: Seq<Term>, i: int)
    requires
        0 <= i < ts.len(),
    ensures
        abs(ts[i].bias as int) <= terms_abs(ts),
    decreases ts.len(),
{
    lemma_terms_abs_nonneg(ts.drop_last());
    if i < ts.len() - 1 {
        lemma_terms_abs_bound(ts.drop_last(), i);
    }
}

/// Replacing the bias of one term changes coefficient, value and absolute sum by
/// the difference.
pub proof fn lemma_terms_update(ts: Seq<Term>, i: int, t: Term, k: Seq<u32>, sample: Seq<int>)
    requires
        0 <= i < ts.len(),
        t.vars@ == ts[i].vars@,
    ensures
        terms_coeff(ts.update(i, t), k) == terms_coeff(ts, k) + (if ts[i].vars@ == k {
            t.bias - ts[i].bias
        } else {
            0
        }),
        terms_value(ts.update(i, t), sample) == terms_value(ts, sample) + (t.bias - ts[i].bias)
            * monomial_value(ts[i].vars@, sample),
        terms_abs(ts.update(i, t)) == terms_abs(ts) + abs(t.bias as int) - abs(ts[i].bias as int),
    decreases ts.len(),
{
    let u = ts.update(i, t);
    if i == ts.len() - 1 {
        assert(u.drop_last() =~= ts.drop_last());
        let m = monomial_value(ts[i].vars@, sample);
        assert(t.bias * m == ts[i].bias * m + (t.bias - ts[i].bias) * m) by (nonlinear_arith);
    } else {
        assert(u.drop_last() =~= ts.drop_last().update(i, t));
        lemma_terms_update(ts.drop_last(), i, t, k, sample);
    }
}

/// With distinct monomials, the coefficient of a monomial is the bias of its term.
pub proof fn lemma_terms_coeff_distinct(ts: Seq<Term>, i: int)
    requires
        0 <= i < ts.len(),
        forall|a: int, b: int| 0 <= a < b < ts.len() ==> ts[a].vars@ != ts[b].vars@,
    ensures
        terms_coeff(ts, ts[i].vars@) == ts[i].bias,
    decreases ts.len(),
{
    if i == ts.len() - 1 {
        lemma_terms_coeff_absent(ts.drop_last(), ts[i].vars@);
    } else {
        lemma_terms_coeff_distinct(ts.drop_last(), i);
    }
}

/// A monomial without a term has coefficient zero.
pub proof fn lemma_terms_coeff_absent(ts: Seq<Term>, k: Seq<u32>)
    requires
        forall|a: int| 0 <= a < ts.len() ==> ts[a].vars@ != k,
    ensures
        terms_coeff(ts, k) == 0,
    decreases ts.len(),
{
    if ts.len() > 0 {
        lemma_terms_coeff_absent(ts.drop_last(), k);
    }
}

/// Whether two monomials are the same.
pub(crate) fn keys_equal(a: &Vec<VarIndex>, b: &Vec<VarIndex>) -> (r: bool)
    ensures
        r == (a@ == b@),
{
    if a.len() != b.len() {
        return false;
    }
    let mut i: usize = 0;
    while i < a.len()
        invariant
            a.len() == b.len(),
            0 <= i <= a.len(),
            forall|k: int| 0 <= k < i ==> a@[k] == b@[k],
        decreases a.len() - i,
    {
        if a[i] != b[i] {
            return false;
        }
        i = i + 1;
    }
    assert(a@ =~= b@);
    true
}

/// A copy of a monomial.
fn copy_key(a: &Vec<VarIndex>) -> (r: Vec<VarIndex>)
    ensures
        r@ == a@,
{
    let mut r: Vec<VarIndex> = Vec::new();
    let mut i: usize = 0;
    while i < a.len()
        invariant
            0 <= i <= a.len(),
            r@ =~= a@.take(i as int),
        decreases a.len() - i,
    {
        r.push(a[i]);
        i = i + 1;
    }
    assert(a@.take(a.len() as int) =~= a@);
    r
}

impl Term {
    /// A copy of the term.
    pub fn copy(&self) -> (r: Term)
        ensures
            r.vars@ == self.vars@,
            r.bias == self.bias,
    {
        Term { vars: copy_key(&self.vars), bias: self.bias }
    }
}

impl Expression {
    /// The coefficient of monomial `k`; the empty monomial is the offset.
    pub open spec fn coeff(&self, k: Seq<u32>) -> int {
        (if k.len() == 0 {
            self.offset as int
        } else {
            0
        }) + terms_coeff(self.terms@, k)
    }

    /// The value of the expression under `sample`.
    pub open spec fn value(&self, sample: Seq<int>) -> int {
        self.offset + terms_value(self.terms@, sample)
    }

    /// The sum of the absolute values of all coefficients.
    pub open spec fn abs_sum(&self) -> int {
        abs(self.offset as int) + terms_abs(self.terms@)
    }

    /// Some term of the expression has the monomial `k`.
    pub open spec fn has_term(&self, k: Seq<u32>) -> bool {
        exists|j: int| 0 <= j < self.terms@.len() && #[trigger] self.terms@[j].vars@ == k
    }

    /// Variable `v` has been added to the expression.
    pub open spec fn is_active(&self, v: u32) -> bool {
        (v as int) < self.active@.len() && self.active@[v as int]
    }

    /// The variables that have been added to the expression.
    pub open spec fn active_set(&self) -> Set<u32> {
        Set::new(|v: u32| self.is_active(v))
    }

    /// The representation invariant, given the types of the variables: every term's
    /// monomial is canonical and of degree one or more, no monomial occurs twice,
    /// and every variable of a term is active.
    pub open spec fn wf(&self, vtypes: Seq<Vtype>) -> bool {
        &&& self.active@.len() <= vtypes.len()
        &&& forall|i: int|
            0 <= i < self.terms@.len() ==> is_canonical(#[trigger] self.terms@[i].vars@, vtypes)
                && self.terms@[i].vars@.len() > 0
        &&& forall|i: int, j: int|
            0 <= i < j < self.terms@.len() ==> self.terms@[i].vars@ != self.terms@[j].vars@
        &&& forall|i: int, k: int|
            0 <= i < self.terms@.len() && 0 <= k < self.terms@[i].vars@.len() ==> self.is_active(
                #[trigger] self.terms@[i].vars@[k],
            )
    }

    /// The expression is well formed with respect to environment `env`.
    pub open spec fn belongs_to(&self, env: &Environment) -> bool {
        &&& env.wf()
        &&& self.env_id == env.id
        &&& self.wf(env.vtypes())
    }

    /// The empty expression (zero) of an environment.
    pub fn empty(env_id: EnvId) -> (r: Self)
        ensures
            r.env_id == env_id,
            r.offset == 0,
            r.terms@.len() == 0,
            r.active@.len() == 0,
            forall|vtypes: Seq<Vtype>| r.wf(vtypes),
            forall|k: Seq<u32>| #[trigger] r.coeff(k) == 0,
            r.active_set() == Set::<u32>::empty(),
            r.abs_sum() == 0,
    {
        let r = Expression { env_id, offset: 0, terms: Vec::new(), active: Vec::new() };
        assert(r.active_set() =~= Set::<u32>::empty());
        r
    }

    /// The constant expression `offset`.
    pub fn simple(env_id: EnvId, offset: Bias) -> (r: Self)
        ensures
            r.env_id == env_id,
            r.offset == offset,
            r.terms@.len() == 0,
            r.active@.len() == 0,
            forall|vtypes: Seq<Vtype>| r.wf(vtypes),
            forall|k: Seq<u32>| #[trigger] r.coeff(k) == if k.len() == 0 { offset as int } else { 0 },
            r.active_set() == Set::<u32>::empty(),
            r.abs_sum() == abs(offset as int),
    {
        let r = Expression { env_id, offset, terms: Vec::new(), active: Vec::new() };
        assert(r.active_set() =~= Set::<u32>::empty());
        r
    }

    /// The constant part.
    pub fn offset(&self) -> (r: Bias)
        ensures
            r == self.offset,
    {
        self.offset
    }

    /// The position of the term of monomial `key`, if there is one.
    pub(crate) fn find_term(&self, key: &Vec<VarIndex>) -> (r: Option<usize>)
        ensures
            r matches Some(i) ==> i < self.terms.len() && self.terms@[i as int].vars@ == key@,
            r is None ==> forall|i: int|
                0 <= i < self.terms@.len() ==> self.terms@[i].vars@ != key@,
    {
        let mut i: usize = 0;
        while i < self.terms.len()
            invariant
                0 <= i <= self.terms.len(),
                forall|j: int| 0 <= j < i ==> self.terms@[j].vars@ != key@,
            decreases self.terms.len() - i,
        {
            if keys_equal(&self.terms[i].vars, key) {
                return Some(i);
            }
            i = i + 1;
        }
        None
    }

    /// Marks variable `v` as no longer part of the expression; no term may hold it.
    pub fn remove_variable(&mut self, env: &Environment, v: VarIndex)
        requires
            old(self).belongs_to(env),
            forall|i: int, k: int|
                0 <= i < old(self).terms@.len() && 0 <= k < old(self).terms@[i].vars@.len() ==> #[trigger] old(
                    self,
                ).terms@[i].vars@[k] != v,
        ensures
            final(self).belongs_to(env),
            forall|u: u32| #[trigger] final(self).is_active(u) == (old(self).is_active(u) && u != v),
            final(self).offset == old(self).offset,
            final(self).terms@ == old(self).terms@,
            final(self).env_id == old(self).env_id,
    {
        if (v as usize) < self.active.len() {
            self.active.set(v as usize, false);
        }
    }

    /// Marks variable `v` as part of the expression and returns its index.
    pub fn add_variable(&mut self, env: &Environment, v: VarIndex) -> (r: usize)
        requires
            old(self).belongs_to(env),
            (v as nat) < env.len(),
        ensures
            r == v,
            final(self).belongs_to(env),
            final(self).active_set() == old(self).active_set().insert(v),
            forall|u: u32| #[trigger] final(self).is_active(u) == (old(self).is_active(u) || u == v),
            final(self).offset == old(self).offset,
            final(self).terms@ == old(self).terms@,
            final(self).env_id == old(self).env_id,
    {
        let ghost old_self = *self;
        let vi = v as usize;
        if vi >= self.active.len() {
            while self.active.len() < vi
                invariant
                    self.active@.len() <= vi,
                    forall|k: int| 0 <= k < old_self.active@.len() ==> self.active@[k] == old_self.active@[k],
                    forall|k: int| old_self.active@.len() <= k < self.active@.len() ==> !self.active@[k],
                    self.active@.len() >= old_self.active@.len(),
                    self.terms@ == old_self.terms@,
                    self.offset == old_self.offset,
                    self.env_id == old_self.env_id,
                decreases vi - self.active.len(),
            {
                self.active.push(false);
            }
            self.active.push(true);
        } else {
            self.active.set(vi, true);
        }
        proof {
            assert forall|u: u32| #[trigger] self.is_active(u) == (old_self.is_active(u) || u == v) by {}
            assert(self.active_set() =~= old_self.active_set().insert(v));
            assert forall|i: int, k: int|
                0 <= i < self.terms@.len() && 0 <= k < self.terms@[i].vars@.len() implies self.is_active(
                #[trigger] self.terms@[i].vars@[k],
            ) by {
                assert(old_self.is_active(old_self.terms@[i].vars@[k]));
            }
        }
        vi
    }

    /// Adds `bias` to the coefficient of the monomial `key`, which must be canonical
    /// and consist of active variables.
    pub(crate) fn add_term(&mut self, env: &Environment, key: Vec<VarIndex>, bias: Bias)
        requires
            old(self).belongs_to(env),
            is_canonical(key@, env.vtypes()),
            key@.len() > 0,
            forall|k: int| 0 <= k < key@.len() ==> old(self).is_active(#[trigger] key@[k]),
            old(self).abs_sum() + abs(bias as int) <= Bias::MAX || old(self).coeff(key@) == 0,
        ensures
            final(self).belongs_to(env),
            forall|k: Seq<u32>| #[trigger] final(self).coeff(k) == old(self).coeff(k) + (if k
                == key@ {
                bias as int
            } else {
                0
            }),
            forall|sample: Seq<int>| #[trigger] final(self).value(sample) == old(self).value(sample) + bias
                * monomial_value(key@, sample),
            final(self).abs_sum() <= old(self).abs_sum() + abs(bias as int),
            final(self).active@ == old(self).active@,
            final(self).offset == old(self).offset,
            final(self).env_id == old(self).env_id,
            forall|k: Seq<u32>| #[trigger] final(self).has_term(k) ==> old(self).has_term(k) || (k == key@
                && bias != 0),
    {
        let ghost old_self = *self;
        let ghost ts = self.terms@;
        match self.find_term(&key) {
            Some(i) => {
                proof {
                    lemma_terms_abs_bound(ts, i as int);
                    lemma_terms_abs_nonneg(ts);
                    lemma_terms_coeff_distinct(ts, i as int);
                }
                let nb = self.terms[i].bias + bias;
                let t = Term { vars: key, bias: nb };
                let ghost tg = t;
                self.terms.set(i, t);
                proof {
                    assert(self.terms@ == ts.update(i as int, tg));
                    assert forall|k: Seq<u32>| #[trigger] self.coeff(k) == old_self.coeff(k) + (if k
                        == key@ {
                        bias as int
                    } else {
                        0
                    }) by {
                        lemma_terms_update(ts, i as int, tg, k, Seq::empty());
                    }
                    assert forall|sample: Seq<int>| #[trigger] self.value(sample) == old_self.value(
                        sample,
                    ) + bias * monomial_value(key@, sample) by {
                        lemma_terms_update(ts, i as int, tg, Seq::empty(), sample);
                    }
                    lemma_terms_update(ts, i as int, tg, Seq::empty(), Seq::empty());
                    assert forall|a: int, b: int|
                        0 <= a < b < self.terms@.len() implies self.terms@[a].vars@
                        != self.terms@[b].vars@ by {
                        assert(ts[a].vars@ != ts[b].vars@);
                    }
                    assert forall|a: int, k: int|
                        0 <= a < self.terms@.len() && 0 <= k < self.terms@[a].vars@.len() implies self.is_active(
                        #[trigger] self.terms@[a].vars@[k],
                    ) by {
                        assert(old_self.is_active(ts[a].vars@[k]));
                    }
                    assert forall|k: Seq<u32>| #[trigger] self.has_term(k) implies old_self.has_term(k) by {
                        let j = choose|j: int| 0 <= j < self.terms@.len() && #[trigger] self.terms@[j].vars@ == k;
                        assert(ts[j].vars@ == k);
                    }
                }
            },
            None => {
                if bias != 0 {
                    let t = Term { vars: key, bias };
                    let ghost tg = t;
                    self.terms.push(t);
                    proof {
                        assert(self.terms@.drop_last() =~= ts);
                        assert forall|k: int|
                            0 <= k < tg.vars@.len() implies self.is_active(#[trigger] tg.vars@[k]) by {
                            assert(old_self.is_active(key@[k]));
                        }
                        assert forall|a: int, k: int|
                            0 <= a < self.terms@.len() && 0 <= k < self.terms@[a].vars@.len() implies self.is_active(
                            #[trigger] self.terms@[a].vars@[k],
                        ) by {
                            if a < ts.len() {
                                assert(old_self.is_active(ts[a].vars@[k]));
                            } else {
                                assert(self.terms@[a] == tg);
                            }
                        }
                        assert forall|k: Seq<u32>| #[trigger] self.has_term(k) implies old_self.has_term(k) || (k
                            == key@ && bias != 0) by {
                            let j = choose|j: int| 0 <= j < self.terms@.len() && #[trigger] self.terms@[j].vars@ == k;
                            if j < ts.len() {
                                assert(ts[j].vars@ == k);
                            }
                        }
                    }
                } else {
                    assert forall|sample: Seq<int>| #[trigger] self.value(sample) == old_self.value(
                        sample,
                    ) + bias * monomial_value(key@, sample) by {
                        assert(bias * monomial_value(key@, sample) == 0);
                    }
                }
            },
        }
    }

    /// Adds `bias` to the offset.
    pub fn add_offset(&mut self, bias: Bias)
        requires
            old(self).abs_sum() + abs(bias as int) <= Bias::MAX,
        ensures
            final(self).offset == old(self).offset + bias,
            final(self).terms@ == old(self).terms@,
            final(self).active@ == old(self).active@,
            final(self).env_id == old(self).env_id,
            forall|k: Seq<u32>| #[trigger] final(self).coeff(k) == old(self).coeff(k) + (if k.len() == 0 {
                bias as int
            } else {
                0
            }),
            forall|sample: Seq<int>| #[trigger] final(self).value(sample) == old(self).value(sample) + bias,
            final(self).abs_sum() <= old(self).abs_sum() + abs(bias as int),
    {
        proof {
            lemma_terms_abs_nonneg(self.terms@);
        }
        self.offset = self.offset + bias;
    }

    /// Marks all variables of `vars` as part of the expression.
    pub fn add_variables(&mut self, env: &Environment, vars: &Vec<VarIndex>)
        requires
            old(self).belongs_to(env),
            vars.len() > 0,
            in_range(vars@, env.len()),
        ensures
            final(self).belongs_to(env),
            forall|u: u32| #[trigger] final(self).is_active(u) == (old(self).is_active(u) || vars@.contains(u)),
            final(self).offset == old(self).offset,
            final(self).terms@ == old(self).terms@,
            final(self).env_id == old(self).env_id,
    {
        let ghost old_self = *self;
        let mut i: usize = 0;
        while i < vars.len()
            invariant
                0 <= i <= vars.len(),
                in_range(vars@, env.len()),
                self.belongs_to(env),
                forall|u: u32| #[trigger] self.is_active(u) == (old_self.is_active(u) || vars@.take(i as int).contains(u)),
                self.offset == old_self.offset,
                self.terms@ == old_self.terms@,
                self.env_id == old_self.env_id,
            decreases vars.len() - i,
        {
            let ghost before = *self;
            self.add_variable(env, vars[i]);
            proof {
                let x = vars@[i as int];
                let pre = vars@.take(i as int);
                let post = vars@.take(i + 1);
                assert(post =~= pre.push(x));
                assert forall|u: u32| #[trigger] self.is_active(u) == (old_self.is_active(u) || post.contains(u)) by {
                    assert(self.is_active(u) == (before.is_active(u) || u == x));
                    assert(before.is_active(u) == (old_self.is_active(u) || pre.contains(u)));
                    if pre.contains(u) {
                        let k = choose|k: int| 0 <= k < pre.len() && #[trigger] pre[k] == u;
                        assert(post[k] == u);
                    }
                    if u == x {
                        assert(post[i as int] == u);
                    }
                    if post.contains(u) {
                        let k = choose|k: int| 0 <= k < post.len() && #[trigger] post[k] == u;
                        if k < i {
                            assert(pre[k] == u);
                        }
                    }
                }
            }
            i = i + 1;
        }
        assert(vars@.take(vars.len() as int) =~= vars@);
    }

    /// Adds `bias` times the product of the variables in `vars`, in canonical form:
    /// repeated binary variables collapse to one, pairs of equal spin variables to
    /// one, so the product may become linear or constant.
    pub fn add_higher_order(&mut self, env: &Environment, vars: &Vec<VarIndex>, bias: Bias)
        requires
            old(self).belongs_to(env),
            vars.len() > 0,
            in_range(vars@, env.len()),
            old(self).abs_sum() + abs(bias as int) <= Bias::MAX,
        ensures
            final(self).belongs_to(env),
            forall|u: u32| #[trigger] final(self).is_active(u) == (old(self).is_active(u) || vars@.contains(u)),
            forall|k: Seq<u32>| #[trigger] final(self).coeff(k) == old(self).coeff(k) + (if k
                == reduced(vars@, env.vtypes()) {
                bias as int
            } else {
                0
            }),
            forall|sample: Seq<int>| valid_sample(env.vtypes(), sample) ==> #[trigger] final(self).value(sample)
                == old(self).value(sample) + bias * monomial_value(vars@, sample),
            final(self).abs_sum() <= old(self).abs_sum() + abs(bias as int),
            final(self).env_id == old(self).env_id,
            is_reduction(vars@, env.vtypes(), reduced(vars@, env.vtypes())),
            forall|k: Seq<u32>| #[trigger] final(self).has_term(k) ==> old(self).has_term(k) || (k == reduced(
                vars@,
                env.vtypes(),
            ) && bias != 0),
    {
        let ghost vt = env.vtypes();
        let ghost old_self = *self;
        self.add_variables(env, vars);
        let c = reduce_higher_order_vars(vars, env);
        proof {
            lemma_reduction_unique(vars@, vt, c@);
            lemma_reduction_canonical(vars@, vt, c@);
            assert forall|sample: Seq<int>| valid_sample(vt, sample) implies monomial_value(c@, sample)
                == monomial_value(vars@, sample) by {
                lemma_reduction_preserves_value(vars@, vt, c@, sample);
            }
            assert forall|k: int| 0 <= k < c@.len() implies vars@.contains(#[trigger] c@[k]) by {
                lemma_count_in(c@, k);
                assert(count(c@, c@[k]) == crate::monomial::reduced_count(count(vars@, c@[k]), vt[c@[k] as int]));
                let j = lemma_count_positive(vars@, c@[k]);
            }
        }
        let ghost mid = *self;
        proof {
            assert forall|k: Seq<u32>| #[trigger] mid.coeff(k) == old_self.coeff(k) by {}
            assert forall|sample: Seq<int>| #[trigger] mid.value(sample) == old_self.value(sample) by {}
        }
        if c.len() == 0 {
            proof {
                assert(c@ =~= Seq::<u32>::empty());
                assert forall|sample: Seq<int>| #[trigger] monomial_value(c@, sample) == 1 by {}
            }
            self.add_offset(bias);
            proof {
                assert forall|k: Seq<u32>| #[trigger] self.coeff(k) == old_self.coeff(k) + (if k
                    == reduced(vars@, vt) {
                    bias as int
                } else {
                    0
                }) by {
                    assert((k == reduced(vars@, vt)) == (k.len() == 0)) by {
                        if k.len() == 0 {
                            assert(k =~= c@);
                        }
                    }
                }
            }
        } else {
            self.add_term(env, c, bias);
        }
        proof {
            assert forall|u: u32| #[trigger] self.is_active(u) == (old_self.is_active(u) || vars@.contains(u)) by {
                assert(self.is_active(u) == mid.is_active(u));
            }
        }
    }

    /// Sets the coefficient of the canonical form of the product of `vars` to `bias`
    /// where that product has three or more factors; where it has fewer, `bias` is
    /// added to its coefficient instead.
    pub fn set_higher_order(&mut self, env: &Environment, vars: &Vec<VarIndex>, bias: Bias)
        requires
            old(self).belongs_to(env),
            vars.len() > 0,
            in_range(vars@, env.len()),
            old(self).abs_sum() + abs(bias as int) <= Bias::MAX,
        ensures
            final(self).belongs_to(env),
            forall|u: u32| #[trigger] final(self).is_active(u) == (old(self).is_active(u) || vars@.contains(u)),
            forall|k: Seq<u32>| #[trigger] final(self).coeff(k) == if k == reduced(vars@, env.vtypes()) {
                if k.len() >= 3 {
                    bias as int
                } else {
                    old(self).coeff(k) + bias
                }
            } else {
                old(self).coeff(k)
            },
            final(self).abs_sum() <= old(self).abs_sum() + abs(bias as int),
            final(self).env_id == old(self).env_id,
    {
        let ghost vt = env.vtypes();
        let c = reduce_higher_order_vars(vars, env);
        proof {
            lemma_reduction_unique(vars@, vt, c@);
        }
        if c.len() < 3 {
            self.add_higher_order(env, vars, bias);
            return;
        }
        let ghost old_self = *self;
        self.add_variables(env, vars);
        proof {
            lemma_reduction_canonical(vars@, vt, c@);
            assert forall|k: int| 0 <= k < c@.len() implies vars@.contains(#[trigger] c@[k]) by {
                lemma_count_in(c@, k);
                assert(count(c@, c@[k]) == crate::monomial::reduced_count(count(vars@, c@[k]), vt[c@[k] as int]));
                let j = lemma_count_positive(vars@, c@[k]);
            }
            lemma_terms_abs_nonneg(self.terms@);
        }
        let ghost mid = *self;
        let ghost ts = self.terms@;
        match self.find_term(&c) {
            Some(i) => {
                proof {
                    lemma_terms_coeff_distinct(ts, i as int);
                    lemma_terms_abs_bound(ts, i as int);
                }
                let t = Term { vars: c, bias };
                let ghost tg = t;
                self.terms.set(i, t);
                proof {
                    assert(self.terms@ == ts.update(i as int, tg));
                    assert forall|k: Seq<u32>| #[trigger] self.coeff(k) == if k == reduced(vars@, vt) {
                        bias as int
                    } else {
                        old_self.coeff(k)
                    } by {
                        lemma_terms_update(ts, i as int, tg, k, Seq::empty());
                    }
                    lemma_terms_update(ts, i as int, tg, Seq::empty(), Seq::empty());
                    assert forall|a: int, b: int|
                        0 <= a < b < self.terms@.len() implies self.terms@[a].vars@
                        != self.terms@[b].vars@ by {
                        assert(ts[a].vars@ != ts[b].vars@);
                    }
                    assert forall|a: int, k: int|
                        0 <= a < self.terms@.len() && 0 <= k < self.terms@[a].vars@.len() implies self.is_active(
                        #[trigger] self.terms@[a].vars@[k],
                    ) by {
                        if a == i {
                            assert(vars@.contains(c@[k]));
                        } else {
                            assert(mid.is_active(ts[a].vars@[k]));
                        }
                    }
                }
            },
            None => {
                proof {
                    lemma_terms_coeff_absent(ts, c@);
                }
                let t = Term { vars: c, bias };
                let ghost tg = t;
                self.terms.push(t);
                proof {
                    assert(self.terms@.drop_last() =~= ts);
                    assert forall|k: Seq<u32>| #[trigger] self.coeff(k) == if k == reduced(vars@, vt) {
                        bias as int
                    } else {
                        old_self.coeff(k)
                    } by {}
                    assert forall|a: int, k: int|
                        0 <= a < self.terms@.len() && 0 <= k < self.terms@[a].vars@.len() implies self.is_active(
                        #[trigger] self.terms@[a].vars@[k],
                    ) by {
                        if a < ts.len() {
                            assert(mid.is_active(ts[a].vars@[k]));
                        } else {
                            assert(self.terms@[a] == tg);
                            assert(vars@.contains(c@[k]));
                            assert(mid.is_active(c@[k]));
                        }
                    }
                }
            },
        }
        proof {
            assert forall|u: u32| #[trigger] self.is_active(u) == (old_self.is_active(u) || vars@.contains(u)) by {
                assert(self.is_active(u) == mid.is_active(u));
            }
        }
    }

    /// Adds `bias` times variable `v`.
    pub fn add_linear(&mut self, env: &Environment, v: VarIndex, bias: Bias)
        requires
            old(self).belongs_to(env),
            (v as nat) < env.len(),
            old(self).abs_sum() + abs(bias as int) <= Bias::MAX,
        ensures
            final(self).belongs_to(env),
            final(self).active_set() == old(self).active_set().insert(v),
            forall|k: Seq<u32>| #[trigger] final(self).coeff(k) == old(self).coeff(k) + (if k
                == seq![v] {
                bias as int
            } else {
                0
            }),
            forall|sample: Seq<int>| #[trigger] final(self).value(sample) == old(self).value(sample) + bias
                * sample[v as int],
            final(self).abs_sum() <= old(self).abs_sum() + abs(bias as int),
            final(self).env_id == old(self).env_id,
            forall|k: Seq<u32>| #[trigger] final(self).has_term(k) ==> old(self).has_term(k) || (k == seq![v]
                && bias != 0),
            final(self).offset == old(self).offset,
    {
        self.add_variable(env, v);
        let mut key: Vec<VarIndex> = Vec::new();
        key.push(v);
        proof {
            assert(key@ =~= seq![v]);
            assert forall|w: u32| #[trigger] count(key@, w) <= 1 by {
                lemma_count_single(v, w);
            }
            assert(self.is_active(key@[0]));
            assert forall|sample: Seq<int>| #[trigger] monomial_value(key@, sample) == sample[v as int] by {
                assert(key@.drop_first() =~= Seq::<u32>::empty());
                assert(monomial_value(key@.drop_first(), sample) == 1);
            }
        }
        self.add_term(env, key, bias);
    }

    /// Adds `bias` times the product of `u` and `v`, in canonical form.
    pub fn add_quadratic(&mut self, env: &Environment, u: VarIndex, v: VarIndex, bias: Bias)
        requires
            old(self).belongs_to(env),
            (u as nat) < env.len(),
            (v as nat) < env.len(),
            old(self).abs_sum() + abs(bias as int) <= Bias::MAX,
        ensures
            final(self).belongs_to(env),
            final(self).active_set() == old(self).active_set().insert(u).insert(v),
            forall|k: Seq<u32>| #[trigger] final(self).coeff(k) == old(self).coeff(k) + (if k
                == reduced(seq![u, v], env.vtypes()) {
                bias as int
            } else {
                0
            }),
            forall|sample: Seq<int>| valid_sample(env.vtypes(), sample) ==> #[trigger] final(self).value(sample)
                == old(self).value(sample) + bias * sample[u as int] * sample[v as int],
            final(self).abs_sum() <= old(self).abs_sum() + abs(bias as int),
            final(self).env_id == old(self).env_id,
            is_reduction(seq![u, v], env.vtypes(), reduced(seq![u, v], env.vtypes())),
            forall|k: Seq<u32>| #[trigger] final(self).has_term(k) ==> old(self).has_term(k) || (k == reduced(
                seq![u, v],
                env.vtypes(),
            ) && bias != 0),
    {
        let mut vars: Vec<VarIndex> = Vec::new();
        vars.push(u);
        vars.push(v);
        let ghost old_self = *self;
        proof {
            assert(vars@ =~= seq![u, v]);
        }
        self.add_higher_order(env, &vars, bias);
        proof {
            assert forall|w: u32| #[trigger] self.is_active(w) == (old_self.is_active(w) || w == u || w == v) by {
                assert(vars@.contains(w) == (w == u || w == v)) by {
                    if w == v { assert(vars@[1] == w); }
                    if w == u { assert(vars@[0] == w); }
                }
            }
            assert(self.active_set() =~= old_self.active_set().insert(u).insert(v));
            assert forall|sample: Seq<int>| valid_sample(env.vtypes(), sample) implies #[trigger] self.value(sample)
                == old_self.value(sample) + bias * sample[u as int] * sample[v as int] by {
                assert(vars@.drop_first() =~= seq![v]);
                assert(vars@.drop_first().drop_first() =~= Seq::<u32>::empty());
                assert(monomial_value(vars@.drop_first().drop_first(), sample) == 1);
                assert(monomial_value(vars@.drop_first(), sample) == sample[v as int] * 1);
                assert(monomial_value(vars@, sample) == sample[u as int] * (sample[v as int] * 1));
                let a = sample[u as int];
                let b = sample[v as int];
                assert(bias * (a * (b * 1)) == bias * a * b) by (nonlinear_arith);
            }
        }
    }
}

} // verus!
