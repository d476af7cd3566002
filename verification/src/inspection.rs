//! Reading an expression: coefficients, variables and items.
use vstd::prelude::*;

use crate::constant::term_entry;
use crate::environment::VarIndex;
use crate::errors::VariableOutOfRangeErr;
use crate::expression::{
    lemma_terms_coeff_absent, lemma_terms_coeff_distinct, terms_coeff, Bias, Expression, Term,
};
use crate::monomial::{count, is_sorted, lemma_sorted_unique, sort_vars};
use crate::ordering::{key_before, key_lt, keys_sorted, lemma_key_order};

verus! {

/// The items as pairs of monomial and bias.
pub open spec fn item_view(r: Seq<(Vec<VarIndex>, Bias)>) -> Seq<(Seq<u32>, Bias)> {
    r.map_values(|e: (Vec<VarIndex>, Bias)| (e.0@, e.1))
}

/// The item of the offset: none where it is zero.
pub open spec fn offset_items(offset: Bias) -> Seq<(Seq<u32>, Bias)> {
    if offset != 0 {
        seq![(Seq::<u32>::empty(), offset)]
    } else {
        Seq::empty()
    }
}

/// `e` is the monomial and bias of one of the first `n` terms of `ts`, whose bias is not
/// zero.
pub open spec fn comes_from(e: (Seq<u32>, Bias), ts: Seq<Term>, n: int) -> bool {
    exists|j: int| 0 <= j < n && ts[j].bias != 0 && e == #[trigger] term_entry(ts[j])
}

/// `rest` lists the terms of `ts` with a nonzero bias, each as its monomial and bias,
/// in listing order (by degree, then lexicographically).
pub open spec fn lists_terms(rest: Seq<(Seq<u32>, Bias)>, ts: Seq<Term>) -> bool {
    &&& keys_sorted(rest)
    &&& forall|q: int| 0 <= q < rest.len() ==> #[trigger] comes_from(rest[q], ts, ts.len() as int)
    &&& forall|j: int| 0 <= j < ts.len() && ts[j].bias != 0 ==> rest.contains(#[trigger] term_entry(ts[j]))
}

/// The variables of `vars` in increasing order.
pub open spec fn sorted_key(vars: Seq<u32>) -> Seq<u32> {
    choose|k: Seq<u32>| is_sorted(k) && forall|v: u32| #[trigger] count(k, v) == count(vars, v)
}

/// A sorted sequence with the multiplicities of `vars` is its sorted key.
pub proof fn lemma_sorted_key(vars: Seq<u32>, k: Seq<u32>)
    requires
        is_sorted(k),
        forall|v: u32| #[trigger] count(k, v) == count(vars, v),
    ensures
        sorted_key(vars) == k,
{
    let c = sorted_key(vars);
    assert(is_sorted(c) && forall|v: u32| #[trigger] count(c, v) == count(vars, v));
    lemma_sorted_unique(c, k);
}

/// The number of `true` entries.
pub open spec fn count_true(a: Seq<bool>) -> nat
    decreases a.len(),
{
    if a.len() == 0 {
        0
    } else {
        count_true(a.drop_last()) + if a.last() {
            1nat
        } else {
            0nat
        }
    }
}

/// The indices below `n` whose entry is `true`.
pub open spec fn true_below(a: Seq<bool>, n: int) -> Set<u32> {
    Set::new(|v: u32| (v as int) < n && (v as int) < a.len() && a[v as int])
}

/// There are as many indices of `true` entries as `true` entries.
pub proof fn lemma_count_true(a: Seq<bool>, n: int)
    requires
        0 <= n <= a.len(),
        a.len() <= u32::MAX as int + 1,
    ensures
        true_below(a, n).finite(),
        true_below(a, n).len() == count_true(a.take(n)),
    decreases n,
{
    if n == 0 {
        assert(true_below(a, 0) =~= Set::<u32>::empty());
        assert(a.take(0) =~= Seq::<bool>::empty());
    } else {
        lemma_count_true(a, n - 1);
        let prev = true_below(a, n - 1);
        let x = (n - 1) as u32;
        assert(a.take(n).drop_last() =~= a.take(n - 1));
        if a[n - 1] {
            assert(true_below(a, n) =~= prev.insert(x));
            assert(!prev.contains(x));
        } else {
            assert(true_below(a, n) =~= prev);
        }
    }
}

/// The largest number of factors of a term with non-zero bias; zero where there is no
/// such term.
pub open spec fn terms_degree(ts: Seq<Term>) -> nat
    decreases ts.len(),
{
    if ts.len() == 0 {
        0
    } else {
        let p = terms_degree(ts.drop_last());
        if ts.last().bias != 0 && ts.last().vars@.len() > p {
            ts.last().vars@.len()
        } else {
            p
        }
    }
}

impl Expression {
    /// The degree: the largest number of factors of a term with non-zero bias, zero
    /// for a constant.
    pub fn degree(&self) -> (r: usize)
        ensures
            r == terms_degree(self.terms@),
    {
        let mut d: usize = 0;
        let mut i: usize = 0;
        while i < self.terms.len()
            invariant
                0 <= i <= self.terms.len(),
                d == terms_degree(self.terms@.take(i as int)),
            decreases self.terms.len() - i,
        {
            proof {
                assert(self.terms@.take(i + 1).drop_last() =~= self.terms@.take(i as int));
                assert(self.terms@.take(i + 1).last() == self.terms@[i as int]);
            }
            if self.terms[i].bias != 0 && self.terms[i].vars.len() > d {
                d = self.terms[i].vars.len();
            }
            i = i + 1;
        }
        proof {
            assert(self.terms@.take(self.terms@.len() as int) =~= self.terms@);
        }
        d
    }

    /// The two expressions have the same offset, hold the same number of variables and
    /// agree in every coefficient of a product of one or more variables, whatever their
    /// environments.
    pub open spec fn contents_equal(&self, other: &Expression) -> bool {
        &&& self.offset == other.offset
        &&& self.active_set().len() == other.active_set().len()
        &&& forall|k: Seq<u32>| k.len() > 0 ==> #[trigger] self.coeff(k) == other.coeff(k)
    }

    /// The two expressions belong to the same environment, have the same offset, hold
    /// the same number of variables and agree in every coefficient of a product of one
    /// or more variables.
    pub open spec fn equals(&self, other: &Expression) -> bool {
        &&& self.env_id == other.env_id
        &&& self.contents_equal(other)
    }

    /// The expression can be compared: no monomial has two terms, and its variables
    /// can be counted.
    pub open spec fn comparable(&self) -> bool {
        self.distinct_keys() && self.active@.len() <= u32::MAX
    }

    /// No monomial has two terms.
    pub open spec fn distinct_keys(&self) -> bool {
        forall|a: int, b: int|
            0 <= a < b < self.terms@.len() ==> self.terms@[a].vars@ != self.terms@[b].vars@
    }

    /// The bias of the term of monomial `key`, or zero.
    fn bias_of(&self, key: &Vec<VarIndex>) -> (r: Bias)
        requires
            self.distinct_keys(),
        ensures
            r == terms_coeff(self.terms@, key@),
    {
        match self.find_term(key) {
            Some(i) => {
                proof {
                    lemma_terms_coeff_distinct(self.terms@, i as int);
                }
                self.terms[i].bias
            },
            None => {
                proof {
                    lemma_terms_coeff_absent(self.terms@, key@);
                }
                0
            },
        }
    }

    /// The coefficient of variable `v`; an error when `v` lies beyond the variables
    /// that the expression knows of.
    pub fn linear(&self, v: VarIndex) -> (r: Result<Bias, VariableOutOfRangeErr>)
        requires
            self.distinct_keys(),
        ensures
            r is Err <==> v as int >= self.active@.len(),
            r matches Err(e) ==> e.0 == v,
            r matches Ok(b) ==> b == self.coeff(seq![v]),
    {
        if v as usize >= self.active.len() {
            return Err(VariableOutOfRangeErr(v as usize));
        }
        let mut key: Vec<VarIndex> = Vec::new();
        key.push(v);
        proof {
            assert(key@ =~= seq![v]);
        }
        Ok(self.bias_of(&key))
    }

    /// The coefficient of the product of `u` and `v`; an error, naming the first
    /// offending variable, when either lies beyond the variables that the expression
    /// knows of.
    pub fn quadratic(&self, u: VarIndex, v: VarIndex) -> (r: Result<Bias, VariableOutOfRangeErr>)
        requires
            self.distinct_keys(),
        ensures
            r is Err <==> (u as int >= self.active@.len() || v as int >= self.active@.len()),
            r matches Err(e) ==> e.0 == if u as int >= self.active@.len() {
                u
            } else {
                v
            },
            r matches Ok(b) ==> b == self.coeff(
                if u <= v {
                    seq![u, v]
                } else {
                    seq![v, u]
                },
            ),
    {
        if u as usize >= self.active.len() {
            return Err(VariableOutOfRangeErr(u as usize));
        }
        if v as usize >= self.active.len() {
            return Err(VariableOutOfRangeErr(v as usize));
        }
        let mut key: Vec<VarIndex> = Vec::new();
        if u <= v {
            key.push(u);
            key.push(v);
            proof {
                assert(key@ =~= seq![u, v]);
            }
        } else {
            key.push(v);
            key.push(u);
            proof {
                assert(key@ =~= seq![v, u]);
            }
        }
        Ok(self.bias_of(&key))
    }

    /// The coefficient of the product of the variables in `indices`, taken in
    /// increasing order; an error, naming the first offending variable, when one of
    /// them is not part of the expression.
    pub fn higher_order(&self, indices: &Vec<VarIndex>) -> (r: Result<Bias, VariableOutOfRangeErr>)
        requires
            self.distinct_keys(),
        ensures
            r is Err <==> exists|i: int| 0 <= i < indices@.len() && !self.is_active(#[trigger] indices@[i]),
            r matches Err(e) ==> exists|i: int|
                0 <= i < indices@.len() && !self.is_active(#[trigger] indices@[i]) && e.0 == indices@[i]
                    && forall|j: int| 0 <= j < i ==> self.is_active(#[trigger] indices@[j]),
            r matches Ok(b) ==> b == if indices@.len() == 0 {
                0
            } else {
                self.coeff(sorted_key(indices@))
            },
    {
        let mut i: usize = 0;
        while i < indices.len()
            invariant
                0 <= i <= indices.len(),
                forall|j: int| 0 <= j < i ==> self.is_active(#[trigger] indices@[j]),
            decreases indices.len() - i,
        {
            let x = indices[i];
            if x as usize >= self.active.len() || !self.active[x as usize] {
                return Err(VariableOutOfRangeErr(x as usize));
            }
            i = i + 1;
        }
        if indices.len() == 0 {
            return Ok(0);
        }
        let key = sort_vars(indices);
        proof {
            lemma_sorted_key(indices@, key@);
            assert(key@.len() > 0);
        }
        Ok(self.bias_of(&key))
    }

    /// Whether every coefficient of a product of two or more variables is zero.
    pub fn is_linear(&self) -> (r: bool)
        requires
            self.distinct_keys(),
        ensures
            r == forall|k: Seq<u32>| k.len() >= 2 ==> #[trigger] self.coeff(k) == 0,
    {
        let mut i: usize = 0;
        while i < self.terms.len()
            invariant
                0 <= i <= self.terms.len(),
                self.distinct_keys(),
                forall|j: int|
                    0 <= j < i ==> (#[trigger] self.terms@[j]).vars@.len() < 2 || self.terms@[j].bias
                        == 0,
            decreases self.terms.len() - i,
        {
            if self.terms[i].vars.len() >= 2 && self.terms[i].bias != 0 {
                proof {
                    lemma_terms_coeff_distinct(self.terms@, i as int);
                    assert(self.coeff(self.terms@[i as int].vars@) != 0);
                }
                return false;
            }
            i = i + 1;
        }
        proof {
            assert forall|k: Seq<u32>| k.len() >= 2 implies #[trigger] self.coeff(k) == 0 by {
                if exists|j: int| 0 <= j < self.terms@.len() && self.terms@[j].vars@ == k {
                    let j = choose|j: int| 0 <= j < self.terms@.len() && self.terms@[j].vars@ == k;
                    lemma_terms_coeff_distinct(self.terms@, j);
                } else {
                    lemma_terms_coeff_absent(self.terms@, k);
                }
            }
        }
        true
    }

    /// The variables of the expression, in increasing order.
    pub fn variables(&self) -> (r: Vec<VarIndex>)
        requires
            self.active@.len() <= u32::MAX,
        ensures
            forall|a: int, b: int| 0 <= a < b < r@.len() ==> r@[a] < r@[b],
            forall|u: u32| #[trigger] r@.contains(u) <==> self.is_active(u),
            r@.len() == count_true(self.active@),
    {
        let mut r: Vec<VarIndex> = Vec::new();
        let mut i: usize = 0;
        while i < self.active.len()
            invariant
                0 <= i <= self.active.len(),
                self.active@.len() <= u32::MAX,
                forall|a: int, b: int| 0 <= a < b < r@.len() ==> r@[a] < r@[b],
                forall|a: int| 0 <= a < r@.len() ==> (r@[a] as int) < i,
                forall|u: u32| #[trigger] r@.contains(u) <==> ((u as int) < i && self.is_active(u)),
                r@.len() == count_true(self.active@.take(i as int)),
            decreases self.active.len() - i,
        {
            let ghost before = r@;
            proof {
                assert(self.active@.take(i + 1).drop_last() =~= self.active@.take(i as int));
            }
            if self.active[i] {
                r.push(i as VarIndex);
                proof {
                    assert forall|u: u32| #[trigger] r@.contains(u) <==> ((u as int) < i + 1
                        && self.is_active(u)) by {
                        if u as int == i {
                            assert(r@[before.len() as int] == u);
                        }
                        if r@.contains(u) && u as int != i {
                            let k = choose|k: int| 0 <= k < r@.len() && r@[k] == u;
                            assert(k < before.len());
                            assert(before.contains(u));
                        }
                        if (u as int) < i && self.is_active(u) {
                            assert(before.contains(u));
                            let k = choose|k: int| 0 <= k < before.len() && before[k] == u;
                            assert(r@[k] == u);
                        }
                    }
                }
            } else {
                proof {
                    assert forall|u: u32| #[trigger] r@.contains(u) <==> ((u as int) < i + 1
                        && self.is_active(u)) by {
                        if u as int == i {
                            if r@.contains(u) {
                                let k = choose|k: int| 0 <= k < r@.len() && r@[k] == u;
                                assert((r@[k] as int) < i);
                            }
                        }
                    }
                }
            }
            i = i + 1;
        }
        proof {
            assert(self.active@.take(self.active@.len() as int) =~= self.active@);
        }
        r
    }

    /// The number of variables of the expression.
    pub fn num_variables(&self) -> (r: usize)
        requires
            self.active@.len() <= u32::MAX,
        ensures
            r == self.active_set().len(),
            self.active_set().finite(),
    {
        let v = self.variables();
        proof {
            lemma_count_true(self.active@, self.active@.len() as int);
            assert(self.active@.take(self.active@.len() as int) =~= self.active@);
            assert(self.active_set() =~= true_below(self.active@, self.active@.len() as int));
        }
        v.len()
    }

    /// The monomials with a non-zero coefficient and their coefficients: the offset
    /// first, as the empty monomial, where it is not zero, then the terms by degree, and
    /// terms of one degree lexicographically by their variables.
    pub fn items(&self) -> (r: Vec<(Vec<VarIndex>, Bias)>)
        requires
            self.distinct_keys(),
        ensures
            item_view(r@).take(offset_items(self.offset).len() as int) == offset_items(self.offset),
            lists_terms(item_view(r@).skip(offset_items(self.offset).len() as int), self.terms@),
    {
        let ghost ts = self.terms@;
        let mut out: Vec<(Vec<VarIndex>, Bias)> = Vec::new();
        let mut i: usize = 0;
        while i < self.terms.len()
            invariant
                0 <= i <= self.terms.len(),
                ts == self.terms@,
                self.distinct_keys(),
                keys_sorted(item_view(out@)),
                forall|q: int| 0 <= q < out@.len() ==> #[trigger] comes_from(item_view(out@)[q], ts, i as int),
                forall|j: int| 0 <= j < i && ts[j].bias != 0 ==> item_view(out@).contains(
                    #[trigger] term_entry(ts[j]),
                ),
            decreases self.terms.len() - i,
        {
            let b = self.terms[i].bias;
            if b != 0 {
                let ghost ov = item_view(out@);
                let ghost vi = ts[i as int].vars@;
                let mut p: usize = 0;
                while p < out.len() && key_before(&out[p].0, &self.terms[i].vars)
                    invariant
                        0 <= i < self.terms.len(),
                        0 <= p <= out.len(),
                        ov == item_view(out@),
                        vi == self.terms@[i as int].vars@,
                        forall|q: int| 0 <= q < p ==> key_lt(ov[q].0, vi),
                    decreases out.len() - p,
                {
                    p = p + 1;
                }
                let k = self.terms[i].vars.clone();
                proof {
                    assert(k@ =~= vi);
                    // The new monomial differs from every listed one.
                    assert forall|q: int| 0 <= q < ov.len() implies ov[q].0 != vi by {
                        assert(comes_from(ov[q], ts, i as int));
                        let j = choose|j: int|
                            0 <= j < i && ts[j].bias != 0 && ov[q] == #[trigger] term_entry(ts[j]);
                        assert(ts[j].vars@ != ts[i as int].vars@);
                    }
                    if p < ov.len() {
                        lemma_key_order(ov[p as int].0, vi, vi);
                        assert(key_lt(vi, ov[p as int].0));
                        assert forall|q: int| p <= q < ov.len() implies key_lt(vi, ov[q].0) by {
                            if q > p {
                                lemma_key_order(vi, ov[p as int].0, ov[q].0);
                            }
                        }
                    }
                }
                out.insert(p, (k, b));
                proof {
                    let x = (vi, b);
                    let nv = ov.insert(p as int, x);
                    assert(item_view(out@) =~= nv);
                    assert forall|a: int, c: int| 0 <= a < c < nv.len() implies key_lt(
                        #[trigger] nv[a].0,
                        #[trigger] nv[c].0,
                    ) by {
                        if c < p {
                            assert(nv[a] == ov[a] && nv[c] == ov[c]);
                        } else if c == p {
                            assert(nv[a] == ov[a]);
                        } else if a == p {
                            assert(nv[c] == ov[c - 1]);
                        } else if a < p {
                            assert(nv[a] == ov[a] && nv[c] == ov[c - 1]);
                            lemma_key_order(ov[a].0, vi, ov[c - 1].0);
                        } else {
                            assert(nv[a] == ov[a - 1] && nv[c] == ov[c - 1]);
                        }
                    }
                    assert forall|q: int| 0 <= q < nv.len() implies #[trigger] comes_from(nv[q], ts, i + 1) by {
                        if q == p {
                            assert(nv[q] == term_entry(ts[i as int]));
                        } else {
                            let q0 = if q < p { q } else { q - 1 };
                            assert(nv[q] == ov[q0]);
                            assert(comes_from(ov[q0], ts, i as int));
                            let j = choose|j: int|
                                0 <= j < i && ts[j].bias != 0 && ov[q0] == #[trigger] term_entry(ts[j]);
                        }
                    }
                    assert forall|j: int| 0 <= j < i + 1 && ts[j].bias != 0 implies nv.contains(
                        #[trigger] term_entry(ts[j]),
                    ) by {
                        if j == i {
                            assert(nv[p as int] == term_entry(ts[j]));
                        } else {
                            assert(ov.contains(term_entry(ts[j])));
                            let q0 = choose|q0: int| 0 <= q0 < ov.len() && ov[q0] == term_entry(ts[j]);
                            if q0 < p {
                                assert(nv[q0] == ov[q0]);
                            } else {
                                assert(nv[q0 + 1] == ov[q0]);
                            }
                        }
                    }
                }
            } else {
                proof {
                    assert forall|q: int| 0 <= q < out@.len() implies #[trigger] comes_from(
                        item_view(out@)[q],
                        ts,
                        i + 1,
                    ) by {
                        assert(comes_from(item_view(out@)[q], ts, i as int));
                        let j = choose|j: int|
                            0 <= j < i && ts[j].bias != 0 && item_view(out@)[q] == #[trigger] term_entry(ts[j]);
                    }
                }
            }
            i = i + 1;
        }
        let ghost ov = item_view(out@);
        proof {
            assert forall|q: int| 0 <= q < ov.len() implies #[trigger] comes_from(ov[q], ts, ts.len() as int) by {
                assert(comes_from(ov[q], ts, i as int));
            }
            assert(keys_sorted(ov));
            assert forall|j: int| 0 <= j < ts.len() && ts[j].bias != 0 implies ov.contains(
                #[trigger] term_entry(ts[j]),
            ) by {
                assert(j < i);
            }
            assert(lists_terms(ov, ts));
        }
        if self.offset != 0 {
            out.insert(0, (Vec::new(), self.offset));
            proof {
                let nv = item_view(out@);
                assert(nv =~= ov.insert(0, (Seq::<u32>::empty(), self.offset)));
                assert(nv.take(1) =~= offset_items(self.offset));
                assert(nv.skip(1) =~= ov);
            }
        } else {
            proof {
                assert(ov.take(0) =~= offset_items(self.offset));
                assert(ov.skip(0) =~= ov);
            }
        }
        out
    }

    /// Whether the two expressions belong to the same environment, have the same offset,
    /// hold the same number of variables and agree in every coefficient of a product of
    /// one or more variables.
    pub fn eq(&self, other: &Expression) -> (r: bool)
        requires
            self.distinct_keys(),
            other.distinct_keys(),
            self.active@.len() <= u32::MAX,
            other.active@.len() <= u32::MAX,
        ensures
            r == self.equals(other),
    {
        if self.env_id != other.env_id {
            return false;
        }
        self.is_equal_contents(other)
    }

    /// Whether the two expressions have the same offset, hold the same number of
    /// variables and agree in every coefficient of a product of one or more variables;
    /// the environments take no part in the comparison.
    pub fn is_equal_contents(&self, other: &Expression) -> (r: bool)
        requires
            self.distinct_keys(),
            other.distinct_keys(),
            self.active@.len() <= u32::MAX,
            other.active@.len() <= u32::MAX,
        ensures
            r == self.contents_equal(other),
    {
        if self.offset != other.offset {
            return false;
        }
        if self.num_variables() != other.num_variables() {
            return false;
        }
        let mut i: usize = 0;
        while i < self.terms.len()
            invariant
                0 <= i <= self.terms.len(),
                self.distinct_keys(),
                other.distinct_keys(),
                forall|a: int| 0 <= a < i && (#[trigger] self.terms@[a]).vars@.len() > 0 ==> terms_coeff(
                    other.terms@,
                    self.terms@[a].vars@,
                ) == self.terms@[a].bias,
            decreases self.terms.len() - i,
        {
            if self.terms[i].vars.len() > 0 && other.bias_of(&self.terms[i].vars) != self.terms[i].bias {
                proof {
                    lemma_terms_coeff_distinct(self.terms@, i as int);
                    let k = self.terms@[i as int].vars@;
                    assert(k.len() > 0 && self.coeff(k) != other.coeff(k));
                }
                return false;
            }
            i = i + 1;
        }
        let mut j: usize = 0;
        while j < other.terms.len()
            invariant
                0 <= j <= other.terms.len(),
                self.distinct_keys(),
                other.distinct_keys(),
                forall|a: int| 0 <= a < j && (#[trigger] other.terms@[a]).vars@.len() > 0 ==> terms_coeff(
                    self.terms@,
                    other.terms@[a].vars@,
                ) == other.terms@[a].bias,
            decreases other.terms.len() - j,
        {
            if other.terms[j].vars.len() > 0 && self.bias_of(&other.terms[j].vars) != other.terms[j].bias {
                proof {
                    lemma_terms_coeff_distinct(other.terms@, j as int);
                    let k = other.terms@[j as int].vars@;
                    assert(k.len() > 0 && self.coeff(k) != other.coeff(k));
                }
                return false;
            }
            j = j + 1;
        }
        proof {
            assert forall|k: Seq<u32>| k.len() > 0 implies #[trigger] self.coeff(k) == other.coeff(k) by {
                if exists|a: int| 0 <= a < self.terms@.len() && self.terms@[a].vars@ == k {
                    let a = choose|a: int| 0 <= a < self.terms@.len() && self.terms@[a].vars@ == k;
                    lemma_terms_coeff_distinct(self.terms@, a);
                    assert(self.terms@[a].vars@.len() > 0);
                } else if exists|a: int| 0 <= a < other.terms@.len() && other.terms@[a].vars@ == k {
                    let a = choose|a: int| 0 <= a < other.terms@.len() && other.terms@[a].vars@ == k;
                    lemma_terms_coeff_distinct(other.terms@, a);
                    assert(other.terms@[a].vars@.len() > 0);
                } else {
                    lemma_terms_coeff_absent(self.terms@, k);
                    lemma_terms_coeff_absent(other.terms@, k);
                }
            }
        }
        true
    }
}

} // verus!
