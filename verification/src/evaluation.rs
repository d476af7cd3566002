//! The value of an expression at a sample of integer values.
use vstd::prelude::*;

use crate::expression::{abs, terms_value, Bias, Expression, Term};
use crate::monomial::{lemma_value_concat, monomial_value};
use crate::multiplication::{lemma_abs_mul, lemma_mul_le, lemma_terms_take_step};

verus! {

/// The integers of a sample.
pub open spec fn sample_values(sample: Seq<i64>) -> Seq<int> {
    sample.map_values(|x: i64| x as int)
}

/// `|x|`, but at least one.
pub open spec fn at_least_one(x: int) -> int {
    if abs(x) > 1 {
        abs(x)
    } else {
        1
    }
}

/// The product of `max(1, |s[v]|)` over the variables of `key`; it bounds the
/// magnitude of the product of every part of `key`.
pub open spec fn magnitude(key: Seq<u32>, s: Seq<int>) -> int
    decreases key.len(),
{
    if key.len() == 0 {
        1
    } else {
        at_least_one(s[key[0] as int]) * magnitude(key.drop_first(), s)
    }
}

/// The sum over the terms of `|bias|` times the magnitude of the monomial.
pub open spec fn terms_bound(ts: Seq<Term>, s: Seq<int>) -> int
    decreases ts.len(),
{
    if ts.len() == 0 {
        0
    } else {
        terms_bound(ts.drop_last(), s) + abs(ts.last().bias as int) * magnitude(ts.last().vars@, s)
    }
}

pub proof fn lemma_magnitude(key: Seq<u32>, s: Seq<int>)
    ensures
        magnitude(key, s) >= 1,
        abs(monomial_value(key, s)) <= magnitude(key, s),
    decreases key.len(),
{
    if key.len() > 0 {
        lemma_magnitude(key.drop_first(), s);
        let x = s[key[0] as int];
        let m = monomial_value(key.drop_first(), s);
        let g = magnitude(key.drop_first(), s);
        lemma_abs_mul(x, m);
        lemma_mul_le(abs(x), at_least_one(x), abs(m), g);
        lemma_mul_le(1, at_least_one(x), 1, g);
    }
}

pub proof fn lemma_magnitude_concat(a: Seq<u32>, b: Seq<u32>, s: Seq<int>)
    ensures
        magnitude(a + b, s) == magnitude(a, s) * magnitude(b, s),
    decreases a.len(),
{
    if a.len() == 0 {
        assert(a + b =~= b);
    } else {
        assert((a + b).drop_first() =~= a.drop_first() + b);
        lemma_magnitude_concat(a.drop_first(), b, s);
        let h = at_least_one(s[a[0] as int]);
        let x = magnitude(a.drop_first(), s);
        let y = magnitude(b, s);
        assert(h * (x * y) == (h * x) * y) by (nonlinear_arith);
    }
}

/// The magnitude of a prefix is at most that of the whole monomial.
pub proof fn lemma_magnitude_prefix(key: Seq<u32>, k: int, s: Seq<int>)
    requires
        0 <= k <= key.len(),
    ensures
        1 <= magnitude(key.take(k), s) <= magnitude(key, s),
{
    assert(key =~= key.take(k) + key.skip(k));
    lemma_magnitude_concat(key.take(k), key.skip(k), s);
    lemma_magnitude(key.take(k), s);
    lemma_magnitude(key.skip(k), s);
    let p = magnitude(key.take(k), s);
    let q = magnitude(key.skip(k), s);
    assert(p <= p * q) by (nonlinear_arith)
        requires
            p >= 1,
            q >= 1,
    ;
}

pub proof fn lemma_terms_bound(ts: Seq<Term>, i: int, s: Seq<int>)
    requires
        0 <= i <= ts.len(),
    ensures
        0 <= terms_bound(ts.take(i), s) <= terms_bound(ts, s),
    decreases ts.len(),
{
    if ts.len() > 0 {
        let d = ts.drop_last();
        lemma_magnitude(ts.last().vars@, s);
        let a = abs(ts.last().bias as int);
        lemma_mul_le(0, a, 0, magnitude(ts.last().vars@, s));
        lemma_mul_le(a, a, 0, magnitude(ts.last().vars@, s));
        if i == ts.len() {
            assert(ts.take(i) =~= ts);
            lemma_terms_bound(d, d.len() as int, s);
            assert(d.take(d.len() as int) =~= d);
        } else {
            assert(ts.take(i) =~= d.take(i));
            lemma_terms_bound(d, i, s);
        }
    } else {
        assert(ts.take(i) =~= ts);
    }
}

impl Expression {
    /// A bound on the magnitude of every number that evaluating the expression at `s`
    /// goes through.
    pub open spec fn eval_bound(&self, s: Seq<int>) -> int {
        abs(self.offset as int) + terms_bound(self.terms@, s)
    }

    /// Every variable of a term is below `n`.
    pub open spec fn vars_below(&self, n: nat) -> bool {
        forall|i: int, k: int|
            0 <= i < self.terms@.len() && 0 <= k < self.terms@[i].vars@.len() ==> (
            #[trigger] self.terms@[i].vars@[k] as nat) < n
    }

    /// The value of the expression when each variable `v` takes the value `sample[v]`.
    pub fn evaluate_sample(&self, sample: &Vec<i64>) -> (r: i64)
        requires
            self.vars_below(sample@.len()),
            self.eval_bound(sample_values(sample@)) <= Bias::MAX,
        ensures
            r == self.value(sample_values(sample@)),
    {
        let ghost s = sample_values(sample@);
        let ghost ts = self.terms@;
        proof {
            lemma_terms_bound(ts, 0, s);
            assert(ts.take(0) =~= Seq::<Term>::empty());
        }
        let mut value: i64 = self.offset;
        let mut i: usize = 0;
        while i < self.terms.len()
            invariant
                0 <= i <= self.terms.len(),
                ts == self.terms@,
                s == sample_values(sample@),
                self.vars_below(sample@.len()),
                self.eval_bound(s) <= Bias::MAX,
                value == self.offset + terms_value(ts.take(i as int), s),
                abs(value as int) <= abs(self.offset as int) + terms_bound(ts.take(i as int), s),
            decreases self.terms.len() - i,
        {
            let ghost key = ts[i as int].vars@;
            let ghost b = ts[i as int].bias as int;
            proof {
                lemma_terms_bound(ts, i + 1, s);
                lemma_terms_bound(ts, i as int, s);
                assert(ts.take(i + 1).drop_last() =~= ts.take(i as int));
                lemma_magnitude(key, s);
            }
            let mut acc: i64 = self.terms[i].bias;
            let mut k: usize = 0;
            proof {
                assert(key.take(0) =~= Seq::<u32>::empty());
                lemma_abs_mul(b, 1);
            }
            while k < self.terms[i].vars.len()
                invariant
                    0 <= i < self.terms.len(),
                    0 <= k <= key.len(),
                    ts == self.terms@,
                    key == ts[i as int].vars@,
                    b == ts[i as int].bias,
                    s == sample_values(sample@),
                    self.vars_below(sample@.len()),
                    abs(b) * magnitude(key, s) <= Bias::MAX,
                    acc == b * monomial_value(key.take(k as int), s),
                decreases key.len() - k,
            {
                let v = self.terms[i].vars[k];
                proof {
                    assert(key.take(k + 1) =~= key.take(k as int) + seq![v]);
                    lemma_value_concat(key.take(k as int), seq![v], s);
                    assert(seq![v].drop_first() =~= Seq::<u32>::empty());
                    assert(monomial_value(seq![v].drop_first(), s) == 1);
                    assert(monomial_value(seq![v], s) == s[v as int] * 1);
                    lemma_magnitude(key.take(k + 1), s);
                    lemma_magnitude_prefix(key, k + 1, s);
                    let m = monomial_value(key.take(k + 1), s);
                    lemma_abs_mul(b, m);
                    lemma_mul_le(abs(b), abs(b), abs(m), magnitude(key, s));
                    assert(s[v as int] == sample@[v as int]);
                    assert(acc * sample@[v as int] == b * m) by (nonlinear_arith)
                        requires
                            acc == b * monomial_value(key.take(k as int), s),
                            m == monomial_value(key.take(k as int), s) * (s[v as int] * 1),
                            s[v as int] == sample@[v as int],
                    ;
                }
                acc = acc * sample[v as usize];
                k = k + 1;
            }
            proof {
                assert(key.take(key.len() as int) =~= key);
                lemma_terms_take_step(ts, i as int, s);
                let m = monomial_value(key, s);
                lemma_abs_mul(b, m);
                lemma_mul_le(abs(b), abs(b), abs(m), magnitude(key, s));
            }
            value = value + acc;
            i = i + 1;
        }
        proof {
            assert(ts.take(ts.len() as int) =~= ts);
        }
        value
    }
}

} // verus!
