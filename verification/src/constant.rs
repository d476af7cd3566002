//! Constants, and the multiplication of terms and expressions by a constant.
use vstd::prelude::*;

use crate::expression::{
    abs, lemma_terms_abs_bound, lemma_terms_abs_nonneg, terms_abs, terms_coeff, terms_value, Bias,
    Expression, Term,
};
use crate::monomial::{is_canonical, monomial_value};
use crate::multiplication::lemma_abs_mul;

verus! {

/// A constant; an absent value counts as zero.
#[derive(Debug, Clone, Copy, PartialEq, Eq, Structural)]
pub struct Constant {
    pub value: Option<Bias>,
}

impl Constant {
    /// The number that the constant stands for.
    pub open spec fn val(&self) -> int {
        match self.value {
            Some(v) => v as int,
            None => 0,
        }
    }

    /// The constant `value`.
    pub fn new(value: Bias) -> (r: Self)
        ensures
            r.value == Some(value),
    {
        Constant { value: Some(value) }
    }

    /// The absent constant.
    pub fn empty() -> (r: Self)
        ensures
            r.value is None,
    {
        Constant { value: None }
    }
}

/// The entries of `es` with every bias multiplied by `c`, leaving out the entries whose
/// product is zero.
pub open spec fn scaled_entries<K>(es: Seq<(K, Bias)>, c: int) -> Seq<(K, Bias)>
    decreases es.len(),
{
    if es.len() == 0 {
        Seq::empty()
    } else {
        let prev = scaled_entries(es.drop_last(), c);
        if es.last().1 * c == 0 {
            prev
        } else {
            prev.push((es.last().0, (es.last().1 * c) as Bias))
        }
    }
}

/// Every product of a bias of `es` with `c` is again a bias.
pub open spec fn products_fit<K>(es: Seq<(K, Bias)>, c: int) -> bool {
    forall|i: int| 0 <= i < es.len() ==> Bias::MIN <= #[trigger] es[i].1 * c <= Bias::MAX
}

/// A term as the pair of its monomial and its bias.
pub open spec fn term_entry(t: Term) -> (Seq<u32>, Bias) {
    (t.vars@, t.bias)
}

/// The terms as pairs of monomial and bias.
pub open spec fn term_entries(ts: Seq<Term>) -> Seq<(Seq<u32>, Bias)> {
    ts.map_values(|t: Term| term_entry(t))
}

/// The value of monomial-bias pairs under `sample`.
pub open spec fn entries_value(es: Seq<(Seq<u32>, Bias)>, sample: Seq<int>) -> int
    decreases es.len(),
{
    if es.len() == 0 {
        0
    } else {
        entries_value(es.drop_last(), sample) + es.last().1 * monomial_value(es.last().0, sample)
    }
}

/// The sum of the biases of the pairs of monomial `k`.
pub open spec fn entries_coeff(es: Seq<(Seq<u32>, Bias)>, k: Seq<u32>) -> int
    decreases es.len(),
{
    if es.len() == 0 {
        0
    } else {
        entries_coeff(es.drop_last(), k) + (if es.last().0 == k {
            es.last().1 as int
        } else {
            0
        })
    }
}

/// The sum of the absolute values of the biases of the pairs.
pub open spec fn entries_abs(es: Seq<(Seq<u32>, Bias)>) -> int
    decreases es.len(),
{
    if es.len() == 0 {
        0
    } else {
        entries_abs(es.drop_last()) + abs(es.last().1 as int)
    }
}

/// The value, coefficients and absolute sum of terms depend only on their pairs.
pub proof fn lemma_term_entries(ts: Seq<Term>)
    ensures
        forall|s: Seq<int>| #[trigger] terms_value(ts, s) == entries_value(term_entries(ts), s),
        forall|k: Seq<u32>| #[trigger] terms_coeff(ts, k) == entries_coeff(term_entries(ts), k),
        terms_abs(ts) == entries_abs(term_entries(ts)),
    decreases ts.len(),
{
    if ts.len() > 0 {
        lemma_term_entries(ts.drop_last());
        assert(term_entries(ts.drop_last()) =~= term_entries(ts).drop_last());
        assert forall|s: Seq<int>| #[trigger] terms_value(ts, s) == entries_value(term_entries(ts), s) by {
            assert(terms_value(ts.drop_last(), s) == entries_value(term_entries(ts.drop_last()), s));
        }
        assert forall|k: Seq<u32>| #[trigger] terms_coeff(ts, k) == entries_coeff(term_entries(ts), k) by {
            assert(terms_coeff(ts.drop_last(), k) == entries_coeff(term_entries(ts.drop_last()), k));
        }
    }
}

/// Scaling by a non-zero `c` scales value and coefficients by `c` and the absolute sum
/// by `|c|`; the monomials of the result are monomials of `es`, and stay distinct.
pub proof fn lemma_scaled_entries(es: Seq<(Seq<u32>, Bias)>, c: int)
    requires
        c != 0,
        products_fit(es, c),
    ensures
        forall|s: Seq<int>| #[trigger] entries_value(scaled_entries(es, c), s) == c * entries_value(es, s),
        forall|k: Seq<u32>| #[trigger] entries_coeff(scaled_entries(es, c), k) == c * entries_coeff(es, k),
        entries_abs(scaled_entries(es, c)) == abs(c) * entries_abs(es),
        forall|i: int|
            0 <= i < scaled_entries(es, c).len() ==> exists|j: int|
                0 <= j < es.len() && #[trigger] scaled_entries(es, c)[i].0 == es[j].0,
        (forall|a: int, b: int| 0 <= a < b < es.len() ==> es[a].0 != es[b].0) ==> (forall|a: int, b: int|
            0 <= a < b < scaled_entries(es, c).len() ==> scaled_entries(es, c)[a].0 != scaled_entries(es, c)[b].0),
    decreases es.len(),
{
    if es.len() > 0 {
        let d = es.drop_last();
        let n = es.len() - 1;
        assert(products_fit(d, c)) by {
            assert forall|i: int| 0 <= i < d.len() implies Bias::MIN <= #[trigger] d[i].1 * c <= Bias::MAX by {
                assert(d[i] == es[i]);
            }
        }
        lemma_scaled_entries(d, c);
        let prev = scaled_entries(d, c);
        let x = es[n].1 as int;
        assert(Bias::MIN <= es[n].1 * c <= Bias::MAX);
        lemma_abs_mul(x, c);
        assert forall|s: Seq<int>| #[trigger] entries_value(scaled_entries(es, c), s) == c * entries_value(es, s) by {
            let m = monomial_value(es[n].0, s);
            let p = entries_value(d, s);
            assert(entries_value(prev, s) == c * p);
            if x * c == 0 {
                assert(x == 0) by (nonlinear_arith)
                    requires
                        x * c == 0,
                        c != 0,
                ;
                assert(c * (p + x * m) == c * p) by (nonlinear_arith)
                    requires
                        x == 0,
                ;
            } else {
                assert(prev.push((es[n].0, (x * c) as Bias)).drop_last() =~= prev);
                assert(c * p + (x * c) * m == c * (p + x * m)) by (nonlinear_arith);
            }
        }
        assert forall|k: Seq<u32>| #[trigger] entries_coeff(scaled_entries(es, c), k) == c * entries_coeff(es, k) by {
            let p = entries_coeff(d, k);
            assert(entries_coeff(prev, k) == c * p);
            if x * c == 0 {
                assert(x == 0) by (nonlinear_arith)
                    requires
                        x * c == 0,
                        c != 0,
                ;
                assert(c * (p + 0) == c * p);
            } else {
                assert(prev.push((es[n].0, (x * c) as Bias)).drop_last() =~= prev);
                let y: int = if es[n].0 == k { x } else { 0 };
                assert(c * p + y * c == c * (p + y)) by (nonlinear_arith);
            }
        }
        if x * c == 0 {
            assert(x == 0) by (nonlinear_arith)
                requires
                    x * c == 0,
                    c != 0,
            ;
            assert(abs(c) * (entries_abs(d) + 0) == abs(c) * entries_abs(d));
            assert forall|i: int| 0 <= i < scaled_entries(es, c).len() implies exists|j: int|
                0 <= j < es.len() && #[trigger] scaled_entries(es, c)[i].0 == es[j].0 by {
                let j = choose|j: int| 0 <= j < d.len() && #[trigger] prev[i].0 == d[j].0;
                assert(prev[i].0 == es[j].0);
            }
        } else {
            let sc = prev.push((es[n].0, (x * c) as Bias));
            assert(sc.drop_last() =~= prev);
            assert(abs(c) * entries_abs(d) + abs(x) * abs(c) == abs(c) * (entries_abs(d) + abs(x))) by (
            nonlinear_arith);
            assert forall|i: int| 0 <= i < sc.len() implies exists|j: int|
                0 <= j < es.len() && #[trigger] sc[i].0 == es[j].0 by {
                if i < prev.len() {
                    let j = choose|j: int| 0 <= j < d.len() && #[trigger] prev[i].0 == d[j].0;
                    assert(sc[i].0 == es[j].0);
                } else {
                    assert(sc[i].0 == es[n].0);
                }
            }
            if forall|a: int, b: int| 0 <= a < b < es.len() ==> es[a].0 != es[b].0 {
                assert forall|a: int, b: int| 0 <= a < b < d.len() implies d[a].0 != d[b].0 by {
                    assert(d[a] == es[a] && d[b] == es[b]);
                }
                assert forall|a: int, b: int| 0 <= a < b < sc.len() implies sc[a].0 != sc[b].0 by {
                    if b == sc.len() - 1 {
                        let j = choose|j: int| 0 <= j < d.len() && #[trigger] prev[a].0 == d[j].0;
                        assert(d[j] == es[j]);
                        assert(es[j].0 != es[n].0);
                    } else {
                        assert(sc[a] == prev[a] && sc[b] == prev[b]);
                    }
                }
            }
        }
    }
}

/// The product of two constants; absent when either is absent.
pub fn constant_times_constant(lhs: &Constant, rhs: &Constant) -> (r: Constant)
    requires
        lhs.value is Some && rhs.value is Some ==> Bias::MIN <= lhs.val() * rhs.val() <= Bias::MAX,
    ensures
        r.value is Some <==> (lhs.value is Some && rhs.value is Some),
        r.val() == lhs.val() * rhs.val(),
{
    match (lhs.value, rhs.value) {
        (Some(l), Some(r)) => Constant::new(l * r),
        (_, _) => Constant::empty(),
    }
}

/// The entries of a term with a copyable key, each bias multiplied by the constant:
/// nothing for a zero or absent constant, a copy for the constant one, and otherwise
/// the products, leaving out those that are zero.
pub fn constant_times_term<K: Copy>(lhs: &Constant, rhs: &Vec<(K, Bias)>) -> (r: Vec<(K, Bias)>)
    requires
        products_fit(rhs@, lhs.val()),
    ensures
        lhs.val() == 0 ==> r@.len() == 0,
        lhs.val() == 1 ==> r@ == rhs@,
        lhs.val() != 0 && lhs.val() != 1 ==> r@ == scaled_entries(rhs@, lhs.val()),
{
    let mut out: Vec<(K, Bias)> = Vec::new();
    let value = match lhs.value {
        None => {
            return out;
        },
        Some(v) => v,
    };
    if value == 0 {
        return out;
    }
    let mut i: usize = 0;
    while i < rhs.len()
        invariant
            0 <= i <= rhs.len(),
            value == lhs.val(),
            value != 0,
            products_fit(rhs@, lhs.val()),
            value == 1 ==> out@ == rhs@.take(i as int),
            value != 1 ==> out@ == scaled_entries(rhs@.take(i as int), value as int),
        decreases rhs.len() - i,
    {
        let (k, b) = rhs[i];
        proof {
            assert(rhs@.take(i + 1).drop_last() =~= rhs@.take(i as int));
            assert(rhs@.take(i + 1).last() == rhs@[i as int]);
            assert(Bias::MIN <= rhs@[i as int].1 * lhs.val() <= Bias::MAX);
        }
        if value == 1 {
            out.push((k, b));
            proof {
                assert(out@ =~= rhs@.take(i + 1));
            }
        } else {
            let nb = b * value;
            if nb != 0 {
                out.push((k, nb));
            }
        }
        i = i + 1;
    }
    proof {
        assert(rhs@.take(rhs.len() as int) =~= rhs@);
    }
    out
}

/// The terms of higher order, each bias multiplied by the constant: nothing for a zero
/// or absent constant, a copy for the constant one, and otherwise the products, leaving
/// out those that are zero.
pub fn constant_times_higher_order(lhs: &Constant, rhs: &Vec<Term>) -> (r: Vec<Term>)
    requires
        products_fit(term_entries(rhs@), lhs.val()),
    ensures
        lhs.val() == 0 ==> r@.len() == 0,
        lhs.val() == 1 ==> term_entries(r@) == term_entries(rhs@),
        lhs.val() != 0 && lhs.val() != 1 ==> term_entries(r@) == scaled_entries(
            term_entries(rhs@),
            lhs.val(),
        ),
{
    let mut out: Vec<Term> = Vec::new();
    let value = match lhs.value {
        None => {
            return out;
        },
        Some(v) => v,
    };
    if value == 0 {
        return out;
    }
    let ghost es = term_entries(rhs@);
    let mut i: usize = 0;
    while i < rhs.len()
        invariant
            0 <= i <= rhs.len(),
            es == term_entries(rhs@),
            value == lhs.val(),
            value != 0,
            products_fit(es, lhs.val()),
            value == 1 ==> term_entries(out@) == es.take(i as int),
            value != 1 ==> term_entries(out@) == scaled_entries(es.take(i as int), value as int),
        decreases rhs.len() - i,
    {
        let ghost before = out@;
        proof {
            assert(es.take(i + 1).drop_last() =~= es.take(i as int));
            assert(es.take(i + 1).last() == es[i as int]);
            assert(es[i as int] == term_entry(rhs@[i as int]));
            assert(Bias::MIN <= es[i as int].1 * lhs.val() <= Bias::MAX);
        }
        let t = rhs[i].copy();
        if value == 1 {
            out.push(t);
            proof {
                assert(term_entries(out@) =~= term_entries(before).push(term_entry(t)));
                assert(term_entries(out@) =~= es.take(i + 1));
            }
        } else {
            let nb = t.bias * value;
            if nb != 0 {
                let nt = Term { vars: t.vars, bias: nb };
                out.push(nt);
                proof {
                    assert(term_entries(out@) =~= term_entries(before).push(term_entry(nt)));
                }
            }
        }
        i = i + 1;
    }
    proof {
        assert(es.take(rhs.len() as int) =~= es);
    }
    out
}

/// The product of a constant and an expression: the constant times the offset, and the
/// constant times the terms, leaving out the terms that become zero.
pub fn constant_times_expression(constant: &Constant, other: &Expression) -> (r: Expression)
    requires
        abs(constant.val()) * other.abs_sum() <= Bias::MAX,
    ensures
        r.env_id == other.env_id,
        forall|vt| other.wf(vt) ==> r.wf(vt),
        forall|u: u32| #[trigger] r.is_active(u) == other.is_active(u),
        forall|k: Seq<u32>| #[trigger] r.coeff(k) == constant.val() * other.coeff(k),
        forall|s: Seq<int>| #[trigger] r.value(s) == constant.val() * other.value(s),
        r.abs_sum() == abs(constant.val()) * other.abs_sum(),
{
    let ghost c = constant.val();
    let ghost ts = other.terms@;
    let ghost es = term_entries(ts);
    proof {
        lemma_terms_abs_nonneg(ts);
        lemma_abs_mul(c, other.offset as int);
        lemma_abs_mul(c, 1);
        crate::multiplication::lemma_mul_le(abs(c), abs(c), abs(other.offset as int), other.abs_sum());
        assert(products_fit(es, c)) by {
            assert forall|i: int| 0 <= i < es.len() implies Bias::MIN <= #[trigger] es[i].1 * c
                <= Bias::MAX by {
                assert(es[i].1 == ts[i].bias);
                lemma_terms_abs_bound(ts, i);
                lemma_abs_mul(ts[i].bias as int, c);
                crate::multiplication::lemma_mul_le(abs(ts[i].bias as int), other.abs_sum(), abs(c), abs(c));
                assert(other.abs_sum() * abs(c) == abs(c) * other.abs_sum()) by (nonlinear_arith);
            }
        }
    }
    let off = constant_times_constant(constant, &Constant::new(other.offset));
    let offset = match off.value {
        Some(v) => v,
        None => 0,
    };
    let terms = constant_times_higher_order(constant, &other.terms);
    let active = other.active.clone();
    proof {
        assert(active@ =~= other.active@);
    }
    let r = Expression { env_id: other.env_id, offset, terms, active };
    proof {
        let rs = r.terms@;
        lemma_term_entries(ts);
        lemma_term_entries(rs);
        assert(r.offset == c * other.offset);
        assert forall|u: u32| #[trigger] r.is_active(u) == other.is_active(u) by {}
        if c == 0 {
            assert(rs.len() == 0);
            assert forall|k: Seq<u32>| #[trigger] r.coeff(k) == c * other.coeff(k) by {}
            assert forall|s: Seq<int>| #[trigger] r.value(s) == c * other.value(s) by {}
            assert(abs(c) == 0);
            assert(terms_abs(rs) == 0);
            assert(r.abs_sum() == abs(c) * other.abs_sum()) by (nonlinear_arith)
                requires
                    abs(c) == 0,
                    r.abs_sum() == 0,
            ;
        } else {
            // The monomials of the result are monomials of `other`, without repetition.
            let same_keys = forall|i: int| 0 <= i < rs.len() ==> exists|j: int|
                0 <= j < ts.len() && #[trigger] rs[i].vars@ == ts[j].vars@;
            if c == 1 {
                assert(term_entries(rs) == es);
                assert forall|i: int| 0 <= i < rs.len() implies exists|j: int|
                    0 <= j < ts.len() && #[trigger] rs[i].vars@ == ts[j].vars@ by {
                    assert(term_entries(rs)[i] == es[i]);
                }
                assert forall|vt| other.wf(vt) implies forall|a: int, b: int|
                    0 <= a < b < rs.len() ==> rs[a].vars@ != rs[b].vars@ by {
                    assert forall|a: int, b: int| 0 <= a < b < rs.len() implies rs[a].vars@
                        != rs[b].vars@ by {
                        assert(term_entries(rs)[a] == es[a] && term_entries(rs)[b] == es[b]);
                    }
                }
                assert forall|k: Seq<u32>| #[trigger] r.coeff(k) == c * other.coeff(k) by {
                    assert(terms_coeff(rs, k) == terms_coeff(ts, k));
                }
                assert forall|s: Seq<int>| #[trigger] r.value(s) == c * other.value(s) by {
                    assert(terms_value(rs, s) == terms_value(ts, s));
                }
            } else {
                lemma_scaled_entries(es, c);
                assert(term_entries(rs) == scaled_entries(es, c));
                assert forall|i: int| 0 <= i < rs.len() implies exists|j: int|
                    0 <= j < ts.len() && #[trigger] rs[i].vars@ == ts[j].vars@ by {
                    assert(term_entries(rs)[i] == scaled_entries(es, c)[i]);
                    let j = choose|j: int| 0 <= j < es.len() && #[trigger] scaled_entries(es, c)[i].0 == es[j].0;
                    assert(es[j].0 == ts[j].vars@);
                }
                assert forall|vt| other.wf(vt) implies forall|a: int, b: int|
                    0 <= a < b < rs.len() ==> rs[a].vars@ != rs[b].vars@ by {
                    assert forall|a: int, b: int| 0 <= a < b < es.len() implies es[a].0 != es[b].0 by {
                        assert(es[a].0 == ts[a].vars@ && es[b].0 == ts[b].vars@);
                    }
                    assert forall|a: int, b: int| 0 <= a < b < rs.len() implies rs[a].vars@
                        != rs[b].vars@ by {
                        assert(term_entries(rs)[a] == scaled_entries(es, c)[a]);
                        assert(term_entries(rs)[b] == scaled_entries(es, c)[b]);
                    }
                }
                assert forall|k: Seq<u32>| #[trigger] r.coeff(k) == c * other.coeff(k) by {
                    assert(terms_coeff(rs, k) == entries_coeff(scaled_entries(es, c), k));
                    assert(terms_coeff(ts, k) == entries_coeff(es, k));
                    let t = entries_coeff(es, k);
                    let o: int = if k.len() == 0 { other.offset as int } else { 0 };
                    assert(c * (o + t) == c * o + c * t) by (nonlinear_arith);
                }
                assert forall|s: Seq<int>| #[trigger] r.value(s) == c * other.value(s) by {
                    assert(terms_value(rs, s) == entries_value(scaled_entries(es, c), s));
                    assert(terms_value(ts, s) == entries_value(es, s));
                    let t = entries_value(es, s);
                    let o = other.offset as int;
                    assert(c * (o + t) == c * o + c * t) by (nonlinear_arith);
                }
            }
            assert(same_keys);
            assert(r.abs_sum() == abs(c) * other.abs_sum()) by {
                if c == 1 {
                    assert(terms_abs(rs) == terms_abs(ts));
                } else {
                    assert(terms_abs(rs) == entries_abs(scaled_entries(es, c)));
                }
                let t = terms_abs(ts);
                let o = abs(other.offset as int);
                assert(abs(c) * (o + t) == abs(c) * o + abs(c) * t) by (nonlinear_arith);
            }
            assert forall|vt| other.wf(vt) implies r.wf(vt) by {
                assert forall|i: int| 0 <= i < rs.len() implies is_canonical(#[trigger] rs[i].vars@, vt)
                    && rs[i].vars@.len() > 0 by {
                    let j = choose|j: int| 0 <= j < ts.len() && #[trigger] rs[i].vars@ == ts[j].vars@;
                    assert(is_canonical(ts[j].vars@, vt));
                }
                assert forall|i: int, k: int|
                    0 <= i < rs.len() && 0 <= k < rs[i].vars@.len() implies r.is_active(
                    #[trigger] rs[i].vars@[k],
                ) by {
                    let j = choose|j: int| 0 <= j < ts.len() && #[trigger] rs[i].vars@ == ts[j].vars@;
                    assert(other.is_active(ts[j].vars@[k]));
                }
            }
        }
    }
    r
}

} // verus!
