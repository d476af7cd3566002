//! Adding the multiple of a term by a constant into a result term. Each product is
//! added to the bias of the entry of its key in the result, or appended where the key
//! is new; products that are zero are left out.
use vstd::prelude::*;

use crate::constant::{products_fit, scaled_entries, term_entries, term_entry, Constant};
use crate::environment::Environment;
use crate::expression::{abs, keys_equal, lemma_terms_abs_nonneg, Bias, Expression, Term};

verus! {

/// A key of a term's entries: it can be copied and told apart from another.
pub trait Key: Sized {
    fn same_key(&self, other: &Self) -> (r: bool)
        ensures
            r == (*self == *other),
    ;

    fn copy_key(&self) -> (r: Self)
        ensures
            r == *self,
    ;
}

impl Key for u32 {
    fn same_key(&self, other: &Self) -> (r: bool) {
        *self == *other
    }

    fn copy_key(&self) -> (r: Self) {
        *self
    }
}

impl Key for (u32, u32) {
    fn same_key(&self, other: &Self) -> (r: bool) {
        self.0 == other.0 && self.1 == other.1
    }

    fn copy_key(&self) -> (r: Self) {
        (self.0, self.1)
    }
}

/// The position of the first entry of `r` with key `k`, or -1 where there is none.
pub open spec fn key_position<K>(r: Seq<(K, Bias)>, k: K) -> int
    decreases r.len(),
{
    if r.len() == 0 {
        -1
    } else if key_position(r.drop_last(), k) >= 0 {
        key_position(r.drop_last(), k)
    } else if r.last().0 == k {
        r.len() - 1
    } else {
        -1
    }
}

/// `r` with the entry `e` added: its bias added to that of the first entry with its
/// key, or `e` appended where no entry has that key.
pub open spec fn add_entry<K>(r: Seq<(K, Bias)>, e: (K, Bias)) -> Seq<(K, Bias)> {
    let p = key_position(r, e.0);
    if p >= 0 {
        r.update(p, (e.0, (r[p].1 + e.1) as Bias))
    } else {
        r.push(e)
    }
}

/// Adding `e` to `r` gives a bias in range.
pub open spec fn entry_fits<K>(r: Seq<(K, Bias)>, e: (K, Bias)) -> bool {
    let p = key_position(r, e.0);
    p >= 0 ==> Bias::MIN <= r[p].1 + e.1 <= Bias::MAX
}

/// `r` with the entries of `es` added one after the other.
pub open spec fn add_entries<K>(r: Seq<(K, Bias)>, es: Seq<(K, Bias)>) -> Seq<(K, Bias)>
    decreases es.len(),
{
    if es.len() == 0 {
        r
    } else {
        add_entry(add_entries(r, es.drop_last()), es.last())
    }
}

/// Adding the entries of `es` to `r` one after the other gives biases in range.
pub open spec fn entries_fit<K>(r: Seq<(K, Bias)>, es: Seq<(K, Bias)>) -> bool
    decreases es.len(),
{
    es.len() == 0 || (entries_fit(r, es.drop_last()) && entry_fits(add_entries(r, es.drop_last()), es.last()))
}

/// The first position with key `k` is `i` where no earlier entry has it; it is -1
/// where no entry has it.
pub proof fn lemma_key_position<K>(r: Seq<(K, Bias)>, k: K, i: int)
    requires
        0 <= i <= r.len(),
        i < r.len() ==> r[i].0 == k,
        forall|j: int| 0 <= j < i ==> r[j].0 != k,
    ensures
        key_position(r, k) == if i < r.len() { i } else { -1 },
    decreases r.len(),
{
    if r.len() > 0 {
        if i < r.len() - 1 {
            lemma_key_position(r.drop_last(), k, i);
        } else {
            lemma_key_position(r.drop_last(), k, r.len() - 1);
        }
    }
}

/// Nothing comes of scaling by zero.
pub proof fn lemma_scaled_by_zero<K>(es: Seq<(K, Bias)>)
    ensures
        scaled_entries(es, 0) == Seq::<(K, Bias)>::empty(),
    decreases es.len(),
{
    if es.len() > 0 {
        lemma_scaled_by_zero(es.drop_last());
    }
}

/// Where all products of `es` can be added to `r`, so can those of a prefix of `es`.
pub proof fn lemma_fit_take<K>(r: Seq<(K, Bias)>, es: Seq<(K, Bias)>, c: int, j: int)
    requires
        0 <= j <= es.len(),
        entries_fit(r, scaled_entries(es, c)),
    ensures
        entries_fit(r, scaled_entries(es.take(j), c)),
    decreases es.len(),
{
    if j == es.len() {
        assert(es.take(j) =~= es);
    } else {
        let prev = scaled_entries(es.drop_last(), c);
        if es.last().1 * c != 0 {
            assert(prev.push((es.last().0, (es.last().1 * c) as Bias)).drop_last() =~= prev);
        }
        assert(es.drop_last().take(j) =~= es.take(j));
        lemma_fit_take(r, es.drop_last(), c, j);
    }
}

/// Adds the entry `e` to `result`.
fn add_into<K: Key>(result: &mut Vec<(K, Bias)>, e: (K, Bias))
    requires
        entry_fits(old(result)@, e),
    ensures
        final(result)@ == add_entry(old(result)@, e),
{
    let mut i: usize = 0;
    while i < result.len()
        invariant
            0 <= i <= result.len(),
            result@ == old(result)@,
            entry_fits(old(result)@, e),
            forall|j: int| 0 <= j < i ==> result@[j].0 != e.0,
        decreases result.len() - i,
    {
        if result[i].0.same_key(&e.0) {
            proof {
                lemma_key_position(result@, e.0, i as int);
                assert(key_position(old(result)@, e.0) == i);
                assert(Bias::MIN <= result@[i as int].1 + e.1 <= Bias::MAX);
            }
            let (k, b) = e;
            let nb = result[i].1 + b;
            result.set(i, (k, nb));
            return;
        }
        i = i + 1;
    }
    proof {
        lemma_key_position(result@, e.0, result@.len() as int);
    }
    result.push(e);
}

/// Adds the term `t` to `result`.
fn add_term_into(result: &mut Vec<Term>, t: Term)
    requires
        entry_fits(term_entries(old(result)@), term_entry(t)),
    ensures
        term_entries(final(result)@) == add_entry(term_entries(old(result)@), term_entry(t)),
{
    let ghost es = term_entries(result@);
    let mut i: usize = 0;
    while i < result.len()
        invariant
            0 <= i <= result.len(),
            result@ == old(result)@,
            entry_fits(term_entries(old(result)@), term_entry(t)),
            es == term_entries(result@),
            forall|j: int| 0 <= j < i ==> es[j].0 != t.vars@,
        decreases result.len() - i,
    {
        if keys_equal(&result[i].vars, &t.vars) {
            proof {
                lemma_key_position(es, t.vars@, i as int);
                assert(es[i as int] == term_entry(result@[i as int]));
                assert(key_position(term_entries(old(result)@), term_entry(t).0) == i);
                assert(Bias::MIN <= es[i as int].1 + t.bias <= Bias::MAX);
            }
            let nb = result[i].bias + t.bias;
            let nt = Term { vars: t.vars, bias: nb };
            let ghost ng = nt;
            result.set(i, nt);
            proof {
                assert(term_entries(result@) =~= es.update(i as int, term_entry(ng)));
            }
            return;
        }
        i = i + 1;
    }
    proof {
        lemma_key_position(es, t.vars@, es.len() as int);
    }
    let ghost tg = t;
    result.push(t);
    proof {
        assert(term_entries(result@) =~= es.push(term_entry(tg)));
    }
}

/// Adds each entry of `term` multiplied by the constant to `result`: nothing for a
/// zero or absent constant; otherwise each non-zero product is added to the bias of
/// the entry of its key, or appended where the key is new.
pub fn constant_times_term<K: Key>(constant: &Constant, term: &Vec<(K, Bias)>, result: &mut Vec<(K, Bias)>)
    requires
        products_fit(term@, constant.val()),
        entries_fit(old(result)@, scaled_entries(term@, constant.val())),
    ensures
        final(result)@ == add_entries(old(result)@, scaled_entries(term@, constant.val())),
{
    let value = match constant.value {
        None => {
            proof {
                lemma_scaled_by_zero(term@);
            }
            return;
        },
        Some(v) => v,
    };
    if term.len() == 0 || value == 0 {
        proof {
            lemma_scaled_by_zero(term@);
        }
        return;
    }
    let ghost start = result@;
    let ghost c = constant.val();
    proof {
        assert(term@.take(0) =~= Seq::<(K, Bias)>::empty());
    }
    let mut i: usize = 0;
    while i < term.len()
        invariant
            0 <= i <= term.len(),
            c == constant.val(),
            value == c,
            products_fit(term@, c),
            entries_fit(start, scaled_entries(term@, c)),
            result@ == add_entries(start, scaled_entries(term@.take(i as int), c)),
        decreases term.len() - i,
    {
        let k = term[i].0.copy_key();
        let b = term[i].1;
        proof {
            assert(term@.take(i + 1).drop_last() =~= term@.take(i as int));
            assert(term@.take(i + 1).last() == term@[i as int]);
            assert(Bias::MIN <= term@[i as int].1 * c <= Bias::MAX);
        }
        let nb = b * value;
        if nb != 0 {
            proof {
                let prev = scaled_entries(term@.take(i as int), c);
                assert(prev.push((k, nb)).drop_last() =~= prev);
                lemma_fit_take(start, term@, c, i + 1);
            }
            add_into(result, (k, nb));
        }
        i = i + 1;
    }
    proof {
        assert(term@.take(term.len() as int) =~= term@);
    }
}

/// Adds each term of higher order multiplied by the constant to `result`: nothing for
/// a zero or absent constant; otherwise each non-zero product is added to the bias of
/// the term of its monomial, or appended where the monomial is new.
pub fn constant_times_higher_order(constant: &Constant, higher_order: &Vec<Term>, result: &mut Vec<Term>)
    requires
        products_fit(term_entries(higher_order@), constant.val()),
        entries_fit(term_entries(old(result)@), scaled_entries(term_entries(higher_order@), constant.val())),
    ensures
        term_entries(final(result)@) == add_entries(
            term_entries(old(result)@),
            scaled_entries(term_entries(higher_order@), constant.val()),
        ),
{
    let ghost es = term_entries(higher_order@);
    let value = match constant.value {
        None => {
            proof {
                lemma_scaled_by_zero(es);
            }
            return;
        },
        Some(v) => v,
    };
    if higher_order.len() == 0 || value == 0 {
        proof {
            lemma_scaled_by_zero(es);
        }
        return;
    }
    let ghost start = term_entries(result@);
    let ghost c = constant.val();
    proof {
        assert(es.take(0) =~= Seq::<(Seq<u32>, Bias)>::empty());
    }
    let mut i: usize = 0;
    while i < higher_order.len()
        invariant
            0 <= i <= higher_order.len(),
            es == term_entries(higher_order@),
            c == constant.val(),
            value == c,
            products_fit(es, c),
            entries_fit(start, scaled_entries(es, c)),
            term_entries(result@) == add_entries(start, scaled_entries(es.take(i as int), c)),
        decreases higher_order.len() - i,
    {
        proof {
            assert(es.take(i + 1).drop_last() =~= es.take(i as int));
            assert(es.take(i + 1).last() == es[i as int]);
            assert(es[i as int] == term_entry(higher_order@[i as int]));
            assert(Bias::MIN <= es[i as int].1 * c <= Bias::MAX);
        }
        let nb = higher_order[i].bias * value;
        if nb != 0 {
            let t = Term { vars: higher_order[i].vars.clone(), bias: nb };
            proof {
                assert(t.vars@ =~= higher_order@[i as int].vars@);
                let prev = scaled_entries(es.take(i as int), c);
                assert(prev.push(term_entry(t)).drop_last() =~= prev);
                lemma_fit_take(start, es, c, i + 1);
            }
            add_term_into(result, t);
        }
        i = i + 1;
    }
    proof {
        assert(es.take(higher_order.len() as int) =~= es);
    }
}

/// Adds the expression `other` multiplied by the constant to `result`: nothing for a
/// zero or absent constant; otherwise the product of the constant and the offset goes
/// to the offset, each product of the constant and a term to the coefficient of its
/// monomial, and the variables of `other` become variables of `result`.
pub fn constant_times_expression(constant: &Constant, other: &Expression, env: &Environment, result: &mut Expression)
    requires
        old(result).belongs_to(env),
        other.belongs_to(env),
        old(result).abs_sum() + abs(constant.val()) * other.abs_sum() <= Bias::MAX,
    ensures
        final(result).belongs_to(env),
        forall|k: Seq<u32>| #[trigger] final(result).coeff(k) == old(result).coeff(k) + constant.val() * other.coeff(k),
        forall|s: Seq<int>| #[trigger] final(result).value(s) == old(result).value(s) + constant.val() * other.value(s),
        forall|u: u32| #[trigger] final(result).is_active(u) == (old(result).is_active(u) || (constant.val() != 0
            && other.is_active(u))),
{
    let ghost c = constant.val();
    if constant.value.is_none() || constant.value == Some(0i64) {
        proof {
            assert(c == 0);
            assert forall|k: Seq<u32>| #[trigger] result.coeff(k) == result.coeff(k) + c * other.coeff(k) by {
                assert(c * other.coeff(k) == 0) by (nonlinear_arith)
                    requires
                        c == 0,
                ;
            }
            assert forall|s: Seq<int>| #[trigger] result.value(s) == result.value(s) + c * other.value(s) by {
                assert(c * other.value(s) == 0) by (nonlinear_arith)
                    requires
                        c == 0,
                ;
            }
        }
        return;
    }
    proof {
        lemma_terms_abs_nonneg(other.terms@);
        lemma_terms_abs_nonneg(result.terms@);
        crate::multiplication::lemma_abs_mul(c, 1);
        crate::multiplication::lemma_mul_le(abs(c), abs(c), other.abs_sum(), other.abs_sum());
    }
    let p = crate::constant::constant_times_expression(constant, other);
    proof {
        assert(p.belongs_to(env));
    }
    match result.add(env, &p) {
        Ok(o) => {
            *result = o;
        },
        Err(_) => {
            assert(false);
        },
    }
}

} // verus!
