//! Products of term lists, added into a result expression.
//!
//! A linear term list holds monomials of one variable, a quadratic one monomials of
//! two variables and a higher-order one monomials of three or more, each monomial in
//! canonical form with its bias. Multiplying monomials of binary or spin variables can
//! lower the degree (`x * x == x` for a binary variable, `s * s == 1` for a spin
//! variable). The functions here go through the two lists pair by pair, decide which
//! monomial each product is, and add it with the product of the biases to the result;
//! a pair whose biases multiply to zero adds nothing.
use vstd::prelude::*;

use crate::addition::lemma_terms_abs_prefix;
use crate::environment::{Environment, VarIndex};
use crate::expression::{
    abs, lemma_terms_abs_bound, lemma_terms_abs_nonneg, terms_abs, terms_coeff, terms_value, Bias,
    Expression, Term,
};
use crate::monomial::{
    count, in_range, is_canonical, is_reduction, lemma_canonical_reduction, lemma_count_concat, lemma_count_in, lemma_count_positive,
    lemma_count_push, lemma_count_single, lemma_same_reduced_value, lemma_value_concat,
    lemma_empty_reduction, lemma_reduction_iff, lemma_single_reduction, monomial_value,
    reduced_count, valid_sample,
};
use crate::multiplication::{lemma_abs_mul, lemma_mul_le, lemma_terms_take_step};
use crate::types::{is_binary_or_spin, Vtype};

verus! {

/// One when `x` is `v`, zero otherwise.
pub open spec fn occ(x: u32, v: u32) -> nat {
    if x == v {
        1
    } else {
        0
    }
}

/// Every term of `ts` is a canonical monomial of at least one variable.
pub open spec fn canonical_terms(ts: Seq<Term>, vtypes: Seq<Vtype>) -> bool {
    forall|i: int|
        0 <= i < ts.len() ==> is_canonical(#[trigger] ts[i].vars@, vtypes) && ts[i].vars@.len() > 0
}

/// A linear term list: canonical monomials of one variable.
pub open spec fn linear_terms(ts: Seq<Term>, vtypes: Seq<Vtype>) -> bool {
    &&& canonical_terms(ts, vtypes)
    &&& forall|i: int| 0 <= i < ts.len() ==> #[trigger] ts[i].vars@.len() == 1
}

/// A quadratic term list: canonical monomials of two variables.
pub open spec fn quadratic_terms(ts: Seq<Term>, vtypes: Seq<Vtype>) -> bool {
    &&& canonical_terms(ts, vtypes)
    &&& forall|i: int| 0 <= i < ts.len() ==> #[trigger] ts[i].vars@.len() == 2
}

/// A higher-order term list: canonical monomials of three or more variables.
pub open spec fn higher_order_terms(ts: Seq<Term>, vtypes: Seq<Vtype>) -> bool {
    &&& canonical_terms(ts, vtypes)
    &&& forall|i: int| 0 <= i < ts.len() ==> #[trigger] ts[i].vars@.len() >= 3
}

/// Some monomial of `ts` has the variable `u`.
pub open spec fn mentions(ts: Seq<Term>, u: u32) -> bool {
    exists|i: int| 0 <= i < ts.len() && count(#[trigger] ts[i].vars@, u) > 0
}

/// `after` is `before` with `bias` times the monomial `key` added: in the coefficient
/// of the canonical form of `key`, in value wherever every variable takes a value of
/// its type, in the absolute sum at most `|bias|`, and in the active variables at most
/// those of `key`. A monomial gets a term of its own only where `bias` is not zero.
pub open spec fn adds_product(
    before: Expression,
    after: Expression,
    vtypes: Seq<Vtype>,
    key: Seq<u32>,
    bias: int,
) -> bool {
    &&& after.env_id == before.env_id
    &&& forall|k: Seq<u32>|
        #[trigger] after.coeff(k) == before.coeff(k) + (if is_reduction(key, vtypes, k) {
            bias
        } else {
            0
        })
    &&& forall|k: Seq<u32>|
        #[trigger] after.has_term(k) ==> before.has_term(k) || (bias != 0 && is_reduction(
            key,
            vtypes,
            k,
        ))
    &&& forall|s: Seq<int>|
        valid_sample(vtypes, s) ==> #[trigger] after.value(s) == before.value(s) + bias
            * monomial_value(key, s)
    &&& after.abs_sum() <= before.abs_sum() + abs(bias)
    &&& forall|u: u32| #[trigger] before.is_active(u) ==> after.is_active(u)
    &&& forall|u: u32| #[trigger] after.is_active(u) ==> before.is_active(u) || count(key, u) > 0
}

/// The coefficient that the product of the terms `a` and `b` gives the monomial `k`:
/// the product of their biases where `k` is the canonical form of their product.
pub open spec fn pair_coeff(a: Term, b: Term, vtypes: Seq<Vtype>, k: Seq<u32>) -> int {
    if is_reduction(a.vars@ + b.vars@, vtypes, k) {
        a.bias * b.bias
    } else {
        0
    }
}

/// The coefficient that the products of `a` with the terms of `ts` give `k`.
pub open spec fn row_coeff(a: Term, ts: Seq<Term>, vtypes: Seq<Vtype>, k: Seq<u32>) -> int
    decreases ts.len(),
{
    if ts.len() == 0 {
        0
    } else {
        row_coeff(a, ts.drop_last(), vtypes, k) + pair_coeff(a, ts.last(), vtypes, k)
    }
}

/// The coefficient that the products of the terms of `lhs` with those of `rhs` give
/// `k`.
pub open spec fn pairs_coeff(lhs: Seq<Term>, rhs: Seq<Term>, vtypes: Seq<Vtype>, k: Seq<u32>) -> int
    decreases lhs.len(),
{
    if lhs.len() == 0 {
        0
    } else {
        pairs_coeff(lhs.drop_last(), rhs, vtypes, k) + row_coeff(lhs.last(), rhs, vtypes, k)
    }
}

/// `a` times some term of `ts` has a non-zero product of biases and the canonical
/// form `k`.
pub open spec fn row_yields(a: Term, ts: Seq<Term>, vtypes: Seq<Vtype>, k: Seq<u32>) -> bool {
    exists|j: int|
        0 <= j < ts.len() && a.bias * ts[j].bias != 0 && is_reduction(a.vars@ + (#[trigger] ts[j]).vars@, vtypes, k)
}

/// Some term of `lhs` times some term of `rhs` has a non-zero product of biases and
/// the canonical form `k`.
pub open spec fn pairs_yield(lhs: Seq<Term>, rhs: Seq<Term>, vtypes: Seq<Vtype>, k: Seq<u32>) -> bool {
    exists|i: int| 0 <= i < lhs.len() && row_yields(#[trigger] lhs[i], rhs, vtypes, k)
}

/// `after` is `before` with the product of the term lists `lhs` and `rhs` added: in
/// the coefficient of each monomial, the sum of the products of the biases of the
/// pairs whose product has that canonical form; in value wherever every variable takes
/// a value of its type; in the absolute sum at most the product of their absolute
/// sums; and in the active variables at most those that the lists mention. A monomial
/// gets a term of its own only from a pair whose biases multiply to a non-zero value.
pub open spec fn products_added(
    before: Expression,
    after: Expression,
    vtypes: Seq<Vtype>,
    lhs: Seq<Term>,
    rhs: Seq<Term>,
) -> bool {
    &&& after.env_id == before.env_id
    &&& forall|k: Seq<u32>| #[trigger] after.coeff(k) == before.coeff(k) + pairs_coeff(lhs, rhs, vtypes, k)
    &&& forall|k: Seq<u32>|
        #[trigger] after.has_term(k) ==> before.has_term(k) || pairs_yield(lhs, rhs, vtypes, k)
    &&& forall|s: Seq<int>|
        valid_sample(vtypes, s) ==> #[trigger] after.value(s) == before.value(s) + terms_value(
            lhs,
            s,
        ) * terms_value(rhs, s)
    &&& after.abs_sum() <= before.abs_sum() + terms_abs(lhs) * terms_abs(rhs)
    &&& forall|u: u32| #[trigger] before.is_active(u) ==> after.is_active(u)
    &&& forall|u: u32|
        #[trigger] after.is_active(u) ==> before.is_active(u) || mentions(lhs, u) || mentions(
            rhs,
            u,
        )
}

/// The multiplicities in a product of two variables.
pub proof fn lemma_count2(a: u32, b: u32, v: u32)
    ensures
        count(seq![a, b], v) == occ(a, v) + occ(b, v),
{
    assert(seq![a].push(b) =~= seq![a, b]);
    lemma_count_single(a, v);
    lemma_count_push(seq![a], b, v);
}

/// The multiplicities in a product of three variables.
pub proof fn lemma_count3(a: u32, b: u32, c: u32, v: u32)
    ensures
        count(seq![a, b, c], v) == occ(a, v) + occ(b, v) + occ(c, v),
{
    assert(seq![a, b].push(c) =~= seq![a, b, c]);
    lemma_count2(a, b, v);
    lemma_count_push(seq![a, b], c, v);
}

/// The multiplicities in a product of four variables.
pub proof fn lemma_count4(a: u32, b: u32, c: u32, d: u32, v: u32)
    ensures
        count(seq![a, b, c, d], v) == occ(a, v) + occ(b, v) + occ(c, v) + occ(d, v),
{
    assert(seq![a, b, c].push(d) =~= seq![a, b, c, d]);
    lemma_count3(a, b, c, v);
    lemma_count_push(seq![a, b, c], d, v);
}

/// A product added as one monomial is added as any monomial whose multiplicities
/// reduce alike and that has every variable of the first.
pub proof fn lemma_adds_equiv(
    before: Expression,
    after: Expression,
    vtypes: Seq<Vtype>,
    sub: Seq<u32>,
    full: Seq<u32>,
    bias: int,
)
    requires
        adds_product(before, after, vtypes, sub, bias),
        in_range(sub, vtypes.len()),
        in_range(full, vtypes.len()),
        forall|v: u32|
            #[trigger] reduced_count(count(sub, v), vtypes[v as int]) == reduced_count(
                count(full, v),
                vtypes[v as int],
            ),
        forall|u: u32| #[trigger] count(sub, u) > 0 ==> count(full, u) > 0,
    ensures
        adds_product(before, after, vtypes, full, bias),
{
    assert forall|k: Seq<u32>| #[trigger] is_reduction(sub, vtypes, k) == is_reduction(full, vtypes, k) by {
        if is_reduction(sub, vtypes, k) {
            assert forall|v: u32| #[trigger] count(k, v) == reduced_count(count(full, v), vtypes[v as int]) by {
                assert(count(k, v) == reduced_count(count(sub, v), vtypes[v as int]));
            }
        }
        if is_reduction(full, vtypes, k) {
            assert forall|v: u32| #[trigger] count(k, v) == reduced_count(count(sub, v), vtypes[v as int]) by {
                assert(count(k, v) == reduced_count(count(full, v), vtypes[v as int]));
            }
        }
    }
    assert forall|s: Seq<int>| valid_sample(vtypes, s) implies #[trigger] after.value(s)
        == before.value(s) + bias * monomial_value(full, s) by {
        lemma_same_reduced_value(sub, full, vtypes, s);
    }
    assert forall|u: u32| #[trigger] after.is_active(u) implies before.is_active(u) || count(
        full,
        u,
    ) > 0 by {
        if !before.is_active(u) {
            assert(count(sub, u) > 0);
        }
    }
}

/// The order of the two factors of a product does not matter.
pub proof fn lemma_adds_swap(
    before: Expression,
    after: Expression,
    vtypes: Seq<Vtype>,
    p: Seq<u32>,
    q: Seq<u32>,
    bias: int,
)
    requires
        adds_product(before, after, vtypes, q + p, bias),
    ensures
        adds_product(before, after, vtypes, p + q, bias),
{
    lemma_reduction_swap(p, q, vtypes);
    assert forall|s: Seq<int>| valid_sample(vtypes, s) implies #[trigger] after.value(s)
        == before.value(s) + bias * monomial_value(p + q, s) by {
        lemma_value_concat(p, q, s);
        lemma_value_concat(q, p, s);
        let x = monomial_value(p, s);
        let y = monomial_value(q, s);
        assert(x * y == y * x) by (nonlinear_arith);
    }
    assert forall|u: u32| #[trigger] after.is_active(u) implies before.is_active(u) || count(
        p + q,
        u,
    ) > 0 by {
        lemma_count_concat(p, q, u);
        lemma_count_concat(q, p, u);
    }
}

/// The two orders of the factors of a product reduce alike.
pub proof fn lemma_reduction_swap(p: Seq<u32>, q: Seq<u32>, vtypes: Seq<Vtype>)
    ensures
        forall|k: Seq<u32>| #[trigger] is_reduction(p + q, vtypes, k) == is_reduction(q + p, vtypes, k),
{
    assert forall|v: u32| #[trigger] count(p + q, v) == count(q + p, v) by {
        lemma_count_concat(p, q, v);
        lemma_count_concat(q, p, v);
    }
    assert forall|k: Seq<u32>| #[trigger] is_reduction(p + q, vtypes, k) == is_reduction(q + p, vtypes, k) by {
        if is_reduction(p + q, vtypes, k) {
            assert forall|v: u32| #[trigger] count(k, v) == reduced_count(count(q + p, v), vtypes[v as int]) by {
                assert(count(k, v) == reduced_count(count(p + q, v), vtypes[v as int]));
            }
        }
        if is_reduction(q + p, vtypes, k) {
            assert forall|v: u32| #[trigger] count(k, v) == reduced_count(count(p + q, v), vtypes[v as int]) by {
                assert(count(k, v) == reduced_count(count(q + p, v), vtypes[v as int]));
            }
        }
    }
}

/// The monomial of the one variable `a`.
fn key1(a: VarIndex) -> (r: Vec<VarIndex>)
    ensures
        r@ == seq![a],
{
    let mut r: Vec<VarIndex> = Vec::new();
    r.push(a);
    r
}

/// The monomial of the variables `a` and `b`.
fn key2(a: VarIndex, b: VarIndex) -> (r: Vec<VarIndex>)
    ensures
        r@ == seq![a, b],
{
    let mut r: Vec<VarIndex> = Vec::new();
    r.push(a);
    r.push(b);
    r
}

/// The monomial of the variables `a`, `b` and `c`.
fn key3(a: VarIndex, b: VarIndex, c: VarIndex) -> (r: Vec<VarIndex>)
    ensures
        r@ == seq![a, b, c],
{
    let mut r: Vec<VarIndex> = Vec::new();
    r.push(a);
    r.push(b);
    r.push(c);
    r
}

/// The monomial of the variables `a`, `b`, `c` and `d`.
fn key4(a: VarIndex, b: VarIndex, c: VarIndex, d: VarIndex) -> (r: Vec<VarIndex>)
    ensures
        r@ == seq![a, b, c, d],
{
    let mut r: Vec<VarIndex> = Vec::new();
    r.push(a);
    r.push(b);
    r.push(c);
    r.push(d);
    r
}

/// Adds `value` times the product of the variables in `subset` to `result`, as the
/// offset, a linear, a quadratic or a higher-order term by the number of variables.
pub fn add_subset_helper(subset: Vec<VarIndex>, value: Bias, env: &Environment, result: &mut Expression)
    requires
        old(result).belongs_to(env),
        in_range(subset@, env.len()),
        old(result).abs_sum() + abs(value as int) <= Bias::MAX,
    ensures
        final(result).belongs_to(env),
        adds_product(*old(result), *final(result), env.vtypes(), subset@, value as int),
{
    let ghost before = *result;
    let ghost key = subset@;
    let n = subset.len();
    if n == 0 {
        result.add_offset(value);
        proof {
            assert forall|u: u32| #[trigger] result.is_active(u) == before.is_active(u) by {}
            assert(key =~= Seq::<u32>::empty());
            lemma_empty_reduction(env.vtypes());
            assert forall|k: Seq<u32>| #[trigger] result.has_term(k) implies before.has_term(k) by {}
        }
    } else if n == 1 {
        let v = subset[0];
        result.add_linear(env, v, value);
        proof {
            assert(key =~= seq![v]);
            lemma_single_reduction(v, env.vtypes());
            assert(key.drop_first().len() == 0);
            assert(monomial_value(key, Seq::<int>::empty()) == monomial_value(key, Seq::<int>::empty()));
            assert forall|s: Seq<int>| valid_sample(env.vtypes(), s) implies #[trigger] result.value(s)
                == before.value(s) + value * monomial_value(key, s) by {
                assert(monomial_value(key, s) == s[v as int] * monomial_value(key.drop_first(), s));
            }
            lemma_count_in(key, 0);
            assert forall|u: u32| #[trigger] result.is_active(u) implies before.is_active(u) || count(
                key,
                u,
            ) > 0 by {
                assert(result.active_set().contains(u));
            }
            assert forall|u: u32| #[trigger] before.is_active(u) implies result.is_active(u) by {
                assert(before.active_set().contains(u));
                assert(result.active_set().contains(u));
            }
        }
    } else if n == 2 {
        let a = subset[0];
        let b = subset[1];
        result.add_quadratic(env, a, b, value);
        proof {
            assert(key =~= seq![a, b]);
            lemma_reduction_iff(key, env.vtypes(), crate::monomial::reduced(key, env.vtypes()));
            assert(key.drop_first().drop_first().len() == 0);
            assert forall|s: Seq<int>| valid_sample(env.vtypes(), s) implies #[trigger] result.value(s)
                == before.value(s) + value * monomial_value(key, s) by {
                assert(key.drop_first()[0] == b);
                assert(monomial_value(key.drop_first(), s) == s[b as int] * monomial_value(
                    key.drop_first().drop_first(),
                    s,
                ));
                assert(monomial_value(key, s) == s[a as int] * monomial_value(key.drop_first(), s));
                let x = s[a as int];
                let y = s[b as int];
                assert(value * x * y == value * (x * (y * 1))) by (nonlinear_arith);
            }
            lemma_count_in(key, 0);
            lemma_count_in(key, 1);
            assert forall|u: u32| #[trigger] result.is_active(u) implies before.is_active(u) || count(
                key,
                u,
            ) > 0 by {
                assert(result.active_set().contains(u));
            }
            assert forall|u: u32| #[trigger] before.is_active(u) implies result.is_active(u) by {
                assert(before.active_set().contains(u));
                assert(result.active_set().contains(u));
            }
        }
    } else {
        result.add_higher_order(env, &subset, value);
        proof {
            lemma_reduction_iff(key, env.vtypes(), crate::monomial::reduced(key, env.vtypes()));
            assert forall|u: u32| #[trigger] result.is_active(u) implies before.is_active(u) || count(
                key,
                u,
            ) > 0 by {
                if !before.is_active(u) {
                    let k = choose|k: int| 0 <= k < key.len() && key[k] == u;
                    lemma_count_in(key, k);
                }
            }
        }
    }
}

/// `l` times `r`: a binary variable times itself is itself, a spin variable times
/// itself is one, any other product is quadratic.
fn linear_linear_pair(
    l: VarIndex,
    r: VarIndex,
    newvalue: Bias,
    env: &Environment,
    result: &mut Expression,
)
    requires
        old(result).belongs_to(env),
        (l as nat) < env.len(),
        (r as nat) < env.len(),
        old(result).abs_sum() + abs(newvalue as int) <= Bias::MAX,
    ensures
        final(result).belongs_to(env),
        adds_product(*old(result), *final(result), env.vtypes(), seq![l, r], newvalue as int),
{
    let ghost before = *result;
    let ghost vt = env.vtypes();
    let vtype = env.get_vtype(l);
    let sub = match (l == r, vtype) {
        // A binary variable times itself is itself.
        (true, Vtype::Binary) => key1(l),
        // A spin variable times itself is one.
        (true, Vtype::Spin) => Vec::new(),
        _ => key2(l, r),
    };
    let ghost sk = sub@;
    add_subset_helper(sub, newvalue, env, result);
    proof {
        assert forall|v: u32| #[trigger] reduced_count(count(sk, v), vt[v as int]) == reduced_count(
            count(seq![l, r], v),
            vt[v as int],
        ) by {
            lemma_count2(l, r, v);
            lemma_count_single(l, v);
            assert(count(Seq::<u32>::empty(), v) == 0);
        }
        assert forall|u: u32| #[trigger] count(sk, u) > 0 implies count(seq![l, r], u) > 0 by {
            lemma_count2(l, r, u);
            lemma_count_single(l, u);
            assert(count(Seq::<u32>::empty(), u) == 0);
        }
        lemma_adds_equiv(before, *result, vt, sk, seq![l, r], newvalue as int);
    }
}

/// `l` times the product of `a` and `b`: a binary `l` that is `a` or `b` leaves the
/// product as it is, a spin `l` that is one of them cancels it and leaves the other
/// variable, and otherwise the product has all three variables.
fn linear_quadratic_pair(
    l: VarIndex,
    a: VarIndex,
    b: VarIndex,
    newvalue: Bias,
    env: &Environment,
    result: &mut Expression,
)
    requires
        old(result).belongs_to(env),
        (l as nat) < env.len(),
        is_canonical(seq![a, b], env.vtypes()),
        old(result).abs_sum() + abs(newvalue as int) <= Bias::MAX,
    ensures
        final(result).belongs_to(env),
        adds_product(*old(result), *final(result), env.vtypes(), seq![l, a, b], newvalue as int),
{
    let ghost before = *result;
    let ghost vt = env.vtypes();
    let ghost full = seq![l, a, b];
    proof {
        lemma_count2(a, b, a);
        lemma_count2(a, b, b);
        assert(count(seq![a, b], a) == count(seq![a, b], a));
        assert(count(seq![a, b], b) == count(seq![a, b], b));
        assert(seq![a, b][0] == a && seq![a, b][1] == b);
    }
    let vtype = env.get_vtype(l);
    let contained = l == a || l == b;
    let sub = match (contained, vtype) {
        // The binary variable times itself is itself: the product stays quadratic.
        (true, Vtype::Binary) => key2(a, b),
        // The spin variable times itself is one; `a` and `b` differ, as a spin
        // variable occurs once in a monomial.
        (true, Vtype::Spin) => {
            if l == a {
                key1(b)
            } else {
                key1(a)
            }
        },
        _ => key3(l, a, b),
    };
    let ghost sk = sub@;
    add_subset_helper(sub, newvalue, env, result);
    proof {
        assert forall|v: u32| #[trigger] reduced_count(count(sk, v), vt[v as int]) == reduced_count(
            count(full, v),
            vt[v as int],
        ) by {
            lemma_count3(l, a, b, v);
            lemma_count2(a, b, v);
            lemma_count_single(a, v);
            lemma_count_single(b, v);
        }
        assert forall|u: u32| #[trigger] count(sk, u) > 0 implies count(full, u) > 0 by {
            lemma_count3(l, a, b, u);
            lemma_count2(a, b, u);
            lemma_count_single(a, u);
            lemma_count_single(b, u);
        }
        lemma_adds_equiv(before, *result, vt, sk, full, newvalue as int);
    }
}

/// Whether `x` occurs in `key`.
fn key_contains(key: &Vec<VarIndex>, x: VarIndex) -> (r: bool)
    ensures
        r == (count(key@, x) > 0),
{
    let mut i: usize = 0;
    while i < key.len()
        invariant
            0 <= i <= key.len(),
            forall|k: int| 0 <= k < i ==> key@[k] != x,
        decreases key.len() - i,
    {
        if key[i] == x {
            proof {
                lemma_count_in(key@, i as int);
            }
            return true;
        }
        i = i + 1;
    }
    proof {
        if count(key@, x) > 0 {
            let k = lemma_count_positive(key@, x);
        }
    }
    false
}

/// `key` without the variable `x`.
fn key_without(key: &Vec<VarIndex>, x: VarIndex) -> (r: Vec<VarIndex>)
    ensures
        forall|v: u32| #[trigger] count(r@, v) == if v == x { 0 } else { count(key@, v) },
        forall|n: nat| in_range(key@, n) ==> in_range(r@, n),
{
    let mut r: Vec<VarIndex> = Vec::new();
    let mut i: usize = 0;
    proof {
        assert(key@.take(0) =~= Seq::<u32>::empty());
    }
    while i < key.len()
        invariant
            0 <= i <= key.len(),
            forall|v: u32|
                #[trigger] count(r@, v) == if v == x {
                    0
                } else {
                    count(key@.take(i as int), v)
                },
            forall|k: int|
                #![trigger r@[k]]
                0 <= k < r.len() ==> exists|j: int| 0 <= j < key.len() && #[trigger] key@[j] == r@[k],
        decreases key.len() - i,
    {
        let y = key[i];
        let ghost old_r = r@;
        if y != x {
            r.push(y);
        }
        proof {
            assert(key@.take(i + 1) =~= key@.take(i as int).push(y));
            assert forall|v: u32| #[trigger] count(r@, v) == if v == x {
                0
            } else {
                count(key@.take(i + 1), v)
            } by {
                lemma_count_push(key@.take(i as int), y, v);
                if y != x {
                    lemma_count_push(old_r, y, v);
                }
            }
            assert forall|k: int| #![trigger r@[k]] 0 <= k < r.len() implies exists|j: int|
                0 <= j < key.len() && #[trigger] key@[j] == r@[k] by {
                if k == old_r.len() && y != x {
                    assert(key@[i as int] == r@[k]);
                } else {
                    assert(r@[k] == old_r[k]);
                }
            }
        }
        i = i + 1;
    }
    proof {
        assert(key@.take(key.len() as int) =~= key@);
        assert forall|n: nat| in_range(key@, n) implies in_range(r@, n) by {
            assert forall|k: int| 0 <= k < r@.len() implies (r@[k] as nat) < n by {
                let j = choose|j: int| 0 <= j < key.len() && #[trigger] key@[j] == r@[k];
            }
        }
    }
    r
}

/// `key` with the variable `x` added.
fn key_with(key: &Vec<VarIndex>, x: VarIndex) -> (r: Vec<VarIndex>)
    ensures
        r@ == key@.push(x),
        forall|v: u32| #[trigger] count(r@, v) == count(key@, v) + occ(x, v),
        forall|n: nat| in_range(key@, n) && (x as nat) < n ==> in_range(r@, n),
{
    let mut r = key.clone();
    proof {
        assert(r@ =~= key@);
    }
    r.push(x);
    proof {
        assert forall|v: u32| #[trigger] count(r@, v) == count(key@, v) + occ(x, v) by {
            lemma_count_push(key@, x, v);
        }
        assert forall|n: nat| in_range(key@, n) && (x as nat) < n implies in_range(r@, n) by {
            lemma_in_range_push(key@, x, n);
        }
    }
    r
}

/// A copy of `key`.
fn key_copy(key: &Vec<VarIndex>) -> (r: Vec<VarIndex>)
    ensures
        r@ == key@,
{
    let r = key.clone();
    proof {
        assert(r@ =~= key@);
    }
    r
}

/// `key` without the variable `x`, and with the variable `y` added.
fn key_without_with(key: &Vec<VarIndex>, x: VarIndex, y: VarIndex) -> (r: Vec<VarIndex>)
    ensures
        forall|v: u32|
            #[trigger] count(r@, v) == (if v == x {
                0
            } else {
                count(key@, v)
            }) + occ(y, v),
        forall|n: nat| in_range(key@, n) && (y as nat) < n ==> in_range(r@, n),
{
    let rest = key_without(key, x);
    key_with(&rest, y)
}

/// `key` without the variables `x` and `y`.
fn key_without2(key: &Vec<VarIndex>, x: VarIndex, y: VarIndex) -> (r: Vec<VarIndex>)
    ensures
        forall|v: u32|
            #[trigger] count(r@, v) == if v == x || v == y {
                0
            } else {
                count(key@, v)
            },
        forall|n: nat| in_range(key@, n) ==> in_range(r@, n),
{
    let rest = key_without(key, x);
    key_without(&rest, y)
}

/// The variables `a` and `b` followed by those of `key`.
fn key_after2(a: VarIndex, b: VarIndex, key: &Vec<VarIndex>) -> (r: Vec<VarIndex>)
    ensures
        r@ == seq![a, b] + key@,
        forall|v: u32| #[trigger] count(r@, v) == occ(a, v) + occ(b, v) + count(key@, v),
        forall|n: nat| in_range(key@, n) && (a as nat) < n && (b as nat) < n ==> in_range(r@, n),
{
    let mut r = key2(a, b);
    let mut j: usize = 0;
    while j < key.len()
        invariant
            0 <= j <= key.len(),
            r@ =~= seq![a, b] + key@.take(j as int),
        decreases key.len() - j,
    {
        r.push(key[j]);
        j = j + 1;
        proof {
            assert(key@.take(j as int) =~= key@.take(j - 1).push(key@[j - 1]));
        }
    }
    proof {
        assert(key@.take(key.len() as int) =~= key@);
        assert forall|v: u32| #[trigger] count(r@, v) == occ(a, v) + occ(b, v) + count(key@, v) by {
            lemma_count_concat(seq![a, b], key@, v);
            lemma_count2(a, b, v);
        }
        assert forall|n: nat| in_range(key@, n) && (a as nat) < n && (b as nat) < n implies in_range(
            r@,
            n,
        ) by {
            lemma_in_range_after2(a, b, key@, n);
        }
    }
    r
}

/// The variables of `key`, all below `n`, are below `n` after adding `x < n`.
proof fn lemma_in_range_push(key: Seq<u32>, x: u32, n: nat)
    requires
        in_range(key, n),
        (x as nat) < n,
    ensures
        in_range(key.push(x), n),
{
    assert forall|k: int| 0 <= k < key.push(x).len() implies (key.push(x)[k] as nat) < n by {
        if k < key.len() {
            assert(key.push(x)[k] == key[k]);
        }
    }
}

/// The variables of `key`, all below `n`, are below `n` after `a, b < n` in front.
proof fn lemma_in_range_after2(a: u32, b: u32, key: Seq<u32>, n: nat)
    requires
        in_range(key, n),
        (a as nat) < n,
        (b as nat) < n,
    ensures
        in_range(seq![a, b] + key, n),
{
    assert forall|k: int| 0 <= k < (seq![a, b] + key).len() implies ((seq![a, b] + key)[k] as nat)
        < n by {
        if k >= 2 {
            assert((seq![a, b] + key)[k] == key[k - 2]);
        }
    }
}

/// `l` times the product `ho` of three or more variables: a binary `l` in `ho` leaves
/// the product as it is, a spin `l` in `ho` cancels and leaves the other variables,
/// and otherwise `l` joins the product.
fn linear_ho_pair(
    l: VarIndex,
    ho: &Vec<VarIndex>,
    newvalue: Bias,
    env: &Environment,
    result: &mut Expression,
)
    requires
        old(result).belongs_to(env),
        (l as nat) < env.len(),
        is_canonical(ho@, env.vtypes()),
        old(result).abs_sum() + abs(newvalue as int) <= Bias::MAX,
    ensures
        final(result).belongs_to(env),
        adds_product(*old(result), *final(result), env.vtypes(), seq![l] + ho@, newvalue as int),
{
    let ghost before = *result;
    let ghost vt = env.vtypes();
    let ghost full = seq![l] + ho@;
    let vtype = env.get_vtype(l);
    let is_lin_contained = key_contains(ho, l);
    proof {
        assert(count(ho@, l) == count(ho@, l));
    }
    let sub = match (is_lin_contained, vtype) {
        // The binary variable times itself is itself.
        (true, Vtype::Binary) => key_with(ho, l),
        // The spin variable times itself is one: it leaves the product.
        (true, Vtype::Spin) => key_without(ho, l),
        _ => key_with(ho, l),
    };
    let ghost sk = sub@;
    proof {
        assert forall|k: int| 0 <= k < full.len() implies (full[k] as nat) < env.len() by {
            if k > 0 {
                assert(full[k] == ho@[k - 1]);
            }
        }
    }
    add_subset_helper(sub, newvalue, env, result);
    proof {
        assert forall|v: u32| #[trigger] reduced_count(count(sk, v), vt[v as int]) == reduced_count(
            count(full, v),
            vt[v as int],
        ) by {
            lemma_count_concat(seq![l], ho@, v);
            lemma_count_single(l, v);
            lemma_count_push(ho@, l, v);
        }
        assert forall|u: u32| #[trigger] count(sk, u) > 0 implies count(full, u) > 0 by {
            lemma_count_concat(seq![l], ho@, u);
            lemma_count_single(l, u);
            lemma_count_push(ho@, l, u);
        }
        lemma_adds_equiv(before, *result, vt, sk, full, newvalue as int);
    }
}

/// Adds `newvalue` times `binary * spin * c * d` to `result`, where `binary` is a binary
/// and `spin` a spin variable, and `binary_in_rhs` and `spin_in_rhs` tell whether each
/// is `c` or `d`: a binary variable times itself is itself, a spin variable times itself
/// is one.
pub fn binary_spin_helper_quadratic(
    binary_in_rhs: bool,
    spin_in_rhs: bool,
    binary: VarIndex,
    spin: VarIndex,
    c: VarIndex,
    d: VarIndex,
    newvalue: Bias,
    env: &Environment,
    result: &mut Expression,
)
    requires
        old(result).belongs_to(env),
        (binary as nat) < env.len(),
        (spin as nat) < env.len(),
        env.vtypes()[binary as int] == Vtype::Binary,
        env.vtypes()[spin as int] == Vtype::Spin,
        is_canonical(seq![c, d], env.vtypes()),
        binary_in_rhs == (binary == c || binary == d),
        spin_in_rhs == (spin == c || spin == d),
        old(result).abs_sum() + abs(newvalue as int) <= Bias::MAX,
    ensures
        final(result).belongs_to(env),
        adds_product(
            *old(result),
            *final(result),
            env.vtypes(),
            seq![binary, spin, c, d],
            newvalue as int,
        ),
{
    let ghost before = *result;
    let ghost vt = env.vtypes();
    let ghost full = seq![binary, spin, c, d];
    let a = binary;
    let b = spin;
    proof {
        lemma_count2(c, d, c);
        lemma_count2(c, d, d);
        assert(count(seq![c, d], c) == count(seq![c, d], c));
        assert(count(seq![c, d], d) == count(seq![c, d], d));
        assert(seq![c, d][0] == c && seq![c, d][1] == d);
    }
    let sub = if binary_in_rhs && spin_in_rhs {
        // {binary, spin} is {c, d}: binary * binary is binary, spin * spin is one.
        key1(a)
    } else if binary_in_rhs {
        // binary * binary is binary.
        if a == c {
            key3(a, b, d)
        } else {
            key3(a, b, c)
        }
    } else if spin_in_rhs {
        // spin * spin is one.
        if b == c {
            key2(a, d)
        } else {
            key2(a, c)
        }
    } else {
        key4(a, b, c, d)
    };
    let ghost sk = sub@;
    add_subset_helper(sub, newvalue, env, result);
    proof {
        assert forall|v: u32| #[trigger] reduced_count(count(sk, v), vt[v as int]) == reduced_count(
            count(full, v),
            vt[v as int],
        ) by {
            lemma_count4(a, b, c, d, v);
            lemma_count3(a, b, d, v);
            lemma_count3(a, b, c, v);
            lemma_count2(a, d, v);
            lemma_count2(a, c, v);
            lemma_count_single(a, v);
        }
        assert forall|u: u32| #[trigger] count(sk, u) > 0 implies count(full, u) > 0 by {
            lemma_count4(a, b, c, d, u);
            lemma_count3(a, b, d, u);
            lemma_count3(a, b, c, u);
            lemma_count2(a, d, u);
            lemma_count2(a, c, u);
            lemma_count_single(a, u);
        }
        lemma_adds_equiv(before, *result, vt, sk, full, newvalue as int);
    }
}

/// `a * b` times `c * d`, following the types of `a` and `b`: shared binary variables
/// count once, shared spin variables cancel, and the product keeps the rest.
fn quadratic_pair(
    a: VarIndex,
    b: VarIndex,
    c: VarIndex,
    d: VarIndex,
    newvalue: Bias,
    env: &Environment,
    result: &mut Expression,
)
    requires
        old(result).belongs_to(env),
        is_canonical(seq![a, b], env.vtypes()),
        is_canonical(seq![c, d], env.vtypes()),
        old(result).abs_sum() + abs(newvalue as int) <= Bias::MAX,
    ensures
        final(result).belongs_to(env),
        adds_product(*old(result), *final(result), env.vtypes(), seq![a, b, c, d], newvalue as int),
{
    let ghost before = *result;
    let ghost vt = env.vtypes();
    let ghost full = seq![a, b, c, d];
    proof {
        lemma_count2(a, b, a);
        lemma_count2(a, b, b);
        lemma_count2(c, d, c);
        lemma_count2(c, d, d);
        assert(count(seq![a, b], a) == count(seq![a, b], a));
        assert(count(seq![a, b], b) == count(seq![a, b], b));
        assert(count(seq![c, d], c) == count(seq![c, d], c));
        assert(count(seq![c, d], d) == count(seq![c, d], d));
        assert(seq![a, b][0] == a && seq![a, b][1] == b);
        assert(seq![c, d][0] == c && seq![c, d][1] == d);
    }
    // A monomial never holds a binary or spin variable twice, so `a` and `b` differ when
    // either is binary or spin, and so do `c` and `d`.
    let vtype_a = env.get_vtype(a);
    let vtype_b = env.get_vtype(b);
    let a_in_rhs = a == c || a == d;
    let b_in_rhs = b == c || b == d;
    match (vtype_a, vtype_b) {
        (Vtype::Binary, Vtype::Spin) => {
            binary_spin_helper_quadratic(a_in_rhs, b_in_rhs, a, b, c, d, newvalue, env, result);
        },
        (Vtype::Spin, Vtype::Binary) => {
            binary_spin_helper_quadratic(b_in_rhs, a_in_rhs, b, a, c, d, newvalue, env, result);
            proof {
                let swapped = seq![b, a, c, d];
                assert forall|v: u32| #[trigger] reduced_count(count(swapped, v), vt[v as int])
                    == reduced_count(count(full, v), vt[v as int]) by {
                    lemma_count4(a, b, c, d, v);
                    lemma_count4(b, a, c, d, v);
                }
                assert forall|u: u32| #[trigger] count(swapped, u) > 0 implies count(full, u) > 0 by {
                    lemma_count4(a, b, c, d, u);
                    lemma_count4(b, a, c, d, u);
                }
                lemma_adds_equiv(before, *result, vt, swapped, full, newvalue as int);
            }
        },
        _ => {
            let sub = match (vtype_a, vtype_b) {
                (Vtype::Binary, Vtype::Binary) => {
                    if a_in_rhs && b_in_rhs {
                        // {a, b} is {c, d}: the product is a * b.
                        key2(a, b)
                    } else if a_in_rhs {
                        key3(b, c, d)
                    } else if b_in_rhs {
                        key3(a, c, d)
                    } else {
                        key4(a, b, c, d)
                    }
                },
                (Vtype::Spin, Vtype::Spin) => {
                    if a_in_rhs && b_in_rhs {
                        // {a, b} is {c, d}: the product is one.
                        Vec::new()
                    } else if a_in_rhs {
                        if a == c {
                            key2(b, d)
                        } else {
                            key2(b, c)
                        }
                    } else if b_in_rhs {
                        if b == c {
                            key2(a, d)
                        } else {
                            key2(a, c)
                        }
                    } else {
                        key4(a, b, c, d)
                    }
                },
                _ => key4(a, b, c, d),
            };
            let ghost sk = sub@;
            add_subset_helper(sub, newvalue, env, result);
            proof {
                assert forall|v: u32| #[trigger] reduced_count(count(sk, v), vt[v as int])
                    == reduced_count(count(full, v), vt[v as int]) by {
                    lemma_count4(a, b, c, d, v);
                    lemma_count3(b, c, d, v);
                    lemma_count3(a, c, d, v);
                    lemma_count2(a, b, v);
                    lemma_count2(b, d, v);
                    lemma_count2(b, c, v);
                    lemma_count2(a, d, v);
                    lemma_count2(a, c, v);
                    assert(count(Seq::<u32>::empty(), v) == 0);
                }
                assert forall|u: u32| #[trigger] count(sk, u) > 0 implies count(full, u) > 0 by {
                    lemma_count4(a, b, c, d, u);
                    lemma_count3(b, c, d, u);
                    lemma_count3(a, c, d, u);
                    lemma_count2(a, b, u);
                    lemma_count2(b, d, u);
                    lemma_count2(b, c, u);
                    lemma_count2(a, d, u);
                    lemma_count2(a, c, u);
                    assert(count(Seq::<u32>::empty(), u) == 0);
                }
                lemma_adds_equiv(before, *result, vt, sk, full, newvalue as int);
            }
        },
    }
}

/// Adds `newvalue` times `binary * spin * ho` to `result`, where `binary` is a binary
/// and `spin` a spin variable, `ho` a product of three or more variables, and
/// `binary_in_ho` and `spin_in_ho` tell whether each occurs in `ho`: a binary variable
/// times itself is itself, a spin variable times itself is one.
pub fn binary_spin_helper_higher_order(
    binary_in_ho: bool,
    spin_in_ho: bool,
    binary: VarIndex,
    spin: VarIndex,
    ho: &Vec<VarIndex>,
    newvalue: Bias,
    env: &Environment,
    result: &mut Expression,
)
    requires
        old(result).belongs_to(env),
        (binary as nat) < env.len(),
        (spin as nat) < env.len(),
        env.vtypes()[binary as int] == Vtype::Binary,
        env.vtypes()[spin as int] == Vtype::Spin,
        is_canonical(ho@, env.vtypes()),
        binary_in_ho == (count(ho@, binary) > 0),
        spin_in_ho == (count(ho@, spin) > 0),
        old(result).abs_sum() + abs(newvalue as int) <= Bias::MAX,
    ensures
        final(result).belongs_to(env),
        adds_product(
            *old(result),
            *final(result),
            env.vtypes(),
            seq![binary, spin] + ho@,
            newvalue as int,
        ),
{
    let ghost before = *result;
    let ghost vt = env.vtypes();
    let ghost full = seq![binary, spin] + ho@;
    let ghost n = env.len();
    proof {
        assert(count(ho@, binary) == count(ho@, binary));
        assert(count(ho@, spin) == count(ho@, spin));
        lemma_in_range_after2(binary, spin, ho@, n);
    }
    let sub = if binary_in_ho && spin_in_ho {
        // binary * binary is binary, spin * spin is one.
        key_without(ho, spin)
    } else if binary_in_ho {
        // binary * binary is binary; the spin variable joins.
        key_with(ho, spin)
    } else if spin_in_ho {
        // spin * spin is one; the binary variable joins.
        key_without_with(ho, spin, binary)
    } else {
        key_after2(binary, spin, ho)
    };
    let ghost sk = sub@;
    add_subset_helper(sub, newvalue, env, result);
    proof {
        assert forall|v: u32| #[trigger] reduced_count(count(sk, v), vt[v as int]) == reduced_count(
            count(full, v),
            vt[v as int],
        ) by {
            lemma_count_concat(seq![binary, spin], ho@, v);
            lemma_count2(binary, spin, v);
        }
        assert forall|u: u32| #[trigger] count(sk, u) > 0 implies count(full, u) > 0 by {
            lemma_count_concat(seq![binary, spin], ho@, u);
            lemma_count2(binary, spin, u);
        }
        lemma_adds_equiv(before, *result, vt, sk, full, newvalue as int);
    }
}

/// `a * b` times `ho`, a product of three or more variables, following the types of
/// `a` and `b`: a binary variable in `ho` counts once, a spin variable in `ho` cancels,
/// and any other variable joins the product.
fn quadratic_ho_pair(
    a: VarIndex,
    b: VarIndex,
    ho: &Vec<VarIndex>,
    newvalue: Bias,
    env: &Environment,
    result: &mut Expression,
)
    requires
        old(result).belongs_to(env),
        is_canonical(seq![a, b], env.vtypes()),
        is_canonical(ho@, env.vtypes()),
        old(result).abs_sum() + abs(newvalue as int) <= Bias::MAX,
    ensures
        final(result).belongs_to(env),
        adds_product(*old(result), *final(result), env.vtypes(), seq![a, b] + ho@, newvalue as int),
{
    let ghost before = *result;
    let ghost vt = env.vtypes();
    let ghost full = seq![a, b] + ho@;
    let ghost n = env.len();
    proof {
        lemma_count2(a, b, a);
        lemma_count2(a, b, b);
        assert(count(seq![a, b], a) == count(seq![a, b], a));
        assert(count(seq![a, b], b) == count(seq![a, b], b));
        assert(seq![a, b][0] == a && seq![a, b][1] == b);
        assert(count(ho@, a) == count(ho@, a));
        assert(count(ho@, b) == count(ho@, b));
        lemma_in_range_after2(a, b, ho@, n);
    }
    let vtype_a = env.get_vtype(a);
    let vtype_b = env.get_vtype(b);
    let a_in_ho = key_contains(ho, a);
    let b_in_ho = key_contains(ho, b);
    match (vtype_a, vtype_b) {
        (Vtype::Binary, Vtype::Spin) => {
            binary_spin_helper_higher_order(a_in_ho, b_in_ho, a, b, ho, newvalue, env, result);
        },
        (Vtype::Spin, Vtype::Binary) => {
            binary_spin_helper_higher_order(b_in_ho, a_in_ho, b, a, ho, newvalue, env, result);
            proof {
                let swapped = seq![b, a] + ho@;
                lemma_in_range_after2(b, a, ho@, n);
                assert forall|v: u32| #[trigger] reduced_count(count(swapped, v), vt[v as int])
                    == reduced_count(count(full, v), vt[v as int]) by {
                    lemma_count_concat(seq![a, b], ho@, v);
                    lemma_count_concat(seq![b, a], ho@, v);
                    lemma_count2(a, b, v);
                    lemma_count2(b, a, v);
                }
                assert forall|u: u32| #[trigger] count(swapped, u) > 0 implies count(full, u) > 0 by {
                    lemma_count_concat(seq![a, b], ho@, u);
                    lemma_count_concat(seq![b, a], ho@, u);
                    lemma_count2(a, b, u);
                    lemma_count2(b, a, u);
                }
                lemma_adds_equiv(before, *result, vt, swapped, full, newvalue as int);
            }
        },
        _ => {
            let sub = match (vtype_a, vtype_b) {
                (Vtype::Binary, Vtype::Binary) => {
                    if a_in_ho && b_in_ho {
                        // Both binary variables are in `ho`: the product is `ho`.
                        key_copy(ho)
                    } else if a_in_ho {
                        key_with(ho, b)
                    } else if b_in_ho {
                        key_with(ho, a)
                    } else {
                        key_after2(a, b, ho)
                    }
                },
                (Vtype::Spin, Vtype::Spin) => {
                    if a_in_ho && b_in_ho {
                        // Both spin variables cancel.
                        key_without2(ho, a, b)
                    } else if a_in_ho {
                        key_without_with(ho, a, b)
                    } else if b_in_ho {
                        key_without_with(ho, b, a)
                    } else {
                        key_after2(a, b, ho)
                    }
                },
                _ => key_after2(a, b, ho),
            };
            let ghost sk = sub@;
            add_subset_helper(sub, newvalue, env, result);
            proof {
                assert forall|v: u32| #[trigger] reduced_count(count(sk, v), vt[v as int])
                    == reduced_count(count(full, v), vt[v as int]) by {
                    lemma_count_concat(seq![a, b], ho@, v);
                    lemma_count2(a, b, v);
                }
                assert forall|u: u32| #[trigger] count(sk, u) > 0 implies count(full, u) > 0 by {
                    lemma_count_concat(seq![a, b], ho@, u);
                    lemma_count2(a, b, u);
                }
                lemma_adds_equiv(before, *result, vt, sk, full, newvalue as int);
            }
        },
    }
}

/// The product of `lk` and `rk`, two products of three or more variables. A variable
/// in both counts once if binary and cancels if spin; every other variable keeps all
/// its occurrences from both sides.
fn ho_ho_pair(
    lk: &Vec<VarIndex>,
    rk: &Vec<VarIndex>,
    newvalue: Bias,
    env: &Environment,
    result: &mut Expression,
)
    requires
        old(result).belongs_to(env),
        is_canonical(lk@, env.vtypes()),
        is_canonical(rk@, env.vtypes()),
        old(result).abs_sum() + abs(newvalue as int) <= Bias::MAX,
    ensures
        final(result).belongs_to(env),
        adds_product(*old(result), *final(result), env.vtypes(), lk@ + rk@, newvalue as int),
{
    let ghost before = *result;
    let ghost vt = env.vtypes();
    let ghost full = lk@ + rk@;
    let ghost n = env.len();
    // The variables in both products, and those that are in the product for sure.
    let mut shared_vars: Vec<VarIndex> = Vec::new();
    let mut contributing_vars: Vec<VarIndex> = Vec::new();
    let mut i: usize = 0;
    proof {
        assert(lk@.take(0) =~= Seq::<u32>::empty());
    }
    while i < lk.len()
        invariant
            0 <= i <= lk.len(),
            n == env.len(),
            in_range(lk@, n),
            in_range(shared_vars@, n),
            in_range(contributing_vars@, n),
            forall|v: u32|
                #[trigger] count(shared_vars@, v) == if count(rk@, v) > 0 {
                    count(lk@.take(i as int), v)
                } else {
                    0
                },
            forall|v: u32|
                #[trigger] count(contributing_vars@, v) == if count(rk@, v) > 0 {
                    0
                } else {
                    count(lk@.take(i as int), v)
                },
        decreases lk.len() - i,
    {
        let var = lk[i];
        let ghost old_s = shared_vars@;
        let ghost old_c = contributing_vars@;
        if key_contains(rk, var) {
            shared_vars.push(var);
        } else {
            contributing_vars.push(var);
        }
        proof {
            assert(lk@.take(i + 1) =~= lk@.take(i as int).push(var));
            lemma_in_range_push(old_s, var, n);
            lemma_in_range_push(old_c, var, n);
            assert forall|v: u32| #[trigger] count(shared_vars@, v) == if count(rk@, v) > 0 {
                count(lk@.take(i + 1), v)
            } else {
                0
            } by {
                lemma_count_push(lk@.take(i as int), var, v);
                lemma_count_push(old_s, var, v);
            }
            assert forall|v: u32| #[trigger] count(contributing_vars@, v) == if count(rk@, v) > 0 {
                0
            } else {
                count(lk@.take(i + 1), v)
            } by {
                lemma_count_push(lk@.take(i as int), var, v);
                lemma_count_push(old_c, var, v);
            }
        }
        i = i + 1;
    }
    proof {
        assert(lk@.take(lk.len() as int) =~= lk@);
        assert(rk@.take(0) =~= Seq::<u32>::empty());
    }
    // The variables of `rk` alone, and the right-hand occurrences of shared variables
    // that are neither binary nor spin: those keep every occurrence.
    let mut j: usize = 0;
    while j < rk.len()
        invariant
            0 <= j <= rk.len(),
            n == env.len(),
            vt == env.vtypes(),
            in_range(rk@, n),
            in_range(contributing_vars@, n),
            forall|v: u32|
                #[trigger] count(contributing_vars@, v) == (if count(rk@, v) > 0 {
                    0
                } else {
                    count(lk@, v)
                }) + (if count(lk@, v) == 0 || !is_binary_or_spin(vt[v as int]) {
                    count(rk@.take(j as int), v)
                } else {
                    0
                }),
        decreases rk.len() - j,
    {
        let var = rk[j];
        let ghost old_c = contributing_vars@;
        let in_lhs = key_contains(lk, var);
        if !in_lhs {
            contributing_vars.push(var);
        } else {
            match env.get_vtype(var) {
                Vtype::Binary => {},
                Vtype::Spin => {},
                _ => {
                    contributing_vars.push(var);
                },
            }
        }
        proof {
            assert(rk@.take(j + 1) =~= rk@.take(j as int).push(var));
            lemma_in_range_push(old_c, var, n);
            assert forall|v: u32| #[trigger] count(contributing_vars@, v) == (if count(rk@, v) > 0 {
                0
            } else {
                count(lk@, v)
            }) + (if count(lk@, v) == 0 || !is_binary_or_spin(vt[v as int]) {
                count(rk@.take(j + 1), v)
            } else {
                0
            }) by {
                lemma_count_push(rk@.take(j as int), var, v);
                lemma_count_push(old_c, var, v);
            }
        }
        j = j + 1;
    }
    proof {
        assert(rk@.take(rk.len() as int) =~= rk@);
        // Binary and spin variables occur at most once in each product.
        assert forall|v: u32| is_binary_or_spin(vt[v as int]) implies #[trigger] count(lk@, v) <= 1 && count(
            rk@,
            v,
        ) <= 1 by {
            assert(count(lk@, v) == count(lk@, v));
            assert(count(rk@, v) == count(rk@, v));
        }
    }
    if shared_vars.len() == 0 {
        // No variable is in both products: the product has all variables.
        let ghost sk = contributing_vars@;
        add_subset_helper(contributing_vars, newvalue, env, result);
        proof {
            assert forall|v: u32| #[trigger] reduced_count(count(sk, v), vt[v as int])
                == reduced_count(count(full, v), vt[v as int]) by {
                lemma_count_concat(lk@, rk@, v);
                assert(count(shared_vars@, v) == 0);
            }
            assert forall|u: u32| #[trigger] count(sk, u) > 0 implies count(full, u) > 0 by {
                lemma_count_concat(lk@, rk@, u);
            }
            assert forall|k: int| 0 <= k < full.len() implies (full[k] as nat) < n by {
                if k < lk@.len() {
                    assert(full[k] == lk@[k]);
                } else {
                    assert(full[k] == rk@[k - lk@.len()]);
                }
            }
            lemma_adds_equiv(before, *result, vt, sk, full, newvalue as int);
        }
        return;
    }
    let ghost after_rhs = contributing_vars@;
    let mut k: usize = 0;
    proof {
        assert(shared_vars@.take(0) =~= Seq::<u32>::empty());
    }
    while k < shared_vars.len()
        invariant
            0 <= k <= shared_vars.len(),
            n == env.len(),
            vt == env.vtypes(),
            in_range(shared_vars@, n),
            in_range(contributing_vars@, n),
            forall|v: u32|
                #[trigger] count(contributing_vars@, v) == count(after_rhs, v) + (if vt[v as int]
                    != Vtype::Spin {
                    count(shared_vars@.take(k as int), v)
                } else {
                    0
                }),
        decreases shared_vars.len() - k,
    {
        let var = shared_vars[k];
        let ghost old_c = contributing_vars@;
        match env.get_vtype(var) {
            // A binary variable times itself is itself: it stays once.
            Vtype::Binary => {
                contributing_vars.push(var);
            },
            // A spin variable times itself is one: it leaves the product.
            Vtype::Spin => {},
            // The left-hand occurrence of any other variable; the right-hand one is
            // already in.
            _ => {
                contributing_vars.push(var);
            },
        }
        proof {
            assert(shared_vars@.take(k + 1) =~= shared_vars@.take(k as int).push(var));
            lemma_in_range_push(old_c, var, n);
            assert forall|v: u32| #[trigger] count(contributing_vars@, v) == count(after_rhs, v) + (
            if vt[v as int] != Vtype::Spin {
                count(shared_vars@.take(k + 1), v)
            } else {
                0
            }) by {
                lemma_count_push(shared_vars@.take(k as int), var, v);
                lemma_count_push(old_c, var, v);
            }
        }
        k = k + 1;
    }
    proof {
        assert(shared_vars@.take(shared_vars.len() as int) =~= shared_vars@);
    }
    let ghost sk = contributing_vars@;
    add_subset_helper(contributing_vars, newvalue, env, result);
    proof {
        assert forall|v: u32| #[trigger] reduced_count(count(sk, v), vt[v as int]) == reduced_count(
            count(full, v),
            vt[v as int],
        ) by {
            lemma_count_concat(lk@, rk@, v);
            assert(count(lk@, v) == count(lk@, v) && count(rk@, v) == count(rk@, v));
            if is_binary_or_spin(vt[v as int]) {
                assert(count(lk@, v) <= 1 && count(rk@, v) <= 1);
            }
        }
        assert forall|u: u32| #[trigger] count(sk, u) > 0 implies count(full, u) > 0 by {
            lemma_count_concat(lk@, rk@, u);
        }
        assert forall|k: int| 0 <= k < full.len() implies (full[k] as nat) < n by {
            if k < lk@.len() {
                assert(full[k] == lk@[k]);
            } else {
                assert(full[k] == rk@[k - lk@.len()]);
            }
        }
        lemma_adds_equiv(before, *result, vt, sk, full, newvalue as int);
    }
}

/// Adds `newvalue` times the product of the monomials `lk` and `rk` to `result`,
/// deciding by their degrees which case of the product applies.
fn add_pair(
    lk: &Vec<VarIndex>,
    rk: &Vec<VarIndex>,
    newvalue: Bias,
    env: &Environment,
    result: &mut Expression,
)
    requires
        old(result).belongs_to(env),
        is_canonical(lk@, env.vtypes()),
        lk.len() > 0,
        is_canonical(rk@, env.vtypes()),
        rk.len() > 0,
        old(result).abs_sum() + abs(newvalue as int) <= Bias::MAX,
    ensures
        final(result).belongs_to(env),
        adds_product(*old(result), *final(result), env.vtypes(), lk@ + rk@, newvalue as int),
{
    let ghost before = *result;
    let ghost vt = env.vtypes();
    if lk.len() == 1 && rk.len() == 1 {
        linear_linear_pair(lk[0], rk[0], newvalue, env, result);
        proof {
            assert(lk@ + rk@ =~= seq![lk@[0], rk@[0]]);
        }
    } else if lk.len() == 1 && rk.len() == 2 {
        proof {
            assert(rk@ =~= seq![rk@[0], rk@[1]]);
        }
        linear_quadratic_pair(lk[0], rk[0], rk[1], newvalue, env, result);
        proof {
            assert(lk@ + rk@ =~= seq![lk@[0], rk@[0], rk@[1]]);
        }
    } else if lk.len() == 2 && rk.len() == 1 {
        proof {
            assert(lk@ =~= seq![lk@[0], lk@[1]]);
        }
        linear_quadratic_pair(rk[0], lk[0], lk[1], newvalue, env, result);
        proof {
            assert(rk@ + lk@ =~= seq![rk@[0], lk@[0], lk@[1]]);
            lemma_adds_swap(before, *result, vt, lk@, rk@, newvalue as int);
        }
    } else if lk.len() == 2 && rk.len() == 2 {
        proof {
            assert(lk@ =~= seq![lk@[0], lk@[1]]);
            assert(rk@ =~= seq![rk@[0], rk@[1]]);
        }
        quadratic_pair(lk[0], lk[1], rk[0], rk[1], newvalue, env, result);
        proof {
            assert(lk@ + rk@ =~= seq![lk@[0], lk@[1], rk@[0], rk@[1]]);
        }
    } else if lk.len() == 2 && rk.len() >= 3 {
        proof {
            assert(lk@ =~= seq![lk@[0], lk@[1]]);
        }
        quadratic_ho_pair(lk[0], lk[1], rk, newvalue, env, result);
    } else if lk.len() >= 3 && rk.len() == 2 {
        proof {
            assert(rk@ =~= seq![rk@[0], rk@[1]]);
        }
        quadratic_ho_pair(rk[0], rk[1], lk, newvalue, env, result);
        proof {
            lemma_adds_swap(before, *result, vt, lk@, rk@, newvalue as int);
        }
    } else if lk.len() == 1 && rk.len() >= 3 {
        linear_ho_pair(lk[0], rk, newvalue, env, result);
        proof {
            assert(lk@ =~= seq![lk@[0]]);
        }
    } else if lk.len() >= 3 && rk.len() == 1 {
        linear_ho_pair(rk[0], lk, newvalue, env, result);
        proof {
            assert(rk@ =~= seq![rk@[0]]);
            lemma_adds_swap(before, *result, vt, lk@, rk@, newvalue as int);
        }
    } else {
        ho_ho_pair(lk, rk, newvalue, env, result);
    }
}

/// Adds the product of the term lists `lhs` and `rhs` to `result`, pair by pair.
fn add_products(lhs: &Vec<Term>, rhs: &Vec<Term>, env: &Environment, result: &mut Expression)
    requires
        old(result).belongs_to(env),
        canonical_terms(lhs@, env.vtypes()),
        canonical_terms(rhs@, env.vtypes()),
        old(result).abs_sum() + terms_abs(lhs@) * terms_abs(rhs@) <= Bias::MAX,
    ensures
        final(result).belongs_to(env),
        products_added(*old(result), *final(result), env.vtypes(), lhs@, rhs@),
{
    let ghost start = *result;
    let ghost vt = env.vtypes();
    let ghost lt = lhs@;
    let ghost rt = rhs@;
    let ghost a = terms_abs(lt);
    let ghost b = terms_abs(rt);
    proof {
        lemma_terms_abs_nonneg(lt);
        lemma_terms_abs_nonneg(rt);
        assert(lt.take(0) =~= Seq::<Term>::empty());
        assert forall|s: Seq<int>| valid_sample(vt, s) implies #[trigger] result.value(s)
            == start.value(s) + terms_value(lt.take(0), s) * terms_value(rt, s) by {}
        assert(terms_abs(lt.take(0)) * b == 0) by (nonlinear_arith)
            requires
                terms_abs(lt.take(0)) == 0,
        ;
        assert forall|k: Seq<u32>| #[trigger] result.has_term(k) implies start.has_term(k) by {}
    }
    let mut i: usize = 0;
    while i < lhs.len()
        invariant
            0 <= i <= lhs.len(),
            lt == lhs@,
            rt == rhs@,
            vt == env.vtypes(),
            result.belongs_to(env),
            canonical_terms(lt, vt),
            canonical_terms(rt, vt),
            a == terms_abs(lt),
            b == terms_abs(rt),
            a >= 0,
            b >= 0,
            start.abs_sum() + a * b <= Bias::MAX,
            products_added(start, *result, vt, lt.take(i as int), rt),
        decreases lhs.len() - i,
    {
        let ghost mid = *result;
        let ghost bi = lt[i as int].bias as int;
        let ghost vi = lt[i as int].vars@;
        proof {
            lemma_terms_abs_prefix(lt, i + 1);
            lemma_terms_take_step(lt, i as int, Seq::empty());
            lemma_terms_abs_nonneg(lt.take(i as int));
            assert(terms_abs(lt.take(i + 1)) * b == terms_abs(lt.take(i as int)) * b + abs(bi) * b)
                by (nonlinear_arith)
                requires
                    terms_abs(lt.take(i + 1)) == terms_abs(lt.take(i as int)) + abs(bi),
            ;
            lemma_mul_le(terms_abs(lt.take(i + 1)), a, b, b);
            assert(rt.take(0) =~= Seq::<Term>::empty());
            assert forall|k: Seq<u32>| #[trigger] result.has_term(k) implies mid.has_term(k) by {}
            assert(abs(bi) * terms_abs(rt.take(0)) == 0) by (nonlinear_arith)
                requires
                    terms_abs(rt.take(0)) == 0,
            ;
        }
        let mut j: usize = 0;
        while j < rhs.len()
            invariant
                0 <= i < lhs.len(),
                0 <= j <= rhs.len(),
                lt == lhs@,
                rt == rhs@,
                vt == env.vtypes(),
                result.belongs_to(env),
                canonical_terms(lt, vt),
                canonical_terms(rt, vt),
                bi == lt[i as int].bias,
                vi == lt[i as int].vars@,
                b == terms_abs(rt),
                b >= 0,
                abs(bi) >= 0,
                start.abs_sum() + terms_abs(lt.take(i as int)) * b + abs(bi) * b <= Bias::MAX,
                products_added(start, mid, vt, lt.take(i as int), rt),
                result.env_id == mid.env_id,
                forall|s: Seq<int>|
                    valid_sample(vt, s) ==> #[trigger] result.value(s) == mid.value(s) + bi
                        * monomial_value(vi, s) * terms_value(rt.take(j as int), s),
                result.abs_sum() <= mid.abs_sum() + abs(bi) * terms_abs(rt.take(j as int)),
                forall|k: Seq<u32>|
                    #[trigger] result.coeff(k) == mid.coeff(k) + row_coeff(lt[i as int], rt.take(j as int), vt, k),
                forall|k: Seq<u32>|
                    #[trigger] result.has_term(k) ==> mid.has_term(k) || row_yields(
                        lt[i as int],
                        rt.take(j as int),
                        vt,
                        k,
                    ),
                forall|u: u32| #[trigger] mid.is_active(u) ==> result.is_active(u),
                forall|u: u32|
                    #[trigger] result.is_active(u) ==> mid.is_active(u) || count(vi, u) > 0
                        || mentions(rt, u),
            decreases rhs.len() - j,
        {
            let ghost inner = *result;
            let ghost bj = rt[j as int].bias as int;
            let ghost vj = rt[j as int].vars@;
            proof {
                lemma_terms_abs_prefix(rt, j + 1);
                lemma_terms_take_step(rt, j as int, Seq::empty());
                lemma_terms_abs_nonneg(rt.take(j as int));
                lemma_terms_abs_bound(rt, j as int);
                lemma_abs_mul(bi, bj);
                lemma_mul_le(abs(bi), abs(bi), abs(bj), b);
                lemma_mul_le(abs(bi), abs(bi), terms_abs(rt.take(j + 1)), b);
                assert(abs(bi) * terms_abs(rt.take(j + 1)) == abs(bi) * terms_abs(rt.take(j as int))
                    + abs(bi) * abs(bj)) by (nonlinear_arith)
                    requires
                        terms_abs(rt.take(j + 1)) == terms_abs(rt.take(j as int)) + abs(bj),
                ;
                lemma_terms_abs_nonneg(lt.take(i as int));
                lemma_mul_le(terms_abs(lt.take(i as int)), terms_abs(lt.take(i as int)), b, b);
                assert(is_canonical(vi, vt) && is_canonical(vj, vt));
                lemma_terms_abs_nonneg(start.terms@);
                assert(abs(bi * bj) <= Bias::MAX);
            }
            let newvalue = lhs[i].bias * rhs[j].bias;
            if newvalue != 0 {
                add_pair(&lhs[i].vars, &rhs[j].vars, newvalue, env, result);
            }
            proof {
                let ti = lt[i as int];
                assert(rt.take(j + 1).drop_last() =~= rt.take(j as int));
                assert(rt.take(j + 1).last() == rt[j as int]);
                assert forall|k: Seq<u32>| #[trigger] result.coeff(k) == mid.coeff(k) + row_coeff(
                    ti,
                    rt.take(j + 1),
                    vt,
                    k,
                ) by {
                    assert(row_coeff(ti, rt.take(j + 1), vt, k) == row_coeff(ti, rt.take(j as int), vt, k)
                        + pair_coeff(ti, rt[j as int], vt, k));
                    assert(inner.coeff(k) == mid.coeff(k) + row_coeff(ti, rt.take(j as int), vt, k));
                }
                assert forall|k: Seq<u32>| #[trigger] result.has_term(k) implies mid.has_term(k) || row_yields(
                    ti,
                    rt.take(j + 1),
                    vt,
                    k,
                ) by {
                    if !mid.has_term(k) {
                        if inner.has_term(k) {
                            assert(row_yields(ti, rt.take(j as int), vt, k));
                            let jj = choose|jj: int|
                                0 <= jj < rt.take(j as int).len() && ti.bias * rt.take(j as int)[jj].bias != 0
                                    && is_reduction(
                                    ti.vars@ + (#[trigger] rt.take(j as int)[jj]).vars@,
                                    vt,
                                    k,
                                );
                            assert(rt.take(j + 1)[jj] == rt.take(j as int)[jj]);
                        } else {
                            assert(rt.take(j + 1)[j as int] == rt[j as int]);
                        }
                    }
                }
                assert forall|s: Seq<int>| valid_sample(vt, s) implies #[trigger] result.value(s)
                    == mid.value(s) + bi * monomial_value(vi, s) * terms_value(
                    rt.take(j + 1),
                    s,
                ) by {
                    lemma_terms_take_step(rt, j as int, s);
                    lemma_value_concat(vi, vj, s);
                    let mi = monomial_value(vi, s);
                    let mj = monomial_value(vj, s);
                    let x = terms_value(rt.take(j as int), s);
                    assert(bi * mi * (x + bj * mj) == bi * mi * x + (bi * bj) * (mi * mj)) by (
                    nonlinear_arith);
                    if newvalue == 0 {
                        assert((bi * bj) * (mi * mj) == 0) by (nonlinear_arith)
                            requires
                                bi * bj == 0,
                        ;
                    }
                }
                assert forall|u: u32| #[trigger] result.is_active(u) implies mid.is_active(u) || count(
                    vi,
                    u,
                ) > 0 || mentions(rt, u) by {
                    if newvalue != 0 && !inner.is_active(u) {
                        lemma_count_concat(vi, vj, u);
                        if count(vj, u) > 0 {
                            assert(count(rt[j as int].vars@, u) > 0);
                        }
                    }
                }
            }
            j = j + 1;
        }
        proof {
            assert(rt.take(rt.len() as int) =~= rt);
            let ti = lt[i as int];
            assert(lt.take(i + 1).drop_last() =~= lt.take(i as int));
            assert(lt.take(i + 1).last() == ti);
            assert forall|k: Seq<u32>| #[trigger] result.coeff(k) == start.coeff(k) + pairs_coeff(
                lt.take(i + 1),
                rt,
                vt,
                k,
            ) by {
                assert(mid.coeff(k) == start.coeff(k) + pairs_coeff(lt.take(i as int), rt, vt, k));
            }
            assert forall|k: Seq<u32>| #[trigger] result.has_term(k) implies start.has_term(k) || pairs_yield(
                lt.take(i + 1),
                rt,
                vt,
                k,
            ) by {
                if !start.has_term(k) {
                    if mid.has_term(k) {
                        assert(pairs_yield(lt.take(i as int), rt, vt, k));
                        let ii = choose|ii: int|
                            0 <= ii < lt.take(i as int).len() && row_yields(
                                #[trigger] lt.take(i as int)[ii],
                                rt,
                                vt,
                                k,
                            );
                        assert(lt.take(i + 1)[ii] == lt.take(i as int)[ii]);
                    } else {
                        assert(lt.take(i + 1)[i as int] == ti);
                    }
                }
            }
            assert forall|s: Seq<int>| valid_sample(vt, s) implies #[trigger] result.value(s)
                == start.value(s) + terms_value(lt.take(i + 1), s) * terms_value(rt, s) by {
                lemma_terms_take_step(lt, i as int, s);
                let mi = monomial_value(vi, s);
                let x = terms_value(lt.take(i as int), s);
                let t = terms_value(rt, s);
                assert(x * t + bi * mi * t == (x + bi * mi) * t) by (nonlinear_arith);
            }
            assert forall|u: u32| #[trigger] result.is_active(u) implies start.is_active(u) || mentions(
                lt.take(i + 1),
                u,
            ) || mentions(rt, u) by {
                if !mid.is_active(u) && count(vi, u) > 0 {
                    assert(lt.take(i + 1)[i as int] == lt[i as int]);
                    assert(count(lt.take(i + 1)[i as int].vars@, u) > 0);
                }
                if mid.is_active(u) && !start.is_active(u) && !mentions(rt, u) {
                    let k = choose|k: int|
                        0 <= k < lt.take(i as int).len() && count(#[trigger] lt.take(i as int)[k].vars@, u) > 0;
                    assert(lt.take(i + 1)[k] == lt.take(i as int)[k]);
                    assert(count(lt.take(i + 1)[k].vars@, u) > 0);
                }
            }
        }
        i = i + 1;
    }
    proof {
        assert(lt.take(lt.len() as int) =~= lt);
    }
}

/// The product of two terms gives a monomial the same coefficient in either order.
pub proof fn lemma_pair_coeff_swap(a: Term, b: Term, vtypes: Seq<Vtype>, k: Seq<u32>)
    ensures
        pair_coeff(a, b, vtypes, k) == pair_coeff(b, a, vtypes, k),
{
    lemma_reduction_swap(a.vars@, b.vars@, vtypes);
    assert(a.bias * b.bias == b.bias * a.bias) by (nonlinear_arith);
}

/// The pairs with the last term of `rhs` can be counted last.
pub proof fn lemma_pairs_coeff_last(lhs: Seq<Term>, rhs: Seq<Term>, vtypes: Seq<Vtype>, k: Seq<u32>)
    requires
        rhs.len() > 0,
    ensures
        pairs_coeff(lhs, rhs, vtypes, k) == pairs_coeff(lhs, rhs.drop_last(), vtypes, k) + row_coeff(
            rhs.last(),
            lhs,
            vtypes,
            k,
        ),
    decreases lhs.len(),
{
    if lhs.len() > 0 {
        lemma_pairs_coeff_last(lhs.drop_last(), rhs, vtypes, k);
        lemma_pair_coeff_swap(lhs.last(), rhs.last(), vtypes, k);
    }
}

/// The coefficients of a product of term lists do not depend on the order of the
/// factors.
pub proof fn lemma_pairs_coeff_swap(lhs: Seq<Term>, rhs: Seq<Term>, vtypes: Seq<Vtype>, k: Seq<u32>)
    ensures
        pairs_coeff(lhs, rhs, vtypes, k) == pairs_coeff(rhs, lhs, vtypes, k),
    decreases rhs.len(),
{
    if rhs.len() == 0 {
        assert(pairs_coeff(lhs, rhs, vtypes, k) == 0) by {
            lemma_pairs_coeff_empty(lhs, rhs, vtypes, k);
        }
    } else {
        lemma_pairs_coeff_last(lhs, rhs, vtypes, k);
        lemma_pairs_coeff_swap(lhs, rhs.drop_last(), vtypes, k);
    }
}

/// Nothing comes of a product with an empty term list.
pub proof fn lemma_pairs_coeff_empty(lhs: Seq<Term>, rhs: Seq<Term>, vtypes: Seq<Vtype>, k: Seq<u32>)
    requires
        rhs.len() == 0,
    ensures
        pairs_coeff(lhs, rhs, vtypes, k) == 0,
    decreases lhs.len(),
{
    if lhs.len() > 0 {
        lemma_pairs_coeff_empty(lhs.drop_last(), rhs, vtypes, k);
    }
}

/// The order of the two factors of a product of term lists does not matter.
pub proof fn lemma_products_swap(
    before: Expression,
    after: Expression,
    vtypes: Seq<Vtype>,
    lhs: Seq<Term>,
    rhs: Seq<Term>,
)
    requires
        products_added(before, after, vtypes, rhs, lhs),
    ensures
        products_added(before, after, vtypes, lhs, rhs),
{
    assert forall|k: Seq<u32>| #[trigger] after.coeff(k) == before.coeff(k) + pairs_coeff(lhs, rhs, vtypes, k) by {
        lemma_pairs_coeff_swap(lhs, rhs, vtypes, k);
    }
    assert forall|k: Seq<u32>| #[trigger] after.has_term(k) implies before.has_term(k) || pairs_yield(
        lhs,
        rhs,
        vtypes,
        k,
    ) by {
        if !before.has_term(k) {
            assert(pairs_yield(rhs, lhs, vtypes, k));
            let i = choose|i: int| 0 <= i < rhs.len() && row_yields(#[trigger] rhs[i], lhs, vtypes, k);
            let j = choose|j: int|
                0 <= j < lhs.len() && rhs[i].bias * lhs[j].bias != 0 && is_reduction(
                    rhs[i].vars@ + (#[trigger] lhs[j]).vars@,
                    vtypes,
                    k,
                );
            lemma_reduction_swap(rhs[i].vars@, lhs[j].vars@, vtypes);
            assert(lhs[j].bias * rhs[i].bias == rhs[i].bias * lhs[j].bias) by (nonlinear_arith);
            assert(row_yields(lhs[j], rhs, vtypes, k));
        }
    }
    assert forall|s: Seq<int>| valid_sample(vtypes, s) implies #[trigger] after.value(s)
        == before.value(s) + terms_value(lhs, s) * terms_value(rhs, s) by {
        let x = terms_value(lhs, s);
        let y = terms_value(rhs, s);
        assert(y * x == x * y) by (nonlinear_arith);
    }
    let x = terms_abs(lhs);
    let y = terms_abs(rhs);
    assert(y * x == x * y) by (nonlinear_arith);
}

/// Some term of `ts` has the monomial `k` and a bias that times `c` is not zero.
pub open spec fn scaled_yields(ts: Seq<Term>, c: int, k: Seq<u32>) -> bool {
    exists|i: int| 0 <= i < ts.len() && ts[i].bias * c != 0 && (#[trigger] ts[i]).vars@ == k
}

/// Adds `c` times each term of `ts` to `result`.
fn add_scaled_terms(ts: &Vec<Term>, c: Bias, env: &Environment, result: &mut Expression)
    requires
        old(result).belongs_to(env),
        canonical_terms(ts@, env.vtypes()),
        old(result).abs_sum() + abs(c as int) * terms_abs(ts@) <= Bias::MAX,
    ensures
        final(result).belongs_to(env),
        final(result).env_id == old(result).env_id,
        forall|s: Seq<int>|
            valid_sample(env.vtypes(), s) ==> #[trigger] final(result).value(s) == old(result).value(s)
                + c * terms_value(ts@, s),
        final(result).abs_sum() <= old(result).abs_sum() + abs(c as int) * terms_abs(ts@),
        forall|u: u32| #[trigger] old(result).is_active(u) ==> final(result).is_active(u),
        forall|u: u32|
            #[trigger] final(result).is_active(u) ==> old(result).is_active(u) || mentions(ts@, u),
        forall|k: Seq<u32>| #[trigger] final(result).coeff(k) == old(result).coeff(k) + c * terms_coeff(ts@, k),
        forall|k: Seq<u32>|
            #[trigger] final(result).has_term(k) ==> old(result).has_term(k) || scaled_yields(ts@, c as int, k),
{
    let ghost start = *result;
    let ghost vt = env.vtypes();
    let ghost t = ts@;
    let ghost ac = abs(c as int);
    proof {
        lemma_terms_abs_nonneg(t);
        lemma_terms_abs_nonneg(start.terms@);
        assert(t.take(0) =~= Seq::<Term>::empty());
        assert(ac * terms_abs(t.take(0)) == 0) by (nonlinear_arith)
            requires
                terms_abs(t.take(0)) == 0,
        ;
        assert forall|s: Seq<int>| valid_sample(vt, s) implies #[trigger] result.value(s)
            == start.value(s) + c * terms_value(t.take(0), s) by {}
        assert forall|k: Seq<u32>| #[trigger] result.has_term(k) implies start.has_term(k) by {}
    }
    let mut i: usize = 0;
    while i < ts.len()
        invariant
            0 <= i <= ts.len(),
            t == ts@,
            vt == env.vtypes(),
            ac == abs(c as int),
            ac >= 0,
            result.belongs_to(env),
            canonical_terms(t, vt),
            start.abs_sum() >= 0,
            start.abs_sum() + ac * terms_abs(t) <= Bias::MAX,
            result.env_id == start.env_id,
            forall|s: Seq<int>|
                valid_sample(vt, s) ==> #[trigger] result.value(s) == start.value(s) + c
                    * terms_value(t.take(i as int), s),
            result.abs_sum() <= start.abs_sum() + ac * terms_abs(t.take(i as int)),
            forall|u: u32| #[trigger] start.is_active(u) ==> result.is_active(u),
            forall|u: u32| #[trigger] result.is_active(u) ==> start.is_active(u) || mentions(t, u),
            forall|k: Seq<u32>| #[trigger] result.coeff(k) == start.coeff(k) + c * terms_coeff(t.take(i as int), k),
            forall|k: Seq<u32>|
                #[trigger] result.has_term(k) ==> start.has_term(k) || scaled_yields(t.take(i as int), c as int, k),
        decreases ts.len() - i,
    {
        let ghost bi = t[i as int].bias as int;
        let ghost vi = t[i as int].vars@;
        let ghost inner = *result;
        proof {
            lemma_terms_abs_prefix(t, i + 1);
            lemma_terms_take_step(t, i as int, Seq::empty());
            lemma_terms_abs_nonneg(t.take(i as int));
            lemma_abs_mul(bi, c as int);
            lemma_mul_le(ac, ac, terms_abs(t.take(i + 1)), terms_abs(t));
            assert(ac * terms_abs(t.take(i + 1)) == ac * terms_abs(t.take(i as int)) + abs(bi) * ac)
                by (nonlinear_arith)
                requires
                    terms_abs(t.take(i + 1)) == terms_abs(t.take(i as int)) + abs(bi),
            ;
            assert(abs(bi * c) <= Bias::MAX);
            assert(is_canonical(vi, vt));
        }
        let newvalue = ts[i].bias * c;
        if newvalue != 0 {
            let key = ts[i].vars.clone();
            proof {
                assert(key@ =~= vi);
            }
            add_subset_helper(key, newvalue, env, result);
        }
        proof {
            lemma_canonical_reduction(vi, vt);
            assert(t.take(i + 1).drop_last() =~= t.take(i as int));
            assert(t.take(i + 1).last() == t[i as int]);
            assert forall|k: Seq<u32>| #[trigger] result.coeff(k) == start.coeff(k) + c * terms_coeff(
                t.take(i + 1),
                k,
            ) by {
                let x = terms_coeff(t.take(i as int), k);
                let y: int = if vi == k { bi } else { 0 };
                assert(terms_coeff(t.take(i + 1), k) == x + y);
                assert(inner.coeff(k) == start.coeff(k) + c * x);
                assert(c * (x + y) == c * x + c * y) by (nonlinear_arith);
                assert(c * y == (if vi == k { bi * c } else { 0 })) by (nonlinear_arith)
                    requires
                        y == (if vi == k { bi } else { 0 }),
                ;
            }
            assert forall|k: Seq<u32>| #[trigger] result.has_term(k) implies start.has_term(k) || scaled_yields(
                t.take(i + 1),
                c as int,
                k,
            ) by {
                if !start.has_term(k) {
                    if inner.has_term(k) {
                        let jj = choose|jj: int|
                            0 <= jj < t.take(i as int).len() && t.take(i as int)[jj].bias * c != 0
                                && (#[trigger] t.take(i as int)[jj]).vars@ == k;
                        assert(t.take(i + 1)[jj] == t.take(i as int)[jj]);
                    } else {
                        assert(t.take(i + 1)[i as int] == t[i as int]);
                    }
                }
            }
            assert forall|s: Seq<int>| valid_sample(vt, s) implies #[trigger] result.value(s)
                == start.value(s) + c * terms_value(t.take(i + 1), s) by {
                lemma_terms_take_step(t, i as int, s);
                let m = monomial_value(vi, s);
                let x = terms_value(t.take(i as int), s);
                assert(c * (x + bi * m) == c * x + (bi * c) * m) by (nonlinear_arith);
                if newvalue == 0 {
                    assert((bi * c) * m == 0) by (nonlinear_arith)
                        requires
                            bi * c == 0,
                    ;
                }
            }
            assert forall|u: u32| #[trigger] result.is_active(u) implies start.is_active(u) || mentions(
                t,
                u,
            ) by {
                if newvalue != 0 && !inner.is_active(u) {
                    assert(count(t[i as int].vars@, u) > 0);
                }
            }
        }
        i = i + 1;
    }
    proof {
        assert(t.take(t.len() as int) =~= t);
    }
}

/// `after` is `before` with the product of the term list `ts` and the expression
/// `other` added: in the coefficient of each monomial, the offset of `other` times its
/// coefficient in `ts` and the coefficient that the pairs of terms give it; in value
/// wherever every variable takes a value of its type; in the absolute sum at most the
/// product of their absolute sums; and in the active variables at most those that `ts`
/// or `other` mentions. A monomial gets a term of its own only from a product whose
/// bias is not zero.
pub open spec fn expression_products_added(
    before: Expression,
    after: Expression,
    vtypes: Seq<Vtype>,
    ts: Seq<Term>,
    other: Expression,
) -> bool {
    &&& after.env_id == before.env_id
    &&& forall|k: Seq<u32>|
        #[trigger] after.coeff(k) == before.coeff(k) + other.offset * terms_coeff(ts, k) + pairs_coeff(
            ts,
            other.terms@,
            vtypes,
            k,
        )
    &&& forall|k: Seq<u32>|
        #[trigger] after.has_term(k) ==> before.has_term(k) || scaled_yields(ts, other.offset as int, k)
            || pairs_yield(ts, other.terms@, vtypes, k)
    &&& forall|s: Seq<int>|
        valid_sample(vtypes, s) ==> #[trigger] after.value(s) == before.value(s) + terms_value(
            ts,
            s,
        ) * other.value(s)
    &&& after.abs_sum() <= before.abs_sum() + terms_abs(ts) * other.abs_sum()
    &&& forall|u: u32| #[trigger] before.is_active(u) ==> after.is_active(u)
    &&& forall|u: u32|
        #[trigger] after.is_active(u) ==> before.is_active(u) || mentions(ts, u) || mentions(
            other.terms@,
            u,
        )
}

/// Adds the product of the term list `ts` and the expression `other` to `result`: the
/// terms times the offset of `other`, then the terms times the terms of `other`.
fn add_expression_products(ts: &Vec<Term>, other: &Expression, env: &Environment, result: &mut Expression)
    requires
        old(result).belongs_to(env),
        other.belongs_to(env),
        canonical_terms(ts@, env.vtypes()),
        old(result).abs_sum() + terms_abs(ts@) * other.abs_sum() <= Bias::MAX,
    ensures
        final(result).belongs_to(env),
        expression_products_added(*old(result), *final(result), env.vtypes(), ts@, *other),
{
    let ghost start = *result;
    let ghost vt = env.vtypes();
    let ghost t = terms_abs(ts@);
    let ghost o = abs(other.offset as int);
    let ghost ot = terms_abs(other.terms@);
    proof {
        lemma_terms_abs_nonneg(ts@);
        lemma_terms_abs_nonneg(other.terms@);
        assert(t * (o + ot) == o * t + t * ot) by (nonlinear_arith);
        lemma_mul_le(t, t, ot, ot);
        lemma_mul_le(o, o, t, t);
        assert(canonical_terms(other.terms@, vt));
    }
    add_scaled_terms(ts, other.offset, env, result);
    let ghost mid = *result;
    add_products(ts, &other.terms, env, result);
    proof {
        assert forall|s: Seq<int>| valid_sample(vt, s) implies #[trigger] result.value(s)
            == start.value(s) + terms_value(ts@, s) * other.value(s) by {
            let x = terms_value(ts@, s);
            let y = terms_value(other.terms@, s);
            let c = other.offset as int;
            assert(c * x + x * y == x * (c + y)) by (nonlinear_arith);
        }
        assert forall|u: u32| #[trigger] start.is_active(u) implies result.is_active(u) by {
            assert(mid.is_active(u));
        }
        assert forall|k: Seq<u32>| #[trigger] result.coeff(k) == start.coeff(k) + other.offset * terms_coeff(
            ts@,
            k,
        ) + pairs_coeff(ts@, other.terms@, vt, k) by {
            assert(mid.coeff(k) == start.coeff(k) + other.offset * terms_coeff(ts@, k));
        }
        assert forall|k: Seq<u32>| #[trigger] result.has_term(k) implies start.has_term(k) || scaled_yields(
            ts@,
            other.offset as int,
            k,
        ) || pairs_yield(ts@, other.terms@, vt, k) by {
            if !pairs_yield(ts@, other.terms@, vt, k) {
                assert(mid.has_term(k));
            }
        }
    }
}

/// Adds the product of two linear term lists to `result`.
pub fn linear_times_linear(lhs: &Vec<Term>, rhs: &Vec<Term>, env: &Environment, result: &mut Expression)
    requires
        old(result).belongs_to(env),
        linear_terms(lhs@, env.vtypes()),
        linear_terms(rhs@, env.vtypes()),
        old(result).abs_sum() + terms_abs(lhs@) * terms_abs(rhs@) <= Bias::MAX,
    ensures
        final(result).belongs_to(env),
        products_added(*old(result), *final(result), env.vtypes(), lhs@, rhs@),
{
    add_products(lhs, rhs, env, result);
}

/// Adds the product of a linear and a quadratic term list to `result`.
pub fn linear_times_quadratic(lin: &Vec<Term>, quad: &Vec<Term>, env: &Environment, result: &mut Expression)
    requires
        old(result).belongs_to(env),
        linear_terms(lin@, env.vtypes()),
        quadratic_terms(quad@, env.vtypes()),
        old(result).abs_sum() + terms_abs(lin@) * terms_abs(quad@) <= Bias::MAX,
    ensures
        final(result).belongs_to(env),
        products_added(*old(result), *final(result), env.vtypes(), lin@, quad@),
{
    add_products(lin, quad, env, result);
}

/// Adds the product of a linear and a higher-order term list to `result`.
pub fn linear_times_higher_order(lin: &Vec<Term>, ho: &Vec<Term>, env: &Environment, result: &mut Expression)
    requires
        old(result).belongs_to(env),
        linear_terms(lin@, env.vtypes()),
        higher_order_terms(ho@, env.vtypes()),
        old(result).abs_sum() + terms_abs(lin@) * terms_abs(ho@) <= Bias::MAX,
    ensures
        final(result).belongs_to(env),
        products_added(*old(result), *final(result), env.vtypes(), lin@, ho@),
{
    add_products(lin, ho, env, result);
}

/// Adds the product of a quadratic and a linear term list to `result`: the product of
/// the linear and the quadratic list.
pub fn quadratic_times_linear(quad: &Vec<Term>, lin: &Vec<Term>, env: &Environment, result: &mut Expression)
    requires
        old(result).belongs_to(env),
        quadratic_terms(quad@, env.vtypes()),
        linear_terms(lin@, env.vtypes()),
        old(result).abs_sum() + terms_abs(quad@) * terms_abs(lin@) <= Bias::MAX,
    ensures
        final(result).belongs_to(env),
        products_added(*old(result), *final(result), env.vtypes(), quad@, lin@),
{
    let ghost before = *result;
    proof {
        let x = terms_abs(quad@);
        let y = terms_abs(lin@);
        assert(x * y == y * x) by (nonlinear_arith);
    }
    linear_times_quadratic(lin, quad, env, result);
    proof {
        lemma_products_swap(before, *result, env.vtypes(), quad@, lin@);
    }
}

/// Adds the product of two quadratic term lists to `result`.
pub fn quadratic_times_quadratic(lhs: &Vec<Term>, rhs: &Vec<Term>, env: &Environment, result: &mut Expression)
    requires
        old(result).belongs_to(env),
        quadratic_terms(lhs@, env.vtypes()),
        quadratic_terms(rhs@, env.vtypes()),
        old(result).abs_sum() + terms_abs(lhs@) * terms_abs(rhs@) <= Bias::MAX,
    ensures
        final(result).belongs_to(env),
        products_added(*old(result), *final(result), env.vtypes(), lhs@, rhs@),
{
    add_products(lhs, rhs, env, result);
}

/// Adds the product of a quadratic and a higher-order term list to `result`.
pub fn quadratic_times_higher_order(quad: &Vec<Term>, ho: &Vec<Term>, env: &Environment, result: &mut Expression)
    requires
        old(result).belongs_to(env),
        quadratic_terms(quad@, env.vtypes()),
        higher_order_terms(ho@, env.vtypes()),
        old(result).abs_sum() + terms_abs(quad@) * terms_abs(ho@) <= Bias::MAX,
    ensures
        final(result).belongs_to(env),
        products_added(*old(result), *final(result), env.vtypes(), quad@, ho@),
{
    add_products(quad, ho, env, result);
}

/// Adds the product of a higher-order and a linear term list to `result`: the product
/// of the linear and the higher-order list.
pub fn higher_order_times_linear(ho: &Vec<Term>, lin: &Vec<Term>, env: &Environment, result: &mut Expression)
    requires
        old(result).belongs_to(env),
        higher_order_terms(ho@, env.vtypes()),
        linear_terms(lin@, env.vtypes()),
        old(result).abs_sum() + terms_abs(ho@) * terms_abs(lin@) <= Bias::MAX,
    ensures
        final(result).belongs_to(env),
        products_added(*old(result), *final(result), env.vtypes(), ho@, lin@),
{
    let ghost before = *result;
    proof {
        let x = terms_abs(ho@);
        let y = terms_abs(lin@);
        assert(x * y == y * x) by (nonlinear_arith);
    }
    linear_times_higher_order(lin, ho, env, result);
    proof {
        lemma_products_swap(before, *result, env.vtypes(), ho@, lin@);
    }
}

/// Adds the product of a higher-order and a quadratic term list to `result`: the
/// product of the quadratic and the higher-order list.
pub fn higher_order_times_quadratic(ho: &Vec<Term>, quad: &Vec<Term>, env: &Environment, result: &mut Expression)
    requires
        old(result).belongs_to(env),
        higher_order_terms(ho@, env.vtypes()),
        quadratic_terms(quad@, env.vtypes()),
        old(result).abs_sum() + terms_abs(ho@) * terms_abs(quad@) <= Bias::MAX,
    ensures
        final(result).belongs_to(env),
        products_added(*old(result), *final(result), env.vtypes(), ho@, quad@),
{
    let ghost before = *result;
    proof {
        let x = terms_abs(ho@);
        let y = terms_abs(quad@);
        assert(x * y == y * x) by (nonlinear_arith);
    }
    quadratic_times_higher_order(quad, ho, env, result);
    proof {
        lemma_products_swap(before, *result, env.vtypes(), ho@, quad@);
    }
}

/// Adds the product of two higher-order term lists to `result`.
pub fn higher_order_times_higher_order(lhs: &Vec<Term>, rhs: &Vec<Term>, env: &Environment, result: &mut Expression)
    requires
        old(result).belongs_to(env),
        higher_order_terms(lhs@, env.vtypes()),
        higher_order_terms(rhs@, env.vtypes()),
        old(result).abs_sum() + terms_abs(lhs@) * terms_abs(rhs@) <= Bias::MAX,
    ensures
        final(result).belongs_to(env),
        products_added(*old(result), *final(result), env.vtypes(), lhs@, rhs@),
{
    add_products(lhs, rhs, env, result);
}

/// Adds the product of a linear term list and the expression `other` to `result`.
pub fn linear_times_expression(linear: &Vec<Term>, other: &Expression, env: &Environment, result: &mut Expression)
    requires
        old(result).belongs_to(env),
        other.belongs_to(env),
        linear_terms(linear@, env.vtypes()),
        old(result).abs_sum() + terms_abs(linear@) * other.abs_sum() <= Bias::MAX,
    ensures
        final(result).belongs_to(env),
        expression_products_added(*old(result), *final(result), env.vtypes(), linear@, *other),
{
    add_expression_products(linear, other, env, result);
}

/// Adds the product of a quadratic term list and the expression `other` to `result`.
pub fn quadratic_times_expression(quadratic: &Vec<Term>, other: &Expression, env: &Environment, result: &mut Expression)
    requires
        old(result).belongs_to(env),
        other.belongs_to(env),
        quadratic_terms(quadratic@, env.vtypes()),
        old(result).abs_sum() + terms_abs(quadratic@) * other.abs_sum() <= Bias::MAX,
    ensures
        final(result).belongs_to(env),
        expression_products_added(*old(result), *final(result), env.vtypes(), quadratic@, *other),
{
    add_expression_products(quadratic, other, env, result);
}

/// Adds the product of a higher-order term list and the expression `other` to
/// `result`.
pub fn higher_order_times_expression(higher_order: &Vec<Term>, other: &Expression, env: &Environment, result: &mut Expression)
    requires
        old(result).belongs_to(env),
        other.belongs_to(env),
        higher_order_terms(higher_order@, env.vtypes()),
        old(result).abs_sum() + terms_abs(higher_order@) * other.abs_sum() <= Bias::MAX,
    ensures
        final(result).belongs_to(env),
        expression_products_added(*old(result), *final(result), env.vtypes(), higher_order@, *other),
{
    add_expression_products(higher_order, other, env, result);
}

} // verus!
