//! Monomials: products of variables, kept in a canonical form.
//!
//! A monomial is written as the sequence of the indices of the variables that it
//! multiplies. Binary variables are idempotent (`x * x == x`) and spin variables
//! square to one (`s * s == 1`), so a product of variables can be reduced: the
//! canonical form keeps a binary variable at most once, a spin variable once or not
//! at all depending on the parity of its multiplicity, and every other variable as
//! often as it occurs. The canonical form is sorted, which makes it unique.
use vstd::prelude::*;
use vstd::arithmetic::power::pow;

use crate::environment::Environment;
use crate::types::Vtype;

verus! {

/// Number of occurrences of `v` in `s`.
pub open spec fn count(s: Seq<u32>, v: u32) -> nat
    decreases s.len(),
{
    if s.len() == 0 {
        0
    } else {
        (if s[0] == v { 1nat } else { 0nat }) + count(s.drop_first(), v)
    }
}

/// `s` is sorted in non-decreasing order.
pub open spec fn is_sorted(s: Seq<u32>) -> bool {
    forall|i: int, j: int| 0 <= i <= j < s.len() ==> s[i] <= s[j]
}

/// Every index in `s` is below `n`.
pub open spec fn in_range(s: Seq<u32>, n: nat) -> bool {
    forall|i: int| 0 <= i < s.len() ==> (s[i] as nat) < n
}

/// How often a variable of type `t` that occurs `n` times in a product occurs in the
/// reduced product.
pub open spec fn reduced_count(n: nat, t: Vtype) -> nat {
    if n == 0 {
        0
    } else {
        match t {
            Vtype::Binary => 1,
            Vtype::Spin => n % 2,
            _ => n,
        }
    }
}

/// The multiplicities of `r` are those of the reduced product of `vars`.
pub open spec fn reduces_counts(vars: Seq<u32>, vtypes: Seq<Vtype>, r: Seq<u32>) -> bool {
    forall|v: u32| #[trigger] count(r, v) == reduced_count(count(vars, v), vtypes[v as int])
}

/// `r` is the canonical form of the product of the variables in `vars`, where
/// `vtypes[v]` is the type of variable `v`.
pub open spec fn is_reduction(vars: Seq<u32>, vtypes: Seq<Vtype>, r: Seq<u32>) -> bool {
    &&& is_sorted(r)
    &&& reduces_counts(vars, vtypes, r)
}

/// `key` is in canonical form: sorted, and no variable occurs more often than its
/// type allows.
pub open spec fn is_canonical(key: Seq<u32>, vtypes: Seq<Vtype>) -> bool {
    &&& is_sorted(key)
    &&& in_range(key, vtypes.len())
    &&& forall|v: u32|
        #![trigger count(key, v)]
        (vtypes[v as int] == Vtype::Binary || vtypes[v as int] == Vtype::Spin) ==> count(key, v)
            <= 1
}

/// A value that a variable of type `t` can take.
pub open spec fn valid_value(t: Vtype, x: int) -> bool {
    match t {
        Vtype::Binary => x == 0 || x == 1,
        Vtype::Spin => x == 1 || x == -1,
        _ => true,
    }
}

/// `sample[v]` is a value of variable `v` for every variable of the environment.
pub open spec fn valid_sample(vtypes: Seq<Vtype>, sample: Seq<int>) -> bool {
    &&& sample.len() == vtypes.len()
    &&& forall|i: int| 0 <= i < vtypes.len() ==> valid_value(#[trigger] vtypes[i], sample[i])
}

/// The value of the product of the variables in `key` under `sample`.
pub open spec fn monomial_value(key: Seq<u32>, sample: Seq<int>) -> int
    decreases key.len(),
{
    if key.len() == 0 {
        1
    } else {
        sample[key[0] as int] * monomial_value(key.drop_first(), sample)
    }
}

/// `s` with every occurrence of `x` removed.
pub open spec fn without(s: Seq<u32>, x: u32) -> Seq<u32>
    decreases s.len(),
{
    if s.len() == 0 {
        s
    } else if s[0] == x {
        without(s.drop_first(), x)
    } else {
        seq![s[0]].add(without(s.drop_first(), x))
    }
}

pub proof fn lemma_count_concat(a: Seq<u32>, b: Seq<u32>, v: u32)
    ensures
        count(a + b, v) == count(a, v) + count(b, v),
    decreases a.len(),
{
    if a.len() == 0 {
        assert(a + b =~= b);
    } else {
        assert((a + b).drop_first() =~= a.drop_first() + b);
        lemma_count_concat(a.drop_first(), b, v);
    }
}

pub proof fn lemma_count_push(s: Seq<u32>, x: u32, v: u32)
    ensures
        count(s.push(x), v) == count(s, v) + (if x == v { 1nat } else { 0nat }),
{
    assert(s.push(x) =~= s + seq![x]);
    lemma_count_concat(s, seq![x], v);
    lemma_count_single(x, v);
}

pub proof fn lemma_count_single(x: u32, v: u32)
    ensures
        count(seq![x], v) == (if x == v { 1nat } else { 0nat }),
{
    assert(seq![x].drop_first() =~= Seq::<u32>::empty());
    assert(count(seq![x].drop_first(), v) == 0);
}

pub proof fn lemma_count_insert(s: Seq<u32>, p: int, x: u32, v: u32)
    requires
        0 <= p <= s.len(),
    ensures
        count(s.insert(p, x), v) == count(s, v) + (if x == v { 1nat } else { 0nat }),
{
    assert(s.insert(p, x) =~= s.take(p) + (seq![x] + s.skip(p)));
    assert(s =~= s.take(p) + s.skip(p));
    lemma_count_concat(s.take(p), seq![x] + s.skip(p), v);
    lemma_count_concat(seq![x], s.skip(p), v);
    lemma_count_concat(s.take(p), s.skip(p), v);
    lemma_count_single(x, v);
}

pub proof fn lemma_count_positive(s: Seq<u32>, v: u32) -> (i: int)
    requires
        count(s, v) > 0,
    ensures
        0 <= i < s.len(),
        s[i] == v,
    decreases s.len(),
{
    if s[0] == v {
        0
    } else {
        let k = lemma_count_positive(s.drop_first(), v);
        k + 1
    }
}

pub proof fn lemma_count_absent(s: Seq<u32>, v: u32)
    requires
        forall|i: int| 0 <= i < s.len() ==> s[i] != v,
    ensures
        count(s, v) == 0,
    decreases s.len(),
{
    if s.len() > 0 {
        lemma_count_absent(s.drop_first(), v);
    }
}

pub proof fn lemma_count_len(s: Seq<u32>, v: u32)
    ensures
        count(s, v) <= s.len(),
    decreases s.len(),
{
    if s.len() > 0 {
        lemma_count_len(s.drop_first(), v);
    }
}

/// Two sorted sequences with the same multiplicities are equal.
pub proof fn lemma_sorted_unique(a: Seq<u32>, b: Seq<u32>)
    requires
        is_sorted(a),
        is_sorted(b),
        forall|v: u32| #[trigger] count(a, v) == count(b, v),
    ensures
        a == b,
    decreases a.len(),
{
    if a.len() == 0 {
        if b.len() > 0 {
            assert(count(b, b[0]) > 0);
            assert(count(a, b[0]) == 0);
        }
        assert(a =~= b);
    } else {
        assert(count(a, a[0]) > 0);
        assert(count(b, a[0]) > 0);
        let j = lemma_count_positive(b, a[0]);
        assert(b.len() > 0);
        assert(count(b, b[0]) > 0);
        assert(count(a, b[0]) > 0);
        let k = lemma_count_positive(a, b[0]);
        assert(b[0] <= b[j]);
        assert(a[0] <= a[k]);
        assert(a[0] == b[0]);
        assert forall|v: u32| #[trigger] count(a.drop_first(), v) == count(b.drop_first(), v) by {
            assert(count(a, v) == count(b, v));
        }
        lemma_sorted_unique(a.drop_first(), b.drop_first());
        assert(a =~= seq![a[0]] + a.drop_first());
        assert(b =~= seq![b[0]] + b.drop_first());
    }
}

pub proof fn lemma_without_count(s: Seq<u32>, x: u32, v: u32)
    ensures
        count(without(s, x), v) == if v == x { 0 } else { count(s, v) },
    decreases s.len(),
{
    if s.len() > 0 {
        lemma_without_count(s.drop_first(), x, v);
        if s[0] != x {
            let w = seq![s[0]].add(without(s.drop_first(), x));
            assert(w.drop_first() =~= without(s.drop_first(), x));
        }
    }
}

pub proof fn lemma_without_len(s: Seq<u32>, x: u32)
    ensures
        without(s, x).len() + count(s, x) == s.len(),
    decreases s.len(),
{
    if s.len() > 0 {
        lemma_without_len(s.drop_first(), x);
    }
}

/// The value of a product splits into the power of one variable and the rest.
pub proof fn lemma_value_split(s: Seq<u32>, x: u32, sample: Seq<int>)
    ensures
        monomial_value(s, sample) == pow(sample[x as int], count(s, x)) * monomial_value(
            without(s, x),
            sample,
        ),
    decreases s.len(),
{
    if s.len() == 0 {
        assert(pow(sample[x as int], 0) == 1) by {
            reveal(pow);
        }
    } else {
        lemma_value_split(s.drop_first(), x, sample);
        let b = sample[x as int];
        let p = pow(b, count(s.drop_first(), x));
        let w = monomial_value(without(s.drop_first(), x), sample);
        let h = sample[s[0] as int];
        if s[0] == x {
            assert(pow(b, count(s, x)) == b * p) by {
                reveal(pow);
            }
            assert(h * (p * w) == (h * p) * w) by (nonlinear_arith);
        } else {
            let ws = seq![s[0]].add(without(s.drop_first(), x));
            assert(ws.drop_first() =~= without(s.drop_first(), x));
            assert(monomial_value(ws, sample) == h * w);
            assert(h * (p * w) == p * (h * w)) by (nonlinear_arith);
        }
    }
}

pub proof fn lemma_pow_binary(x: int, n: nat)
    requires
        x == 0 || x == 1,
        n >= 1,
    ensures
        pow(x, n) == x,
    decreases n,
{
    reveal(pow);
    if n > 1 {
        lemma_pow_binary(x, (n - 1) as nat);
    } else {
        assert(pow(x, 0) == 1);
    }
}

pub proof fn lemma_pow_spin(x: int, n: nat)
    requires
        x == 1 || x == -1,
    ensures
        pow(x, n) == pow(x, n % 2),
    decreases n,
{
    reveal(pow);
    if n >= 2 {
        lemma_pow_spin(x, (n - 2) as nat);
        assert(pow(x, n) == x * pow(x, (n - 1) as nat));
        assert(pow(x, (n - 1) as nat) == x * pow(x, (n - 2) as nat));
        assert(x * x == 1) by (nonlinear_arith)
            requires
                x == 1 || x == -1,
        ;
        assert(x * (x * pow(x, (n - 2) as nat)) == (x * x) * pow(x, (n - 2) as nat))
            by (nonlinear_arith);
        assert((n - 2) as nat % 2 == n % 2);
    }
}

/// The reduction rules agree with the arithmetic of the variable types: for every
/// sample that gives each variable a value of its type, a product and its reduced
/// form have the same value.
pub proof fn lemma_reduction_preserves_value(
    vars: Seq<u32>,
    vtypes: Seq<Vtype>,
    r: Seq<u32>,
    sample: Seq<int>,
)
    requires
        in_range(vars, vtypes.len()),
        reduces_counts(vars, vtypes, r),
        valid_sample(vtypes, sample),
    ensures
        monomial_value(r, sample) == monomial_value(vars, sample),
    decreases vars.len(),
{
    if vars.len() == 0 {
        if r.len() > 0 {
            assert(count(r, r[0]) > 0);
            assert(count(vars, r[0]) == 0);
        }
        assert(r.len() == 0);
    } else {
        let x = vars[0];
        let n = count(vars, x);
        assert(n > 0);
        let vs = without(vars, x);
        let rs = without(r, x);
        lemma_without_len(vars, x);
        assert forall|v: u32| #[trigger] count(rs, v) == reduced_count(
            count(vs, v),
            vtypes[v as int],
        ) by {
            lemma_without_count(vars, x, v);
            lemma_without_count(r, x, v);
            assert(count(r, v) == reduced_count(count(vars, v), vtypes[v as int]));
        }
        assert forall|i: int| 0 <= i < vs.len() implies (vs[i] as nat) < vtypes.len() by {
            lemma_without_count(vars, x, vs[i]);
            assert(count(vs, vs[i]) > 0) by {
                assert(vs[i] == vs[i]);
                if count(vs, vs[i]) == 0 {
                    lemma_count_in(vs, i);
                }
            }
            let k = lemma_count_positive(vars, vs[i]);
        }
        lemma_reduction_preserves_value(vs, vtypes, rs, sample);
        lemma_value_split(vars, x, sample);
        lemma_value_split(r, x, sample);
        let b = sample[x as int];
        let t = vtypes[x as int];
        assert(count(r, x) == reduced_count(n, t));
        assert(valid_value(t, b));
        assert(pow(b, n) == pow(b, reduced_count(n, t))) by {
            match t {
                Vtype::Binary => {
                    lemma_pow_binary(b, n);
                    lemma_pow_binary(b, 1);
                },
                Vtype::Spin => {
                    lemma_pow_spin(b, n);
                },
                _ => {},
            }
        }
    }
}

/// Two products whose multiplicities reduce alike have the same value wherever every
/// variable takes a value of its type.
pub proof fn lemma_same_reduced_value(p: Seq<u32>, q: Seq<u32>, vtypes: Seq<Vtype>, sample: Seq<int>)
    requires
        in_range(p, vtypes.len()),
        in_range(q, vtypes.len()),
        valid_sample(vtypes, sample),
        forall|v: u32|
            #[trigger] reduced_count(count(p, v), vtypes[v as int]) == reduced_count(
                count(q, v),
                vtypes[v as int],
            ),
    ensures
        monomial_value(p, sample) == monomial_value(q, sample),
    decreases p.len() + q.len(),
{
    if p.len() == 0 && q.len() == 0 {
    } else {
        let x = if p.len() > 0 {
            p[0]
        } else {
            q[0]
        };
        if p.len() > 0 {
            lemma_count_in(p, 0);
        } else {
            lemma_count_in(q, 0);
        }
        assert((x as nat) < vtypes.len());
        let ps = without(p, x);
        let qs = without(q, x);
        lemma_without_len(p, x);
        lemma_without_len(q, x);
        assert forall|v: u32|
            #[trigger] reduced_count(count(ps, v), vtypes[v as int]) == reduced_count(
                count(qs, v),
                vtypes[v as int],
            ) by {
            lemma_without_count(p, x, v);
            lemma_without_count(q, x, v);
            assert(reduced_count(count(p, v), vtypes[v as int]) == reduced_count(
                count(q, v),
                vtypes[v as int],
            ));
        }
        assert forall|i: int| 0 <= i < ps.len() implies (ps[i] as nat) < vtypes.len() by {
            lemma_count_in(ps, i);
            lemma_without_count(p, x, ps[i]);
            let k = lemma_count_positive(p, ps[i]);
        }
        assert forall|i: int| 0 <= i < qs.len() implies (qs[i] as nat) < vtypes.len() by {
            lemma_count_in(qs, i);
            lemma_without_count(q, x, qs[i]);
            let k = lemma_count_positive(q, qs[i]);
        }
        lemma_same_reduced_value(ps, qs, vtypes, sample);
        lemma_value_split(p, x, sample);
        lemma_value_split(q, x, sample);
        let b = sample[x as int];
        let t = vtypes[x as int];
        let n = count(p, x);
        let m = count(q, x);
        assert(reduced_count(n, t) == reduced_count(m, t));
        assert(valid_value(t, b));
        assert(pow(b, n) == pow(b, m)) by {
            match t {
                Vtype::Binary => {
                    if n > 0 {
                        lemma_pow_binary(b, n);
                        lemma_pow_binary(b, m);
                    }
                },
                Vtype::Spin => {
                    lemma_pow_spin(b, n);
                    lemma_pow_spin(b, m);
                },
                _ => {},
            }
        }
    }
}

pub proof fn lemma_count_in(s: Seq<u32>, i: int)
    requires
        0 <= i < s.len(),
    ensures
        count(s, s[i]) > 0,
    decreases s.len(),
{
    if i > 0 {
        lemma_count_in(s.drop_first(), i - 1);
    }
}

/// A sequence whose multiplicities are those of a sequence in range is in range.
pub proof fn lemma_counts_in_range(vars: Seq<u32>, vtypes: Seq<Vtype>, r: Seq<u32>)
    requires
        in_range(vars, vtypes.len()),
        reduces_counts(vars, vtypes, r),
    ensures
        in_range(r, vtypes.len()),
{
    assert forall|i: int| 0 <= i < r.len() implies (r[i] as nat) < vtypes.len() by {
        lemma_count_in(r, i);
        assert(count(r, r[i]) == reduced_count(count(vars, r[i]), vtypes[r[i] as int]));
        let k = lemma_count_positive(vars, r[i]);
    }
}

/// The canonical form of the product of the variables in `vars`.
pub open spec fn reduced(vars: Seq<u32>, vtypes: Seq<Vtype>) -> Seq<u32> {
    choose|r: Seq<u32>| is_reduction(vars, vtypes, r)
}

/// The canonical form is unique: any reduction of `vars` is `reduced(vars, vtypes)`.
pub proof fn lemma_reduction_unique(vars: Seq<u32>, vtypes: Seq<Vtype>, r: Seq<u32>)
    requires
        is_reduction(vars, vtypes, r),
    ensures
        r == reduced(vars, vtypes),
        is_reduction(vars, vtypes, reduced(vars, vtypes)),
{
    let c = reduced(vars, vtypes);
    assert(is_reduction(vars, vtypes, c));
    assert forall|v: u32| #[trigger] count(r, v) == count(c, v) by {
        assert(count(r, v) == reduced_count(count(vars, v), vtypes[v as int]));
        assert(count(c, v) == reduced_count(count(vars, v), vtypes[v as int]));
    }
    lemma_sorted_unique(r, c);
}

/// A product has one canonical form: once `r` is a reduction of `vars`, exactly the
/// sequences equal to `r` are.
pub proof fn lemma_reduction_iff(vars: Seq<u32>, vtypes: Seq<Vtype>, r: Seq<u32>)
    requires
        is_reduction(vars, vtypes, r),
    ensures
        forall|k: Seq<u32>| #[trigger] is_reduction(vars, vtypes, k) <==> k == r,
{
    lemma_reduction_unique(vars, vtypes, r);
    assert forall|k: Seq<u32>| #[trigger] is_reduction(vars, vtypes, k) implies k == r by {
        lemma_reduction_unique(vars, vtypes, k);
    }
}

/// A monomial in canonical form is its own reduction.
pub proof fn lemma_canonical_reduction(key: Seq<u32>, vtypes: Seq<Vtype>)
    requires
        is_canonical(key, vtypes),
    ensures
        forall|k: Seq<u32>| #[trigger] is_reduction(key, vtypes, k) <==> k == key,
{
    assert forall|v: u32| #[trigger] count(key, v) == reduced_count(count(key, v), vtypes[v as int]) by {
        if count(key, v) > 0 {
            let i = lemma_count_positive(key, v);
            assert((key[i] as nat) < vtypes.len());
        }
    }
    lemma_reduction_iff(key, vtypes, key);
}

/// The empty product reduces to the empty monomial only.
pub proof fn lemma_empty_reduction(vtypes: Seq<Vtype>)
    ensures
        forall|k: Seq<u32>| #[trigger] is_reduction(Seq::<u32>::empty(), vtypes, k) <==> k.len() == 0,
{
    let e = Seq::<u32>::empty();
    assert forall|v: u32| #[trigger] count(e, v) == reduced_count(count(e, v), vtypes[v as int]) by {}
    lemma_reduction_iff(e, vtypes, e);
    assert forall|k: Seq<u32>| #[trigger] is_reduction(e, vtypes, k) <==> k.len() == 0 by {
        if k.len() == 0 {
            assert(k =~= e);
        }
    }
}

/// A product of one variable reduces to that variable only.
pub proof fn lemma_single_reduction(x: u32, vtypes: Seq<Vtype>)
    ensures
        forall|k: Seq<u32>| #[trigger] is_reduction(seq![x], vtypes, k) <==> k == seq![x],
{
    assert forall|v: u32| #[trigger] count(seq![x], v) == reduced_count(count(seq![x], v), vtypes[v as int]) by {
        lemma_count_single(x, v);
    }
    lemma_reduction_iff(seq![x], vtypes, seq![x]);
}

/// A reduction is in canonical form.
pub proof fn lemma_reduction_canonical(vars: Seq<u32>, vtypes: Seq<Vtype>, r: Seq<u32>)
    requires
        is_reduction(vars, vtypes, r),
        in_range(vars, vtypes.len()),
    ensures
        is_canonical(r, vtypes),
{
    lemma_counts_in_range(vars, vtypes, r);
    assert forall|v: u32|
        (vtypes[v as int] == Vtype::Binary || vtypes[v as int] == Vtype::Spin) implies #[trigger] count(
        r,
        v,
    ) <= 1 by {
        assert(count(r, v) == reduced_count(count(vars, v), vtypes[v as int]));
    }
}

/// The value of a concatenation is the product of the values.
pub proof fn lemma_value_concat(a: Seq<u32>, b: Seq<u32>, sample: Seq<int>)
    ensures
        monomial_value(a + b, sample) == monomial_value(a, sample) * monomial_value(b, sample),
    decreases a.len(),
{
    if a.len() == 0 {
        assert(a + b =~= b);
    } else {
        assert((a + b).drop_first() =~= a.drop_first() + b);
        lemma_value_concat(a.drop_first(), b, sample);
        let h = sample[a[0] as int];
        let x = monomial_value(a.drop_first(), sample);
        let y = monomial_value(b, sample);
        assert(h * (x * y) == (h * x) * y) by (nonlinear_arith);
    }
}

/// Sorts the variable indices of a product.
pub(crate) fn sort_vars(vars: &Vec<u32>) -> (r: Vec<u32>)
    ensures
        is_sorted(r@),
        r.len() == vars.len(),
        forall|v: u32| #[trigger] count(r@, v) == count(vars@, v),
{
    let mut r: Vec<u32> = Vec::new();
    let n = vars.len();
    let mut i: usize = 0;
    while i < n
        invariant
            n == vars.len(),
            0 <= i <= n,
            r.len() == i,
            is_sorted(r@),
            forall|v: u32| #[trigger] count(r@, v) == count(vars@.take(i as int), v),
        decreases n - i,
    {
        let x = vars[i];
        let mut p: usize = 0;
        while p < r.len() && r[p] <= x
            invariant
                0 <= p <= r.len(),
                forall|k: int| 0 <= k < p ==> r@[k] <= x,
            decreases r.len() - p,
        {
            p = p + 1;
        }
        let ghost old_r = r@;
        r.insert(p, x);
        proof {
            assert forall|a: int, b: int| 0 <= a <= b < r@.len() implies r@[a] <= r@[b] by {
                if a < p && b == p {
                } else if a == p && b > p {
                    assert(old_r[b - 1] > x || !(p < old_r.len() && old_r[p as int] <= x));
                    assert(old_r[p as int] <= old_r[b - 1]);
                } else {
                }
            }
            assert(vars@.take(i + 1) =~= vars@.take(i as int).push(x));
            assert forall|v: u32| #[trigger] count(r@, v) == count(vars@.take(i + 1), v) by {
                lemma_count_insert(old_r, p as int, x, v);
                lemma_count_push(vars@.take(i as int), x, v);
            }
        }
        i = i + 1;
    }
    assert(vars@.take(n as int) =~= vars@);
    r
}

/// The occurrence counts of the variables of a product.
#[verifier::external_body]
pub struct Occurrences {
    map: hashbrown::HashMap<u32, usize>,
}

/// What the occurrence table maps: each variable to its count.
pub uninterp spec fn occurrences_contents(m: Occurrences) -> Map<u32, usize>;

impl Occurrences {
    /// `hashbrown::HashMap::new`: a table with no entry.
    #[verifier::external_body]
    pub fn new() -> (r: Occurrences)
        ensures
            occurrences_contents(r) =~= Map::empty(),
    {
        Occurrences { map: hashbrown::HashMap::new() }
    }

    /// `hashbrown::HashMap::get`: the count of `v`, if it has one.
    #[verifier::external_body]
    pub fn get(&self, v: u32) -> (r: Option<usize>)
        ensures
            r == (if occurrences_contents(*self).contains_key(v) {
                Some(occurrences_contents(*self)[v])
            } else {
                None::<usize>
            }),
    {
        self.map.get(&v).copied()
    }

    /// `hashbrown::HashMap::insert`: afterwards `v` has count `n`, every other variable
    /// as before.
    #[verifier::external_body]
    pub fn insert(&mut self, v: u32, n: usize)
        ensures
            occurrences_contents(*final(self)) == occurrences_contents(*old(self)).insert(v, n),
    {
        self.map.insert(v, n);
    }

    /// `hashbrown::HashMap::iter`: every entry of the table exactly once, in an order
    /// that the table chooses and that nothing here states.
    #[verifier::external_body]
    pub fn entries(&self) -> (r: Vec<(u32, usize)>)
        ensures
            forall|i: int|
                0 <= i < r.len() ==> occurrences_contents(*self).contains_key(#[trigger] r@[i].0)
                    && occurrences_contents(*self)[r@[i].0] == r@[i].1,
            forall|v: u32|
                occurrences_contents(*self).contains_key(v) ==> exists|i: int|
                    0 <= i < r.len() && #[trigger] r@[i].0 == v,
            forall|i: int, j: int| 0 <= i < j < r.len() ==> r@[i].0 != r@[j].0,
    {
        self.map.iter().map(|(v, n)| (*v, *n)).collect()
    }
}

/// The copies of `v` that the counted entries `e` put into a reduced product.
pub open spec fn entry_copies(e: Seq<(u32, usize)>, vtypes: Seq<Vtype>, v: u32) -> nat
    decreases e.len(),
{
    if e.len() == 0 {
        0
    } else {
        entry_copies(e.drop_last(), vtypes, v) + (if e.last().0 == v {
            reduced_count(e.last().1 as nat, vtypes[v as int])
        } else {
            0
        })
    }
}

/// With distinct variables in `e`, the copies of `v` are those of its one entry.
pub proof fn lemma_entry_copies(e: Seq<(u32, usize)>, vtypes: Seq<Vtype>, v: u32)
    requires
        forall|i: int, j: int| 0 <= i < j < e.len() ==> e[i].0 != e[j].0,
    ensures
        (forall|i: int| 0 <= i < e.len() ==> e[i].0 != v) ==> entry_copies(e, vtypes, v) == 0,
        forall|i: int|
            0 <= i < e.len() && #[trigger] e[i].0 == v ==> entry_copies(e, vtypes, v)
                == reduced_count(e[i].1 as nat, vtypes[v as int]),
    decreases e.len(),
{
    if e.len() > 0 {
        let p = e.drop_last();
        assert forall|i: int, j: int| 0 <= i < j < p.len() implies p[i].0 != p[j].0 by {
            assert(p[i] == e[i] && p[j] == e[j]);
        }
        lemma_entry_copies(p, vtypes, v);
        if e.last().0 == v {
            assert forall|i: int| 0 <= i < p.len() implies p[i].0 != v by {
                assert(p[i] == e[i]);
                assert(e[i].0 != e[e.len() - 1].0);
            }
        } else {
            assert forall|i: int| 0 <= i < e.len() && #[trigger] e[i].0 == v implies entry_copies(
                e,
                vtypes,
                v,
            ) == reduced_count(e[i].1 as nat, vtypes[v as int]) by {
                assert(i < e.len() - 1);
                assert(p[i] == e[i]);
            }
            assert((forall|i: int| 0 <= i < e.len() ==> e[i].0 != v) ==> (forall|i: int|
                0 <= i < p.len() ==> p[i].0 != v)) by {
                if forall|i: int| 0 <= i < e.len() ==> e[i].0 != v {
                    assert forall|i: int| 0 <= i < p.len() implies p[i].0 != v by {
                        assert(p[i] == e[i]);
                    }
                }
            }
        }
    }
}

/// A sequence with no more copies of any variable than another is no longer.
pub proof fn lemma_len_by_counts(r: Seq<u32>, s: Seq<u32>)
    requires
        forall|v: u32| #[trigger] count(r, v) <= count(s, v),
    ensures
        r.len() <= s.len(),
    decreases r.len(),
{
    if r.len() > 0 {
        let x = r.last();
        let rp = r.drop_last();
        assert(r =~= rp.push(x));
        lemma_count_push(rp, x, x);
        assert(count(s, x) > 0);
        let p = lemma_count_positive(s, x);
        let sp = s.remove(p);
        assert(s =~= sp.insert(p, x));
        assert forall|v: u32| #[trigger] count(rp, v) <= count(sp, v) by {
            lemma_count_push(rp, x, v);
            lemma_count_insert(sp, p, x, v);
        }
        lemma_len_by_counts(rp, sp);
    }
}

/// Reduces a product of variables to its canonical form, given the type of each
/// variable of the environment: the occurrences of each variable are counted, each
/// counted variable is kept as often as its type allows, and the result is sorted.
pub fn reduce_higher_order_vars(vars: &Vec<u32>, env: &Environment) -> (r: Vec<u32>)
    requires
        in_range(vars@, env.vtypes().len()),
    ensures
        is_reduction(vars@, env.vtypes(), r@),
        in_range(r@, env.vtypes().len()),
        r.len() <= vars.len(),
{
    let ghost vtypes = env.vtypes();
    let mut occurrences = Occurrences::new();
    let n = vars.len();
    let mut i: usize = 0;
    proof {
        assert(vars@.take(0) =~= Seq::<u32>::empty());
    }
    while i < n
        invariant
            n == vars.len(),
            0 <= i <= n,
            forall|v: u32|
                #[trigger] occurrences_contents(occurrences).contains_key(v) <==> count(
                    vars@.take(i as int),
                    v,
                ) > 0,
            forall|v: u32|
                occurrences_contents(occurrences).contains_key(v) ==> #[trigger] occurrences_contents(
                    occurrences,
                )[v] == count(vars@.take(i as int), v),
        decreases n - i,
    {
        let x = vars[i];
        let ghost before = occurrences_contents(occurrences);
        proof {
            assert(vars@.take(i + 1) =~= vars@.take(i as int).push(x));
            lemma_count_len(vars@.take(i as int), x);
        }
        match occurrences.get(x) {
            Some(c) => occurrences.insert(x, c + 1),
            None => occurrences.insert(x, 1),
        }
        proof {
            assert forall|v: u32|
                #[trigger] occurrences_contents(occurrences).contains_key(v) <==> count(
                    vars@.take(i + 1),
                    v,
                ) > 0 by {
                lemma_count_push(vars@.take(i as int), x, v);
            }
            assert forall|v: u32|
                occurrences_contents(occurrences).contains_key(v) implies #[trigger] occurrences_contents(
                    occurrences,
                )[v] == count(vars@.take(i + 1), v) by {
                lemma_count_push(vars@.take(i as int), x, v);
            }
        }
        i = i + 1;
    }
    proof {
        assert(vars@.take(n as int) =~= vars@);
    }
    let ghost counts = occurrences_contents(occurrences);
    let entries = occurrences.entries();
    let m = entries.len();
    let mut contribs: Vec<u32> = Vec::new();
    let mut j: usize = 0;
    proof {
        assert(entries@.take(0) =~= Seq::<(u32, usize)>::empty());
    }
    while j < m
        invariant
            m == entries.len(),
            0 <= j <= m,
            vtypes == env.vtypes(),
            in_range(vars@, vtypes.len()),
            forall|k: int|
                0 <= k < entries.len() ==> counts.contains_key(#[trigger] entries@[k].0)
                    && counts[entries@[k].0] == entries@[k].1,
            forall|v: u32| #[trigger] counts.contains_key(v) <==> count(vars@, v) > 0,
            forall|v: u32| counts.contains_key(v) ==> #[trigger] counts[v] == count(vars@, v),
            forall|v: u32| #[trigger] count(contribs@, v) == entry_copies(entries@.take(j as int), vtypes, v),
        decreases m - j,
    {
        let (idx, cnt) = entries[j];
        proof {
            assert(counts.contains_key(entries@[j as int].0));
            let k = lemma_count_positive(vars@, idx);
        }
        let vtype = env.get_vtype(idx);
        let copies: usize = match (cnt > 1, vtype) {
            // A binary variable times itself is itself.
            (true, Vtype::Binary) => 1,
            // A spin variable squares to one: an odd power leaves the variable.
            (true, Vtype::Spin) => cnt % 2,
            (true, _) => cnt,
            (false, _) => 1,
        };
        let ghost old_c = contribs@;
        let mut c: usize = 0;
        while c < copies
            invariant
                0 <= c <= copies,
                contribs@ =~= old_c + Seq::new(c as nat, |_k: int| idx),
            decreases copies - c,
        {
            contribs.push(idx);
            c = c + 1;
        }
        proof {
            let added = Seq::new(copies as nat, |_k: int| idx);
            assert(entries@.take(j + 1).drop_last() =~= entries@.take(j as int));
            assert(cnt as nat == count(vars@, idx));
            assert(copies as nat == reduced_count(cnt as nat, vtypes[idx as int]));
            assert forall|v: u32| #[trigger] count(contribs@, v) == entry_copies(
                entries@.take(j + 1),
                vtypes,
                v,
            ) by {
                lemma_count_concat(old_c, added, v);
                lemma_count_const(copies as nat, idx, v);
            }
        }
        j = j + 1;
    }
    proof {
        assert(entries@.take(m as int) =~= entries@);
        assert forall|v: u32| #[trigger] count(contribs@, v) == reduced_count(
            count(vars@, v),
            vtypes[v as int],
        ) by {
            lemma_entry_copies(entries@, vtypes, v);
            if counts.contains_key(v) {
                let k = choose|k: int| 0 <= k < entries.len() && #[trigger] entries@[k].0 == v;
                assert(entries@[k].0 == v);
            } else {
                assert forall|k: int| 0 <= k < entries.len() implies entries@[k].0 != v by {
                    assert(counts.contains_key(entries@[k].0));
                }
            }
        }
    }
    let r = sort_vars(&contribs);
    proof {
        lemma_counts_in_range(vars@, vtypes, r@);
        assert forall|v: u32| #[trigger] count(r@, v) <= count(vars@, v) by {
            assert(count(r@, v) == reduced_count(count(vars@, v), vtypes[v as int]));
        }
        lemma_len_by_counts(r@, vars@);
    }
    r
}

pub proof fn lemma_count_const(c: nat, v: u32, w: u32)
    ensures
        count(Seq::new(c, |_k: int| v), w) == if v == w { c } else { 0 },
    decreases c,
{
    if c > 0 {
        lemma_count_const((c - 1) as nat, v, w);
        assert(Seq::new(c, |_k: int| v).drop_first() =~= Seq::new((c - 1) as nat, |_k: int| v));
    }
}

pub proof fn lemma_count_const_seq(s: Seq<u32>, v: u32, w: u32)
    requires
        forall|k: int| 0 <= k < s.len() ==> s[k] == v,
    ensures
        count(s, w) == if v == w { s.len() } else { 0 },
    decreases s.len(),
{
    if s.len() > 0 {
        lemma_count_const_seq(s.drop_first(), v, w);
    }
}

} // verus!
