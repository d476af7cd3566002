//! Removing a variable from an environment: the variables after it move one place
//! forward, and expressions that do not use it are renumbered to match.
use vstd::prelude::*;

use crate::environment::{Environment, NameLookup, VarIndex, VarRef, Variable};
use crate::monomial::{count, in_range, is_canonical, is_sorted, lemma_count_in, lemma_count_positive, monomial_value};
use crate::types::Vtype;
use crate::expression::{terms_value, Expression, Term};

verus! {

/// The index in the old numbering of the variable with index `u` once variable `t` is
/// removed.
pub open spec fn lifted(u: int, t: int) -> int {
    if u < t {
        u
    } else {
        u + 1
    }
}

/// The index that variable `x` gets once variable `t` is removed.
pub open spec fn lowered(x: u32, t: u32) -> u32 {
    if x > t {
        (x - 1) as u32
    } else {
        x
    }
}

/// The monomial `key` renumbered once variable `t` is removed.
pub open spec fn lowered_key(key: Seq<u32>, t: u32) -> Seq<u32> {
    key.map_values(|x: u32| lowered(x, t))
}

pub proof fn lemma_lowered_first(key: Seq<u32>, t: u32)
    requires
        key.len() > 0,
    ensures
        lowered_key(key, t).drop_first() == lowered_key(key.drop_first(), t),
        lowered_key(key, t)[0] == lowered(key[0], t),
{
    assert(lowered_key(key, t).drop_first() =~= lowered_key(key.drop_first(), t));
}

/// Renumbering moves the multiplicity of the old index `w + 1` (or `w` below `t`) to
/// `w`.
pub proof fn lemma_lowered_count(key: Seq<u32>, t: u32, w: u32)
    requires
        !key.contains(t),
        w < u32::MAX,
    ensures
        count(lowered_key(key, t), w) == count(key, if w < t { w } else { (w + 1) as u32 }),
    decreases key.len(),
{
    if key.len() > 0 {
        lemma_lowered_first(key, t);
        assert(!key.drop_first().contains(t)) by {
            if key.drop_first().contains(t) {
                let j = choose|j: int| 0 <= j < key.drop_first().len() && key.drop_first()[j] == t;
                assert(key[j + 1] == t);
            }
        }
        assert(key[0] != t) by {
            assert(key.contains(key[0]));
        }
        lemma_lowered_count(key.drop_first(), t, w);
    }
}

/// Renumbering keeps a monomial sorted.
pub proof fn lemma_lowered_sorted(key: Seq<u32>, t: u32)
    requires
        is_sorted(key),
    ensures
        is_sorted(lowered_key(key, t)),
{
    let l = lowered_key(key, t);
    assert forall|i: int, j: int| 0 <= i <= j < l.len() implies l[i] <= l[j] by {
        assert(key[i] <= key[j]);
    }
}

/// Renumbering is one to one on monomials without `t`.
pub proof fn lemma_lowered_injective(a: Seq<u32>, b: Seq<u32>, t: u32)
    requires
        !a.contains(t),
        !b.contains(t),
        lowered_key(a, t) == lowered_key(b, t),
    ensures
        a == b,
{
    assert(a.len() == lowered_key(a, t).len());
    assert(b.len() == lowered_key(b, t).len());
    assert forall|i: int| 0 <= i < a.len() implies a[i] == b[i] by {
        assert(lowered_key(a, t)[i] == lowered_key(b, t)[i]);
        assert(lowered_key(a, t)[i] == lowered(a[i], t));
        assert(lowered_key(b, t)[i] == lowered(b[i], t));
        assert(a.contains(a[i]));
        assert(b.contains(b[i]));
        assert(a[i] != t && b[i] != t);
    }
    assert(a =~= b);
}

/// A monomial in canonical form without `t` stays canonical once `t` is removed.
pub proof fn lemma_lowered_canonical(key: Seq<u32>, vt: Seq<Vtype>, t: u32)
    requires
        is_canonical(key, vt),
        !key.contains(t),
        (t as int) < vt.len(),
        vt.len() <= u32::MAX,
    ensures
        is_canonical(lowered_key(key, t), vt.remove(t as int)),
{
    let l = lowered_key(key, t);
    let nv = vt.remove(t as int);
    vt.remove_ensures(t as int);
    lemma_lowered_sorted(key, t);
    assert forall|i: int| 0 <= i < l.len() implies (l[i] as nat) < nv.len() by {
        assert(key.contains(key[i]));
        assert((key[i] as nat) < vt.len());
    }
    assert forall|w: u32|
        (nv[w as int] == Vtype::Binary || nv[w as int] == Vtype::Spin) implies #[trigger] count(l, w) <= 1 by {
        if count(l, w) > 0 {
            let i = lemma_count_positive(l, w);
            assert((l[i] as nat) < nv.len());
            lemma_lowered_count(key, t, w);
            let x: u32 = if w < t { w } else { (w + 1) as u32 };
            assert(nv[w as int] == vt[x as int]);
            assert(count(key, x) <= 1);
        }
    }
}

/// The value of a renumbered monomial under the sample without the value of `t`.
pub proof fn lemma_lowered_value(key: Seq<u32>, t: u32, s: Seq<int>)
    requires
        !key.contains(t),
        (t as int) < s.len(),
        in_range(key, s.len()),
    ensures
        monomial_value(lowered_key(key, t), s.remove(t as int)) == monomial_value(key, s),
    decreases key.len(),
{
    if key.len() > 0 {
        lemma_lowered_first(key, t);
        s.remove_ensures(t as int);
        assert(key.contains(key[0]));
        assert(!key.drop_first().contains(t)) by {
            if key.drop_first().contains(t) {
                let j = choose|j: int| 0 <= j < key.drop_first().len() && key.drop_first()[j] == t;
                assert(key[j + 1] == t);
            }
        }
        assert(in_range(key.drop_first(), s.len())) by {
            assert forall|i: int| 0 <= i < key.drop_first().len() implies (key.drop_first()[i] as nat) < s.len() by {
                assert(key.drop_first()[i] == key[i + 1]);
            }
        }
        lemma_lowered_value(key.drop_first(), t, s);
        if key[0] > t {
            assert(s.remove(t as int)[key[0] - 1] == s[(key[0] - 1) + 1]);
        }
    }
}

/// Terms renumbered one by one have, under the sample without the value of `t`, the
/// value that the old terms have under the sample.
pub proof fn lemma_lowered_terms_value(rt: Seq<Term>, st: Seq<Term>, t: u32, s: Seq<int>)
    requires
        rt.len() == st.len(),
        (t as int) < s.len(),
        forall|i: int| 0 <= i < st.len() ==> !(#[trigger] st[i]).vars@.contains(t) && in_range(st[i].vars@, s.len()),
        forall|i: int| 0 <= i < rt.len() ==> (#[trigger] rt[i]).vars@ == lowered_key(st[i].vars@, t) && rt[i].bias
            == st[i].bias,
    ensures
        terms_value(rt, s.remove(t as int)) == terms_value(st, s),
    decreases st.len(),
{
    if st.len() > 0 {
        let n = st.len() - 1;
        assert(rt[n] == rt.last() && st[n] == st.last());
        lemma_lowered_value(st[n].vars@, t, s);
        assert forall|i: int| 0 <= i < st.drop_last().len() implies !(#[trigger] st.drop_last()[i]).vars@.contains(t)
            && in_range(st.drop_last()[i].vars@, s.len()) by {
            assert(st.drop_last()[i] == st[i]);
        }
        assert forall|i: int| 0 <= i < rt.drop_last().len() implies (#[trigger] rt.drop_last()[i]).vars@ == lowered_key(
            st.drop_last()[i].vars@,
            t,
        ) && rt.drop_last()[i].bias == st.drop_last()[i].bias by {
            assert(rt.drop_last()[i] == rt[i]);
            assert(st.drop_last()[i] == st[i]);
        }
        lemma_lowered_terms_value(rt.drop_last(), st.drop_last(), t, s);
    }
}

/// The monomial `key`, which does not hold `t`, renumbered once `t` is removed.
fn lower_key(key: &Vec<VarIndex>, t: VarIndex) -> (r: Vec<VarIndex>)
    ensures
        r@ == lowered_key(key@, t),
{
    let mut r: Vec<VarIndex> = Vec::new();
    let mut i: usize = 0;
    while i < key.len()
        invariant
            0 <= i <= key.len(),
            r@ == lowered_key(key@.take(i as int), t),
        decreases key.len() - i,
    {
        let x = key[i];
        let y = if x > t {
            x - 1
        } else {
            x
        };
        r.push(y);
        proof {
            assert(lowered_key(key@.take(i + 1), t) =~= lowered_key(key@.take(i as int), t).push(y));
        }
        i = i + 1;
    }
    proof {
        assert(key@.take(key.len() as int) =~= key@);
    }
    r
}

/// `r` is `e` renumbered once variable `t` is removed: the same environment identity
/// and offset, the activity marks without the one of `t`, and each term with its
/// monomial renumbered and its bias kept.
pub open spec fn renumbered(r: Expression, e: Expression, t: u32) -> bool {
    &&& r.env_id == e.env_id
    &&& r.offset == e.offset
    &&& r.active@ == if (t as int) < e.active@.len() {
        e.active@.remove(t as int)
    } else {
        e.active@
    }
    &&& r.terms@.len() == e.terms@.len()
    &&& forall|i: int| 0 <= i < r.terms@.len() ==> (#[trigger] r.terms@[i]).vars@ == lowered_key(
        e.terms@[i].vars@,
        t,
    ) && r.terms@[i].bias == e.terms@[i].bias
}

/// A renumbered expression marks the variable with the new index of `u` exactly where
/// the old one marks `u`.
pub proof fn lemma_renumbered_active(r: Expression, e: Expression, t: u32, u: u32)
    requires
        renumbered(r, e, t),
        u != t,
    ensures
        r.is_active(lowered(u, t)) == e.is_active(u),
{
    if (t as int) < e.active@.len() {
        e.active@.remove_ensures(t as int);
        if u > t && (u as int) < e.active@.len() {
            assert(r.active@[(u - 1) as int] == e.active@[(u - 1) + 1]);
        }
    }
}

impl Expression {
    /// The expression over the variables that remain once variable `t`, which it does
    /// not use, is removed from `env`: each variable after `t` takes the index one
    /// lower, and the offset and the biases stay.
    pub fn renumbered_without(&self, env: &Environment, t: VarIndex) -> (r: Expression)
        requires
            self.belongs_to(env),
            !self.is_active(t),
            (t as nat) < env.len(),
        ensures
            renumbered(r, *self, t),
            r.wf(env.vtypes().remove(t as int)),
            forall|s: Seq<int>| s.len() == env.len() ==> #[trigger] r.value(s.remove(t as int)) == self.value(s),
    {
        let ghost vt = env.vtypes();
        let ghost nvt = vt.remove(t as int);
        proof {
            vt.remove_ensures(t as int);
            assert(env.len() == env.varcount as nat);
            assert forall|i: int| 0 <= i < self.terms@.len() implies !(#[trigger] self.terms@[i]).vars@.contains(t) by {
                if self.terms@[i].vars@.contains(t) {
                    let k = choose|k: int| 0 <= k < self.terms@[i].vars@.len() && self.terms@[i].vars@[k] == t;
                    assert(self.is_active(self.terms@[i].vars@[k]));
                }
            }
        }
        let mut terms: Vec<Term> = Vec::new();
        let mut i: usize = 0;
        while i < self.terms.len()
            invariant
                0 <= i <= self.terms.len(),
                terms@.len() == i,
                forall|j: int| 0 <= j < i ==> (#[trigger] terms@[j]).vars@ == lowered_key(self.terms@[j].vars@, t)
                    && terms@[j].bias == self.terms@[j].bias,
            decreases self.terms.len() - i,
        {
            let k = lower_key(&self.terms[i].vars, t);
            let nt = Term { vars: k, bias: self.terms[i].bias };
            let ghost before = terms@;
            terms.push(nt);
            proof {
                assert forall|j: int| 0 <= j < i + 1 implies (#[trigger] terms@[j]).vars@ == lowered_key(
                    self.terms@[j].vars@,
                    t,
                ) && terms@[j].bias == self.terms@[j].bias by {
                    if j < i {
                        assert(terms@[j] == before[j]);
                    }
                }
            }
            i = i + 1;
        }
        let mut active: Vec<bool> = Vec::new();
        let mut a: usize = 0;
        while a < self.active.len()
            invariant
                0 <= a <= self.active.len(),
                active@ == if (t as int) < a {
                    self.active@.take(a as int).remove(t as int)
                } else {
                    self.active@.take(a as int)
                },
            decreases self.active.len() - a,
        {
            let ghost before = active@;
            if a != t as usize {
                active.push(self.active[a]);
            }
            proof {
                let p = self.active@.take(a + 1);
                assert(p =~= self.active@.take(a as int).push(self.active@[a as int]));
                if (t as int) < a {
                    assert(p.remove(t as int) =~= self.active@.take(a as int).remove(t as int).push(self.active@[a as int]));
                } else if (t as int) == a {
                    assert(p.remove(t as int) =~= self.active@.take(a as int));
                }
            }
            a = a + 1;
        }
        proof {
            assert(self.active@.take(self.active.len() as int) =~= self.active@);
        }
        let r = Expression { env_id: self.env_id, offset: self.offset, terms, active };
        proof {
            let st = self.terms@;
            let rt = r.terms@;
            assert forall|i: int| 0 <= i < rt.len() implies is_canonical(#[trigger] rt[i].vars@, nvt) && rt[i].vars@.len() > 0 by {
                assert(is_canonical(st[i].vars@, vt));
                lemma_lowered_canonical(st[i].vars@, vt, t);
            }
            assert forall|i: int, j: int| 0 <= i < j < rt.len() implies rt[i].vars@ != rt[j].vars@ by {
                if rt[i].vars@ == rt[j].vars@ {
                    lemma_lowered_injective(st[i].vars@, st[j].vars@, t);
                }
            }
            assert forall|i: int, k: int| 0 <= i < rt.len() && 0 <= k < rt[i].vars@.len() implies r.is_active(
                #[trigger] rt[i].vars@[k],
            ) by {
                let x = st[i].vars@[k];
                assert(self.is_active(x));
                assert(st[i].vars@.contains(x));
                assert(x != t);
                assert(rt[i].vars@[k] == lowered(x, t));
                if (t as int) < self.active@.len() {
                    self.active@.remove_ensures(t as int);
                    if x > t {
                        assert(r.active@[(x - 1) as int] == self.active@[(x - 1) + 1]);
                    }
                }
            }
            assert forall|s: Seq<int>| s.len() == env.len() implies #[trigger] r.value(s.remove(t as int)) == self.value(s) by {
                assert forall|i: int| 0 <= i < st.len() implies !(#[trigger] st[i]).vars@.contains(t) && in_range(
                    st[i].vars@,
                    s.len(),
                ) by {
                    assert(is_canonical(st[i].vars@, vt));
                }
                lemma_lowered_terms_value(rt, st, t, s);
            }
        }
        r
    }
}

impl Environment {
    /// Removes the variable `target`; the variables after it move one place forward.
    pub fn remove(&mut self, target: &VarRef)
        requires
            old(self).wf(),
            (target.id as nat) < old(self).len(),
        ensures
            final(self).wf(),
            final(self).id == old(self).id,
            final(self).names() == old(self).names().remove(target.id as int),
            final(self).vtypes() == old(self).vtypes().remove(target.id as int),
    {
        let ghost on = self.names();
        let ghost ov = self.vtypes();
        let ghost t = target.id as int;
        let ghost nn = on.remove(t);
        let ghost nv = ov.remove(t);
        proof {
            on.remove_ensures(t);
            ov.remove_ensures(t);
        }
        let skip = target.id as usize;
        proof {
            assert forall|a: int, b: int| 0 <= a < b < nn.len() implies nn[a] != nn[b] by {
                assert(on[lifted(a, t)] == nn[a]);
                assert(on[lifted(b, t)] == nn[b]);
            }
        }
        let mut variables: Vec<Variable> = Vec::new();
        let mut i: usize = 0;
        while i < self.variables.len()
            invariant
                0 <= i <= self.variables.len(),
                on == self.names(),
                ov == self.vtypes(),
                skip == t,
                0 <= t < on.len(),
                nn == on.remove(t),
                nv == ov.remove(t),
                nn.len() == on.len() - 1,
                nv.len() == ov.len() - 1,
                forall|k: int| 0 <= k < t ==> #[trigger] nn[k] == on[k] && nv[k] == ov[k],
                forall|k: int| t <= k < on.len() - 1 ==> #[trigger] nn[k] == on[k + 1] && nv[k] == ov[k + 1],
                variables@.len() == if i <= t { i as int } else { i - 1 },
                forall|k: int| 0 <= k < variables@.len() ==> (#[trigger] variables@[k]).name@ == nn[k]
                    && variables@[k].vtype == nv[k],
            decreases self.variables.len() - i,
        {
            if i != skip {
                let ghost before = variables@;
                let name = self.variables[i].name.clone();
                let vtype = self.variables[i].vtype;
                proof {
                    assert(name@ == on[i as int]);
                    assert(vtype == ov[i as int]);
                    if i < t {
                        assert(nn[i as int] == on[i as int] && nv[i as int] == ov[i as int]);
                    } else {
                        assert(nn[i - 1] == on[(i - 1) + 1] && nv[i - 1] == ov[(i - 1) + 1]);
                    }
                }
                let ghost nvar = Variable { name, vtype };
                variables.push(Variable { name, vtype });
                proof {
                    assert(variables@[before.len() as int] == nvar);
                    assert forall|k: int| 0 <= k < variables@.len() implies #[trigger] variables@[k].name@
                        == nn[k] && variables@[k].vtype == nv[k] by {
                        if k < before.len() {
                            assert(variables@[k] == before[k]);
                        } else {
                            assert(k == before.len());
                            assert(variables@[k].name@ == name@);
                            assert(variables@[k].vtype == vtype);
                            assert(name@ == nn[k]);
                            assert(vtype == nv[k]);
                        }
                    }
                }
            }
            i = i + 1;
        }
        let mut lookup = NameLookup::new();
        let mut j: usize = 0;
        while j < variables.len()
            invariant
                0 <= j <= variables.len(),
                nn.len() == variables@.len(),
                nn.len() <= VarIndex::MAX,
                nv.len() == variables@.len(),
                forall|k: int| 0 <= k < variables@.len() ==> (#[trigger] variables@[k]).vtype == nv[k],
                forall|k: int| 0 <= k < variables@.len() ==> (#[trigger] variables@[k]).name@ == nn[k],
                forall|a: int, b: int| 0 <= a < b < nn.len() ==> nn[a] != nn[b],
                forall|k: int| 0 <= k < j ==> #[trigger] lookup.view().contains_key(nn[k]) && lookup.view()[nn[k]] == k,
                forall|n: Seq<char>| #[trigger] lookup.view().contains_key(n) ==> {
                    let k = lookup.view()[n] as int;
                    0 <= k < j && nn[k] == n
                },
            decreases variables.len() - j,
        {
            let name = variables[j].name.clone();
            let ghost before = lookup.view();
            proof {
                assert(name@ == nn[j as int]);
            }
            lookup.insert(name, j as VarIndex);
            proof {
                assert(lookup.view() == before.insert(nn[j as int], j as VarIndex));
                assert forall|k: int| 0 <= k < j + 1 implies #[trigger] lookup.view().contains_key(nn[k])
                    && lookup.view()[nn[k]] == k by {
                    if k < j {
                        assert(nn[k] != nn[j as int]);
                    }
                }
                assert forall|n: Seq<char>| #[trigger] lookup.view().contains_key(n) implies {
                    let k = lookup.view()[n] as int;
                    0 <= k < j + 1 && nn[k] == n
                } by {
                    if n != nn[j as int] {
                        assert(before.contains_key(n));
                    }
                }
            }
            j = j + 1;
        }
        let n = variables.len();
        self.variables = variables;
        self.variables_lookup = lookup;
        self.varcount = n as VarIndex;
        proof {
            assert(self.names() =~= nn);
            assert forall|k: int| 0 <= k < nv.len() implies self.vtypes()[k] == nv[k] by {
                assert(self.variables@[k].vtype == nv[k]);
            }
            assert(self.vtypes() =~= nv);
        }
    }
}

} // verus!
