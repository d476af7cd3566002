//! Splitting an expression by the variables that its terms hold.
use vstd::prelude::*;

use crate::environment::{Environment, VarIndex, VarRef};
use crate::errors::DifferentEnvsErr;
use crate::expression::{
    lemma_terms_coeff_absent, terms_coeff, terms_value, Expression, Term,
};
use crate::monomial::is_canonical;
use crate::multiplication::lemma_terms_take_step;

verus! {

/// The indices of the variables of `vrefs`.
pub open spec fn vref_ids(vrefs: Seq<VarRef>) -> Seq<u32> {
    vrefs.map_values(|v: VarRef| v.id)
}

/// `key` holds one of the variables of `ids`.
pub open spec fn holds_any(key: Seq<u32>, ids: Seq<u32>) -> bool {
    exists|k: int| 0 <= k < key.len() && ids.contains(#[trigger] key[k])
}

/// `u` is a variable of a term of `ts` with non-zero bias that holds one of `ids`
/// (where `holding`) or none of them (otherwise).
pub open spec fn in_selected_term(ts: Seq<Term>, ids: Seq<u32>, holding: bool, u: u32) -> bool {
    exists|j: int|
        0 <= j < ts.len() && ts[j].bias != 0 && holds_any(ts[j].vars@, ids) == holding
            && #[trigger] ts[j].vars@.contains(u)
}

pub proof fn lemma_selected_step(ts: Seq<Term>, i: int, ids: Seq<u32>, holding: bool, u: u32)
    requires
        0 <= i < ts.len(),
    ensures
        in_selected_term(ts.take(i + 1), ids, holding, u) == (in_selected_term(ts.take(i), ids, holding, u)
            || (ts[i].bias != 0 && holds_any(ts[i].vars@, ids) == holding && ts[i].vars@.contains(u))),
{
    let a = ts.take(i);
    let b = ts.take(i + 1);
    if in_selected_term(b, ids, holding, u) {
        let j = choose|j: int|
            0 <= j < b.len() && b[j].bias != 0 && holds_any(b[j].vars@, ids) == holding
                && #[trigger] b[j].vars@.contains(u);
        if j < i {
            assert(a[j] == b[j]);
        }
    }
    if in_selected_term(a, ids, holding, u) {
        let j = choose|j: int|
            0 <= j < a.len() && a[j].bias != 0 && holds_any(a[j].vars@, ids) == holding
                && #[trigger] a[j].vars@.contains(u);
        assert(b[j] == a[j]);
    }
    if ts[i].bias != 0 && holds_any(ts[i].vars@, ids) == holding && ts[i].vars@.contains(u) {
        assert(b[i] == ts[i]);
    }
}

/// Whether `key` holds one of the variables of `vrefs`.
fn holds_any_of(key: &Vec<VarIndex>, vrefs: &Vec<VarRef>) -> (r: bool)
    ensures
        r == holds_any(key@, vref_ids(vrefs@)),
{
    let ghost ids = vref_ids(vrefs@);
    let mut k: usize = 0;
    while k < key.len()
        invariant
            0 <= k <= key.len(),
            ids == vref_ids(vrefs@),
            forall|a: int| 0 <= a < k ==> !ids.contains(#[trigger] key@[a]),
        decreases key.len() - k,
    {
        let mut j: usize = 0;
        while j < vrefs.len()
            invariant
                0 <= j <= vrefs.len(),
                0 <= k < key.len(),
                ids == vref_ids(vrefs@),
                forall|b: int| 0 <= b < j ==> ids[b] != key@[k as int],
            decreases vrefs.len() - j,
        {
            if vrefs[j].id == key[k] {
                proof {
                    assert(ids[j as int] == key@[k as int]);
                    assert(ids.contains(key@[k as int]));
                }
                return true;
            }
            j = j + 1;
        }
        proof {
            assert(!ids.contains(key@[k as int])) by {
                if ids.contains(key@[k as int]) {
                    let b = choose|b: int| 0 <= b < ids.len() && ids[b] == key@[k as int];
                    assert(ids[b] != key@[k as int]);
                }
            }
        }
        k = k + 1;
    }
    false
}

impl Expression {
    /// The terms that hold one of the variables of `vrefs`, and the offset with the
    /// other terms; an error when one of `vrefs` belongs to another environment. Terms
    /// whose bias is zero are left out of both.
    pub fn separate(&self, env: &Environment, vrefs: &Vec<VarRef>) -> (r: Result<
        (Expression, Expression),
        DifferentEnvsErr,
    >)
        requires
            self.belongs_to(env),
        ensures
            r is Err <==> exists|j: int| 0 <= j < vrefs@.len() && (#[trigger] vrefs@[j]).env_id != self.env_id,
            r matches Ok((left, right)) ==> {
                let ids = vref_ids(vrefs@);
                &&& left.belongs_to(env)
                &&& right.belongs_to(env)
                &&& forall|k: Seq<u32>| #[trigger] left.coeff(k) == if k.len() > 0 && holds_any(k, ids) {
                    self.coeff(k)
                } else {
                    0
                }
                &&& forall|k: Seq<u32>| #[trigger] right.coeff(k) == if k.len() > 0 && holds_any(k, ids) {
                    0
                } else {
                    self.coeff(k)
                }
                &&& forall|s: Seq<int>| #[trigger] left.value(s) + right.value(s) == self.value(s)
                &&& forall|u: u32| #[trigger] left.is_active(u) == in_selected_term(self.terms@, ids, true, u)
                &&& forall|u: u32| #[trigger] right.is_active(u) == in_selected_term(self.terms@, ids, false, u)
            },
    {
        let mut j: usize = 0;
        while j < vrefs.len()
            invariant
                0 <= j <= vrefs.len(),
                forall|a: int| 0 <= a < j ==> (#[trigger] vrefs@[a]).env_id == self.env_id,
            decreases vrefs.len() - j,
        {
            if vrefs[j].env_id != self.env_id {
                return Err(DifferentEnvsErr);
            }
            j = j + 1;
        }
        let ghost ids = vref_ids(vrefs@);
        let ghost ts = self.terms@;
        let mut left = Expression::empty(env.id);
        let mut right = Expression::simple(env.id, self.offset);
        proof {
            assert(ts.take(0) =~= Seq::<Term>::empty());
            assert forall|u: u32| #[trigger] left.is_active(u) == in_selected_term(ts.take(0), ids, true, u) by {}
            assert forall|u: u32| #[trigger] right.is_active(u) == in_selected_term(ts.take(0), ids, false, u) by {}
        }
        let mut i: usize = 0;
        while i < self.terms.len()
            invariant
                0 <= i <= self.terms.len(),
                ts == self.terms@,
                ids == vref_ids(vrefs@),
                self.belongs_to(env),
                left.belongs_to(env),
                right.belongs_to(env),
                right.offset == self.offset,
                left.offset == 0,
                forall|k: Seq<u32>| #[trigger] left.coeff(k) == if k.len() > 0 && holds_any(k, ids) {
                    terms_coeff(ts.take(i as int), k)
                } else {
                    0
                },
                forall|k: Seq<u32>| #[trigger] right.coeff(k) == if k.len() > 0 && holds_any(k, ids) {
                    0
                } else {
                    (if k.len() == 0 { self.offset as int } else { 0 }) + terms_coeff(ts.take(i as int), k)
                },
                forall|s: Seq<int>| #[trigger] left.value(s) + right.value(s) == self.offset + terms_value(
                    ts.take(i as int),
                    s,
                ),
                forall|u: u32| #[trigger] left.is_active(u) == in_selected_term(ts.take(i as int), ids, true, u),
                forall|u: u32| #[trigger] right.is_active(u) == in_selected_term(ts.take(i as int), ids, false, u),
            decreases self.terms.len() - i,
        {
            let ghost key = ts[i as int].vars@;
            let ghost b = ts[i as int].bias;
            let ghost lb = left;
            let ghost rb = right;
            proof {
                assert(ts.take(i + 1).drop_last() =~= ts.take(i as int));
                assert(ts.take(i + 1).last() == ts[i as int]);
                lemma_terms_take_step(ts, i as int, Seq::empty());
                assert forall|a: int| 0 <= a < ts.take(i as int).len() implies ts.take(i as int)[a].vars@ != key by {
                    assert(ts[a].vars@ != ts[i as int].vars@);
                }
                lemma_terms_coeff_absent(ts.take(i as int), key);
                assert(is_canonical(key, env.vtypes()));
                assert forall|u: u32| #[trigger] key.contains(u) implies self.is_active(u) by {
                    let k = choose|k: int| 0 <= k < key.len() && key[k] == u;
                    assert(self.is_active(ts[i as int].vars@[k]));
                }
            }
            let bias = self.terms[i].bias;
            if bias != 0 {
                let sel = holds_any_of(&self.terms[i].vars, vrefs);
                let k = self.terms[i].vars.clone();
                proof {
                    assert(k@ =~= key);
                }
                if sel {
                    left.add_variables(env, &k);
                    let ghost lm = left;
                    proof {
                        assert forall|a: int| 0 <= a < k@.len() implies left.is_active(#[trigger] k@[a]) by {
                            assert(k@.contains(k@[a]));
                        }
                    }
                    proof {
                        assert(lb.coeff(key) == 0);
                        assert(left.coeff(k@) == lb.coeff(k@));
                    }
                    left.add_term(env, k, bias);
                    proof {
                        assert forall|u: u32| #[trigger] left.is_active(u) == in_selected_term(ts.take(i + 1), ids, true, u) by {
                            lemma_selected_step(ts, i as int, ids, true, u);
                            assert(left.is_active(u) == lm.is_active(u));
                        }
                        assert forall|u: u32| #[trigger] right.is_active(u) == in_selected_term(ts.take(i + 1), ids, false, u) by {
                            lemma_selected_step(ts, i as int, ids, false, u);
                        }
                        assert forall|kk: Seq<u32>| #[trigger] left.coeff(kk) == if kk.len() > 0 && holds_any(kk, ids) {
                            terms_coeff(ts.take(i + 1), kk)
                        } else {
                            0
                        } by {
                            assert(lm.coeff(kk) == lb.coeff(kk));
                        }
                        assert forall|s: Seq<int>| #[trigger] left.value(s) + right.value(s) == self.offset + terms_value(
                            ts.take(i + 1),
                            s,
                        ) by {
                            assert(lm.value(s) == lb.value(s));
                            lemma_terms_take_step(ts, i as int, s);
                        }
                    }
                } else {
                    right.add_variables(env, &k);
                    let ghost rm = right;
                    proof {
                        assert forall|a: int| 0 <= a < k@.len() implies right.is_active(#[trigger] k@[a]) by {
                            assert(k@.contains(k@[a]));
                        }
                    }
                    proof {
                        assert(rb.coeff(key) == 0);
                        assert(right.coeff(k@) == rb.coeff(k@));
                    }
                    right.add_term(env, k, bias);
                    proof {
                        assert forall|u: u32| #[trigger] right.is_active(u) == in_selected_term(ts.take(i + 1), ids, false, u) by {
                            lemma_selected_step(ts, i as int, ids, false, u);
                            assert(right.is_active(u) == rm.is_active(u));
                        }
                        assert forall|u: u32| #[trigger] left.is_active(u) == in_selected_term(ts.take(i + 1), ids, true, u) by {
                            lemma_selected_step(ts, i as int, ids, true, u);
                        }
                        assert forall|kk: Seq<u32>| #[trigger] right.coeff(kk) == if kk.len() > 0 && holds_any(kk, ids) {
                            0
                        } else {
                            (if kk.len() == 0 { self.offset as int } else { 0 }) + terms_coeff(ts.take(i + 1), kk)
                        } by {
                            assert(rm.coeff(kk) == rb.coeff(kk));
                        }
                        assert forall|s: Seq<int>| #[trigger] left.value(s) + right.value(s) == self.offset + terms_value(
                            ts.take(i + 1),
                            s,
                        ) by {
                            assert(rm.value(s) == rb.value(s));
                            lemma_terms_take_step(ts, i as int, s);
                        }
                    }
                }
            } else {
                proof {
                    assert forall|u: u32| #[trigger] left.is_active(u) == in_selected_term(ts.take(i + 1), ids, true, u) by {
                        lemma_selected_step(ts, i as int, ids, true, u);
                    }
                    assert forall|u: u32| #[trigger] right.is_active(u) == in_selected_term(ts.take(i + 1), ids, false, u) by {
                        lemma_selected_step(ts, i as int, ids, false, u);
                    }
                    assert forall|s: Seq<int>| #[trigger] left.value(s) + right.value(s) == self.offset + terms_value(
                        ts.take(i + 1),
                        s,
                    ) by {
                        lemma_terms_take_step(ts, i as int, s);
                    }
                }
            }
            i = i + 1;
        }
        proof {
            assert(ts.take(ts.len() as int) =~= ts);
            lemma_terms_coeff_absent(ts, Seq::<u32>::empty());
            assert forall|k: Seq<u32>| #[trigger] left.coeff(k) == if k.len() > 0 && holds_any(k, ids) {
                self.coeff(k)
            } else {
                0
            } by {}
            assert forall|k: Seq<u32>| #[trigger] right.coeff(k) == if k.len() > 0 && holds_any(k, ids) {
                0
            } else {
                self.coeff(k)
            } by {
                if k.len() == 0 {
                    assert(k =~= Seq::<u32>::empty());
                }
            }
        }
        Ok((left, right))
    }
}

} // verus!
