//! The order in which monomials are listed: by degree first, then lexicographically by
//! their variables.
use vstd::prelude::*;

use crate::environment::VarIndex;

verus! {

/// `a` comes before `b` in lexicographic order.
pub open spec fn lex_lt(a: Seq<u32>, b: Seq<u32>) -> bool
    decreases a.len(),
{
    if a.len() == 0 {
        b.len() > 0
    } else if b.len() == 0 {
        false
    } else if a[0] != b[0] {
        a[0] < b[0]
    } else {
        lex_lt(a.drop_first(), b.drop_first())
    }
}

/// Monomial `a` is listed before monomial `b`: it has fewer variables, or as many and
/// comes first lexicographically.
pub open spec fn key_lt(a: Seq<u32>, b: Seq<u32>) -> bool {
    a.len() < b.len() || (a.len() == b.len() && lex_lt(a, b))
}

/// The monomials of the entries are listed in strictly increasing order.
pub open spec fn keys_sorted<B>(s: Seq<(Seq<u32>, B)>) -> bool {
    forall|a: int, b: int| 0 <= a < b < s.len() ==> key_lt(#[trigger] s[a].0, #[trigger] s[b].0)
}

pub proof fn lemma_lex_trans(a: Seq<u32>, b: Seq<u32>, c: Seq<u32>)
    requires
        lex_lt(a, b),
        lex_lt(b, c),
    ensures
        lex_lt(a, c),
    decreases a.len(),
{
    if a.len() > 0 && b.len() > 0 && c.len() > 0 && a[0] == b[0] && b[0] == c[0] {
        lemma_lex_trans(a.drop_first(), b.drop_first(), c.drop_first());
    }
}

pub proof fn lemma_lex_asym(a: Seq<u32>, b: Seq<u32>)
    ensures
        !(lex_lt(a, b) && lex_lt(b, a)),
    decreases a.len(),
{
    if a.len() > 0 && b.len() > 0 && a[0] == b[0] {
        lemma_lex_asym(a.drop_first(), b.drop_first());
    }
}

pub proof fn lemma_lex_total(a: Seq<u32>, b: Seq<u32>)
    requires
        a != b,
    ensures
        lex_lt(a, b) || lex_lt(b, a),
    decreases a.len(),
{
    if a.len() == 0 {
        assert(b.len() > 0) by {
            if b.len() == 0 {
                assert(a =~= b);
            }
        }
    } else if b.len() > 0 && a[0] == b[0] {
        assert(a =~= seq![a[0]] + a.drop_first());
        assert(b =~= seq![b[0]] + b.drop_first());
        lemma_lex_total(a.drop_first(), b.drop_first());
    }
}

/// The listing order is a strict total order on monomials.
pub proof fn lemma_key_order(a: Seq<u32>, b: Seq<u32>, c: Seq<u32>)
    ensures
        key_lt(a, b) && key_lt(b, c) ==> key_lt(a, c),
        !(key_lt(a, b) && key_lt(b, a)),
        a != b ==> key_lt(a, b) || key_lt(b, a),
{
    if key_lt(a, b) && key_lt(b, c) && a.len() == c.len() {
        lemma_lex_trans(a, b, c);
    }
    lemma_lex_asym(a, b);
    if a != b && a.len() == b.len() {
        lemma_lex_total(a, b);
    }
}

/// Whether monomial `a` is listed before monomial `b`.
pub fn key_before(a: &Vec<VarIndex>, b: &Vec<VarIndex>) -> (r: bool)
    ensures
        r == key_lt(a@, b@),
{
    if a.len() != b.len() {
        return a.len() < b.len();
    }
    let n = a.len();
    let mut i: usize = 0;
    proof {
        assert(a@.skip(0) =~= a@);
        assert(b@.skip(0) =~= b@);
    }
    while i < n
        invariant
            n == a.len(),
            n == b.len(),
            0 <= i <= n,
            lex_lt(a@, b@) == lex_lt(a@.skip(i as int), b@.skip(i as int)),
        decreases n - i,
    {
        proof {
            assert(a@.skip(i as int).drop_first() =~= a@.skip(i + 1));
            assert(b@.skip(i as int).drop_first() =~= b@.skip(i + 1));
        }
        if a[i] != b[i] {
            return a[i] < b[i];
        }
        i = i + 1;
    }
    proof {
        assert(a@.skip(n as int).len() == 0);
    }
    false
}

} // verus!
