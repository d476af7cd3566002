//! Constraints: an expression compared with a constant, under a name.
use vstd::prelude::*;
use vstd::string::*;

use crate::environment::{Environment, VarRef};
use crate::errors::{DifferentEnvsErr, IllegalConstraintNameErr};
use crate::evaluation::sample_values;
use crate::expression::{Bias, Expression};
use crate::monomial::valid_sample;
use crate::substitution::mentions;
use crate::text::{decimal, is_prefix, starts_with, to_decimal};
use crate::types::Comparator;

verus! {

/// What `char::is_alphabetic` answers for `c`.
pub uninterp spec fn alphabetic(c: char) -> bool;

/// `char::is_alphabetic`: whether `c` has the Unicode property Alphabetic. The
/// answer is named `alphabetic`; which characters have the property is not stated.
#[verifier::external_body]
fn is_alphabetic(c: char) -> (r: bool)
    ensures
        r == alphabetic(c),
{
    c.is_alphabetic()
}

/// What `str::to_lowercase` returns for a string with the characters `s`.
pub uninterp spec fn lowercase(s: Seq<char>) -> Seq<char>;

/// `str::to_lowercase`: the lowercase equivalent of `s` under the Unicode rules. The
/// result is named `lowercase`; what each character maps to is not stated.
#[verifier::external_body]
fn to_lowercase(s: &str) -> (r: String)
    ensures
        r@ == lowercase(s@),
{
    s.to_lowercase()
}

/// The name a constraint has until it is given one.
pub open spec fn placeholder_name() -> Seq<char> {
    "<NN>"@
}

/// A name that some file formats read as a number: it starts, in lower case, with
/// `inf` or `nan`.
pub open spec fn is_failable(name: Seq<char>) -> bool {
    is_prefix("inf"@, lowercase(name)) || is_prefix("nan"@, lowercase(name))
}

/// Why `name` cannot name a constraint, if it cannot.
pub open spec fn name_problem(name: Seq<char>) -> Option<Seq<char>> {
    if name.len() == 0 {
        Some("constraint names cannot be empty strings"@)
    } else if !alphabetic(name[0]) {
        Some("constraint names must start with an alphabetical character, is "@ + seq![name[0]])
    } else if is_failable(name) {
        Some("constraint names cannot start with one of 'inf, nan', is "@ + name)
    } else {
        None
    }
}

/// Whether `s` starts, in lower case, with `inf` or `nan`.
pub fn starts_with_failable(s: &str) -> (r: bool)
    ensures
        r == is_failable(s@),
{
    let lower = to_lowercase(s);
    starts_with(lower.as_str(), "inf") || starts_with(lower.as_str(), "nan")
}

/// An expression compared with a constant, under a name.
pub struct Constraint {
    /// The left-hand side.
    pub lhs: Expression,
    /// The right-hand side.
    pub rhs: Bias,
    /// How the left-hand side relates to the right-hand side.
    pub comparator: Comparator,
    /// The name of the constraint.
    pub name: String,
}

impl Constraint {
    /// The two constraints hold the same left-hand side, right-hand side, comparator
    /// and name.
    pub open spec fn same_content(&self, other: &Constraint) -> bool {
        &&& self.lhs.same_content(&other.lhs)
        &&& self.rhs == other.rhs
        &&& self.comparator == other.comparator
        &&& self.name@ == other.name@
    }

    /// The two constraints compare the same way with the same right-hand side, and
    /// their left-hand sides are equal.
    pub open spec fn equals(&self, other: &Constraint) -> bool {
        &&& self.comparator == other.comparator
        &&& self.rhs == other.rhs
        &&& self.lhs.equals(&other.lhs)
    }

    /// Whether the two constraints compare the same way with the same right-hand side
    /// and have equal left-hand sides; names take no part in the comparison.
    pub fn eq(&self, other: &Constraint) -> (r: bool)
        requires
            self.lhs.comparable(),
            other.lhs.comparable(),
        ensures
            r == self.equals(other),
    {
        self.comparator == other.comparator && self.rhs == other.rhs && self.lhs.eq(&other.lhs)
    }

    /// The two constraints have the same name, comparator and right-hand side, and
    /// left-hand sides of equal contents.
    pub open spec fn contents_equal(&self, other: &Constraint) -> bool {
        &&& self.lhs.contents_equal(&other.lhs)
        &&& self.rhs == other.rhs
        &&& self.comparator == other.comparator
        &&& self.name@ == other.name@
    }

    /// Whether the two constraints have the same name, comparator and right-hand side,
    /// and left-hand sides of equal contents, whatever their environments.
    pub fn is_equal_contents(&self, other: &Constraint) -> (r: bool)
        requires
            self.lhs.comparable(),
            other.lhs.comparable(),
        ensures
            r == self.contents_equal(other),
    {
        self.lhs.is_equal_contents(&other.lhs) && self.rhs == other.rhs && self.comparator
            == other.comparator && self.name == other.name
    }

    /// A copy of the constraint.
    pub fn copy(&self) -> (r: Constraint)
        ensures
            r.same_content(self),
            forall|vt| self.lhs.wf(vt) ==> r.lhs.wf(vt),
            forall|s: Seq<int>| #[trigger] r.lhs.value(s) == self.lhs.value(s),
            forall|u: u32| #[trigger] r.lhs.is_active(u) == self.lhs.is_active(u),
            r.lhs.abs_sum() == self.lhs.abs_sum(),
    {
        Constraint {
            lhs: self.lhs.copy(),
            rhs: self.rhs,
            comparator: self.comparator,
            name: self.name.clone(),
        }
    }

    /// A copy of the constraint whose left-hand side belongs to the environment of
    /// identity `env_id`.
    pub fn deep_clone(&self, env_id: crate::environment::EnvId) -> (r: Constraint)
        ensures
            r.lhs.env_id == env_id,
            r.lhs.same_but_env(&self.lhs),
            forall|vt| self.lhs.wf(vt) ==> r.lhs.wf(vt),
            forall|s: Seq<int>| #[trigger] r.lhs.value(s) == self.lhs.value(s),
            r.rhs == self.rhs,
            r.comparator == self.comparator,
            r.name@ == self.name@,
    {
        Constraint {
            lhs: self.lhs.deep_clone(env_id),
            rhs: self.rhs,
            comparator: self.comparator,
            name: self.name.clone(),
        }
    }

    /// Checks that `name`, where there is one, can name a constraint: it is not empty,
    /// starts with an alphabetic character and does not start with `inf` or `nan` in
    /// any case.
    pub fn validate_name(name: &Option<String>) -> (r: Result<(), IllegalConstraintNameErr>)
        ensures
            match name {
                None => r is Ok,
                Some(n) => match name_problem(n@) {
                    None => r is Ok,
                    Some(m) => r matches Err(e) && e.0@ == m,
                },
            },
    {
        match name {
            None => Ok(()),
            Some(n) => {
                let s = n.as_str();
                if s.unicode_len() == 0 {
                    return Err(
                        IllegalConstraintNameErr(
                            String::from_str("constraint names cannot be empty strings"),
                        ),
                    );
                }
                let first = s.get_char(0);
                if !is_alphabetic(first) {
                    let head = s.substring_char(0, 1);
                    proof {
                        assert(head@ =~= seq![first]);
                    }
                    return Err(
                        IllegalConstraintNameErr(
                            String::from_str(
                                "constraint names must start with an alphabetical character, is ",
                            ).concat(head),
                        ),
                    );
                }
                if starts_with_failable(s) {
                    return Err(
                        IllegalConstraintNameErr(
                            String::from_str(
                                "constraint names cannot start with one of 'inf, nan', is ",
                            ).concat(s),
                        ),
                    );
                }
                Ok(())
            },
        }
    }

    /// A constraint `lhs comparator rhs`, with the offset of `lhs` moved to the
    /// right-hand side; an error when `name` cannot name a constraint. Without a name
    /// the constraint gets the placeholder name.
    pub fn new(lhs: Expression, rhs: Bias, comparator: Comparator, name: Option<String>) -> (r:
        Result<Constraint, IllegalConstraintNameErr>)
        requires
            Bias::MIN <= rhs - lhs.offset <= Bias::MAX,
        ensures
            r is Err <==> (name matches Some(n) && name_problem(n@) is Some),
            r matches Err(e) ==> (name matches Some(n) && name_problem(n@) == Some(e.0@)),
            r matches Ok(c) ==> {
                &&& c.lhs.env_id == lhs.env_id
                &&& c.lhs.offset == 0
                &&& c.lhs.terms@ == lhs.terms@
                &&& c.lhs.active@ == lhs.active@
                &&& c.rhs == rhs - lhs.offset
                &&& c.comparator == comparator
                &&& c.name@ == match name {
                    Some(n) => n@,
                    None => placeholder_name(),
                }
            },
    {
        match Self::validate_name(&name) {
            Err(e) => {
                return Err(e);
            },
            Ok(()) => {},
        }
        let actual_rhs = rhs - lhs.offset;
        let mut lhs = lhs;
        lhs.offset = 0;
        let name = match name {
            Some(n) => n,
            None => String::from_str("<NN>"),
        };
        Ok(Constraint { lhs, rhs: actual_rhs, comparator, name })
    }

    /// Whether the constraint still has the placeholder name.
    pub fn has_placeholder_name(&self) -> (r: bool)
        ensures
            r == (self.name@ == placeholder_name()),
    {
        self.name == String::from_str("<NN>")
    }

    /// Names the constraint after its position: `c` followed by the position.
    pub fn set_name_for_idx(&mut self, idx: usize)
        ensures
            final(self).name@ == "c"@ + decimal(idx as nat),
            final(self).lhs == old(self).lhs,
            final(self).rhs == old(self).rhs,
            final(self).comparator == old(self).comparator,
    {
        self.name = String::from_str("c").concat(to_decimal(idx as u64).as_str());
    }

    /// Renames the constraint; an error, with the constraint unchanged, when `name`
    /// cannot name a constraint.
    pub fn set_name(&mut self, name: String) -> (r: Result<(), IllegalConstraintNameErr>)
        ensures
            r is Err <==> name_problem(name@) is Some,
            r matches Err(e) ==> name_problem(name@) == Some(e.0@),
            r is Err ==> final(self).name@ == old(self).name@,
            r is Ok ==> final(self).name@ == name@,
            final(self).lhs == old(self).lhs,
            final(self).rhs == old(self).rhs,
            final(self).comparator == old(self).comparator,
    {
        let candidate = Some(name);
        match Self::validate_name(&candidate) {
            Err(e) => Err(e),
            Ok(()) => {
                match candidate {
                    Some(n) => {
                        self.name = n;
                    },
                    None => {},
                }
                Ok(())
            },
        }
    }

    /// Whether the constraint holds when each variable `v` takes the value
    /// `sample[v]`.
    pub fn evaluate_sample(&self, sample: &Vec<i64>) -> (r: bool)
        requires
            self.lhs.vars_below(sample@.len()),
            self.lhs.eval_bound(sample_values(sample@)) <= Bias::MAX,
        ensures
            r == self.comparator.holds(self.lhs.value(sample_values(sample@)), self.rhs as int),
    {
        let v = self.lhs.evaluate_sample(sample);
        self.comparator.evaluate(v, self.rhs)
    }

    /// Replaces every occurrence of `target` in the left-hand side by `replacement`; an
    /// error, with the constraint unchanged, when either belongs to another environment.
    pub fn substitute(&mut self, env: &Environment, target: &VarRef, replacement: &Expression) -> (r:
        Result<(), DifferentEnvsErr>)
        requires
            old(self).lhs.belongs_to(env),
            target.env_id == old(self).lhs.env_id && replacement.env_id == old(self).lhs.env_id ==> {
                &&& replacement.belongs_to(env)
                &&& (target.id as nat) < env.len()
                &&& old(self).lhs.subst_bound(target.id, replacement.abs_sum()) <= Bias::MAX
            },
        ensures
            r is Err <==> (target.env_id != old(self).lhs.env_id || replacement.env_id != old(
                self,
            ).lhs.env_id),
            r is Err ==> *final(self) == *old(self),
            r is Ok ==> {
                &&& final(self).lhs.belongs_to(env)
                &&& forall|s: Seq<int>| valid_sample(env.vtypes(), s) ==> #[trigger] final(self).lhs.value(s)
                    == old(self).lhs.value(s.update(target.id as int, replacement.value(s)))
                &&& forall|u: u32| #[trigger] final(self).lhs.is_active(u) == ((old(self).lhs.is_active(u)
                    && u != target.id) || (mentions(old(self).lhs.terms@, target.id)
                    && replacement.is_active(u) && (u != target.id || crate::substitution::mentions(replacement.terms@, target.id))))
            },
            final(self).rhs == old(self).rhs,
            final(self).comparator == old(self).comparator,
            final(self).name == old(self).name,
    {
        match self.lhs.substitute(env, target, replacement) {
            Ok(e) => {
                self.lhs = e;
                Ok(())
            },
            Err(e) => Err(e),
        }
    }
}

} // verus!
