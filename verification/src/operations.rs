//! Results of operations on expressions, and the operator traits through which
//! expressions combine with constants.
use vstd::prelude::*;

use crate::errors::{UnsupportedOperationErr, VariablesFromDifferentEnvsErr};
use crate::constant::{constant_times_expression, Constant};
use crate::expression::{abs, lemma_terms_abs_nonneg, Bias, Expression};

verus! {

/// The result of an operation that may fail.
pub enum AqResult<T, E> {
    /// The operation failed with this error.
    Failure(E),
    /// The operation succeeded with this value.
    Success(T),
}

impl<T, E> AqResult<T, E> {
    /// The same outcome as a `Result`.
    pub fn into_result(self) -> (r: Result<T, E>)
        ensures
            match self {
                AqResult::Success(t) => r == Ok::<T, E>(t),
                AqResult::Failure(e) => r == Err::<T, E>(e),
            },
    {
        match self {
            AqResult::Success(elem) => Ok(elem),
            AqResult::Failure(err) => Err(err),
        }
    }

    /// The value of a successful outcome.
    pub fn expect(self, msg: &str) -> (r: T)
        requires
            self is Success,
        ensures
            self matches AqResult::Success(t) && r == t,
    {
        match self {
            AqResult::Success(t) => t,
            AqResult::Failure(_) => vstd::pervasive::unreached(),
        }
    }
}

impl<T, E> From<Result<T, E>> for AqResult<T, E> {
    fn from(value: Result<T, E>) -> (r: Self) {
        match value {
            Err(err) => AqResult::Failure(err),
            Ok(val) => AqResult::Success(val),
        }
    }
}

impl<T, E> vstd::std_specs::convert::FromSpecImpl<Result<T, E>> for AqResult<T, E> {
    open spec fn obeys_from_spec() -> bool {
        true
    }

    open spec fn from_spec(v: Result<T, E>) -> Self {
        match v {
            Err(err) => AqResult::Failure(err),
            Ok(val) => AqResult::Success(val),
        }
    }
}

/// Why an operation on expressions failed.
#[derive(Debug)]
pub enum OperationErr {
    VariablesFromDifferentEnvs(VariablesFromDifferentEnvsErr),
    UnsupportedOperation(UnsupportedOperationErr),
}

impl From<VariablesFromDifferentEnvsErr> for OperationErr {
    fn from(value: VariablesFromDifferentEnvsErr) -> (r: Self) {
        OperationErr::VariablesFromDifferentEnvs(value)
    }
}

impl vstd::std_specs::convert::FromSpecImpl<VariablesFromDifferentEnvsErr> for OperationErr {
    open spec fn obeys_from_spec() -> bool {
        true
    }

    open spec fn from_spec(v: VariablesFromDifferentEnvsErr) -> Self {
        OperationErr::VariablesFromDifferentEnvs(v)
    }
}

impl From<UnsupportedOperationErr> for OperationErr {
    fn from(value: UnsupportedOperationErr) -> (r: Self) {
        OperationErr::UnsupportedOperation(value)
    }
}

impl vstd::std_specs::convert::FromSpecImpl<UnsupportedOperationErr> for OperationErr {
    open spec fn obeys_from_spec() -> bool {
        true
    }

    open spec fn from_spec(v: UnsupportedOperationErr) -> Self {
        OperationErr::UnsupportedOperation(v)
    }
}

/// The multiplicative unit of a bias type.
pub trait One: Sized {
    fn one() -> Self;
}

impl One for Bias {
    fn one() -> (r: Self)
        ensures
            r == 1,
    {
        1
    }
}

impl One for i8 {
    fn one() -> (r: Self)
        ensures
            r == 1,
    {
        1
    }
}

impl One for u8 {
    fn one() -> (r: Self)
        ensures
            r == 1,
    {
        1
    }
}

/// `self + rhs` as an expression.
pub trait AddToExpression<Rhs>: Sized {
    type Output;

    /// The operands for which the sum can be formed.
    spec fn add_allowed(self, rhs: Rhs) -> bool;

    /// `out` is the sum.
    spec fn is_sum(self, rhs: Rhs, out: Self::Output) -> bool;

    fn add(self, rhs: Rhs) -> (r: Self::Output)
        requires
            self.add_allowed(rhs),
        ensures
            self.is_sum(rhs, r),
    ;
}

impl<'a> AddToExpression<Bias> for &'a Expression {
    type Output = Expression;

    open spec fn add_allowed(self, rhs: Bias) -> bool {
        self.abs_sum() + abs(rhs as int) <= Bias::MAX
    }

    open spec fn is_sum(self, rhs: Bias, out: Expression) -> bool {
        &&& out.env_id == self.env_id
        &&& forall|vt| self.wf(vt) ==> out.wf(vt)
        &&& forall|u: u32| #[trigger] out.is_active(u) == self.is_active(u)
        &&& forall|s: Seq<int>| #[trigger] out.value(s) == self.value(s) + rhs
    }

    fn add(self, rhs: Bias) -> (r: Expression) {
        self.add_constant(rhs)
    }
}

/// `self - rhs` as an expression.
pub trait SubToExpression<Rhs>: Sized {
    type Output;

    /// The operands for which the difference can be formed.
    spec fn sub_allowed(self, rhs: Rhs) -> bool;

    /// `out` is the difference.
    spec fn is_difference(self, rhs: Rhs, out: Self::Output) -> bool;

    fn sub(self, rhs: Rhs) -> (r: Self::Output)
        requires
            self.sub_allowed(rhs),
        ensures
            self.is_difference(rhs, r),
    ;
}

impl<'a> SubToExpression<Bias> for &'a Expression {
    type Output = Expression;

    open spec fn sub_allowed(self, rhs: Bias) -> bool {
        self.abs_sum() + abs(rhs as int) <= Bias::MAX
    }

    open spec fn is_difference(self, rhs: Bias, out: Expression) -> bool {
        &&& out.env_id == self.env_id
        &&& forall|vt| self.wf(vt) ==> out.wf(vt)
        &&& forall|u: u32| #[trigger] out.is_active(u) == self.is_active(u)
        &&& forall|s: Seq<int>| #[trigger] out.value(s) == self.value(s) - rhs
    }

    fn sub(self, rhs: Bias) -> (r: Expression) {
        proof {
            lemma_terms_abs_nonneg(self.terms@);
        }
        self.add_constant(-rhs)
    }
}

/// `rhs - self` as an expression.
pub trait RSubToExpression<Rhs>: Sized {
    type Output;

    /// The operands for which the difference can be formed.
    spec fn rsub_allowed(self, rhs: Rhs) -> bool;

    /// `out` is `rhs` minus `self`.
    spec fn is_reverse_difference(self, rhs: Rhs, out: Self::Output) -> bool;

    fn rsub(self, rhs: Rhs) -> (r: Self::Output)
        requires
            self.rsub_allowed(rhs),
        ensures
            self.is_reverse_difference(rhs, r),
    ;
}

impl<'a> RSubToExpression<Bias> for &'a Expression {
    type Output = Expression;

    open spec fn rsub_allowed(self, rhs: Bias) -> bool {
        self.abs_sum() + abs(rhs as int) <= Bias::MAX
    }

    open spec fn is_reverse_difference(self, rhs: Bias, out: Expression) -> bool {
        &&& out.env_id == self.env_id
        &&& forall|vt| self.wf(vt) ==> out.wf(vt)
        &&& forall|u: u32| #[trigger] out.is_active(u) == self.is_active(u)
        &&& forall|s: Seq<int>| #[trigger] out.value(s) == rhs - self.value(s)
    }

    fn rsub(self, rhs: Bias) -> (r: Expression) {
        proof {
            lemma_terms_abs_nonneg(self.terms@);
        }
        proof {
            self.lemma_negatable();
        }
        let n = self.negated();
        n.add_constant(rhs)
    }
}

/// `self * rhs` as an expression.
pub trait MulToExpression<Rhs>: Sized {
    type Output;

    /// The operands for which the product can be formed.
    spec fn mul_allowed(self, rhs: Rhs) -> bool;

    /// `out` is the product.
    spec fn is_product(self, rhs: Rhs, out: Self::Output) -> bool;

    fn mul(self, rhs: Rhs) -> (r: Self::Output)
        requires
            self.mul_allowed(rhs),
        ensures
            self.is_product(rhs, r),
    ;
}

impl<'a> MulToExpression<Bias> for &'a Expression {
    type Output = Expression;

    open spec fn mul_allowed(self, rhs: Bias) -> bool {
        abs(rhs as int) * self.abs_sum() <= Bias::MAX
    }

    open spec fn is_product(self, rhs: Bias, out: Expression) -> bool {
        &&& out.env_id == self.env_id
        &&& forall|vt| self.wf(vt) ==> out.wf(vt)
        &&& forall|u: u32| #[trigger] out.is_active(u) == self.is_active(u)
        &&& forall|k: Seq<u32>| #[trigger] out.coeff(k) == rhs * self.coeff(k)
        &&& forall|s: Seq<int>| #[trigger] out.value(s) == rhs * self.value(s)
    }

    fn mul(self, rhs: Bias) -> (r: Expression) {
        constant_times_expression(&Constant::new(rhs), self)
    }
}

/// `-self` as an expression.
pub trait NegToExpression: Sized {
    type Output;

    /// The operands that can be negated.
    spec fn neg_allowed(self) -> bool;

    /// `out` is the negation.
    spec fn is_negation(self, out: Self::Output) -> bool;

    fn neg(self) -> (r: Self::Output)
        requires
            self.neg_allowed(),
        ensures
            self.is_negation(r),
    ;
}

impl<'a> NegToExpression for &'a Expression {
    type Output = Expression;

    open spec fn neg_allowed(self) -> bool {
        self.negatable()
    }

    open spec fn is_negation(self, out: Expression) -> bool {
        &&& out.env_id == self.env_id
        &&& forall|vt| self.wf(vt) ==> out.wf(vt)
        &&& forall|u: u32| #[trigger] out.is_active(u) == self.is_active(u)
        &&& forall|k: Seq<u32>| #[trigger] out.coeff(k) == -self.coeff(k)
        &&& forall|s: Seq<int>| #[trigger] out.value(s) == -self.value(s)
    }

    fn neg(self) -> (r: Expression) {
        Expression::negate(self)
    }
}

/// `self += rhs`.
pub trait AddAssignToExpression<Rhs>: Sized {
    type Output;

    /// The operands for which the sum can be formed.
    spec fn add_assign_allowed(self, rhs: Rhs) -> bool;

    /// `new` is the sum, and `out` what the operation reports.
    spec fn is_sum_assigned(self, rhs: Rhs, new: Self, out: Self::Output) -> bool;

    fn add_assign(&mut self, rhs: Rhs) -> (r: Self::Output)
        requires
            old(self).add_assign_allowed(rhs),
        ensures
            old(self).is_sum_assigned(rhs, *final(self), r),
    ;
}

impl AddAssignToExpression<Bias> for Expression {
    type Output = ();

    open spec fn add_assign_allowed(self, rhs: Bias) -> bool {
        self.abs_sum() + abs(rhs as int) <= Bias::MAX
    }

    open spec fn is_sum_assigned(self, rhs: Bias, new: Expression, out: ()) -> bool {
        &&& new.env_id == self.env_id
        &&& new.terms@ == self.terms@
        &&& new.active@ == self.active@
        &&& new.offset == self.offset + rhs
    }

    fn add_assign(&mut self, rhs: Bias) -> (r: ()) {
        self.add_offset(rhs);
    }
}

/// `self -= rhs`.
pub trait SubAssignToExpression<Rhs>: Sized {
    type Output;

    /// The operands for which the difference can be formed.
    spec fn sub_assign_allowed(self, rhs: Rhs) -> bool;

    /// `new` is the difference, and `out` what the operation reports.
    spec fn is_difference_assigned(self, rhs: Rhs, new: Self, out: Self::Output) -> bool;

    fn sub_assign(&mut self, rhs: Rhs) -> (r: Self::Output)
        requires
            old(self).sub_assign_allowed(rhs),
        ensures
            old(self).is_difference_assigned(rhs, *final(self), r),
    ;
}

impl SubAssignToExpression<Bias> for Expression {
    type Output = ();

    open spec fn sub_assign_allowed(self, rhs: Bias) -> bool {
        self.abs_sum() + abs(rhs as int) <= Bias::MAX
    }

    open spec fn is_difference_assigned(self, rhs: Bias, new: Expression, out: ()) -> bool {
        &&& new.env_id == self.env_id
        &&& new.terms@ == self.terms@
        &&& new.active@ == self.active@
        &&& new.offset == self.offset - rhs
    }

    fn sub_assign(&mut self, rhs: Bias) -> (r: ()) {
        proof {
            lemma_terms_abs_nonneg(self.terms@);
        }
        self.add_offset(-rhs);
    }
}

/// `self *= rhs`.
pub trait MulAssignToExpression<Rhs>: Sized {
    type Output;

    /// The operands for which the product can be formed.
    spec fn mul_assign_allowed(self, rhs: Rhs) -> bool;

    /// `new` is the product, and `out` what the operation reports.
    spec fn is_product_assigned(self, rhs: Rhs, new: Self, out: Self::Output) -> bool;

    fn mul_assign(&mut self, rhs: Rhs) -> (r: Self::Output)
        requires
            old(self).mul_assign_allowed(rhs),
        ensures
            old(self).is_product_assigned(rhs, *final(self), r),
    ;
}

impl MulAssignToExpression<Bias> for Expression {
    type Output = ();

    open spec fn mul_assign_allowed(self, rhs: Bias) -> bool {
        abs(rhs as int) * self.abs_sum() <= Bias::MAX
    }

    open spec fn is_product_assigned(self, rhs: Bias, new: Expression, out: ()) -> bool {
        &&& new.env_id == self.env_id
        &&& forall|vt| self.wf(vt) ==> new.wf(vt)
        &&& forall|u: u32| #[trigger] new.is_active(u) == self.is_active(u)
        &&& forall|k: Seq<u32>| #[trigger] new.coeff(k) == rhs * self.coeff(k)
        &&& forall|s: Seq<int>| #[trigger] new.value(s) == rhs * self.value(s)
    }

    fn mul_assign(&mut self, rhs: Bias) -> (r: ()) {
        *self = constant_times_expression(&Constant::new(rhs), self);
    }
}

} // verus!
