use vstd::prelude::*;
use vstd::string::*;

verus! {

/// The domain of a variable.
#[derive(Debug, Clone, Copy, PartialEq, Eq, Hash, Structural)]
pub enum Vtype {
    /// A real valued variable.
    Real,
    /// An integer valued variable.
    Integer,
    /// A variable taking the values 0 and 1.
    Binary,
    /// A variable taking the values -1 and +1.
    Spin,
}

/// Binary and spin variables collapse when multiplied with themselves.
pub open spec fn is_binary_or_spin(t: Vtype) -> bool {
    t == Vtype::Binary || t == Vtype::Spin
}

/// How the left-hand side of a constraint relates to its right-hand side.
#[derive(Debug, Clone, Copy, PartialEq, Eq, Hash, Structural)]
pub enum Comparator {
    /// The left-hand side equals the right-hand side.
    Eq,
    /// The left-hand side is at most the right-hand side.
    Le,
    /// The left-hand side is at least the right-hand side.
    Ge,
}

impl Comparator {
    /// The relation between `lhs` and `rhs` holds.
    pub open spec fn holds(self, lhs: int, rhs: int) -> bool {
        match self {
            Comparator::Eq => lhs == rhs,
            Comparator::Le => lhs <= rhs,
            Comparator::Ge => lhs >= rhs,
        }
    }

    /// Whether `lhs` and `rhs` are in the relation.
    pub fn evaluate(&self, lhs: i64, rhs: i64) -> (r: bool)
        ensures
            r == self.holds(lhs as int, rhs as int),
            *self == Comparator::Eq ==> (r <==> lhs == rhs),
            *self == Comparator::Le ==> (r <==> lhs <= rhs),
            *self == Comparator::Ge ==> (r <==> lhs >= rhs),
    {
        match self {
            Comparator::Eq => lhs == rhs,
            Comparator::Le => lhs <= rhs,
            Comparator::Ge => lhs >= rhs,
        }
    }

    /// The symbol of the relation.
    pub fn symbol(&self) -> (r: String)
        ensures
            r@ == match self {
                Comparator::Eq => "=="@,
                Comparator::Le => "<="@,
                Comparator::Ge => ">="@,
            },
    {
        match self {
            Comparator::Eq => String::from_str("=="),
            Comparator::Le => String::from_str("<="),
            Comparator::Ge => String::from_str(">="),
        }
    }
}

/// The direction of optimization.
#[derive(Debug, Clone, Copy, PartialEq, Eq, Hash, Structural)]
pub enum Sense {
    /// The objective is minimized.
    Min,
    /// The objective is maximized.
    Max,
}

impl Sense {
    /// Whether the objective is minimized.
    pub fn is_min(&self) -> (r: bool)
        ensures
            r == (*self == Sense::Min),
    {
        match self {
            Sense::Min => true,
            Sense::Max => false,
        }
    }

    /// The full name of the sense.
    pub fn get_value(&self) -> (r: String)
        ensures
            r@ == match self {
                Sense::Min => "Minimize"@,
                Sense::Max => "Maximize"@,
            },
    {
        match self {
            Sense::Min => String::from_str("Minimize"),
            Sense::Max => String::from_str("Maximize"),
        }
    }

    /// The short name of the sense.
    pub fn get_name(&self) -> (r: String)
        ensures
            r@ == match self {
                Sense::Min => "Min"@,
                Sense::Max => "Max"@,
            },
    {
        match self {
            Sense::Min => String::from_str("Min"),
            Sense::Max => String::from_str("Max"),
        }
    }
}

impl Default for Sense {
    fn default() -> (r: Self)
        ensures
            r == Sense::Min,
    {
        Sense::Min
    }
}

} // verus!
