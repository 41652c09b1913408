use vstd::prelude::*;

verus! {

/// A scalar with the operations of a field.
///
/// Every operation is a function of its operands alone: the specification
/// function beside each method names its result, and an implementation has to
/// return exactly that value whenever it is called with the same operands.
/// Nothing else is asked: the operations may round, saturate or produce values
/// that fail `is_valid`.
///
/// For floating point this means that an implementation has to return one
/// and the same NaN wherever an operation has no number to return. An
/// implementation in code that is compiled but not verified has to supply the
/// specification functions too: each as the function that computes the value
/// it names.
pub trait FieldNumber: Sized {
    /// Whether the value is an ordinary number (for floating point: neither
    /// NaN nor infinite).
    spec fn valid(self) -> bool;

    /// Whether arithmetic on this type is free of rounding.
    spec fn exact() -> bool;

    /// The additive identity.
    spec fn zero_value() -> Self;

    /// The multiplicative identity.
    spec fn one_value() -> Self;

    /// What `plus` returns.
    spec fn sum(self, rhs: Self) -> Self;

    /// What `minus` returns.
    spec fn difference(self, rhs: Self) -> Self;

    /// What `times` returns.
    spec fn product(self, rhs: Self) -> Self;

    /// What `over` returns.
    spec fn quotient(self, rhs: Self) -> Self;

    /// Whether `self` is strictly less than `rhs`.
    spec fn below(self, rhs: Self) -> bool;

    fn is_valid(&self) -> (b: bool)
        ensures
            b == self.valid(),
    ;

    fn is_exact() -> (b: bool)
        ensures
            b == Self::exact(),
    ;

    fn zero() -> (r: Self)
        ensures
            r == Self::zero_value(),
    ;

    fn one() -> (r: Self)
        ensures
            r == Self::one_value(),
    ;

    fn plus(&self, rhs: &Self) -> (r: Self)
        ensures
            r == self.sum(*rhs),
    ;

    fn minus(&self, rhs: &Self) -> (r: Self)
        ensures
            r == self.difference(*rhs),
    ;

    fn times(&self, rhs: &Self) -> (r: Self)
        ensures
            r == self.product(*rhs),
    ;

    fn over(&self, rhs: &Self) -> (r: Self)
        ensures
            r == self.quotient(*rhs),
    ;

    fn less_than(&self, rhs: &Self) -> (b: bool)
        ensures
            b == self.below(*rhs),
    ;
}

/// A scalar that approximates the real numbers: it has square roots, absolute
/// values and a machine epsilon.
pub trait RealFieldNumber: FieldNumber {
    /// What `sqrt` returns.
    spec fn root(self) -> Self;

    /// What `abs` returns.
    spec fn magnitude(self) -> Self;

    /// What `max` returns.
    spec fn larger(self, rhs: Self) -> Self;

    /// The machine epsilon of the type.
    spec fn epsilon_value() -> Self;

    fn sqrt(&self) -> (r: Self)
        ensures
            r == self.root(),
    ;

    fn abs(&self) -> (r: Self)
        ensures
            r == self.magnitude(),
    ;

    fn max(&self, rhs: &Self) -> (r: Self)
        ensures
            r == self.larger(*rhs),
    ;

    fn epsilon() -> (r: Self)
        ensures
            r == Self::epsilon_value(),
    ;
}

/// The number two: one and one.
pub open spec fn two<F: FieldNumber>() -> F {
    F::one_value().sum(F::one_value())
}

/// The number three: two and one.
pub open spec fn three<F: FieldNumber>() -> F {
    two::<F>().sum(F::one_value())
}

} // verus!
