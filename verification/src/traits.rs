use vstd::prelude::*;

verus! {

/// The numbers a formula computes with.
///
/// An implementation supplies the arithmetic, the comparisons that `MIN` and
/// `MAX` use, and the reading of a numeric literal.  Each arithmetic
/// operation and comparison is tied to a spec function, so that the
/// contracts of the evaluator can speak of the results exactly, whatever the
/// concrete number type is.  In a build without verification the spec
/// functions are ordinary methods: an implementation gives each the result
/// of the operation it stands for.
pub trait NumberLike: Sized + Copy {
    spec fn spec_plus(self, rhs: Self) -> Self;

    spec fn spec_minus(self, rhs: Self) -> Self;

    spec fn spec_times(self, rhs: Self) -> Self;

    spec fn spec_divide(self, rhs: Self) -> Self;

    spec fn spec_negate(self) -> Self;

    /// `self` compares as strictly smaller than `rhs`.
    spec fn spec_less_than(self, rhs: Self) -> bool;

    /// `self` compares as strictly greater than `rhs`.
    spec fn spec_greater_than(self, rhs: Self) -> bool;

    fn plus(self, rhs: Self) -> (r: Self)
        ensures
            r == self.spec_plus(rhs),
    ;

    fn minus(self, rhs: Self) -> (r: Self)
        ensures
            r == self.spec_minus(rhs),
    ;

    fn times(self, rhs: Self) -> (r: Self)
        ensures
            r == self.spec_times(rhs),
    ;

    fn divide(self, rhs: Self) -> (r: Self)
        ensures
            r == self.spec_divide(rhs),
    ;

    fn negate(self) -> (r: Self)
        ensures
            r == self.spec_negate(),
    ;

    fn less_than(&self, rhs: &Self) -> (r: bool)
        ensures
            r == self.spec_less_than(*rhs),
    ;

    fn greater_than(&self, rhs: &Self) -> (r: bool)
        ensures
            r == self.spec_greater_than(*rhs),
    ;

    /// What reading the literal `text` gives: the number, or the text that
    /// says why the literal is refused.
    spec fn spec_parse_number(text: &[char]) -> Result<Self, String>;

    /// Reads a numeric literal of a formula.  Which literals a type
    /// accepts, and as what, is the type's own business.
    fn parse_number(text: &[char]) -> (r: Result<Self, String>)
        ensures
            r == Self::spec_parse_number(text),
    ;
}

/// Hands out the stream of values of a component, by its id.
///
/// `None` means that the component is not known.
pub trait MetricStreamFetcher<T, S>: Sized {
    /// The fetcher after it was asked for `id`, and its answer.
    spec fn spec_fetch(self, id: usize) -> (Self, Option<S>);

    fn from_component_id(&mut self, id: usize) -> (r: Option<S>)
        ensures
            (*final(self), r) == old(self).spec_fetch(id),
    ;
}

} // verus!
