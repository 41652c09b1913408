use vstd::prelude::*;
use vstd::string::StringExecFns;

verus! {

/// What can go wrong in a geometric computation.
#[derive(Debug)]
pub enum GeometryError {
    /// No point was supplied.
    InputIsEmpty,
    /// Fewer points were supplied than the operation needs.
    InputHasTooFewPoints,
    /// A coordinate failed the validity check of its scalar type.
    InputValueInvalidForField,
    /// The exact predicates of a kernel contradicted one another; the text
    /// names the check that noticed it.
    ExactPredicateReturnedConflictingResult(String),
    /// The geometry is degenerate where a proper one is needed.
    DegenerateGeometry,
    /// The geometry is not convex where a convex one is needed.
    NotConvexGeometry,
}

impl GeometryError {
    /// The error reports contradicting exact predicates, with this text to
    /// name the check that noticed it.
    pub open spec fn is_conflict(&self, details: Seq<char>) -> bool {
        match self {
            GeometryError::ExactPredicateReturnedConflictingResult(text) => text@ == details,
            _ => false,
        }
    }

    /// The text that `message` returns for this error.
    pub open spec fn message_text(&self) -> Seq<char> {
        match self {
            GeometryError::InputValueInvalidForField =>
                "Input contains an invalid value (Most likely NaN or infinite value)"@,
            GeometryError::ExactPredicateReturnedConflictingResult(details) =>
                "Exact predicate evaluation returned conflicting results. Details: "@ + details@,
            GeometryError::InputIsEmpty => "Input is empty. Expected at least one element."@,
            GeometryError::InputHasTooFewPoints =>
                "Input has too few points for this operation."@,
            GeometryError::DegenerateGeometry =>
                "The geometry is degenerate and cannot be processed."@,
            GeometryError::NotConvexGeometry =>
                "The geometry is not convex, which is required for this operation."@,
        }
    }

    /// A description of the error for a human reader.
    pub fn message(&self) -> (text: String)
        ensures
            text@ == self.message_text(),
    {
        match self {
            GeometryError::InputValueInvalidForField => String::from_str(
                "Input contains an invalid value (Most likely NaN or infinite value)",
            ),
            GeometryError::ExactPredicateReturnedConflictingResult(details) => String::from_str(
                "Exact predicate evaluation returned conflicting results. Details: ",
            ).concat(details.as_str()),
            GeometryError::InputIsEmpty => String::from_str(
                "Input is empty. Expected at least one element.",
            ),
            GeometryError::InputHasTooFewPoints => String::from_str(
                "Input has too few points for this operation.",
            ),
            GeometryError::DegenerateGeometry => String::from_str(
                "The geometry is degenerate and cannot be processed.",
            ),
            GeometryError::NotConvexGeometry => String::from_str(
                "The geometry is not convex, which is required for this operation.",
            ),
        }
    }
}

} // verus!
