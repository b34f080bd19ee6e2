use vstd::prelude::*;

use crate::ir::Location;
use crate::severity::CatchTo;

verus! {

/// The validation failures that the catch pass reports.
#[derive(Clone, Debug)]
pub enum ValidationMessage {
    /// `@catch` inside an inline fragment on an abstract type without an alias.
    CatchWithinAbstractInlineFragment,
    /// `@catch` inside a fragment declared `@inline`.
    CatchWithinInlineDirective,
    /// `@catch` together with another directive on the field or an ancestor.
    CatchWithDisallowedDirective { directive_name: String },
    /// Two references to a field declare different `to` values.
    CatchToMismatch { field_name: String },
    /// One reference to a field is `@catch` and another is not.
    CatchFieldMismatch { field_name: String },
    /// A `@catch` child is present under one reference to its parent only.
    CatchFieldMissing { field_name: String },
    /// A `@catch` child is less severe than its `@catch` parent.
    CatchFieldInvalidNesting { suggested_action: CatchTo },
}

/// What a secondary location of a diagnostic explains.
#[derive(Clone, Copy, Debug, PartialEq, Eq, Structural)]
pub enum Note {
    /// "The fragment is annotated as @inline here."
    InlineDeclaredHere,
    /// "should be the same as the `to` declared here"
    SameAsDeclaredHere,
    /// "but not @catch here"
    NotCatchHere,
    /// "but is missing from"
    MissingFrom,
    /// "so that it can match its parent"
    MatchParent,
}

#[derive(Clone, Copy, Debug, PartialEq, Eq, Structural)]
pub struct Annotation {
    pub note: Note,
    pub location: Location,
}

#[derive(Debug)]
pub struct Diagnostic {
    pub message: ValidationMessage,
    pub location: Location,
    pub annotations: Vec<Annotation>,
}

/// A diagnostic as a value: message, primary location, annotations.
pub type Report = (ValidationMessage, Location, Seq<Annotation>);

impl Diagnostic {
    pub open spec fn report(&self) -> Report {
        (self.message, self.location, self.annotations@)
    }

    /// A diagnostic without annotations.
    pub fn error(message: ValidationMessage, location: Location) -> (r: Diagnostic)
        ensures
            r.report() == (message, location, Seq::<Annotation>::empty()),
    {
        Diagnostic { message, location, annotations: Vec::new() }
    }

    /// Adds a secondary location explaining the failure.
    pub fn annotate(self, note: Note, location: Location) -> (r: Diagnostic)
        ensures
            r.report() == (self.message, self.location, self.annotations@.push(
                Annotation { note, location },
            )),
    {
        let mut annotations = self.annotations;
        annotations.push(Annotation { note, location });
        Diagnostic { message: self.message, location: self.location, annotations }
    }
}

/// The reports of a list of diagnostics, in order.
pub open spec fn reports(ds: Seq<Diagnostic>) -> Seq<Report> {
    ds.map_values(|d: Diagnostic| d.report())
}

/// A report with one annotation.
pub open spec fn annotated(
    message: ValidationMessage,
    location: Location,
    note: Note,
    at: Location,
) -> Report {
    (message, location, seq![Annotation { note, location: at }])
}

} // verus!
