use vstd::prelude::*;

use crate::severity::CatchTo;

verus! {

/// A span in a source file.
#[derive(Clone, Copy, Debug, PartialEq, Eq, Structural, Hash)]
pub struct Location {
    pub source: u32,
    pub start: u32,
    pub end: u32,
}

impl Location {
    pub fn new(source: u32, start: u32, end: u32) -> (r: Location)
        ensures
            r == (Location { source, start, end }),
    {
        Location { source, start, end }
    }
}

/// A name together with the place where it was written.
#[derive(Clone, Debug)]
pub struct Named {
    pub item: String,
    pub location: Location,
}

/// A constant argument value.
#[derive(Clone, Debug)]
pub enum ConstantValue {
    Enum(String),
    String(String),
    Int(i64),
    Boolean(bool),
    Null,
}

/// An argument value: a constant or a reference to a variable.
#[derive(Clone, Debug)]
pub enum Value {
    Constant(ConstantValue),
    Variable(String),
}

#[derive(Clone, Debug)]
pub struct Argument {
    pub name: Named,
    pub value: Value,
    pub value_location: Location,
}

/// Data that the catch pass leaves on each `@catch` field for later stages.
#[derive(Clone, Debug)]
pub struct CatchMetadataDirective {
    pub to: CatchTo,
    pub path: String,
}

#[derive(Clone, Debug)]
pub struct Directive {
    pub name: Named,
    pub arguments: Vec<Argument>,
    pub data: Option<CatchMetadataDirective>,
}

#[derive(Clone, Debug)]
pub struct ScalarField {
    pub alias: Option<Named>,
    pub definition: Named,
    pub directives: Vec<Directive>,
}

#[derive(Debug)]
pub struct LinkedField {
    pub alias: Option<Named>,
    pub definition: Named,
    pub directives: Vec<Directive>,
    pub selections: Vec<Selection>,
}

/// The type condition of an inline fragment.
#[derive(Clone, Debug)]
pub struct TypeCondition {
    pub name: String,
    pub is_abstract: bool,
}

#[derive(Debug)]
pub struct InlineFragment {
    pub type_condition: Option<TypeCondition>,
    /// The name given to the fragment with `@alias`, if any.
    pub alias: Option<Named>,
    pub directives: Vec<Directive>,
    pub selections: Vec<Selection>,
}

#[derive(Clone, Debug)]
pub struct FragmentSpread {
    pub fragment: Named,
    pub directives: Vec<Directive>,
}

#[derive(Debug)]
pub enum Selection {
    ScalarField(ScalarField),
    LinkedField(LinkedField),
    InlineFragment(InlineFragment),
    FragmentSpread(FragmentSpread),
}

#[derive(Debug)]
pub struct FragmentDefinition {
    pub name: Named,
    pub directives: Vec<Directive>,
    pub selections: Vec<Selection>,
}

#[derive(Debug)]
pub struct OperationDefinition {
    pub name: Named,
    pub directives: Vec<Directive>,
    pub selections: Vec<Selection>,
}

#[derive(Debug)]
pub struct Program {
    pub operations: Vec<OperationDefinition>,
    pub fragments: Vec<FragmentDefinition>,
}

impl Named {
    pub fn duplicate(&self) -> (r: Named)
        ensures
            r == *self,
    {
        Named { item: self.item.clone(), location: self.location }
    }
}

impl ScalarField {
    /// The alias if there is one, else the field's name.
    pub open spec fn spec_alias_or_name(&self) -> Named {
        match self.alias {
            Some(a) => a,
            None => self.definition,
        }
    }

    pub fn alias_or_name(&self) -> (r: Named)
        ensures
            r == self.spec_alias_or_name(),
    {
        match &self.alias {
            Some(a) => a.duplicate(),
            None => self.definition.duplicate(),
        }
    }
}

impl LinkedField {
    /// The alias if there is one, else the field's name.
    pub open spec fn spec_alias_or_name(&self) -> Named {
        match self.alias {
            Some(a) => a,
            None => self.definition,
        }
    }

    pub fn alias_or_name(&self) -> (r: Named)
        ensures
            r == self.spec_alias_or_name(),
    {
        match &self.alias {
            Some(a) => a.duplicate(),
            None => self.definition.duplicate(),
        }
    }
}

} // verus!
