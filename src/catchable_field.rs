use vstd::prelude::*;
use vstd::string::*;

use crate::ir::{Argument, ConstantValue, Directive, LinkedField, Location, Named, ScalarField, Value};
use crate::severity::{CatchTo, NULL_TO, RESULT_TO};

verus! {

/// Name of the annotation directive.
pub const CATCH_DIRECTIVE_NAME: &'static str = "catch";

/// Name of the severity argument of `@catch`.
pub const TO_ARGUMENT: &'static str = "to";

/// What a `@catch` annotation on one field occurrence declares.
#[derive(Clone, Copy, Debug, PartialEq, Eq, Structural)]
pub struct CatchMetadata {
    pub to: CatchTo,
    pub directive_location: Location,
    pub to_location: Location,
}

/// `i` is the position of the first directive called `name`.
pub open spec fn is_first_directive_named(dirs: Seq<Directive>, name: Seq<char>, i: int) -> bool {
    &&& 0 <= i < dirs.len()
    &&& dirs[i].name.item@ == name
    &&& forall|k: int| 0 <= k < i ==> dirs[k].name.item@ != name
}

/// Position of the first directive called `name`, if any.
pub open spec fn first_directive_named(dirs: Seq<Directive>, name: Seq<char>) -> Option<int> {
    if exists|i: int| is_first_directive_named(dirs, name, i) {
        Some(choose|i: int| is_first_directive_named(dirs, name, i))
    } else {
        None
    }
}

/// `i` is the position of the first argument called `name`.
pub open spec fn is_first_argument_named(args: Seq<Argument>, name: Seq<char>, i: int) -> bool {
    &&& 0 <= i < args.len()
    &&& args[i].name.item@ == name
    &&& forall|k: int| 0 <= k < i ==> args[k].name.item@ != name
}

/// Position of the first argument called `name`, if any.
pub open spec fn first_argument_named(args: Seq<Argument>, name: Seq<char>) -> Option<int> {
    if exists|i: int| is_first_argument_named(args, name, i) {
        Some(choose|i: int| is_first_argument_named(args, name, i))
    } else {
        None
    }
}

/// The severity that a `to` value denotes.
pub open spec fn to_of_value(v: Value) -> CatchTo {
    match v {
        Value::Constant(ConstantValue::Enum(s)) => if s@ == NULL_TO@ {
            CatchTo::Null
        } else {
            CatchTo::Result
        },
        _ => CatchTo::Result,
    }
}

/// A `to` value is one of the two severity names.
pub open spec fn is_valid_to_value(v: Value) -> bool {
    match v {
        Value::Constant(ConstantValue::Enum(s)) => s@ == RESULT_TO@ || s@ == NULL_TO@,
        _ => false,
    }
}

/// A `@catch` directive whose `to` argument, if given, names a severity.
pub open spec fn catch_arguments_valid(d: Directive) -> bool {
    match first_argument_named(d.arguments@, TO_ARGUMENT@) {
        Some(j) => is_valid_to_value(d.arguments@[j].value),
        None => true,
    }
}

/// Every `@catch` directive in the list has a well-formed `to` argument.
pub open spec fn directives_valid(dirs: Seq<Directive>) -> bool {
    forall|i: int| 0 <= i < dirs.len() && #[trigger] dirs[i].name.item@ == CATCH_DIRECTIVE_NAME@
        ==> catch_arguments_valid(dirs[i])
}

/// What a `@catch` directive declares; without a `to` argument the severity
/// is the weakest one, located at the directive itself.
pub open spec fn metadata_of_catch(d: Directive) -> CatchMetadata {
    match first_argument_named(d.arguments@, TO_ARGUMENT@) {
        Some(j) => CatchMetadata {
            to: to_of_value(d.arguments@[j].value),
            directive_location: d.name.location,
            to_location: d.arguments@[j].value_location,
        },
        None => CatchMetadata {
            to: CatchTo::Result,
            directive_location: d.name.location,
            to_location: d.name.location,
        },
    }
}

/// The annotation that a field's directive list carries, if any.
pub open spec fn catch_metadata_of(dirs: Seq<Directive>) -> Option<CatchMetadata> {
    match first_directive_named(dirs, CATCH_DIRECTIVE_NAME@) {
        Some(i) => Some(metadata_of_catch(dirs[i])),
        None => None,
    }
}

/// Finds the first directive called `name`.
pub fn find_directive(dirs: &Vec<Directive>, name: &String) -> (r: Option<usize>)
    ensures
        match r {
            Some(i) => first_directive_named(dirs@, name@) == Some(i as int),
            None => first_directive_named(dirs@, name@) is None,
        },
{
    let mut i: usize = 0;
    while i < dirs.len()
        invariant
            0 <= i <= dirs.len(),
            forall|k: int| 0 <= k < i ==> dirs@[k].name.item@ != name@,
        decreases dirs.len() - i,
    {
        if dirs[i].name.item == *name {
            proof {
                assert(is_first_directive_named(dirs@, name@, i as int));
                let j = choose|j: int| is_first_directive_named(dirs@, name@, j);
                if j < i {
                    assert(dirs@[j].name.item@ != name@);
                } else if j > i {
                    assert(dirs@[i as int].name.item@ != name@);
                }
            }
            return Some(i);
        }
        i = i + 1;
    }
    proof {
        assert forall|j: int| !is_first_directive_named(dirs@, name@, j) by {
            if 0 <= j < dirs@.len() {
                assert(dirs@[j].name.item@ != name@);
            }
        }
    }
    None
}

/// Finds the first argument called `name`.
pub fn find_argument(args: &Vec<Argument>, name: &String) -> (r: Option<usize>)
    ensures
        match r {
            Some(i) => first_argument_named(args@, name@) == Some(i as int),
            None => first_argument_named(args@, name@) is None,
        },
{
    let mut i: usize = 0;
    while i < args.len()
        invariant
            0 <= i <= args.len(),
            forall|k: int| 0 <= k < i ==> args@[k].name.item@ != name@,
        decreases args.len() - i,
    {
        if args[i].name.item == *name {
            proof {
                assert(is_first_argument_named(args@, name@, i as int));
                let j = choose|j: int| is_first_argument_named(args@, name@, j);
                if j < i {
                    assert(args@[j].name.item@ != name@);
                } else if j > i {
                    assert(args@[i as int].name.item@ != name@);
                }
            }
            return Some(i);
        }
        i = i + 1;
    }
    proof {
        assert forall|j: int| !is_first_argument_named(args@, name@, j) by {
            if 0 <= j < args@.len() {
                assert(args@[j].name.item@ != name@);
            }
        }
    }
    None
}

/// Reads the severity declared by a `@catch` directive, defaulting to the
/// weakest one at the directive's own location.
pub fn get_to_argument(catch_directive: &Directive) -> (r: (CatchTo, Location))
    requires
        catch_arguments_valid(*catch_directive),
    ensures
        r.0 == metadata_of_catch(*catch_directive).to,
        r.1 == metadata_of_catch(*catch_directive).to_location,
{
    let to_name = String::from_str(TO_ARGUMENT);
    match find_argument(&catch_directive.arguments, &to_name) {
        Some(j) => {
            let arg = &catch_directive.arguments[j];
            let to = match &arg.value {
                Value::Constant(ConstantValue::Enum(s)) => CatchTo::from_name(s),
                _ => CatchTo::Result,
            };
            (to, arg.value_location)
        },
        None => (CatchTo::Result, catch_directive.name.location),
    }
}

/// The annotation carried by a field's directives, if any.
pub fn catch_metadata(directives: &Vec<Directive>) -> (r: Option<CatchMetadata>)
    requires
        directives_valid(directives@),
    ensures
        r == catch_metadata_of(directives@),
{
    let catch_name = String::from_str(CATCH_DIRECTIVE_NAME);
    match find_directive(directives, &catch_name) {
        Some(i) => {
            let d = &directives[i];
            let (to, to_location) = get_to_argument(d);
            Some(CatchMetadata { to, directive_location: d.name.location, to_location })
        },
        None => None,
    }
}

/// A field that may carry `@catch`.
pub trait CatchableField {
    spec fn spec_directives(&self) -> Seq<Directive>;

    spec fn spec_name_with_location(&self) -> Named;

    fn directives(&self) -> (r: &Vec<Directive>)
        ensures
            r@ == self.spec_directives(),
    ;

    /// The field's alias or name, where it was written.
    fn name_with_location(&self) -> (r: Named)
        ensures
            r == self.spec_name_with_location(),
    ;

    /// The annotation that the field carries, if any.
    fn catch_metadata(&self) -> (r: Option<CatchMetadata>)
        requires
            directives_valid(self.spec_directives()),
        ensures
            r == catch_metadata_of(self.spec_directives()),
    {
        catch_metadata(self.directives())
    }
}

impl CatchableField for ScalarField {
    open spec fn spec_directives(&self) -> Seq<Directive> {
        self.directives@
    }

    open spec fn spec_name_with_location(&self) -> Named {
        self.spec_alias_or_name()
    }

    fn directives(&self) -> (r: &Vec<Directive>) {
        &self.directives
    }

    fn name_with_location(&self) -> (r: Named) {
        self.alias_or_name()
    }
}

impl CatchableField for LinkedField {
    open spec fn spec_directives(&self) -> Seq<Directive> {
        self.directives@
    }

    open spec fn spec_name_with_location(&self) -> Named {
        self.spec_alias_or_name()
    }

    fn directives(&self) -> (r: &Vec<Directive>) {
        &self.directives
    }

    fn name_with_location(&self) -> (r: Named) {
        self.alias_or_name()
    }
}

} // verus!
