use vstd::prelude::*;
use vstd::string::*;

use crate::catchable_field::CATCH_DIRECTIVE_NAME;
use crate::ir::{CatchMetadataDirective, Directive, Location, Named};
use crate::severity::CatchTo;
use crate::validator::CatchField;

verus! {

/// Name of the directive that carries a `@catch` field's path and severity.
pub const CATCH_METADATA_DIRECTIVE_NAME: &'static str = "__CatchMetadataDirective";

/// Name of the marker left on a node with a child whose severity is not the weakest.
pub const CHILDREN_CAN_BUBBLE_METADATA_KEY: &'static str = "__childrenCanBubbleNull";

/// The location given to directives that the pass creates.
pub open spec fn generated_location() -> Location {
    Location { source: 0, start: 0, end: 0 }
}

/// `d` is the metadata directive for a `@catch` field at `path` with severity `to`.
pub open spec fn is_metadata_directive(d: Directive, path: Seq<char>, to: CatchTo) -> bool {
    &&& d.name.item@ == CATCH_METADATA_DIRECTIVE_NAME@
    &&& d.name.location == generated_location()
    &&& d.arguments@.len() == 0
    &&& d.data matches Some(data) && data.to == to && data.path@ == path
}

/// `d` is the marker that a child may bubble a non-default severity.
pub open spec fn is_bubble_directive(d: Directive) -> bool {
    &&& d.name.item@ == CHILDREN_CAN_BUBBLE_METADATA_KEY@
    &&& d.name.location == generated_location()
    &&& d.arguments@.len() == 0
    &&& d.data is None
}

/// The names of the directives other than `@catch`, in order.
pub open spec fn non_catch_names(dirs: Seq<Directive>) -> Seq<String>
    decreases dirs.len(),
{
    if dirs.len() == 0 {
        Seq::empty()
    } else if dirs.last().name.item@ == CATCH_DIRECTIVE_NAME@ {
        non_catch_names(dirs.drop_last())
    } else {
        non_catch_names(dirs.drop_last()).push(dirs.last().name.item)
    }
}

/// Some child has a severity other than the weakest.
pub open spec fn children_can_bubble(children: Seq<CatchField>) -> bool {
    exists|i: int| 0 <= i < children.len() && #[trigger] children[i].catch.to != CatchTo::Result
}

/// The names attached so far followed by those of `directives` other than `@catch`.
pub fn maybe_add_disallowed_directives(
    directives: &Vec<Directive>,
    disallowed_directives_attached: &Vec<String>,
) -> (r: Vec<String>)
    ensures
        r@ == disallowed_directives_attached@ + non_catch_names(directives@),
{
    let catch_name = String::from_str(CATCH_DIRECTIVE_NAME);
    let mut next: Vec<String> = Vec::new();
    let mut k: usize = 0;
    while k < disallowed_directives_attached.len()
        invariant
            0 <= k <= disallowed_directives_attached@.len(),
            next@ == disallowed_directives_attached@.take(k as int),
        decreases disallowed_directives_attached@.len() - k,
    {
        next.push(disallowed_directives_attached[k].clone());
        assert(disallowed_directives_attached@.take(k + 1) =~= disallowed_directives_attached@.take(
            k as int,
        ).push(disallowed_directives_attached@[k as int]));
        k = k + 1;
    }
    assert(disallowed_directives_attached@.take(k as int) =~= disallowed_directives_attached@);
    let mut i: usize = 0;
    while i < directives.len()
        invariant
            0 <= i <= directives@.len(),
            catch_name@ == CATCH_DIRECTIVE_NAME@,
            next@ == disallowed_directives_attached@ + non_catch_names(directives@.take(i as int)),
        decreases directives@.len() - i,
    {
        assert(directives@.take(i + 1).drop_last() =~= directives@.take(i as int));
        if directives[i].name.item != catch_name {
            next.push(directives[i].name.item.clone());
        }
        assert(next@ =~= disallowed_directives_attached@ + non_catch_names(
            directives@.take(i + 1),
        ));
        i = i + 1;
    }
    assert(directives@.take(i as int) =~= directives@);
    next
}

/// Appends the metadata directive for a `@catch` field at `path_name`.
pub fn add_metadata_directive(directives: &mut Vec<Directive>, path_name: &String, to: CatchTo)
    ensures
        final(directives)@.len() == old(directives)@.len() + 1,
        final(directives)@.drop_last() == old(directives)@,
        is_metadata_directive(final(directives)@.last(), path_name@, to),
{
    let d = Directive {
        name: Named {
            item: String::from_str(CATCH_METADATA_DIRECTIVE_NAME),
            location: Location { source: 0, start: 0, end: 0 },
        },
        arguments: Vec::new(),
        data: Some(CatchMetadataDirective { to, path: path_name.clone() }),
    };
    directives.push(d);
    assert(directives@.drop_last() =~= old(directives)@);
}

/// Whether some child has a severity other than the weakest.
pub fn any_child_can_bubble(children: &Vec<CatchField>) -> (r: bool)
    ensures
        r == children_can_bubble(children@),
{
    let mut i: usize = 0;
    while i < children.len()
        invariant
            0 <= i <= children@.len(),
            forall|j: int| 0 <= j < i ==> #[trigger] children@[j].catch.to == CatchTo::Result,
        decreases children@.len() - i,
    {
        match children[i].catch.to {
            CatchTo::Result => {},
            CatchTo::Null => {
                return true;
            },
        }
        i = i + 1;
    }
    false
}

/// Appends the bubble marker when some child has a severity other than the
/// weakest; says whether it did.
pub fn maybe_add_children_can_bubble_metadata_directive(
    directives: &mut Vec<Directive>,
    current_node_catch_children: &Vec<CatchField>,
) -> (added: bool)
    ensures
        added == children_can_bubble(current_node_catch_children@),
        !added ==> final(directives)@ == old(directives)@,
        added ==> final(directives)@.len() == old(directives)@.len() + 1,
        added ==> final(directives)@.drop_last() == old(directives)@,
        added ==> is_bubble_directive(final(directives)@.last()),
{
    if !any_child_can_bubble(current_node_catch_children) {
        return false;
    }
    directives.push(
        Directive {
            name: Named {
                item: String::from_str(CHILDREN_CAN_BUBBLE_METADATA_KEY),
                location: Location { source: 0, start: 0, end: 0 },
            },
            arguments: Vec::new(),
            data: None,
        },
    );
    assert(directives@.drop_last() =~= old(directives)@);
    true
}

} // verus!
