use vstd::prelude::*;

use crate::catchable_field::{
    catch_metadata_of, first_argument_named, first_directive_named, is_first_directive_named,
    metadata_of_catch, CatchMetadata, CATCH_DIRECTIVE_NAME, TO_ARGUMENT,
};
use crate::diagnostic::ValidationMessage;
use crate::ir::{Directive, Location};
use crate::keyed::{has_key, Keyed};
use crate::rewrite::{is_bubble_directive, is_metadata_directive, CATCH_METADATA_DIRECTIVE_NAME, CHILDREN_CAN_BUBBLE_METADATA_KEY};
use crate::severity::CatchTo;
use crate::validator::{
    children_reports, missing_report, missing_reports, nesting_report, nullability_reports,
    severity_reports, CatchField, MaybeCatchField,
};

verus! {

/// A field without a `@catch` directive has no annotation.
pub proof fn law_unannotated_field_has_no_annotation(directives: Seq<Directive>)
    requires
        forall|i: int|
            0 <= i < directives.len() ==> #[trigger] directives[i].name.item@
                != CATCH_DIRECTIVE_NAME@,
    ensures
        catch_metadata_of(directives) is None,
{
    assert forall|i: int| !is_first_directive_named(directives, CATCH_DIRECTIVE_NAME@, i) by {
        if 0 <= i < directives.len() {
            assert(directives[i].name.item@ != CATCH_DIRECTIVE_NAME@);
        }
    }
}

/// A `@catch` directive without a `to` argument declares the weakest
/// severity, located at the directive.
pub proof fn law_default_severity_is_weakest(catch_directive: Directive)
    requires
        first_argument_named(catch_directive.arguments@, TO_ARGUMENT@) is None,
    ensures
        metadata_of_catch(catch_directive).to == CatchTo::Result,
        metadata_of_catch(catch_directive).to_location == catch_directive.name.location,
{
}

/// Two annotated occurrences of one path: differing severities give exactly
/// one mismatch report, at the first occurrence's `to`; equal ones give none.
pub proof fn law_severity_mismatch_reported_once(previous: MaybeCatchField, current: MaybeCatchField)
    requires
        previous.catch is Some,
        current.catch is Some,
    ensures
        previous.catch->0.to != current.catch->0.to ==> {
            let rs = nullability_reports(Some(previous), current);
            &&& rs.len() == 1
            &&& rs[0].0 == ValidationMessage::CatchToMismatch {
                field_name: current.field_name.item,
            }
            &&& rs[0].1 == previous.catch->0.to_location
        },
        previous.catch->0.to == current.catch->0.to ==> nullability_reports(
            Some(previous),
            current,
        ).len() == 0,
{
}

/// A parent is reported once for each `@catch` child less severe than
/// itself: with exactly one such child, exactly one report, whatever the
/// number of other children.
pub proof fn law_one_nesting_report_for_one_weaker_child(
    children: Seq<CatchField>,
    parent: CatchMetadata,
    w: int,
)
    requires
        0 <= w < children.len(),
        children[w].catch.to.rank() < parent.to.rank(),
        forall|i: int|
            0 <= i < children.len() && i != w ==> parent.to.rank() <= #[trigger] children[i].catch.to.rank(),
    ensures
        severity_reports(children, parent) == seq![nesting_report(children[w], parent)],
    decreases children.len(),
{
    if w == children.len() - 1 {
        lemma_no_nesting_reports(children.drop_last(), parent);
        assert(severity_reports(children.drop_last(), parent).push(nesting_report(children[w], parent))
            =~= seq![nesting_report(children[w], parent)]);
    } else {
        law_one_nesting_report_for_one_weaker_child(children.drop_last(), parent, w);
    }
}

/// Children no less severe than the parent give no report.
pub proof fn lemma_no_nesting_reports(children: Seq<CatchField>, parent: CatchMetadata)
    requires
        forall|i: int|
            0 <= i < children.len() ==> parent.to.rank() <= #[trigger] children[i].catch.to.rank(),
    ensures
        severity_reports(children, parent) == Seq::<crate::diagnostic::Report>::empty(),
    decreases children.len(),
{
    if children.len() > 0 {
        lemma_no_nesting_reports(children.drop_last(), parent);
    }
}

/// Two occurrences of one field whose `@catch` children are `a, b` and `a`:
/// exactly one report, naming `b`, whichever occurrence comes first.
pub proof fn law_missing_child_reported_once(
    a: CatchField,
    b: CatchField,
    first_location: Location,
    second_location: Location,
)
    requires
        a.key() != b.key(),
    ensures
        children_reports(seq![a, b], seq![a], first_location, second_location) == seq![
            missing_report(b, first_location),
        ],
        children_reports(seq![a], seq![a, b], first_location, second_location) == seq![
            missing_report(b, second_location),
        ],
{
    let ab = seq![a, b];
    let only_a = seq![a];
    assert(has_key(only_a, a.key())) by {
        assert(only_a[0].key() == a.key());
    }
    assert(has_key(ab, a.key())) by {
        assert(ab[0].key() == a.key());
    }
    assert(!has_key(only_a, b.key())) by {
        assert forall|i: int| 0 <= i < only_a.len() implies #[trigger] only_a[i].key() != b.key() by {
            assert(only_a[i] == a);
        }
    }
    assert(ab.drop_last() =~= only_a);
    assert(only_a.drop_last() =~= Seq::<CatchField>::empty());
    assert(only_a.last() == a);
    assert(missing_reports(only_a.drop_last(), ab, second_location) =~= Seq::empty());
    assert(missing_reports(only_a.drop_last(), ab, first_location) =~= Seq::empty());
    assert(missing_reports(only_a, ab, second_location) =~= Seq::empty());
    assert(missing_reports(only_a, ab, first_location) =~= Seq::empty());
    assert(missing_reports(only_a.drop_last(), only_a, first_location) =~= Seq::empty());
    assert(missing_reports(only_a.drop_last(), only_a, second_location) =~= Seq::empty());
    assert(missing_reports(only_a, only_a, first_location) =~= Seq::empty());
    assert(missing_reports(only_a, only_a, second_location) =~= Seq::empty());
    assert(missing_reports(ab, only_a, first_location) =~= seq![missing_report(b, first_location)]);
    assert(missing_reports(ab, only_a, second_location) =~= seq![missing_report(b, second_location)]);
    assert(children_reports(ab, only_a, first_location, second_location) =~= seq![
        missing_report(b, first_location),
    ]);
    assert(children_reports(only_a, ab, first_location, second_location) =~= seq![
        missing_report(b, second_location),
    ]);
}

/// The directives that the pass adds are never taken for an annotation: the
/// extractor reads a rewritten list as it read the original one.
pub proof fn law_added_directives_are_not_annotations(
    directives: Seq<Directive>,
    added: Directive,
    path: Seq<char>,
    to: CatchTo,
)
    requires
        is_metadata_directive(added, path, to) || is_bubble_directive(added),
    ensures
        catch_metadata_of(directives.push(added)) == catch_metadata_of(directives),
{
    reveal_strlit("catch");
    reveal_strlit("__CatchMetadataDirective");
    reveal_strlit("__childrenCanBubbleNull");
    assert(CATCH_DIRECTIVE_NAME@ != CATCH_METADATA_DIRECTIVE_NAME@) by {
        assert(CATCH_DIRECTIVE_NAME@.len() != CATCH_METADATA_DIRECTIVE_NAME@.len());
    }
    assert(CATCH_DIRECTIVE_NAME@ != CHILDREN_CAN_BUBBLE_METADATA_KEY@) by {
        assert(CATCH_DIRECTIVE_NAME@.len() != CHILDREN_CAN_BUBBLE_METADATA_KEY@.len());
    }
    let longer = directives.push(added);
    let name = CATCH_DIRECTIVE_NAME@;
    assert forall|i: int| is_first_directive_named(directives, name, i) <==> is_first_directive_named(longer, name, i) by {
        if 0 <= i < directives.len() {
            assert(longer[i] == directives[i]);
            assert forall|k: int| 0 <= k < i implies longer[k] == directives[k] by {}
        }
        if i == directives.len() {
            assert(longer[i] == added);
        }
    }
    if first_directive_named(directives, name) is Some {
        let i = first_directive_named(directives, name)->0;
        assert(is_first_directive_named(longer, name, i));
        assert(longer[i] == directives[i]);
    }
}

} // verus!
