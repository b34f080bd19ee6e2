use relay_catch::catch_directive;
use relay_catch::catchable_field::{catch_metadata, get_to_argument};
use relay_catch::diagnostic::{Diagnostic, Note, ValidationMessage};
use relay_catch::finder::CatchDirectiveVisitor;
use relay_catch::ir::{
    Argument, ConstantValue, Directive, FragmentDefinition, FragmentSpread, InlineFragment,
    LinkedField, Location, Named, OperationDefinition, Program, ScalarField, Selection,
    TypeCondition, Value,
};
use relay_catch::path::join_path;
use relay_catch::CatchTo;

fn loc(n: u32) -> Location {
    Location::new(1, n, n + 1)
}

fn named(s: &str, n: u32) -> Named {
    Named { item: s.to_string(), location: loc(n) }
}

fn plain(name: &str, n: u32) -> Directive {
    Directive { name: named(name, n), arguments: vec![], data: None }
}

fn catch(to: Option<&str>, n: u32) -> Directive {
    let arguments = match to {
        Some(t) => vec![Argument {
            name: named("to", n + 100),
            value: Value::Constant(ConstantValue::Enum(t.to_string())),
            value_location: loc(n + 200),
        }],
        None => vec![],
    };
    Directive { name: named("catch", n), arguments, data: None }
}

fn scalar(name: &str, n: u32, directives: Vec<Directive>) -> Selection {
    Selection::ScalarField(ScalarField { alias: None, definition: named(name, n), directives })
}

fn linked(name: &str, n: u32, directives: Vec<Directive>, selections: Vec<Selection>) -> Selection {
    Selection::LinkedField(LinkedField {
        alias: None,
        definition: named(name, n),
        directives,
        selections,
    })
}

fn inline(condition_name: &str, is_abstract: bool, alias: Option<&str>, selections: Vec<Selection>) -> Selection {
    Selection::InlineFragment(InlineFragment {
        type_condition: Some(TypeCondition { name: condition_name.to_string(), is_abstract }),
        alias: alias.map(|a| named(a, 900)),
        directives: vec![],
        selections,
    })
}

fn query(selections: Vec<Selection>) -> Program {
    Program {
        operations: vec![OperationDefinition {
            name: named("TestQuery", 0),
            directives: vec![],
            selections,
        }],
        fragments: vec![],
    }
}

fn errors_of(program: Program) -> Vec<Diagnostic> {
    match catch_directive(program) {
        Ok(_) => panic!("expected diagnostics"),
        Err(errors) => errors,
    }
}

fn metadata_of(d: &Directive) -> (CatchTo, String) {
    let data = d.data.as_ref().expect("metadata directive");
    (data.to, data.path.clone())
}

#[test]
fn action_argument_omitted() {
    let program = query(vec![linked("me", 1, vec![catch(Some("NULL"), 2)], vec![scalar("name", 3, vec![])])]);
    let out = catch_directive(program).expect("no diagnostics");
    let Selection::LinkedField(me) = &out.operations[0].selections[0] else { panic!() };
    assert_eq!(me.directives.len(), 2);
    assert_eq!(me.directives[1].name.item, "__CatchMetadataDirective");
    assert_eq!(metadata_of(&me.directives[1]), (CatchTo::Null, "me".to_string()));
    assert_eq!(out.operations[0].directives.len(), 1);
    assert_eq!(out.operations[0].directives[0].name.item, "__childrenCanBubbleNull");
}

#[test]
fn catch_no_args_included() {
    let program = query(vec![scalar("name", 1, vec![catch(None, 2)])]);
    let out = catch_directive(program).expect("no diagnostics");
    let Selection::ScalarField(f) = &out.operations[0].selections[0] else { panic!() };
    assert_eq!(f.directives.len(), 2);
    assert_eq!(f.directives[0].name.item, "catch");
    assert_eq!(metadata_of(&f.directives[1]), (CatchTo::Result, "name".to_string()));
}

#[test]
fn catch_and_required_invalid() {
    let program = query(vec![scalar("name", 1, vec![catch(None, 2), plain("required", 3)])]);
    let errors = errors_of(program);
    assert_eq!(errors.len(), 1);
    match &errors[0].message {
        ValidationMessage::CatchWithDisallowedDirective { directive_name } => {
            assert_eq!(directive_name, "required")
        },
        other => panic!("unexpected {:?}", other),
    }
    assert_eq!(errors[0].location, loc(2));
}

#[test]
fn catch_paths() {
    let program = query(vec![linked(
        "me",
        1,
        vec![],
        vec![linked("best_friend", 2, vec![], vec![scalar("name", 3, vec![catch(Some("NULL"), 4)])])],
    )]);
    let out = catch_directive(program).expect("no diagnostics");
    let Selection::LinkedField(me) = &out.operations[0].selections[0] else { panic!() };
    let Selection::LinkedField(friend) = &me.selections[0] else { panic!() };
    let Selection::ScalarField(name) = &friend.selections[0] else { panic!() };
    assert_eq!(metadata_of(&name.directives[1]), (CatchTo::Null, "me.best_friend.name".to_string()));
    // the direct parent of a NULL child gets the bubble marker; the grandparent does not
    assert_eq!(friend.directives.len(), 1);
    assert_eq!(friend.directives[0].name.item, "__childrenCanBubbleNull");
    assert!(me.directives.is_empty());
}

#[test]
fn catch_same_field_different_arg_invalid() {
    let program = query(vec![
        linked("me", 1, vec![catch(Some("NULL"), 2)], vec![scalar("id", 3, vec![])]),
        linked("me", 4, vec![catch(Some("RESULT"), 5)], vec![scalar("id", 6, vec![])]),
    ]);
    let errors = errors_of(program);
    assert_eq!(errors.len(), 1);
    assert!(matches!(&errors[0].message, ValidationMessage::CatchToMismatch { field_name } if field_name == "me"));
    assert_eq!(errors[0].location, loc(202));
    assert_eq!(errors[0].annotations[0].location, loc(205));
    assert_eq!(errors[0].annotations[0].note, Note::SameAsDeclaredHere);
}

#[test]
fn conflicting_catch_across_aliased_inline_fragments() {
    let program = query(vec![linked(
        "node",
        1,
        vec![],
        vec![
            inline("User", false, Some("user"), vec![scalar("name", 2, vec![catch(Some("NULL"), 3)])]),
            inline("User", false, Some("user"), vec![scalar("name", 4, vec![catch(Some("RESULT"), 5)])]),
        ],
    )]);
    let errors = errors_of(program);
    assert_eq!(errors.len(), 1);
    assert!(matches!(&errors[0].message, ValidationMessage::CatchToMismatch { .. }));
}

#[test]
fn duplicate_field_catch_no_catch_invalid() {
    let program = query(vec![scalar("name", 1, vec![catch(None, 2)]), scalar("name", 3, vec![])]);
    let errors = errors_of(program);
    assert_eq!(errors.len(), 1);
    assert!(matches!(&errors[0].message, ValidationMessage::CatchFieldMismatch { field_name } if field_name == "name"));
    assert_eq!(errors[0].location, loc(1));
    assert_eq!(errors[0].annotations[0].note, Note::NotCatchHere);
    assert_eq!(errors[0].annotations[0].location, loc(3));
}

#[test]
fn duplicate_field_different_to() {
    let program = query(vec![scalar("name", 1, vec![catch(Some("NULL"), 2)]), scalar("name", 3, vec![catch(None, 4)])]);
    let errors = errors_of(program);
    assert_eq!(errors.len(), 1);
    assert!(matches!(&errors[0].message, ValidationMessage::CatchToMismatch { .. }));
    assert_eq!(errors[0].location, loc(202));
    // the defaulted `to` is located at the directive itself
    assert_eq!(errors[0].annotations[0].location, loc(4));
}

#[test]
fn uncaught_before_caught_reports_mismatch_at_current() {
    let program = query(vec![scalar("name", 1, vec![]), scalar("name", 3, vec![catch(None, 4)])]);
    let errors = errors_of(program);
    assert_eq!(errors.len(), 1);
    assert!(matches!(&errors[0].message, ValidationMessage::CatchFieldMismatch { .. }));
    assert_eq!(errors[0].location, loc(3));
    assert_eq!(errors[0].annotations[0].location, loc(1));
}

#[test]
fn same_severity_across_aliased_branches_is_accepted() {
    let program = query(vec![linked(
        "node",
        1,
        vec![],
        vec![
            inline("User", false, Some("user"), vec![scalar("name", 2, vec![catch(Some("NULL"), 3)])]),
            inline("User", false, Some("user"), vec![scalar("name", 4, vec![catch(Some("NULL"), 5)])]),
        ],
    )]);
    let out = catch_directive(program).expect("no diagnostics");
    let Selection::LinkedField(node) = &out.operations[0].selections[0] else { panic!() };
    let Selection::InlineFragment(user) = &node.selections[0] else { panic!() };
    let Selection::ScalarField(name) = &user.selections[0] else { panic!() };
    assert_eq!(metadata_of(&name.directives[1]), (CatchTo::Null, "node.user.name".to_string()));
}

#[test]
fn catch_within_abstract_inline_fragment_is_rejected() {
    let program = query(vec![linked(
        "node",
        1,
        vec![],
        vec![inline("Actor", true, None, vec![scalar("name", 2, vec![catch(None, 3)])])],
    )]);
    let errors = errors_of(program);
    assert_eq!(errors.len(), 1);
    assert!(matches!(&errors[0].message, ValidationMessage::CatchWithinAbstractInlineFragment));
    assert_eq!(errors[0].location, loc(3));
}

#[test]
fn catch_within_aliased_abstract_inline_fragment_is_accepted() {
    let program = query(vec![linked(
        "node",
        1,
        vec![],
        vec![inline("Actor", true, Some("actor"), vec![scalar("name", 2, vec![catch(None, 3)])])],
    )]);
    assert!(catch_directive(program).is_ok());
}

#[test]
fn abstract_flag_does_not_reach_into_linked_fields() {
    let program = query(vec![linked(
        "node",
        1,
        vec![],
        vec![inline(
            "Actor",
            true,
            None,
            vec![linked("friend", 2, vec![], vec![scalar("name", 3, vec![catch(None, 4)])])],
        )],
    )]);
    assert!(catch_directive(program).is_ok());
}

#[test]
fn stronger_parent_than_child_suggests_child_severity() {
    let program = query(vec![linked(
        "me",
        1,
        vec![catch(Some("NULL"), 2)],
        vec![scalar("name", 3, vec![catch(Some("RESULT"), 4)]), scalar("id", 5, vec![catch(Some("NULL"), 6)])],
    )]);
    let errors = errors_of(program);
    assert_eq!(errors.len(), 1);
    assert!(matches!(
        &errors[0].message,
        ValidationMessage::CatchFieldInvalidNesting { suggested_action: CatchTo::Result }
    ));
    assert_eq!(errors[0].location, loc(202));
    assert_eq!(errors[0].annotations[0].note, Note::MatchParent);
    assert_eq!(errors[0].annotations[0].location, loc(204));
}

#[test]
fn weaker_parent_than_child_is_accepted() {
    let program = query(vec![linked(
        "me",
        1,
        vec![catch(Some("RESULT"), 2)],
        vec![scalar("name", 3, vec![catch(Some("NULL"), 4)])],
    )]);
    let out = catch_directive(program).expect("no diagnostics");
    let Selection::LinkedField(me) = &out.operations[0].selections[0] else { panic!() };
    assert_eq!(me.directives.len(), 3);
    assert_eq!(metadata_of(&me.directives[1]), (CatchTo::Result, "me".to_string()));
    assert_eq!(me.directives[2].name.item, "__childrenCanBubbleNull");
}

#[test]
fn missing_catch_child_in_second_occurrence() {
    let program = query(vec![
        linked("me", 1, vec![], vec![scalar("a", 2, vec![catch(None, 3)]), scalar("b", 4, vec![catch(None, 5)])]),
        linked("me", 6, vec![], vec![scalar("a", 7, vec![catch(None, 8)])]),
    ]);
    let errors = errors_of(program);
    assert_eq!(errors.len(), 1);
    assert!(matches!(&errors[0].message, ValidationMessage::CatchFieldMissing { field_name } if field_name == "b"));
    assert_eq!(errors[0].location, loc(4));
    assert_eq!(errors[0].annotations[0].note, Note::MissingFrom);
    assert_eq!(errors[0].annotations[0].location, loc(6));
}

#[test]
fn missing_catch_child_in_first_occurrence() {
    let program = query(vec![
        linked("me", 1, vec![], vec![scalar("a", 2, vec![catch(None, 3)])]),
        linked("me", 6, vec![], vec![scalar("a", 7, vec![catch(None, 8)]), scalar("b", 9, vec![catch(None, 10)])]),
    ]);
    let errors = errors_of(program);
    assert_eq!(errors.len(), 1);
    let missing: Vec<&Diagnostic> = errors.iter().collect();
    assert!(matches!(&missing[0].message, ValidationMessage::CatchFieldMissing { field_name } if field_name == "b"));
    assert_eq!(missing[0].location, loc(9));
    assert_eq!(missing[0].annotations[0].location, loc(1));
}

#[test]
fn catch_within_inline_fragment_definition_is_rejected() {
    let program = Program {
        operations: vec![],
        fragments: vec![FragmentDefinition {
            name: named("UserFragment", 0),
            directives: vec![plain("inline", 50)],
            selections: vec![scalar("name", 1, vec![catch(None, 2)])],
        }],
    };
    let errors = errors_of(program);
    assert_eq!(errors.len(), 1);
    assert!(matches!(&errors[0].message, ValidationMessage::CatchWithinInlineDirective));
    assert_eq!(errors[0].annotations[0].note, Note::InlineDeclaredHere);
    assert_eq!(errors[0].annotations[0].location, loc(50));
}

#[test]
fn ancestor_directive_is_disallowed() {
    let program = query(vec![linked(
        "me",
        1,
        vec![plain("required", 2)],
        vec![scalar("name", 3, vec![catch(None, 4)])],
    )]);
    let errors = errors_of(program);
    assert_eq!(errors.len(), 1);
    assert!(matches!(&errors[0].message, ValidationMessage::CatchWithDisallowedDirective { .. }));
}

#[test]
fn sibling_directive_is_not_disallowed() {
    let program = query(vec![scalar("id", 1, vec![plain("required", 2)]), scalar("name", 3, vec![catch(None, 4)])]);
    assert!(catch_directive(program).is_ok());
}

#[test]
fn program_without_catch_is_unchanged() {
    let program = query(vec![linked("me", 1, vec![plain("foo", 2)], vec![scalar("name", 3, vec![])])]);
    let mut visitor = CatchDirectiveVisitor::new(&program);
    assert!(!visitor.find(&program, &program.operations[0].selections));
    let out = catch_directive(program).expect("no diagnostics");
    let Selection::LinkedField(me) = &out.operations[0].selections[0] else { panic!() };
    assert_eq!(me.directives.len(), 1);
    assert_eq!(me.directives[0].name.item, "foo");
    assert!(out.operations[0].directives.is_empty());
}

#[test]
fn catch_reached_through_spread_fragment() {
    let program = Program {
        operations: vec![OperationDefinition {
            name: named("Q", 0),
            directives: vec![],
            selections: vec![Selection::FragmentSpread(FragmentSpread {
                fragment: named("F", 1),
                directives: vec![],
            })],
        }],
        fragments: vec![FragmentDefinition {
            name: named("F", 2),
            directives: vec![],
            selections: vec![
                Selection::FragmentSpread(FragmentSpread { fragment: named("F", 3), directives: vec![] }),
                scalar("name", 4, vec![catch(Some("NULL"), 5)]),
            ],
        }],
    };
    let mut visitor = CatchDirectiveVisitor::new(&program);
    assert!(visitor.find(&program, &program.operations[0].selections));
    let out = catch_directive(program).expect("no diagnostics");
    // the operation's top level holds only a spread: no catch child of its own
    assert!(out.operations[0].directives.is_empty());
    let Selection::ScalarField(name) = &out.fragments[0].selections[1] else { panic!() };
    assert_eq!(metadata_of(&name.directives[1]), (CatchTo::Null, "name".to_string()));
}

#[test]
fn operation_gets_bubble_marker_for_null_child() {
    let program = query(vec![scalar("name", 1, vec![catch(Some("NULL"), 2)])]);
    let out = catch_directive(program).expect("no diagnostics");
    assert_eq!(out.operations[0].directives.len(), 1);
    assert_eq!(out.operations[0].directives[0].name.item, "__childrenCanBubbleNull");
}

#[test]
fn rerunning_on_rewritten_program_keeps_severities() {
    let program = query(vec![scalar("name", 1, vec![catch(Some("NULL"), 2)])]);
    let out = catch_directive(program).expect("no diagnostics");
    let Selection::ScalarField(f) = &out.operations[0].selections[0] else { panic!() };
    let before = catch_metadata(&vec![catch(Some("NULL"), 2)]).unwrap();
    let after = catch_metadata(&f.directives).unwrap();
    assert_eq!(before, after);
}

#[test]
fn extractor_defaults_to_result() {
    let d = catch(None, 7);
    assert_eq!(get_to_argument(&d), (CatchTo::Result, loc(7)));
    let d = catch(Some("NULL"), 7);
    assert_eq!(get_to_argument(&d), (CatchTo::Null, loc(207)));
    assert_eq!(catch_metadata(&vec![plain("foo", 1)]), None);
}

#[test]
fn severity_names_round_trip() {
    assert_eq!(CatchTo::Result.into_name(), "RESULT");
    assert_eq!(CatchTo::Null.into_name(), "NULL");
    assert_eq!(CatchTo::from_name(&"NULL".to_string()), CatchTo::Null);
    assert_eq!(CatchTo::from_name(&"RESULT".to_string()), CatchTo::Result);
    assert!(CatchTo::Result.is_less_severe_than(CatchTo::Null));
    assert!(!CatchTo::Null.is_less_severe_than(CatchTo::Result));
    assert!(!CatchTo::Null.is_less_severe_than(CatchTo::Null));
}

#[test]
fn path_segments_are_joined_with_dots() {
    assert_eq!(join_path(&vec![]), "");
    assert_eq!(join_path(&vec!["a".to_string()]), "a");
    assert_eq!(join_path(&vec!["a".to_string(), "b".to_string(), "c".to_string()]), "a.b.c");
}

#[test]
fn nested_result_under_null_parent_is_reported_once() {
    let program = query(vec![linked(
        "me",
        1,
        vec![catch(Some("NULL"), 2)],
        vec![scalar("name", 3, vec![catch(Some("RESULT"), 4)])],
    )]);
    let errors = errors_of(program);
    assert_eq!(errors.len(), 1);
    assert!(matches!(
        &errors[0].message,
        ValidationMessage::CatchFieldInvalidNesting { suggested_action: CatchTo::Result }
    ));
}

#[test]
fn each_weaker_child_is_reported() {
    let program = query(vec![linked(
        "me",
        1,
        vec![catch(Some("NULL"), 2)],
        vec![
            scalar("name", 3, vec![catch(Some("RESULT"), 4)]),
            scalar("id", 5, vec![catch(None, 6)]),
        ],
    )]);
    let errors = errors_of(program);
    assert_eq!(errors.len(), 2);
    assert_eq!(errors[0].annotations[0].location, loc(204));
    assert_eq!(errors[1].annotations[0].location, loc(6));
}

#[test]
fn unknown_fragment_spread_is_not_followed() {
    let program = Program {
        operations: vec![OperationDefinition {
            name: named("Q", 0),
            directives: vec![],
            selections: vec![Selection::FragmentSpread(FragmentSpread {
                fragment: named("Missing", 1),
                directives: vec![],
            })],
        }],
        fragments: vec![],
    };
    let mut visitor = CatchDirectiveVisitor::new(&program);
    assert!(!visitor.find(&program, &program.operations[0].selections));
    assert!(catch_directive(program).is_ok());
}

#[test]
fn every_disallowed_directive_is_reported() {
    let program = query(vec![linked(
        "me",
        1,
        vec![plain("foo", 2)],
        vec![scalar("name", 3, vec![plain("bar", 4), catch(None, 5)])],
    )]);
    let errors = errors_of(program);
    assert_eq!(errors.len(), 2);
    assert!(matches!(&errors[0].message, ValidationMessage::CatchWithDisallowedDirective { directive_name } if directive_name == "foo"));
    assert!(matches!(&errors[1].message, ValidationMessage::CatchWithDisallowedDirective { directive_name } if directive_name == "bar"));
    assert_eq!(errors[1].location, loc(5));
}
