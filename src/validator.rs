use vstd::prelude::*;

use crate::catchable_field::CatchMetadata;
use crate::diagnostic::{annotated, reports, Annotation, Diagnostic, Note, Report, ValidationMessage};
use crate::ir::{Location, Named};
use crate::keyed::{find_key, has_key, insert_or_replace, lemma_lookup_at, lookup, unique_keys, Keyed};

verus! {

/// A field occurrence as first seen at its path: its annotation, if any.
pub struct MaybeCatchField {
    pub catch: Option<CatchMetadata>,
    pub field_name: Named,
}

/// What was first seen at a path.
pub struct PathCatchEntry {
    pub path: String,
    pub field: MaybeCatchField,
}

/// A `@catch` field directly below the field being visited.
pub struct CatchField {
    pub path: String,
    pub catch: CatchMetadata,
    pub field_name: Named,
}

/// The `@catch` children seen the last time a path was visited.
pub struct ChildrenEntry {
    pub path: String,
    pub children: Vec<CatchField>,
}

impl Keyed for PathCatchEntry {
    open spec fn key(&self) -> Seq<char> {
        self.path@
    }

    fn key_ref(&self) -> (r: &String) {
        &self.path
    }
}

impl Keyed for CatchField {
    open spec fn key(&self) -> Seq<char> {
        self.path@
    }

    fn key_ref(&self) -> (r: &String) {
        &self.path
    }
}

impl Keyed for ChildrenEntry {
    open spec fn key(&self) -> Seq<char> {
        self.path@
    }

    fn key_ref(&self) -> (r: &String) {
        &self.path
    }
}

/// Reports for a field occurrence against the one first seen at its path.
pub open spec fn nullability_reports(
    previous: Option<MaybeCatchField>,
    current: MaybeCatchField,
) -> Seq<Report> {
    match previous {
        None => seq![],
        Some(prev) => match (prev.catch, current.catch) {
            (Some(p), Some(c)) => if p.to != c.to {
                seq![
                    annotated(
                        ValidationMessage::CatchToMismatch { field_name: current.field_name.item },
                        p.to_location,
                        Note::SameAsDeclaredHere,
                        c.to_location,
                    ),
                ]
            } else {
                seq![]
            },
            (Some(_), None) => seq![
                annotated(
                    ValidationMessage::CatchFieldMismatch { field_name: current.field_name.item },
                    prev.field_name.location,
                    Note::NotCatchHere,
                    current.field_name.location,
                ),
            ],
            (None, Some(_)) => seq![
                annotated(
                    ValidationMessage::CatchFieldMismatch { field_name: current.field_name.item },
                    current.field_name.location,
                    Note::NotCatchHere,
                    prev.field_name.location,
                ),
            ],
            (None, None) => seq![],
        },
    }
}

/// The report for a `@catch` child that is less severe than its parent.
pub open spec fn nesting_report(child: CatchField, parent: CatchMetadata) -> Report {
    annotated(
        ValidationMessage::CatchFieldInvalidNesting { suggested_action: child.catch.to },
        parent.to_location,
        Note::MatchParent,
        child.catch.to_location,
    )
}

/// One report per child, in order, whose severity is below the parent's.
pub open spec fn severity_reports(children: Seq<CatchField>, parent: CatchMetadata) -> Seq<Report>
    decreases children.len(),
{
    if children.len() == 0 {
        seq![]
    } else {
        let rest = severity_reports(children.drop_last(), parent);
        if children.last().catch.to.rank() < parent.to.rank() {
            rest.push(nesting_report(children.last(), parent))
        } else {
            rest
        }
    }
}

/// The report for a `@catch` child that another occurrence of its parent lacks.
pub open spec fn missing_report(child: CatchField, missing_from: Location) -> Report {
    annotated(
        ValidationMessage::CatchFieldMissing { field_name: child.field_name.item },
        child.field_name.location,
        Note::MissingFrom,
        missing_from,
    )
}

/// One report per child of `present`, in order, whose path `other` lacks.
pub open spec fn missing_reports(
    present: Seq<CatchField>,
    other: Seq<CatchField>,
    missing_from: Location,
) -> Seq<Report>
    decreases present.len(),
{
    if present.len() == 0 {
        seq![]
    } else {
        let rest = missing_reports(present.drop_last(), other, missing_from);
        if !has_key(other, present.last().key()) {
            rest.push(missing_report(present.last(), missing_from))
        } else {
            rest
        }
    }
}

/// Reports for the `@catch` children of two occurrences of one field:
/// children of this occurrence missing from the earlier one, then children
/// of the earlier one missing here.
pub open spec fn children_reports(
    current: Seq<CatchField>,
    previous: Seq<CatchField>,
    previous_location: Location,
    current_location: Location,
) -> Seq<Report> {
    missing_reports(current, previous, previous_location) + missing_reports(
        previous,
        current,
        current_location,
    )
}

/// What was first seen at path `k`, if anything.
pub open spec fn previous_field(s: Seq<PathCatchEntry>, k: Seq<char>) -> Option<MaybeCatchField> {
    match lookup(s, k) {
        Some(e) => Some(e.field),
        None => None,
    }
}

/// The report for `@catch` inside an abstract inline fragment, if inside one.
pub open spec fn abstract_reports(within_abstract: bool, location: Location) -> Seq<Report> {
    if within_abstract {
        seq![
            (
                ValidationMessage::CatchWithinAbstractInlineFragment,
                location,
                Seq::<Annotation>::empty(),
            ),
        ]
    } else {
        Seq::<Report>::empty()
    }
}

/// The report for `@catch` inside an `@inline` fragment, if inside one.
pub open spec fn inline_reports(inline: Option<Location>, location: Location) -> Seq<Report> {
    match inline {
        Some(l) => seq![
            annotated(
                ValidationMessage::CatchWithinInlineDirective,
                location,
                Note::InlineDeclaredHere,
                l,
            ),
        ],
        None => Seq::<Report>::empty(),
    }
}

/// Everything reported when a field occurrence is first examined: the
/// placement checks of its annotation, then the comparison with the
/// occurrence first seen at its path.
pub open spec fn occurrence_reports(
    disallowed: Seq<String>,
    within_abstract: bool,
    inline: Option<Location>,
    previous: Option<MaybeCatchField>,
    current: MaybeCatchField,
) -> Seq<Report> {
    let placement = match current.catch {
        Some(m) => disallowed_reports(disallowed, m.directive_location) + abstract_reports(
            within_abstract,
            m.directive_location,
        ) + inline_reports(inline, m.directive_location),
        None => Seq::<Report>::empty(),
    };
    placement + nullability_reports(previous, current)
}

/// One report per directive name that may not stand beside `@catch`.
pub open spec fn disallowed_reports(names: Seq<String>, location: Location) -> Seq<Report> {
    names.map_values(
        |n: String|
            (
                ValidationMessage::CatchWithDisallowedDirective { directive_name: n },
                location,
                Seq::<Annotation>::empty(),
            ),
    )
}

/// State of the pass over one document.
pub struct CatchDirective {
    pub errors: Vec<Diagnostic>,
    pub path: Vec<String>,
    pub within_abstract_inline_fragment: bool,
    pub disallowed_directives_attached: Vec<String>,
    pub parent_inline_fragment_directive: Option<Location>,
    pub path_catch_map: Vec<PathCatchEntry>,
    pub current_node_catch_children: Vec<CatchField>,
    pub catch_children_map: Vec<ChildrenEntry>,
}

impl CatchDirective {
    /// The tables are keyed uniquely, and every path with a recorded set of
    /// children also has its first occurrence recorded.
    pub open spec fn wf(&self) -> bool {
        &&& unique_keys(self.path_catch_map@)
        &&& unique_keys(self.current_node_catch_children@)
        &&& unique_keys(self.catch_children_map@)
        &&& forall|i: int|
            0 <= i < self.catch_children_map@.len() ==> has_key(
                self.path_catch_map@,
                #[trigger] self.catch_children_map@[i].key(),
            )
        &&& forall|i: int|
            0 <= i < self.catch_children_map@.len() ==> unique_keys(
                (#[trigger] self.catch_children_map@[i]).children@,
            )
    }

    pub open spec fn spec_reports(&self) -> Seq<Report> {
        reports(self.errors@)
    }

    pub fn new() -> (r: CatchDirective)
        ensures
            r.wf(),
            r.errors@.len() == 0,
            r.path@.len() == 0,
            !r.within_abstract_inline_fragment,
            r.disallowed_directives_attached@.len() == 0,
            r.parent_inline_fragment_directive is None,
            r.path_catch_map@.len() == 0,
            r.current_node_catch_children@.len() == 0,
            r.catch_children_map@.len() == 0,
    {
        CatchDirective {
            errors: Vec::new(),
            path: Vec::new(),
            within_abstract_inline_fragment: false,
            disallowed_directives_attached: Vec::new(),
            parent_inline_fragment_directive: None,
            path_catch_map: Vec::new(),
            current_node_catch_children: Vec::new(),
            catch_children_map: Vec::new(),
        }
    }

    /// Forgets what was seen in the previous document: its tables, the
    /// directive names and the flags collected there.
    pub fn reset_state(&mut self)
        ensures
            final(self).wf(),
            final(self).errors == old(self).errors,
            final(self).path == old(self).path,
            !final(self).within_abstract_inline_fragment,
            final(self).disallowed_directives_attached@.len() == 0,
            final(self).parent_inline_fragment_directive is None,
            final(self).path_catch_map@.len() == 0,
            final(self).current_node_catch_children@.len() == 0,
            final(self).catch_children_map@.len() == 0,
    {
        self.path_catch_map = Vec::new();
        self.disallowed_directives_attached = Vec::new();
        self.within_abstract_inline_fragment = false;
        self.current_node_catch_children = Vec::new();
        self.parent_inline_fragment_directive = None;
        self.catch_children_map = Vec::new();
    }

    /// Everything but the diagnostics is as in `self`.
    pub open spec fn only_errors_changed(&self, next: &Self) -> bool {
        &&& next.path == self.path
        &&& next.within_abstract_inline_fragment == self.within_abstract_inline_fragment
        &&& next.disallowed_directives_attached == self.disallowed_directives_attached
        &&& next.parent_inline_fragment_directive == self.parent_inline_fragment_directive
        &&& next.path_catch_map == self.path_catch_map
        &&& next.current_node_catch_children == self.current_node_catch_children
        &&& next.catch_children_map == self.catch_children_map
    }

    fn push_error(&mut self, d: Diagnostic)
        ensures
            final(self).spec_reports() == old(self).spec_reports().push(d.report()),
            old(self).only_errors_changed(final(self)),
    {
        self.errors.push(d);
        assert(reports(self.errors@) =~= reports(old(self).errors@).push(d.report()));
    }

    pub fn assert_not_within_abstract_inline_fragment(&mut self, directive_location: Location)
        ensures
            final(self).spec_reports() == old(self).spec_reports() + abstract_reports(
                old(self).within_abstract_inline_fragment,
                directive_location,
            ),
            old(self).only_errors_changed(final(self)),
    {
        if self.within_abstract_inline_fragment {
            self.push_error(
                Diagnostic::error(
                    ValidationMessage::CatchWithinAbstractInlineFragment,
                    directive_location,
                ),
            );
        }
        assert(self.spec_reports() =~= old(self).spec_reports() + if old(
            self,
        ).within_abstract_inline_fragment {
            seq![
                (
                    ValidationMessage::CatchWithinAbstractInlineFragment,
                    directive_location,
                    Seq::<Annotation>::empty(),
                ),
            ]
        } else {
            Seq::<Report>::empty()
        });
    }

    pub fn assert_not_disallowed_directives_attached(&mut self, directive_location: Location)
        ensures
            final(self).spec_reports() == old(self).spec_reports() + disallowed_reports(
                old(self).disallowed_directives_attached@,
                directive_location,
            ),
            old(self).only_errors_changed(final(self)),
    {
        let ghost start = self.spec_reports();
        let n = self.disallowed_directives_attached.len();
        let mut i: usize = 0;
        while i < n
            invariant
                n == self.disallowed_directives_attached@.len(),
                0 <= i <= n,
                old(self).only_errors_changed(self),
                self.spec_reports() == start + disallowed_reports(
                    self.disallowed_directives_attached@.take(i as int),
                    directive_location,
                ),
            decreases n - i,
        {
            let name = self.disallowed_directives_attached[i].clone();
            self.push_error(
                Diagnostic::error(
                    ValidationMessage::CatchWithDisallowedDirective { directive_name: name },
                    directive_location,
                ),
            );
            assert(self.disallowed_directives_attached@.take(i + 1) =~= self.disallowed_directives_attached@.take(
                i as int,
            ).push(self.disallowed_directives_attached@[i as int]));
            i = i + 1;
        }
        assert(self.disallowed_directives_attached@.take(n as int)
            =~= self.disallowed_directives_attached@);
    }

    pub fn assert_not_within_inline_directive(&mut self, directive_location: Location)
        ensures
            final(self).spec_reports() == old(self).spec_reports() + inline_reports(
                old(self).parent_inline_fragment_directive,
                directive_location,
            ),
            old(self).only_errors_changed(final(self)),
    {
        if let Some(location) = self.parent_inline_fragment_directive {
            self.push_error(
                Diagnostic::error(
                    ValidationMessage::CatchWithinInlineDirective,
                    directive_location,
                ).annotate(Note::InlineDeclaredHere, location),
            );
            assert(self.spec_reports() =~= old(self).spec_reports() + seq![
                annotated(
                    ValidationMessage::CatchWithinInlineDirective,
                    directive_location,
                    Note::InlineDeclaredHere,
                    location,
                ),
            ]);
        } else {
            assert(self.spec_reports() =~= old(self).spec_reports() + Seq::<Report>::empty());
        }
    }

    /// Compares a field occurrence with the one first seen at its path, and
    /// records it when it is the first.
    pub fn assert_compatible_nullability(&mut self, path: String, current: MaybeCatchField)
        requires
            old(self).wf(),
        ensures
            final(self).wf(),
            final(self).spec_reports() == old(self).spec_reports() + nullability_reports(
                previous_field(old(self).path_catch_map@, path@),
                current,
            ),
            has_key(old(self).path_catch_map@, path@) ==> final(self).path_catch_map == old(
                self,
            ).path_catch_map,
            !has_key(old(self).path_catch_map@, path@) ==> final(self).path_catch_map@ == old(
                self,
            ).path_catch_map@.push(PathCatchEntry { path, field: current }),
            final(self).path == old(self).path,
            final(self).within_abstract_inline_fragment == old(
                self,
            ).within_abstract_inline_fragment,
            final(self).disallowed_directives_attached == old(self).disallowed_directives_attached,
            final(self).parent_inline_fragment_directive == old(
                self,
            ).parent_inline_fragment_directive,
            final(self).current_node_catch_children == old(self).current_node_catch_children,
            final(self).catch_children_map == old(self).catch_children_map,
    {
        let ghost expected = nullability_reports(
            previous_field(self.path_catch_map@, path@),
            current,
        );
        match find_key(&self.path_catch_map, &path) {
            Some(i) => {
                let previous_catch = self.path_catch_map[i].field.catch;
                let previous_location = self.path_catch_map[i].field.field_name.location;
                match (previous_catch, current.catch) {
                    (Some(p), Some(c)) => {
                        if p.to != c.to {
                            self.push_error(
                                Diagnostic::error(
                                    ValidationMessage::CatchToMismatch {
                                        field_name: current.field_name.item,
                                    },
                                    p.to_location,
                                ).annotate(Note::SameAsDeclaredHere, c.to_location),
                            );
                        }
                    },
                    (Some(_), None) => {
                        self.push_error(
                            Diagnostic::error(
                                ValidationMessage::CatchFieldMismatch {
                                    field_name: current.field_name.item,
                                },
                                previous_location,
                            ).annotate(Note::NotCatchHere, current.field_name.location),
                        );
                    },
                    (None, Some(_)) => {
                        self.push_error(
                            Diagnostic::error(
                                ValidationMessage::CatchFieldMismatch {
                                    field_name: current.field_name.item,
                                },
                                current.field_name.location,
                            ).annotate(Note::NotCatchHere, previous_location),
                        );
                    },
                    (None, None) => {},
                }
                assert(self.spec_reports() =~= old(self).spec_reports() + expected);
            },
            None => {
                let ghost before = self.path_catch_map@;
                insert_or_replace(&mut self.path_catch_map, PathCatchEntry { path, field: current });
                assert forall|i: int| 0 <= i < self.catch_children_map@.len() implies has_key(
                    self.path_catch_map@,
                    #[trigger] self.catch_children_map@[i].key(),
                ) by {
                    let k = self.catch_children_map@[i].key();
                    assert(has_key(before, k));
                }
                assert(self.spec_reports() =~= old(self).spec_reports() + expected);
            },
        }
    }

    /// Checks that no `@catch` child collected under the current field is
    /// less severe than the field's own annotation.
    pub fn assert_compatible_catch_children_severity(&mut self, catch_metadata: CatchMetadata)
        ensures
            final(self).spec_reports() == old(self).spec_reports() + severity_reports(
                old(self).current_node_catch_children@,
                catch_metadata,
            ),
            old(self).only_errors_changed(final(self)),
    {
        let ghost start = self.spec_reports();
        let n = self.current_node_catch_children.len();
        let mut i: usize = 0;
        while i < n
            invariant
                n == self.current_node_catch_children@.len(),
                0 <= i <= n,
                old(self).only_errors_changed(self),
                self.spec_reports() == start + severity_reports(
                    self.current_node_catch_children@.take(i as int),
                    catch_metadata,
                ),
            decreases n - i,
        {
            let ghost children = self.current_node_catch_children@;
            let child_to = self.current_node_catch_children[i].catch.to;
            let child_location = self.current_node_catch_children[i].catch.to_location;
            assert(children.take(i + 1).drop_last() =~= children.take(i as int));
            assert(children.take(i + 1).last() == children[i as int]);
            if child_to.is_less_severe_than(catch_metadata.to) {
                self.push_error(
                    Diagnostic::error(
                        ValidationMessage::CatchFieldInvalidNesting { suggested_action: child_to },
                        catch_metadata.to_location,
                    ).annotate(Note::MatchParent, child_location),
                );
            }
            assert(self.spec_reports() =~= start + severity_reports(children.take(i + 1), catch_metadata));
            i = i + 1;
        }
        assert(self.current_node_catch_children@.take(n as int)
            =~= self.current_node_catch_children@);
    }

    /// Compares the `@catch` children collected under the current field with
    /// those recorded the last time its path was visited.
    pub fn assert_compatible_catch_children(&mut self, field_location: Location, field_path: &String)
        requires
            old(self).wf(),
        ensures
            final(self).spec_reports() == old(self).spec_reports() + match lookup(
                old(self).catch_children_map@,
                field_path@,
            ) {
                Some(e) => children_reports(
                    old(self).current_node_catch_children@,
                    e.children@,
                    previous_field(old(self).path_catch_map@, field_path@)->0.field_name.location,
                    field_location,
                ),
                None => Seq::<Report>::empty(),
            },
            old(self).only_errors_changed(final(self)),
    {
        let si = match find_key(&self.catch_children_map, field_path) {
            Some(si) => si,
            None => {
                assert(self.spec_reports() =~= old(self).spec_reports() + Seq::<Report>::empty());
                return ;
            },
        };
        let pi = match find_key(&self.path_catch_map, field_path) {
            Some(pi) => pi,
            None => {
                proof {
                    assert(has_key(self.path_catch_map@, self.catch_children_map@[si as int].key()));
                }
                return ;
            },
        };
        let other_parent_location = self.path_catch_map[pi].field.field_name.location;
        let ghost start = self.spec_reports();
        let ghost current = self.current_node_catch_children@;
        let ghost previous = self.catch_children_map@[si as int].children@;
        let n = self.current_node_catch_children.len();
        let mut i: usize = 0;
        while i < n
            invariant
                n == current.len(),
                0 <= i <= n,
                si < self.catch_children_map@.len(),
                current == self.current_node_catch_children@,
                previous == self.catch_children_map@[si as int].children@,
                old(self).only_errors_changed(self),
                self.spec_reports() == start + missing_reports(
                    current.take(i as int),
                    previous,
                    other_parent_location,
                ),
            decreases n - i,
        {
            let found = find_key(
                &self.catch_children_map[si].children,
                &self.current_node_catch_children[i].path,
            );
            assert(current.take(i + 1).drop_last() =~= current.take(i as int));
            assert(current.take(i + 1).last() == current[i as int]);
            if found.is_none() {
                let name = self.current_node_catch_children[i].field_name.item.clone();
                let location = self.current_node_catch_children[i].field_name.location;
                self.push_error(
                    Diagnostic::error(
                        ValidationMessage::CatchFieldMissing { field_name: name },
                        location,
                    ).annotate(Note::MissingFrom, other_parent_location),
                );
            }
            assert(self.spec_reports() =~= start + missing_reports(
                current.take(i + 1),
                previous,
                other_parent_location,
            ));
            i = i + 1;
        }
        assert(current.take(n as int) =~= current);
        let ghost middle = self.spec_reports();
        let m = self.catch_children_map[si].children.len();
        let mut j: usize = 0;
        while j < m
            invariant
                m == previous.len(),
                0 <= j <= m,
                si < self.catch_children_map@.len(),
                current == self.current_node_catch_children@,
                previous == self.catch_children_map@[si as int].children@,
                old(self).only_errors_changed(self),
                self.spec_reports() == middle + missing_reports(
                    previous.take(j as int),
                    current,
                    field_location,
                ),
            decreases m - j,
        {
            let found = find_key(
                &self.current_node_catch_children,
                &self.catch_children_map[si].children[j].path,
            );
            assert(previous.take(j + 1).drop_last() =~= previous.take(j as int));
            assert(previous.take(j + 1).last() == previous[j as int]);
            if found.is_none() {
                let name = self.catch_children_map[si].children[j].field_name.item.clone();
                let location = self.catch_children_map[si].children[j].field_name.location;
                self.push_error(
                    Diagnostic::error(
                        ValidationMessage::CatchFieldMissing { field_name: name },
                        location,
                    ).annotate(Note::MissingFrom, field_location),
                );
            }
            assert(self.spec_reports() =~= middle + missing_reports(
                previous.take(j + 1),
                current,
                field_location,
            ));
            j = j + 1;
        }
        assert(previous.take(m as int) =~= previous);
        proof {
            lemma_lookup_at(old(self).catch_children_map@, si as int);
            lemma_lookup_at(old(self).path_catch_map@, pi as int);
        }
        assert(self.spec_reports() =~= old(self).spec_reports() + children_reports(
            current,
            previous,
            other_parent_location,
            field_location,
        ));
    }
}

} // verus!
