use vstd::prelude::*;

use crate::catchable_field::{catch_metadata_of, directives_valid, CatchMetadata, CatchableField};
use crate::ir::{Directive, InlineFragment, LinkedField, Location, Named, ScalarField, Selection};
use crate::finder::{selection_has_catch, selections_have_catch};
use crate::keyed::{has_key, insert_or_replace, lookup, Keyed};
use crate::path::{join_path, joined};
use crate::rewrite::{
    add_metadata_directive, children_can_bubble, is_bubble_directive, is_metadata_directive,
    maybe_add_children_can_bubble_metadata_directive, maybe_add_disallowed_directives,
    non_catch_names,
};
use crate::diagnostic::Report;
use crate::validator::{
    children_reports, occurrence_reports, previous_field, severity_reports, CatchDirective, CatchField,
    ChildrenEntry, MaybeCatchField, PathCatchEntry,
};

verus! {

/// Every `@catch` directive in the selection has a well-formed `to` argument.
pub open spec fn selection_valid(sel: Selection) -> bool
    decreases sel,
{
    match sel {
        Selection::ScalarField(f) => directives_valid(f.directives@),
        Selection::LinkedField(f) => directives_valid(f.directives@) && selections_valid(
            f.selections,
        ),
        Selection::InlineFragment(f) => selections_valid(f.selections),
        Selection::FragmentSpread(_) => true,
    }
}

pub open spec fn selections_valid(sels: Vec<Selection>) -> bool
    decreases sels,
{
    forall|i: int| 0 <= i < sels@.len() ==> selection_valid(#[trigger] sels@[i])
}

/// `b` is `a` with nothing rewritten.
pub open spec fn same_selection(a: Selection, b: Selection) -> bool
    decreases a,
{
    match (a, b) {
        (Selection::ScalarField(x), Selection::ScalarField(y)) => x == y,
        (Selection::LinkedField(x), Selection::LinkedField(y)) => {
            &&& x.alias == y.alias
            &&& x.definition == y.definition
            &&& x.directives@ == y.directives@
            &&& same_selections(x.selections, y.selections)
        },
        (Selection::InlineFragment(x), Selection::InlineFragment(y)) => {
            &&& x.type_condition == y.type_condition
            &&& x.alias == y.alias
            &&& x.directives@ == y.directives@
            &&& same_selections(x.selections, y.selections)
        },
        (Selection::FragmentSpread(x), Selection::FragmentSpread(y)) => x == y,
        _ => false,
    }
}

pub open spec fn same_selections(a: Vec<Selection>, b: Vec<Selection>) -> bool
    decreases a,
{
    &&& a@.len() == b@.len()
    &&& forall|i: int| 0 <= i < a@.len() ==> same_selection(#[trigger] a@[i], b@[i])
}

/// `result` is `original` followed by the metadata directive when the field
/// has an annotation `m`, then by the bubble marker when `bubble` holds.
pub open spec fn rewritten_directives(
    original: Seq<Directive>,
    result: Seq<Directive>,
    key: Seq<char>,
    m: Option<CatchMetadata>,
    bubble: bool,
) -> bool {
    let n = original.len();
    let k = if m is Some {
        n + 1
    } else {
        n
    };
    &&& result.len() == if bubble {
        k + 1
    } else {
        k
    }
    &&& result.take(n as int) == original
    &&& (m matches Some(c) ==> is_metadata_directive(result[n as int], key, c.to))
    &&& (bubble ==> is_bubble_directive(result[k as int]))
}

/// `result` is `original` with the directives that the pass may add to a
/// field at `key` whose annotation is `m`.
pub open spec fn annotated_directives(
    original: Seq<Directive>,
    result: Seq<Directive>,
    key: Seq<char>,
    m: Option<CatchMetadata>,
) -> bool {
    rewritten_directives(original, result, key, m, false) || rewritten_directives(
        original,
        result,
        key,
        m,
        true,
    )
}

/// `out` is `sel`, visited below the path `path`, as the pass rewrites it:
/// a scalar field without `@catch` is kept; one with it gains the metadata
/// directive for its path and severity; a linked field gains that directive
/// and possibly the bubble marker, and its selections are rewritten below
/// its own path; an inline fragment's selections are rewritten below its
/// alias, if it has one; a spread is kept.
pub open spec fn rewritten_selection(path: Seq<String>, sel: Selection, out: Selection) -> bool
    decreases sel,
{
    match (sel, out) {
        (Selection::ScalarField(x), Selection::ScalarField(y)) => {
            let key = joined(path.push(x.spec_alias_or_name().item));
            match catch_metadata_of(x.directives@) {
                None => y == x,
                Some(m) => {
                    &&& y.alias == x.alias
                    &&& y.definition == x.definition
                    &&& y.directives@.len() == x.directives@.len() + 1
                    &&& y.directives@.drop_last() == x.directives@
                    &&& is_metadata_directive(y.directives@.last(), key, m.to)
                },
            }
        },
        (Selection::LinkedField(x), Selection::LinkedField(y)) => {
            let below = path.push(x.spec_alias_or_name().item);
            &&& y.alias == x.alias
            &&& y.definition == x.definition
            &&& annotated_directives(
                x.directives@,
                y.directives@,
                joined(below),
                catch_metadata_of(x.directives@),
            )
            &&& rewritten_selections(below, x.selections, y.selections)
        },
        (Selection::InlineFragment(x), Selection::InlineFragment(y)) => {
            &&& y.type_condition == x.type_condition
            &&& y.alias == x.alias
            &&& y.directives == x.directives
            &&& rewritten_selections(
                match x.alias {
                    Some(a) => path.push(a.item),
                    None => path,
                },
                x.selections,
                y.selections,
            )
        },
        (Selection::FragmentSpread(x), Selection::FragmentSpread(y)) => y == x,
        _ => false,
    }
}

pub open spec fn rewritten_selections(path: Seq<String>, sels: Vec<Selection>, out: Vec<Selection>) -> bool
    decreases sels,
{
    &&& sels@.len() == out@.len()
    &&& forall|i: int| 0 <= i < sels@.len() ==> rewritten_selection(path, #[trigger] sels@[i], out@[i])
}

/// Selections that carry no `@catch` are their own rewrite.
pub proof fn lemma_unannotated_selection_kept(path: Seq<String>, sel: Selection)
    requires
        !selection_has_catch(sel),
    ensures
        rewritten_selection(path, sel, sel),
    decreases sel,
{
    match sel {
        Selection::LinkedField(x) => {
            let below = path.push(x.spec_alias_or_name().item);
            assert(x.directives@.take(x.directives@.len() as int) =~= x.directives@);
            lemma_unannotated_selections_kept(below, x.selections);
        },
        Selection::InlineFragment(x) => {
            lemma_unannotated_selections_kept(
                match x.alias {
                    Some(a) => path.push(a.item),
                    None => path,
                },
                x.selections,
            );
        },
        _ => {},
    }
}

pub proof fn lemma_unannotated_selections_kept(path: Seq<String>, sels: Vec<Selection>)
    requires
        !selections_have_catch(sels),
    ensures
        rewritten_selections(path, sels, sels),
    decreases sels,
{
    assert forall|i: int| 0 <= i < sels@.len() implies rewritten_selection(
        path,
        #[trigger] sels@[i],
        sels@[i],
    ) by {
        vstd::std_specs::vec::axiom_vec_index_decreases(sels, i);
        lemma_unannotated_selection_kept(path, sels@[i]);
    }
}

/// The accumulator `b` is `a` with the `@catch` field `name` at `key`,
/// annotated `m`, put in place of the entry with that key or appended.
pub open spec fn acc_put(
    a: Seq<CatchField>,
    b: Seq<CatchField>,
    key: Seq<char>,
    m: CatchMetadata,
    name: Named,
) -> bool {
    if has_key(a, key) {
        &&& b.len() == a.len()
        &&& forall|i: int|
            0 <= i < a.len() ==> if (#[trigger] a[i]).key() == key {
                b[i].key() == key && b[i].catch == m && b[i].field_name == name
            } else {
                b[i] == a[i]
            }
    } else {
        &&& b.len() == a.len() + 1
        &&& b.drop_last() == a
        &&& b.last().key() == key
        &&& b.last().catch == m
        &&& b.last().field_name == name
    }
}

/// What examining one field occurrence at `key`, with directives `dirs` and
/// the directive names `chain` above and on it, does to the state: its
/// reports, its first-seen record, and its entry among the `@catch` children.
pub open spec fn occurrence_step(
    s0: CatchDirective,
    chain: Seq<String>,
    key: Seq<char>,
    dirs: Seq<Directive>,
    name: Named,
    s1: CatchDirective,
) -> bool {
    let m = catch_metadata_of(dirs);
    let current = MaybeCatchField { catch: m, field_name: name };
    &&& s1.spec_reports() == s0.spec_reports() + occurrence_reports(
        chain,
        s0.within_abstract_inline_fragment,
        s0.parent_inline_fragment_directive,
        previous_field(s0.path_catch_map@, key),
        current,
    )
    &&& has_key(s0.path_catch_map@, key) ==> s1.path_catch_map@ == s0.path_catch_map@
    &&& !has_key(s0.path_catch_map@, key) ==> {
        &&& s1.path_catch_map@.len() == s0.path_catch_map@.len() + 1
        &&& s1.path_catch_map@.drop_last() == s0.path_catch_map@
        &&& s1.path_catch_map@.last().path@ == key
        &&& s1.path_catch_map@.last().field == current
    }
    &&& m is None ==> s1.current_node_catch_children@ == s0.current_node_catch_children@
    &&& (m matches Some(c) ==> acc_put(
        s0.current_node_catch_children@,
        s1.current_node_catch_children@,
        key,
        c,
        name,
    ))
    &&& s1.catch_children_map == s0.catch_children_map
}

/// `b` has the path, flags and directive chain of `a`.
pub open spec fn same_context(a: CatchDirective, b: CatchDirective) -> bool {
    &&& b.path@ == a.path@
    &&& b.within_abstract_inline_fragment == a.within_abstract_inline_fragment
    &&& b.disallowed_directives_attached@ == a.disallowed_directives_attached@
    &&& b.parent_inline_fragment_directive == a.parent_inline_fragment_directive
}

/// The reports of the children check of a field at `key`, written at
/// `location`, against the children recorded by an earlier visit.
pub open spec fn snapshot_reports(s: CatchDirective, key: Seq<char>, location: Location) -> Seq<
    Report,
> {
    match lookup(s.catch_children_map@, key) {
        Some(e) => children_reports(
            s.current_node_catch_children@,
            e.children@,
            previous_field(s.path_catch_map@, key)->0.field_name.location,
            location,
        ),
        None => Seq::empty(),
    }
}

/// Around the visit of linked field `f` from `s0` to `s3`: its selections
/// are visited from `c0`, below its path with an empty accumulator and
/// outside any abstract fragment, to `c1`; then the children collected in
/// `c1` are checked against the snapshot of an earlier visit and against
/// the field's own severity, and stored as the new snapshot.
pub open spec fn linked_frame(
    s0: CatchDirective,
    f: LinkedField,
    c0: CatchDirective,
    c1: CatchDirective,
    s3: CatchDirective,
) -> bool {
    let name = f.spec_alias_or_name();
    let key = s0.key_below(name.item);
    let m = catch_metadata_of(f.directives@);
    &&& c0.wf()
    &&& c0.spec_reports() == s0.spec_reports() + occurrence_reports(
        s0.disallowed_directives_attached@ + non_catch_names(f.directives@),
        s0.within_abstract_inline_fragment,
        s0.parent_inline_fragment_directive,
        previous_field(s0.path_catch_map@, key),
        MaybeCatchField { catch: m, field_name: name },
    )
    &&& has_key(s0.path_catch_map@, key) ==> c0.path_catch_map@ == s0.path_catch_map@
    &&& !has_key(s0.path_catch_map@, key) ==> {
        &&& c0.path_catch_map@.len() == s0.path_catch_map@.len() + 1
        &&& c0.path_catch_map@.drop_last() == s0.path_catch_map@
        &&& c0.path_catch_map@.last().path@ == key
        &&& c0.path_catch_map@.last().field == (MaybeCatchField { catch: m, field_name: name })
    }
    &&& m is None ==> s3.current_node_catch_children@ == s0.current_node_catch_children@
    &&& (m matches Some(c) ==> acc_put(
        s0.current_node_catch_children@,
        s3.current_node_catch_children@,
        key,
        c,
        name,
    ))
    &&& same_context(s0, s3)
    &&& c0.current_node_catch_children@.len() == 0
    &&& c0.path@ == s0.path@.push(name.item)
    &&& !c0.within_abstract_inline_fragment
    &&& c0.disallowed_directives_attached@ == s0.disallowed_directives_attached@ + non_catch_names(
        f.directives@,
    )
    &&& c0.parent_inline_fragment_directive == s0.parent_inline_fragment_directive
    &&& c0.catch_children_map == s0.catch_children_map
    &&& c0.restored(&c1)
    &&& s3.spec_reports() == c1.spec_reports() + snapshot_reports(c1, key, name.location) + match m {
        Some(c) => severity_reports(c1.current_node_catch_children@, c),
        None => Seq::<Report>::empty(),
    }
    &&& s3.path_catch_map == c1.path_catch_map
    &&& (lookup(s3.catch_children_map@, key) matches Some(e) && e.children@
        == c1.current_node_catch_children@)
    &&& forall|k: Seq<char>|
        k != key ==> #[trigger] lookup(s3.catch_children_map@, k) == lookup(
            c1.catch_children_map@,
            k,
        )
}

/// Around the visit of inline fragment `f` from `s0` to `s1`: its
/// selections are visited from `c0` to `c1`, below its alias if it has one,
/// and inside an abstract type if it has no alias and its condition is one;
/// nothing else changes.
pub open spec fn inline_frame(
    s0: CatchDirective,
    f: InlineFragment,
    c0: CatchDirective,
    c1: CatchDirective,
    s1: CatchDirective,
) -> bool {
    &&& c0.errors == s0.errors
    &&& c0.path_catch_map == s0.path_catch_map
    &&& c0.current_node_catch_children == s0.current_node_catch_children
    &&& c0.catch_children_map == s0.catch_children_map
    &&& c0.path@ == match f.alias {
        Some(a) => s0.path@.push(a.item),
        None => s0.path@,
    }
    &&& c0.within_abstract_inline_fragment == match (f.alias, f.type_condition) {
        (None, Some(t)) => s0.within_abstract_inline_fragment || t.is_abstract,
        _ => s0.within_abstract_inline_fragment,
    }
    &&& c0.disallowed_directives_attached@ == s0.disallowed_directives_attached@
    &&& c0.parent_inline_fragment_directive == s0.parent_inline_fragment_directive
    &&& c0.restored(&c1)
    &&& s1.errors == c1.errors
    &&& s1.path_catch_map == c1.path_catch_map
    &&& s1.current_node_catch_children == c1.current_node_catch_children
    &&& s1.catch_children_map == c1.catch_children_map
}

/// The states met while visiting selections: for a list, the states between
/// its selections and the trace of each; for a linked field or an inline
/// fragment, the states before and after its own selections and their trace.
pub enum Trace {
    List(Seq<CatchDirective>, Seq<Trace>),
    Nested(CatchDirective, CatchDirective, Seq<Trace>),
    Leaf,
}

/// Visiting `sel` takes state `s0` to `s1`, meeting the states of `t`, and
/// rewrites it to `out`: a scalar field gains the metadata directive when it
/// has `@catch`; a linked field gains it too, then the bubble marker exactly
/// when some `@catch` child collected below it is not of the weakest
/// severity; inline fragments and linked fields have their selections
/// rewritten in turn; a spread is kept.
pub open spec fn selection_walk(
    s0: CatchDirective,
    sel: Selection,
    out: Selection,
    s1: CatchDirective,
    t: Trace,
) -> bool
    decreases sel,
{
    match sel {
        Selection::ScalarField(f) => {
            &&& scalar_visit(s0, f, s1)
            &&& out matches Selection::ScalarField(y) && match catch_metadata_of(f.directives@) {
                None => y == f,
                Some(m) => {
                    &&& y.alias == f.alias
                    &&& y.definition == f.definition
                    &&& y.directives@.len() == f.directives@.len() + 1
                    &&& y.directives@.drop_last() == f.directives@
                    &&& is_metadata_directive(
                        y.directives@.last(),
                        s0.key_below(f.spec_alias_or_name().item),
                        m.to,
                    )
                },
            }
        },
        Selection::LinkedField(f) => match (t, out) {
            (Trace::Nested(c0, c1, inner), Selection::LinkedField(y)) => {
                &&& inner.len() == 1
                &&& linked_frame(s0, f, c0, c1, s1)
                &&& y.alias == f.alias
                &&& y.definition == f.definition
                &&& rewritten_directives(
                    f.directives@,
                    y.directives@,
                    s0.key_below(f.spec_alias_or_name().item),
                    catch_metadata_of(f.directives@),
                    children_can_bubble(c1.current_node_catch_children@),
                )
                &&& selections_walk(c0, f.selections, y.selections, c1, inner[0])
            },
            _ => false,
        },
        Selection::InlineFragment(f) => match (t, out) {
            (Trace::Nested(c0, c1, inner), Selection::InlineFragment(y)) => {
                &&& inner.len() == 1
                &&& inline_frame(s0, f, c0, c1, s1)
                &&& y.type_condition == f.type_condition
                &&& y.alias == f.alias
                &&& y.directives == f.directives
                &&& selections_walk(c0, f.selections, y.selections, c1, inner[0])
            },
            _ => false,
        },
        Selection::FragmentSpread(_) => s1 == s0 && out == sel,
    }
}

/// Visiting `sels` in order takes state `s0` to `s1`, meeting the states of
/// `t`, and rewrites them to `outs`.
pub open spec fn selections_walk(
    s0: CatchDirective,
    sels: Vec<Selection>,
    outs: Vec<Selection>,
    s1: CatchDirective,
    t: Trace,
) -> bool
    decreases sels,
{
    match t {
        Trace::List(states, subs) => {
            &&& states.len() == sels@.len() + 1
            &&& subs.len() == sels@.len()
            &&& outs@.len() == sels@.len()
            &&& states[0] == s0
            &&& states.last() == s1
            &&& forall|i: int|
                0 <= i < sels@.len() ==> selection_walk(
                    states[i],
                    #[trigger] sels@[i],
                    outs@[i],
                    states[i + 1],
                    subs[i],
                )
        },
        _ => false,
    }
}

/// Visiting scalar field `f` takes state `s0` to `s1`.
pub open spec fn scalar_visit(s0: CatchDirective, f: ScalarField, s1: CatchDirective) -> bool {
    &&& occurrence_step(
        s0,
        s0.disallowed_directives_attached@ + non_catch_names(f.directives@),
        s0.key_below(f.spec_alias_or_name().item),
        f.directives@,
        f.spec_alias_or_name(),
        s1,
    )
    &&& same_context(s0, s1)
}

impl CatchDirective {
    /// Restoring the traversal state is transitive.
    pub proof fn lemma_restored_trans(a: &Self, b: &Self, c: &Self)
        requires
            a.restored(b),
            b.restored(c),
        ensures
            a.restored(c),
    {
        let (ra, rb, rc) = (a.spec_reports(), b.spec_reports(), c.spec_reports());
        assert(ra =~= rc.subrange(0, ra.len() as int)) by {
            assert forall|i: int| 0 <= i < ra.len() implies ra[i] == rc[i] by {
                assert(ra[i] == rb[i]);
                assert(rb[i] == rc[i]);
            }
        }
    }

    /// The key of a field named `segment` below the current path.
    pub open spec fn key_below(&self, segment: String) -> Seq<char> {
        joined(self.path@.push(segment))
    }

    /// The traversal state that a visit leaves as it found it.
    pub open spec fn restored(&self, next: &Self) -> bool {
        &&& next.wf()
        &&& next.path@ == self.path@
        &&& next.within_abstract_inline_fragment == self.within_abstract_inline_fragment
        &&& next.disallowed_directives_attached@ == self.disallowed_directives_attached@
        &&& next.parent_inline_fragment_directive == self.parent_inline_fragment_directive
        &&& self.spec_reports().is_prefix_of(next.spec_reports())
        &&& forall|k: Seq<char>|
            has_key(self.path_catch_map@, k) ==> #[trigger] has_key(next.path_catch_map@, k)
    }

    /// Extracts a field occurrence's annotation, runs the placement checks
    /// when it has one, records it among the current field's `@catch`
    /// children, and compares it with the occurrence first seen at its path.
    pub fn get_catch_metadata<T: CatchableField>(&mut self, field: &T, path_name: &String) -> (r:
        Option<CatchMetadata>)
        requires
            old(self).wf(),
            directives_valid(field.spec_directives()),
        ensures
            r == catch_metadata_of(field.spec_directives()),
            final(self).wf(),
            final(self).spec_reports() == old(self).spec_reports() + occurrence_reports(
                old(self).disallowed_directives_attached@,
                old(self).within_abstract_inline_fragment,
                old(self).parent_inline_fragment_directive,
                previous_field(old(self).path_catch_map@, path_name@),
                MaybeCatchField { catch: r, field_name: field.spec_name_with_location() },
            ),
            has_key(final(self).path_catch_map@, path_name@),
            forall|k: Seq<char>|
                has_key(old(self).path_catch_map@, k) ==> #[trigger] has_key(
                    final(self).path_catch_map@,
                    k,
                ),
            has_key(old(self).path_catch_map@, path_name@) ==> final(self).path_catch_map == old(
                self,
            ).path_catch_map,
            !has_key(old(self).path_catch_map@, path_name@) ==> final(self).path_catch_map@ == old(
                self,
            ).path_catch_map@.push(
                PathCatchEntry {
                    path: *path_name,
                    field: MaybeCatchField { catch: r, field_name: field.spec_name_with_location() },
                },
            ),
            (r matches Some(c) ==> acc_put(
                old(self).current_node_catch_children@,
                final(self).current_node_catch_children@,
                path_name@,
                c,
                field.spec_name_with_location(),
            )),
            r is None ==> final(self).current_node_catch_children == old(
                self,
            ).current_node_catch_children,
            r matches Some(m) ==> lookup(final(self).current_node_catch_children@, path_name@)
                == Some(
                CatchField { path: *path_name, catch: m, field_name: field.spec_name_with_location() },
            ),
            forall|k: Seq<char>|
                k != path_name@ ==> lookup(final(self).current_node_catch_children@, k) == lookup(
                    old(self).current_node_catch_children@,
                    k,
                ),
            final(self).path == old(self).path,
            final(self).within_abstract_inline_fragment == old(
                self,
            ).within_abstract_inline_fragment,
            final(self).disallowed_directives_attached == old(self).disallowed_directives_attached,
            final(self).parent_inline_fragment_directive == old(
                self,
            ).parent_inline_fragment_directive,
            final(self).catch_children_map == old(self).catch_children_map,
    {
        let maybe_catch = field.catch_metadata();
        let field_name = field.name_with_location();
        let ghost start = self.spec_reports();
        if let Some(metadata) = maybe_catch {
            self.assert_not_disallowed_directives_attached(metadata.directive_location);
            self.assert_not_within_abstract_inline_fragment(metadata.directive_location);
            self.assert_not_within_inline_directive(metadata.directive_location);
            let ghost acc_before = self.current_node_catch_children@;
            let entry = CatchField {
                path: path_name.clone(),
                catch: metadata,
                field_name: field_name.duplicate(),
            };
            insert_or_replace(&mut self.current_node_catch_children, entry);
            proof {
                let acc_after = self.current_node_catch_children@;
                if has_key(acc_before, path_name@) {
                    assert forall|i: int| 0 <= i < acc_before.len() implies if (
                    #[trigger] acc_before[i]).key() == path_name@ {
                        acc_after[i].key() == path_name@ && acc_after[i].catch == metadata
                            && acc_after[i].field_name == field_name
                    } else {
                        acc_after[i] == acc_before[i]
                    } by {
                        assert(acc_after[i] == if acc_before[i].key() == entry.key() {
                            entry
                        } else {
                            acc_before[i]
                        });
                    }
                }
                if !has_key(acc_before, path_name@) {
                    assert(acc_after.drop_last() =~= acc_before);
                }
                assert(acc_put(acc_before, acc_after, path_name@, metadata, field_name));
            }
        }
        let ghost before_map = self.path_catch_map@;
        self.assert_compatible_nullability(
            path_name.clone(),
            MaybeCatchField { catch: maybe_catch, field_name },
        );
        proof {
            if !has_key(before_map, path_name@) {
                assert(self.path_catch_map@[before_map.len() as int].key() == path_name@);
                assert forall|k: Seq<char>| has_key(before_map, k) implies #[trigger] has_key(
                    self.path_catch_map@,
                    k,
                ) by {
                    let j = choose|j: int| 0 <= j < before_map.len() && #[trigger] before_map[j].key() == k;
                    assert(self.path_catch_map@[j] == before_map[j]);
                }
            }
        }
        assert(self.spec_reports() =~= start + occurrence_reports(
            old(self).disallowed_directives_attached@,
            old(self).within_abstract_inline_fragment,
            old(self).parent_inline_fragment_directive,
            previous_field(old(self).path_catch_map@, path_name@),
            MaybeCatchField { catch: maybe_catch, field_name },
        ));
        maybe_catch
    }

    /// Visits a scalar field: a field with `@catch` gets the metadata
    /// directive; one without is handed back as it was.
    pub fn transform_scalar_field(&mut self, field: ScalarField) -> (r: (ScalarField, bool))
        requires
            old(self).wf(),
            directives_valid(field.directives@),
        ensures
            old(self).restored(final(self)),
            scalar_visit(*old(self), field, *final(self)),
            final(self).catch_children_map == old(self).catch_children_map,
            ({
                let key = old(self).key_below(field.spec_alias_or_name().item);
                &&& has_key(old(self).path_catch_map@, key) ==> final(self).path_catch_map == old(
                    self,
                ).path_catch_map
                &&& !has_key(old(self).path_catch_map@, key) ==> final(self).path_catch_map@.len()
                    == old(self).path_catch_map@.len() + 1 && final(self).path_catch_map@.drop_last()
                    == old(self).path_catch_map@ && final(self).path_catch_map@.last().path@ == key
                    && final(self).path_catch_map@.last().field == (MaybeCatchField {
                    catch: catch_metadata_of(field.directives@),
                    field_name: field.spec_alias_or_name(),
                })
                &&& catch_metadata_of(field.directives@) is None
                    ==> final(self).current_node_catch_children == old(
                    self,
                ).current_node_catch_children
                &&& catch_metadata_of(field.directives@) matches Some(m) ==> lookup(
                    final(self).current_node_catch_children@,
                    key,
                ) matches Some(e) && e.path@ == key && e.catch == m && e.field_name
                    == field.spec_alias_or_name()
                &&& forall|k: Seq<char>|
                    k != key ==> #[trigger] lookup(final(self).current_node_catch_children@, k)
                        == lookup(old(self).current_node_catch_children@, k)
            }),
            r.1 == catch_metadata_of(field.directives@) is Some,
            !r.1 ==> r.0 == field,
            r.0.alias == field.alias,
            r.0.definition == field.definition,
            catch_metadata_of(field.directives@) matches Some(m) ==> {
                &&& r.0.directives@.len() == field.directives@.len() + 1
                &&& r.0.directives@.drop_last() == field.directives@
                &&& is_metadata_directive(
                    r.0.directives@.last(),
                    old(self).key_below(field.spec_alias_or_name().item),
                    m.to,
                )
            },
            final(self).spec_reports() == old(self).spec_reports() + occurrence_reports(
                old(self).disallowed_directives_attached@ + non_catch_names(field.directives@),
                old(self).within_abstract_inline_fragment,
                old(self).parent_inline_fragment_directive,
                previous_field(
                    old(self).path_catch_map@,
                    old(self).key_below(field.spec_alias_or_name().item),
                ),
                MaybeCatchField {
                    catch: catch_metadata_of(field.directives@),
                    field_name: field.spec_alias_or_name(),
                },
            ),
    {
        let name = field.alias_or_name();
        self.path.push(name.item);
        let path_name = join_path(&self.path);
        self.path.pop();
        let mut chain = maybe_add_disallowed_directives(
            &field.directives,
            &self.disallowed_directives_attached,
        );
        std::mem::swap(&mut chain, &mut self.disallowed_directives_attached);
        let maybe_catch = self.get_catch_metadata(&field, &path_name);
        std::mem::swap(&mut chain, &mut self.disallowed_directives_attached);
        assert(self.path@ =~= old(self).path@);
        assert(self.path_catch_map@.drop_last() =~= old(self).path_catch_map@
            || has_key(old(self).path_catch_map@, path_name@));
        match maybe_catch {
            None => (field, false),
            Some(m) => {
                let ScalarField { alias, definition, mut directives } = field;
                add_metadata_directive(&mut directives, &path_name, m.to);
                (ScalarField { alias, definition, directives }, true)
            },
        }
    }

    /// Visits a linked field: checks its annotation, visits its selections
    /// with an accumulator of its own, compares the `@catch` children found
    /// there with those of earlier occurrences and with its own severity, and
    /// adds the metadata directive and the bubble marker where they apply.
    pub fn transform_linked_field(&mut self, field: LinkedField) -> (r: (LinkedField, bool))
        requires
            old(self).wf(),
            directives_valid(field.directives@),
            selections_valid(field.selections),
        ensures
            old(self).restored(final(self)),
            r.0.alias == field.alias,
            r.0.definition == field.definition,
            r.0.selections@.len() == field.selections@.len(),
            r.1 <==> !(same_selections(field.selections, r.0.selections) && r.0.directives@
                == field.directives@),
            rewritten_selections(
                old(self).path@.push(field.spec_alias_or_name().item),
                field.selections,
                r.0.selections,
            ),
            exists|c0: CatchDirective, c1: CatchDirective|
                #[trigger] linked_frame(*old(self), field, c0, c1, *final(self)),
            exists|t: Trace|
                #[trigger] selection_walk(
                    *old(self),
                    Selection::LinkedField(field),
                    Selection::LinkedField(r.0),
                    *final(self),
                    t,
                ),
            ({
                let key = old(self).key_below(field.spec_alias_or_name().item);
                let own = occurrence_reports(
                    old(self).disallowed_directives_attached@ + non_catch_names(field.directives@),
                    old(self).within_abstract_inline_fragment,
                    old(self).parent_inline_fragment_directive,
                    previous_field(old(self).path_catch_map@, key),
                    MaybeCatchField {
                        catch: catch_metadata_of(field.directives@),
                        field_name: field.spec_alias_or_name(),
                    },
                );
                (old(self).spec_reports() + own).is_prefix_of(final(self).spec_reports())
            }),
            has_key(
                final(self).catch_children_map@,
                old(self).key_below(field.spec_alias_or_name().item),
            ),
            ({
                let key = old(self).key_below(field.spec_alias_or_name().item);
                let collected = lookup(final(self).catch_children_map@, key)->0.children@;
                rewritten_directives(
                    field.directives@,
                    r.0.directives@,
                    key,
                    catch_metadata_of(field.directives@),
                    children_can_bubble(collected),
                )
            }),
            ({
                let key = old(self).key_below(field.spec_alias_or_name().item);
                let collected = lookup(final(self).catch_children_map@, key)->0.children@;
                catch_metadata_of(field.directives@) matches Some(c)
                    ==> severity_reports(collected, c).is_suffix_of(final(self).spec_reports())
            }),
            catch_metadata_of(field.directives@) is None ==> final(self).current_node_catch_children
                == old(self).current_node_catch_children,
            forall|k: Seq<char>|
                k != old(self).key_below(field.spec_alias_or_name().item) ==> #[trigger] lookup(
                    final(self).current_node_catch_children@,
                    k,
                ) == lookup(old(self).current_node_catch_children@, k),
            ({
                let key = old(self).key_below(field.spec_alias_or_name().item);
                catch_metadata_of(field.directives@) matches Some(c) ==> lookup(
                    final(self).current_node_catch_children@,
                    key,
                ) matches Some(e) && e.path@ == key && e.catch == c && e.field_name
                    == field.spec_alias_or_name()
            }),
        decreases field,
    {
        let name = field.alias_or_name();
        let name_location = name.location;
        self.path.push(name.item);
        let path_name = join_path(&self.path);
        let mut chain = maybe_add_disallowed_directives(
            &field.directives,
            &self.disallowed_directives_attached,
        );
        std::mem::swap(&mut chain, &mut self.disallowed_directives_attached);
        let maybe_catch = self.get_catch_metadata(&field, &path_name);
        let ghost s1 = *self;
        let ghost below = self.path@;
        let LinkedField { alias, definition, mut directives, selections } = field;
        if let Some(m) = maybe_catch {
            add_metadata_directive(&mut directives, &path_name, m.to);
        }
        let mut parent_children: Vec<CatchField> = Vec::new();
        std::mem::swap(&mut parent_children, &mut self.current_node_catch_children);
        let previous_abstract = self.within_abstract_inline_fragment;
        self.within_abstract_inline_fragment = false;
        let ghost c0 = *self;
        let (next_selections, selections_changed) = self.transform_selections(selections);
        let ghost s3 = *self;
        self.assert_compatible_catch_children(name_location, &path_name);
        let ghost s4 = *self;
        if let Some(m) = maybe_catch {
            self.assert_compatible_catch_children_severity(m);
        }
        let ghost s5 = *self;
        let bubble = maybe_add_children_can_bubble_metadata_directive(
            &mut directives,
            &self.current_node_catch_children,
        );
        self.within_abstract_inline_fragment = previous_abstract;
        std::mem::swap(&mut parent_children, &mut self.current_node_catch_children);
        let ghost collected = parent_children@;
        insert_or_replace(
            &mut self.catch_children_map,
            ChildrenEntry { path: path_name, children: parent_children },
        );
        std::mem::swap(&mut chain, &mut self.disallowed_directives_attached);
        self.path.pop();
        assert(self.path@ =~= old(self).path@);
        proof {
            assert forall|i: int| 0 <= i < self.catch_children_map@.len() implies has_key(
                self.path_catch_map@,
                #[trigger] self.catch_children_map@[i].key(),
            ) by {
                let k = self.catch_children_map@[i].key();
                if k != path_name@ {
                    assert(has_key(s5.catch_children_map@, k));
                    let j = choose|j: int| 0 <= j < s5.catch_children_map@.len() && #[trigger] s5.catch_children_map@[j].key() == k;
                    assert(has_key(s5.path_catch_map@, s5.catch_children_map@[j].key()));
                }
            }
            let (r0, r1, r3, r4, r5, rf) = (
                old(self).spec_reports(),
                s1.spec_reports(),
                s3.spec_reports(),
                s4.spec_reports(),
                s5.spec_reports(),
                self.spec_reports(),
            );
            assert(rf == r5);
            assert(r1.is_prefix_of(rf)) by {
                assert forall|i: int| 0 <= i < r1.len() implies r1[i] == rf[i] by {
                    assert(r1[i] == r3[i]);
                    assert(r3[i] == r4[i]);
                    assert(r4[i] == r5[i]);
                }
                assert(r1 =~= rf.subrange(0, r1.len() as int));
            }
            assert(r0.is_prefix_of(rf)) by {
                assert forall|i: int| 0 <= i < r0.len() implies r0[i] == rf[i] by {
                    assert(r0[i] == r1[i]);
                }
                assert(r0 =~= rf.subrange(0, r0.len() as int));
            }
            if let Some(c) = maybe_catch {
                let sev = severity_reports(collected, c);
                assert(sev =~= rf.subrange(rf.len() - sev.len(), rf.len() as int));
            }
            assert(directives@.take(field.directives@.len() as int) =~= field.directives@);
        }
        proof {
            if !has_key(old(self).path_catch_map@, path_name@) {
                assert(s1.path_catch_map@.drop_last() =~= old(self).path_catch_map@);
            }
            assert(c0.path_catch_map == s1.path_catch_map);
            assert(c0.spec_reports() == s1.spec_reports());
            assert(self.current_node_catch_children == s1.current_node_catch_children);
        }
        assert(linked_frame(*old(self), field, c0, s3, *self));
        proof {
            let inner = choose|t: Trace| #[trigger] selections_walk(c0, field.selections, next_selections, s3, t);
            let y = LinkedField { alias, definition, directives, selections: next_selections };
            assert(selection_walk(*old(self), Selection::LinkedField(field), Selection::LinkedField(y), *self, Trace::Nested(c0, s3, seq![inner])));
            if maybe_catch.is_some() || bubble {
                assert(directives@.len() != field.directives@.len());
            }
        }
        let changed = selections_changed || maybe_catch.is_some() || bubble;
        (LinkedField { alias, definition, directives, selections: next_selections }, changed)
    }

    /// Visits an inline fragment: an aliased one adds its alias to the path;
    /// an unaliased one on an abstract type marks its subtree as such.
    pub fn transform_inline_fragment(&mut self, fragment: InlineFragment) -> (r: (
        InlineFragment,
        bool,
    ))
        requires
            old(self).wf(),
            selections_valid(fragment.selections),
        ensures
            old(self).restored(final(self)),
            r.0.type_condition == fragment.type_condition,
            r.0.alias == fragment.alias,
            r.0.directives == fragment.directives,
            r.0.selections@.len() == fragment.selections@.len(),
            r.1 <==> !same_selections(fragment.selections, r.0.selections),
            rewritten_selections(
                match fragment.alias {
                    Some(a) => old(self).path@.push(a.item),
                    None => old(self).path@,
                },
                fragment.selections,
                r.0.selections,
            ),
            rewritten_selection(
                old(self).path@,
                Selection::InlineFragment(fragment),
                Selection::InlineFragment(r.0),
            ),
            exists|c0: CatchDirective, c1: CatchDirective|
                #[trigger] inline_frame(*old(self), fragment, c0, c1, *final(self)),
            exists|t: Trace|
                #[trigger] selection_walk(
                    *old(self),
                    Selection::InlineFragment(fragment),
                    Selection::InlineFragment(r.0),
                    *final(self),
                    t,
                ),
        decreases fragment,
    {
        let previous = self.within_abstract_inline_fragment;
        let InlineFragment { type_condition, alias, directives, selections } = fragment;
        let aliased = match &alias {
            Some(a) => {
                self.path.push(a.item.clone());
                true
            },
            None => {
                if let Some(t) = &type_condition {
                    if t.is_abstract {
                        self.within_abstract_inline_fragment = true;
                    }
                }
                false
            },
        };
        assert(self.path@ == match alias {
            Some(a) => old(self).path@.push(a.item),
            None => old(self).path@,
        });
        let ghost c0 = *self;
        let (next_selections, changed) = self.transform_selections(selections);
        let ghost c1 = *self;
        if aliased {
            self.path.pop();
        }
        assert(self.path@ =~= old(self).path@);
        self.within_abstract_inline_fragment = previous;
        assert(inline_frame(*old(self), fragment, c0, c1, *self));
        proof {
            let inner = choose|t: Trace| #[trigger] selections_walk(c0, fragment.selections, next_selections, c1, t);
            let y = InlineFragment { type_condition, alias, directives, selections: next_selections };
            assert(selection_walk(*old(self), Selection::InlineFragment(fragment), Selection::InlineFragment(y), *self, Trace::Nested(c0, c1, seq![inner])));
        }
        (InlineFragment { type_condition, alias, directives, selections: next_selections }, changed)
    }

    /// Visits one selection; fragment spreads are left to the visit of the
    /// fragment that they name.
    pub fn transform_selection(&mut self, selection: Selection) -> (r: (Selection, bool))
        requires
            old(self).wf(),
            selection_valid(selection),
        ensures
            old(self).restored(final(self)),
            r.1 <==> !same_selection(selection, r.0),
            rewritten_selection(old(self).path@, selection, r.0),
            exists|t: Trace| #[trigger] selection_walk(*old(self), selection, r.0, *final(self), t),
        decreases selection,
    {
        match selection {
            Selection::ScalarField(f) => {
                let (next, changed) = self.transform_scalar_field(f);
                assert(selection_walk(*old(self), Selection::ScalarField(f), Selection::ScalarField(next), *self, Trace::Leaf));
                if changed {
                    assert(next.directives@.len() != f.directives@.len());
                }
                (Selection::ScalarField(next), changed)
            },
            Selection::LinkedField(f) => {
                let (next, changed) = self.transform_linked_field(f);
                (Selection::LinkedField(next), changed)
            },
            Selection::InlineFragment(f) => {
                let (next, changed) = self.transform_inline_fragment(f);
                (Selection::InlineFragment(next), changed)
            },
            Selection::FragmentSpread(s) => {
                assert(self.spec_reports().is_prefix_of(self.spec_reports())) by {
                    assert(self.spec_reports() =~= self.spec_reports().subrange(0, self.spec_reports().len() as int));
                }
                assert(selection_walk(*old(self), Selection::FragmentSpread(s), Selection::FragmentSpread(s), *self, Trace::Leaf));
                (Selection::FragmentSpread(s), false)
            },
        }
    }

    /// Visits a list of selections in order.
    pub fn transform_selections(&mut self, selections: Vec<Selection>) -> (r: (
        Vec<Selection>,
        bool,
    ))
        requires
            old(self).wf(),
            selections_valid(selections),
        ensures
            old(self).restored(final(self)),
            r.0@.len() == selections@.len(),
            r.1 <==> !same_selections(selections, r.0),
            rewritten_selections(old(self).path@, selections, r.0),
            exists|t: Trace| #[trigger] selections_walk(*old(self), selections, r.0, *final(self), t),
        decreases selections,
    {
        let ghost original = selections;
        let mut rest = selections;
        let mut out: Vec<Selection> = Vec::new();
        let mut changed = false;
        let n = rest.len();
        let mut i: usize = 0;
        let ghost mut states: Seq<CatchDirective> = seq![*self];
        let ghost mut subs: Seq<Trace> = Seq::empty();
        assert(old(self).spec_reports() =~= self.spec_reports().subrange(0, self.spec_reports().len() as int));
        while i < n
            invariant
                0 <= i <= n,
                n == original@.len(),
                original == selections,
                rest@ == original@.skip(i as int),
                out@.len() == i,
                selections_valid(original),
                old(self).restored(self),
                !changed ==> forall|j: int| 0 <= j < i ==> same_selection(#[trigger] original@[j], out@[j]),
                changed ==> exists|j: int| 0 <= j < i && !same_selection(#[trigger] original@[j], out@[j]),
                forall|j: int| 0 <= j < i ==> rewritten_selection(old(self).path@, #[trigger] original@[j], out@[j]),
                states.len() == i + 1,
                subs.len() == i,
                states[0] == *old(self),
                states.last() == *self,
                forall|j: int| 0 <= j < i ==> selection_walk(states[j], #[trigger] original@[j], out@[j], states[j + 1], subs[j]),
            decreases n - i,
        {
            let selection = rest.remove(0);
            assert(selection == original@[i as int]);
            assert(selection_valid(original@[i as int]));
            proof {
                vstd::std_specs::vec::axiom_vec_index_decreases(original, i as int);
                assert(decreases_to!(original => selection));
            }
            let ghost before = *self;
            let (next, c) = self.transform_selection(selection);
            proof {
                CatchDirective::lemma_restored_trans(old(self), &before, self);
            }
            proof {
                let tr = choose|t: Trace| #[trigger] selection_walk(before, original@[i as int], next, *self, t);
                states = states.push(*self);
                subs = subs.push(tr);
            }
            out.push(next);
            changed = changed || c;
            assert(rest@ =~= original@.skip(i + 1));
            i = i + 1;
        }
        assert(selections_walk(*old(self), original, out, *self, Trace::List(states, subs)));
        (out, changed)
    }
}

} // verus!
