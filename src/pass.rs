use vstd::prelude::*;
use vstd::string::*;

use crate::catchable_field::{find_directive, first_directive_named};
use crate::diagnostic::Diagnostic;
use crate::finder::{selections_have_catch, some_fragment_has_catch, CatchDirectiveVisitor};
use crate::diagnostic::reports;
use crate::ir::{Directive, FragmentDefinition, OperationDefinition, Program, Selection};
use crate::rewrite::{children_can_bubble, maybe_add_children_can_bubble_metadata_directive};
use crate::transform::{
    lemma_unannotated_selections_kept, rewritten_directives, selections_walk, Trace, rewritten_selections, same_selections,
    selections_valid,
};
use crate::validator::CatchDirective;

verus! {

/// Name of the directive that makes a fragment inlined into its parents.
pub const INLINE_DIRECTIVE_NAME: &'static str = "inline";

/// Every `@catch` directive of the program has a well-formed `to` argument.
pub open spec fn program_valid(program: &Program) -> bool {
    &&& forall|j: int|
        0 <= j < program.operations@.len() ==> selections_valid(
            #[trigger] program.operations@[j].selections,
        )
    &&& forall|k: int|
        0 <= k < program.fragments@.len() ==> selections_valid(
            #[trigger] program.fragments@[k].selections,
        )
}

/// `c0` is the state in which a document's selections are first visited:
/// the diagnostics so far, empty tables, the root path, no directive chain,
/// and the location of the document's `@inline` directive, if any.
pub open spec fn document_start(
    s0: CatchDirective,
    directives: Seq<Directive>,
    c0: CatchDirective,
) -> bool {
    &&& c0.errors == s0.errors
    &&& c0.path_catch_map@.len() == 0
    &&& c0.current_node_catch_children@.len() == 0
    &&& c0.catch_children_map@.len() == 0
    &&& c0.path@.len() == 0
    &&& c0.disallowed_directives_attached@.len() == 0
    &&& !c0.within_abstract_inline_fragment
    &&& c0.parent_inline_fragment_directive == match first_directive_named(
        directives,
        INLINE_DIRECTIVE_NAME@,
    ) {
        Some(i) => Some(directives[i].name.location),
        None => None,
    }
}

/// The state in which the pass starts: no diagnostics, empty tables, the
/// root path, no directive chain, outside any abstract or `@inline` fragment.
pub open spec fn fresh(s: CatchDirective) -> bool {
    &&& s.errors@.len() == 0
    &&& s.path_catch_map@.len() == 0
    &&& s.current_node_catch_children@.len() == 0
    &&& s.catch_children_map@.len() == 0
    &&& s.path@.len() == 0
    &&& s.disallowed_directives_attached@.len() == 0
    &&& !s.within_abstract_inline_fragment
    &&& s.parent_inline_fragment_directive is None
}

/// The selections of document `d`: operations first, then fragments.
pub open spec fn doc_selections(program: &Program, d: int) -> Vec<Selection> {
    if d < program.operations@.len() {
        program.operations@[d].selections
    } else {
        program.fragments@[d - program.operations@.len()].selections
    }
}

/// The directives of document `d` that the pass reads: none for an
/// operation, the fragment's own for a fragment.
pub open spec fn doc_directives(program: &Program, d: int) -> Seq<Directive> {
    if d < program.operations@.len() {
        Seq::empty()
    } else {
        program.fragments@[d - program.operations@.len()].directives@
    }
}

/// All directives of document `d`.
pub open spec fn doc_all_directives(program: &Program, d: int) -> Seq<Directive> {
    if d < program.operations@.len() {
        program.operations@[d].directives@
    } else {
        program.fragments@[d - program.operations@.len()].directives@
    }
}

/// Document `d` takes the pass from `s` to `s1` and is rewritten to the
/// selections `out` and directives `out_dirs`. When it is visited (`reach`),
/// its selections are walked from its start state `c0` with trace `t`, and an
/// operation gains the bubble marker exactly when a `@catch` field collected
/// at its top level is not of the weakest severity; otherwise nothing
/// changes. It is visited whenever it carries `@catch`, and only when it or
/// some fragment does.
pub open spec fn doc_step(
    program: &Program,
    d: int,
    reach: bool,
    c0: CatchDirective,
    t: Trace,
    s: CatchDirective,
    s1: CatchDirective,
    out: Vec<Selection>,
    out_dirs: Seq<Directive>,
) -> bool {
    &&& reach ==> {
        &&& document_start(s, doc_directives(program, d), c0)
        &&& selections_walk(c0, doc_selections(program, d), out, s1, t)
        &&& if d < program.operations@.len() {
            rewritten_directives(
                doc_all_directives(program, d),
                out_dirs,
                Seq::empty(),
                None,
                children_can_bubble(s1.current_node_catch_children@),
            )
        } else {
            out_dirs == doc_all_directives(program, d)
        }
    }
    &&& !reach ==> s1 == s && out == doc_selections(program, d) && out_dirs == doc_all_directives(
        program,
        d,
    )
    &&& selections_have_catch(doc_selections(program, d)) ==> reach
    &&& reach ==> selections_have_catch(doc_selections(program, d)) || some_fragment_has_catch(
        program,
    )
}

/// The pass over `program` meets the states `states`, one document after
/// another from the fresh state, and rewrites document `d` to `outs[d]` and
/// `out_dirs[d]`.
pub open spec fn program_walk(
    program: &Program,
    reach: Seq<bool>,
    starts: Seq<CatchDirective>,
    traces: Seq<Trace>,
    states: Seq<CatchDirective>,
    outs: Seq<Vec<Selection>>,
    out_dirs: Seq<Seq<Directive>>,
) -> bool {
    let n = program.operations@.len() + program.fragments@.len();
    &&& reach.len() == n
    &&& starts.len() == n
    &&& traces.len() == n
    &&& outs.len() == n
    &&& out_dirs.len() == n
    &&& states.len() == n + 1
    &&& fresh(states[0])
    &&& forall|d: int|
        0 <= d < n ==> doc_step(
            program,
            d,
            #[trigger] reach[d],
            starts[d],
            traces[d],
            states[d],
            states[d + 1],
            outs[d],
            out_dirs[d],
        )
}

/// `p` holds the documents of `program` rewritten to `outs` and `out_dirs`,
/// and those not visited exactly as they were.
pub open spec fn rewritten_as(
    program: &Program,
    p: &Program,
    reach: Seq<bool>,
    outs: Seq<Vec<Selection>>,
    out_dirs: Seq<Seq<Directive>>,
) -> bool {
    let nops = program.operations@.len();
    &&& p.operations@.len() == nops
    &&& p.fragments@.len() == program.fragments@.len()
    &&& forall|j: int|
        0 <= j < nops ==> (#[trigger] p.operations@[j]).selections == outs[j]
            && p.operations@[j].directives@ == out_dirs[j] && p.operations@[j].name
            == program.operations@[j].name && (!reach[j] ==> p.operations@[j]
            == program.operations@[j])
    &&& forall|k: int|
        0 <= k < program.fragments@.len() ==> (#[trigger] p.fragments@[k]).selections == outs[nops
            + k] && p.fragments@[k].directives@ == out_dirs[nops + k] && p.fragments@[k].name
            == program.fragments@[k].name && (!reach[nops + k] ==> p.fragments@[k]
            == program.fragments@[k])
}

/// No document of the program carries `@catch`.
pub open spec fn no_catch_anywhere(program: &Program) -> bool {
    &&& !some_fragment_has_catch(program)
    &&& forall|j: int|
        0 <= j < program.operations@.len() ==> !selections_have_catch(
            #[trigger] program.operations@[j].selections,
        )
}

impl CatchDirective {
    /// Visits a fragment definition that reaches `@catch` with fresh state,
    /// noting whether it is declared `@inline`; one that does not reach
    /// `@catch` is handed back as it was, and the state is left untouched.
    pub fn transform_fragment(&mut self, fragment: FragmentDefinition, reachable: bool) -> (r: (
        FragmentDefinition,
        bool,
    ))
        requires
            old(self).wf(),
            old(self).path@.len() == 0,
            selections_valid(fragment.selections),
        ensures
            final(self).wf(),
            final(self).path@ == old(self).path@,
            old(self).spec_reports().is_prefix_of(final(self).spec_reports()),
            !reachable ==> r.0 == fragment && !r.1 && *final(self) == *old(self),
            reachable ==> rewritten_selections(Seq::empty(), fragment.selections, r.0.selections),
            reachable ==> exists|c0: CatchDirective, t: Trace|
                #[trigger] document_start(*old(self), fragment.directives@, c0) && #[trigger] selections_walk(
                    c0,
                    fragment.selections,
                    r.0.selections,
                    *final(self),
                    t,
                ),
            r.0.name == fragment.name,
            r.0.directives == fragment.directives,
            reachable ==> (r.1 <==> !same_selections(fragment.selections, r.0.selections)),
    {
        if !reachable {
            assert(old(self).spec_reports() =~= self.spec_reports().subrange(0, self.spec_reports().len() as int));
            return (fragment, false);
        }
        self.reset_state();
        let inline_name = String::from_str(INLINE_DIRECTIVE_NAME);
        self.parent_inline_fragment_directive = match find_directive(
            &fragment.directives,
            &inline_name,
        ) {
            Some(i) => Some(fragment.directives[i].name.location),
            None => None,
        };
        assert(self.path@ =~= Seq::<String>::empty());
        let ghost c0 = *self;
        assert(document_start(*old(self), fragment.directives@, c0));
        let FragmentDefinition { name, directives, selections } = fragment;
        let (next_selections, changed) = self.transform_selections(selections);
        (FragmentDefinition { name, directives, selections: next_selections }, changed)
    }

    /// Visits an operation that reaches `@catch` with fresh state; the
    /// operation gets the bubble marker when a `@catch` field collected at
    /// its top level is not of the weakest severity. One that does not reach
    /// `@catch` is handed back as it was, and the state is left untouched.
    pub fn transform_operation(&mut self, operation: OperationDefinition, reachable: bool) -> (r: (
        OperationDefinition,
        bool,
    ))
        requires
            old(self).wf(),
            old(self).path@.len() == 0,
            selections_valid(operation.selections),
        ensures
            final(self).wf(),
            final(self).path@ == old(self).path@,
            old(self).spec_reports().is_prefix_of(final(self).spec_reports()),
            !reachable ==> r.0 == operation && !r.1 && *final(self) == *old(self),
            reachable ==> rewritten_selections(Seq::empty(), operation.selections, r.0.selections),
            reachable ==> exists|c0: CatchDirective, t: Trace|
                #[trigger] document_start(*old(self), Seq::<Directive>::empty(), c0) && #[trigger] selections_walk(
                    c0,
                    operation.selections,
                    r.0.selections,
                    *final(self),
                    t,
                ),
            reachable ==> rewritten_directives(
                operation.directives@,
                r.0.directives@,
                Seq::empty(),
                None,
                children_can_bubble(final(self).current_node_catch_children@),
            ),
            r.0.name == operation.name,
            reachable ==> (r.1 <==> !(same_selections(operation.selections, r.0.selections)
                && r.0.directives@ == operation.directives@)),
    {
        if !reachable {
            assert(old(self).spec_reports() =~= self.spec_reports().subrange(0, self.spec_reports().len() as int));
            return (operation, false);
        }
        self.reset_state();
        assert(self.path@ =~= Seq::<String>::empty());
        let ghost c0 = *self;
        assert(document_start(*old(self), Seq::<Directive>::empty(), c0));
        let OperationDefinition { name, mut directives, selections } = operation;
        let (next_selections, selections_changed) = self.transform_selections(selections);
        let bubble = maybe_add_children_can_bubble_metadata_directive(
            &mut directives,
            &self.current_node_catch_children,
        );
        assert(directives@.take(operation.directives@.len() as int) =~= operation.directives@);
        if bubble {
            assert(directives@.len() != operation.directives@.len());
        }
        (
            OperationDefinition { name, directives, selections: next_selections },
            selections_changed || bubble,
        )
    }
}

/// Runs the catch pass over a whole program: documents that cannot reach
/// `@catch` are kept as they are; the others are checked and rewritten. The
/// rewritten program is returned only when no diagnostic was reported.
pub fn catch_directive(program: Program) -> (r: Result<Program, Vec<Diagnostic>>)
    requires
        program_valid(&program),
    ensures
        r matches Err(es) ==> es@.len() > 0,
        r matches Ok(p) ==> {
            &&& p.operations@.len() == program.operations@.len()
            &&& p.fragments@.len() == program.fragments@.len()
            &&& forall|j: int|
                0 <= j < program.operations@.len() && !selections_have_catch(
                    #[trigger] program.operations@[j].selections,
                ) && !some_fragment_has_catch(&program) ==> p.operations@[j]
                    == program.operations@[j]
            &&& !some_fragment_has_catch(&program) ==> p.fragments@ == program.fragments@
            &&& forall|j: int|
                0 <= j < program.operations@.len() ==> (#[trigger] p.operations@[j]).name
                    == program.operations@[j].name && p.operations@[j].directives@.take(
                    program.operations@[j].directives@.len() as int,
                ) == program.operations@[j].directives@
            &&& forall|k: int|
                0 <= k < program.fragments@.len() ==> (#[trigger] p.fragments@[k]).name
                    == program.fragments@[k].name && p.fragments@[k].directives
                    == program.fragments@[k].directives
            &&& forall|j: int|
                0 <= j < program.operations@.len() ==> rewritten_selections(
                    Seq::empty(),
                    program.operations@[j].selections,
                    (#[trigger] p.operations@[j]).selections,
                )
            &&& forall|k: int|
                0 <= k < program.fragments@.len() ==> rewritten_selections(
                    Seq::empty(),
                    program.fragments@[k].selections,
                    (#[trigger] p.fragments@[k]).selections,
                )
        },
        no_catch_anywhere(&program) ==> (r matches Ok(p) && p.operations@ == program.operations@
            && p.fragments@ == program.fragments@),
        exists|
            reach: Seq<bool>,
            starts: Seq<CatchDirective>,
            traces: Seq<Trace>,
            states: Seq<CatchDirective>,
            outs: Seq<Vec<Selection>>,
            out_dirs: Seq<Seq<Directive>>,
        |
            #[trigger] program_walk(&program, reach, starts, traces, states, outs, out_dirs) && (
            r is Ok <==> states.last().errors@.len() == 0) && (r matches Err(es) ==> reports(es@)
                == states.last().spec_reports()) && (r matches Ok(p) ==> rewritten_as(
                &program,
                &p,
                reach,
                outs,
                out_dirs,
            )),
{
    let mut visitor = CatchDirectiveVisitor::new(&program);
    let mut fragment_reachable: Vec<bool> = Vec::new();
    let mut k: usize = 0;
    while k < program.fragments.len()
        invariant
            0 <= k <= program.fragments@.len(),
            visitor.wf(&program),
            fragment_reachable@.len() == k,
            forall|j: int| 0 <= j < k && #[trigger] fragment_reachable@[j] ==> some_fragment_has_catch(&program),
            forall|j: int| 0 <= j < k && !#[trigger] fragment_reachable@[j] ==> !selections_have_catch(
                program.fragments@[j].selections,
            ),
            forall|j: int|
                0 <= j < visitor.visited_fragments@.len() && #[trigger] visitor.visited_fragments@[j]
                    == Some(false) ==> !selections_have_catch(program.fragments@[j].selections),
        decreases program.fragments@.len() - k,
    {
        let ghost before = visitor.visited_fragments@;
        let reachable = visitor.visit_fragment(&program, k);
        proof {
            let after = visitor.visited_fragments@;
            assert forall|j: int|
                0 <= j < after.len() && #[trigger] after[j] == Some(false) implies !selections_have_catch(
                program.fragments@[j].selections,
            ) by {
                if before[j] is Some {
                    assert(before[j] == after[j]);
                }
            }
            if !reachable {
                assert(after[k as int] == Some(false));
            }
        }
        fragment_reachable.push(reachable);
        k = k + 1;
    }
    let mut operation_reachable: Vec<bool> = Vec::new();
    let mut j: usize = 0;
    while j < program.operations.len()
        invariant
            0 <= j <= program.operations@.len(),
            visitor.wf(&program),
            operation_reachable@.len() == j,
            forall|i: int| 0 <= i < j && #[trigger] operation_reachable@[i] ==> (selections_have_catch(
                program.operations@[i].selections,
            ) || some_fragment_has_catch(&program)),
            forall|i: int| 0 <= i < j && !#[trigger] operation_reachable@[i] ==> !selections_have_catch(
                program.operations@[i].selections,
            ),
            fragment_reachable@.len() == program.fragments@.len(),
            forall|m: int| 0 <= m < program.fragments@.len() && !#[trigger] fragment_reachable@[m] ==> !selections_have_catch(
                program.fragments@[m].selections,
            ),
        decreases program.operations@.len() - j,
    {
        let reachable = visitor.find(&program, &program.operations[j].selections);
        operation_reachable.push(reachable);
        j = j + 1;
    }
    let ghost original = program;
    let Program { operations, fragments } = program;
    let mut transform = CatchDirective::new();
    let ghost reach = operation_reachable@ + fragment_reachable@;
    let ghost nops = original.operations@.len();
    let ghost mut states: Seq<CatchDirective> = seq![transform];
    let ghost mut starts: Seq<CatchDirective> = Seq::empty();
    let ghost mut traces: Seq<Trace> = Seq::empty();
    let ghost mut outs: Seq<Vec<Selection>> = Seq::empty();
    let ghost mut out_dirs: Seq<Seq<Directive>> = Seq::empty();
    let mut rest = operations;
    let mut next_operations: Vec<OperationDefinition> = Vec::new();
    let n = rest.len();
    let mut i: usize = 0;
    while i < n
        invariant
            0 <= i <= n,
            n == original.operations@.len(),
            nops == n,
            operation_reachable@.len() == n,
            fragment_reachable@.len() == original.fragments@.len(),
            reach == operation_reachable@ + fragment_reachable@,
            program_valid(&original),
            rest@ == original.operations@.skip(i as int),
            next_operations@.len() == i,
            transform.wf(),
            transform.path@.len() == 0,
            forall|m: int| 0 <= m < n && !#[trigger] operation_reachable@[m] ==> !selections_have_catch(
                original.operations@[m].selections,
            ),
            forall|m: int| 0 <= m < n && #[trigger] operation_reachable@[m] ==> (selections_have_catch(
                original.operations@[m].selections,
            ) || some_fragment_has_catch(&original)),
            forall|m: int| 0 <= m < original.fragments@.len() && !#[trigger] fragment_reachable@[m] ==> !selections_have_catch(
                original.fragments@[m].selections,
            ),
            forall|m: int| 0 <= m < original.fragments@.len() && #[trigger] fragment_reachable@[m] ==> some_fragment_has_catch(&original),
            forall|m: int|
                0 <= m < i ==> rewritten_selections(
                    Seq::empty(),
                    original.operations@[m].selections,
                    (#[trigger] next_operations@[m]).selections,
                ),
            forall|m: int|
                0 <= m < i ==> (#[trigger] next_operations@[m]).name == original.operations@[m].name
                    && next_operations@[m].directives@.take(
                    original.operations@[m].directives@.len() as int,
                ) == original.operations@[m].directives@,
            no_catch_anywhere(&original) ==> transform.errors@.len() == 0,
            states.len() == i + 1,
            starts.len() == i,
            traces.len() == i,
            outs.len() == i,
            out_dirs.len() == i,
            fresh(states[0]),
            states.last() == transform,
            forall|d: int|
                0 <= d < i ==> doc_step(&original, d, #[trigger] reach[d], starts[d], traces[d], states[d], states[d + 1], outs[d], out_dirs[d]),
            forall|d: int|
                0 <= d < i ==> (#[trigger] next_operations@[d]).selections == outs[d]
                    && next_operations@[d].directives@ == out_dirs[d] && (!reach[d]
                    ==> next_operations@[d] == original.operations@[d]),
        decreases n - i,
    {
        let operation = rest.remove(0);
        assert(operation == original.operations@[i as int]);
        assert(selections_valid(original.operations@[i as int].selections));
        let ghost before = transform;
        let reachable = operation_reachable[i];
        let (next, _) = transform.transform_operation(operation, reachable);
        proof {
            assert(reach[i as int] == reachable);
            if reachable {
                let (c0, t) = choose|c0: CatchDirective, t: Trace|
                    #[trigger] document_start(before, Seq::<Directive>::empty(), c0) && #[trigger] selections_walk(
                        c0,
                        original.operations@[i as int].selections,
                        next.selections,
                        transform,
                        t,
                    );
                starts = starts.push(c0);
                traces = traces.push(t);
            } else {
                lemma_unannotated_selections_kept(Seq::empty(), original.operations@[i as int].selections);
                assert(original.operations@[i as int].directives@.take(
                    original.operations@[i as int].directives@.len() as int,
                ) =~= original.operations@[i as int].directives@);
                starts = starts.push(transform);
                traces = traces.push(Trace::Leaf);
            }
            states = states.push(transform);
            outs = outs.push(next.selections);
            out_dirs = out_dirs.push(next.directives@);
            assert(doc_step(&original, i as int, reach[i as int], starts[i as int], traces[i as int], states[i as int], states[i + 1], outs[i as int], out_dirs[i as int]));
        }
        next_operations.push(next);
        assert(rest@ =~= original.operations@.skip(i + 1));
        i = i + 1;
    }
    let mut rest = fragments;
    let mut next_fragments: Vec<FragmentDefinition> = Vec::new();
    let n = rest.len();
    let mut i: usize = 0;
    while i < n
        invariant
            0 <= i <= n,
            n == original.fragments@.len(),
            fragment_reachable@.len() == n,
            operation_reachable@.len() == nops,
            nops == original.operations@.len(),
            reach == operation_reachable@ + fragment_reachable@,
            program_valid(&original),
            rest@ == original.fragments@.skip(i as int),
            next_fragments@.len() == i,
            next_operations@.len() == nops,
            transform.wf(),
            transform.path@.len() == 0,
            forall|m: int| 0 <= m < n && !#[trigger] fragment_reachable@[m] ==> !selections_have_catch(
                original.fragments@[m].selections,
            ),
            forall|m: int| 0 <= m < n && #[trigger] fragment_reachable@[m] ==> some_fragment_has_catch(&original),
            forall|m: int|
                0 <= m < i ==> rewritten_selections(
                    Seq::empty(),
                    original.fragments@[m].selections,
                    (#[trigger] next_fragments@[m]).selections,
                ),
            forall|m: int|
                0 <= m < i ==> (#[trigger] next_fragments@[m]).name == original.fragments@[m].name
                    && next_fragments@[m].directives == original.fragments@[m].directives,
            forall|m: int|
                0 <= m < nops ==> rewritten_selections(
                    Seq::empty(),
                    original.operations@[m].selections,
                    (#[trigger] next_operations@[m]).selections,
                ),
            forall|m: int|
                0 <= m < nops ==> (#[trigger] next_operations@[m]).name == original.operations@[m].name
                    && next_operations@[m].directives@.take(
                    original.operations@[m].directives@.len() as int,
                ) == original.operations@[m].directives@,
            no_catch_anywhere(&original) ==> transform.errors@.len() == 0,
            states.len() == nops + i + 1,
            starts.len() == nops + i,
            traces.len() == nops + i,
            outs.len() == nops + i,
            out_dirs.len() == nops + i,
            fresh(states[0]),
            states.last() == transform,
            forall|d: int|
                0 <= d < nops + i ==> doc_step(&original, d, #[trigger] reach[d], starts[d], traces[d], states[d], states[d + 1], outs[d], out_dirs[d]),
            forall|d: int|
                0 <= d < nops ==> (#[trigger] next_operations@[d]).selections == outs[d]
                    && next_operations@[d].directives@ == out_dirs[d] && (!reach[d]
                    ==> next_operations@[d] == original.operations@[d]),
            forall|k: int|
                0 <= k < i ==> (#[trigger] next_fragments@[k]).selections == outs[nops + k]
                    && next_fragments@[k].directives@ == out_dirs[nops + k] && (!reach[nops + k]
                    ==> next_fragments@[k] == original.fragments@[k]),
        decreases n - i,
    {
        let fragment = rest.remove(0);
        assert(fragment == original.fragments@[i as int]);
        assert(selections_valid(original.fragments@[i as int].selections));
        let ghost before = transform;
        let reachable = fragment_reachable[i];
        let (next, _) = transform.transform_fragment(fragment, reachable);
        proof {
            assert(reach[nops + i] == reachable);
            if reachable {
                let (c0, t) = choose|c0: CatchDirective, t: Trace|
                    #[trigger] document_start(before, original.fragments@[i as int].directives@, c0) && #[trigger] selections_walk(
                        c0,
                        original.fragments@[i as int].selections,
                        next.selections,
                        transform,
                        t,
                    );
                starts = starts.push(c0);
                traces = traces.push(t);
            } else {
                lemma_unannotated_selections_kept(Seq::empty(), original.fragments@[i as int].selections);
                starts = starts.push(transform);
                traces = traces.push(Trace::Leaf);
            }
            states = states.push(transform);
            outs = outs.push(next.selections);
            out_dirs = out_dirs.push(next.directives@);
            assert(doc_step(&original, nops + i, reach[nops + i], starts[nops + i], traces[nops + i], states[nops + i], states[nops + i + 1], outs[nops + i], out_dirs[nops + i]));
        }
        next_fragments.push(next);
        assert(rest@ =~= original.fragments@.skip(i + 1));
        i = i + 1;
    }
    proof {
        if !some_fragment_has_catch(&original) {
            assert forall|m: int| 0 <= m < n implies next_fragments@[m] == original.fragments@[m] by {
                assert(!fragment_reachable@[m]);
                assert(!reach[nops + m]);
            }
            assert(next_fragments@ =~= original.fragments@);
        }
        assert forall|m: int|
            0 <= m < original.operations@.len() && !selections_have_catch(
                #[trigger] original.operations@[m].selections,
            ) && !some_fragment_has_catch(&original) implies next_operations@[m]
                == original.operations@[m] by {
            assert(!operation_reachable@[m]);
            assert(!reach[m]);
        }
        if no_catch_anywhere(&original) {
            assert forall|m: int| 0 <= m < original.operations@.len() implies next_operations@[m]
                == original.operations@[m] by {
                assert(!selections_have_catch(original.operations@[m].selections));
                assert(!operation_reachable@[m]);
                assert(!reach[m]);
            }
            assert(next_operations@ =~= original.operations@);
        }
    }
    assert(program_walk(&original, reach, starts, traces, states, outs, out_dirs));
    let result = if transform.errors.len() == 0 {
        Ok(Program { operations: next_operations, fragments: next_fragments })
    } else {
        Err(transform.errors)
    };
    proof {
        if result is Ok {
            assert(rewritten_as(&original, &result->Ok_0, reach, outs, out_dirs));
        }
    }
    result
}

} // verus!
