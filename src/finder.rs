use vstd::prelude::*;
use vstd::string::*;

use crate::catchable_field::{find_directive, first_directive_named, CATCH_DIRECTIVE_NAME};
use crate::ir::{Directive, Program, Selection};

verus! {

/// Some directive of the list is `@catch`.
pub open spec fn directives_have_catch(dirs: Seq<Directive>) -> bool {
    first_directive_named(dirs, CATCH_DIRECTIVE_NAME@) is Some
}

/// The selection carries `@catch` itself or somewhere below it, not counting
/// the fragments that it spreads.
pub open spec fn selection_has_catch(sel: Selection) -> bool
    decreases sel,
{
    match sel {
        Selection::ScalarField(f) => directives_have_catch(f.directives@),
        Selection::LinkedField(f) => directives_have_catch(f.directives@) || selections_have_catch(
            f.selections,
        ),
        Selection::InlineFragment(f) => directives_have_catch(f.directives@)
            || selections_have_catch(f.selections),
        Selection::FragmentSpread(s) => directives_have_catch(s.directives@),
    }
}

pub open spec fn selections_have_catch(sels: Vec<Selection>) -> bool
    decreases sels,
{
    exists|i: int| 0 <= i < sels@.len() && selection_has_catch(#[trigger] sels@[i])
}

/// Some fragment definition of the program carries `@catch`.
pub open spec fn some_fragment_has_catch(program: &Program) -> bool {
    exists|k: int|
        0 <= k < program.fragments@.len() && selections_have_catch(
            #[trigger] program.fragments@[k].selections,
        )
}

/// The selection spreads the fragment called `name`, itself or somewhere
/// below it, not counting what the fragments it spreads contain.
pub open spec fn selection_spreads(sel: Selection, name: Seq<char>) -> bool
    decreases sel,
{
    match sel {
        Selection::ScalarField(_) => false,
        Selection::LinkedField(f) => selections_spread(f.selections, name),
        Selection::InlineFragment(f) => selections_spread(f.selections, name),
        Selection::FragmentSpread(s) => s.fragment.item@ == name,
    }
}

pub open spec fn selections_spread(sels: Vec<Selection>, name: Seq<char>) -> bool
    decreases sels,
{
    exists|i: int| 0 <= i < sels@.len() && selection_spreads(#[trigger] sels@[i], name)
}

/// `chain` lists positions of fragments: the first is spread by `sels`, each
/// next one by the one before it, and the last carries `@catch`.
pub open spec fn catch_chain(program: &Program, sels: Vec<Selection>, chain: Seq<int>) -> bool {
    &&& chain.len() > 0
    &&& forall|i: int| 0 <= i < chain.len() ==> 0 <= #[trigger] chain[i] < program.fragments@.len()
    &&& selections_spread(sels, program.fragments@[chain[0]].name.item@)
    &&& forall|i: int|
        0 <= i < chain.len() - 1 ==> selections_spread(
            program.fragments@[#[trigger] chain[i]].selections,
            program.fragments@[chain[i + 1]].name.item@,
        )
    &&& selections_have_catch(program.fragments@[chain.last()].selections)
}

/// The selections carry `@catch`, or reach a fragment that does through a
/// chain of spreads.
pub open spec fn reaches_catch(program: &Program, sels: Vec<Selection>) -> bool {
    selections_have_catch(sels) || exists|chain: Seq<int>| #[trigger] catch_chain(program, sels, chain)
}

/// Reaching `@catch` from a fragment that `sels` spreads is reaching it from `sels`.
proof fn lemma_reach_through_spread(program: &Program, sels: Vec<Selection>, k: int)
    requires
        0 <= k < program.fragments@.len(),
        selections_spread(sels, program.fragments@[k].name.item@),
        reaches_catch(program, program.fragments@[k].selections),
    ensures
        reaches_catch(program, sels),
{
    if selections_have_catch(program.fragments@[k].selections) {
        let chain = seq![k];
        assert(catch_chain(program, sels, chain));
    } else {
        let c = choose|chain: Seq<int>| #[trigger] catch_chain(program, program.fragments@[k].selections, chain);
        let chain = seq![k] + c;
        assert(chain[0] == k);
        assert forall|i: int| 0 <= i < chain.len() - 1 implies selections_spread(
            program.fragments@[#[trigger] chain[i]].selections,
            program.fragments@[chain[i + 1]].name.item@,
        ) by {
            if i > 0 {
                assert(chain[i] == c[i - 1]);
                assert(chain[i + 1] == c[i]);
            }
        }
        assert forall|i: int| 0 <= i < chain.len() implies 0 <= #[trigger] chain[i] < program.fragments@.len() by {
            if i > 0 {
                assert(chain[i] == c[i - 1]);
            }
        }
        assert(chain.last() == c.last());
        assert(catch_chain(program, sels, chain));
    }
}

/// Reaching `@catch` from the selections inside `sels[i]` is reaching it
/// from `sels`.
proof fn lemma_reach_through_child(program: &Program, sels: Vec<Selection>, i: int, child: Vec<Selection>)
    requires
        0 <= i < sels@.len(),
        reaches_catch(program, child),
        selections_have_catch(child) ==> selection_has_catch(sels@[i]),
        forall|name: Seq<char>| selections_spread(child, name) ==> selection_spreads(sels@[i], name),
    ensures
        reaches_catch(program, sels),
{
    if selections_have_catch(child) {
        assert(selection_has_catch(sels@[i]));
    } else {
        let c = choose|chain: Seq<int>| #[trigger] catch_chain(program, child, chain);
        assert(selection_spreads(sels@[i], program.fragments@[c[0]].name.item@));
        assert(catch_chain(program, sels, c));
    }
}

/// Fragment `k` is the first of the program with its name.
pub open spec fn is_first_fragment(program: &Program, k: int) -> bool {
    &&& 0 <= k < program.fragments@.len()
    &&& forall|j: int|
        0 <= j < k ==> #[trigger] program.fragments@[j].name.item@ != program.fragments@[k].name.item@
}

/// The selections spread, somewhere below them, a fragment that carries
/// `@catch` itself and whose search has not been answered `false` in `memo`.
pub open spec fn spreads_catch_fragment(
    program: &Program,
    sels: Vec<Selection>,
    memo: Seq<Option<bool>>,
) -> bool {
    exists|k: int|
        #[trigger] is_first_fragment(program, k) && selections_spread(
            sels,
            program.fragments@[k].name.item@,
        ) && selections_have_catch(program.fragments@[k].selections) && memo[k] != Some(false)
}

/// The number of fragments whose search has not started.
pub open spec fn unvisited(s: Seq<Option<bool>>) -> nat
    decreases s.len(),
{
    if s.len() == 0 {
        0
    } else {
        unvisited(s.drop_last()) + if s.last() is None {
            1nat
        } else {
            0nat
        }
    }
}

proof fn lemma_unvisited_update(s: Seq<Option<bool>>, i: int, b: bool)
    requires
        0 <= i < s.len(),
    ensures
        s[i] is None ==> unvisited(s.update(i, Some(b))) + 1 == unvisited(s),
        s[i] is Some ==> unvisited(s.update(i, Some(b))) == unvisited(s),
    decreases s.len(),
{
    let t = s.update(i, Some(b));
    if i == s.len() - 1 {
        assert(t.drop_last() =~= s.drop_last());
    } else {
        assert(t.drop_last() =~= s.drop_last().update(i, Some(b)));
        lemma_unvisited_update(s.drop_last(), i, b);
    }
}

/// From `a` to `b` answers are only added: an entry once answered keeps its
/// answer, and a fragment newly answered `false` carries no `@catch` itself.
pub open spec fn memo_grows(program: &Program, a: Seq<Option<bool>>, b: Seq<Option<bool>>) -> bool {
    &&& a.len() == b.len()
    &&& forall|j: int| 0 <= j < a.len() && #[trigger] a[j] is Some ==> b[j] == a[j]
    &&& forall|j: int|
        0 <= j < a.len() && a[j] is None && #[trigger] b[j] == Some(false)
            ==> !selections_have_catch(program.fragments@[j].selections)
}

proof fn lemma_memo_grows_trans(
    program: &Program,
    a: Seq<Option<bool>>,
    b: Seq<Option<bool>>,
    c: Seq<Option<bool>>,
)
    requires
        memo_grows(program, a, b),
        memo_grows(program, b, c),
    ensures
        memo_grows(program, a, c),
{
    assert forall|j: int| 0 <= j < a.len() && a[j] is None && #[trigger] c[j] == Some(false)
        implies !selections_have_catch(program.fragments@[j].selections) by {
        if b[j] is Some {
            assert(c[j] == b[j]);
        }
    }
}

/// Finds whether a document reaches `@catch`, directly or through the
/// fragments that it spreads, remembering the answer for each fragment.
pub struct CatchDirectiveVisitor {
    /// Per fragment of the program: not searched yet, being searched
    /// (`Some(false)`), or the answer.
    pub visited_fragments: Vec<Option<bool>>,
}

impl CatchDirectiveVisitor {
    /// One entry per fragment, and a fragment is found to reach `@catch` only
    /// where some fragment carries it.
    pub open spec fn wf(&self, program: &Program) -> bool {
        &&& self.visited_fragments@.len() == program.fragments@.len()
        &&& forall|k: int|
            0 <= k < self.visited_fragments@.len() && #[trigger] self.visited_fragments@[k] == Some(
                true,
            ) ==> some_fragment_has_catch(program)
        &&& forall|k: int|
            0 <= k < self.visited_fragments@.len() && #[trigger] self.visited_fragments@[k] == Some(
                true,
            ) ==> reaches_catch(program, program.fragments@[k].selections)
    }

    pub fn new(program: &Program) -> (r: CatchDirectiveVisitor)
        ensures
            r.wf(program),
            forall|k: int| 0 <= k < r.visited_fragments@.len() ==> #[trigger] r.visited_fragments@[k] is None,
    {
        let mut visited_fragments: Vec<Option<bool>> = Vec::new();
        let mut k: usize = 0;
        while k < program.fragments.len()
            invariant
                0 <= k <= program.fragments@.len(),
                visited_fragments@.len() == k,
                forall|j: int| 0 <= j < k ==> #[trigger] visited_fragments@[j] is None,
            decreases program.fragments@.len() - k,
        {
            visited_fragments.push(None);
            k = k + 1;
        }
        CatchDirectiveVisitor { visited_fragments }
    }

    /// Position of the fragment called `name`.
    pub fn fragment_index(program: &Program, name: &String) -> (r: Option<usize>)
        ensures
            r matches Some(k) ==> k < program.fragments@.len() && program.fragments@[k as int].name.item@
                == name@ && is_first_fragment(program, k as int),
            r is None ==> forall|k: int|
                0 <= k < program.fragments@.len() ==> #[trigger] program.fragments@[k].name.item@
                    != name@,
    {
        let mut k: usize = 0;
        while k < program.fragments.len()
            invariant
                0 <= k <= program.fragments@.len(),
                forall|j: int| 0 <= j < k ==> #[trigger] program.fragments@[j].name.item@ != name@,
            decreases program.fragments@.len() - k,
        {
            if program.fragments[k].name.item == *name {
                return Some(k);
            }
            k = k + 1;
        }
        None
    }

    /// Whether some selection of the list reaches `@catch`. A fragment is
    /// marked as being searched before its selections are, so a fragment that
    /// spreads itself ends the search instead of repeating it. A spread that
    /// names no fragment of the program leads nowhere: it counts only through
    /// its own directives.
    pub fn find(&mut self, program: &Program, selections: &Vec<Selection>) -> (r: bool)
        requires
            old(self).wf(program),
        ensures
            final(self).wf(program),
            unvisited(final(self).visited_fragments@) <= unvisited(old(self).visited_fragments@),
            r ==> selections_have_catch(*selections) || some_fragment_has_catch(program),
            r ==> reaches_catch(program, *selections),
            spreads_catch_fragment(program, *selections, old(self).visited_fragments@) ==> r,
            selections_have_catch(*selections) ==> r,
            memo_grows(program, old(self).visited_fragments@, final(self).visited_fragments@),
        decreases unvisited(old(self).visited_fragments@), *selections,
    {
        let catch_name = String::from_str(CATCH_DIRECTIVE_NAME);
        let mut i: usize = 0;
        while i < selections.len()
            invariant
                0 <= i <= selections@.len(),
                catch_name@ == CATCH_DIRECTIVE_NAME@,
                self.wf(program),
                unvisited(self.visited_fragments@) <= unvisited(old(self).visited_fragments@),
                forall|j: int| 0 <= j < i ==> !selection_has_catch(#[trigger] selections@[j]),
                memo_grows(program, old(self).visited_fragments@, self.visited_fragments@),
                forall|j: int, k: int|
                    0 <= j < i && is_first_fragment(program, k) && #[trigger] selection_spreads(
                        selections@[j],
                        program.fragments@[k].name.item@,
                    ) && selections_have_catch(program.fragments@[k].selections)
                        ==> old(self).visited_fragments@[k] == Some(false),
            decreases selections@.len() - i,
        {
            proof {
                vstd::std_specs::vec::axiom_vec_index_decreases(*selections, i as int);
            }
            match &selections[i] {
                Selection::ScalarField(f) => {
                    if find_directive(&f.directives, &catch_name).is_some() {
                        assert(selection_has_catch(selections@[i as int]));
                        return true;
                    }
                },
                Selection::LinkedField(f) => {
                    if find_directive(&f.directives, &catch_name).is_some() {
                        assert(selection_has_catch(selections@[i as int]));
                        return true;
                    }
                    let ghost before = self.visited_fragments@;
                    let found = self.find(program, &f.selections);
                    proof {
                        lemma_memo_grows_trans(program, old(self).visited_fragments@, before, self.visited_fragments@);
                    }
                    if found {
                        assert(selection_has_catch(selections@[i as int])
                            || some_fragment_has_catch(program));
                        proof {
                            lemma_reach_through_child(program, *selections, i as int, f.selections);
                        }
                        return true;
                    }
                },
                Selection::InlineFragment(f) => {
                    if find_directive(&f.directives, &catch_name).is_some() {
                        assert(selection_has_catch(selections@[i as int]));
                        return true;
                    }
                    let ghost before = self.visited_fragments@;
                    let found = self.find(program, &f.selections);
                    proof {
                        lemma_memo_grows_trans(program, old(self).visited_fragments@, before, self.visited_fragments@);
                    }
                    if found {
                        assert(selection_has_catch(selections@[i as int])
                            || some_fragment_has_catch(program));
                        proof {
                            lemma_reach_through_child(program, *selections, i as int, f.selections);
                        }
                        return true;
                    }
                },
                Selection::FragmentSpread(s) => {
                    if find_directive(&s.directives, &catch_name).is_some() {
                        assert(selection_has_catch(selections@[i as int]));
                        return true;
                    }
                    if let Some(k) = Self::fragment_index(program, &s.fragment.item) {
                        match self.visited_fragments[k] {
                            Some(v) => {
                                if v {
                                    proof {
                                        assert(selection_spreads(selections@[i as int], program.fragments@[k as int].name.item@));
                                        lemma_reach_through_spread(program, *selections, k as int);
                                    }
                                    return true;
                                }
                            },
                            None => {
                                let ghost sa = self.visited_fragments@;
                                proof {
                                    lemma_unvisited_update(self.visited_fragments@, k as int, false);
                                }
                                self.visited_fragments.set(k, Some(false));
                                let found = self.find(program, &program.fragments[k].selections);
                                proof {
                                    lemma_unvisited_update(self.visited_fragments@, k as int, found);
                                    if found {
                                        assert(selections_have_catch(program.fragments@[k as int].selections)
                                            || some_fragment_has_catch(program));
                                    }
                                }
                                let ghost sc = self.visited_fragments@;
                                self.visited_fragments.set(k, Some(found));
                                proof {
                                    let sd = self.visited_fragments@;
                                    assert(memo_grows(program, sa, sd)) by {
                                        assert forall|j: int| 0 <= j < sa.len() && #[trigger] sa[j] is Some implies sd[j] == sa[j] by {
                                            if j != k {
                                                assert(sc[j] == sa[j]);
                                            }
                                        }
                                        assert forall|j: int| 0 <= j < sa.len() && sa[j] is None && #[trigger] sd[j] == Some(false)
                                            implies !selections_have_catch(program.fragments@[j].selections) by {
                                            if j != k {
                                                assert(sd[j] == sc[j]);
                                            }
                                        }
                                    }
                                    lemma_memo_grows_trans(program, old(self).visited_fragments@, sa, sd);
                                }
                                if found {
                                    proof {
                                        assert(selection_spreads(selections@[i as int], program.fragments@[k as int].name.item@));
                                        lemma_reach_through_spread(program, *selections, k as int);
                                    }
                                    return true;
                                }
                            },
                        }
                    }
                },
            }
            assert(!selection_has_catch(selections@[i as int]));
            i = i + 1;
        }
        proof {
            if spreads_catch_fragment(program, *selections, old(self).visited_fragments@) {
                let k = choose|k: int|
                    #[trigger] is_first_fragment(program, k) && selections_spread(
                        *selections,
                        program.fragments@[k].name.item@,
                    ) && selections_have_catch(program.fragments@[k].selections)
                        && old(self).visited_fragments@[k] != Some(false);
                let j = choose|j: int|
                    0 <= j < selections@.len() && selection_spreads(
                        #[trigger] selections@[j],
                        program.fragments@[k].name.item@,
                    );
                assert(old(self).visited_fragments@[k] == Some(false));
            }
        }
        false
    }

    /// Whether the fragment at position `index` reaches `@catch`; the answer
    /// is remembered.
    pub fn visit_fragment(&mut self, program: &Program, index: usize) -> (r: bool)
        requires
            old(self).wf(program),
            index < program.fragments@.len(),
        ensures
            final(self).wf(program),
            r ==> some_fragment_has_catch(program),
            r ==> reaches_catch(program, program.fragments@[index as int].selections),
            final(self).visited_fragments@[index as int] == Some(r),
            old(self).visited_fragments@[index as int] matches Some(v) ==> r == v,
            old(self).visited_fragments@[index as int] is None && selections_have_catch(
                program.fragments@[index as int].selections,
            ) ==> r,
            old(self).visited_fragments@[index as int] is None && spreads_catch_fragment(
                program,
                program.fragments@[index as int].selections,
                old(self).visited_fragments@.update(index as int, Some(false)),
            ) ==> r,
            memo_grows(program, old(self).visited_fragments@, final(self).visited_fragments@),
    {
        match self.visited_fragments[index] {
            Some(v) => v,
            None => {
                let ghost sa = self.visited_fragments@;
                self.visited_fragments.set(index, Some(false));
                let found = self.find(program, &program.fragments[index].selections);
                let ghost sc = self.visited_fragments@;
                self.visited_fragments.set(index, Some(found));
                proof {
                    let sd = self.visited_fragments@;
                    assert forall|j: int| 0 <= j < sa.len() && #[trigger] sa[j] is Some implies sd[j] == sa[j] by {
                        if j != index {
                            assert(sc[j] == sa[j]);
                        }
                    }
                    assert forall|j: int| 0 <= j < sa.len() && sa[j] is None && #[trigger] sd[j] == Some(false)
                        implies !selections_have_catch(program.fragments@[j].selections) by {
                        if j != index {
                            assert(sd[j] == sc[j]);
                        }
                    }
                }
                found
            },
        }
    }
}

} // verus!
