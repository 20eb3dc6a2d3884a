//! Laws of the search for the best settings.
use std::cmp::Ordering;

use vstd::prelude::*;

use crate::cutout::diagnostics::{Diagnostics, Share};
use crate::cutout::optimize::{
    box_on, comes_before, fell, final_key, has_fallen, lemma_lexical_at, lemma_lexical_chain, lemma_lexical_flip,
    lexical, marked, one_column, search_key, CandidateBbox, Finals, Score, Stage, Trial,
};
use crate::cutout::search::Optimizing;
use crate::geometry::Rect;

verus! {

/// The order of the search can be turned round and chained: it is an order.
pub proof fn law_the_search_is_an_order(a: &Trial, b: &Trial, c: &Trial)
    ensures
        lexical(search_key(a), search_key(b)) == Ordering::Less <==> lexical(search_key(b), search_key(a))
            == Ordering::Greater,
        lexical(search_key(a), search_key(b)) == Ordering::Equal <==> search_key(a) == search_key(b),
        lexical(search_key(a), search_key(b)) != Ordering::Greater && lexical(search_key(b), search_key(c))
            != Ordering::Greater ==> lexical(search_key(a), search_key(c)) != Ordering::Greater,
{
    lemma_lexical_flip(search_key(a), search_key(b));
    if lexical(search_key(a), search_key(b)) != Ordering::Greater && lexical(search_key(b), search_key(c))
        != Ordering::Greater {
        lemma_lexical_chain(search_key(a), search_key(b), search_key(c));
    }
}

/// So can that of the final stage.
pub proof fn law_the_final_is_an_order(a: &Trial, b: &Trial, c: &Trial)
    ensures
        lexical(final_key(a), final_key(b)) == Ordering::Less <==> lexical(final_key(b), final_key(a))
            == Ordering::Greater,
        lexical(final_key(a), final_key(b)) == Ordering::Equal <==> final_key(a) == final_key(b),
        lexical(final_key(a), final_key(b)) != Ordering::Greater && lexical(final_key(b), final_key(c))
            != Ordering::Greater ==> lexical(final_key(a), final_key(c)) != Ordering::Greater,
{
    lemma_lexical_flip(final_key(a), final_key(b));
    if lexical(final_key(a), final_key(b)) != Ordering::Greater && lexical(final_key(b), final_key(c))
        != Ordering::Greater {
        lemma_lexical_chain(final_key(a), final_key(b), final_key(c));
    }
}

/// Fewer fatal warnings win in the final stage, whatever the rest says.
pub proof fn law_fatal_warnings_decide_first(a: &Trial, b: &Trial)
    requires
        a.final_rank() < b.final_rank(),
    ensures
        lexical(final_key(a), final_key(b)) == Ordering::Less,
{
    assert(final_key(a)[0] < final_key(b)[0]);
}

/// A boundary that can be measured beats one that cannot, whatever the quality.
pub proof fn law_a_measured_boundary_wins(a: &Trial, b: &Trial)
    requires
        a.final_rank() == b.final_rank(),
        a.score.unmeasured < b.score.unmeasured,
    ensures
        lexical(final_key(a), final_key(b)) == Ordering::Less,
{
    lemma_lexical_at(final_key(a), final_key(b), 1);
}

/// In the search a distance that is not known ranks behind any that is.
pub proof fn law_an_unknown_distance_ranks_last(a: &Trial, b: &Trial)
    requires
        a.first_rank() == b.first_rank(),
        a.separability is Some,
        b.separability is None,
    ensures
        lexical(search_key(a), search_key(b)) == Ordering::Less,
{
    lemma_lexical_at(search_key(a), search_key(b), 1);
}

/// What only refinement settles has no say in the search.
pub proof fn law_the_search_ignores_what_refinement_changes(
    t: Trial,
    touches_edge: bool,
    diagnostics: Diagnostics,
    score: Score,
)
    ensures
        search_key(&(Trial { touches_edge, diagnostics, score, ..t })) == search_key(&t),
{
    assert(search_key(&(Trial { touches_edge, diagnostics, score, ..t })) =~= search_key(&t));
}

/// Equals are told apart by the least intervention: the lower tolerance first.
pub proof fn law_a_tie_goes_to_the_lower_tolerance(a: &Trial, b: &Trial)
    requires
        a.first_rank() == b.first_rank(),
        a.separability == b.separability,
        a.candidate.tolerance < b.candidate.tolerance,
    ensures
        lexical(search_key(a), search_key(b)) == Ordering::Less,
{
    lemma_lexical_at(search_key(a), search_key(b), 2);
}

/// A trial that swallowed the product is never clean, though it has no warnings.
pub proof fn law_a_collapsed_trial_is_not_clean(t: Trial)
    ensures
        !marked(t, true).is_clean(),
{
}

/// From a collapse on, every trial of the column with a higher tolerance has
/// collapsed.
pub proof fn law_a_collapse_is_passed_on(t: Seq<Trial>, i: int, j: int)
    requires
        0 <= j < t.len(),
        has_fallen(t, i),
        comes_before(t, i, j),
    ensures
        has_fallen(t, j),
{
    let k = choose|k: int|
        0 <= k < t.len() && (k == i || comes_before(t, k, i)) && #[trigger] crate::cutout::optimize::falls_at(t, k);
    assert(comes_before(t, k, j));
}

/// A trial is only compared within its own column.
pub proof fn law_a_collapse_stays_in_its_column(t: Seq<Trial>, i: int)
    requires
        0 <= i < t.len(),
        has_fallen(t, i),
    ensures
        exists|j: int, k: int|
            0 <= j < t.len() && 0 <= k < t.len() && one_column(&t[j], &t[i]) && one_column(&t[k], &t[i]) && fell(
                #[trigger] t[j].foreground,
                #[trigger] t[k].foreground,
            ),
{
    let k = choose|k: int|
        0 <= k < t.len() && (k == i || comes_before(t, k, i)) && #[trigger] crate::cutout::optimize::falls_at(t, k);
    let j = choose|j: int| #[trigger]
        crate::cutout::optimize::just_before(t, j, k) && fell(t[j].foreground, t[k].foreground);
    assert(one_column(&t[j], &t[i]) && one_column(&t[k], &t[i]));
    assert(fell(t[j].foreground, t[k].foreground));
}

/// The same foreground is no collapse, and neither is a larger one.
pub proof fn law_no_loss_is_no_collapse(before: Share, after: Share)
    requires
        0 < before.whole,
        0 < after.whole,
        before.part * after.whole <= after.part * before.whole,
    ensures
        !fell(before, after),
{
    assert(0 <= after.part * before.whole) by (nonlinear_arith)
        requires
            0 <= after.part,
            0 <= before.whole,
    ;
}

/// What the user gave is not moved at full size.
pub proof fn law_a_given_box_is_not_moved(b: Rect, size: (u32, u32), r: Rect)
    requires
        box_on(CandidateBbox::Given(b), size, size, r),
    ensures
        r == b,
{
}

/// A search that is over has a winner: some candidate is always tried.
pub proof fn law_a_search_always_chooses(s: Optimizing)
    requires
        s.wf(),
        s.over(),
    ensures
        s.stage().leader() matches Some(b) && b < s.list().len(),
{
}

/// No trial at full size ranks before the winner.
pub proof fn law_nothing_that_ran_beats_the_winner(s: Optimizing, i: int)
    requires
        s.wf(),
        0 <= i < s.stage().ran(),
    ensures
        s.stage().leader() matches Some(b) && lexical(final_key(&s.list()[b + 0]), final_key(&s.list()[i]))
            != Ordering::Greater,
{
}

/// The winner ran at full size, and it is one of the candidates.
pub proof fn law_the_winner_ran_at_full_size(s: Optimizing)
    requires
        s.wf(),
        s.over(),
    ensures
        s.stage().leader() matches Some(b) && s.list()[b + 0].stage == Stage::Final && s.plan().contains(
            s.list()[b + 0].candidate,
        ),
{
}

/// A clean trial ends the search.
pub proof fn law_a_clean_trial_ends_the_search(
    f: Finals,
    trials: Seq<Trial>,
    trial: Trial,
    then: Finals,
    after: Seq<Trial>,
    keep: bool,
)
    requires
        f.records(trials, trial, &then, after, keep),
        after[f.ran()].is_clean(),
        f.ran() < trials.len(),
        0 <= f.ran(),
    ensures
        !then.goes_on(after),
{
}

} // verus!
