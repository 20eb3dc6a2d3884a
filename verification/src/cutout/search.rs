//! The search for the best settings, one trial after the other.
//!
//! The caller makes a cutout with each candidate and hands its outcome back:
//! first all of them on a small image, then the best ones at full size. What is
//! tried next and what wins is decided here.
use vstd::prelude::*;

use crate::cutout::background::ResolvedModel;
use crate::cutout::finish::CutoutOptions;
use crate::cutout::optimize::{
    boxes_of, candidates, grid, has_fallen, in_order, marked, models_of, penalise_collapse, sort_trials,
    tolerances_of, with_key, Candidate, Finals, OptimizeFixed, Stage, Trial,
};
use crate::cutout::subject::SubjectHint;

verus! {

/// What is to be tried next.
#[derive(Debug, Clone, Copy, PartialEq, Eq)]
pub enum Next {
    /// A candidate on the small image.
    Search(Candidate),
    /// A candidate at full size.
    Final(Candidate),
    /// Nothing more.
    Over,
}

/// A search under way.
pub struct Optimizing {
    set: Vec<Candidate>,
    trials: Vec<Trial>,
    finals: Finals,
}

/// What became of a search.
pub struct Chosen {
    /// All trials in the order of the search. Those that were run at full size
    /// tell of that.
    pub trials: Vec<Trial>,
    /// The place of the best among them.
    pub chosen: usize,
}

/// The trials with the product marked as swallowed where the foreground fell.
pub open spec fn penalised(t: Seq<Trial>) -> Seq<Trial> {
    Seq::new(t.len(), |i: int| marked(t[i], t[i].collapsed || has_fallen(t, i)))
}

/// The outcomes of a search in the order of their rank.
pub open spec fn ranks(from: Seq<Trial>, to: Seq<Trial>) -> bool {
    &&& in_order(to)
    &&& to.to_multiset() == penalised(from).to_multiset()
    &&& forall|key: Seq<int>| #[trigger] with_key(to, key) == with_key(penalised(from), key)
}

impl Optimizing {
    /// The candidates.
    pub closed spec fn plan(&self) -> Seq<Candidate> {
        self.set@
    }

    /// The outcomes so far.
    pub closed spec fn list(&self) -> Seq<Trial> {
        self.trials@
    }

    /// How far the final stage has come.
    pub closed spec fn stage(&self) -> Finals {
        self.finals
    }

    /// Not all candidates have been tried on the small image.
    pub open spec fn searching(&self) -> bool {
        self.list().len() < self.plan().len()
    }

    /// There is nothing left to try.
    pub open spec fn over(&self) -> bool {
        !self.searching() && !self.stage().goes_on(self.list())
    }

    pub open spec fn wf(&self) -> bool {
        &&& 0 < self.plan().len()
        &&& self.list().len() <= self.plan().len()
        &&& self.stage().fits(self.list())
        &&& self.searching() ==> self.stage().ran() == 0 && forall|i: int|
            0 <= i < self.list().len() ==> (#[trigger] self.list()[i]).candidate == self.plan()[i]
        &&& forall|i: int| 0 <= i < self.list().len() ==> self.plan().contains((#[trigger] self.list()[i]).candidate)
        &&& forall|i: int|
            0 <= i < self.list().len() ==> (#[trigger] self.list()[i]).stage == if i < self.stage().ran() {
                Stage::Final
            } else {
                Stage::Search
            }
        &&& self.stage().stopped() ==> self.stage().ran() > 0
    }

    /// Starts a search. What the user has set is not searched.
    pub fn start(
        base: &CutoutOptions,
        fixed: &OptimizeFixed,
        subject: Option<SubjectHint>,
        resolved: ResolvedModel,
    ) -> (r: Self)
        ensures
            r.wf(),
            r.searching(),
            r.list().len() == 0,
            r.plan() == grid(
                boxes_of(base.bbox, fixed, subject),
                tolerances_of(base.tolerance, fixed),
                models_of(base.background_model, fixed, resolved),
            ),
    {
        let set: Vec<Candidate> = candidates(base, fixed, subject, resolved);
        let r: Optimizing = Optimizing { set, trials: Vec::new(), finals: Finals::new() };
        assert(r.stage().fits(r.list()));
        r
    }

    /// The candidate that is to be tried next, and in which stage.
    pub open spec fn asked(&self) -> (Candidate, Stage) {
        if self.searching() {
            (self.plan()[self.list().len() as int], Stage::Search)
        } else {
            (self.list()[self.stage().ran()].candidate, Stage::Final)
        }
    }

    /// What is to be tried next: every candidate on the small image, then the best
    /// at full size until one is clean.
    pub fn next(&self) -> (r: Next)
        requires
            self.wf(),
        ensures
            self.searching() ==> r == Next::Search(self.asked().0),
            !self.searching() && !self.over() ==> r == Next::Final(self.asked().0),
            self.over() <==> r == Next::Over,
    {
        let n: usize = self.trials.len();
        if n < self.set.len() {
            return Next::Search(self.set[n]);
        }
        match self.finals.next(&self.trials) {
            Some(c) => Next::Final(c),
            None => Next::Over,
        }
    }

    /// Takes the outcome of what was asked for, and says whether its cutout is the
    /// best so far at full size. After the last trial on the small image the
    /// outcomes are ranked.
    pub fn record(&mut self, trial: Trial) -> (keep: bool)
        requires
            old(self).wf(),
            !old(self).over(),
            trial.wf(),
            (trial.candidate, trial.stage) == old(self).asked(),
        ensures
            final(self).wf(),
            final(self).plan() == old(self).plan(),
            old(self).searching() ==> {
                &&& !keep
                &&& final(self).stage().ran() == 0
                &&& if final(self).searching() {
                    final(self).list() == old(self).list().push(trial)
                } else {
                    ranks(old(self).list().push(trial), final(self).list())
                }
                &&& final(self).searching() <==> old(self).list().len() + 1 < old(self).plan().len()
            },
            !old(self).searching() ==> old(self).stage().records(
                old(self).list(),
                trial,
                &final(self).stage(),
                final(self).list(),
                keep,
            ),
    {
        let ghost was = self.trials@;
        if self.trials.len() < self.set.len() {
            self.trials.push(trial);
            let ghost tried = self.trials@;
            assert forall|k: int| 0 <= k < tried.len() implies (#[trigger] tried[k]).wf() by {
                if k < was.len() {
                    assert(tried[k] == was[k]);
                }
            }
            if self.trials.len() == self.set.len() {
                let mut all: Vec<Trial> = Vec::new();
                std::mem::swap(&mut all, &mut self.trials);
                penalise_collapse(&mut all);
                assert(all@ == penalised(tried));
                let ghost marks = all@;
                assert forall|k: int| 0 <= k < all@.len() implies (#[trigger] all@[k]).wf() by {
                    assert(tried[k].wf());
                }
                self.trials = sort_trials(all);
                proof {
                    let out = self.trials@;
                    out.to_multiset_ensures();
                    marks.to_multiset_ensures();
                    assert forall|i: int| 0 <= i < out.len() implies self.plan().contains((#[trigger] out[i]).candidate)
                        && out[i].stage == Stage::Search by {
                        assert(out.contains(out[i]));
                        assert(out.to_multiset().count(out[i]) > 0);
                        assert(marks.to_multiset().count(out[i]) > 0);
                        assert(marks.contains(out[i]));
                        let k = choose|k: int| 0 <= k < marks.len() && marks[k] == out[i];
                        assert(out[i].candidate == tried[k].candidate && out[i].stage == tried[k].stage);
                        assert(self.plan().contains(tried[k].candidate));
                    }
                }
            }
            return false;
        }
        self.finals.record(&mut self.trials, trial)
    }

    /// Gives up the trials and the best of them. A search always has one, and it was
    /// run at full size.
    pub fn finish(self) -> (r: Chosen)
        requires
            self.wf(),
            self.over(),
        ensures
            r.trials@ == self.list(),
            self.stage().leader() == Some(r.chosen),
            r.chosen < r.trials@.len(),
            r.trials@[r.chosen as int].stage == Stage::Final,
            self.plan().contains(r.trials@[r.chosen as int].candidate),
    {
        let chosen: usize = match self.finals.chosen() {
            Some(b) => b,
            None => 0,
        };
        Chosen { trials: self.trials, chosen }
    }
}

} // verus!
