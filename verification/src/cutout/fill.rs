//! Filling the cells of a field that could not be read.
//!
//! Each round a blur carries colour outward from the cells that have one. The blur
//! is the caller's; which cells it has reached, whether it has to widen and when
//! to stop is decided here.
use vstd::prelude::*;

verus! {

/// How many rounds are made once every cell has a colour, to even it out.
pub const FILL_SETTLE_ROUNDS: u32 = 4;

/// The state of the filling.
pub struct Filling {
    known: Vec<bool>,
    covered: Vec<bool>,
    doublings: u32,
    settled: u32,
    rounds: u32,
    limit: u32,
}

impl Filling {
    /// The cells that could be read.
    pub closed spec fn known(&self) -> Seq<bool> {
        self.known@
    }

    /// The cells that have a colour.
    pub closed spec fn covered(&self) -> Seq<bool> {
        self.covered@
    }

    /// How often the blur has been widened to twice its size.
    pub closed spec fn widened(&self) -> u32 {
        self.doublings
    }

    /// How many rounds have found every cell reached.
    pub closed spec fn calm(&self) -> u32 {
        self.settled
    }

    /// How many rounds have been made, and how many may be.
    pub closed spec fn made(&self) -> u32 {
        self.rounds
    }

    pub closed spec fn most(&self) -> u32 {
        self.limit
    }

    pub open spec fn wf(&self) -> bool {
        &&& self.covered().len() == self.known().len()
        &&& forall|i: int| 0 <= i < self.known().len() && self.known()[i] ==> #[trigger] self.covered()[i]
        &&& self.calm() <= FILL_SETTLE_ROUNDS
        &&& self.widened() <= self.made() <= self.most()
    }

    /// There is nothing more to do: every cell could be read, the colours have
    /// been evened out, or the rounds are used up.
    pub open spec fn over(&self) -> bool {
        ||| forall|i: int| 0 <= i < self.known().len() ==> #[trigger] self.known()[i]
        ||| self.calm() == FILL_SETTLE_ROUNDS
        ||| self.made() == self.most()
    }

    /// Starts on a grid. There are as many rounds as the longer side has cells: the
    /// front moves by at least one cell in each.
    pub fn start(cols: u32, rows: u32, known: Vec<bool>) -> (r: Self)
        requires
            known@.len() == cols * rows,
        ensures
            r.wf(),
            r.known() == known@,
            r.covered() == known@,
            r.widened() == 0,
            r.calm() == 0,
            r.made() == 0,
            r.most() == {
                let long = if cols < rows { rows } else { cols };
                if long < FILL_SETTLE_ROUNDS { FILL_SETTLE_ROUNDS } else { long }
            },
    {
        let long: u32 = if cols < rows { rows } else { cols };
        let limit: u32 = if long < FILL_SETTLE_ROUNDS { FILL_SETTLE_ROUNDS } else { long };
        let covered: Vec<bool> = known.clone();
        assert(covered@ =~= known@);
        Filling { known, covered, doublings: 0, settled: 0, rounds: 0, limit }
    }

    pub fn is_over(&self) -> (r: bool)
        requires
            self.wf(),
        ensures
            r == self.over(),
    {
        if self.settled == FILL_SETTLE_ROUNDS || self.rounds == self.limit {
            return true;
        }
        let mut i: usize = 0;
        while i < self.known.len()
            invariant
                self.settled != FILL_SETTLE_ROUNDS,
                self.rounds != self.limit,
                i <= self.known@.len(),
                forall|k: int| 0 <= k < i ==> #[trigger] self.known@[k],
            decreases self.known@.len() - i,
        {
            if !self.known[i] {
                assert(!self.known()[i as int]);
                return false;
            }
            i += 1;
        }
        true
    }

    /// The cells that have a colour.
    pub fn has_colour(&self) -> (r: &[bool])
        ensures
            r@ == self.covered(),
    {
        self.covered.as_slice()
    }

    /// How often the blur is to be widened.
    pub fn doublings(&self) -> (r: u32)
        ensures
            r == self.widened(),
    {
        self.doublings
    }

    /// Takes the cells that the blur has reached. A cell that could be read stays
    /// as it is. If some cell is still without a colour, and none has got one, the
    /// blur is too narrow.
    pub fn step(&mut self, reached: &[bool])
        requires
            old(self).wf(),
            !old(self).over(),
            reached@.len() == old(self).known().len(),
        ensures
            final(self).wf(),
            final(self).known() == old(self).known(),
            final(self).most() == old(self).most(),
            final(self).made() == old(self).made() + 1,
            final(self).covered() == Seq::new(
                reached@.len(),
                |i: int| old(self).covered()[i] || reached@[i],
            ),
            final(self).widened() == old(self).widened() + if missed(old(self).known(), reached@) && !gained(
                old(self).covered(),
                reached@,
            ) {
                1int
            } else {
                0
            },
            final(self).calm() == old(self).calm() + if missed(old(self).known(), reached@) { 0int } else { 1 },
    {
        let ghost (known, was) = (self.known@, self.covered@);
        let n: usize = self.known.len();
        let mut advanced: bool = false;
        let mut remaining: bool = false;
        let mut i: usize = 0;
        while i < n
            invariant
                n == known.len() == was.len() == reached@.len(),
                self.known@ == known,
                self.covered@.len() == n,
                self.doublings == old(self).doublings,
                self.settled == old(self).settled,
                self.rounds == old(self).rounds,
                self.limit == old(self).limit,
                i <= n,
                forall|k: int| 0 <= k < n && known[k] ==> #[trigger] was[k],
                forall|k: int| 0 <= k < i ==> #[trigger] self.covered@[k] == (was[k] || reached@[k]),
                forall|k: int| i <= k < n ==> #[trigger] self.covered@[k] == was[k],
                remaining <==> exists|k: int| 0 <= k < i && !known[k] && !(#[trigger] reached@[k]),
                advanced <==> exists|k: int| 0 <= k < i && !was[k] && #[trigger] reached@[k],
            decreases n - i,
        {
            if !self.known[i] {
                assert(reached@[i as int] == reached@[i as int]);
                if reached[i] {
                    if !self.covered[i] {
                        self.covered.set(i, true);
                        advanced = true;
                    }
                } else {
                    remaining = true;
                }
            } else {
                assert(was[i as int]);
            }
            i += 1;
        }
        assert(self.covered@ =~= Seq::new(reached@.len(), |k: int| was[k] || reached@[k]));
        if remaining {
            if !advanced {
                self.doublings = self.doublings + 1;
            }
        } else {
            self.settled = self.settled + 1;
        }
        self.rounds = self.rounds + 1;
    }
}

/// Some cell that could not be read was not reached.
pub open spec fn missed(known: Seq<bool>, reached: Seq<bool>) -> bool {
    exists|k: int| 0 <= k < known.len() && !known[k] && !(#[trigger] reached[k])
}

/// Some cell without a colour was reached.
pub open spec fn gained(covered: Seq<bool>, reached: Seq<bool>) -> bool {
    exists|k: int| 0 <= k < covered.len() && !covered[k] && #[trigger] reached[k]
}

} // verus!
