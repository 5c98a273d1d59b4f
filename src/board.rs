//! Boards and the rule that places one cut on a board.
use vstd::prelude::*;

use crate::lane::{
    Cut,
    RipStack,
    SCORE_ONE,
    ceil_div,
    lemma_ceil_div_bounds,
    lane_length,
    lane_score,
    lemma_lane_score_bounds,
    lemma_lane_used_positive,
    lane_width,
    lemma_lane_length_bounds,
    lemma_single_cut_lane,
};
use crate::model;

verus! {

/// Length of a board taken by its lanes, placed one after another.
pub open spec fn allocated_length(lanes: Seq<Seq<Cut>>) -> int
    decreases lanes.len(),
{
    if lanes.len() == 0 {
        0
    } else {
        allocated_length(lanes.drop_last()) + lane_length(lanes.last())
    }
}

pub proof fn lemma_allocated_length_prefix(lanes: Seq<Seq<Cut>>, j: int)
    requires
        0 <= j <= lanes.len(),
    ensures
        0 <= allocated_length(lanes.take(j)) <= allocated_length(lanes),
    decreases lanes.len(),
{
    if j == lanes.len() {
        assert(lanes.take(j) =~= lanes);
        if lanes.len() > 0 {
            lemma_allocated_length_prefix(lanes.drop_last(), j - 1);
            assert(lanes.drop_last().take(j - 1) =~= lanes.drop_last());
            lemma_lane_length_bounds(lanes.last());
        }
    } else {
        lemma_allocated_length_prefix(lanes.drop_last(), j);
        assert(lanes.drop_last().take(j) =~= lanes.take(j));
        lemma_lane_length_bounds(lanes.last());
    }
}

/// Replacing one lane changes the allocated length by the difference of the
/// two lanes' lengths.
pub proof fn lemma_allocated_length_update(lanes: Seq<Seq<Cut>>, i: int, lane: Seq<Cut>)
    requires
        0 <= i < lanes.len(),
    ensures
        allocated_length(lanes.update(i, lane)) == allocated_length(lanes) - lane_length(lanes[i])
            + lane_length(lane),
    decreases lanes.len(),
{
    let updated = lanes.update(i, lane);
    if i == lanes.len() - 1 {
        assert(updated.drop_last() =~= lanes.drop_last());
    } else {
        lemma_allocated_length_update(lanes.drop_last(), i, lane);
        assert(updated.drop_last() =~= lanes.drop_last().update(i, lane));
    }
}

/// What the placement rules see of a board.
pub struct BoardView {
    pub length: u32,
    pub width: u32,
    pub id: String,
    pub lanes: Seq<Seq<Cut>>,
}

impl BoardView {
    /// No lane is wider than the board, and the lanes together are no longer
    /// than the board.
    pub open spec fn wf(self) -> bool {
        &&& forall|i: int|
            0 <= i < self.lanes.len() ==> lane_width(#[trigger] self.lanes[i]) <= self.width
        &&& allocated_length(self.lanes) <= self.length
    }

    pub open spec fn unallocated_length(self) -> int {
        self.length - allocated_length(self.lanes)
    }

    /// Lane `i` could take `cut` and stay strictly narrower than the board.
    pub open spec fn lane_fits(self, i: int, cut: Cut) -> bool {
        lane_width(self.lanes[i]) + cut.width < self.width
    }

    /// How far the length of lane `i` is from the length of `cut`.
    pub open spec fn length_gap(self, i: int, cut: Cut) -> int {
        let d = cut.length - lane_length(self.lanes[i]);
        if d >= 0 {
            d
        } else {
            -d
        }
    }

    pub open spec fn has_fitting_lane(self, cut: Cut) -> bool {
        exists|i: int| 0 <= i < self.lanes.len() && #[trigger] self.lane_fits(i, cut)
    }

    /// Lane `i` fits `cut` and, among the lanes that fit, its length is closest
    /// to the cut's; on a tie the earliest lane wins.
    pub open spec fn is_best_lane(self, cut: Cut, i: int) -> bool {
        &&& 0 <= i < self.lanes.len()
        &&& self.lane_fits(i, cut)
        &&& forall|j: int|
            0 <= j < self.lanes.len() && #[trigger] self.lane_fits(j, cut) ==> {
                &&& self.length_gap(i, cut) <= self.length_gap(j, cut)
                &&& j < i ==> self.length_gap(i, cut) < self.length_gap(j, cut)
            }
    }

    /// The lane that `cut` would join, if any.
    pub open spec fn best_lane(self, cut: Cut) -> Option<int> {
        if exists|i: int| self.is_best_lane(cut, i) {
            Some(choose|i: int| self.is_best_lane(cut, i))
        } else {
            None
        }
    }

    /// Quick test: the cut fits the board's dimensions, and either some lane
    /// fits it or there is room for a new lane.
    pub open spec fn can_accept(self, cut: Cut) -> bool {
        &&& cut.width <= self.width
        &&& cut.length <= self.length
        &&& (self.has_fitting_lane(cut) || self.unallocated_length() >= cut.length)
    }

    /// The board after taking `cut`, or `None` when it refuses the cut.
    ///
    /// A cut larger than the board is refused. Otherwise it joins the best
    /// lane, unless that would make the lanes longer than the board, in which
    /// case it is refused. With no lane that fits, it opens a new lane at the
    /// end of the board if the unallocated length allows.
    pub open spec fn accept(self, cut: Cut) -> Option<BoardView> {
        if cut.length > self.length || cut.width > self.width {
            None
        } else {
            match self.best_lane(cut) {
                Some(i) => {
                    let lanes = self.lanes.update(i, self.lanes[i].push(cut));
                    if allocated_length(lanes) <= self.length {
                        Some(BoardView { lanes, ..self })
                    } else {
                        None
                    }
                },
                None => {
                    if self.unallocated_length() >= cut.length {
                        Some(BoardView { lanes: self.lanes.push(seq![cut]), ..self })
                    } else {
                        None
                    }
                },
            }
        }
    }
}

pub proof fn lemma_best_lane_unique(b: BoardView, cut: Cut, i: int)
    requires
        b.is_best_lane(cut, i),
    ensures
        b.best_lane(cut) == Some(i),
{
    let k = choose|k: int| b.is_best_lane(cut, k);
    assert(b.is_best_lane(cut, k));
    assert(b.lane_fits(i, cut) && b.lane_fits(k, cut));
    if k < i {
        assert(b.length_gap(i, cut) <= b.length_gap(k, cut));
    } else if i < k {
        assert(b.length_gap(k, cut) <= b.length_gap(i, cut));
    }
}

pub proof fn lemma_no_best_lane(b: BoardView, cut: Cut)
    requires
        !b.has_fitting_lane(cut),
    ensures
        b.best_lane(cut) is None,
{
    if exists|i: int| b.is_best_lane(cut, i) {
        let k = choose|i: int| b.is_best_lane(cut, i);
        assert(b.lane_fits(k, cut));
    }
}

/// A board that takes a cut passes the quick test.
pub proof fn lemma_accept_implies_can_accept(b: BoardView, cut: Cut)
    requires
        b.accept(cut) is Some,
    ensures
        b.can_accept(cut),
{
    if let Some(i) = b.best_lane(cut) {
        let k = choose|k: int| b.is_best_lane(cut, k);
        assert(b.lane_fits(k, cut));
    }
}

/// Taking a cut keeps a board well formed.
pub proof fn lemma_accept_wf(b: BoardView, cut: Cut)
    requires
        b.wf(),
        b.accept(cut) is Some,
    ensures
        b.accept(cut)->0.wf(),
{
    let nb = b.accept(cut)->0;
    if let Some(i) = b.best_lane(cut) {
        let k = choose|k: int| b.is_best_lane(cut, k);
        assert(b.lane_fits(k, cut));
        assert(b.lanes[i].push(cut).drop_last() =~= b.lanes[i]);
        assert forall|j: int| 0 <= j < nb.lanes.len() implies lane_width(#[trigger] nb.lanes[j])
            <= nb.width by {
            if j != i {
                assert(nb.lanes[j] == b.lanes[j]);
            }
        }
    } else {
        let lanes = b.lanes.push(seq![cut]);
        assert(lanes.drop_last() =~= b.lanes);
        lemma_single_cut_lane(cut);
        assert forall|j: int| 0 <= j < nb.lanes.len() implies lane_width(#[trigger] nb.lanes[j])
            <= nb.width by {
            if j < b.lanes.len() {
                assert(nb.lanes[j] == b.lanes[j]);
            } else {
                assert(nb.lanes[j] == seq![cut]);
            }
        }
    }
}

/// Product of the lanes' scores, each product rounded up to a fraction of
/// `SCORE_ONE`, taken from the first lane to the last.
pub open spec fn lanes_score(lanes: Seq<Seq<Cut>>) -> int
    decreases lanes.len(),
{
    if lanes.len() == 0 {
        SCORE_ONE as int
    } else {
        ceil_div(lanes_score(lanes.drop_last()) * lane_score(lanes.last()), SCORE_ONE as int)
    }
}

/// A board's score: the product of its lanes' scores; none for a board
/// without lanes.
pub open spec fn board_score(b: BoardView) -> Option<int> {
    if b.lanes.len() == 0 {
        None
    } else {
        Some(lanes_score(b.lanes))
    }
}

pub proof fn lemma_score_product_bounds(a: int, b: int)
    requires
        0 <= a <= SCORE_ONE,
        0 <= b <= SCORE_ONE,
    ensures
        0 <= ceil_div(a * b, SCORE_ONE as int) <= SCORE_ONE,
        a >= 1 && b >= 1 ==> ceil_div(a * b, SCORE_ONE as int) >= 1,
        a * b <= SCORE_ONE * SCORE_ONE,
{
    assert(0 <= a * b <= 4294967296 * 4294967296) by (nonlinear_arith)
        requires
            0 <= a <= 4294967296,
            0 <= b <= 4294967296,
    ;
    assert(a >= 1 && b >= 1 ==> a * b >= 1) by (nonlinear_arith);
    lemma_ceil_div_bounds(a * b, SCORE_ONE as int, SCORE_ONE as int);
}

/// Every lane holds a cut, and every cut has positive dimensions.
pub open spec fn lanes_filled(lanes: Seq<Seq<Cut>>) -> bool {
    forall|i: int|
        0 <= i < lanes.len() ==> (#[trigger] lanes[i]).len() > 0 && forall|j: int|
            0 <= j < lanes[i].len() ==> #[trigger] lanes[i][j].length > 0 && lanes[i][j].width > 0
}

/// Filled lanes score above 0, and so do their products.
pub proof fn lemma_lanes_score_positive(lanes: Seq<Seq<Cut>>)
    requires
        lanes_filled(lanes),
    ensures
        1 <= lanes_score(lanes) <= SCORE_ONE,
    decreases lanes.len(),
{
    if lanes.len() > 0 {
        let rest = lanes.drop_last();
        assert(lanes_filled(rest)) by {
            assert forall|i: int| 0 <= i < rest.len() implies (#[trigger] rest[i]).len() > 0 by {
                assert(rest[i] == lanes[i]);
            }
        }
        lemma_lanes_score_positive(rest);
        let last = lanes.last();
        assert(lanes[lanes.len() - 1].len() > 0);
        lemma_lane_used_positive(last);
        lemma_lane_score_bounds(last);
        lemma_score_product_bounds(lanes_score(rest), lane_score(last));
    }
}

/// The views of a list of boards.
pub open spec fn boards_view(boards: Seq<Board>) -> Seq<BoardView> {
    boards.map_values(|b: Board| b@)
}

/// A stock board with the lanes placed on it so far.
#[derive(Clone, Debug)]
pub struct Board {
    pub length: u32,
    pub width: u32,
    pub id: String,
    pub stacks: Vec<RipStack>,
}

impl View for Board {
    type V = BoardView;

    open spec fn view(&self) -> BoardView {
        BoardView {
            length: self.length,
            width: self.width,
            id: self.id,
            lanes: self.stacks@.map_values(|s: RipStack| s.cuts@),
        }
    }
}

impl Board {
    /// An empty board of the template's size.
    pub fn from_template(board: &model::Board) -> (r: Board)
        ensures
            r@ == (BoardView {
                length: board.length,
                width: board.width,
                id: board.id,
                lanes: Seq::empty(),
            }),
    {
        let r = Board {
            length: board.length,
            width: board.width,
            id: board.id.clone(),
            stacks: Vec::new(),
        };
        assert(r@.lanes =~= Seq::<Seq<Cut>>::empty());
        r
    }

    pub fn allocated_length(&self) -> (r: u64)
        requires
            self@.wf(),
        ensures
            r == allocated_length(self@.lanes),
    {
        let ghost lanes = self@.lanes;
        let mut total: u64 = 0;
        let mut i: usize = 0;
        while i < self.stacks.len()
            invariant
                0 <= i <= self.stacks@.len(),
                lanes == self@.lanes,
                self@.wf(),
                total == allocated_length(lanes.take(i as int)),
            decreases self.stacks@.len() - i,
        {
            assert(lanes.take(i + 1).drop_last() =~= lanes.take(i as int));
            proof {
                lemma_allocated_length_prefix(lanes, i + 1);
            }
            total = total + self.stacks[i].length() as u64;
            i += 1;
        }
        assert(lanes.take(i as int) =~= lanes);
        total
    }

    pub fn unallocated_length(&self) -> (r: u64)
        requires
            self@.wf(),
        ensures
            r == self@.unallocated_length(),
    {
        self.length as u64 - self.allocated_length()
    }

    /// The lane that `cut` would join, per `BoardView::best_lane`.
    pub fn best_stack_for_cut(&self, cut: &Cut) -> (r: Option<usize>)
        requires
            self@.wf(),
        ensures
            match r {
                Some(i) => self@.best_lane(*cut) == Some(i as int) && self@.is_best_lane(*cut, i as int),
                None => self@.best_lane(*cut) is None && !self@.has_fitting_lane(*cut),
            },
    {
        let ghost b = self@;
        let mut best: Option<usize> = None;
        let mut best_gap: u32 = 0;
        let mut i: usize = 0;
        while i < self.stacks.len()
            invariant
                0 <= i <= self.stacks@.len(),
                b == self@,
                b.wf(),
                match best {
                    Some(k) => {
                        &&& k < i
                        &&& b.lane_fits(k as int, *cut)
                        &&& best_gap == b.length_gap(k as int, *cut)
                        &&& forall|j: int|
                            0 <= j < i && #[trigger] b.lane_fits(j, *cut) ==> {
                                &&& b.length_gap(k as int, *cut) <= b.length_gap(j, *cut)
                                &&& j < k ==> b.length_gap(k as int, *cut) < b.length_gap(j, *cut)
                            }
                    },
                    None => forall|j: int| 0 <= j < i ==> !#[trigger] b.lane_fits(j, *cut),
                },
            decreases self.stacks@.len() - i,
        {
            let stack = &self.stacks[i];
            assert(b.lanes[i as int] == stack.cuts@);
            assert(lane_width(b.lanes[i as int]) <= b.width);
            let w = stack.width();
            if w + (cut.width as u64) < self.width as u64 {
                let len = stack.length();
                let gap: u32 = if cut.length >= len {
                    cut.length - len
                } else {
                    len - cut.length
                };
                let better = match best {
                    Some(_) => gap < best_gap,
                    None => true,
                };
                if better {
                    best = Some(i);
                    best_gap = gap;
                }
            }
            i += 1;
        }
        match best {
            Some(k) => {
                assert(b.is_best_lane(*cut, k as int));
                proof {
                    lemma_best_lane_unique(b, *cut, k as int);
                }
            },
            None => {
                proof {
                    lemma_no_best_lane(b, *cut);
                }
            },
        }
        best
    }

    pub fn can_accept(&self, cut: &Cut) -> (r: bool)
        requires
            self@.wf(),
        ensures
            r == self@.can_accept(*cut),
    {
        self.width >= cut.width && self.length >= cut.length && (
        self.best_stack_for_cut(cut).is_some() || self.unallocated_length() >= cut.length as u64)
    }

    /// Takes `cut` as `BoardView::accept` says; returns whether it did.
    pub fn accept(&mut self, cut: &Cut) -> (r: bool)
        requires
            old(self)@.wf(),
        ensures
            final(self)@.wf(),
            match old(self)@.accept(*cut) {
                Some(nb) => r && final(self)@ == nb,
                None => !r && final(self)@ == old(self)@,
            },
    {
        let ghost b = self@;
        proof {
            if b.accept(*cut) is Some {
                lemma_accept_wf(b, *cut);
            }
        }
        if cut.length > self.length || cut.width > self.width {
            return false;
        }
        match self.best_stack_for_cut(cut) {
            Some(i) => {
                let lane_length = self.stacks[i].length();
                proof {
                    lemma_allocated_length_update(b.lanes, i as int, b.lanes[i as int].push(*cut));
                    assert(b.lanes[i as int].push(*cut).drop_last() =~= b.lanes[i as int]);
                    lemma_allocated_length_prefix(b.lanes, 0);
                }
                if cut.length > lane_length {
                    let allocated = self.allocated_length();
                    if allocated + ((cut.length - lane_length) as u64) > self.length as u64 {
                        return false;
                    }
                }
                let mut stack = self.stacks.remove(i);
                stack.accept(cut.clone());
                self.stacks.insert(i, stack);
                assert(self@.lanes =~= b.lanes.update(i as int, b.lanes[i as int].push(*cut)));
                true
            },
            None => {
                if self.unallocated_length() >= cut.length as u64 {
                    let mut stack = RipStack::new();
                    stack.accept(cut.clone());
                    self.stacks.push(stack);
                    assert(self@.lanes =~= b.lanes.push(seq![*cut]));
                    true
                } else {
                    false
                }
            },
        }
    }
}


impl Board {
    /// Product of the lane scores, or `None` for a board without lanes.
    pub fn score(&self) -> (r: Option<u64>)
        requires
            self@.wf(),
        ensures
            r matches Some(v) ==> v <= SCORE_ONE,
            lanes_filled(self@.lanes) ==> (r matches Some(v) ==> v >= 1),
            match board_score(self@) {
                Some(s) => r matches Some(v) && v == s,
                None => r is None,
            },
    {
        let ghost lanes = self@.lanes;
        if self.stacks.len() == 0 {
            return None;
        }
        let mut acc: u64 = SCORE_ONE;
        let mut i: usize = 0;
        while i < self.stacks.len()
            invariant
                0 <= i <= self.stacks@.len(),
                lanes == self@.lanes,
                self@.wf(),
                acc == lanes_score(lanes.take(i as int)),
                acc <= SCORE_ONE,
            decreases self.stacks@.len() - i,
        {
            assert(lanes.take(i + 1).drop_last() =~= lanes.take(i as int));
            assert(lanes[i as int] == self.stacks@[i as int].cuts@);
            assert(lane_width(lanes[i as int]) <= self.width);
            let s = self.stacks[i].score();
            proof {
                lemma_score_product_bounds(acc as int, s as int);
            }
            acc = ((acc as u128 * s as u128 + SCORE_ONE as u128 - 1) / SCORE_ONE as u128) as u64;
            i += 1;
        }
        assert(lanes.take(i as int) =~= lanes);
        proof {
            if lanes_filled(lanes) {
                lemma_lanes_score_positive(lanes);
            }
        }
        Some(acc)
    }
}

} // verus!
