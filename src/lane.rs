//! Cuts and the lanes they are stacked in.
use vstd::prelude::*;

use crate::model;

verus! {

/// One physical piece to produce. Two cuts are equal when their dimensions,
/// in steps, and their ids are.
#[derive(Debug, PartialEq, Eq, Hash)]
pub struct Cut {
    pub length: u32,
    pub width: u32,
    pub id: String,
}

impl Clone for Cut {
    fn clone(&self) -> (r: Self)
        ensures
            r == *self,
    {
        Cut { length: self.length, width: self.width, id: self.id.clone() }
    }
}

/// The piece that a cut specification asks for, grown by `outset` in both dimensions.
pub open spec fn cut_from_spec(cut: model::Cut, outset: u32) -> Cut {
    Cut {
        length: (cut.length + outset) as u32,
        width: (cut.width + outset) as u32,
        id: cut.name,
    }
}

impl Cut {
    pub fn from(cut: &model::Cut, outset: u32) -> (r: Cut)
        requires
            cut.length + outset <= u32::MAX,
            cut.width + outset <= u32::MAX,
        ensures
            r == cut_from_spec(*cut, outset),
    {
        Cut { length: cut.length + outset, width: cut.width + outset, id: cut.name.clone() }
    }

    /// The same piece turned by a quarter: length and width swap.
    pub fn rotate(self) -> (r: Cut)
        ensures
            r == (Cut { length: self.width, width: self.length, id: self.id }),
    {
        Cut { length: self.width, width: self.length, id: self.id }
    }

    pub fn area(&self) -> (r: u64)
        ensures
            r == self.length * self.width,
    {
        proof {
            assert(self.length * self.width <= u32::MAX * u32::MAX) by (nonlinear_arith)
                requires
                    self.length <= u32::MAX,
                    self.width <= u32::MAX,
            ;
        }
        self.length as u64 * self.width as u64
    }
}


/// Fixed-point value that stands for a score of 1.
pub const SCORE_ONE: u64 = 4294967296;

/// Length of a lane along the board: its longest cut (0 when empty).
pub open spec fn lane_length(cuts: Seq<Cut>) -> int
    decreases cuts.len(),
{
    if cuts.len() == 0 {
        0
    } else if cuts.last().length > lane_length(cuts.drop_last()) {
        cuts.last().length as int
    } else {
        lane_length(cuts.drop_last())
    }
}

/// Width of a lane across the board: its cuts stacked side by side.
pub open spec fn lane_width(cuts: Seq<Cut>) -> int
    decreases cuts.len(),
{
    if cuts.len() == 0 {
        0
    } else {
        lane_width(cuts.drop_last()) + cuts.last().width
    }
}

/// Area that the cuts of a lane cover.
pub open spec fn lane_used_area(cuts: Seq<Cut>) -> int
    decreases cuts.len(),
{
    if cuts.len() == 0 {
        0
    } else {
        lane_used_area(cuts.drop_last()) + cuts.last().length * cuts.last().width
    }
}

/// Area that a lane takes from its board.
pub open spec fn lane_required_area(cuts: Seq<Cut>) -> int {
    lane_length(cuts) * lane_width(cuts)
}

/// `x / d` rounded up.
pub open spec fn ceil_div(x: int, d: int) -> int {
    (x + d - 1) / d
}

pub proof fn lemma_ceil_div_bounds(x: int, d: int, q: int)
    requires
        0 <= x <= q * d,
        d > 0,
        q >= 0,
    ensures
        0 <= ceil_div(x, d) <= q,
        x >= 1 ==> ceil_div(x, d) >= 1,
{
    vstd::arithmetic::div_mod::lemma_div_is_ordered(x + d - 1, q * d + d - 1, d);
    vstd::arithmetic::div_mod::lemma_fundamental_div_mod_converse(q * d + d - 1, d, q, d - 1);
    vstd::arithmetic::div_mod::lemma_div_pos_is_pos(x + d - 1, d);
    if x >= 1 {
        vstd::arithmetic::div_mod::lemma_div_is_ordered(d, x + d - 1, d);
        vstd::arithmetic::div_mod::lemma_div_by_multiple(1, d);
    }
}

/// Density of a lane, used over required area, as a fraction of `SCORE_ONE`
/// rounded up, so that a lane with any cut area scores above 0; 0 for a lane
/// that requires no area.
pub open spec fn lane_score(cuts: Seq<Cut>) -> int {
    if lane_required_area(cuts) > 0 {
        ceil_div(lane_used_area(cuts) * SCORE_ONE, lane_required_area(cuts))
    } else {
        0
    }
}

pub proof fn lemma_lane_length_bounds(cuts: Seq<Cut>)
    ensures
        0 <= lane_length(cuts) <= u32::MAX,
        forall|i: int| 0 <= i < cuts.len() ==> #[trigger] cuts[i].length <= lane_length(cuts),
    decreases cuts.len(),
{
    if cuts.len() > 0 {
        lemma_lane_length_bounds(cuts.drop_last());
        assert forall|i: int| 0 <= i < cuts.len() implies #[trigger] cuts[i].length <= lane_length(
            cuts,
        ) by {
            if i < cuts.len() - 1 {
                assert(cuts[i] == cuts.drop_last()[i]);
            }
        }
    }
}

pub proof fn lemma_lane_width_prefix(cuts: Seq<Cut>, j: int)
    requires
        0 <= j <= cuts.len(),
    ensures
        0 <= lane_width(cuts.take(j)) <= lane_width(cuts),
        0 <= lane_used_area(cuts.take(j)) <= lane_used_area(cuts),
    decreases cuts.len(),
{
    if j == cuts.len() {
        assert(cuts.take(j) =~= cuts);
        if cuts.len() > 0 {
            lemma_lane_width_prefix(cuts.drop_last(), j - 1);
            assert(cuts.drop_last().take(j - 1) =~= cuts.drop_last());
        }
    } else {
        lemma_lane_width_prefix(cuts.drop_last(), j);
        assert(cuts.drop_last().take(j) =~= cuts.take(j));
        assert(cuts.last().length * cuts.last().width >= 0) by (nonlinear_arith)
            requires
                cuts.last().length >= 0,
                cuts.last().width >= 0,
        ;
    }
}

/// The cuts of a lane never cover more than the lane requires.
pub proof fn lemma_lane_used_within_required(cuts: Seq<Cut>)
    ensures
        0 <= lane_used_area(cuts) <= lane_required_area(cuts),
    decreases cuts.len(),
{
    if cuts.len() > 0 {
        let rest = cuts.drop_last();
        let c = cuts.last();
        lemma_lane_used_within_required(rest);
        lemma_lane_width_prefix(rest, 0);
        lemma_lane_length_bounds(rest);
        let big_l = lane_length(cuts);
        let l0 = lane_length(rest);
        let w0 = lane_width(rest);
        let u0 = lane_used_area(rest);
        assert(u0 + c.length * c.width <= big_l * (w0 + c.width)) by (nonlinear_arith)
            requires
                0 <= u0 <= l0 * w0,
                0 <= l0 <= big_l,
                0 <= c.length <= big_l,
                0 <= w0,
                0 <= c.width,
        ;
    }
}

/// A lane's score lies between 0 and `SCORE_ONE`, and is above 0 when its
/// cuts cover any area.
pub proof fn lemma_lane_score_bounds(cuts: Seq<Cut>)
    ensures
        0 <= lane_score(cuts) <= SCORE_ONE,
        lane_used_area(cuts) > 0 ==> lane_score(cuts) >= 1,
{
    lemma_lane_used_within_required(cuts);
    let u = lane_used_area(cuts);
    let r = lane_required_area(cuts);
    if r > 0 {
        assert(0 <= u * 4294967296 <= 4294967296 * r) by (nonlinear_arith)
            requires
                0 <= u <= r,
        ;
        assert(u >= 1 ==> u * 4294967296 >= 1) by (nonlinear_arith);
        lemma_ceil_div_bounds(u * SCORE_ONE, r, SCORE_ONE as int);
    }
}

/// A lane that holds a cut, all of whose cuts have positive dimensions,
/// covers some area.
pub proof fn lemma_lane_used_positive(cuts: Seq<Cut>)
    requires
        cuts.len() > 0,
        forall|j: int| 0 <= j < cuts.len() ==> #[trigger] cuts[j].length > 0 && cuts[j].width > 0,
    ensures
        lane_used_area(cuts) > 0,
{
    lemma_lane_width_prefix(cuts.drop_last(), 0);
    assert(cuts[cuts.len() - 1].length > 0);
    let c = cuts.last();
    assert(c.length * c.width > 0) by (nonlinear_arith)
        requires
            c.length > 0,
            c.width > 0,
    ;
}

pub proof fn lemma_single_cut_lane(cut: Cut)
    ensures
        lane_length(seq![cut]) == cut.length,
        lane_width(seq![cut]) == cut.width,
        lane_used_area(seq![cut]) == cut.length * cut.width,
{
    let e = Seq::<Cut>::empty();
    assert(seq![cut].drop_last() =~= e);
    assert(lane_length(e) == 0);
    assert(lane_width(e) == 0);
    assert(lane_used_area(e) == 0);
}

/// A lane ("rip stack"): cuts placed side by side across the board, sharing one
/// stretch of the board's length.
#[derive(Clone, Debug)]
pub struct RipStack {
    pub cuts: Vec<Cut>,
}

impl RipStack {
    /// The lane's cuts, together, are no wider than a `u32` can hold.
    pub open spec fn wf(&self) -> bool {
        lane_width(self.cuts@) <= u32::MAX
    }

    pub fn new() -> (r: Self)
        ensures
            r.cuts@ == Seq::<Cut>::empty(),
    {
        RipStack { cuts: Vec::new() }
    }

    pub fn accept(&mut self, cut: Cut)
        ensures
            final(self).cuts@ == old(self).cuts@.push(cut),
    {
        self.cuts.push(cut);
    }

    pub fn is_empty(&self) -> (r: bool)
        ensures
            r == (self.cuts@.len() == 0),
    {
        self.cuts.len() == 0
    }

    pub fn length(&self) -> (r: u32)
        ensures
            r == lane_length(self.cuts@),
    {
        let mut max_length: u32 = 0;
        let mut i: usize = 0;
        while i < self.cuts.len()
            invariant
                0 <= i <= self.cuts@.len(),
                max_length == lane_length(self.cuts@.take(i as int)),
            decreases self.cuts@.len() - i,
        {
            assert(self.cuts@.take(i + 1).drop_last() =~= self.cuts@.take(i as int));
            if self.cuts[i].length > max_length {
                max_length = self.cuts[i].length;
            }
            i += 1;
        }
        assert(self.cuts@.take(i as int) =~= self.cuts@);
        max_length
    }

    pub fn width(&self) -> (r: u64)
        requires
            self.wf(),
        ensures
            r == lane_width(self.cuts@),
    {
        let mut total: u64 = 0;
        let mut i: usize = 0;
        while i < self.cuts.len()
            invariant
                0 <= i <= self.cuts@.len(),
                self.wf(),
                total == lane_width(self.cuts@.take(i as int)),
            decreases self.cuts@.len() - i,
        {
            assert(self.cuts@.take(i + 1).drop_last() =~= self.cuts@.take(i as int));
            proof {
                lemma_lane_width_prefix(self.cuts@, i + 1);
            }
            total = total + self.cuts[i].width as u64;
            i += 1;
        }
        assert(self.cuts@.take(i as int) =~= self.cuts@);
        total
    }

    pub fn used_area(&self) -> (r: u64)
        requires
            self.wf(),
        ensures
            r == lane_used_area(self.cuts@),
    {
        proof {
            lemma_lane_used_within_required(self.cuts@);
            lemma_lane_length_bounds(self.cuts@);
            lemma_lane_width_prefix(self.cuts@, 0);
            let l = lane_length(self.cuts@);
            let w = lane_width(self.cuts@);
            assert(l * w <= u32::MAX * u32::MAX) by (nonlinear_arith)
                requires
                    0 <= l <= u32::MAX,
                    0 <= w <= u32::MAX,
            ;
        }
        let mut area: u64 = 0;
        let mut i: usize = 0;
        while i < self.cuts.len()
            invariant
                0 <= i <= self.cuts@.len(),
                lane_used_area(self.cuts@) <= u32::MAX * u32::MAX,
                area == lane_used_area(self.cuts@.take(i as int)),
            decreases self.cuts@.len() - i,
        {
            assert(self.cuts@.take(i + 1).drop_last() =~= self.cuts@.take(i as int));
            proof {
                lemma_lane_width_prefix(self.cuts@, i + 1);
            }
            area = area + self.cuts[i].area();
            i += 1;
        }
        assert(self.cuts@.take(i as int) =~= self.cuts@);
        area
    }

    /// Area the lane takes from its board: its length times its width.
    pub fn area(&self) -> (r: u64)
        requires
            self.wf(),
        ensures
            r == lane_required_area(self.cuts@),
    {
        let l = self.length();
        let w = self.width();
        proof {
            lemma_lane_length_bounds(self.cuts@);
            assert(l * w <= u32::MAX * u32::MAX) by (nonlinear_arith)
                requires
                    0 <= l <= u32::MAX,
                    0 <= w <= u32::MAX,
            ;
        }
        l as u64 * w
    }

    pub fn score(&self) -> (r: u64)
        requires
            self.wf(),
        ensures
            r == lane_score(self.cuts@),
            r <= SCORE_ONE,
    {
        proof {
            lemma_lane_score_bounds(self.cuts@);
            lemma_lane_used_within_required(self.cuts@);
        }
        let required = self.area();
        if required > 0 {
            let used = self.used_area();
            assert(used * SCORE_ONE <= u64::MAX * SCORE_ONE) by (nonlinear_arith)
                requires
                    used <= u64::MAX,
            ;
            ((used as u128 * SCORE_ONE as u128 + required as u128 - 1) / required as u128) as u64
        } else {
            0
        }
    }
}

} // verus!
