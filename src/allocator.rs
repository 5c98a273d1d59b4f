//! Greedy placement of a whole cut list onto boards vended from the catalog.
use vstd::prelude::*;
use vstd::multiset::Multiset;

use crate::model;
use crate::board::{
    Board,
    BoardView,
    allocated_length,
    boards_view,
    lemma_accept_implies_can_accept,
    lemma_accept_wf,
    lemma_no_best_lane,
};
use crate::lane::{Cut, lane_width, lemma_single_cut_lane};

verus! {

/// Template `t` is strictly longer and strictly wider than `cut`.
pub open spec fn template_fits(t: model::Board, cut: Cut) -> bool {
    t.width > cut.width && t.length > cut.length
}

/// Template `i` fits `cut` and is the narrowest that does; among equally
/// narrow ones it comes first in the catalog.
pub open spec fn is_vend_choice(templates: Seq<model::Board>, cut: Cut, i: int) -> bool {
    &&& 0 <= i < templates.len()
    &&& template_fits(templates[i], cut)
    &&& forall|j: int|
        0 <= j < templates.len() && #[trigger] template_fits(templates[j], cut) ==> {
            &&& templates[i].width <= templates[j].width
            &&& j < i ==> templates[i].width < templates[j].width
        }
}

/// The template that a new board for `cut` is made from, if any.
pub open spec fn vend_choice(templates: Seq<model::Board>, cut: Cut) -> Option<int> {
    if exists|i: int| is_vend_choice(templates, cut, i) {
        Some(choose|i: int| is_vend_choice(templates, cut, i))
    } else {
        None
    }
}

/// A fresh board of template `t`, holding `cut` in a lane of its own.
pub open spec fn vended_board(t: model::Board, cut: Cut) -> BoardView {
    BoardView { length: t.length, width: t.width, id: t.id, lanes: seq![seq![cut]] }
}

/// Board `i` is the first one that takes `cut`.
pub open spec fn is_first_accepting(boards: Seq<BoardView>, cut: Cut, i: int) -> bool {
    &&& 0 <= i < boards.len()
    &&& boards[i].accept(cut) is Some
    &&& forall|j: int| 0 <= j < i ==> #[trigger] boards[j].accept(cut) is None
}

pub open spec fn first_accepting(boards: Seq<BoardView>, cut: Cut) -> Option<int> {
    if exists|i: int| is_first_accepting(boards, cut, i) {
        Some(choose|i: int| is_first_accepting(boards, cut, i))
    } else {
        None
    }
}

/// The boards after placing one cut: the first board that takes it does;
/// failing that a board is vended for it; `None` when no template fits it.
pub open spec fn place(templates: Seq<model::Board>, boards: Seq<BoardView>, cut: Cut) -> Option<
    Seq<BoardView>,
> {
    match first_accepting(boards, cut) {
        Some(i) => Some(boards.update(i, boards[i].accept(cut)->0)),
        None => match vend_choice(templates, cut) {
            Some(t) => Some(boards.push(vended_board(templates[t], cut))),
            None => None,
        },
    }
}

/// Places the cuts one at a time, the last cut of the list first.
pub open spec fn place_all(
    templates: Seq<model::Board>,
    boards: Seq<BoardView>,
    cuts: Seq<Cut>,
) -> Option<Seq<BoardView>>
    decreases cuts.len(),
{
    if cuts.len() == 0 {
        Some(boards)
    } else {
        match place(templates, boards, cuts.last()) {
            Some(next) => place_all(templates, next, cuts.drop_last()),
            None => None,
        }
    }
}

/// The boards that one ordering of the cut list is placed on, starting with none.
pub open spec fn allocation(templates: Seq<model::Board>, cuts: Seq<Cut>) -> Option<
    Seq<BoardView>,
> {
    place_all(templates, Seq::empty(), cuts)
}

pub proof fn lemma_vend_choice_unique(templates: Seq<model::Board>, cut: Cut, i: int)
    requires
        is_vend_choice(templates, cut, i),
    ensures
        vend_choice(templates, cut) == Some(i),
{
    let k = choose|k: int| is_vend_choice(templates, cut, k);
    assert(is_vend_choice(templates, cut, k));
    assert(template_fits(templates[i], cut) && template_fits(templates[k], cut));
}

pub proof fn lemma_first_accepting_unique(boards: Seq<BoardView>, cut: Cut, i: int)
    requires
        is_first_accepting(boards, cut, i),
    ensures
        first_accepting(boards, cut) == Some(i),
{
    let k = choose|k: int| is_first_accepting(boards, cut, k);
    assert(is_first_accepting(boards, cut, k));
    if k < i {
        assert(boards[k].accept(cut) is None);
    } else if i < k {
        assert(boards[i].accept(cut) is None);
    }
}

pub proof fn lemma_none_accepting(boards: Seq<BoardView>, cut: Cut)
    requires
        forall|j: int| 0 <= j < boards.len() ==> #[trigger] boards[j].accept(cut) is None,
    ensures
        first_accepting(boards, cut) is None,
{
    if exists|i: int| is_first_accepting(boards, cut, i) {
        let k = choose|i: int| is_first_accepting(boards, cut, i);
        assert(boards[k].accept(cut) is None);
    }
}

/// Every board is well formed.
pub open spec fn all_wf(boards: Seq<BoardView>) -> bool {
    forall|i: int| 0 <= i < boards.len() ==> (#[trigger] boards[i]).wf()
}

pub open spec fn all_boards_wf(boards: Seq<Board>) -> bool {
    forall|i: int| 0 <= i < boards.len() ==> (#[trigger] boards[i])@.wf()
}

/// Index of the first board that passes the quick acceptance test.
fn best_board_for_cut(boards: &Vec<Board>, cut: &Cut) -> (r: Option<usize>)
    requires
        all_boards_wf(boards@),
    ensures
        match r {
            Some(i) => i < boards@.len() && boards@[i as int]@.can_accept(*cut) && forall|j: int|
                0 <= j < i ==> !(#[trigger] boards@[j])@.can_accept(*cut),
            None => forall|j: int| 0 <= j < boards@.len() ==> !(#[trigger] boards@[j])@.can_accept(*cut),
        },
{
    let mut i: usize = 0;
    while i < boards.len()
        invariant
            0 <= i <= boards@.len(),
            all_boards_wf(boards@),
            forall|j: int| 0 <= j < i ==> !(#[trigger] boards@[j])@.can_accept(*cut),
        decreases boards@.len() - i,
    {
        if boards[i].can_accept(cut) {
            return Some(i);
        }
        i += 1;
    }
    None
}

/// A new empty board for `cut`, made from `vend_choice`.
fn vend_new_board_for_cut(templates: &[model::Board], cut: &Cut) -> (r: Option<Board>)
    ensures
        match vend_choice(templates@, *cut) {
            Some(t) => r matches Some(b) && b@ == (BoardView {
                length: templates@[t].length,
                width: templates@[t].width,
                id: templates@[t].id,
                lanes: Seq::empty(),
            }),
            None => r is None,
        },
{
    let ghost ts = templates@;
    let mut best: Option<usize> = None;
    let mut i: usize = 0;
    while i < templates.len()
        invariant
            0 <= i <= ts.len(),
            ts == templates@,
            match best {
                Some(k) => {
                    &&& k < i
                    &&& template_fits(ts[k as int], *cut)
                    &&& forall|j: int|
                        0 <= j < i && #[trigger] template_fits(ts[j], *cut) ==> {
                            &&& ts[k as int].width <= ts[j].width
                            &&& j < k ==> ts[k as int].width < ts[j].width
                        }
                },
                None => forall|j: int| 0 <= j < i ==> !#[trigger] template_fits(ts[j], *cut),
            },
        decreases ts.len() - i,
    {
        let t = &templates[i];
        if t.width > cut.width && t.length > cut.length {
            let better = match best {
                Some(k) => t.width < templates[k].width,
                None => true,
            };
            if better {
                best = Some(i);
            }
        }
        i += 1;
    }
    match best {
        Some(k) => {
            proof {
                lemma_vend_choice_unique(ts, *cut, k as int);
            }
            Some(Board::from_template(&templates[k]))
        },
        None => {
            proof {
                if exists|i: int| is_vend_choice(ts, *cut, i) {
                    let k = choose|i: int| is_vend_choice(ts, *cut, i);
                    assert(template_fits(ts[k], *cut));
                }
            }
            None
        },
    }
}

/// Lets board `i` take `cut`; returns whether it did.
fn accept_on(boards: &mut Vec<Board>, i: usize, cut: &Cut) -> (r: bool)
    requires
        i < old(boards)@.len(),
        all_boards_wf(old(boards)@),
    ensures
        final(boards)@.len() == old(boards)@.len(),
        all_boards_wf(final(boards)@),
        match old(boards)@[i as int]@.accept(*cut) {
            Some(nb) => r && boards_view(final(boards)@) == boards_view(old(boards)@).update(
                i as int,
                nb,
            ),
            None => !r && boards_view(final(boards)@) == boards_view(old(boards)@),
        },
{
    let ghost before = boards@;
    let mut board = boards.remove(i);
    assert(board == before[i as int]);
    let r = board.accept(cut);
    boards.insert(i, board);
    assert(boards@ =~= before.update(i as int, board));
    assert(all_boards_wf(boards@)) by {
        assert forall|j: int| 0 <= j < boards@.len() implies (#[trigger] boards@[j])@.wf() by {
            if j != i {
                assert(boards@[j] == before[j]);
            }
        }
    }
    assert(boards_view(boards@) =~= boards_view(before).update(i as int, board@));
    r
}

/// Places the cuts of `cutlist`, last first, as `allocation` says: `None`
/// when some cut fits neither a board nor a template.
pub fn generate(templates: &[model::Board], cutlist: &[Cut]) -> (r: Option<Vec<Board>>)
    ensures
        match allocation(templates@, cutlist@) {
            Some(bs) => r matches Some(v) && boards_view(v@) == bs && all_boards_wf(v@),
            None => r is None,
        },
{
    let ghost ts = templates@;
    let ghost cuts = cutlist@;
    let mut boards: Vec<Board> = Vec::new();
    let mut k: usize = cutlist.len();
    assert(boards_view(boards@) =~= Seq::<BoardView>::empty());
    assert(cuts.take(k as int) =~= cuts);
    while k > 0
        invariant
            k <= cuts.len(),
            ts == templates@,
            cuts == cutlist@,
            all_boards_wf(boards@),
            place_all(ts, boards_view(boards@), cuts.take(k as int)) == allocation(ts, cuts),
        decreases k,
    {
        k -= 1;
        let cut = &cutlist[k];
        let ghost before = boards@;
        let ghost views = boards_view(before);
        assert(cuts.take(k + 1).drop_last() =~= cuts.take(k as int));
        assert(cuts.take(k + 1).last() == *cut);
        let mut placed = false;
        if let Some(i) = best_board_for_cut(&boards, cut) {
            assert(views[i as int] == before[i as int]@);
            placed = accept_on(&mut boards, i, cut);
            proof {
                if placed {
                    assert forall|j: int| 0 <= j < i implies #[trigger] views[j].accept(*cut) is None by {
                        assert(views[j] == before[j]@);
                        if views[j].accept(*cut) is Some {
                            lemma_accept_implies_can_accept(views[j], *cut);
                        }
                    }
                    assert(is_first_accepting(views, *cut, i as int));
                    lemma_first_accepting_unique(views, *cut, i as int);
                }
            }
        }
        let mut j: usize = 0;
        while !placed && j < boards.len()
            invariant
                j <= boards@.len(),
                all_boards_wf(boards@),
                views.len() == before.len(),
                boards@.len() == before.len(),
                placed ==> place(ts, views, *cut) == Some(boards_view(boards@)),
                !placed ==> boards_view(boards@) == views,
                !placed ==> forall|m: int| 0 <= m < j ==> #[trigger] views[m].accept(*cut) is None,
            decreases boards@.len() - j,
        {
            assert(views[j as int] == boards@[j as int]@);
            placed = accept_on(&mut boards, j, cut);
            proof {
                if placed {
                    assert(is_first_accepting(views, *cut, j as int));
                    lemma_first_accepting_unique(views, *cut, j as int);
                }
            }
            j += 1;
        }
        if !placed {
            proof {
                lemma_none_accepting(views, *cut);
            }
            match vend_new_board_for_cut(templates, cut) {
                Some(board) => {
                    let mut board = board;
                    proof {
                        lemma_no_best_lane(board@, *cut);
                        assert(allocated_length(board@.lanes) == 0);
                        assert(board@.lanes.push(seq![*cut]) =~= seq![seq![*cut]]);
                    }
                    let ok = board.accept(cut);
                    assert(ok);
                    boards.push(board);
                    assert(boards_view(boards@) =~= views.push(board@));
                },
                None => {
                    return None;
                },
            }
        }
    }
    Some(boards)
}


/// Every cut on the lanes, counted with multiplicity.
pub open spec fn lanes_cuts(lanes: Seq<Seq<Cut>>) -> Multiset<Cut>
    decreases lanes.len(),
{
    if lanes.len() == 0 {
        Multiset::empty()
    } else {
        lanes_cuts(lanes.drop_last()).add(lanes.last().to_multiset())
    }
}

/// Every cut on the boards, counted with multiplicity.
pub open spec fn boards_cuts(boards: Seq<BoardView>) -> Multiset<Cut>
    decreases boards.len(),
{
    if boards.len() == 0 {
        Multiset::empty()
    } else {
        boards_cuts(boards.drop_last()).add(lanes_cuts(boards.last().lanes))
    }
}

/// The board's size and name are those of a catalog template.
pub open spec fn from_catalog(templates: Seq<model::Board>, b: BoardView) -> bool {
    exists|t: int|
        0 <= t < templates.len() && #[trigger] templates[t].length == b.length
            && templates[t].width == b.width && templates[t].id == b.id
}

proof fn lemma_vended_board_wf(t: model::Board, cut: Cut)
    requires
        template_fits(t, cut),
    ensures
        vended_board(t, cut).wf(),
        lanes_cuts(vended_board(t, cut).lanes) == Multiset::empty().insert(cut),
{
    let lanes = seq![seq![cut]];
    lemma_single_cut_lane(cut);
    assert(lanes.drop_last() =~= Seq::<Seq<Cut>>::empty());
    assert(allocated_length(Seq::<Seq<Cut>>::empty()) == 0);
    assert(lanes_cuts(Seq::<Seq<Cut>>::empty()) == Multiset::<Cut>::empty());
    assert(seq![cut] == Seq::<Cut>::empty().push(cut));
    assert(Seq::<Cut>::empty().to_multiset() =~= Multiset::<Cut>::empty()) by {
        broadcast use vstd::seq_lib::group_to_multiset_ensures;
    }
    assert(lanes_cuts(lanes) =~= Multiset::empty().insert(cut)) by {
        broadcast use vstd::seq_lib::group_to_multiset_ensures;
        broadcast use vstd::multiset::group_multiset_axioms;
    }
    assert forall|i: int| 0 <= i < lanes.len() implies lane_width(#[trigger] lanes[i]) <= t.width by {
        assert(lanes[i] == seq![cut]);
    }
}

proof fn lemma_lanes_cuts_append(lanes: Seq<Seq<Cut>>, i: int, cut: Cut)
    requires
        0 <= i < lanes.len(),
    ensures
        lanes_cuts(lanes.update(i, lanes[i].push(cut))) == lanes_cuts(lanes).insert(cut),
    decreases lanes.len(),
{
    broadcast use vstd::seq_lib::group_to_multiset_ensures;
    broadcast use vstd::multiset::group_multiset_axioms;

    let updated = lanes.update(i, lanes[i].push(cut));
    if i == lanes.len() - 1 {
        assert(updated.drop_last() =~= lanes.drop_last());
    } else {
        lemma_lanes_cuts_append(lanes.drop_last(), i, cut);
        assert(updated.drop_last() =~= lanes.drop_last().update(i, lanes[i].push(cut)));
    }
    assert(lanes_cuts(updated) =~= lanes_cuts(lanes).insert(cut));
}

proof fn lemma_boards_cuts_update(boards: Seq<BoardView>, i: int, b: BoardView, cut: Cut)
    requires
        0 <= i < boards.len(),
        lanes_cuts(b.lanes) == lanes_cuts(boards[i].lanes).insert(cut),
    ensures
        boards_cuts(boards.update(i, b)) == boards_cuts(boards).insert(cut),
    decreases boards.len(),
{
    broadcast use vstd::multiset::group_multiset_axioms;

    let updated = boards.update(i, b);
    if i == boards.len() - 1 {
        assert(updated.drop_last() =~= boards.drop_last());
    } else {
        lemma_boards_cuts_update(boards.drop_last(), i, b, cut);
        assert(updated.drop_last() =~= boards.drop_last().update(i, b));
    }
    assert(boards_cuts(updated) =~= boards_cuts(boards).insert(cut));
}

/// Taking a cut adds exactly that cut to a board and keeps its size and name.
proof fn lemma_accept_cuts(b: BoardView, cut: Cut)
    requires
        b.accept(cut) is Some,
    ensures
        lanes_cuts(b.accept(cut)->0.lanes) == lanes_cuts(b.lanes).insert(cut),
        b.accept(cut)->0.length == b.length,
        b.accept(cut)->0.width == b.width,
        b.accept(cut)->0.id == b.id,
{
    broadcast use vstd::seq_lib::group_to_multiset_ensures;
    broadcast use vstd::multiset::group_multiset_axioms;

    if let Some(i) = b.best_lane(cut) {
        let k = choose|k: int| b.is_best_lane(cut, k);
        assert(b.is_best_lane(cut, k));
        lemma_lanes_cuts_append(b.lanes, i, cut);
    } else {
        let lanes = b.lanes.push(seq![cut]);
        assert(lanes.drop_last() =~= b.lanes);
        assert(seq![cut] == Seq::<Cut>::empty().push(cut));
        assert(Seq::<Cut>::empty().to_multiset() =~= Multiset::<Cut>::empty());
        assert(lanes_cuts(lanes) =~= lanes_cuts(b.lanes).insert(cut));
    }
}

/// Placing a cut keeps every board well formed and from the catalog, and adds
/// exactly that cut.
proof fn lemma_place(templates: Seq<model::Board>, boards: Seq<BoardView>, cut: Cut)
    requires
        all_wf(boards),
        forall|i: int| 0 <= i < boards.len() ==> from_catalog(templates, #[trigger] boards[i]),
        place(templates, boards, cut) is Some,
    ensures
        all_wf(place(templates, boards, cut)->0),
        forall|i: int|
            0 <= i < place(templates, boards, cut)->0.len() ==> from_catalog(
                templates,
                #[trigger] place(templates, boards, cut)->0[i],
            ),
        boards_cuts(place(templates, boards, cut)->0) == boards_cuts(boards).insert(cut),
{
    broadcast use vstd::multiset::group_multiset_axioms;

    let next = place(templates, boards, cut)->0;
    match first_accepting(boards, cut) {
        Some(i) => {
            let k = choose|k: int| is_first_accepting(boards, cut, k);
            assert(is_first_accepting(boards, cut, k));
            let nb = boards[i].accept(cut)->0;
            lemma_accept_wf(boards[i], cut);
            lemma_accept_cuts(boards[i], cut);
            lemma_boards_cuts_update(boards, i, nb, cut);
            assert forall|j: int| 0 <= j < next.len() implies (#[trigger] next[j]).wf()
                && from_catalog(templates, next[j]) by {
                if j != i {
                    assert(next[j] == boards[j]);
                } else {
                    assert(from_catalog(templates, boards[i]));
                    let t = choose|t: int|
                        0 <= t < templates.len() && #[trigger] templates[t].length
                            == boards[i].length && templates[t].width == boards[i].width
                            && templates[t].id == boards[i].id;
                    assert(templates[t].length == nb.length);
                }
            }
        },
        None => {
            let t = vend_choice(templates, cut)->0;
            let k = choose|k: int| is_vend_choice(templates, cut, k);
            assert(is_vend_choice(templates, cut, k));
            let vb = vended_board(templates[t], cut);
            lemma_vended_board_wf(templates[t], cut);
            assert(next.drop_last() =~= boards);
            assert(boards_cuts(next) =~= boards_cuts(boards).insert(cut));
            assert forall|j: int| 0 <= j < next.len() implies (#[trigger] next[j]).wf()
                && from_catalog(templates, next[j]) by {
                if j < boards.len() {
                    assert(next[j] == boards[j]);
                } else {
                    assert(next[j] == vb);
                    assert(templates[t].length == vb.length);
                }
            }
        },
    }
}

proof fn lemma_place_all(templates: Seq<model::Board>, boards: Seq<BoardView>, cuts: Seq<Cut>)
    requires
        all_wf(boards),
        forall|i: int| 0 <= i < boards.len() ==> from_catalog(templates, #[trigger] boards[i]),
        place_all(templates, boards, cuts) is Some,
    ensures
        all_wf(place_all(templates, boards, cuts)->0),
        forall|i: int|
            0 <= i < place_all(templates, boards, cuts)->0.len() ==> from_catalog(
                templates,
                #[trigger] place_all(templates, boards, cuts)->0[i],
            ),
        boards_cuts(place_all(templates, boards, cuts)->0) == boards_cuts(boards).add(
            cuts.to_multiset(),
        ),
    decreases cuts.len(),
{
    broadcast use vstd::seq_lib::group_to_multiset_ensures;
    broadcast use vstd::multiset::group_multiset_axioms;

    if cuts.len() == 0 {
        assert(cuts.to_multiset() =~= Multiset::<Cut>::empty());
        assert(boards_cuts(boards).add(cuts.to_multiset()) =~= boards_cuts(boards));
    } else {
        let next = place(templates, boards, cuts.last())->0;
        lemma_place(templates, boards, cuts.last());
        lemma_place_all(templates, next, cuts.drop_last());
        assert(cuts.drop_last().push(cuts.last()) =~= cuts);
        assert(boards_cuts(place_all(templates, boards, cuts)->0) =~= boards_cuts(boards).add(
            cuts.to_multiset(),
        ));
    }
}

/// Width and length containment: on every board of an allocation, no lane is
/// wider than the board and the lanes together are no longer than the board.
pub proof fn lemma_allocation_contained(templates: Seq<model::Board>, cuts: Seq<Cut>)
    requires
        allocation(templates, cuts) is Some,
    ensures
        forall|i: int|
            0 <= i < allocation(templates, cuts)->0.len() ==> {
                let b = #[trigger] allocation(templates, cuts)->0[i];
                &&& forall|k: int| 0 <= k < b.lanes.len() ==> lane_width(#[trigger] b.lanes[k]) <= b.width
                &&& allocated_length(b.lanes) <= b.length
            },
{
    lemma_place_all(templates, Seq::empty(), cuts);
    let bs = allocation(templates, cuts)->0;
    assert forall|i: int| 0 <= i < bs.len() implies #[trigger] bs[i].wf() by {}
}

/// Cut conservation: the cuts on the boards of an allocation are exactly the
/// cuts that were placed, each as many times as it was listed.
pub proof fn lemma_allocation_conserves_cuts(templates: Seq<model::Board>, cuts: Seq<Cut>)
    requires
        allocation(templates, cuts) is Some,
    ensures
        boards_cuts(allocation(templates, cuts)->0) == cuts.to_multiset(),
{
    broadcast use vstd::multiset::group_multiset_axioms;

    lemma_place_all(templates, Seq::empty(), cuts);
    assert(boards_cuts(Seq::<BoardView>::empty()) == Multiset::<Cut>::empty());
    assert(Multiset::<Cut>::empty().add(cuts.to_multiset()) =~= cuts.to_multiset());
}

/// Every board of an allocation has the size and name of a catalog template.
pub proof fn lemma_allocation_from_catalog(templates: Seq<model::Board>, cuts: Seq<Cut>)
    requires
        allocation(templates, cuts) is Some,
    ensures
        forall|i: int|
            0 <= i < allocation(templates, cuts)->0.len() ==> from_catalog(
                templates,
                #[trigger] allocation(templates, cuts)->0[i],
            ),
{
    lemma_place_all(templates, Seq::empty(), cuts);
}


/// Some template fits `cut`.
pub open spec fn has_fitting_template(templates: Seq<model::Board>, cut: Cut) -> bool {
    exists|t: int| 0 <= t < templates.len() && #[trigger] template_fits(templates[t], cut)
}

proof fn lemma_vend_choice_exists(templates: Seq<model::Board>, cut: Cut)
    requires
        has_fitting_template(templates, cut),
    ensures
        vend_choice(templates, cut) is Some,
    decreases templates.len(),
{
    let rest = templates.drop_last();
    let last = templates.len() - 1;
    let witness: int;
    if has_fitting_template(rest, cut) {
        lemma_vend_choice_exists(rest, cut);
        let k = choose|k: int| is_vend_choice(rest, cut, k);
        assert(is_vend_choice(rest, cut, k));
        if template_fits(templates[last], cut) && templates[last].width < rest[k].width {
            witness = last;
        } else {
            witness = k;
        }
        assert forall|j: int|
            0 <= j < templates.len() && #[trigger] template_fits(templates[j], cut) implies {
            &&& templates[witness].width <= templates[j].width
            &&& j < witness ==> templates[witness].width < templates[j].width
        } by {
            if j < last {
                assert(templates[j] == rest[j]);
                assert(template_fits(rest[j], cut));
            }
        }
    } else {
        witness = last;
        assert(template_fits(templates[last], cut)) by {
            let t = choose|t: int| 0 <= t < templates.len() && #[trigger] template_fits(templates[t], cut);
            if t < last {
                assert(template_fits(rest[t], cut));
            }
        }
        assert forall|j: int|
            0 <= j < templates.len() && #[trigger] template_fits(templates[j], cut) implies {
            &&& templates[witness].width <= templates[j].width
            &&& j < witness ==> templates[witness].width < templates[j].width
        } by {
            if j < last {
                assert(template_fits(rest[j], cut));
            }
        }
    }
    assert(is_vend_choice(templates, cut, witness));
}

proof fn lemma_place_all_succeeds(
    templates: Seq<model::Board>,
    boards: Seq<BoardView>,
    cuts: Seq<Cut>,
)
    requires
        forall|i: int| 0 <= i < cuts.len() ==> has_fitting_template(templates, #[trigger] cuts[i]),
    ensures
        place_all(templates, boards, cuts) is Some,
    decreases cuts.len(),
{
    if cuts.len() > 0 {
        assert(has_fitting_template(templates, cuts[cuts.len() - 1]));
        lemma_vend_choice_exists(templates, cuts.last());
        let next = place(templates, boards, cuts.last())->0;
        assert forall|i: int| 0 <= i < cuts.drop_last().len() implies has_fitting_template(
            templates,
            #[trigger] cuts.drop_last()[i],
        ) by {
            assert(cuts.drop_last()[i] == cuts[i]);
        }
        lemma_place_all_succeeds(templates, next, cuts.drop_last());
    }
}

/// An allocation fails only on a cut that no template fits: when every cut
/// has a template strictly longer and wider than itself, it succeeds.
pub proof fn lemma_allocation_succeeds(templates: Seq<model::Board>, cuts: Seq<Cut>)
    requires
        forall|i: int| 0 <= i < cuts.len() ==> has_fitting_template(templates, #[trigger] cuts[i]),
    ensures
        allocation(templates, cuts) is Some,
{
    lemma_place_all_succeeds(templates, Seq::empty(), cuts);
}

} // verus!
