//! The search for the best arrangements of a cut list, and their scores.
use vstd::prelude::*;

use crate::allocator::{
    all_boards_wf,
    allocation,
    boards_cuts,
    from_catalog,
    generate,
    has_fitting_template,
    lemma_allocation_conserves_cuts,
    lemma_allocation_from_catalog,
    lemma_allocation_succeeds,
};
pub use crate::board::{Board, BoardView, board_score, boards_view};
pub use crate::lane::{Cut, RipStack, SCORE_ONE, cut_from_spec};
use crate::board::{lanes_filled, lanes_score, lemma_lanes_score_positive, lemma_score_product_bounds};
use crate::lane::ceil_div;
use crate::model;
use crate::random::{seeded_generator, shuffle};
use crate::ranking::{lemma_rank_all, rank, ranked, rank_all};

verus! {

/// A solution's score: the product of the scores of its boards that have
/// lanes, from the first board to the last, each product rounded up.
pub open spec fn solution_score(boards: Seq<BoardView>) -> int
    decreases boards.len(),
{
    if boards.len() == 0 {
        SCORE_ONE as int
    } else {
        match board_score(boards.last()) {
            Some(s) => ceil_div(solution_score(boards.drop_last()) * s, SCORE_ONE as int),
            None => solution_score(boards.drop_last()),
        }
    }
}

/// Score of a solution: the product of the scores of its boards that have lanes.
pub fn score(boards: &[Board]) -> (r: u64)
    requires
        forall|i: int| 0 <= i < boards@.len() ==> (#[trigger] boards@[i])@.wf(),
    ensures
        r == solution_score(boards_view(boards@)),
        r <= SCORE_ONE,
        (forall|i: int| 0 <= i < boards@.len() ==> lanes_filled((#[trigger] boards@[i])@.lanes))
            ==> r >= 1,
{
    let ghost views = boards_view(boards@);
    let mut acc: u64 = SCORE_ONE;
    let mut i: usize = 0;
    while i < boards.len()
        invariant
            0 <= i <= boards@.len(),
            views == boards_view(boards@),
            forall|k: int| 0 <= k < boards@.len() ==> (#[trigger] boards@[k])@.wf(),
            acc == solution_score(views.take(i as int)),
            acc <= SCORE_ONE,
        decreases boards@.len() - i,
    {
        assert(views.take(i + 1).drop_last() =~= views.take(i as int));
        assert(views[i as int] == boards@[i as int]@);
        assert(views.take(i + 1).last() == views[i as int]);
        match boards[i].score() {
            Some(s) => {
                proof {
                    lemma_score_product_bounds(acc as int, s as int);
                }
                acc = ((acc as u128 * s as u128 + SCORE_ONE as u128 - 1) / SCORE_ONE as u128) as u64;
            },
            None => {},
        }
        i += 1;
    }
    assert(views.take(i as int) =~= views);
    proof {
        if forall|k: int| 0 <= k < boards@.len() ==> lanes_filled((#[trigger] boards@[k])@.lanes) {
            assert forall|k: int| 0 <= k < views.len() implies lanes_filled(
                (#[trigger] views[k]).lanes,
            ) by {
                assert(views[k] == boards@[k]@);
            }
            lemma_solution_score_positive(views);
        }
    }
    acc
}

/// When every lane of every board holds cuts of positive dimensions, the
/// solution scores above 0.
pub proof fn lemma_solution_score_positive(boards: Seq<BoardView>)
    requires
        forall|k: int| 0 <= k < boards.len() ==> lanes_filled((#[trigger] boards[k]).lanes),
    ensures
        1 <= solution_score(boards) <= SCORE_ONE,
    decreases boards.len(),
{
    if boards.len() > 0 {
        let rest = boards.drop_last();
        assert forall|k: int| 0 <= k < rest.len() implies lanes_filled((#[trigger] rest[k]).lanes) by {
            assert(rest[k] == boards[k]);
        }
        lemma_solution_score_positive(rest);
        assert(lanes_filled(boards[boards.len() - 1].lanes));
        if boards.last().lanes.len() > 0 {
            lemma_lanes_score_positive(boards.last().lanes);
            lemma_score_product_bounds(solution_score(rest), lanes_score(boards.last().lanes));
        }
    }
}

/// Every cut the problem asks for: each specification repeated `count`
/// times, in list order, grown by the spacing.
pub open spec fn expanded_cuts(cutlist: Seq<model::Cut>, spacing: u32) -> Seq<Cut>
    decreases cutlist.len(),
{
    if cutlist.len() == 0 {
        Seq::empty()
    } else {
        expanded_cuts(cutlist.drop_last(), spacing) + Seq::new(
            cutlist.last().count as nat,
            |_i: int| cut_from_spec(cutlist.last(), spacing),
        )
    }
}

/// The cuts that `input` asks for.
pub open spec fn required_cuts(input: model::Input) -> Seq<Cut> {
    expanded_cuts(input.cutlist@, input.spacing)
}

/// Some template is at least as wide as `cut`.
pub open spec fn wide_enough(templates: Seq<model::Board>, cut: Cut) -> bool {
    exists|t: int| 0 <= t < templates.len() && #[trigger] templates[t].width >= cut.width
}

/// Every cut has a template at least as wide as itself.
pub open spec fn solution_possible(templates: Seq<model::Board>, cuts: Seq<Cut>) -> bool {
    forall|i: int| 0 <= i < cuts.len() ==> wide_enough(templates, #[trigger] cuts[i])
}

/// `solution` is what one ordering of the required cuts gives: its boards are
/// well formed and from the catalog, and it holds exactly the required cuts.
pub open spec fn is_solution_of(input: model::Input, solution: Vec<Board>) -> bool {
    let boards = boards_view(solution@);
    &&& all_boards_wf(solution@)
    &&& boards_cuts(boards) == required_cuts(input).to_multiset()
    &&& forall|i: int| 0 <= i < boards.len() ==> from_catalog(input.boards@, #[trigger] boards[i])
    &&& exists|order: Seq<Cut>|
        order.to_multiset() == required_cuts(input).to_multiset() && #[trigger] allocation(
            input.boards@,
            order,
        ) == Some(boards)
}

/// `solutions` are the best `result_count` of `successes`, which came from at
/// most `attempts` orderings of the required cuts.
pub open spec fn ranked_outcome(
    input: model::Input,
    attempts: usize,
    result_count: usize,
    successes: Seq<Vec<Board>>,
    solutions: Seq<Vec<Board>>,
) -> bool {
    &&& 1 <= successes.len() <= attempts
    &&& all_cuts_fit(input) ==> successes.len() == attempts
    &&& forall|i: int| 0 <= i < successes.len() ==> is_solution_of(input, #[trigger] successes[i])
    &&& solutions == ranked(successes, result_count as int)
}

/// Every required cut has a template strictly longer and wider than itself.
pub open spec fn all_cuts_fit(input: model::Input) -> bool {
    forall|i: int|
        0 <= i < required_cuts(input).len() ==> has_fitting_template(
            input.boards@,
            #[trigger] required_cuts(input)[i],
        )
}

/// Some specification asks for at least one cut that, grown by the spacing,
/// is wider than every template.
pub open spec fn some_cut_too_wide(input: model::Input) -> bool {
    exists|i: int|
        0 <= i < input.cutlist@.len() && #[trigger] input.cutlist@[i].count >= 1 && forall|t: int|
            0 <= t < input.boards@.len() ==> input.boards@[t].width < input.cutlist@[i].width
                + input.spacing
}

/// What a search over `attempts` reorderings returns: nothing when some cut
/// is wider than every template or no attempt is made; something when every
/// cut has a strictly larger template; and whatever it returns is the
/// ranking of the successful attempts.
pub open spec fn search_outcome(
    input: model::Input,
    attempts: usize,
    result_count: usize,
    r: Option<Vec<Vec<Board>>>,
) -> bool {
    &&& !solution_possible(input.boards@, required_cuts(input)) ==> r is None
    &&& some_cut_too_wide(input) ==> r is None
    &&& attempts == 0 ==> r is None
    &&& attempts > 0 && all_cuts_fit(input) ==> r is Some
    &&& r matches Some(solutions) ==> exists|successes: Seq<Vec<Board>>|
        #[trigger] ranked_outcome(input, attempts, result_count, successes, solutions@)
    &&& r matches Some(solutions) ==> forall|i: int|
        0 <= i < solutions@.len() ==> is_solution_of(input, #[trigger] solutions@[i])
}

/// A cut that a specification with a positive count asks for is required.
pub proof fn lemma_expanded_cuts_contain(cutlist: Seq<model::Cut>, spacing: u32, i: int)
    requires
        0 <= i < cutlist.len(),
        cutlist[i].count >= 1,
    ensures
        expanded_cuts(cutlist, spacing).contains(cut_from_spec(cutlist[i], spacing)),
    decreases cutlist.len(),
{
    let prefix = expanded_cuts(cutlist.drop_last(), spacing);
    let last = cutlist.last();
    let tail = Seq::new(last.count as nat, |_j: int| cut_from_spec(last, spacing));
    let all = expanded_cuts(cutlist, spacing);
    assert(all == prefix + tail);
    if i == cutlist.len() - 1 {
        assert(all[prefix.len() as int] == tail[0]);
    } else {
        assert(cutlist.drop_last()[i] == cutlist[i]);
        lemma_expanded_cuts_contain(cutlist.drop_last(), spacing, i);
        let j = choose|j: int| 0 <= j < prefix.len() && prefix[j] == cut_from_spec(cutlist[i], spacing);
        assert(all[j] == prefix[j]);
    }
}

/// The cut list of `input`, expanded into one cut per piece.
pub fn expand_cutlist(input: &model::Input) -> (r: Vec<Cut>)
    requires
        input.fits(),
    ensures
        r@ == required_cuts(*input),
{
    let ghost cl = input.cutlist@;
    let mut cuts: Vec<Cut> = Vec::new();
    let mut i: usize = 0;
    assert(cl.take(0) =~= Seq::<model::Cut>::empty());
    while i < input.cutlist.len()
        invariant
            0 <= i <= cl.len(),
            cl == input.cutlist@,
            input.fits(),
            cuts@ == expanded_cuts(cl.take(i as int), input.spacing),
        decreases cl.len() - i,
    {
        let spec_cut = &input.cutlist[i];
        assert(model::fits_with_spacing(cl[i as int], input.spacing));
        let ghost prefix = cuts@;
        let mut n: u32 = 0;
        while n < spec_cut.count
            invariant
                n <= spec_cut.count,
                spec_cut.length + input.spacing <= u32::MAX,
                spec_cut.width + input.spacing <= u32::MAX,
                cuts@ == prefix + Seq::new(n as nat, |_i: int| cut_from_spec(*spec_cut, input.spacing)),
            decreases spec_cut.count - n,
        {
            let cut = Cut::from(spec_cut, input.spacing);
            cuts.push(cut);
            n += 1;
            assert(cuts@ =~= prefix + Seq::new(
                n as nat,
                |_i: int| cut_from_spec(*spec_cut, input.spacing),
            ));
        }
        assert(cl.take(i + 1).drop_last() =~= cl.take(i as int));
        assert(cl.take(i + 1).last() == *spec_cut);
        i += 1;
    }
    assert(cl.take(i as int) =~= cl);
    cuts
}

/// Whether every cut has a template at least as wide as itself.
pub fn is_a_solution_possible(templates: &[model::Board], cuts: &[Cut]) -> (r: bool)
    ensures
        r == solution_possible(templates@, cuts@),
{
    let mut i: usize = 0;
    while i < cuts.len()
        invariant
            0 <= i <= cuts@.len(),
            forall|k: int| 0 <= k < i ==> wide_enough(templates@, #[trigger] cuts@[k]),
        decreases cuts@.len() - i,
    {
        let mut found = false;
        let mut t: usize = 0;
        while t < templates.len() && !found
            invariant
                0 <= t <= templates@.len(),
                i < cuts@.len(),
                found ==> wide_enough(templates@, cuts@[i as int]),
                !found ==> forall|m: int| 0 <= m < t ==> #[trigger] templates@[m].width < cuts@[i as int].width,
            decreases templates@.len() - t,
        {
            if templates[t].width >= cuts[i].width {
                found = true;
            }
            t += 1;
        }
        if !found {
            assert(!wide_enough(templates@, cuts@[i as int]));
            return false;
        }
        i += 1;
    }
    true
}

/// Seed of the generator that reorders the cuts between attempts.
pub const SEED: u64 = 12345;

/// Searches for the best arrangements of the required cuts, reordering them
/// with a generator seeded with `SEED`, as `compute_with_seed` does.
pub fn compute(model: &model::Input, attempts: usize, result_count: usize) -> (r: Option<
    Vec<Vec<Board>>,
>)
    requires
        model.fits(),
    ensures
        search_outcome(*model, attempts, result_count, r),
{
    compute_with_seed(model, attempts, result_count, SEED)
}

/// Searches for the best arrangements of the required cuts.
///
/// Gives up at once when some cut is wider than every template. Otherwise it
/// runs `attempts` allocations, each on a fresh random reordering of the cut
/// list drawn from a generator seeded with `seed`, and returns the
/// `result_count` best successful ones by descending score, or `None` when no
/// attempt succeeded.
pub fn compute_with_seed(
    model: &model::Input,
    attempts: usize,
    result_count: usize,
    seed: u64,
) -> (r: Option<Vec<Vec<Board>>>)
    requires
        model.fits(),
    ensures
        search_outcome(*model, attempts, result_count, r),
{
    let ghost required = required_cuts(*model);
    let templates = model.boards.as_slice();
    let mut cutlist = expand_cutlist(model);
    proof {
        if some_cut_too_wide(*model) {
            let i = choose|i: int|
                0 <= i < model.cutlist@.len() && #[trigger] model.cutlist@[i].count >= 1
                    && forall|t: int|
                    0 <= t < model.boards@.len() ==> model.boards@[t].width
                        < model.cutlist@[i].width + model.spacing;
            lemma_expanded_cuts_contain(model.cutlist@, model.spacing, i);
            assert(model::fits_with_spacing(model.cutlist@[i], model.spacing));
            let c = cut_from_spec(model.cutlist@[i], model.spacing);
            let j = choose|j: int| 0 <= j < required.len() && required[j] == c;
            assert(!wide_enough(model.boards@, required[j]));
        }
    }
    if !is_a_solution_possible(templates, cutlist.as_slice()) {
        return None;
    }
    let ghost all_fit = forall|i: int|
        0 <= i < required.len() ==> has_fitting_template(model.boards@, #[trigger] required[i]);
    let mut rng = seeded_generator(seed);
    let mut results: Vec<Vec<Board>> = Vec::new();
    let mut attempt: usize = 0;
    while attempt < attempts
        invariant
            attempt <= attempts,
            templates@ == model.boards@,
            required == required_cuts(*model),
            cutlist@.to_multiset() == required.to_multiset(),
            results@.len() <= attempt,
            all_fit ==> results@.len() == attempt,
            all_fit == forall|i: int|
                0 <= i < required.len() ==> has_fitting_template(model.boards@, #[trigger] required[i]),
            forall|j: int| 0 <= j < results@.len() ==> is_solution_of(*model, #[trigger] results@[j]),
        decreases attempts - attempt,
    {
        shuffle(&mut cutlist, &mut rng);
        let ghost order = cutlist@;
        proof {
            if all_fit {
                assert forall|i: int| 0 <= i < order.len() implies has_fitting_template(
                    model.boards@,
                    #[trigger] order[i],
                ) by {
                    broadcast use vstd::seq_lib::group_to_multiset_ensures;

                    assert(order.contains(order[i]));
                    assert(order.to_multiset().count(order[i]) > 0);
                    assert(required.to_multiset().count(order[i]) > 0);
                    assert(required.contains(order[i]));
                    let k = choose|k: int| 0 <= k < required.len() && required[k] == order[i];
                    assert(has_fitting_template(model.boards@, required[k]));
                }
                lemma_allocation_succeeds(model.boards@, order);
            }
        }
        match generate(templates, cutlist.as_slice()) {
            Some(solution) => {
                proof {
                    lemma_allocation_conserves_cuts(model.boards@, order);
                    lemma_allocation_from_catalog(model.boards@, order);
                    assert(allocation(model.boards@, order) == Some(boards_view(solution@)));
                    assert(is_solution_of(*model, solution));
                }
                let ghost earlier = results@;
                results.push(solution);
                assert forall|j: int| 0 <= j < results@.len() implies is_solution_of(
                    *model,
                    #[trigger] results@[j],
                ) by {
                    if j < results@.len() - 1 {
                        assert(results@[j] == earlier[j]);
                    }
                }
            },
            None => {},
        }
        attempt += 1;
    }
    if results.len() == 0 {
        return None;
    }
    let ghost successes = results@;
    let ranked_solutions = rank(results, result_count);
    proof {
        broadcast use vstd::seq_lib::group_to_multiset_ensures;

        lemma_rank_all(successes);
        assert(ranked_outcome(*model, attempts, result_count, successes, ranked_solutions@));
        assert forall|i: int| 0 <= i < ranked_solutions@.len() implies is_solution_of(
            *model,
            #[trigger] ranked_solutions@[i],
        ) by {
            let x = ranked_solutions@[i];
            assert(x == rank_all(successes)[i]);
            assert(rank_all(successes).contains(x));
            assert(rank_all(successes).to_multiset().count(x) > 0);
            assert(successes.to_multiset().count(x) > 0);
            assert(successes.contains(x));
            let k = choose|k: int| 0 <= k < successes.len() && successes[k] == x;
            assert(is_solution_of(*model, successes[k]));
        }
    }
    let r = Some(ranked_solutions);
    assert(r matches Some(solutions) && ranked_outcome(
        *model,
        attempts,
        result_count,
        successes,
        solutions@,
    ));
    r
}

} // verus!
