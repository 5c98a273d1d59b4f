use cutlist::allocator::generate;
use cutlist::model;
use cutlist::model::RESOLUTION;
use cutlist::ranking::rank;
use cutlist::solver::{
    compute, compute_with_seed, expand_cutlist, SEED, is_a_solution_possible, score, Board, Cut, RipStack, SCORE_ONE,
};

fn units(x: u32) -> u32 {
    x * RESOLUTION
}

fn template(length: u32, width: u32, id: &str) -> model::Board {
    model::Board { length: units(length), width: units(width), id: id.to_string() }
}

fn cut_spec(count: u32, length: u32, width: u32, name: &str) -> model::Cut {
    model::Cut { length: units(length), width: units(width), count, name: name.to_string() }
}

fn cut(length: u32, width: u32, id: &str) -> Cut {
    Cut { length: units(length), width: units(width), id: id.to_string() }
}

fn empty_board(length: u32, width: u32) -> Board {
    Board::from_template(&template(length, width, "B"))
}

fn lane_widths_fit(board: &Board) -> bool {
    board.stacks.iter().all(|s| s.cuts.iter().map(|c| c.width as u64).sum::<u64>() <= board.width as u64)
}

fn lanes_length(board: &Board) -> u64 {
    board.stacks.iter().map(|s| s.cuts.iter().map(|c| c.length).max().unwrap_or(0) as u64).sum()
}

fn cut_count(solution: &[Board]) -> usize {
    solution.iter().map(|b| b.stacks.iter().map(|s| s.cuts.len()).sum::<usize>()).sum()
}

fn mixed_input() -> model::Input {
    model::Input {
        spacing: 0,
        boards: vec![template(96, 6, "A"), template(48, 10, "B")],
        cutlist: vec![
            cut_spec(3, 30, 2, "Rail"),
            cut_spec(2, 20, 3, "Stile"),
            cut_spec(4, 12, 1, "Slat"),
            cut_spec(1, 40, 5, "Top"),
        ],
    }
}

#[test]
fn two_aprons_share_one_lane() {
    let input = model::Input {
        spacing: 0,
        boards: vec![template(96, 8, "A")],
        cutlist: vec![cut_spec(2, 18, 3, "Apron")],
    };
    let solutions = compute(&input, 1, 1).expect("a solution");
    assert_eq!(solutions.len(), 1);
    let solution = &solutions[0];
    assert_eq!(solution.len(), 1);
    assert_eq!(solution[0].id, "A");
    assert_eq!(solution[0].stacks.len(), 1);
    assert_eq!(solution[0].stacks[0].cuts.len(), 2);
    assert!(solution[0].stacks[0].cuts.iter().all(|c| c.id == "Apron"));
    assert_eq!(solution[0].score(), Some(SCORE_ONE));
    assert_eq!(score(solution), SCORE_ONE);
}

#[test]
fn vending_skips_a_template_that_is_too_short() {
    let input = model::Input {
        spacing: 0,
        boards: vec![template(10, 4, "Small"), template(100, 4, "Big")],
        cutlist: vec![cut_spec(1, 50, 3, "Leg")],
    };
    let cuts = expand_cutlist(&input);
    assert!(is_a_solution_possible(&input.boards, &cuts));
    let solutions = compute(&input, 1, 1).expect("a solution");
    assert_eq!(solutions[0].len(), 1);
    assert_eq!(solutions[0][0].id, "Big");
}

#[test]
fn too_wide_a_cut_has_no_solution() {
    let input = model::Input {
        spacing: 0,
        boards: vec![template(96, 4, "A")],
        cutlist: vec![cut_spec(1, 10, 2, "Ok"), cut_spec(1, 10, 5, "Wide")],
    };
    let cuts = expand_cutlist(&input);
    assert!(!is_a_solution_possible(&input.boards, &cuts));
    assert!(compute(&input, 16, 4).is_none());
}

#[test]
fn narrower_template_is_vended_first() {
    let templates = vec![template(96, 8, "Wide"), template(96, 4, "Narrow"), template(96, 4, "Second")];
    let boards = generate(&templates, &[cut(20, 3, "X")]).expect("placed");
    assert_eq!(boards.len(), 1);
    assert_eq!(boards[0].id, "Narrow");
}

#[test]
fn exact_fit_template_is_not_vended() {
    let templates = vec![template(20, 4, "Exact")];
    assert!(generate(&templates, &[cut(20, 3, "X")]).is_none());
    assert!(generate(&templates, &[cut(19, 4, "X")]).is_none());
}

#[test]
fn cuts_are_placed_last_first() {
    let templates = vec![template(96, 4, "A"), template(96, 8, "B")];
    let boards = generate(&templates, &[cut(10, 7, "Wide"), cut(10, 1, "Narrow")]).expect("placed");
    assert_eq!(boards.len(), 2);
    assert_eq!(boards[0].id, "A");
    assert_eq!(boards[0].stacks[0].cuts[0].id, "Narrow");
    assert_eq!(boards[1].id, "B");
    assert_eq!(boards[1].stacks[0].cuts[0].id, "Wide");
}

#[test]
fn spacing_grows_every_cut() {
    let input = model::Input {
        spacing: 3,
        boards: vec![template(96, 8, "A")],
        cutlist: vec![model::Cut { length: 100, width: 50, count: 2, name: "P".to_string() }],
    };
    let cuts = expand_cutlist(&input);
    assert_eq!(cuts.len(), 2);
    assert!(cuts.iter().all(|c| c.length == 103 && c.width == 53 && c.id == "P"));
}

#[test]
fn expansion_keeps_list_order() {
    let input = mixed_input();
    let cuts = expand_cutlist(&input);
    let ids: Vec<&str> = cuts.iter().map(|c| c.id.as_str()).collect();
    assert_eq!(ids, vec!["Rail", "Rail", "Rail", "Stile", "Stile", "Slat", "Slat", "Slat", "Slat", "Top"]);
}

#[test]
fn returned_solutions_keep_lanes_within_their_boards() {
    let input = mixed_input();
    let solutions = compute(&input, 64, 64).expect("solutions");
    for solution in &solutions {
        for board in solution {
            assert!(lane_widths_fit(board));
            assert!(lanes_length(board) <= board.length as u64);
        }
    }
}

#[test]
fn returned_solutions_hold_exactly_the_required_cuts() {
    let input = mixed_input();
    let mut expected: Vec<(u32, u32, String)> =
        expand_cutlist(&input).iter().map(|c| (c.length, c.width, c.id.clone())).collect();
    expected.sort();
    let solutions = compute(&input, 32, 32).expect("solutions");
    for solution in &solutions {
        assert_eq!(cut_count(solution), expected.len());
        let mut placed: Vec<(u32, u32, String)> = Vec::new();
        for board in solution {
            for stack in &board.stacks {
                for c in &stack.cuts {
                    placed.push((c.length, c.width, c.id.clone()));
                }
            }
        }
        placed.sort();
        assert_eq!(placed, expected);
    }
}

#[test]
fn solutions_come_best_first() {
    let input = mixed_input();
    let solutions = compute(&input, 64, 64).expect("solutions");
    let scores: Vec<u64> = solutions.iter().map(|s| score(s)).collect();
    assert!(scores.windows(2).all(|w| w[0] >= w[1]));
}

#[test]
fn result_count_truncates_the_ranking() {
    let input = mixed_input();
    let all = compute(&input, 64, 1000).expect("solutions");
    assert_eq!(all.len(), 64);
    let few = compute(&input, 64, 3).expect("solutions");
    assert_eq!(few.len(), 3.min(all.len()));
    for (a, b) in few.iter().zip(all.iter()) {
        assert_eq!(score(a), score(b));
        assert_eq!(a.len(), b.len());
    }
}

#[test]
fn attempts_see_different_orders() {
    let input = mixed_input();
    let solutions = compute(&input, 64, 64).expect("solutions");
    let first: Vec<Vec<Vec<String>>> = layout(&solutions[0]);
    assert!(solutions.iter().any(|s| layout(s) != first));
}

fn layout(solution: &[Board]) -> Vec<Vec<Vec<String>>> {
    solution
        .iter()
        .map(|b| b.stacks.iter().map(|s| s.cuts.iter().map(|c| c.id.clone()).collect()).collect())
        .collect()
}

#[test]
fn zero_attempts_find_nothing() {
    assert!(compute(&mixed_input(), 0, 4).is_none());
}

#[test]
fn ranking_ignores_the_order_of_trials() {
    let templates = vec![template(96, 8, "A")];
    let good = generate(&templates, &[cut(18, 3, "a"), cut(18, 3, "b")]).unwrap();
    let poor = generate(&templates, &[cut(18, 3, "a"), cut(9, 3, "b")]).unwrap();
    let mid = generate(&templates, &[cut(18, 3, "a"), cut(12, 3, "b")]).unwrap();
    let s1 = rank(vec![good.clone(), poor.clone(), mid.clone()], 3);
    let s2 = rank(vec![mid, poor, good], 3);
    let k1: Vec<u64> = s1.iter().map(|s| score(s)).collect();
    let k2: Vec<u64> = s2.iter().map(|s| score(s)).collect();
    assert_eq!(k1, k2);
    assert_eq!(k1[0], SCORE_ONE);
    assert!(k1[0] > k1[1] && k1[1] > k1[2]);
}

#[test]
fn ranking_is_stable_on_ties() {
    let templates = vec![template(96, 8, "A"), template(96, 9, "B")];
    let first = generate(&templates, &[cut(18, 3, "first")]).unwrap();
    let second = generate(&templates, &[cut(18, 3, "second")]).unwrap();
    let ranked = rank(vec![first, second], 5);
    assert_eq!(ranked.len(), 2);
    assert_eq!(ranked[0][0].stacks[0].cuts[0].id, "first");
    assert_eq!(ranked[1][0].stacks[0].cuts[0].id, "second");
}

#[test]
fn lane_measures() {
    let lane = RipStack { cuts: vec![Cut { length: 10, width: 2, id: "a".into() }, Cut { length: 5, width: 2, id: "b".into() }] };
    assert_eq!(lane.length(), 10);
    assert_eq!(lane.width(), 4);
    assert_eq!(lane.area(), 40);
    assert_eq!(lane.used_area(), 30);
    assert_eq!(lane.score(), SCORE_ONE / 4 * 3);
    assert!(!lane.is_empty());
    let empty = RipStack::new();
    assert!(empty.is_empty());
    assert_eq!(empty.length(), 0);
    assert_eq!(empty.score(), 0);
}

#[test]
fn board_score_multiplies_lane_scores() {
    let mut board = Board { length: 100, width: 10, id: "B".into(), stacks: Vec::new() };
    assert_eq!(board.score(), None);
    board.stacks.push(RipStack { cuts: vec![Cut { length: 10, width: 2, id: "a".into() }, Cut { length: 5, width: 2, id: "b".into() }] });
    board.stacks.push(RipStack { cuts: vec![Cut { length: 20, width: 4, id: "c".into() }, Cut { length: 10, width: 4, id: "d".into() }] });
    let expected = (SCORE_ONE / 4 * 3) * (SCORE_ONE / 4 * 3) / SCORE_ONE;
    assert_eq!(board.score(), Some(expected));
    let unused = Board { length: 50, width: 10, id: "U".into(), stacks: Vec::new() };
    assert_eq!(score(&[board, unused]), expected);
    assert_eq!(score(&[]), SCORE_ONE);
}

#[test]
fn accept_prefers_the_lane_closest_in_length() {
    let mut board = empty_board(96, 10);
    assert!(board.accept(&cut(30, 2, "long")));
    assert!(board.accept(&cut(10, 2, "short")));
    assert_eq!(board.stacks.len(), 1);
    assert!(board.accept(&cut(50, 7, "wide")));
    assert_eq!(board.stacks.len(), 2);
    assert!(board.accept(&cut(49, 2, "near")));
    assert_eq!(board.stacks[1].cuts.len(), 2);
    assert_eq!(board.stacks[1].cuts[1].id, "near");
}

#[test]
fn accept_opens_a_lane_when_no_lane_has_room() {
    let mut board = empty_board(96, 4);
    assert!(board.accept(&cut(20, 3, "a")));
    assert!(board.accept(&cut(20, 1, "b")));
    assert_eq!(board.stacks.len(), 2);
    assert_eq!(board.allocated_length(), units(40) as u64);
    assert_eq!(board.unallocated_length(), units(56) as u64);
}

#[test]
fn accept_refuses_oversized_cuts() {
    let mut board = empty_board(96, 4);
    assert!(!board.accept(&cut(97, 1, "long")));
    assert!(!board.accept(&cut(10, 5, "wide")));
    assert!(board.stacks.is_empty());
    assert!(!board.can_accept(&cut(97, 1, "long")));
}

#[test]
fn accept_refuses_a_lane_that_would_overrun_the_board() {
    let mut board = empty_board(50, 4);
    assert!(board.accept(&cut(20, 3, "a")));
    assert!(board.accept(&cut(25, 3, "b")));
    assert_eq!(board.stacks.len(), 2);
    let thin = Cut { length: units(40), width: 100, id: "thin".into() };
    assert_eq!(board.best_stack_for_cut(&thin), Some(1));
    assert!(board.can_accept(&thin));
    assert!(!board.accept(&thin));
    assert_eq!(board.allocated_length(), units(45) as u64);
    assert_eq!(board.stacks[0].cuts.len(), 1);
    assert_eq!(board.stacks[1].cuts.len(), 1);
}

#[test]
fn best_lane_breaks_ties_by_position() {
    let mut board = empty_board(96, 10);
    assert!(board.accept(&cut(20, 9, "a")));
    assert!(board.accept(&cut(20, 9, "b")));
    assert_eq!(board.stacks.len(), 2);
    assert_eq!(board.best_stack_for_cut(&cut(18, 1, "p")), None);
    let mut board = empty_board(96, 10);
    assert!(board.accept(&cut(20, 5, "a")));
    assert!(board.accept(&cut(20, 6, "b")));
    assert_eq!(board.stacks.len(), 2);
    assert_eq!(board.best_stack_for_cut(&cut(20, 1, "p")), Some(0));
    assert!(board.accept(&cut(20, 3, "c")));
    assert_eq!(board.stacks[0].cuts.len(), 2);
    assert_eq!(board.stacks[1].cuts.len(), 1);
}

#[test]
fn cut_helpers() {
    let c = Cut { length: 12, width: 5, id: "x".into() };
    assert_eq!(c.area(), 60);
    let r = c.clone().rotate();
    assert_eq!((r.length, r.width, r.id.as_str()), (5, 12, "x"));
    let spec = model::Cut { length: 7, width: 2, count: 4, name: "y".into() };
    let grown = Cut::from(&spec, 1);
    assert_eq!((grown.length, grown.width, grown.id.as_str()), (8, 3, "y"));
}

#[test]
fn cuts_compare_by_steps_and_id() {
    let a = Cut { length: 6400, width: 2457, id: "x".into() };
    let b = Cut { length: 6400, width: 2457, id: "x".into() };
    let c = Cut { length: 6400, width: 2458, id: "x".into() };
    assert_eq!(a, b);
    assert_ne!(a, c);
    let set: std::collections::HashSet<Cut> = vec![a, b, c].into_iter().collect();
    assert_eq!(set.len(), 2);
}

#[test]
fn many_poorly_filled_lanes_still_score_above_zero() {
    let mut board = Board { length: 1000, width: 10, id: "B".into(), stacks: Vec::new() };
    for _ in 0..80 {
        board.stacks.push(RipStack {
            cuts: vec![Cut { length: 2, width: 1, id: "a".into() }, Cut { length: 1, width: 1, id: "b".into() }],
        });
    }
    let s = board.score().expect("lanes");
    assert!(s >= 1);
    assert!(s < SCORE_ONE / 1000);
    assert!(score(&[board]) >= 1);
}

#[test]
fn scores_round_up() {
    let lane = RipStack { cuts: vec![Cut { length: 3, width: 1, id: "a".into() }, Cut { length: 1, width: 2, id: "b".into() }] };
    // 5 of 9 units used: 5 * 2^32 / 9 = 2386092942.2..., rounded up
    assert_eq!(lane.score(), 2386092943);
}

#[test]
fn seeded_search_matches_the_default_seed() {
    let input = mixed_input();
    let a = compute(&input, 16, 16).expect("solutions");
    let b = compute_with_seed(&input, 16, 16, SEED).expect("solutions");
    assert_eq!(a.iter().map(|s| layout(s)).collect::<Vec<_>>(), b.iter().map(|s| layout(s)).collect::<Vec<_>>());
    let c = compute_with_seed(&input, 16, 16, 7).expect("solutions");
    assert_eq!(c.len(), 16);
    for solution in &c {
        assert_eq!(cut_count(solution), 10);
    }
}
