use fifteen::board::{apply_moves, gen_goal_tuple, heuristic, new_board, shuffled_board, Board};

fn pack(tiles: [u64; 16]) -> Board {
    let mut cells = 0u64;
    for (k, t) in tiles.iter().enumerate() {
        cells |= t << (4 * k);
    }
    Board { cells }
}

fn tiles(b: &Board) -> Vec<u64> {
    (0..16).map(|k| b.tile_at(k)).collect()
}

#[test]
fn solved_board_layout() {
    let b = new_board();
    for k in 0..15 {
        assert_eq!(b.tile_at(k), k as u64 + 1);
    }
    assert_eq!(b.tile_at(15), 0);
    assert_eq!(b, pack([1, 2, 3, 4, 5, 6, 7, 8, 9, 10, 11, 12, 13, 14, 15, 0]));
}

#[test]
fn corner_hole_has_two_moves() {
    let moves = new_board().possible_moves();
    assert_eq!(moves.len(), 2);
    assert_eq!(moves[0], pack([1, 2, 3, 4, 5, 6, 7, 8, 9, 10, 11, 0, 13, 14, 15, 12]));
    assert_eq!(moves[1], pack([1, 2, 3, 4, 5, 6, 7, 8, 9, 10, 11, 12, 13, 14, 0, 15]));
}

#[test]
fn inner_hole_has_four_moves_in_order() {
    let b = pack([1, 2, 3, 4, 5, 0, 7, 8, 9, 10, 11, 12, 13, 14, 15, 6]);
    let moves = b.possible_moves();
    assert_eq!(moves.len(), 4);
    assert_eq!(moves[0], pack([1, 0, 3, 4, 5, 2, 7, 8, 9, 10, 11, 12, 13, 14, 15, 6]));
    assert_eq!(moves[1], pack([1, 2, 3, 4, 5, 10, 7, 8, 9, 0, 11, 12, 13, 14, 15, 6]));
    assert_eq!(moves[2], pack([1, 2, 3, 4, 0, 5, 7, 8, 9, 10, 11, 12, 13, 14, 15, 6]));
    assert_eq!(moves[3], pack([1, 2, 3, 4, 5, 7, 0, 8, 9, 10, 11, 12, 13, 14, 15, 6]));
}

#[test]
fn edge_hole_has_three_moves() {
    let b = pack([1, 0, 2, 3, 4, 5, 6, 7, 8, 9, 10, 11, 12, 13, 14, 15]);
    assert_eq!(b.possible_moves().len(), 3);
}

#[test]
fn goal_positions_of_solved_board() {
    let pos = gen_goal_tuple(&new_board());
    assert_eq!(pos.len(), 16);
    assert_eq!(pos[0], (3, 3));
    for v in 1..16usize {
        assert_eq!(pos[v], ((v - 1) / 4, (v - 1) % 4));
    }
}

#[test]
fn goal_positions_of_missing_and_repeated_tiles() {
    let pos = gen_goal_tuple(&pack([5, 5, 0, 0, 5, 1, 1, 1, 1, 1, 1, 1, 1, 1, 1, 1]));
    assert_eq!(pos[5], (1, 0));
    assert_eq!(pos[0], (0, 3));
    assert_eq!(pos[1], (3, 3));
    assert_eq!(pos[2], (0, 0));
}

#[test]
fn heuristic_values() {
    let goal = new_board();
    let pos = gen_goal_tuple(&goal);
    assert_eq!(heuristic(&goal, &pos), 0);
    for m in goal.possible_moves() {
        assert_eq!(heuristic(&m, &pos), 1);
    }
    let far = pack([0, 15, 14, 13, 12, 11, 10, 9, 8, 7, 6, 5, 4, 3, 2, 1]);
    assert_eq!(heuristic(&far, &pos), 58);
}

#[test]
fn shuffled_board_keeps_the_tiles() {
    let b = shuffled_board();
    let mut t = tiles(&b);
    t.sort();
    assert_eq!(t, (0..16).collect::<Vec<u64>>());
}

#[test]
fn no_draws_leave_the_board_alone() {
    assert_eq!(apply_moves(new_board(), &vec![]), new_board());
}

#[test]
fn draws_pick_moves_modulo_their_number() {
    let goal = new_board();
    // Two moves from the solved board: draw 3 picks move 1 (hole to the left).
    assert_eq!(apply_moves(goal, &vec![3]), goal.possible_moves()[1]);
    // Then three moves: draw 5 picks move 2 (hole back to the right).
    assert_eq!(apply_moves(goal, &vec![1, 5]), goal);
    // Up twice: the hole ends in the second row, last column.
    assert_eq!(
        apply_moves(goal, &vec![0, 0]),
        pack([1, 2, 3, 4, 5, 6, 7, 0, 9, 10, 11, 8, 13, 14, 15, 12])
    );
}
