use fifteen::board::{new_board, Board};
use fifteen::search::a_star;

fn pack(tiles: [u64; 16]) -> Board {
    let mut cells = 0u64;
    for (k, t) in tiles.iter().enumerate() {
        cells |= t << (4 * k);
    }
    Board { cells }
}

fn assert_moves_apart(path: &[Board]) {
    for w in path.windows(2) {
        assert!(w[0].possible_moves().contains(&w[1]));
    }
}

#[test]
fn trivial_path() {
    let b = pack([1, 2, 3, 4, 5, 0, 7, 8, 9, 10, 11, 12, 13, 14, 15, 6]);
    assert_eq!(a_star(b, &b), vec![b]);
    let g = new_board();
    assert_eq!(a_star(g, &g), vec![g]);
}

#[test]
fn one_move_away() {
    let goal = new_board();
    let start = goal.possible_moves()[1];
    assert_eq!(a_star(start, &goal), vec![start, goal]);
}

#[test]
fn three_moves_is_optimal() {
    // The hole went up three times from the solved board.
    let start = pack([1, 2, 3, 0, 5, 6, 7, 4, 9, 10, 11, 8, 13, 14, 15, 12]);
    let goal = new_board();
    let path = a_star(start, &goal);
    assert_eq!(path.len(), 4);
    assert_eq!(path[0], start);
    assert_eq!(path[3], goal);
    assert_moves_apart(&path);
}

#[test]
fn scrambled_start_reaches_goal() {
    // Twelve moves from the solved board, never undoing the previous one.
    let goal = new_board();
    let mut b = goal;
    let mut prev = goal;
    for step in 0..12 {
        let moves = b.possible_moves();
        let next = moves
            .iter()
            .cycle()
            .skip(step % moves.len())
            .find(|m| **m != prev)
            .copied()
            .unwrap();
        prev = b;
        b = next;
    }
    let path = a_star(b, &goal);
    assert!(!path.is_empty());
    assert!(path.len() <= 13);
    assert_eq!(path[0], b);
    assert_eq!(*path.last().unwrap(), goal);
    assert_moves_apart(&path);
}

#[test]
fn repeated_search_gives_the_same_path() {
    let start = pack([5, 1, 2, 3, 0, 6, 7, 4, 9, 10, 11, 8, 13, 14, 15, 12]);
    let goal = new_board();
    let first = a_star(start, &goal);
    let second = a_star(start, &goal);
    assert_eq!(first, second);
    // Seven moves: the Manhattan distance is 7, so no shorter path exists.
    assert_eq!(first.len(), 8);
    assert_moves_apart(&first);
}
