use connect_four::board::{
    get_moves, get_status, is_winning, play_column, to_user_move, Status, FULL_GRID,
};

fn bit(x: u64, y: u64) -> u64 {
    1u64 << (y * 8 + x)
}

/// A full board with no four in a row anywhere: cell (x, y) belongs to the
/// first mask exactly when y / 2 + x is even, so no direction ever runs
/// three alike in a row.
fn drawn_board() -> (u64, u64) {
    let mut a = 0u64;
    let mut b = 0u64;
    for x in 0..7u64 {
        for y in 0..6u64 {
            if (y / 2 + x) % 2 == 0 {
                a |= bit(x, y);
            } else {
                b |= bit(x, y);
            }
        }
    }
    (a, b)
}

#[test]
fn horizontal_win_detected() {
    let m = bit(0, 0) | bit(1, 0) | bit(2, 0) | bit(3, 0);
    assert!(is_winning(m));
}

#[test]
fn vertical_win_detected() {
    let m = bit(4, 1) | bit(4, 2) | bit(4, 3) | bit(4, 4);
    assert!(is_winning(m));
}

#[test]
fn diagonal_wins_detected() {
    let up = bit(0, 0) | bit(1, 1) | bit(2, 2) | bit(3, 3);
    assert!(is_winning(up));
    let down = bit(3, 0) | bit(2, 1) | bit(1, 2) | bit(0, 3);
    assert!(is_winning(down));
}

#[test]
fn three_in_a_row_is_no_win() {
    let m = bit(0, 0) | bit(1, 0) | bit(2, 0);
    assert!(!is_winning(m));
    assert!(!is_winning(0));
}

#[test]
fn no_wrap_across_column_boundary() {
    // stones at the right edge of one row and the left edge of the next:
    // without the padding bit these indices would look consecutive
    let m = bit(4, 0) | bit(5, 0) | bit(6, 0) | bit(0, 1);
    assert!(!is_winning(m));
}

#[test]
fn status_priorities() {
    let win = bit(0, 0) | bit(1, 0) | bit(2, 0) | bit(3, 0);
    let other = bit(0, 5) | bit(1, 5) | bit(2, 5);
    assert_eq!(get_status(win, other), Status::Won);
    assert_eq!(get_status(other, win), Status::Lost);
    assert_eq!(get_status(other, bit(4, 0)), Status::Playing);
    assert_eq!(get_status(0, 0), Status::Playing);
}

#[test]
fn full_board_without_winner_is_a_draw() {
    let (a, b) = drawn_board();
    assert_eq!(a & b, 0);
    assert_eq!(a | b, FULL_GRID);
    assert!(!is_winning(a));
    assert!(!is_winning(b));
    assert_eq!(get_status(a, b), Status::Draw);
}

#[test]
fn moves_from_empty_board() {
    let moves = get_moves(0, 0);
    assert_eq!(moves.len(), 7);
    for x in 0..7u64 {
        assert_eq!(moves[x as usize], (0, bit(x, 0)));
    }
}

#[test]
fn moves_swap_roles_and_obey_gravity() {
    // the mover owns bit (3, 0); the stone dropped in column 3 lands on row 1
    let p1 = bit(3, 0);
    let p2 = bit(2, 0);
    let moves = get_moves(p1, p2);
    assert_eq!(moves.len(), 7);
    assert_eq!(moves[3], (p2, p1 | bit(3, 1)));
    assert_eq!(moves[2], (p2, p1 | bit(2, 1)));
    assert_eq!(moves[0], (p2, p1 | bit(0, 0)));
}

#[test]
fn full_column_contributes_no_move() {
    let p1 = bit(0, 0) | bit(0, 2) | bit(0, 4);
    let p2 = bit(0, 1) | bit(0, 3) | bit(0, 5);
    let moves = get_moves(p1, p2);
    assert_eq!(moves.len(), 6);
    // the first move now plays column 1
    assert_eq!(moves[0], (p2, p1 | bit(1, 0)));
}

#[test]
fn no_moves_exactly_on_a_full_board() {
    let (a, b) = drawn_board();
    assert_eq!(get_moves(a, b).len(), 0);
    assert!(get_moves(0, 0).len() > 0);
}

#[test]
fn one_move_closes_at_most_one_column() {
    // column 0 already holds five stones; any move leaves at least six columns open
    let p1 = bit(0, 0) | bit(0, 2) | bit(0, 4);
    let p2 = bit(0, 1) | bit(0, 3);
    let moves = get_moves(p1, p2);
    assert_eq!(moves.len(), 7);
    for m in &moves {
        assert!(get_moves(m.0, m.1).len() + 1 >= moves.len());
    }
}

#[test]
fn no_reachable_position_has_two_winners() {
    // walk a line of play, always picking the first legal move
    let mut s = (0u64, 0u64);
    loop {
        assert!(!(is_winning(s.0) && is_winning(s.1)));
        if get_status(s.0, s.1) != Status::Playing {
            break;
        }
        let moves = get_moves(s.0, s.1);
        assert!(!moves.is_empty());
        s = moves[0];
    }
}

#[test]
fn play_column_applies_a_valid_move() {
    assert_eq!(play_column(0, 0, 3), Some((0, bit(3, 0))));
    let p1 = bit(3, 0);
    assert_eq!(play_column(p1, 0, 3), Some((0, p1 | bit(3, 1))));
}

#[test]
fn play_column_rejects_bad_moves() {
    assert_eq!(play_column(0, 0, 7), None);
    let p1 = bit(0, 0) | bit(0, 2) | bit(0, 4);
    let p2 = bit(0, 1) | bit(0, 3) | bit(0, 5);
    assert_eq!(play_column(p1, p2, 0), None);
}

#[test]
fn to_user_move_recovers_the_column() {
    // engine moved from (0, 0) by dropping in column 3
    assert_eq!(to_user_move((0, 0), (0, bit(3, 0))), 4);
    let p1 = bit(3, 0);
    let next = (0, p1 | bit(6, 0));
    assert_eq!(to_user_move((p1, 0), next), 7);
}
