use connect_four::board::Status;
use connect_four::search::{
    avg_value, isqrt, log2_floor, mcst, mcst_iterations, one_iteration, simulation, uct_value,
    RolloutPolicy, UCT_SCALE,
};
use connect_four::tree::{advance_root, backpropagation, init_graph, Node};

fn bit(x: u64, y: u64) -> u64 {
    1u64 << (y * 8 + x)
}

fn drawn_board() -> (u64, u64) {
    let mut a = 0u64;
    let mut b = 0u64;
    for x in 0..7u64 {
        for y in 0..6u64 {
            if (y / 2 + x) % 2 == 0 {
                a |= bit(x, y);
            } else {
                b |= bit(x, y);
            }
        }
    }
    (a, b)
}

#[test]
fn log2_floor_values() {
    assert_eq!(log2_floor(1), 0);
    assert_eq!(log2_floor(2), 1);
    assert_eq!(log2_floor(3), 1);
    assert_eq!(log2_floor(1023), 9);
    assert_eq!(log2_floor(1024), 10);
    assert_eq!(log2_floor(u64::MAX), 63);
}

#[test]
fn isqrt_values() {
    assert_eq!(isqrt(0), 0);
    assert_eq!(isqrt(1), 1);
    assert_eq!(isqrt(3), 1);
    assert_eq!(isqrt(4), 2);
    assert_eq!(isqrt(1 << 38), 1 << 19);
    assert_eq!(isqrt(u64::MAX), (1 << 32) - 1);
}

#[test]
fn uct_value_formula() {
    // no exploration when the parent has one visit: log2(1) == 0
    assert_eq!(uct_value(2, 1, 1), 2 * UCT_SCALE);
    // mean 1/2 plus 2 * sqrt(log2(4) / 2) == 1/2 + 2 * 1, in scale units
    assert_eq!(uct_value(1, 2, 4), UCT_SCALE / 2 + 2 * UCT_SCALE);
}

#[test]
fn avg_value_formula() {
    assert_eq!(avg_value(3, 2), 3 * UCT_SCALE / 2);
    assert_eq!(avg_value(0, 5), 0);
    assert_eq!(avg_value(2, 1), 2 * UCT_SCALE);
}

#[test]
fn init_graph_holds_the_empty_root() {
    let g = init_graph();
    assert_eq!(g.len(), 1);
    assert_eq!(g[0].state, (0, 0));
    assert!(g[0].children.is_empty());
    assert_eq!(g[0].parent, None);
    assert_eq!(g[0].score, 0);
    assert_eq!(g[0].nb_visit, 0);
    assert_eq!(g[0].status, Status::Playing);
}

#[test]
fn simulation_base_cases() {
    // the player who just moved already won
    let win = bit(0, 0) | bit(1, 0) | bit(2, 0) | bit(3, 0);
    let other = bit(0, 1) | bit(1, 1) | bit(2, 1);
    assert_eq!(simulation(other, win, &RolloutPolicy::Random), 2);
    // full board, no winner
    let (a, b) = drawn_board();
    assert_eq!(simulation(a, b, &RolloutPolicy::Random), 1);
}

#[test]
fn simulation_forced_draw_with_one_empty_cell() {
    // the drawn board minus its last stone: the only legal move fills it
    let (a, b) = drawn_board();
    let p1 = a & !bit(6, 5);
    assert_eq!(simulation(p1, b, &RolloutPolicy::Random), 1);
}

#[test]
fn simulation_immediate_win_flips_to_zero() {
    // the mover completes a vertical four with the first legal move; a win
    // one ply down is a loss for the side that was about to move here
    let p1 = bit(0, 0) | bit(0, 1) | bit(0, 2);
    let p2 = bit(1, 0) | bit(2, 0) | bit(4, 0);
    assert_eq!(simulation(p1, p2, &RolloutPolicy::FirstMove), 0);
}

#[test]
fn backpropagation_updates_the_whole_path() {
    let mut g = init_graph();
    backpropagation(0, &mut g, 2);
    assert_eq!(g[0].nb_visit, 1);
    assert_eq!(g[0].score, 2);
    g.push(Node {
        state: (0, bit(3, 0)),
        children: vec![],
        parent: Some(0),
        score: 0,
        nb_visit: 0,
        status: Status::Playing,
    });
    g[0].children.push(1);
    backpropagation(1, &mut g, 2);
    // the child takes the outcome as is, the parent the flipped outcome
    assert_eq!(g[1].nb_visit, 1);
    assert_eq!(g[1].score, 2);
    assert_eq!(g[0].nb_visit, 2);
    assert_eq!(g[0].score, 2);
}

#[test]
fn every_pass_visits_the_root_once() {
    let mut g = init_graph();
    for _ in 0..50 {
        one_iteration(&mut g, 0, &RolloutPolicy::FirstMove);
    }
    assert_eq!(g[0].nb_visit, 50);
    // the passes that went below the root are exactly the children's visits
    let below: u64 = g[0].children.iter().map(|c| g[*c].nb_visit).sum();
    assert!(below <= 50);
}

#[test]
fn first_iteration_expands_before_any_uct() {
    // the root starts with zero visits: the first pass must expand it, not
    // evaluate UCT on it
    let mut g = init_graph();
    one_iteration(&mut g, 0, &RolloutPolicy::Random);
    assert_eq!(g.len(), 2);
    assert_eq!(g[0].children.len(), 1);
    assert_eq!(g[0].nb_visit, 1);
    assert_eq!(g[1].nb_visit, 1);
}

#[test]
fn search_prefers_the_center_from_the_empty_board() {
    let g = init_graph();
    let (value, state, g, best) = mcst_iterations(g, 0, 3000, &RolloutPolicy::FirstMove);
    assert_eq!(g[best].state, state);
    // every pass goes through the root
    assert_eq!(g[0].nb_visit, 3000);
    let children = &g[0].children;
    assert_eq!(children.len(), 7);
    // the center column is at least tied for the best average outcome
    let center = children[3];
    assert_eq!(g[center].state, (0, bit(3, 0)));
    for &c in children.iter() {
        let lhs = (g[center].score as u128) * (g[c].nb_visit as u128);
        let rhs = (g[c].score as u128) * (g[center].nb_visit as u128);
        assert!(lhs >= rhs);
    }
    assert!(value <= 2 * UCT_SCALE);
}

#[test]
fn search_blocks_an_open_three() {
    // the last mover holds three in a row on the bottom rank; the only
    // non-losing reply drops on the open extension at column 3
    let b = bit(0, 0) | bit(1, 0) | bit(2, 0);
    let a = bit(0, 1) | bit(1, 1) | bit(2, 1);
    let mut g = init_graph();
    g[0].state = (a, b);
    let (_value, state, g, best) = mcst_iterations(g, 0, 20000, &RolloutPolicy::Random);
    assert_eq!(g[best].state, state);
    assert_eq!(state, (b, a | bit(3, 0)));
}

#[test]
fn timed_search_runs_at_least_one_pass() {
    let g = init_graph();
    let (value, state, g, best) = mcst(g, 0, 0, &RolloutPolicy::Random);
    assert!(g[0].nb_visit >= 1);
    assert!(!g[0].children.is_empty());
    assert_eq!(g[best].state, state);
    assert!(value <= 2 * UCT_SCALE);
}

#[test]
fn engine_move_reuses_the_chosen_child_as_root() {
    let g = init_graph();
    let (_value, state, mut g, best) = mcst_iterations(g, 0, 500, &RolloutPolicy::Random);
    // the new root holds exactly the position handed back to the caller
    assert_eq!(g[best].state, state);
    let root = advance_root(&mut g, best, state);
    assert_eq!(root, best);
}

#[test]
fn human_move_to_a_known_child_keeps_the_statistics() {
    let g = init_graph();
    let (_value, _state, g, root) = mcst_iterations(g, 0, 2000, &RolloutPolicy::Random);
    // grow the subtree under the new root so it has children of its own
    let (_v2, _s2, mut g, _b2) = mcst_iterations(g, root, 2000, &RolloutPolicy::Random);
    let child = g[root].children[0];
    let target = g[child].state;
    let visits_before = g[child].nb_visit;
    let score_before = g[child].score;
    let len_before = g.len();
    let new_root = advance_root(&mut g, root, target);
    assert_eq!(new_root, child);
    assert_eq!(g[new_root].nb_visit, visits_before);
    assert_eq!(g[new_root].score, score_before);
    assert_eq!(g.len(), len_before);
}

#[test]
fn human_move_to_an_unknown_position_overwrites_the_root() {
    let mut g = init_graph();
    g[0].nb_visit = 5;
    g[0].score = 3;
    let target = (0, bit(2, 0));
    let root = advance_root(&mut g, 0, target);
    assert_eq!(root, 0);
    assert_eq!(g[0].state, target);
    // the stale statistics are kept, as the reuse policy prescribes
    assert_eq!(g[0].nb_visit, 5);
    assert_eq!(g[0].score, 3);
    assert_eq!(g[0].status, Status::Playing);
}
