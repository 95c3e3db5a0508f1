use std::collections::HashMap;

use water_sort::game::{Color, GameState, Tube};
use water_sort::playback::playback;
use water_sort::solver::solver;

fn red() -> Color {
    Color::new("Red".to_string(), 255, 0, 0)
}

fn blue() -> Color {
    Color::new("Blue".to_string(), 0, 0, 255)
}

fn green() -> Color {
    Color::new("Green".to_string(), 0, 255, 0)
}

fn entropy(state: &GameState) -> f64 {
    let mut total = 0.0;
    for tube in state.tubes() {
        let mut counts: HashMap<(String, (u8, u8, u8)), u32> = HashMap::new();
        for c in tube.content() {
            *counts.entry((c.get_name().to_string(), c.rgb())).or_insert(0) += 1;
        }
        let mut keys: Vec<_> = counts.keys().cloned().collect();
        keys.sort();
        let mut h = 0.0;
        for k in keys {
            let p = counts[&k] as f64 / tube.capacity() as f64;
            h -= p * p.log2();
        }
        total += h;
    }
    total
}

fn rank(state: &GameState, moves: usize) -> u64 {
    let score = 0.65 * entropy(state) + 0.35 * moves as f64;
    let score = if score == 0.0 { 0.0 } else { score };
    let bits = score.to_bits();
    if bits >> 63 == 1 { !bits } else { bits | (1 << 63) }
}

fn solve(g: &GameState) -> Vec<(usize, usize)> {
    solver(g, &|s: &GameState, n: usize| rank(s, n))
}

fn puzzle() -> GameState {
    GameState::new(vec![
        Tube::new(3, vec![red(), blue(), green()]),
        Tube::new(3, vec![green(), red(), blue()]),
        Tube::new(3, vec![blue(), green(), red()]),
        Tube::new(3, vec![]),
        Tube::new(3, vec![]),
    ])
}

#[test]
fn already_solved_gives_no_moves() {
    let g = GameState::new(vec![Tube::new(2, vec![red(), red()]), Tube::new(2, vec![])]);
    assert!(g.check_win());
    assert_eq!(solve(&g), vec![]);
}

#[test]
fn stuck_puzzle_gives_no_moves() {
    let g = GameState::new(vec![
        Tube::new(2, vec![blue(), red()]),
        Tube::new(2, vec![red(), blue()]),
    ]);
    assert_eq!(g.available_moves(), vec![]);
    assert!(!g.check_win());
    assert_eq!(solve(&g), vec![]);
}

#[test]
fn one_move_puzzle() {
    let g = GameState::new(vec![Tube::new(2, vec![red()]), Tube::new(2, vec![red()])]);
    let moves = solve(&g);
    assert_eq!(moves.len(), 1);
    let states = playback(&moves, &g).unwrap();
    assert!(states.last().unwrap().check_win());
}

#[test]
fn solution_replays_to_a_win() {
    let g = puzzle();
    let moves = solve(&g);
    assert!(!moves.is_empty());
    let states = playback(&moves, &g).unwrap();
    assert_eq!(states.len(), moves.len() + 1);
    assert!(states[0] == g);
    assert!(states.last().unwrap().check_win());
    let mut h = g.clone();
    for &(from, to) in &moves {
        h.make_move_in_place(from, to).unwrap();
    }
    assert!(h.check_win());
    assert!(moves.len() <= water_sort::solver::EXPANSION_BUDGET);
    for k in 0..moves.len() {
        assert!(!states[k].check_win());
        assert!(states[k].available_moves().contains(&moves[k]));
        for l in 0..k {
            assert!(states[l] != states[k]);
        }
    }
}

#[test]
fn solver_is_deterministic() {
    let g = puzzle();
    assert_eq!(solve(&g), solve(&g));
}

#[test]
fn playback_reports_illegal_move() {
    let g = GameState::new(vec![Tube::new(2, vec![red()]), Tube::new(2, vec![blue()])]);
    assert!(playback(&vec![(0, 1)], &g).is_err());
    assert!(playback(&vec![(0, 7)], &g).is_err());
    assert_eq!(playback(&vec![], &g).unwrap().len(), 1);
}
