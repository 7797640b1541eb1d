use maze_search::frontier::Beam;
use maze_search::model::Config;
use maze_search::search::{
    beam_search_action, beam_search_action_with_time_threshold, beam_time_episode,
    chokudai_search_action, chokudai_search_action_with_time_threshold, greedy_action,
    random_action,
};
use maze_search::state::MazeState;
use maze_search::timer::TimeKeeper;
use rand::SeedableRng;

fn small_cfg(h: usize, w: usize, end_turn: usize) -> Config {
    let cfg = Config { h, w, end_turn };
    assert!(cfg.is_valid());
    cfg
}

fn raw_state(cfg: &Config, points: Vec<u64>, y: usize, x: usize) -> MazeState {
    assert_eq!(points.len(), cfg.h * cfg.w);
    MazeState {
        points,
        turn: 0,
        y,
        x,
        game_score: 0,
        evaluated_score: 0,
        first_action: 0,
    }
}

fn is_legal(cfg: &Config, state: &MazeState, action: usize) -> bool {
    state.legal_actions(cfg).contains(&action)
}

#[test]
fn legal_actions_at_corner() {
    let cfg = small_cfg(2, 2, 3);
    let s = raw_state(&cfg, vec![0, 1, 2, 3], 0, 0);
    assert_eq!(s.legal_actions(&cfg), vec![0, 2]);
    let s2 = raw_state(&cfg, vec![0, 1, 2, 3], 1, 1);
    assert_eq!(s2.legal_actions(&cfg), vec![1, 3]);
}

#[test]
fn legal_actions_never_empty() {
    let cfg = small_cfg(3, 4, 5);
    for y in 0..3 {
        for x in 0..4 {
            let s = raw_state(&cfg, vec![1; 12], y, x);
            assert!(!s.legal_actions(&cfg).is_empty());
        }
    }
    let thin = small_cfg(1, 2, 2);
    let s = raw_state(&thin, vec![0, 3], 0, 0);
    assert_eq!(s.legal_actions(&thin), vec![0]);
}

#[test]
fn advance_turn_and_score() {
    let cfg = small_cfg(2, 2, 4);
    let mut s = raw_state(&cfg, vec![0, 5, 7, 9], 0, 0);
    s.advance(&cfg, 0);
    assert_eq!((s.y, s.x), (0, 1));
    assert_eq!(s.turn, 1);
    assert_eq!(s.game_score, 5);
    assert_eq!(s.points, vec![0, 0, 7, 9]);
    s.advance(&cfg, 2);
    assert_eq!((s.y, s.x), (1, 1));
    assert_eq!(s.turn, 2);
    assert_eq!(s.game_score, 14);
    assert_eq!(s.points, vec![0, 0, 7, 0]);
}

#[test]
fn reward_collected_at_most_once() {
    let cfg = small_cfg(1, 3, 6);
    let mut s = raw_state(&cfg, vec![0, 4, 0], 0, 0);
    s.advance(&cfg, 0);
    assert_eq!(s.game_score, 4);
    s.advance(&cfg, 1);
    assert_eq!(s.game_score, 4);
    s.advance(&cfg, 0);
    assert_eq!(s.game_score, 4);
    assert_eq!(s.points, vec![0, 0, 0]);
}

#[test]
fn evaluate_is_idempotent() {
    let cfg = small_cfg(2, 2, 4);
    let mut s = raw_state(&cfg, vec![0, 5, 7, 9], 0, 0);
    s.advance(&cfg, 2);
    s.evaluate_score();
    assert_eq!(s.evaluated_score, 7);
    let before = (s.points.clone(), s.turn, s.y, s.x, s.game_score);
    s.evaluate_score();
    assert_eq!(s.evaluated_score, 7);
    assert_eq!(
        (s.points.clone(), s.turn, s.y, s.x, s.game_score),
        before
    );
}

#[test]
fn greedy_picks_best_neighbor() {
    let cfg = small_cfg(3, 3, 5);
    // Agent in the centre; north holds the best reward.
    let s = raw_state(&cfg, vec![0, 9, 0, 2, 0, 5, 0, 1, 0], 1, 1);
    assert_eq!(s.greedy_action(&cfg), 3);
    assert_eq!(greedy_action(&cfg, &s), 3);
    // Tie between east and west: the first legal action (east) wins.
    let t = raw_state(&cfg, vec![0, 0, 0, 6, 0, 6, 0, 0, 0], 1, 1);
    assert_eq!(t.greedy_action(&cfg), 0);
    assert_eq!(greedy_action(&cfg, &t), 0);
}

#[test]
fn beam_width_one_matches_greedy() {
    let cfg = small_cfg(4, 5, 6);
    let mut s1 = MazeState::new(&cfg, 11);
    let mut s2 = s1.clone_state();
    while !s1.is_done(&cfg) {
        let a1 = beam_search_action(&cfg, &s1, 1, cfg.end_turn);
        let a2 = greedy_action(&cfg, &s2);
        assert_eq!(a1, a2);
        s1.advance(&cfg, a1);
        s2.advance(&cfg, a2);
    }
    assert_eq!(s1.game_score, s2.game_score);
}

#[test]
fn chokudai_degenerate_returns_legal_action() {
    let cfg = small_cfg(3, 4, 5);
    let s = MazeState::new(&cfg, 3);
    let a = chokudai_search_action(&cfg, &s, 1, 1, 1);
    assert!(is_legal(&cfg, &s, a));
    let b = chokudai_search_action(&cfg, &s, 3, 2, 2);
    assert!(is_legal(&cfg, &s, b));
}

#[test]
fn zero_budget_beam_returns_legal_action() {
    let cfg = small_cfg(3, 4, 5);
    let s = MazeState::new(&cfg, 9);
    let a = beam_search_action_with_time_threshold(&cfg, &s, 5, 0);
    assert!(is_legal(&cfg, &s, a));
}

#[test]
fn zero_budget_chokudai_returns_legal_action() {
    let cfg = small_cfg(3, 4, 5);
    let s = MazeState::new(&cfg, 9);
    let a = chokudai_search_action_with_time_threshold(&cfg, &s, 2, 4, 0);
    assert!(is_legal(&cfg, &s, a));
}

#[test]
fn golden_greedy_episode() {
    let cfg = small_cfg(3, 4, 4);
    let mut s = MazeState::new(&cfg, 42);
    let start = (s.y, s.x);
    let mut actions = Vec::new();
    let mut trail = Vec::new();
    while !s.is_done(&cfg) {
        let a = s.greedy_action(&cfg);
        actions.push(a);
        s.advance(&cfg, a);
        trail.push((s.y, s.x));
    }
    assert_eq!(
        (start, actions, trail, s.game_score),
        ((2, 1), vec![3, 3, 1, 2], vec![(1, 1), (0, 1), (0, 0), (1, 0)], 29)
    );
}

#[test]
fn beam_search_no_worse_than_greedy() {
    let cfg = small_cfg(3, 4, 4);
    let mut b = MazeState::new(&cfg, 42);
    let mut g = b.clone_state();
    while !b.is_done(&cfg) {
        let a = beam_search_action(&cfg, &b, 5, 10);
        b.advance(&cfg, a);
    }
    while !g.is_done(&cfg) {
        let a = greedy_action(&cfg, &g);
        g.advance(&cfg, a);
    }
    assert!(b.game_score >= g.game_score);
}

#[test]
fn render_grid_bytes() {
    let cfg = small_cfg(2, 2, 4);
    let s = raw_state(&cfg, vec![0, 3, 0, 0], 0, 0);
    assert_eq!(s.render_grid(&cfg), vec![b'@', b'3', b'\n', b'.', b'.', b'\n']);
}

#[test]
fn new_grid_is_well_formed() {
    let cfg = small_cfg(5, 6, 10);
    let s = MazeState::new(&cfg, 7);
    assert_eq!(s.points.len(), 30);
    assert_eq!(s.turn, 0);
    assert_eq!(s.game_score, 0);
    assert!(s.y < 5 && s.x < 6);
    assert_eq!(s.points[s.y * 6 + s.x], 0);
    assert!(s.points.iter().all(|&p| p <= 9));
}

#[test]
fn new_is_deterministic() {
    let cfg = small_cfg(4, 4, 8);
    let a = MazeState::new(&cfg, 123);
    let b = MazeState::new(&cfg, 123);
    assert_eq!(a.points, b.points);
    assert_eq!((a.y, a.x), (b.y, b.x));
}

#[test]
fn random_action_is_legal() {
    let cfg = small_cfg(3, 3, 5);
    let s = MazeState::new(&cfg, 1);
    let mut rng = rand_chacha::ChaCha12Rng::seed_from_u64(0);
    for _ in 0..20 {
        let a = random_action(&cfg, &s, &mut rng);
        assert!(is_legal(&cfg, &s, a));
    }
}

#[test]
fn frontier_pops_highest_rank() {
    let cfg = small_cfg(2, 2, 4);
    let mut beam = Beam::new();
    for (score, tag) in [(2u64, 0usize), (5, 1), (4, 2)] {
        let mut s = raw_state(&cfg, vec![0, 1, 2, 3], 0, 0);
        s.evaluated_score = score;
        s.first_action = tag;
        beam.push(s);
    }
    let top = beam.pop_best();
    assert_eq!(top.evaluated_score, 5);
    assert_eq!(beam.len(), 2);
    let next = beam.pop_best();
    assert_eq!(next.evaluated_score, 4);
}

#[test]
fn zero_budget_expires_at_once() {
    let keeper = TimeKeeper::new(0);
    assert!(keeper.is_over());
}

#[test]
fn timed_episode_collects_forced_reward() {
    // On a one-row, two-cell grid every playout visits both cells on its
    // first move, so any policy collects the whole grid, whatever the clock.
    let cfg = small_cfg(1, 2, 4);
    let s = MazeState::new(&cfg, 6);
    let total: u64 = s.points.iter().sum();
    let score = beam_time_episode(&cfg, 6, 2, 0);
    assert_eq!(score, total);
}

#[test]
fn chokudai_degenerate_matches_greedy() {
    let cfg = small_cfg(3, 4, 5);
    let s = MazeState::new(&cfg, 8);
    assert_eq!(chokudai_search_action(&cfg, &s, 4, 1, 1), s.greedy_action(&cfg));
}

#[test]
fn config_validity() {
    assert!(Config { h: 1, w: 2, end_turn: 1 }.is_valid());
    assert!(!Config { h: 1, w: 1, end_turn: 1 }.is_valid());
    assert!(!Config { h: 0, w: 5, end_turn: 1 }.is_valid());
    assert!(!Config { h: 10001, w: 2, end_turn: 1 }.is_valid());
}

#[test]
fn timed_episode_score_is_bounded() {
    let cfg = small_cfg(3, 3, 6);
    let score = beam_time_episode(&cfg, 5, 2, 1);
    assert!(score <= 9 * 6);
}
