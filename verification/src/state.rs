//! The executable episode state and its one-step transition model.

use vstd::prelude::*;

use crate::model::{
    action_gain, action_legal, advance_post, cell, done, eval_post, greedy_choice, is_greedy_at,
    legal_seq, lemma_greedy_unique, lemma_legal_actions_nonempty, lemma_legal_seq_sound, model_wf,
    line_idx, render_cell, Config, StateModel, MAX_SIDE,
};
use crate::rng::{rng_from_seed, rng_next_u64};

verus! {

/// One snapshot of the game: reward grid (row-major), agent position, turn
/// count, cumulative score, ranking key, and the remembered first action of
/// the search that produced this state.
pub struct MazeState {
    pub points: Vec<u64>,
    pub turn: usize,
    pub y: usize,
    pub x: usize,
    pub game_score: u64,
    pub evaluated_score: u64,
    pub first_action: usize,
}

impl View for MazeState {
    type V = StateModel;

    open spec fn view(&self) -> StateModel {
        StateModel {
            points: self.points@,
            turn: self.turn,
            y: self.y,
            x: self.x,
            game_score: self.game_score,
            evaluated_score: self.evaluated_score,
            first_action: self.first_action,
        }
    }
}

impl MazeState {
    /// Builds the starting state of an episode: the agent lands on a cell
    /// drawn from the seeded stream, every other cell gets a reward in 0..=9,
    /// and the start cell holds no reward.
    pub fn new(cfg: &Config, seed: u64) -> (s: MazeState)
        requires
            cfg.wf(),
        ensures
            model_wf(*cfg, s@),
            s@.turn == 0,
            s@.game_score == 0,
            s@.evaluated_score == 0,
            s@.first_action == 0,
            s@.points[cell(*cfg, s@.y as int, s@.x as int)] == 0,
    {
        let mut rng = rng_from_seed(seed);
        let y = (rng_next_u64(&mut rng) % (cfg.h as u64)) as usize;
        let x = (rng_next_u64(&mut rng) % (cfg.w as u64)) as usize;
        let mut points: Vec<u64> = Vec::new();
        let mut yy: usize = 0;
        while yy < cfg.h
            invariant
                cfg.wf(),
                y < cfg.h,
                x < cfg.w,
                yy <= cfg.h,
                points@.len() == yy * cfg.w,
                forall|i: int| 0 <= i < points@.len() ==> points@[i] <= 9,
                cell(*cfg, y as int, x as int) < points@.len() ==> points@[cell(
                    *cfg,
                    y as int,
                    x as int,
                )] == 0,
            decreases cfg.h - yy,
        {
            let mut xx: usize = 0;
            while xx < cfg.w
                invariant
                    cfg.wf(),
                    y < cfg.h,
                    x < cfg.w,
                    yy < cfg.h,
                    xx <= cfg.w,
                    points@.len() == yy * cfg.w + xx,
                    forall|i: int| 0 <= i < points@.len() ==> points@[i] <= 9,
                    cell(*cfg, y as int, x as int) < points@.len() ==> points@[cell(
                        *cfg,
                        y as int,
                        x as int,
                    )] == 0,
                decreases cfg.w - xx,
            {
                if yy == y && xx == x {
                    proof {
                        assert(cell(*cfg, y as int, x as int) == points@.len());
                    }
                    points.push(0);
                } else {
                    proof {
                        assert(yy * cfg.w + xx != y * cfg.w + x) by (nonlinear_arith)
                            requires
                                0 <= xx < cfg.w,
                                0 <= x < cfg.w,
                                0 <= yy,
                                0 <= y,
                                !(yy == y && xx == x),
                        ;
                    }
                    let v = rng_next_u64(&mut rng) % 10;
                    points.push(v);
                }
                xx = xx + 1;
            }
            proof {
                assert((yy + 1) * cfg.w == yy * cfg.w + cfg.w) by (nonlinear_arith);
            }
            yy = yy + 1;
        }
        proof {
            assert(y * cfg.w + x < cfg.h * cfg.w) by (nonlinear_arith)
                requires
                    y < cfg.h,
                    x < cfg.w,
            ;
        }
        MazeState {
            points,
            turn: 0,
            y,
            x,
            game_score: 0,
            evaluated_score: 0,
            first_action: 0,
        }
    }

    /// The episode is over.
    pub fn is_done(&self, cfg: &Config) -> (r: bool)
        ensures
            r == done(*cfg, self@),
    {
        self.turn == cfg.end_turn
    }

    /// An independent copy: sibling explorations never share grid cells.
    pub fn clone_state(&self) -> (r: MazeState)
        ensures
            r@ == self@,
    {
        let points = self.points.clone();
        proof {
            assert(points@ =~= self.points@);
        }
        MazeState {
            points,
            turn: self.turn,
            y: self.y,
            x: self.x,
            game_score: self.game_score,
            evaluated_score: self.evaluated_score,
            first_action: self.first_action,
        }
    }

    /// Plays one turn: moves by `action`'s unit vector, collects the
    /// destination cell's reward (zeroing the cell), and advances the turn.
    pub fn advance(&mut self, cfg: &Config, action: usize)
        requires
            cfg.wf(),
            model_wf(*cfg, old(self)@),
            action_legal(*cfg, old(self)@, action),
            old(self)@.turn < cfg.end_turn,
        ensures
            model_wf(*cfg, final(self)@),
            advance_post(*cfg, old(self)@, action, final(self)@),
    {
        let (ny, nx): (usize, usize) = if action == 0 {
            (self.y, self.x + 1)
        } else if action == 1 {
            (self.y, self.x - 1)
        } else if action == 2 {
            (self.y + 1, self.x)
        } else {
            (self.y - 1, self.x)
        };
        proof {
            assert(ny * cfg.w + nx < cfg.h * cfg.w && cfg.h * cfg.w <= MAX_SIDE * MAX_SIDE)
                by (nonlinear_arith)
                requires
                    ny < cfg.h,
                    nx < cfg.w,
                    cfg.h <= MAX_SIDE,
                    cfg.w <= MAX_SIDE,
            ;
        }
        let idx: usize = ny * cfg.w + nx;
        let p = self.points[idx];
        if p > 0 {
            self.game_score = self.game_score + p;
            self.points[idx] = 0;
        } else {
            proof {
                assert(self.points@.update(idx as int, 0u64) =~= self.points@);
            }
        }
        self.y = ny;
        self.x = nx;
        self.turn = self.turn + 1;
    }

    /// Refreshes the ranking key from the cumulative score. Must run after
    /// every `advance` before the state enters a frontier.
    pub fn evaluate_score(&mut self)
        ensures
            eval_post(old(self)@, final(self)@),
    {
        self.evaluated_score = self.game_score;
    }

    /// The reward in the cell a legal action moves to.
    pub fn peek_gain(&self, cfg: &Config, action: usize) -> (g: u64)
        requires
            cfg.wf(),
            model_wf(*cfg, self@),
            action_legal(*cfg, self@, action),
        ensures
            g == action_gain(*cfg, self@, action),
    {
        let (ny, nx): (usize, usize) = if action == 0 {
            (self.y, self.x + 1)
        } else if action == 1 {
            (self.y, self.x - 1)
        } else if action == 2 {
            (self.y + 1, self.x)
        } else {
            (self.y - 1, self.x)
        };
        proof {
            assert(ny * cfg.w + nx < cfg.h * cfg.w && cfg.h * cfg.w <= MAX_SIDE * MAX_SIDE)
                by (nonlinear_arith)
                requires
                    ny < cfg.h,
                    nx < cfg.w,
                    cfg.h <= MAX_SIDE,
                    cfg.w <= MAX_SIDE,
            ;
        }
        self.points[ny * cfg.w + nx]
    }

    /// One-ply greedy lookahead: the first legal action whose destination
    /// reward is highest.
    #[verifier::rlimit(50)]
    pub fn greedy_action(&self, cfg: &Config) -> (r: usize)
        requires
            cfg.wf(),
            model_wf(*cfg, self@),
        ensures
            r == greedy_choice(*cfg, self@),
            action_legal(*cfg, self@, r),
    {
        let actions = self.legal_actions(cfg);
        proof {
            lemma_legal_seq_sound(*cfg, self@);
        }
        let ghost q = legal_seq(*cfg, self@);
        let mut best_i: usize = 0;
        let mut highest: u64 = self.peek_gain(cfg, actions[0]);
        let mut k: usize = 1;
        while k < actions.len()
            invariant
                cfg.wf(),
                model_wf(*cfg, self@),
                actions@ == q,
                q == legal_seq(*cfg, self@),
                1 <= k <= q.len(),
                best_i < k,
                highest == action_gain(*cfg, self@, q[best_i as int]),
                forall|j: int|
                    0 <= j < k ==> action_gain(*cfg, self@, q[j]) <= action_gain(
                        *cfg,
                        self@,
                        q[best_i as int],
                    ),
                forall|j: int|
                    0 <= j < best_i ==> action_gain(*cfg, self@, q[j]) < action_gain(
                        *cfg,
                        self@,
                        q[best_i as int],
                    ),
            decreases q.len() - k,
        {
            proof {
                lemma_legal_seq_sound(*cfg, self@);
            }
            let g = self.peek_gain(cfg, actions[k]);
            if g > highest {
                highest = g;
                best_i = k;
            }
            k = k + 1;
        }
        proof {
            assert(is_greedy_at(*cfg, self@, best_i as int));
            let i0 = choose|i: int| is_greedy_at(*cfg, self@, i);
            lemma_greedy_unique(*cfg, self@, best_i as int, i0);
        }
        actions[best_i]
    }

    /// A text rendering of the grid: one byte per cell — `@` for the
    /// agent, a digit for a positive reward, `.` for an empty cell — and a
    /// newline after each row.
    #[verifier::loop_isolation(false)]
    #[verifier::rlimit(50)]
    pub fn render_grid(&self, cfg: &Config) -> (r: Vec<u8>)
        requires
            cfg.wf(),
            model_wf(*cfg, self@),
        ensures
            r@.len() == cfg.h * (cfg.w + 1),
            forall|y: int, x: int|
                0 <= y < cfg.h && 0 <= x < cfg.w ==> r@[#[trigger] line_idx(*cfg, y, x)]
                    == render_cell(*cfg, self@, y, x),
            forall|y: int|
                0 <= y < cfg.h ==> r@[#[trigger] line_idx(*cfg, y, cfg.w as int)] == 10u8,
    {
        let mut r: Vec<u8> = Vec::new();
        let mut yy: usize = 0;
        proof {
            assert(cfg.h * (cfg.w + 1) <= MAX_SIDE * (MAX_SIDE + 1)) by (nonlinear_arith)
                requires
                    cfg.h <= MAX_SIDE,
                    cfg.w <= MAX_SIDE,
            ;
        }
        while yy < cfg.h
            invariant
                yy <= cfg.h,
                r@.len() == yy * (cfg.w + 1),
                forall|y: int, x: int|
                    0 <= y < yy && 0 <= x < cfg.w ==> r@[#[trigger] line_idx(*cfg, y, x)]
                        == render_cell(*cfg, self@, y, x),
                forall|y: int|
                    0 <= y < yy ==> r@[#[trigger] line_idx(*cfg, y, cfg.w as int)] == 10u8,
            decreases cfg.h - yy,
        {
            let mut xx: usize = 0;
            while xx < cfg.w
                invariant
                    yy < cfg.h,
                    xx <= cfg.w,
                    r@.len() == yy * (cfg.w + 1) + xx,
                    forall|y: int, x: int|
                        0 <= y < yy && 0 <= x < cfg.w ==> r@[#[trigger] line_idx(*cfg, y, x)]
                            == render_cell(*cfg, self@, y, x),
                    forall|y: int|
                        0 <= y < yy ==> r@[#[trigger] line_idx(*cfg, y, cfg.w as int)] == 10u8,
                    forall|x: int|
                        0 <= x < xx ==> r@[#[trigger] line_idx(*cfg, yy as int, x)] == render_cell(
                            *cfg,
                            self@,
                            yy as int,
                            x,
                        ),
                decreases cfg.w - xx,
            {
                proof {
                    assert(yy * cfg.w + xx < cfg.h * cfg.w && cfg.h * cfg.w <= MAX_SIDE * MAX_SIDE)
                        by (nonlinear_arith)
                        requires
                            yy < cfg.h,
                            xx < cfg.w,
                            cfg.h <= MAX_SIDE,
                            cfg.w <= MAX_SIDE,
                    ;
                    assert forall|y: int, x: int| 0 <= y < yy && 0 <= x <= cfg.w implies line_idx(
                        *cfg,
                        y,
                        x,
                    ) < yy * (cfg.w + 1) + xx by {
                        assert(y * (cfg.w + 1) + x < yy * (cfg.w + 1)) by (nonlinear_arith)
                            requires
                                0 <= y < yy,
                                0 <= x <= cfg.w,
                        ;
                    }
                }
                let b: u8 = if yy == self.y && xx == self.x {
                    64
                } else {
                    let p = self.points[yy * cfg.w + xx];
                    if p > 0 {
                        48 + (p as u8)
                    } else {
                        46
                    }
                };
                r.push(b);
                xx = xx + 1;
            }
            proof {
                assert forall|y: int, x: int| 0 <= y < yy && 0 <= x <= cfg.w implies line_idx(
                    *cfg,
                    y,
                    x,
                ) < yy * (cfg.w + 1) + cfg.w by {
                    assert(y * (cfg.w + 1) + x < yy * (cfg.w + 1)) by (nonlinear_arith)
                        requires
                            0 <= y < yy,
                            0 <= x <= cfg.w,
                    ;
                }
                assert(line_idx(*cfg, yy as int, cfg.w as int) == yy * (cfg.w + 1) + cfg.w);
                assert((yy + 1) * (cfg.w + 1) == yy * (cfg.w + 1) + cfg.w + 1) by (nonlinear_arith);
            }
            r.push(10);
            yy = yy + 1;
        }
        r
    }

    /// The legal actions from here, in ascending action order; never empty
    /// under a usable configuration.
    pub fn legal_actions(&self, cfg: &Config) -> (r: Vec<usize>)
        requires
            cfg.wf(),
            self@.y < cfg.h,
            self@.x < cfg.w,
        ensures
            r@ == legal_seq(*cfg, self@),
            r@.len() >= 1,
    {
        let mut r: Vec<usize> = Vec::new();
        if self.x + 1 < cfg.w {
            r.push(0);
        }
        if self.x >= 1 {
            r.push(1);
        }
        if self.y + 1 < cfg.h {
            r.push(2);
        }
        if self.y >= 1 {
            r.push(3);
        }
        proof {
            assert(r@ =~= legal_seq(*cfg, self@));
            lemma_legal_actions_nonempty(*cfg, self@);
        }
        r
    }
}

} // verus!
