//! Mathematical model of the grid game: configuration, abstract state,
//! legality of moves, and the laws the transition system obeys.

use vstd::prelude::*;

verus! {

/// Largest accepted grid side length.
pub const MAX_SIDE: usize = 10000;

/// Largest accepted episode length.
pub const MAX_TURNS: usize = 100000000;

/// Grid dimensions and episode length, fixed for one episode.
#[derive(Clone, Copy, PartialEq, Eq, Structural, Debug)]
pub struct Config {
    pub h: usize,
    pub w: usize,
    pub end_turn: usize,
}

impl Config {
    /// A usable configuration: a grid with at least two cells (so that every
    /// in-bounds position has a legal move) and bounds that keep all index
    /// and score arithmetic inside machine integers.
    pub open spec fn wf(self) -> bool {
        &&& 1 <= self.h <= MAX_SIDE
        &&& 1 <= self.w <= MAX_SIDE
        &&& self.h * self.w >= 2
        &&& self.end_turn <= MAX_TURNS
    }

    /// Runtime check for `wf`.
    pub fn is_valid(&self) -> (b: bool)
        ensures
            b == self.wf(),
    {
        if 1 <= self.h && self.h <= MAX_SIDE && 1 <= self.w && self.w <= MAX_SIDE {
            proof {
                assert(self.h * self.w <= MAX_SIDE * MAX_SIDE) by (nonlinear_arith)
                    requires
                        1 <= self.h <= MAX_SIDE,
                        1 <= self.w <= MAX_SIDE,
                ;
            }
            self.h * self.w >= 2 && self.end_turn <= MAX_TURNS
        } else {
            false
        }
    }
}

/// Abstract view of one episode state.
pub ghost struct StateModel {
    /// Row-major reward grid: cell (y, x) is entry `y * w + x`.
    pub points: Seq<u64>,
    pub turn: usize,
    pub y: usize,
    pub x: usize,
    pub game_score: u64,
    pub evaluated_score: u64,
    pub first_action: usize,
}

/// Row delta of an action: 0 = east, 1 = west, 2 = south, 3 = north.
pub open spec fn dy_of(a: usize) -> int {
    if a == 2 {
        1
    } else if a == 3 {
        -1
    } else {
        0
    }
}

/// Column delta of an action: 0 = east, 1 = west, 2 = south, 3 = north.
pub open spec fn dx_of(a: usize) -> int {
    if a == 0 {
        1
    } else if a == 1 {
        -1
    } else {
        0
    }
}

/// Flat index of cell (y, x).
pub open spec fn cell(cfg: Config, y: int, x: int) -> int {
    y * cfg.w + x
}

/// A well-formed reward grid: the right size, every reward a digit.
pub open spec fn grid_wf(cfg: Config, g: Seq<u64>) -> bool {
    &&& g.len() == cfg.h * cfg.w
    &&& forall|i: int| 0 <= i < g.len() ==> g[i] <= 9
}

/// State invariant: grid well-formed, agent in bounds, turn within the
/// episode, and the score bounded by what the turns played could collect.
pub open spec fn model_wf(cfg: Config, m: StateModel) -> bool {
    &&& grid_wf(cfg, m.points)
    &&& m.y < cfg.h
    &&& m.x < cfg.w
    &&& m.turn <= cfg.end_turn
    &&& m.game_score <= 9 * m.turn
}

/// The episode is over.
pub open spec fn done(cfg: Config, m: StateModel) -> bool {
    m.turn == cfg.end_turn
}

/// Action `a` keeps the agent on the grid.
pub open spec fn action_legal(cfg: Config, m: StateModel, a: usize) -> bool {
    &&& a < 4
    &&& 0 <= m.y + dy_of(a) < cfg.h
    &&& 0 <= m.x + dx_of(a) < cfg.w
}

/// Flat index of the cell action `a` moves to.
pub open spec fn dest_cell(cfg: Config, m: StateModel, a: usize) -> int {
    cell(cfg, m.y + dy_of(a), m.x + dx_of(a))
}

/// Reward gained by taking action `a` from `m`.
pub open spec fn action_gain(cfg: Config, m: StateModel, a: usize) -> u64 {
    m.points[dest_cell(cfg, m, a)]
}

/// The legal actions, in ascending action order.
pub open spec fn legal_seq(cfg: Config, m: StateModel) -> Seq<usize> {
    (if action_legal(cfg, m, 0) { seq![0usize] } else { Seq::<usize>::empty() })
        + (if action_legal(cfg, m, 1) { seq![1usize] } else { Seq::<usize>::empty() })
        + (if action_legal(cfg, m, 2) { seq![2usize] } else { Seq::<usize>::empty() })
        + (if action_legal(cfg, m, 3) { seq![3usize] } else { Seq::<usize>::empty() })
}

/// Exactly what one transition does: the agent moves by the action's unit
/// vector, the destination cell's reward moves into the score and the cell
/// is zeroed, and the turn count rises by one. The ranking key and the
/// remembered first action are untouched.
pub open spec fn advance_post(cfg: Config, pre: StateModel, a: usize, post: StateModel) -> bool {
    let d = dest_cell(cfg, pre, a);
    &&& post.turn == pre.turn + 1
    &&& post.y == pre.y + dy_of(a)
    &&& post.x == pre.x + dx_of(a)
    &&& post.game_score == pre.game_score + pre.points[d]
    &&& post.points == pre.points.update(d, 0u64)
    &&& post.evaluated_score == pre.evaluated_score
    &&& post.first_action == pre.first_action
}

/// Exactly what evaluation does: the ranking key becomes the cumulative
/// score; nothing else changes.
pub open spec fn eval_post(pre: StateModel, post: StateModel) -> bool {
    &&& post.points == pre.points
    &&& post.turn == pre.turn
    &&& post.y == pre.y
    &&& post.x == pre.x
    &&& post.game_score == pre.game_score
    &&& post.evaluated_score == pre.game_score
    &&& post.first_action == pre.first_action
}

/// Evaluating an already evaluated state changes nothing.
pub proof fn lemma_evaluate_idempotent(a: StateModel, b: StateModel, c: StateModel)
    requires
        eval_post(a, b),
        eval_post(b, c),
    ensures
        c == b,
{
}

/// Every listed action is legal, and every legal action is listed.
pub proof fn lemma_legal_seq_sound(cfg: Config, m: StateModel)
    ensures
        forall|i: int| 0 <= i < legal_seq(cfg, m).len() ==> action_legal(cfg, m, legal_seq(cfg, m)[i]),
        forall|a: usize| action_legal(cfg, m, a) ==> legal_seq(cfg, m).contains(a),
{
    let q = legal_seq(cfg, m);
    assert forall|i: int| 0 <= i < q.len() implies action_legal(cfg, m, q[i]) by {
        assert(action_legal(cfg, m, q[i]));
    }
    assert forall|a: usize| action_legal(cfg, m, a) implies q.contains(a) by {
        if a == 0 {
            assert(q[0] == 0usize);
        } else if a == 1 {
            let i = if action_legal(cfg, m, 0) { 1int } else { 0int };
            assert(q[i] == 1usize);
        } else if a == 2 {
            let i = (if action_legal(cfg, m, 0) { 1int } else { 0int })
                + (if action_legal(cfg, m, 1) { 1int } else { 0int });
            assert(q[i] == 2usize);
        } else {
            let i = (if action_legal(cfg, m, 0) { 1int } else { 0int })
                + (if action_legal(cfg, m, 1) { 1int } else { 0int })
                + (if action_legal(cfg, m, 2) { 1int } else { 0int });
            assert(q[i] == 3usize);
        }
    }
}

/// Index of the byte for cell (y, x) in a rendering whose rows are `w`
/// cells wide plus a newline.
pub open spec fn line_idx(cfg: Config, y: int, x: int) -> int {
    y * (cfg.w + 1) + x
}

/// The character rendered for cell (y, x): `@` for the agent, the digit of
/// a positive reward, `.` for an empty cell.
pub open spec fn render_cell(cfg: Config, m: StateModel, y: int, x: int) -> u8 {
    if y == m.y && x == m.x {
        64u8
    } else if m.points[cell(cfg, y, x)] > 0 {
        (48 + m.points[cell(cfg, y, x)]) as u8
    } else {
        46u8
    }
}

/// `i` indexes the first best action of `legal_seq`: no action beats it,
/// and every earlier legal action is strictly worse.
pub open spec fn is_greedy_at(cfg: Config, m: StateModel, i: int) -> bool {
    let q = legal_seq(cfg, m);
    &&& 0 <= i < q.len()
    &&& forall|j: int| 0 <= j < q.len() ==> action_gain(cfg, m, q[j]) <= action_gain(cfg, m, q[i])
    &&& forall|j: int| 0 <= j < i ==> action_gain(cfg, m, q[j]) < action_gain(cfg, m, q[i])
}

/// The action a one-ply greedy lookahead picks: the first legal action, in
/// action order, whose destination reward is highest.
pub open spec fn greedy_choice(cfg: Config, m: StateModel) -> usize {
    legal_seq(cfg, m)[choose|i: int| is_greedy_at(cfg, m, i)]
}

/// The first best index is unique.
pub proof fn lemma_greedy_unique(cfg: Config, m: StateModel, i: int, j: int)
    requires
        is_greedy_at(cfg, m, i),
        is_greedy_at(cfg, m, j),
    ensures
        i == j,
{
    let q = legal_seq(cfg, m);
    if i < j {
        assert(action_gain(cfg, m, q[i]) < action_gain(cfg, m, q[j]));
    }
    if j < i {
        assert(action_gain(cfg, m, q[j]) < action_gain(cfg, m, q[i]));
    }
}

/// Total reward still on the grid.
pub open spec fn grid_sum(g: Seq<u64>) -> int
    decreases g.len(),
{
    if g.len() == 0 {
        0
    } else {
        g[0] + grid_sum(g.drop_first())
    }
}

pub proof fn lemma_grid_sum_nonneg(g: Seq<u64>)
    ensures
        grid_sum(g) >= 0,
    decreases g.len(),
{
    if g.len() > 0 {
        lemma_grid_sum_nonneg(g.drop_first());
    }
}

pub proof fn lemma_grid_sum_update(g: Seq<u64>, i: int, v: u64)
    requires
        0 <= i < g.len(),
    ensures
        grid_sum(g.update(i, v)) == grid_sum(g) - g[i] + v,
    decreases g.len(),
{
    if i == 0 {
        assert(g.update(0, v).drop_first() =~= g.drop_first());
    } else {
        lemma_grid_sum_update(g.drop_first(), i - 1, v);
        assert(g.update(i, v).drop_first() =~= g.drop_first().update(i - 1, v));
        assert(g.update(i, v)[0] == g[0]);
    }
}

/// Grid shape and agent position are sound; the part of `model_wf` that one
/// transition preserves with no condition on the turn count.
pub open spec fn pos_wf(cfg: Config, m: StateModel) -> bool {
    &&& m.points.len() == cfg.h * cfg.w
    &&& m.y < cfg.h
    &&& m.x < cfg.w
}

/// The destination cell of a legal action indexes into the grid.
pub proof fn lemma_dest_in_range(cfg: Config, m: StateModel, a: usize)
    requires
        pos_wf(cfg, m),
        action_legal(cfg, m, a),
    ensures
        0 <= dest_cell(cfg, m, a) < m.points.len(),
{
    let ny = m.y + dy_of(a);
    let nx = m.x + dx_of(a);
    assert(0 <= ny * cfg.w + nx < cfg.h * cfg.w) by (nonlinear_arith)
        requires
            0 <= ny < cfg.h,
            0 <= nx < cfg.w,
    ;
}

/// One transition never loses score, and moves value only from the grid to
/// the score: their total is conserved. A cell is zeroed as it is collected,
/// so no reward can be counted twice.
pub proof fn lemma_advance_conserves(cfg: Config, pre: StateModel, a: usize, post: StateModel)
    requires
        pos_wf(cfg, pre),
        action_legal(cfg, pre, a),
        advance_post(cfg, pre, a, post),
    ensures
        pos_wf(cfg, post),
        post.game_score >= pre.game_score,
        post.game_score + grid_sum(post.points) == pre.game_score + grid_sum(pre.points),
{
    let d = dest_cell(cfg, pre, a);
    lemma_dest_in_range(cfg, pre, a);
    lemma_grid_sum_update(pre.points, d, 0u64);
}

/// One transition is a function of the state and the action: two runs that
/// take equal actions from equal states stay equal, so a policy that picks
/// the same action at every turn reproduces the whole trajectory.
pub proof fn lemma_advance_deterministic(
    cfg: Config,
    pre: StateModel,
    a: usize,
    post1: StateModel,
    post2: StateModel,
)
    requires
        advance_post(cfg, pre, a, post1),
        advance_post(cfg, pre, a, post2),
    ensures
        post1 == post2,
{
}

/// Two states related by one legal transition.
pub open spec fn advance_step(cfg: Config, a: StateModel, b: StateModel) -> bool {
    exists|act: usize| action_legal(cfg, a, act) && advance_post(cfg, a, act, b)
}

/// One transition on the game-relevant fields alone: as `advance_post`, but
/// with the ranking key and the first-action tag unconstrained. A search
/// refreshes the key and retags stored states, so its stored states step by
/// this relation.
pub open spec fn advance_core(cfg: Config, pre: StateModel, a: usize, post: StateModel) -> bool {
    let d = dest_cell(cfg, pre, a);
    &&& post.turn == pre.turn + 1
    &&& post.y == pre.y + dy_of(a)
    &&& post.x == pre.x + dx_of(a)
    &&& post.game_score == pre.game_score + pre.points[d]
    &&& post.points == pre.points.update(d, 0u64)
}

/// Two states related by one legal transition of the game-relevant fields.
pub open spec fn step_core(cfg: Config, a: StateModel, b: StateModel) -> bool {
    exists|act: usize| action_legal(cfg, a, act) && advance_core(cfg, a, act, b)
}

/// `to` is reachable from `from` by a chain of `k` legal transitions whose
/// first transition takes action `a`: a `k`-step plan that starts with `a`.
pub open spec fn plan_starts(cfg: Config, from: StateModel, a: usize, to: StateModel, k: nat) -> bool
    decreases k,
{
    if k == 0 {
        false
    } else if k == 1 {
        action_legal(cfg, from, a) && advance_core(cfg, from, a, to)
    } else {
        exists|mid: StateModel| plan_starts(cfg, from, a, mid, (k - 1) as nat) && step_core(
            cfg,
            mid,
            to,
        )
    }
}

/// Some state is reachable by a `k`-step plan starting with action `a`.
pub open spec fn has_plan(cfg: Config, from: StateModel, a: usize, k: nat) -> bool {
    exists|to: StateModel| plan_starts(cfg, from, a, to, k)
}

/// The first action of a plan is legal at the plan's start.
pub proof fn lemma_plan_starts_legal(cfg: Config, from: StateModel, a: usize, to: StateModel, k: nat)
    requires
        plan_starts(cfg, from, a, to, k),
    ensures
        action_legal(cfg, from, a),
    decreases k,
{
    if k > 1 {
        let mid = choose|mid: StateModel|
            plan_starts(cfg, from, a, mid, (k - 1) as nat) && step_core(cfg, mid, to);
        lemma_plan_starts_legal(cfg, from, a, mid, (k - 1) as nat);
    }
}

/// A plan grows by one legal transition at its far end.
pub proof fn lemma_plan_starts_extend(
    cfg: Config,
    from: StateModel,
    a: usize,
    mid: StateModel,
    k: nat,
    act: usize,
    to: StateModel,
)
    requires
        plan_starts(cfg, from, a, mid, k),
        action_legal(cfg, mid, act),
        advance_core(cfg, mid, act, to),
    ensures
        plan_starts(cfg, from, a, to, k + 1),
{
    assert(step_core(cfg, mid, to));
}

/// Every legal action from a well-formed non-terminal state has a one-step
/// plan: the transition's result exists as a state model.
pub proof fn lemma_step_exists(cfg: Config, m: StateModel, a: usize)
    requires
        cfg.wf(),
        model_wf(cfg, m),
        action_legal(cfg, m, a),
        m.turn < cfg.end_turn,
    ensures
        has_plan(cfg, m, a, 1),
{
    let d = dest_cell(cfg, m, a);
    let to = StateModel {
        points: m.points.update(d, 0u64),
        turn: (m.turn + 1) as usize,
        y: (m.y + dy_of(a)) as usize,
        x: (m.x + dx_of(a)) as usize,
        game_score: (m.game_score + m.points[d]) as u64,
        evaluated_score: m.evaluated_score,
        first_action: m.first_action,
    };
    lemma_dest_in_range(cfg, m, a);
    assert(advance_core(cfg, m, a, to));
    assert(plan_starts(cfg, m, a, to, 1));
}

/// A full episode: a chain of legal transitions from a fresh initial state
/// (turn and score zero) to a terminal state whose score is `score`.
pub open spec fn episode_playout(cfg: Config, ss: Seq<StateModel>, score: u64) -> bool {
    &&& ss.len() >= 1
    &&& model_wf(cfg, ss[0])
    &&& ss[0].turn == 0
    &&& ss[0].game_score == 0
    &&& forall|i: int| 0 <= i < ss.len() - 1 ==> #[trigger] step_core(cfg, ss[i], ss[i + 1])
    &&& done(cfg, ss.last())
    &&& ss.last().game_score == score
}

/// Along any chain of transitions from a common ancestor, score gained
/// equals reward removed from the grid, so the final score never exceeds
/// the ancestor's score plus the reward the ancestor's grid held: each
/// cell's reward is collected at most once.
pub proof fn lemma_rewards_collected_once(cfg: Config, ss: Seq<StateModel>)
    requires
        ss.len() >= 1,
        pos_wf(cfg, ss[0]),
        forall|i: int| 0 <= i < ss.len() - 1 ==> #[trigger] advance_step(cfg, ss[i], ss[i + 1]),
    ensures
        ss.last().game_score + grid_sum(ss.last().points) == ss[0].game_score + grid_sum(
            ss[0].points,
        ),
        ss[0].game_score <= ss.last().game_score,
        ss.last().game_score <= ss[0].game_score + grid_sum(ss[0].points),
    decreases ss.len(),
{
    lemma_grid_sum_nonneg(ss.last().points);
    if ss.len() == 1 {
    } else {
        let k: int = 0;
        assert(advance_step(cfg, ss[k], ss[k + 1]));
        let act = choose|act: usize| action_legal(cfg, ss[0], act) && advance_post(
            cfg,
            ss[0],
            act,
            ss[1],
        );
        lemma_advance_conserves(cfg, ss[0], act, ss[1]);
        let tail = ss.drop_first();
        assert forall|i: int| 0 <= i < tail.len() - 1 implies #[trigger] advance_step(
            cfg,
            tail[i],
            tail[i + 1],
        ) by {
            let j = i + 1;
            assert(advance_step(cfg, ss[j], ss[j + 1]));
            assert(tail[i] == ss[j] && tail[i + 1] == ss[j + 1]);
        }
        lemma_rewards_collected_once(cfg, tail);
        assert(ss.last() == tail.last());
    }
}

/// Under a usable configuration, every in-bounds position has a legal move.
pub proof fn lemma_legal_actions_nonempty(cfg: Config, m: StateModel)
    requires
        cfg.wf(),
        m.y < cfg.h,
        m.x < cfg.w,
    ensures
        legal_seq(cfg, m).len() >= 1,
{
    assert(cfg.h >= 2 || cfg.w >= 2) by (nonlinear_arith)
        requires
            cfg.h * cfg.w >= 2,
            cfg.h >= 1,
            cfg.w >= 1,
    ;
    if cfg.w >= 2 {
        if m.x + 1 < cfg.w {
            assert(action_legal(cfg, m, 0));
        } else {
            assert(action_legal(cfg, m, 1));
        }
    } else {
        if m.y + 1 < cfg.h {
            assert(action_legal(cfg, m, 2));
        } else {
            assert(action_legal(cfg, m, 3));
        }
    }
    lemma_legal_seq_sound(cfg, m);
}

} // verus!
