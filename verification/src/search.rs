//! The search policies: random, one-ply greedy, fixed and time-boxed beam
//! search, and fixed and time-boxed multi-level ("chokudai") beam search.
//!
//! Every policy promises to return an action that is legal from the state
//! it was asked about, for every outcome of the wall clock, and witnessed
//! by a plan: a chain of legal transitions from that state whose first
//! transition takes the returned action. Fixed beam search with width one
//! additionally promises the greedy choice, as does one round of one-level
//! chokudai search.

use vstd::prelude::*;

use crate::frontier::{is_first_max, lemma_first_max_unique, Beam};
use crate::model::{
    action_gain, action_legal, advance_core, done, episode_playout, greedy_choice, has_plan,
    is_greedy_at, legal_seq, lemma_greedy_unique, lemma_legal_seq_sound, lemma_plan_starts_extend,
    lemma_plan_starts_legal, lemma_step_exists, model_wf, plan_starts, step_core, Config,
    StateModel,
};
use crate::rng::rng_next_u64;
use crate::state::MazeState;
use crate::timer::TimeKeeper;

verus! {

/// Picks uniformly among the legal actions, driven by the supplied stream.
pub fn random_action(cfg: &Config, state: &MazeState, rng: &mut rand_chacha::ChaCha12Rng) -> (r:
    usize)
    requires
        cfg.wf(),
        model_wf(*cfg, state@),
    ensures
        action_legal(*cfg, state@, r),
{
    let actions = state.legal_actions(cfg);
    proof {
        lemma_legal_seq_sound(*cfg, state@);
    }
    let v = rng_next_u64(rng);
    let i = (v % (actions.len() as u64)) as usize;
    actions[i]
}

/// One-ply greedy lookahead by expansion: clones the state once per legal
/// action, plays the action, and keeps the first strictly best result.
pub fn greedy_action(cfg: &Config, state: &MazeState) -> (r: usize)
    requires
        cfg.wf(),
        model_wf(*cfg, state@),
        state@.turn < cfg.end_turn,
    ensures
        r == greedy_choice(*cfg, state@),
        action_legal(*cfg, state@, r),
{
    let actions = state.legal_actions(cfg);
    proof {
        lemma_legal_seq_sound(*cfg, state@);
    }
    let ghost q = legal_seq(*cfg, state@);
    let ghost m = state@;
    let mut best_i: usize = 0;
    let mut first_state = state.clone_state();
    first_state.advance(cfg, actions[0]);
    first_state.evaluate_score();
    let mut highest: u64 = first_state.evaluated_score;
    let mut k: usize = 1;
    while k < actions.len()
        invariant
            cfg.wf(),
            model_wf(*cfg, m),
            m.turn < cfg.end_turn,
            m == state@,
            actions@ == q,
            q == legal_seq(*cfg, m),
            1 <= k <= q.len(),
            best_i < k,
            highest == m.game_score + action_gain(*cfg, m, q[best_i as int]),
            forall|j: int|
                0 <= j < k ==> action_gain(*cfg, m, q[j]) <= action_gain(
                    *cfg,
                    m,
                    q[best_i as int],
                ),
            forall|j: int|
                0 <= j < best_i ==> action_gain(*cfg, m, q[j]) < action_gain(
                    *cfg,
                    m,
                    q[best_i as int],
                ),
        decreases q.len() - k,
    {
        proof {
            lemma_legal_seq_sound(*cfg, m);
        }
        let mut next_state = state.clone_state();
        next_state.advance(cfg, actions[k]);
        next_state.evaluate_score();
        if highest < next_state.evaluated_score {
            highest = next_state.evaluated_score;
            best_i = k;
        }
        k = k + 1;
    }
    proof {
        assert(is_greedy_at(*cfg, m, best_i as int));
        let i0 = choose|i: int| is_greedy_at(*cfg, m, i);
        lemma_greedy_unique(*cfg, m, best_i as int, i0);
    }
    actions[best_i]
}

/// The frontier holds exactly the children of `root`, in legal-action
/// order, each evaluated and tagged with the action that produced it.
pub open spec fn root_children(cfg: Config, root: StateModel, cs: Seq<MazeState>) -> bool {
    let q = legal_seq(cfg, root);
    &&& cs.len() == q.len()
    &&& forall|k: int| 0 <= k < cs.len() ==> (#[trigger] cs[k]@).first_action == q[k]
    &&& forall|k: int|
        0 <= k < cs.len() ==> (#[trigger] cs[k]@).evaluated_score == root.game_score
            + action_gain(cfg, root, q[k])
}

/// Among the children of `root`, the first highest-ranked one carries the
/// greedy action: ranking children by score is greedy lookahead.
pub proof fn lemma_root_children_best(cfg: Config, root: StateModel, cs: Seq<MazeState>, i: int)
    requires
        root_children(cfg, root, cs),
        is_first_max(cs, i),
    ensures
        cs[i]@.first_action == greedy_choice(cfg, root),
{
    let q = legal_seq(cfg, root);
    assert forall|j: int| 0 <= j < q.len() implies action_gain(cfg, root, q[j]) <= action_gain(
        cfg,
        root,
        q[i],
    ) by {
        assert(cs[j]@.evaluated_score <= cs[i]@.evaluated_score);
    }
    assert forall|j: int| 0 <= j < i implies action_gain(cfg, root, q[j]) < action_gain(
        cfg,
        root,
        q[i],
    ) by {
        assert(cs[j]@.evaluated_score < cs[i]@.evaluated_score);
    }
    assert(is_greedy_at(cfg, root, i));
    let i0 = choose|j: int| is_greedy_at(cfg, root, j);
    lemma_greedy_unique(cfg, root, i, i0);
}

/// Clones `parent`, plays `action`, refreshes the ranking key, and, at the
/// root level of a search, tags the child with the action taken.
fn make_child(cfg: &Config, parent: &MazeState, action: usize, tag: bool) -> (c: MazeState)
    requires
        cfg.wf(),
        model_wf(*cfg, parent@),
        action_legal(*cfg, parent@, action),
        parent@.turn < cfg.end_turn,
    ensures
        model_wf(*cfg, c@),
        advance_core(*cfg, parent@, action, c@),
        c@.turn == parent@.turn + 1,
        c@.game_score == parent@.game_score + action_gain(*cfg, parent@, action),
        c@.evaluated_score == c@.game_score,
        c@.first_action == if tag {
            action
        } else {
            parent@.first_action
        },
{
    let mut c = parent.clone_state();
    c.advance(cfg, action);
    c.evaluate_score();
    if tag {
        c.first_action = action;
    }
    c
}

/// Fixed-width, fixed-depth beam search. Returns the first-action tag of
/// the best state in the deepest completed level; with a beam one state
/// wide this is exactly the greedy policy's choice.
#[verifier::loop_isolation(false)]
#[verifier::rlimit(100)]
pub fn beam_search_action(
    cfg: &Config,
    state: &MazeState,
    beam_width: usize,
    beam_depth: usize,
) -> (r: usize)
    requires
        cfg.wf(),
        model_wf(*cfg, state@),
        state@.turn < cfg.end_turn,
        beam_width >= 1,
        beam_depth >= 1,
    ensures
        action_legal(*cfg, state@, r),
        beam_width == 1 ==> r == greedy_choice(*cfg, state@),
        exists|k: nat|
            1 <= k <= beam_depth && state@.turn + k <= cfg.end_turn && has_plan(
                *cfg,
                state@,
                r,
                k,
            ),
{
    let ghost root = state@;
    let mut now_beam = Beam::new();
    now_beam.push(state.clone_state());
    let mut t: usize = 0;
    let mut finished = false;
    while t < beam_depth && !finished
        invariant
            finished ==> t >= 1,
            !finished ==> root.turn + t < cfg.end_turn,
            t <= beam_depth,
            now_beam@.len() >= 1,
            forall|i: int| 0 <= i < now_beam@.len() ==> model_wf(*cfg, (#[trigger] now_beam@[i])@),
            forall|i: int|
                0 <= i < now_beam@.len() ==> (#[trigger] now_beam@[i])@.turn == root.turn + t,
            t >= 1 ==> forall|i: int|
                0 <= i < now_beam@.len() ==> plan_starts(
                    *cfg,
                    root,
                    (#[trigger] now_beam@[i])@.first_action,
                    now_beam@[i]@,
                    t as nat,
                ),
            t == 0 ==> now_beam@.len() == 1 && now_beam@[0]@ == root,
            t >= 1 ==> forall|i: int|
                0 <= i < now_beam@.len() ==> action_legal(
                    *cfg,
                    root,
                    (#[trigger] now_beam@[i])@.first_action,
                ),
            t == 1 ==> root_children(*cfg, root, now_beam@),
            beam_width == 1 && t >= 2 ==> forall|i: int|
                0 <= i < now_beam@.len() ==> (#[trigger] now_beam@[i])@.first_action
                    == greedy_choice(*cfg, root),
        decreases beam_depth - t,
    {
        let mut next_beam = Beam::new();
        let mut w: usize = 0;
        while w < beam_width && now_beam.len() > 0
            invariant
                w <= beam_width,
                w == 0 ==> now_beam@.len() >= 1,
                t == 0 ==> now_beam@.len() + w == 1,
                forall|i: int|
                    0 <= i < now_beam@.len() ==> model_wf(*cfg, (#[trigger] now_beam@[i])@),
                forall|i: int|
                    0 <= i < now_beam@.len() ==> (#[trigger] now_beam@[i])@.turn == root.turn + t,
                t >= 1 ==> forall|i: int|
                    0 <= i < now_beam@.len() ==> plan_starts(
                        *cfg,
                        root,
                        (#[trigger] now_beam@[i])@.first_action,
                        now_beam@[i]@,
                        t as nat,
                    ),
                t == 0 && w == 0 ==> now_beam@[0]@ == root,
                t >= 1 ==> forall|i: int|
                    0 <= i < now_beam@.len() ==> action_legal(
                        *cfg,
                        root,
                        (#[trigger] now_beam@[i])@.first_action,
                    ),
                t == 1 && w == 0 ==> root_children(*cfg, root, now_beam@),
                beam_width == 1 && t >= 2 ==> forall|i: int|
                    0 <= i < now_beam@.len() ==> (#[trigger] now_beam@[i])@.first_action
                        == greedy_choice(*cfg, root),
                next_beam@.len() >= w,
                forall|i: int|
                    0 <= i < next_beam@.len() ==> model_wf(*cfg, (#[trigger] next_beam@[i])@),
                forall|i: int|
                    0 <= i < next_beam@.len() ==> (#[trigger] next_beam@[i])@.turn == root.turn + t
                        + 1,
                forall|i: int|
                    0 <= i < next_beam@.len() ==> plan_starts(
                        *cfg,
                        root,
                        (#[trigger] next_beam@[i])@.first_action,
                        next_beam@[i]@,
                        (t + 1) as nat,
                    ),
                forall|i: int|
                    0 <= i < next_beam@.len() ==> action_legal(
                        *cfg,
                        root,
                        (#[trigger] next_beam@[i])@.first_action,
                    ),
                t == 0 && w == 0 ==> next_beam@.len() == 0,
                t == 0 && w == 1 ==> root_children(*cfg, root, next_beam@),
                beam_width == 1 && t >= 1 ==> forall|i: int|
                    0 <= i < next_beam@.len() ==> (#[trigger] next_beam@[i])@.first_action
                        == greedy_choice(*cfg, root),
            decreases beam_width - w,
        {
            let ghost prev = now_beam@;
            let now_state = now_beam.pop_best();
            proof {
                let pi = choose|i: int|
                    is_first_max(prev, i) && now_state == prev[i] && now_beam@ == prev.remove(i);
                if t == 1 && w == 0 {
                    lemma_root_children_best(*cfg, root, prev, pi);
                }
                assert forall|i2: int| 0 <= i2 < now_beam@.len() implies now_beam@[i2] == prev[
                    if i2 < pi {
                        i2
                    } else {
                        i2 + 1
                    }
                ] by {}
            }
            let actions = now_state.legal_actions(cfg);
            proof {
                lemma_legal_seq_sound(*cfg, now_state@);
            }
            let ghost qn = legal_seq(*cfg, now_state@);
            let ghost base = next_beam@;
            let mut k: usize = 0;
            while k < actions.len()
                invariant
                    k <= qn.len(),
                    actions@ == qn,
                    qn == legal_seq(*cfg, now_state@),
                    model_wf(*cfg, now_state@),
                    now_state@.turn == root.turn + t,
                    t >= 1 ==> action_legal(*cfg, root, now_state@.first_action),
                    next_beam@.len() == base.len() + k,
                    forall|i: int| 0 <= i < base.len() ==> (#[trigger] next_beam@[i]) == base[i],
                    forall|i: int|
                        base.len() <= i < next_beam@.len() ==> model_wf(
                            *cfg,
                            (#[trigger] next_beam@[i])@,
                        ),
                    forall|i: int|
                        base.len() <= i < next_beam@.len() ==> (#[trigger] next_beam@[i])@.turn
                            == root.turn + t + 1,
                    forall|i: int|
                        base.len() <= i < next_beam@.len() ==> plan_starts(
                            *cfg,
                            root,
                            (#[trigger] next_beam@[i])@.first_action,
                            next_beam@[i]@,
                            (t + 1) as nat,
                        ),
                    forall|i: int|
                        base.len() <= i < next_beam@.len() ==> (#[trigger] next_beam@[i])@.first_action
                            == if t == 0 {
                            qn[i - base.len()]
                        } else {
                            now_state@.first_action
                        },
                    forall|i: int|
                        base.len() <= i < next_beam@.len() ==> (
                        #[trigger] next_beam@[i])@.evaluated_score == now_state@.game_score
                            + action_gain(*cfg, now_state@, qn[i - base.len()]),
                decreases qn.len() - k,
            {
                proof {
                    lemma_legal_seq_sound(*cfg, now_state@);
                }
                let child = make_child(cfg, &now_state, actions[k], t == 0);
                proof {
                    if t == 0 {
                        assert(plan_starts(*cfg, root, actions@[k as int], child@, (t + 1) as nat));
                    } else {
                        lemma_plan_starts_extend(
                            *cfg,
                            root,
                            now_state@.first_action,
                            now_state@,
                            t as nat,
                            actions@[k as int],
                            child@,
                        );
                    }
                }
                next_beam.push(child);
                k = k + 1;
            }
            proof {
                if t == 0 {
                    lemma_legal_seq_sound(*cfg, root);
                }
            }
            w = w + 1;
        }
        proof {
            assert(w >= 1);
        }
        now_beam = next_beam;
        t = t + 1;
        finished = now_beam.peek_best().is_done(cfg);
        proof {
            if !finished {
                let i = choose|i: int|
                    is_first_max(now_beam@, i) && now_beam@[i]@.turn == root.turn + t;
                assert(root.turn + t < cfg.end_turn);
            }
        }
    }
    proof {
        assert(t >= 1);
    }
    let best = now_beam.peek_best();
    let r = best.first_action;
    proof {
        let i = choose|i: int| is_first_max(now_beam@, i) && *best == now_beam@[i];
        if beam_width == 1 && t == 1 {
            lemma_root_children_best(*cfg, root, now_beam@, i);
        }
        assert(plan_starts(*cfg, root, r, now_beam@[i]@, t as nat));
        assert(has_plan(*cfg, root, r, t as nat));
    }
    r
}

/// Time-boxed beam search: expansion as in `beam_search_action`, but the
/// depth loop runs until the deadline or until the best state is terminal.
/// If the deadline expires before any level has completed, falls back to
/// one ply of greedy evaluation instead of failing.
#[verifier::loop_isolation(false)]
#[verifier::rlimit(100)]
pub fn beam_search_action_with_time_threshold(
    cfg: &Config,
    state: &MazeState,
    beam_width: usize,
    time_threshold: u128,
) -> (r: usize)
    requires
        cfg.wf(),
        model_wf(*cfg, state@),
        state@.turn < cfg.end_turn,
        beam_width >= 1,
    ensures
        action_legal(*cfg, state@, r),
        exists|k: nat|
            1 <= k && state@.turn + k <= cfg.end_turn && has_plan(*cfg, state@, r, k),
{
    let time_keeper = TimeKeeper::new(time_threshold);
    let ghost root = state@;
    let mut now_beam = Beam::new();
    now_beam.push(state.clone_state());
    let mut t: usize = 0;
    let mut finished = false;
    let mut have_answer = false;
    let mut best_action: usize = 0;
    while !finished
        invariant
            !finished ==> root.turn + t < cfg.end_turn,
            have_answer ==> action_legal(*cfg, root, best_action),
            have_answer ==> exists|k: nat|
                1 <= k && root.turn + k <= cfg.end_turn && has_plan(*cfg, root, best_action, k),
            finished ==> have_answer,
            now_beam@.len() >= 1,
            forall|i: int| 0 <= i < now_beam@.len() ==> model_wf(*cfg, (#[trigger] now_beam@[i])@),
            forall|i: int|
                0 <= i < now_beam@.len() ==> (#[trigger] now_beam@[i])@.turn == root.turn + t,
            t >= 1 ==> forall|i: int|
                0 <= i < now_beam@.len() ==> plan_starts(
                    *cfg,
                    root,
                    (#[trigger] now_beam@[i])@.first_action,
                    now_beam@[i]@,
                    t as nat,
                ),
            t == 0 ==> now_beam@.len() == 1 && now_beam@[0]@ == root,
            t >= 1 ==> forall|i: int|
                0 <= i < now_beam@.len() ==> action_legal(
                    *cfg,
                    root,
                    (#[trigger] now_beam@[i])@.first_action,
                ),
        decreases cfg.end_turn - root.turn - t,
    {
        let mut next_beam = Beam::new();
        let mut w: usize = 0;
        while w < beam_width && now_beam.len() > 0
            invariant
                w <= beam_width,
                w == 0 ==> now_beam@.len() >= 1,
                t == 0 ==> now_beam@.len() + w == 1,
                forall|i: int|
                    0 <= i < now_beam@.len() ==> model_wf(*cfg, (#[trigger] now_beam@[i])@),
                forall|i: int|
                    0 <= i < now_beam@.len() ==> (#[trigger] now_beam@[i])@.turn == root.turn + t,
                t >= 1 ==> forall|i: int|
                    0 <= i < now_beam@.len() ==> plan_starts(
                        *cfg,
                        root,
                        (#[trigger] now_beam@[i])@.first_action,
                        now_beam@[i]@,
                        t as nat,
                    ),
                t == 0 && w == 0 ==> now_beam@[0]@ == root,
                t >= 1 ==> forall|i: int|
                    0 <= i < now_beam@.len() ==> action_legal(
                        *cfg,
                        root,
                        (#[trigger] now_beam@[i])@.first_action,
                    ),
                next_beam@.len() >= w,
                forall|i: int|
                    0 <= i < next_beam@.len() ==> model_wf(*cfg, (#[trigger] next_beam@[i])@),
                forall|i: int|
                    0 <= i < next_beam@.len() ==> (#[trigger] next_beam@[i])@.turn == root.turn + t
                        + 1,
                forall|i: int|
                    0 <= i < next_beam@.len() ==> plan_starts(
                        *cfg,
                        root,
                        (#[trigger] next_beam@[i])@.first_action,
                        next_beam@[i]@,
                        (t + 1) as nat,
                    ),
                forall|i: int|
                    0 <= i < next_beam@.len() ==> action_legal(
                        *cfg,
                        root,
                        (#[trigger] next_beam@[i])@.first_action,
                    ),
            decreases beam_width - w,
        {
            if time_keeper.is_over() {
                if have_answer {
                    return best_action;
                } else {
                    let g = greedy_action(cfg, state);
                    proof {
                        lemma_step_exists(*cfg, root, g);
                    }
                    return g;
                }
            }
            let ghost prev = now_beam@;
            let now_state = now_beam.pop_best();
            proof {
                let pi = choose|i: int|
                    is_first_max(prev, i) && now_state == prev[i] && now_beam@ == prev.remove(i);
                assert forall|i2: int| 0 <= i2 < now_beam@.len() implies now_beam@[i2] == prev[
                    if i2 < pi {
                        i2
                    } else {
                        i2 + 1
                    }
                ] by {}
            }
            let actions = now_state.legal_actions(cfg);
            proof {
                lemma_legal_seq_sound(*cfg, now_state@);
            }
            let ghost qn = legal_seq(*cfg, now_state@);
            let ghost base = next_beam@;
            let mut k: usize = 0;
            while k < actions.len()
                invariant
                    k <= qn.len(),
                    actions@ == qn,
                    qn == legal_seq(*cfg, now_state@),
                    model_wf(*cfg, now_state@),
                    now_state@.turn == root.turn + t,
                    t >= 1 ==> action_legal(*cfg, root, now_state@.first_action),
                    next_beam@.len() == base.len() + k,
                    forall|i: int| 0 <= i < base.len() ==> (#[trigger] next_beam@[i]) == base[i],
                    forall|i: int|
                        base.len() <= i < next_beam@.len() ==> model_wf(
                            *cfg,
                            (#[trigger] next_beam@[i])@,
                        ),
                    forall|i: int|
                        base.len() <= i < next_beam@.len() ==> (#[trigger] next_beam@[i])@.turn
                            == root.turn + t + 1,
                    forall|i: int|
                        base.len() <= i < next_beam@.len() ==> plan_starts(
                            *cfg,
                            root,
                            (#[trigger] next_beam@[i])@.first_action,
                            next_beam@[i]@,
                            (t + 1) as nat,
                        ),
                    forall|i: int|
                        base.len() <= i < next_beam@.len() ==> (
                        #[trigger] next_beam@[i])@.first_action == if t == 0 {
                            qn[i - base.len()]
                        } else {
                            now_state@.first_action
                        },
                decreases qn.len() - k,
            {
                proof {
                    lemma_legal_seq_sound(*cfg, now_state@);
                }
                let child = make_child(cfg, &now_state, actions[k], t == 0);
                proof {
                    if t == 0 {
                        assert(plan_starts(*cfg, root, actions@[k as int], child@, (t + 1) as nat));
                    } else {
                        lemma_plan_starts_extend(
                            *cfg,
                            root,
                            now_state@.first_action,
                            now_state@,
                            t as nat,
                            actions@[k as int],
                            child@,
                        );
                    }
                }
                next_beam.push(child);
                k = k + 1;
            }
            proof {
                if t == 0 {
                    lemma_legal_seq_sound(*cfg, root);
                }
            }
            w = w + 1;
        }
        proof {
            assert(w >= 1);
        }
        now_beam = next_beam;
        t = t + 1;
        let best = now_beam.peek_best();
        best_action = best.first_action;
        have_answer = true;
        finished = best.is_done(cfg);
        proof {
            let i = choose|i: int| is_first_max(now_beam@, i) && *best == now_beam@[i];
            assert(plan_starts(*cfg, root, best_action, now_beam@[i]@, t as nat));
            assert(has_plan(*cfg, root, best_action, t as nat));
            if !finished {
                assert(root.turn + t < cfg.end_turn);
            }
        }
    }
    best_action
}

/// The invariant of the chokudai frontiers: every held state is
/// well-formed; every state below the root level carries a first-action
/// tag legal at `root`; and level 0 — seeded once with the root and never
/// refilled — holds nothing but the root.
pub open spec fn beams_inv(cfg: Config, root: StateModel, bs: Seq<Beam>) -> bool {
    &&& forall|k: int, i: int|
        0 <= k < bs.len() && 0 <= i < bs[k]@.len() ==> model_wf(cfg, (#[trigger] bs[k]@[i])@)
    &&& forall|k: int, i: int|
        1 <= k < bs.len() && 0 <= i < bs[k]@.len() ==> action_legal(
            cfg,
            root,
            (#[trigger] bs[k]@[i])@.first_action,
        )
    &&& forall|k: int, i: int|
        1 <= k < bs.len() && 0 <= i < bs[k]@.len() ==> plan_starts(
            cfg,
            root,
            (#[trigger] bs[k]@[i])@.first_action,
            bs[k]@[i]@,
            k as nat,
        )
    &&& forall|i: int| 0 <= i < bs[0]@.len() ==> (#[trigger] bs[0]@[i])@ == root
}

/// Some frontier below the root level holds a state: the answer scan will
/// find one whose first-action tag is legal.
pub open spec fn has_candidate(bs: Seq<Beam>) -> bool {
    exists|k: int| 1 <= k < bs.len() && bs[k]@.len() >= 1
}

/// Removes the highest-ranked state of frontier `t`, leaving the other
/// frontiers unchanged.
fn pop_best_at(beams: &mut Vec<Beam>, t: usize) -> (r: MazeState)
    requires
        t < old(beams)@.len(),
        old(beams)@[t as int]@.len() > 0,
    ensures
        final(beams)@.len() == old(beams)@.len(),
        forall|j: int|
            0 <= j < final(beams)@.len() && j != t ==> final(beams)@[j] == old(beams)@[j],
        exists|i: int|
            is_first_max(old(beams)@[t as int]@, i) && r == old(beams)@[t as int]@[i]
                && final(beams)@[t as int]@ == old(beams)@[t as int]@.remove(i),
{
    let mut b = beams.remove(t);
    let r = b.pop_best();
    beams.insert(t, b);
    r
}

/// Inserts a state into frontier `t`, leaving the other frontiers
/// unchanged.
fn push_at(beams: &mut Vec<Beam>, t: usize, s: MazeState)
    requires
        t < old(beams)@.len(),
    ensures
        final(beams)@.len() == old(beams)@.len(),
        forall|j: int|
            0 <= j < final(beams)@.len() && j != t ==> final(beams)@[j] == old(beams)@[j],
        final(beams)@[t as int]@ == old(beams)@[t as int]@.push(s),
{
    let mut b = beams.remove(t);
    b.push(s);
    beams.insert(t, b);
}

/// One chokudai round: for each level in increasing order, expands up to
/// `beam_width` best states of that level's frontier into the next one,
/// stopping a level early on an empty frontier or a terminal best state.
/// After any round, some frontier below the root level holds a state.
#[verifier::loop_isolation(false)]
#[verifier::rlimit(100)]
fn chokudai_round(
    cfg: &Config,
    beams: &mut Vec<Beam>,
    beam_width: usize,
    beam_depth: usize,
    first_round: bool,
    Ghost(root): Ghost<StateModel>,
)
    requires
        cfg.wf(),
        model_wf(*cfg, root),
        root.turn < cfg.end_turn,
        beam_width >= 1,
        beam_depth >= 1,
        old(beams)@.len() == beam_depth + 1,
        beams_inv(*cfg, root, old(beams)@),
        !first_round ==> has_candidate(old(beams)@),
        first_round ==> old(beams)@[0]@.len() == 1,
        first_round && beam_depth == 1 ==> old(beams)@[1]@.len() == 0,
    ensures
        final(beams)@.len() == beam_depth + 1,
        beams_inv(*cfg, root, final(beams)@),
        has_candidate(final(beams)@),
        first_round && beam_depth == 1 ==> root_children(*cfg, root, final(beams)@[1]@),
{
    let mut t: usize = 0;
    while t < beam_depth
        invariant
            t <= beam_depth,
            beams@.len() == beam_depth + 1,
            beams_inv(*cfg, root, beams@),
            (!first_round || t >= 1) ==> has_candidate(beams@),
            (first_round && t == 0) ==> beams@[0]@.len() == 1,
            (first_round && beam_depth == 1 && t == 0) ==> beams@[1]@.len() == 0,
            (first_round && beam_depth == 1 && t == 1) ==> root_children(*cfg, root, beams@[1]@),
        decreases beam_depth - t,
    {
        let mut w: usize = 0;
        let mut level_done = false;
        while w < beam_width && !level_done
            invariant
                w <= beam_width,
                beams@.len() == beam_depth + 1,
                beams_inv(*cfg, root, beams@),
                (!first_round || t >= 1 || w >= 1 || level_done) ==> has_candidate(beams@),
                (first_round && t == 0 && w == 0 && !level_done) ==> beams@[0]@.len() == 1,
                (first_round && t == 0) ==> beams@[0]@.len() + w <= 1,
                (first_round && beam_depth == 1 && t == 0 && w == 0 && !level_done)
                    ==> beams@[1]@.len() == 0,
                (first_round && beam_depth == 1 && t == 0 && (w >= 1 || level_done))
                    ==> root_children(*cfg, root, beams@[1]@),
            decreases beam_width - w, !level_done as int,
        {
            if beams[t].len() == 0 {
                level_done = true;
            } else {
                let nb = beams[t].peek_best();
                let nb_done = nb.is_done(cfg);
                let ghost gbest = nb@;
                if nb_done {
                    proof {
                        if t == 0 {
                            let i = choose|i: int|
                                is_first_max(beams@[0]@, i) && gbest == beams@[0]@[i]@;
                            assert(false);
                        }
                    }
                    level_done = true;
                } else {
                    let ghost prev = beams@;
                    let now_state = pop_best_at(beams, t);
                    proof {
                        let i1 = choose|i: int|
                            is_first_max(prev[t as int]@, i) && gbest == prev[t as int]@[i]@;
                        let i2 = choose|i: int|
                            is_first_max(prev[t as int]@, i) && now_state == prev[t as int]@[i]
                                && beams@[t as int]@ == prev[t as int]@.remove(i);
                        lemma_first_max_unique(prev[t as int]@, i1, i2);
                        assert(now_state@ == gbest);
                        assert forall|i3: int|
                            0 <= i3 < beams@[t as int]@.len() implies beams@[t as int]@[i3]
                            == prev[t as int]@[
                            if i3 < i2 {
                                i3
                            } else {
                                i3 + 1
                            }
                        ] by {}
                    }
                    let actions = now_state.legal_actions(cfg);
                    proof {
                        lemma_legal_seq_sound(*cfg, now_state@);
                    }
                    let ghost qn = legal_seq(*cfg, now_state@);
                    let ghost base = beams@[t as int + 1]@;
                    let mut k: usize = 0;
                    while k < actions.len()
                        invariant
                            k <= qn.len(),
                            actions@ == qn,
                            qn == legal_seq(*cfg, now_state@),
                            model_wf(*cfg, now_state@),
                            now_state@.turn < cfg.end_turn,
                            t >= 1 ==> action_legal(*cfg, root, now_state@.first_action),
                            t == 0 ==> now_state@ == root,
                            beams@.len() == beam_depth + 1,
                            beams_inv(*cfg, root, beams@),
                            beams@[t as int + 1]@.len() == base.len() + k,
                            k >= 1 ==> beams@[t as int + 1]@.len() >= 1,
                            t >= 1 ==> plan_starts(
                                *cfg,
                                root,
                                now_state@.first_action,
                                now_state@,
                                t as nat,
                            ),
                            (first_round && t == 0) ==> beams@[0]@.len() == 0,
                            (first_round && beam_depth == 1 && t == 0) ==> base.len() == 0,
                            (first_round && beam_depth == 1 && t == 0) ==> forall|i: int|
                                0 <= i < beams@[t as int + 1]@.len() ==> (#[trigger] beams@[t
                                    as int + 1]@[i])@.first_action == qn[i] && beams@[t as int
                                    + 1]@[i]@.evaluated_score == root.game_score + action_gain(
                                    *cfg,
                                    root,
                                    qn[i],
                                ),
                        decreases qn.len() - k,
                    {
                        proof {
                            lemma_legal_seq_sound(*cfg, now_state@);
                            if t == 0 {
                                lemma_legal_seq_sound(*cfg, root);
                            }
                        }
                        let child = make_child(cfg, &now_state, actions[k], t == 0);
                        proof {
                            if t == 0 {
                                assert(plan_starts(
                                    *cfg,
                                    root,
                                    actions@[k as int],
                                    child@,
                                    (t + 1) as nat,
                                ));
                            } else {
                                lemma_plan_starts_extend(
                                    *cfg,
                                    root,
                                    now_state@.first_action,
                                    now_state@,
                                    t as nat,
                                    actions@[k as int],
                                    child@,
                                );
                            }
                        }
                        push_at(beams, t + 1, child);
                        k = k + 1;
                    }
                    proof {
                        assert(1 <= t + 1 < beams@.len() && beams@[t as int + 1]@.len() >= 1);
                        if first_round && beam_depth == 1 && t == 0 {
                            assert(root_children(*cfg, root, beams@[1]@));
                        }
                    }
                    w = w + 1;
                }
            }
        }
        t = t + 1;
    }
}

/// The chokudai answer: scanning from the deepest frontier down, the
/// first-action tag of the best state in the first non-empty frontier.
#[verifier::loop_isolation(false)]
fn select_answer(
    cfg: &Config,
    beams: &Vec<Beam>,
    beam_depth: usize,
    Ghost(root): Ghost<StateModel>,
) -> (r: usize)
    requires
        cfg.wf(),
        model_wf(*cfg, root),
        beams@.len() == beam_depth + 1,
        beam_depth >= 1,
        beams_inv(*cfg, root, beams@),
        has_candidate(beams@),
    ensures
        action_legal(*cfg, root, r),
        exists|k: nat| 1 <= k <= beam_depth && has_plan(*cfg, root, r, k),
        beam_depth == 1 && root_children(*cfg, root, beams@[1]@) ==> r == greedy_choice(
            *cfg,
            root,
        ),
{
    let mut k: usize = beam_depth;
    while k >= 1
        invariant
            k <= beam_depth,
            forall|j: int| k < j <= beam_depth ==> (#[trigger] beams@[j])@.len() == 0,
        decreases k,
    {
        if beams[k].len() > 0 {
            let b = beams[k].peek_best();
            let r = b.first_action;
            proof {
                let i = choose|i: int|
                    is_first_max(beams@[k as int]@, i) && *b == beams@[k as int]@[i];
                assert(plan_starts(*cfg, root, r, beams@[k as int]@[i]@, k as nat));
                assert(has_plan(*cfg, root, r, k as nat));
                if beam_depth == 1 && root_children(*cfg, root, beams@[1]@) {
                    lemma_root_children_best(*cfg, root, beams@[1]@, i);
                }
            }
            return r;
        }
        k = k - 1;
    }
    proof {
        let kk = choose|kk: int| 1 <= kk < beams@.len() && beams@[kk]@.len() >= 1;
        assert(false);
    }
    0
}

/// Multi-level anytime beam search, refined over `beam_num` rounds.
/// Always returns a legal action, however small the widths and depths.
#[verifier::loop_isolation(false)]
pub fn chokudai_search_action(
    cfg: &Config,
    state: &MazeState,
    beam_width: usize,
    beam_depth: usize,
    beam_num: usize,
) -> (r: usize)
    requires
        cfg.wf(),
        model_wf(*cfg, state@),
        state@.turn < cfg.end_turn,
        beam_width >= 1,
        beam_depth >= 1,
        beam_depth < usize::MAX,
        beam_num >= 1,
    ensures
        action_legal(*cfg, state@, r),
        exists|k: nat| 1 <= k <= beam_depth && has_plan(*cfg, state@, r, k),
        beam_num == 1 && beam_depth == 1 ==> r == greedy_choice(*cfg, state@),
{
    let ghost root = state@;
    let mut beams: Vec<Beam> = Vec::new();
    let mut b0: usize = 0;
    while b0 < beam_depth + 1
        invariant
            b0 <= beam_depth + 1,
            beams@.len() == b0,
            forall|j: int| 0 <= j < beams@.len() ==> (#[trigger] beams@[j])@.len() == 0,
        decreases beam_depth + 1 - b0,
    {
        beams.push(Beam::new());
        b0 = b0 + 1;
    }
    push_at(&mut beams, 0, state.clone_state());
    let mut round: usize = 0;
    while round < beam_num
        invariant
            beams@.len() == beam_depth + 1,
            beams_inv(*cfg, root, beams@),
            round >= 1 ==> has_candidate(beams@),
            round == 0 ==> beams@[0]@.len() == 1,
            round == 0 && beam_depth == 1 ==> beams@[1]@.len() == 0,
            beam_num == 1 && beam_depth == 1 && round >= 1 ==> root_children(
                *cfg,
                root,
                beams@[1]@,
            ),
        decreases beam_num - round,
    {
        chokudai_round(cfg, &mut beams, beam_width, beam_depth, round == 0, Ghost(root));
        round = round + 1;
    }
    select_answer(cfg, &beams, beam_depth, Ghost(root))
}

/// Time-boxed chokudai search: rounds repeat until the deadline reports
/// expiry. The first round always completes, and level 0's seed guarantees
/// an answer, so even a zero budget yields a legal action.
#[verifier::loop_isolation(false)]
pub fn chokudai_search_action_with_time_threshold(
    cfg: &Config,
    state: &MazeState,
    beam_width: usize,
    beam_depth: usize,
    time_threshold: u128,
) -> (r: usize)
    requires
        cfg.wf(),
        model_wf(*cfg, state@),
        state@.turn < cfg.end_turn,
        beam_width >= 1,
        beam_depth >= 1,
        beam_depth < usize::MAX,
    ensures
        action_legal(*cfg, state@, r),
        exists|k: nat| 1 <= k <= beam_depth && has_plan(*cfg, state@, r, k),
{
    let time_keeper = TimeKeeper::new(time_threshold);
    let ghost root = state@;
    let mut beams: Vec<Beam> = Vec::new();
    let mut b0: usize = 0;
    while b0 < beam_depth + 1
        invariant
            b0 <= beam_depth + 1,
            beams@.len() == b0,
            forall|j: int| 0 <= j < beams@.len() ==> (#[trigger] beams@[j])@.len() == 0,
        decreases beam_depth + 1 - b0,
    {
        beams.push(Beam::new());
        b0 = b0 + 1;
    }
    push_at(&mut beams, 0, state.clone_state());
    let mut round: usize = 0;
    let mut stop = false;
    while round < usize::MAX && !stop
        invariant
            beams@.len() == beam_depth + 1,
            beams_inv(*cfg, root, beams@),
            round >= 1 ==> has_candidate(beams@),
            round == 0 ==> beams@[0]@.len() == 1,
            round == 0 && beam_depth == 1 ==> beams@[1]@.len() == 0,
            stop ==> round >= 1,
        decreases usize::MAX - round,
    {
        chokudai_round(cfg, &mut beams, beam_width, beam_depth, round == 0, Ghost(root));
        round = round + 1;
        if time_keeper.is_over() {
            stop = true;
        }
    }
    select_answer(cfg, &beams, beam_depth, Ghost(root))
}

/// Plays one full episode from a seeded start, choosing every move with
/// time-boxed beam search; returns the final score. The score is witnessed
/// by a chain of legal transitions from a fresh initial state to a
/// terminal state: an episode was actually played out.
#[verifier::loop_isolation(false)]
pub fn beam_time_episode(
    cfg: &Config,
    seed: u64,
    beam_width: usize,
    time_threshold: u128,
) -> (score: u64)
    requires
        cfg.wf(),
        beam_width >= 1,
    ensures
        score <= 9 * cfg.end_turn,
        exists|ss: Seq<StateModel>| episode_playout(*cfg, ss, score),
{
    let mut state = MazeState::new(cfg, seed);
    let ghost mut trail: Seq<StateModel> = seq![state@];
    while !state.is_done(cfg)
        invariant
            model_wf(*cfg, state@),
            trail.len() >= 1,
            model_wf(*cfg, trail[0]),
            trail[0].turn == 0,
            trail[0].game_score == 0,
            trail.last() == state@,
            forall|i: int|
                0 <= i < trail.len() - 1 ==> #[trigger] step_core(*cfg, trail[i], trail[i + 1]),
        decreases cfg.end_turn - state@.turn,
    {
        let action = beam_search_action_with_time_threshold(
            cfg,
            &state,
            beam_width,
            time_threshold,
        );
        let ghost pre = state@;
        state.advance(cfg, action);
        proof {
            assert(advance_core(*cfg, pre, action, state@));
            assert(step_core(*cfg, pre, state@));
            let prior = trail;
            trail = trail.push(state@);
            assert forall|i: int| 0 <= i < trail.len() - 1 implies #[trigger] step_core(
                *cfg,
                trail[i],
                trail[i + 1],
            ) by {
                if i < prior.len() - 1 {
                    assert(step_core(*cfg, prior[i], prior[i + 1]));
                    assert(trail[i] == prior[i] && trail[i + 1] == prior[i + 1]);
                } else {
                    assert(trail[i] == pre && trail[i + 1] == state@);
                }
            }
        }
    }
    proof {
        assert(done(*cfg, state@));
        assert(episode_playout(*cfg, trail, state@.game_score));
    }
    state.game_score
}

} // verus!
