//! Searches with a network that answers row by row: what a search says depends on its own request
//! alone, not on what it is pooled with, nor on the frame in which rows name the actions.

use vstd::prelude::*;

#[allow(unused_imports)]
use super::alike::{alike, lemma_expand_round, offer, offered, sized};
#[allow(unused_imports)]
use super::evaluate::{
    believed, column, column_mean, comover_belief, comover_values, exps_of, floored, gathered,
    heads_of, leaf_evaluated, leaf_legal, leaf_values, leaves_evaluated, mean_row, scattered,
    softmax_exponents, spec_evaluate, strays, Exp,
};
#[allow(unused_imports)]
use super::frontier::spec_expand_round;
#[allow(unused_imports)]
use super::search::{
    any_due, asked, asks, closed_all, due, head_count, in_line, infers, lane_obs, lane_players,
    lane_rows, lane_start, opened_all, pool_answer, pool_asked, pool_closed, pool_heads, pool_start,
    pooled_obs, pooled_players, read_off, round_at, rounds_played, searched, taken_in, Infer, Said,
    Stage,
};
#[allow(unused_imports)]
use super::tree::{leaf_player, Ctx, Opponent, SearchModel};
#[allow(unused_imports)]
use crate::encoder::{ActionView, StateEncoder};
#[allow(unused_imports)]
use crate::fault::Fault;
#[allow(unused_imports)]
use crate::game::Game;
#[allow(unused_imports)]
use crate::num::Scalar;
#[allow(unused_imports)]
use crate::policy::spec_row;
#[allow(unused_imports)]
use crate::reward::Reward;

verus! {

/// A source of exponentials that gives the same for the same.
pub open spec fn steady_exp<N: Scalar, X: Exp<N>>(exp: X) -> bool {
    forall|x: N, y: N, z: N| #[trigger]
        call_ensures(X::exp, (&exp, x), y) && #[trigger] call_ensures(X::exp, (&exp, x), z) ==> y
            == z
}

/// A network that hands itself back, and answers observations of length `d` row by row: each with
/// the `width` numbers that `f` has for that player and that observation.
pub open spec fn row_wise<F, N, I: Infer<F, N>>(
    net: I,
    f: spec_fn(usize, Seq<F>) -> Seq<N>,
    d: nat,
    width: nat,
) -> bool {
    forall|players: Seq<usize>, obs: Seq<Seq<F>>, out: Seq<N>, after: I| #[trigger]
        infers(net, players, obs, out, after) && players.len() == obs.len() && all_sized(obs, d)
            ==> after == net && rows_by(f, width, players, obs, out)
}

/// Every row is `d` long.
pub open spec fn all_sized<F>(rows: Seq<Seq<F>>, d: nat) -> bool {
    forall|i: int| 0 <= i < rows.len() ==> (#[trigger] rows[i]).len() == d
}

/// `out` holds, row by row, what `f` has for each player and observation.
pub open spec fn rows_by<F, N>(
    f: spec_fn(usize, Seq<F>) -> Seq<N>,
    width: nat,
    players: Seq<usize>,
    obs: Seq<Seq<F>>,
    out: Seq<N>,
) -> bool {
    &&& out.len() == players.len() * width
    &&& forall|i: int|
        0 <= i < players.len() ==> #[trigger] spec_row(out, width, i as nat) == f(
            players[i],
            obs[i],
        )
}

/// Rows of `k` heads that hold the same number for every action below `top`, each where its own
/// view has it.
pub open spec fn reframed<F, N, V: ActionView, U: ActionView>(
    view: V,
    f: spec_fn(usize, Seq<F>) -> Seq<N>,
    other: U,
    g: spec_fn(usize, Seq<F>) -> Seq<N>,
    a: nat,
    k: nat,
    top: nat,
) -> bool {
    &&& forall|player: usize, obs: Seq<F>, h: int, x: usize|
        0 <= h < k && x < top ==> f(player, obs)[h * a + #[trigger] view.spec_head_index(x, player)]
            == #[trigger] g(player, obs)[h * a + other.spec_head_index(x, player)]
    &&& forall|player: usize, x: usize|
        x < top ==> ((#[trigger] view.spec_head_index(x, player)) < a
            <==> other.spec_head_index(x, player) < a)
}

/// No action of the game reaches `top`.
pub open spec fn actions_below<N: Scalar, G: Game<N>>(game: G, top: nat) -> bool {
    forall|state: G::State, agent: usize, i: int|
        0 <= i < game.spec_legal_actions(state, agent).len() ==> #[trigger] game.spec_legal_actions(
            state,
            agent,
        )[i] < top
}

proof fn lemma_reframed_column<N: Scalar>(
    row: Seq<N>,
    other: Seq<N>,
    k: nat,
    a: nat,
    j: nat,
    l: nat,
)
    requires
        forall|h: int| 0 <= h < k ==> row[h * a + j] == other[#[trigger] (h * a) + l],
    ensures
        column_mean(row, k, a, j) == column_mean(other, k, a, l),
{
    assert forall|h: int| 0 <= h < k implies #[trigger] column(row, k, a, j)[h] == column(
        other,
        k,
        a,
        l,
    )[h] by {
        let base = h * a;
        assert(row[h * a + j] == other[(h * a) + l]);
    }
    assert(column(row, k, a, j) =~= column(other, k, a, l));
}

/// Rows that say the same of each of `legal`.
spec fn same_of<N>(
    row: Seq<N>,
    heads: Seq<usize>,
    other: Seq<N>,
    other_heads: Seq<usize>,
    k: nat,
    a: nat,
) -> bool {
    &&& heads.len() == other_heads.len()
    &&& forall|h: int, x: int|
        0 <= h < k && 0 <= x < heads.len() ==> row[(h * a) + #[trigger] heads[x]] == other[
        #[trigger] (h * a) + other_heads[x]]
}

proof fn lemma_same_of<F, N: Scalar, V: ActionView, U: ActionView>(
    view: V,
    f: spec_fn(usize, Seq<F>) -> Seq<N>,
    other: U,
    g: spec_fn(usize, Seq<F>) -> Seq<N>,
    a: nat,
    k: nat,
    top: nat,
    legal: Seq<usize>,
    player: usize,
    obs: Seq<F>,
)
    requires
        reframed(view, f, other, g, a, k, top),
        forall|i: int| 0 <= i < legal.len() ==> #[trigger] legal[i] < top,
    ensures
        same_of(
            f(player, obs),
            heads_of(view, legal, player),
            g(player, obs),
            heads_of(other, legal, player),
            k,
            a,
        ),
        strays(heads_of(view, legal, player), a) == strays(heads_of(other, legal, player), a),
{
    let p = heads_of(view, legal, player);
    let q = heads_of(other, legal, player);
    assert forall|h: int, x: int| 0 <= h < k && 0 <= x < p.len() implies f(player, obs)[(h * a)
        + #[trigger] p[x]] == g(player, obs)[#[trigger] (h * a) + q[x]] by {
        assert(legal[x] < top);
        assert(p[x] == view.spec_head_index(legal[x], player));
        assert(q[x] == other.spec_head_index(legal[x], player));
    }
    assert forall|x: int| 0 <= x < p.len() implies ((#[trigger] p[x]) < a <==> q[x] < a) by {
        assert(legal[x] < top);
        assert(p[x] == view.spec_head_index(legal[x], player));
    }
    if strays(p, a) {
        let x = choose|x: int| 0 <= x < p.len() && #[trigger] p[x] >= a;
        assert(q[x] >= a);
    }
    if strays(q, a) {
        let x = choose|x: int| 0 <= x < q.len() && #[trigger] q[x] >= a;
        assert(p[x] >= a);
    }
}

proof fn lemma_values_alike<N: Scalar>(
    row: Seq<N>,
    heads: Seq<usize>,
    other: Seq<N>,
    other_heads: Seq<usize>,
    k: nat,
    a: nat,
    adverse: bool,
)
    requires
        same_of(row, heads, other, other_heads, k, a),
    ensures
        leaf_values(row, k, a, heads, adverse) == leaf_values(other, k, a, other_heads, adverse),
        comover_values(row, k, a, heads) == comover_values(other, k, a, other_heads),
{
    assert forall|h: int| 0 <= h < k implies gathered(row, a, h as nat, heads)
        == #[trigger] gathered(other, a, h as nat, other_heads) by {
        let base = h * a;
        assert forall|x: int| 0 <= x < heads.len() implies row[base + #[trigger] heads[x]]
            == other[base + other_heads[x]] by {
            assert(row[(h * a) + heads[x]] == other[(h * a) + other_heads[x]]);
        }
        assert(gathered(row, a, h as nat, heads) =~= gathered(other, a, h as nat, other_heads));
    }
    assert(leaf_values(row, k, a, heads, adverse) =~= leaf_values(
        other,
        k,
        a,
        other_heads,
        adverse,
    ));
    assert forall|x: int| 0 <= x < heads.len() implies #[trigger] comover_values(
        row,
        k,
        a,
        heads,
    )[x] == comover_values(other, k, a, other_heads)[x] by {
        assert(heads[x] == heads[x]);
        lemma_reframed_column(row, other, k, a, heads[x] as nat, other_heads[x] as nat);
    }
    assert(comover_values(row, k, a, heads) =~= comover_values(other, k, a, other_heads));
}

proof fn lemma_mean_row_alike<N: Scalar>(
    row: Seq<N>,
    heads: Seq<usize>,
    other: Seq<N>,
    other_heads: Seq<usize>,
    k: nat,
    a: nat,
    legal: Seq<usize>,
    i: nat,
    out: Seq<N>,
)
    requires
        same_of(row, heads, other, other_heads, k, a),
        heads.len() == legal.len(),
    ensures
        mean_row(row, k, a, legal, heads, i, out) == mean_row(
            other,
            k,
            a,
            legal,
            other_heads,
            i,
            out,
        ),
    decreases legal.len() - i,
{
    if i < legal.len() {
        let x = i as int;
        assert(heads[x] == heads[x]);
        lemma_reframed_column(row, other, k, a, heads[x] as nat, other_heads[x] as nat);
        let next = out.update(legal[x] as int, column_mean(row, k, a, heads[x] as nat));
        lemma_mean_row_alike(row, heads, other, other_heads, k, a, legal, i + 1, next);
    }
}

pub(crate) proof fn lemma_exps_alike<N: Scalar, X: Exp<N>>(exp: X, xs: Seq<N>, y: Seq<N>, z: Seq<N>)
    requires
        steady_exp(exp),
        exps_of(exp, xs, y),
        exps_of(exp, xs, z),
    ensures
        y == z,
{
    assert forall|i: int| 0 <= i < y.len() implies y[i] == z[i] by {
        assert(call_ensures(X::exp, (&exp, xs[i]), y[i]));
        assert(call_ensures(X::exp, (&exp, xs[i]), z[i]));
    }
    assert(y =~= z);
}

/// What reading rows in two frames takes: the two say the same of every action of the game.
pub open spec fn frames<
    N: Scalar,
    G: Game<N>,
    E: StateEncoder<State = G::State>,
    O: StateEncoder<State = G::State, Feature = E::Feature>,
    W: Reward<N, Event = G::Event>,
>(
    c: Ctx<N, G, E, W>,
    f: spec_fn(usize, Seq<E::Feature>) -> Seq<N>,
    o: Ctx<N, G, O, W>,
    g: spec_fn(usize, Seq<E::Feature>) -> Seq<N>,
    k: nat,
) -> bool {
    exists|top: nat| #[trigger]
        actions_below(*c.game, top) && reframed(
            *c.enc,
            f,
            *o.enc,
            g,
            c.game.spec_action_count() as nat,
            k,
            top,
        )
}

proof fn lemma_leaf_alike<
    N: Scalar,
    G: Game<N>,
    E: StateEncoder<State = G::State>,
    O: StateEncoder<State = G::State, Feature = E::Feature>,
    W: Reward<N, Event = G::Event>,
>(
    c: Ctx<N, G, E, W>,
    f: spec_fn(usize, Seq<E::Feature>) -> Seq<N>,
    o: Ctx<N, G, O, W>,
    g: spec_fn(usize, Seq<E::Feature>) -> Seq<N>,
    d: nat,
    k: nat,
    m: SearchModel<G::State, E::Feature, N>,
    li: int,
    obs: Seq<E::Feature>,
)
    requires
        alike(c, o, d),
        frames(c, f, o, g, k),
    ensures
        ({
            let player = leaf_player(*c.game, c.cfg, m.arena[li].state, m.agent);
            leaf_evaluated(c, m, li, f(player, obs), k) == leaf_evaluated(
                o,
                m,
                li,
                g(player, obs),
                k,
            )
        }),
{
    let a = c.game.spec_action_count() as nat;
    let top = choose|top: nat| #[trigger]
        actions_below(*c.game, top) && reframed(*c.enc, f, *o.enc, g, a, k, top);
    let node = m.arena[li];
    let player = leaf_player(*c.game, c.cfg, node.state, m.agent);
    if let Ok(legal) = leaf_legal(*c.game, node.state, m.agent) {
        assert forall|i: int| 0 <= i < legal.len() implies #[trigger] legal[i] < top by {}
        lemma_same_of(*c.enc, f, *o.enc, g, a, k, top, legal, player, obs);
        let p = heads_of(*c.enc, legal, player);
        let q = heads_of(*o.enc, legal, player);
        lemma_values_alike(f(player, obs), p, g(player, obs), q, k, a, player != m.agent);
        lemma_mean_row_alike(
            f(player, obs),
            p,
            g(player, obs),
            q,
            k,
            a,
            legal,
            0,
            crate::util::spec_filled(N::spec_lowest(), a),
        );
    }
}

proof fn lemma_leaves_alike<
    N: Scalar,
    G: Game<N>,
    E: StateEncoder<State = G::State>,
    O: StateEncoder<State = G::State, Feature = E::Feature>,
    W: Reward<N, Event = G::Event>,
>(
    c: Ctx<N, G, E, W>,
    f: spec_fn(usize, Seq<E::Feature>) -> Seq<N>,
    rows: Seq<N>,
    o: Ctx<N, G, O, W>,
    g: spec_fn(usize, Seq<E::Feature>) -> Seq<N>,
    others: Seq<N>,
    d: nat,
    k: nat,
    open: SearchModel<G::State, E::Feature, N>,
    j: nat,
    m: SearchModel<G::State, E::Feature, N>,
)
    requires
        alike(c, o, d),
        frames(c, f, o, g, k),
        open.mid_round(),
        rows_by(
            f,
            k * (c.game.spec_action_count() as nat),
            lane_players(*c.game, c.cfg, open),
            lane_obs(open),
            rows,
        ),
        rows_by(
            g,
            k * (c.game.spec_action_count() as nat),
            lane_players(*c.game, c.cfg, open),
            lane_obs(open),
            others,
        ),
        m.agent == open.agent,
        m.arena.len() == open.arena.len(),
        forall|i: int|
            0 <= i < m.arena.len() ==> (#[trigger] m.arena[i]).state == open.arena[i].state,
    ensures
        leaves_evaluated(c, open.new_leaves, rows, open.opp_obs.len(), k, j, m)
            == leaves_evaluated(o, open.new_leaves, others, open.opp_obs.len(), k, j, m),
    decreases open.new_leaves.len() - j,
{
    if j < open.new_leaves.len() {
        let a = c.game.spec_action_count() as nat;
        let li = open.new_leaves[j as int] as int;
        let at = open.opp_obs.len() + j;
        let players = lane_players(*c.game, c.cfg, open);
        let obs = lane_obs(open);
        assert(li < open.arena.len());
        assert(m.arena[li].state == open.arena[li].state);
        let player = leaf_player(*c.game, c.cfg, m.arena[li].state, m.agent);
        assert(players[at as int] == player);
        assert(spec_row(rows, k * a, at) == f(player, obs[at as int]));
        assert(spec_row(others, k * a, at) == g(player, obs[at as int]));
        lemma_leaf_alike(c, f, o, g, d, k, m, li, obs[at as int]);
        if let Ok(next) = leaf_evaluated(c, m, li, f(player, obs[at as int]), k) {
            assert forall|i: int| 0 <= i < next.arena.len() implies (
            #[trigger] next.arena[i]).state == open.arena[i].state by {
                assert(m.arena[i].state == open.arena[i].state);
            }
            lemma_leaves_alike(c, f, rows, o, g, others, d, k, open, j + 1, next);
        }
    }
}

proof fn lemma_beliefs_alike<
    N: Scalar,
    G: Game<N>,
    E: StateEncoder<State = G::State>,
    O: StateEncoder<State = G::State, Feature = E::Feature>,
    W: Reward<N, Event = G::Event>,
    X: Exp<N>,
>(
    c: Ctx<N, G, E, W>,
    f: spec_fn(usize, Seq<E::Feature>) -> Seq<N>,
    rows: Seq<N>,
    o: Ctx<N, G, O, W>,
    g: spec_fn(usize, Seq<E::Feature>) -> Seq<N>,
    others: Seq<N>,
    exp: X,
    d: nat,
    k: nat,
    open: SearchModel<G::State, E::Feature, N>,
    probs: Seq<Seq<N>>,
    beliefs: Seq<Seq<N>>,
)
    requires
        alike(c, o, d),
        steady_exp(exp),
        frames(c, f, o, g, k),
        open.mid_round(),
        offered(*c.game, open),
        rows_by(
            f,
            k * (c.game.spec_action_count() as nat),
            lane_players(*c.game, c.cfg, open),
            lane_obs(open),
            rows,
        ),
        rows_by(
            g,
            k * (c.game.spec_action_count() as nat),
            lane_players(*c.game, c.cfg, open),
            lane_obs(open),
            others,
        ),
        believed(c, exp, open, rows, k, probs),
        believed(o, exp, open, others, k, beliefs),
    ensures
        probs == beliefs,
{
    let a = c.game.spec_action_count() as nat;
    let top = choose|top: nat| #[trigger]
        actions_below(*c.game, top) && reframed(*c.enc, f, *o.enc, g, a, k, top);
    if let Opponent::Distributional { temperature, floor } = c.cfg.opponent {
        assert forall|i: int| 0 <= i < probs.len() implies probs[i] == beliefs[i] by {
            let (mover, legal) = open.opp_legal[i];
            let row = spec_row(rows, k * a, i as nat);
            let other = spec_row(others, k * a, i as nat);
            let obs = lane_obs(open)[i];
            assert(lane_players(*c.game, c.cfg, open)[i] == mover);
            assert(row == f(mover, obs) && other == g(mover, obs));
            assert(offer(*c.game, mover, legal));
            let state = choose|state: G::State| legal == #[trigger] c.game.spec_legal_actions(
                state,
                mover,
            );
            assert forall|x: int| 0 <= x < legal.len() implies #[trigger] legal[x] < top by {
                assert(c.game.spec_legal_actions(state, mover)[x] < top);
            }
            lemma_same_of(*c.enc, f, *o.enc, g, a, k, top, legal, mover, obs);
            let p = heads_of(*c.enc, legal, mover);
            let q = heads_of(*o.enc, legal, mover);
            lemma_values_alike(row, p, other, q, k, a, false);
            assert(comover_belief(
                exp,
                *c.enc,
                mover,
                legal,
                row,
                k,
                a,
                temperature,
                floor,
                probs[i],
            ));
            assert(comover_belief(
                exp,
                *o.enc,
                mover,
                legal,
                other,
                k,
                a,
                temperature,
                floor,
                beliefs[i],
            ));
            let xs = softmax_exponents(comover_values(row, k, a, p), temperature);
            let y = choose|y: Seq<N>|
                exps_of(exp, xs, y) && probs[i] == scattered(
                    legal,
                    #[trigger] floored(y, floor),
                    0,
                    crate::util::spec_filled(N::spec_zero(), a),
                );
            let z = choose|z: Seq<N>|
                exps_of(exp, xs, z) && beliefs[i] == scattered(
                    legal,
                    #[trigger] floored(z, floor),
                    0,
                    crate::util::spec_filled(N::spec_zero(), a),
                );
            lemma_exps_alike(exp, xs, y, z);
        }
        assert(probs =~= beliefs);
    } else {
        assert(probs =~= beliefs);
    }
}

proof fn lemma_taken_alike<
    N: Scalar,
    G: Game<N>,
    E: StateEncoder<State = G::State>,
    O: StateEncoder<State = G::State, Feature = E::Feature>,
    W: Reward<N, Event = G::Event>,
    X: Exp<N>,
>(
    c: Ctx<N, G, E, W>,
    f: spec_fn(usize, Seq<E::Feature>) -> Seq<N>,
    rows: Seq<N>,
    o: Ctx<N, G, O, W>,
    g: spec_fn(usize, Seq<E::Feature>) -> Seq<N>,
    others: Seq<N>,
    exp: X,
    d: nat,
    k: nat,
    open: SearchModel<G::State, E::Feature, N>,
    next: SearchModel<G::State, E::Feature, N>,
    after: SearchModel<G::State, E::Feature, N>,
)
    requires
        alike(c, o, d),
        steady_exp(exp),
        frames(c, f, o, g, k),
        k <= usize::MAX,
        open.mid_round(),
        offered(*c.game, open),
        rows_by(
            f,
            k * (c.game.spec_action_count() as nat),
            lane_players(*c.game, c.cfg, open),
            lane_obs(open),
            rows,
        ),
        rows_by(
            g,
            k * (c.game.spec_action_count() as nat),
            lane_players(*c.game, c.cfg, open),
            lane_obs(open),
            others,
        ),
        taken_in(c, exp, open, rows, k, next),
        taken_in(o, exp, open, others, k, after),
    ensures
        next == after,
{
    reveal(spec_evaluate);
    let probs = choose|probs: Seq<Seq<N>>| #[trigger]
        believed(c, exp, open, rows, k, probs) && spec_evaluate(c, open, rows, k as usize, probs)
            == Ok::<_, Fault>(next);
    let beliefs = choose|beliefs: Seq<Seq<N>>| #[trigger]
        believed(o, exp, open, others, k, beliefs) && spec_evaluate(
            o,
            open,
            others,
            k as usize,
            beliefs,
        ) == Ok::<_, Fault>(after);
    lemma_beliefs_alike(c, f, rows, o, g, others, exp, d, k, open, probs, beliefs);
    let headed = SearchModel { n_heads: k as usize, ..open };
    lemma_leaves_alike(c, f, rows, o, g, others, d, k, open, 0, headed);
}

/// What a round makes of a search alone, when `f` answers its rows: `next`.
pub open spec fn lone_step<
    N: Scalar,
    G: Game<N>,
    E: StateEncoder<State = G::State>,
    W: Reward<N, Event = G::Event>,
    X: Exp<N>,
>(
    ctx: Ctx<N, G, E, W>,
    exp: X,
    f: spec_fn(usize, Seq<E::Feature>) -> Seq<N>,
    k: nat,
    first: bool,
    m: SearchModel<G::State, E::Feature, N>,
    next: SearchModel<G::State, E::Feature, N>,
) -> bool {
    match spec_expand_round(ctx, m, first) {
        Err(_) => false,
        Ok(open) => {
            &&& open.mid_round()
            &&& if asked(open) == 0 {
                next == open
            } else {
                &&& k <= usize::MAX
                &&& exists|rows: Seq<N>| #[trigger]
                    rows_by(
                        f,
                        k * (ctx.game.spec_action_count() as nat),
                        lane_players(*ctx.game, ctx.cfg, open),
                        lane_obs(open),
                        rows,
                    ) && taken_in(ctx, exp, open, rows, k, next)
            }
        },
    }
}

proof fn lemma_lone_alike<
    N: Scalar,
    G: Game<N>,
    E: StateEncoder<State = G::State>,
    O: StateEncoder<State = G::State, Feature = E::Feature>,
    W: Reward<N, Event = G::Event>,
    X: Exp<N>,
>(
    c: Ctx<N, G, E, W>,
    f: spec_fn(usize, Seq<E::Feature>) -> Seq<N>,
    o: Ctx<N, G, O, W>,
    g: spec_fn(usize, Seq<E::Feature>) -> Seq<N>,
    exp: X,
    d: nat,
    k: nat,
    first: bool,
    m: SearchModel<G::State, E::Feature, N>,
    next: SearchModel<G::State, E::Feature, N>,
    after: SearchModel<G::State, E::Feature, N>,
)
    requires
        alike(c, o, d),
        steady_exp(exp),
        frames(c, f, o, g, k),
        m.wf(c.cfg.expansion_budget),
        lone_step(c, exp, f, k, first, m, next),
        lone_step(o, exp, g, k, first, m, after),
    ensures
        next == after,
{
    lemma_expand_round(c, o, d, m, first);
    let open = spec_expand_round(c, m, first)->Ok_0;
    if asked(open) > 0 {
        let width = k * (c.game.spec_action_count() as nat);
        let players = lane_players(*c.game, c.cfg, open);
        let rows = choose|rows: Seq<N>| #[trigger]
            rows_by(f, width, players, lane_obs(open), rows) && taken_in(
                c,
                exp,
                open,
                rows,
                k,
                next,
            );
        let others = choose|others: Seq<N>| #[trigger]
            rows_by(g, width, players, lane_obs(open), others) && taken_in(
                o,
                exp,
                open,
                others,
                k,
                after,
            );
        lemma_taken_alike(c, f, rows, o, g, others, exp, d, k, open, next, after);
    }
}

proof fn lemma_pooled<N: Scalar, G: Game<N>, F>(
    game: G,
    cfg: super::tree::SearchConfig<N>,
    opens: Seq<SearchModel<G::State, F, N>>,
    took: Seq<bool>,
    n: nat,
    d: nat,
)
    requires
        n <= opens.len(),
        forall|i: int|
            0 <= i < n && took[i] ==> (#[trigger] opens[i]).mid_round() && sized(game, opens[i], d),
    ensures
        pooled_players(game, cfg, opens, took, n).len() == pooled_obs(opens, took, n).len(),
        all_sized(pooled_obs(opens, took, n), d),
    decreases n,
{
    if n > 0 {
        lemma_pooled(game, cfg, opens, took, (n - 1) as nat, d);
        if took[n - 1] {
            let m = opens[n - 1];
            assert(m.mid_round() && sized(game, m, d));
            let before = pooled_obs(opens, took, (n - 1) as nat);
            let rows = pooled_obs(opens, took, n);
            assert forall|i: int| 0 <= i < rows.len() implies (#[trigger] rows[i]).len() == d by {
                if i < before.len() {
                    assert(rows[i] == before[i]);
                } else {
                    let j = i - before.len();
                    assert(rows[i] == lane_obs(m)[j]);
                    if j < m.opp_obs.len() {
                        assert(lane_obs(m)[j] == m.opp_obs[j]);
                    } else {
                        let l = j - m.opp_obs.len();
                        assert(m.new_leaves[l] < m.arena.len());
                    }
                }
            }
        }
    }
}

/// The rows of search `i` stand in the pool behind those of the searches before it.
proof fn lemma_pool_place<N: Scalar, G: Game<N>, F>(
    game: G,
    cfg: super::tree::SearchConfig<N>,
    opens: Seq<SearchModel<G::State, F, N>>,
    took: Seq<bool>,
    i: nat,
    n: nat,
    d: nat,
    r: int,
)
    requires
        i < n <= opens.len(),
        took[i as int],
        forall|j: int|
            0 <= j < n && took[j] ==> (#[trigger] opens[j]).mid_round() && sized(game, opens[j], d),
        0 <= r < asked(opens[i as int]),
    ensures
        ({
            let start = pooled_players(game, cfg, opens, took, i).len();
            &&& start + asked(opens[i as int]) <= pooled_players(game, cfg, opens, took, n).len()
            &&& pooled_players(game, cfg, opens, took, n)[start + r] == lane_players(
                game,
                cfg,
                opens[i as int],
            )[r]
            &&& pooled_obs(opens, took, n)[start + r] == lane_obs(opens[i as int])[r]
        }),
    decreases n - i,
{
    assert(opens[i as int].mid_round());
    lemma_pooled(game, cfg, opens, took, i, d);
    if n > i + 1 {
        lemma_pool_place(game, cfg, opens, took, i, (n - 1) as nat, d, r);
        lemma_pooled(game, cfg, opens, took, (n - 1) as nat, d);
    }
}

proof fn lemma_rows_within<N>(out: Seq<N>, start: nat, n: nat, width: nat, r: nat)
    requires
        r < n,
        (start + n) * width <= out.len(),
    ensures
        lane_rows(out, start, n, width).len() == n * width,
        spec_row(lane_rows(out, start, n, width), width, r) == spec_row(out, width, start + r),
{
    assert(0 <= start * width <= (start + n) * width && (start + n) * width - start * width == n
        * width && 0 <= r * width && (r + 1) * width <= n * width && r * width + width == (r + 1)
        * width && start * width + r * width == (start + r) * width && (start + r) * width + width
        == (start + r + 1) * width) by (nonlinear_arith)
        requires
            0 <= start,
            0 <= r < n,
            0 <= width,
    ;
    assert(spec_row(lane_rows(out, start, n, width), width, r) =~= spec_row(out, width, start + r));
}

proof fn lemma_whole_heads(n: nat, width: nat, a: nat)
    requires
        n > 0,
        a > 0,
        width % a == 0,
    ensures
        head_count(n * width, n, a) == width / a,
        width / a * a == width,
{
    assert(n * width / n == width) by (nonlinear_arith)
        requires
            n > 0,
    ;
    assert(width / a * a == width) by (nonlinear_arith)
        requires
            a > 0,
            width % a == 0,
    ;
}

/// A round of a pool whose network answers row by row takes each of its searches one lone step.
proof fn lemma_lane_step<
    N: Scalar,
    G: Game<N>,
    E: StateEncoder<State = G::State>,
    W: Reward<N, Event = G::Event>,
    X: Exp<N>,
    I: Infer<E::Feature, N>,
>(
    ctx: Ctx<N, G, E, W>,
    exp: X,
    f: spec_fn(usize, Seq<E::Feature>) -> Seq<N>,
    d: nat,
    width: nat,
    first: bool,
    a: Stage<G::State, E::Feature, N, I>,
    b: Stage<G::State, E::Feature, N, I>,
    i: int,
)
    requires
        alike(ctx, ctx, d),
        row_wise(a.net, f, d, width),
        ctx.game.spec_action_count() > 0 ==> width % (ctx.game.spec_action_count() as nat) == 0,
        super::search::round_played(ctx, exp, first, a, b),
        0 <= i < a.searches.len(),
    ensures
        b.searches.len() == a.searches.len(),
        b.net == a.net,
        a.searches[i].wf(ctx.cfg.expansion_budget),
        if a.searches[i].active(ctx.cfg.expansion_budget) {
            lone_step(
                ctx,
                exp,
                f,
                width / (ctx.game.spec_action_count() as nat),
                first,
                a.searches[i],
                b.searches[i],
            )
        } else {
            b.searches[i] == a.searches[i]
        },
{
    let budget = ctx.cfg.expansion_budget;
    let took = due(a.searches, budget);
    let game = *ctx.game;
    let acts = ctx.game.spec_action_count() as nat;
    let opens = choose|opens: Seq<SearchModel<G::State, E::Feature, N>>| #[trigger]
        opened_all(ctx, first, a.searches, opens) && pool_closed(
            ctx,
            exp,
            opens,
            took,
            (a.net, b.net),
            b.searches,
        );
    assert(opens[i] == opens[i]);
    assert forall|j: int| 0 <= j < opens.len() && took[j] implies (#[trigger] opens[j]).mid_round()
        && sized(game, opens[j], d) by {
        assert(a.searches[j].wf(budget));
        lemma_expand_round(ctx, ctx, d, a.searches[j], first);
    }
    let players = pooled_players(game, ctx.cfg, opens, took, opens.len());
    let obs = pooled_obs(opens, took, opens.len());
    lemma_pooled(game, ctx.cfg, opens, took, opens.len(), d);
    if took[i] && asked(opens[i]) > 0 {
        lemma_pool_place(game, ctx.cfg, opens, took, i as nat, opens.len(), d, 0);
    }
    if players.len() > 0 {
        let nets = (a.net, b.net);
        let out = choose|out: Seq<N>| #[trigger]
            pool_asked(game, ctx.cfg, opens, took, nets.0, out, nets.1) && closed_all(
                ctx,
                exp,
                opens,
                took,
                out,
                b.searches,
            );
        assert(infers(a.net, players, obs, out, b.net));
        assert(rows_by(f, width, players, obs, out));
        lemma_whole_heads(players.len(), width, acts);
        let k = width / acts;
        assert(pool_heads(game, ctx.cfg, opens, took, out) == k);
        assert(out.len() <= usize::MAX) by {
            let (all, flat, n, given) = choose|
                all: &[usize],
                flat: Vec<E::Feature>,
                n: usize,
                given: Vec<N>,
            |
                {
                    &&& all@ == players
                    &&& flat@ == in_line(obs)
                    &&& n == players.len()
                    &&& given@ == out
                    &&& #[trigger] call_ensures(I::infer, (a.net, all, flat, n), (b.net, given))
                };
            assert(given.len() <= usize::MAX);
        }
        assert(k <= usize::MAX) by (nonlinear_arith)
            requires
                k == width / acts,
                acts > 0,
                players.len() > 0,
                out.len() == players.len() * width,
                out.len() <= usize::MAX,
        ;
        if asks(opens, took, i) {
            let open = opens[i];
            let start = pooled_players(game, ctx.cfg, opens, took, i as nat).len();
            let rows = pool_answer(game, ctx.cfg, opens, took, out, i);
            assert(k * acts == width);
            assert(rows == lane_rows(out, start, asked(open), width));
            assert((start + asked(open)) * width <= out.len()) by (nonlinear_arith)
                requires
                    start + asked(open) <= players.len(),
                    out.len() == players.len() * width,
            ;
            lemma_rows_within(out, start, asked(open), width, 0);
            let mine = lane_players(game, ctx.cfg, open);
            let own = lane_obs(open);
            assert(mine.len() == asked(open));
            assert forall|r: int| 0 <= r < mine.len() implies #[trigger] spec_row(
                rows,
                width,
                r as nat,
            ) == f(mine[r], own[r]) by {
                lemma_rows_within(out, start, asked(open), width, r as nat);
                lemma_pool_place(game, ctx.cfg, opens, took, i as nat, opens.len(), d, r);
                assert(spec_row(out, width, (start + r) as nat) == f(
                    players[start + r],
                    obs[start + r],
                ));
            }
            assert(rows_by(f, k * acts, mine, own, rows));
            assert(b.searches[i] == b.searches[i]);
            assert(taken_in(ctx, exp, open, rows, k, b.searches[i]));
        }
    }
}

/// A pool keeps its searches in their places, and a search that is not due as it is.
proof fn lemma_lane_rests<
    N: Scalar,
    G: Game<N>,
    E: StateEncoder<State = G::State>,
    W: Reward<N, Event = G::Event>,
    X: Exp<N>,
    I: Infer<E::Feature, N>,
>(
    ctx: Ctx<N, G, E, W>,
    exp: X,
    start: Stage<G::State, E::Feature, N, I>,
    stages: Seq<Stage<G::State, E::Feature, N, I>>,
    i: int,
    from: int,
    to: int,
)
    requires
        rounds_played(ctx, exp, start, stages),
        0 <= from <= to < stages.len(),
        0 <= i < stages[from].searches.len(),
        !stages[from].searches[i].active(ctx.cfg.expansion_budget),
    ensures
        stages[to].searches.len() == stages[from].searches.len(),
        stages[to].searches[i] == stages[from].searches[i],
    decreases to - from,
{
    if from < to {
        lemma_lane_rests(ctx, exp, start, stages, i, from, to - 1);
        assert(round_at(ctx, exp, stages, to - 1));
        let first = to - 1 == 0;
        let a = stages[to - 1];
        let b = stages[to - 1 + 1];
        let took = due(a.searches, ctx.cfg.expansion_budget);
        let opens = choose|opens: Seq<SearchModel<G::State, E::Feature, N>>| #[trigger]
            opened_all(ctx, first, a.searches, opens) && pool_closed(
                ctx,
                exp,
                opens,
                took,
                (a.net, b.net),
                b.searches,
            );
        assert(opens[i] == a.searches[i]);
        assert(!asks(opens, took, i));
        if pooled_players(*ctx.game, ctx.cfg, opens, took, opens.len()).len() > 0 {
            assert(b.searches[i] == opens[i]);
        }
    }
}

/// Two pools that differ at most in the frames of their rows keep a search in step that both begin
/// with.
proof fn lemma_in_step<
    N: Scalar,
    G: Game<N>,
    E: StateEncoder<State = G::State>,
    O: StateEncoder<State = G::State, Feature = E::Feature>,
    W: Reward<N, Event = G::Event>,
    X: Exp<N>,
    I: Infer<E::Feature, N>,
    J: Infer<E::Feature, N>,
>(
    c: Ctx<N, G, E, W>,
    f: spec_fn(usize, Seq<E::Feature>) -> Seq<N>,
    a: Stage<G::State, E::Feature, N, I>,
    stages: Seq<Stage<G::State, E::Feature, N, I>>,
    i: int,
    o: Ctx<N, G, O, W>,
    g: spec_fn(usize, Seq<E::Feature>) -> Seq<N>,
    b: Stage<G::State, E::Feature, N, J>,
    others: Seq<Stage<G::State, E::Feature, N, J>>,
    j: int,
    exp: X,
    d: nat,
    width: nat,
    r: int,
)
    requires
        in_two_frames(c, f, a.net, o, g, b.net, exp, d, width),
        rounds_played(c, exp, a, stages),
        rounds_played(o, exp, b, others),
        0 <= i < a.searches.len(),
        0 <= j < b.searches.len(),
        a.searches[i] == b.searches[j],
        0 <= r < stages.len(),
        r < others.len(),
    ensures
        stages[r].searches.len() == a.searches.len(),
        others[r].searches.len() == b.searches.len(),
        stages[r].net == a.net,
        others[r].net == b.net,
        stages[r].searches[i] == others[r].searches[j],
    decreases r,
{
    if r > 0 {
        lemma_in_step(c, f, a, stages, i, o, g, b, others, j, exp, d, width, r - 1);
        assert(round_at(c, exp, stages, r - 1));
        assert(round_at(o, exp, others, r - 1));
        let first = r - 1 == 0;
        let x = stages[r - 1];
        let y = others[r - 1];
        assert(stages[r - 1 + 1] == stages[r] && others[r - 1 + 1] == others[r]);
        lemma_lane_step(c, exp, f, d, width, first, x, stages[r], i);
        assert forall|state: G::State, agent: usize| #[trigger]
            o.enc.spec_encode(state, agent).len() == d by {
            assert(c.enc.spec_encode(state, agent) == o.enc.spec_encode(state, agent));
            assert(c.enc.spec_encode(state, agent).len() == d);
        }
        lemma_lane_step(o, exp, g, d, width, first, y, others[r], j);
        let m = x.searches[i];
        if m.active(c.cfg.expansion_budget) {
            let k = width / (c.game.spec_action_count() as nat);
            lemma_lone_alike(
                c,
                f,
                o,
                g,
                exp,
                d,
                k,
                first,
                m,
                stages[r].searches[i],
                others[r].searches[j],
            );
        }
    }
}

/// Networks that answer row by row, with whole heads, and say the same of every action, each in the
/// frame of its own encoder; encoders that observe alike; and exponentials that repeat.
pub open spec fn in_two_frames<
    N: Scalar,
    G: Game<N>,
    E: StateEncoder<State = G::State>,
    O: StateEncoder<State = G::State, Feature = E::Feature>,
    W: Reward<N, Event = G::Event>,
    X: Exp<N>,
    I: Infer<E::Feature, N>,
    J: Infer<E::Feature, N>,
>(
    c: Ctx<N, G, E, W>,
    f: spec_fn(usize, Seq<E::Feature>) -> Seq<N>,
    net: I,
    o: Ctx<N, G, O, W>,
    g: spec_fn(usize, Seq<E::Feature>) -> Seq<N>,
    other: J,
    exp: X,
    d: nat,
    width: nat,
) -> bool {
    &&& alike(c, o, d)
    &&& steady_exp(exp)
    &&& row_wise(net, f, d, width)
    &&& row_wise(other, g, d, width)
    &&& c.game.spec_action_count() > 0 ==> width % (c.game.spec_action_count() as nat) == 0
    &&& frames(c, f, o, g, width / (c.game.spec_action_count() as nat))
}

/// Two pools that differ at most in the frames of their rows end alike for a search that both begin
/// with.
proof fn lemma_end_alike<
    N: Scalar,
    G: Game<N>,
    E: StateEncoder<State = G::State>,
    O: StateEncoder<State = G::State, Feature = E::Feature>,
    W: Reward<N, Event = G::Event>,
    X: Exp<N>,
    I: Infer<E::Feature, N>,
    J: Infer<E::Feature, N>,
>(
    c: Ctx<N, G, E, W>,
    f: spec_fn(usize, Seq<E::Feature>) -> Seq<N>,
    a: Stage<G::State, E::Feature, N, I>,
    stages: Seq<Stage<G::State, E::Feature, N, I>>,
    i: int,
    o: Ctx<N, G, O, W>,
    g: spec_fn(usize, Seq<E::Feature>) -> Seq<N>,
    b: Stage<G::State, E::Feature, N, J>,
    others: Seq<Stage<G::State, E::Feature, N, J>>,
    j: int,
    exp: X,
    d: nat,
    width: nat,
)
    requires
        in_two_frames(c, f, a.net, o, g, b.net, exp, d, width),
        rounds_played(c, exp, a, stages),
        rounds_played(o, exp, b, others),
        !any_due(due(stages.last().searches, c.cfg.expansion_budget)),
        !any_due(due(others.last().searches, c.cfg.expansion_budget)),
        0 <= i < a.searches.len(),
        0 <= j < b.searches.len(),
        a.searches[i] == b.searches[j],
    ensures
        i < stages.last().searches.len(),
        j < others.last().searches.len(),
        stages.last().searches[i] == others.last().searches[j],
{
    let budget = c.cfg.expansion_budget;
    let r = if stages.len() <= others.len() {
        stages.len() - 1
    } else {
        others.len() - 1
    };
    lemma_in_step(c, f, a, stages, i, o, g, b, others, j, exp, d, width, r);
    if stages.len() <= others.len() {
        let took = due(stages.last().searches, budget);
        assert(!took[i]);
        lemma_lane_rests(o, exp, b, others, j, r, others.len() - 1);
    } else {
        let took = due(others.last().searches, budget);
        assert(!took[j]);
        lemma_lane_rests(c, exp, a, stages, i, r, stages.len() - 1);
    }
}

/// Pooling changes no search. With a network that hands itself back and answers row by row, in whole
/// heads, what request `i` gets in a pool is what it gets alone, with its own stream: the same
/// values, interior targets and telemetry.
pub proof fn law_pooling_changes_no_search<
    N: Scalar,
    G: Game<N>,
    E: StateEncoder<State = G::State>,
    W: Reward<N, Event = G::Event>,
    X: Exp<N>,
    I: Infer<E::Feature, N>,
>(
    ctx: Ctx<N, G, E, W>,
    exp: X,
    f: spec_fn(usize, Seq<E::Feature>) -> Seq<N>,
    d: nat,
    width: nat,
    net: I,
    after: I,
    last: I,
    requests: Seq<(G::State, usize)>,
    seed: u64,
    collect_interior: bool,
    out: Seq<Said<E::Feature, N>>,
    i: int,
    alone: Seq<Said<E::Feature, N>>,
)
    requires
        forall|state: G::State, agent: usize| #[trigger]
            ctx.enc.spec_encode(state, agent).len() == d,
        steady_exp(exp),
        row_wise(net, f, d, width),
        ctx.game.spec_action_count() > 0 ==> width % (ctx.game.spec_action_count() as nat) == 0,
        0 <= i < requests.len() <= u64::MAX,
        searched(ctx, exp, (net, after), requests, seed, collect_interior, out),
        searched(
            ctx,
            exp,
            (net, last),
            seq![requests[i]],
            vstd::wrapping::u64_specs::wrapping_add(seed, i as u64),
            collect_interior,
            alone,
        ),
    ensures
        out.len() == requests.len(),
        alone.len() == 1,
        out[i] == alone[0],
{
    let acts = ctx.game.spec_action_count() as nat;
    let k = width / acts;
    let top = (usize::MAX + 1) as nat;
    assert(actions_below(*ctx.game, top));
    assert(frames(ctx, f, ctx, f, k)) by {
        assert(reframed(*ctx.enc, f, *ctx.enc, f, acts, k, top));
    }
    let own = vstd::wrapping::u64_specs::wrapping_add(seed, i as u64);
    let nets = (net, after);
    let solo = (net, last);
    let a = pool_start::<G::State, E::Feature, N, I>(requests, seed, nets.0);
    let one = seq![requests[i]];
    let b = pool_start::<G::State, E::Feature, N, I>(one, own, solo.0);
    let stages = choose|stages: Seq<Stage<G::State, E::Feature, N, I>>| #[trigger]
        rounds_played(ctx, exp, a, stages) && {
            let end = stages.last();
            &&& end.net == nets.1
            &&& out.len() == requests.len()
            &&& !any_due(due(end.searches, ctx.cfg.expansion_budget))
            &&& read_off(*ctx.game, ctx.cfg, end.searches, collect_interior, out)
        };
    let others = choose|others: Seq<Stage<G::State, E::Feature, N, I>>| #[trigger]
        rounds_played(ctx, exp, b, others) && {
            let end = others.last();
            &&& end.net == solo.1
            &&& alone.len() == one.len()
            &&& !any_due(due(end.searches, ctx.cfg.expansion_budget))
            &&& read_off(*ctx.game, ctx.cfg, end.searches, collect_interior, alone)
        };
    assert(a.searches[i] == lane_start::<G::State, E::Feature, N>(requests, seed, i));
    assert(b.searches[0] == lane_start::<G::State, E::Feature, N>(one, own, 0));
    assert(vstd::wrapping::u64_specs::wrapping_add(own, 0) == own);
    lemma_end_alike(ctx, f, a, stages, i, ctx, f, b, others, 0, exp, d, width);
    assert(out[i] == out[i] && alone[0] == alone[0]);
}

/// A search does not depend on the action view. Encoders that observe alike, with networks that
/// answer row by row and hold the same number for every action, each where its own view has it, give
/// the same values, interior targets and telemetry.
pub proof fn law_searches_ignore_the_view<
    N: Scalar,
    G: Game<N>,
    E: StateEncoder<State = G::State>,
    O: StateEncoder<State = G::State, Feature = E::Feature>,
    W: Reward<N, Event = G::Event>,
    X: Exp<N>,
    I: Infer<E::Feature, N>,
    J: Infer<E::Feature, N>,
>(
    c: Ctx<N, G, E, W>,
    f: spec_fn(usize, Seq<E::Feature>) -> Seq<N>,
    nets: (I, I),
    o: Ctx<N, G, O, W>,
    g: spec_fn(usize, Seq<E::Feature>) -> Seq<N>,
    others: (J, J),
    exp: X,
    d: nat,
    width: nat,
    requests: Seq<(G::State, usize)>,
    seed: u64,
    collect_interior: bool,
    out: Seq<Said<E::Feature, N>>,
    again: Seq<Said<E::Feature, N>>,
)
    requires
        in_two_frames(c, f, nets.0, o, g, others.0, exp, d, width),
        searched(c, exp, nets, requests, seed, collect_interior, out),
        searched(o, exp, others, requests, seed, collect_interior, again),
    ensures
        out == again,
{
    let a = pool_start::<G::State, E::Feature, N, I>(requests, seed, nets.0);
    let b = pool_start::<G::State, E::Feature, N, J>(requests, seed, others.0);
    let stages = choose|stages: Seq<Stage<G::State, E::Feature, N, I>>| #[trigger]
        rounds_played(c, exp, a, stages) && {
            let end = stages.last();
            &&& end.net == nets.1
            &&& out.len() == requests.len()
            &&& !any_due(due(end.searches, c.cfg.expansion_budget))
            &&& read_off(*c.game, c.cfg, end.searches, collect_interior, out)
        };
    let framed = choose|framed: Seq<Stage<G::State, E::Feature, N, J>>| #[trigger]
        rounds_played(o, exp, b, framed) && {
            let end = framed.last();
            &&& end.net == others.1
            &&& again.len() == requests.len()
            &&& !any_due(due(end.searches, o.cfg.expansion_budget))
            &&& read_off(*o.game, o.cfg, end.searches, collect_interior, again)
        };
    assert forall|i: int| 0 <= i < out.len() implies out[i] == again[i] by {
        assert(a.searches[i] == b.searches[i]);
        lemma_end_alike(c, f, a, stages, i, o, g, b, framed, i, exp, d, width);
        assert(out[i] == out[i] && again[i] == again[i]);
    }
    assert(out =~= again);
}

/// Searches repeat: with a network that hands itself back and answers row by row, in whole heads,
/// searches of the same requests say the same, and hand the network back.
pub proof fn law_searches_repeat<
    N: Scalar,
    G: Game<N>,
    E: StateEncoder<State = G::State>,
    W: Reward<N, Event = G::Event>,
    X: Exp<N>,
    I: Infer<E::Feature, N>,
>(
    ctx: Ctx<N, G, E, W>,
    exp: X,
    f: spec_fn(usize, Seq<E::Feature>) -> Seq<N>,
    d: nat,
    width: nat,
    nets: (I, I),
    others: (I, I),
    requests: Seq<(G::State, usize)>,
    seed: u64,
    collect_interior: bool,
    out: Seq<Said<E::Feature, N>>,
    again: Seq<Said<E::Feature, N>>,
)
    requires
        forall|state: G::State, agent: usize| #[trigger]
            ctx.enc.spec_encode(state, agent).len() == d,
        steady_exp(exp),
        row_wise(nets.0, f, d, width),
        nets.0 == others.0,
        ctx.game.spec_action_count() > 0 ==> width % (ctx.game.spec_action_count() as nat) == 0,
        searched(ctx, exp, nets, requests, seed, collect_interior, out),
        searched(ctx, exp, others, requests, seed, collect_interior, again),
    ensures
        out == again,
        nets.1 == nets.0,
        others.1 == others.0,
{
    let acts = ctx.game.spec_action_count() as nat;
    let k = width / acts;
    let top = (usize::MAX + 1) as nat;
    assert(actions_below(*ctx.game, top));
    assert(frames(ctx, f, ctx, f, k)) by {
        assert(reframed(*ctx.enc, f, *ctx.enc, f, acts, k, top));
    }
    law_searches_ignore_the_view(
        ctx,
        f,
        nets,
        ctx,
        f,
        others,
        exp,
        d,
        width,
        requests,
        seed,
        collect_interior,
        out,
        again,
    );
    lemma_net_back(ctx, exp, f, d, width, nets, requests, seed, collect_interior, out);
    lemma_net_back(ctx, exp, f, d, width, others, requests, seed, collect_interior, again);
}

proof fn lemma_net_back<
    N: Scalar,
    G: Game<N>,
    E: StateEncoder<State = G::State>,
    W: Reward<N, Event = G::Event>,
    X: Exp<N>,
    I: Infer<E::Feature, N>,
>(
    ctx: Ctx<N, G, E, W>,
    exp: X,
    f: spec_fn(usize, Seq<E::Feature>) -> Seq<N>,
    d: nat,
    width: nat,
    nets: (I, I),
    requests: Seq<(G::State, usize)>,
    seed: u64,
    collect_interior: bool,
    out: Seq<Said<E::Feature, N>>,
)
    requires
        alike(ctx, ctx, d),
        row_wise(nets.0, f, d, width),
        ctx.game.spec_action_count() > 0 ==> width % (ctx.game.spec_action_count() as nat) == 0,
        searched(ctx, exp, nets, requests, seed, collect_interior, out),
    ensures
        nets.1 == nets.0,
{
    let a = pool_start::<G::State, E::Feature, N, I>(requests, seed, nets.0);
    let stages = choose|stages: Seq<Stage<G::State, E::Feature, N, I>>| #[trigger]
        rounds_played(ctx, exp, a, stages) && {
            let end = stages.last();
            &&& end.net == nets.1
            &&& out.len() == requests.len()
            &&& !any_due(due(end.searches, ctx.cfg.expansion_budget))
            &&& read_off(*ctx.game, ctx.cfg, end.searches, collect_interior, out)
        };
    lemma_net_stays(ctx, exp, f, d, width, a, stages, stages.len() - 1);
}

proof fn lemma_net_stays<
    N: Scalar,
    G: Game<N>,
    E: StateEncoder<State = G::State>,
    W: Reward<N, Event = G::Event>,
    X: Exp<N>,
    I: Infer<E::Feature, N>,
>(
    ctx: Ctx<N, G, E, W>,
    exp: X,
    f: spec_fn(usize, Seq<E::Feature>) -> Seq<N>,
    d: nat,
    width: nat,
    a: Stage<G::State, E::Feature, N, I>,
    stages: Seq<Stage<G::State, E::Feature, N, I>>,
    r: int,
)
    requires
        alike(ctx, ctx, d),
        row_wise(a.net, f, d, width),
        ctx.game.spec_action_count() > 0 ==> width % (ctx.game.spec_action_count() as nat) == 0,
        rounds_played(ctx, exp, a, stages),
        0 <= r < stages.len(),
    ensures
        stages[r].net == a.net,
    decreases r,
{
    if r > 0 {
        lemma_net_stays(ctx, exp, f, d, width, a, stages, r - 1);
        assert(round_at(ctx, exp, stages, r - 1));
        let x = stages[r - 1];
        let took = due(x.searches, ctx.cfg.expansion_budget);
        let i = choose|i: int| 0 <= i < took.len() && #[trigger] took[i];
        lemma_lane_step(ctx, exp, f, d, width, r - 1 == 0, x, stages[r - 1 + 1], i);
    }
}

} // verus!
