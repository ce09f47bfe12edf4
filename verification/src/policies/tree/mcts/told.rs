//! What rows tell a search, and how a simulation ends.

use vstd::prelude::*;

#[allow(unused_imports)]
use super::backup::{no_values, spec_backup};
#[allow(unused_imports)]
use super::grow::Reached;
#[allow(unused_imports)]
use super::guided::{law_logits_keep_differences, law_priors_add_up};
#[allow(unused_imports)]
use super::read::{
    logit_exponents, node_told, noised, prior_read, role_of, row_read, shares, RowRole,
};
#[allow(unused_imports)]
use super::select::Guidance;
#[allow(unused_imports)]
use super::simulate::settled_end;
#[allow(unused_imports)]
use super::tree::{NodeModel, TreeMode, TreeModel};
#[allow(unused_imports)]
use crate::encoder::ActionView;
#[allow(unused_imports)]
use crate::fault::Fault;
#[allow(unused_imports)]
use crate::means::splits;
#[allow(unused_imports)]
use crate::num::{ring, spec_sum, Scalar};
#[allow(unused_imports)]
use crate::policies::tree::expectimax::evaluate::{exps_of, heads_of, Exp};
#[allow(unused_imports)]
use crate::rng::{GammaSource, SplitMix64};

verus! {

/// By policy rows a node's value follows the logits. A row that sets a prior gives each action its
/// share of what the exponential made of the logits, which keep their differences; noise comes on top
/// only at a noised root.
pub proof fn law_rows_tell_value_and_prior<
    N: Scalar,
    V: ActionView,
    X: Exp<N>,
    M: GammaSource<N, SplitMix64>,
>(
    view: V,
    exp: X,
    gammas: M,
    c: N,
    noise: Option<(N, N, u64)>,
    noise_all: bool,
    a: nat,
    role: RowRole,
    ti: usize,
    slot: usize,
    actions: Seq<usize>,
    row: Seq<N>,
    value: N,
    prior: Option<Seq<N>>,
    i: int,
    j: int,
) -> (r: (Seq<N>, Seq<N>))
    requires
        ring::<N>(),
        row_read(
            view,
            exp,
            gammas,
            Guidance::Puct { c, noise, noise_all },
            a,
            role,
            ti,
            slot,
            actions,
            row,
            value,
            prior,
        ),
        0 <= i < actions.len(),
        0 <= j < actions.len(),
    ensures
        value == row[a as int],
        role.side ==> prior is None,
        !role.side ==> {
            let (given, z) = r;
            let calm = noise is None || !role.noised || !N::spec_zero().spec_less(noise->Some_0.0);
            &&& prior matches Some(p) && p.len() == actions.len()
            &&& given.len() == actions.len()
            &&& exps_of(exp, given, z)
            &&& given[i].spec_minus(given[j]) == row[view.spec_head_index(
                actions[i],
                role.agent,
            ) as int].spec_minus(row[view.spec_head_index(actions[j], role.agent) as int])
            &&& calm && splits(spec_sum(z)) ==> {
                &&& prior->Some_0[i].spec_times(spec_sum(z)) == z[i]
                &&& spec_sum(prior->Some_0) == N::spec_one()
            }
        },
{
    if role.side {
        (Seq::empty(), Seq::empty())
    } else {
        let heads = heads_of(view, actions, role.agent);
        let logits = heads.map_values(|h: usize| row[h as int]);
        let p = prior->Some_0;
        let given = logit_exponents(logits);
        let z = lemma_prior(exp, gammas, logits, noise, role, ti, slot, p);
        law_logits_keep_differences(logits, i, j);
        if splits(spec_sum(z)) {
            law_priors_add_up(z);
        }
        (given, z)
    }
}

proof fn lemma_prior<N: Scalar, X: Exp<N>, M: GammaSource<N, SplitMix64>>(
    exp: X,
    gammas: M,
    logits: Seq<N>,
    noise: Option<(N, N, u64)>,
    role: RowRole,
    ti: usize,
    slot: usize,
    prior: Seq<N>,
) -> (z: Seq<N>)
    requires
        prior_read(exp, gammas, logits, noise, role, ti, slot, prior),
    ensures
        exps_of(exp, logit_exponents(logits), z),
        noise is None || !role.noised || !N::spec_zero().spec_less(noise->Some_0.0) ==> prior
            == shares(z),
{
    choose|z: Seq<N>|
        exps_of(exp, logit_exponents(logits), z) && {
            let plain = #[trigger] shares(z);
            match noise {
                Some((eps, alpha, seed)) if role.noised && N::spec_zero().spec_less(
                    eps,
                ) => exists|draws: Seq<N>, end: SplitMix64|
                    draws.len() == plain.len() && #[trigger] crate::rng::drawn(
                        gammas,
                        crate::rng::generator(super::read::noise_stream(seed, ti, slot)),
                        alpha,
                        draws,
                        end,
                    ) && prior == noised(plain, eps, crate::rng::normalized(draws)),
                _ => prior == plain,
            }
        }
}

/// Whose a row is. Where all act at once, or all are valued, row by row an agent's own; else its
/// mover's. Only rows of the root are noised: there the mover's, the one who asked's, or everyone's.
pub proof fn law_rows_have_their_agents<S, F, N>(
    m: TreeModel<S, F, N>,
    ni: usize,
    slot: usize,
    noise_all: bool,
)
    requires
        ni < m.arena.len(),
    ensures
        ({
            let role = role_of(m, ni, slot, noise_all);
            let node = m.arena[ni as int];
            &&& role.noised ==> ni == 0
            &&& node.kind is Simultaneous ==> {
                &&& role.table == slot && role.agent == slot && !role.side
                &&& role.noised == (ni == 0 && (noise_all || slot == m.requester))
            }
            &&& !(node.kind is Simultaneous) ==> role.table == 0 && role.noised == (ni == 0)
            &&& !(node.kind is Simultaneous) && m.mode == TreeMode::SeqMaxN ==> role.agent == slot
                && role.side == (slot != node.actor)
            &&& !(node.kind is Simultaneous) && m.mode != TreeMode::SeqMaxN ==> role.agent
                == node.actor && !role.side
        }),
{
}

/// A node that was told of a row holds its value, alone in a two-agent tree and at its agent's place
/// otherwise; a prior goes to the arms of one table, arm by arm, which counts as evaluated. Nothing
/// that was credited changes.
pub proof fn law_nodes_take_in_what_they_are_told<S, F, N>(
    node: NodeModel<S, F, N>,
    mode: TreeMode,
    table: usize,
    slot: usize,
    value: N,
    prior: Option<Seq<N>>,
    t: int,
    i: int,
)
    requires
        0 <= t < node.tables.len(),
        0 <= i < node.tables[t].arms.len(),
    ensures
        node_told(node, mode, table, slot, value, prior) matches Ok(b) ==> {
            &&& mode == TreeMode::SeqNegamax ==> b.values == seq![value]
            &&& mode != TreeMode::SeqNegamax ==> slot < b.values.len() && b.values
                == node.values.update(slot as int, value)
            &&& b.state == node.state && b.links == node.links && b.actor == node.actor
            &&& b.tables.len() == node.tables.len()
            &&& b.tables[t].arms.len() == node.tables[t].arms.len()
            &&& b.tables[t].arms[i].action == node.tables[t].arms[i].action
            &&& b.tables[t].arms[i].visits == node.tables[t].arms[i].visits
            &&& b.tables[t].arms[i].value_sum == node.tables[t].arms[i].value_sum
            &&& b.tables[t].total_visits == node.tables[t].total_visits
            &&& b.tables[t].agent == node.tables[t].agent
            &&& prior is None || t != table ==> b.tables[t] == node.tables[t]
            &&& prior is Some && t == table ==> b.tables[t].evaluated && (i < prior->Some_0.len()
                ==> b.tables[t].arms[i].prior == prior->Some_0[i])
        },
{
}

/// At the end of the game nothing is to come: every value that is backed up is nothing. At the depth
/// cap the node's own values are. Neither asks for a row, and each is counted.
pub proof fn law_simulations_end_with_what_is_to_come<S, F, N: Scalar>(
    gamma: N,
    m: TreeModel<S, F, N>,
    h: int,
)
    requires
        m.leaf < m.arena.len(),
        0 <= h < no_values::<N>(m.mode, m.n_agents as nat).len(),
    ensures
        settled_end(gamma, Reached::Terminal, m) matches Ok((b, asks)) ==> {
            let none = no_values::<N>(m.mode, m.n_agents as nat);
            &&& asks.len() == 0
            &&& none[h] == N::spec_zero()
            &&& none.len() == if m.mode == TreeMode::SeqNegamax {
                1
            } else {
                m.n_agents as int
            }
            &&& m.terminal_sims < usize::MAX
            &&& spec_backup(
                gamma,
                TreeModel { terminal_sims: (m.terminal_sims + 1) as usize, ..m },
                none,
            ) == Ok::<_, Fault>(b)
        },
        settled_end(gamma, Reached::DepthCapped, m) matches Ok((b, asks)) ==> {
            &&& asks.len() == 0
            &&& m.depthcap_sims < usize::MAX
            &&& spec_backup(
                gamma,
                TreeModel { depthcap_sims: (m.depthcap_sims + 1) as usize, ..m },
                m.arena[m.leaf as int].values,
            ) == Ok::<_, Fault>(b)
        },
{
}

} // verus!
