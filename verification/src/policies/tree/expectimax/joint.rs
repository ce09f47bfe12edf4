//! What co-movers play together, and which interior decisions a search tells of.

use vstd::prelude::*;

#[allow(unused_imports)]
use super::backup::{interior, interior_branches, interior_edges, spec_action_values};
#[allow(unused_imports)]
use super::tree::{
    co_movers, joint_fan, joint_move, BranchModel, BranchWeight, MoveWeightModel, NodeModel,
};
#[allow(unused_imports)]
use crate::fault::Fault;
#[allow(unused_imports)]
use crate::game::Game;
#[allow(unused_imports)]
use crate::num::{law_ring, ring, Scalar};

verus! {

/// The number of a joint choice: mover by mover, the last varying fastest.
pub open spec fn choice_number<T>(options: Seq<Seq<T>>, chosen: Seq<nat>, i: nat) -> nat
    decreases i,
{
    if i == 0 {
        0
    } else {
        choice_number(options, chosen, (i - 1) as nat) * options[i - 1].len() + chosen[i - 1]
    }
}

/// How many joint choices the first `i` movers have.
pub open spec fn choice_count<T>(options: Seq<Seq<T>>, i: nat) -> nat
    decreases i,
{
    if i == 0 {
        1
    } else {
        choice_count(options, (i - 1) as nat) * options[i - 1].len()
    }
}

/// What an option is known to weigh; one where that is read later.
pub open spec fn known<N: Scalar>(bw: BranchWeight<N>) -> N {
    match bw {
        BranchWeight::Fixed(p) => p,
        BranchWeight::Deferred(_, _) => N::spec_one(),
    }
}

/// The product of what the chosen options of the first `i` movers are known to weigh.
pub open spec fn weight_of<N: Scalar>(
    options: Seq<Seq<(usize, BranchWeight<N>)>>,
    chosen: Seq<nat>,
    i: nat,
) -> N
    decreases i,
{
    if i == 0 {
        N::spec_one()
    } else {
        weight_of(options, chosen, (i - 1) as nat).spec_times(
            known(options[i - 1][chosen[i - 1] as int].1),
        )
    }
}

proof fn lemma_weight_same<N: Scalar>(
    options: Seq<Seq<(usize, BranchWeight<N>)>>,
    a: Seq<nat>,
    b: Seq<nat>,
    i: nat,
)
    requires
        i <= a.len(),
        i <= b.len(),
        forall|j: int| 0 <= j < i ==> #[trigger] a[j] == b[j],
    ensures
        weight_of(options, a, i) == weight_of(options, b, i),
        choice_number(options, a, i) == choice_number(options, b, i),
    decreases i,
{
    if i > 0 {
        lemma_weight_same(options, a, b, (i - 1) as nat);
        assert(a[i - 1] == b[i - 1]);
    }
}

/// Every number below the count stands for one joint choice: each mover plays one of its options, who
/// is no mover plays on as it did, and the choice weighs the product of what the options weigh.
pub proof fn law_numbers_stand_for_joint_choices<N: Scalar>(
    options: Seq<Seq<(usize, BranchWeight<N>)>>,
    movers: Seq<usize>,
    i: nat,
    number: nat,
    joint: Seq<usize>,
    mw: MoveWeightModel<N>,
) -> (chosen: Seq<nat>)
    requires
        ring::<N>(),
        i <= options.len() == movers.len(),
        number < choice_count(options, i),
        movers.no_duplicates(),
        forall|j: int| 0 <= j < movers.len() ==> #[trigger] movers[j] < joint.len(),
    ensures
        chosen.len() == i,
        choice_number(options, chosen, i) == number,
        forall|j: int| 0 <= j < i ==> #[trigger] chosen[j] < options[j].len(),
        ({
            let (out, weight) = joint_move(options, movers, i, number, joint, mw);
            &&& out.len() == joint.len()
            &&& forall|j: int|
                0 <= j < i ==> out[#[trigger] movers[j] as int]
                    == options[j][chosen[j] as int].0
            &&& forall|x: int|
                0 <= x < joint.len() && (forall|j: int| 0 <= j < i ==> #[trigger] movers[j] != x)
                    ==> #[trigger] out[x] == joint[x]
            &&& weight.fixed == mw.fixed.spec_times(weight_of(options, chosen, i))
        }),
    decreases i,
{
    law_ring(mw.fixed, mw.fixed, mw.fixed);
    if i == 0 {
        Seq::empty()
    } else {
        let c = (i - 1) as nat;
        let n = options[c as int].len();
        let w = choice_count(options, c);
        if n == 0 {
            assert(w * n == 0) by (nonlinear_arith)
                requires
                    n == 0,
            ;
        }
        assert(number / n < w && number == (number / n) * n + number % n && number % n < n)
            by (nonlinear_arith)
            requires
                number < w * n,
                n > 0,
        ;
        let d = number % n;
        let (action, bw) = options[c as int][d as int];
        let next = joint.update(movers[c as int] as int, action);
        let more = mw.joined(bw);
        let before = law_numbers_stand_for_joint_choices(
            options,
            movers,
            c,
            number / n,
            next,
            more,
        );
        let chosen = before.push(d);
        lemma_weight_same(options, before, chosen, c);
        let (out, weight) = joint_move(options, movers, i, number, joint, mw);
        assert((out, weight) == joint_move(options, movers, c, number / n, next, more));
        let p = weight_of(options, chosen, c);
        law_ring(mw.fixed, known(bw), p);
        law_ring(known(bw), p, p);
        law_ring(mw.fixed, p, known(bw));
        assert(more.fixed == mw.fixed.spec_times(known(bw)));
        assert forall|j: int| 0 <= j < i implies out[#[trigger] movers[j] as int]
            == options[j][chosen[j] as int].0 by {
            if j == c {
                assert forall|k: int| 0 <= k < c implies #[trigger] movers[k]
                    != movers[c as int] by {}
                let x = movers[c as int] as int;
                assert(out[x] == next[x]);
            } else {
                assert(chosen[j] == before[j]);
            }
        }
        assert forall|x: int|
            0 <= x < joint.len() && (forall|j: int|
                0 <= j < i ==> #[trigger] movers[j] != x) implies #[trigger] out[x]
            == joint[x] by {
            assert(movers[c as int] != x);
            assert(out[x] == next[x]);
        }
        assert forall|j: int| 0 <= j < i implies #[trigger] chosen[j] < options[j].len() by {
            if j < c {
                assert(chosen[j] == before[j]);
            }
        }
        chosen
    }
}

/// As many joint choices are gone through as the movers have together; none where they outgrow the
/// bound on the way.
pub proof fn law_joint_choices_are_counted<T>(options: Seq<Seq<T>>, i: nat)
    requires
        i <= options.len(),
    ensures
        joint_fan(options, i, choice_count(options, i)) matches Some(n) ==> n == choice_count(
            options,
            options.len(),
        ),
    decreases options.len() - i,
{
    if i < options.len() {
        law_joint_choices_are_counted(options, i + 1);
    }
}

/// The co-movers are all agents but the searcher, each once, in order.
pub proof fn law_co_movers_are_the_others(n: nat, agent: usize)
    requires
        n <= usize::MAX,
    ensures
        forall|x: usize| #[trigger] co_movers(n, agent).contains(x) == (x < n && x != agent),
        forall|i: int, j: int|
            0 <= i < j < co_movers(n, agent).len() ==> co_movers(n, agent)[i] < co_movers(
                n,
                agent,
            )[j],
    decreases n,
{
    if n > 0 {
        law_co_movers_are_the_others((n - 1) as nat, agent);
        let before = co_movers((n - 1) as nat, agent);
        let now = co_movers(n, agent);
        let last = (n - 1) as usize;
        if n - 1 != agent {
            assert(now == before.push(last));
            assert forall|x: usize| #[trigger] now.contains(x) == (x < n && x != agent) by {
                if x == last {
                    assert(now[before.len() as int] == x);
                } else if before.contains(x) {
                    let k = choose|k: int| 0 <= k < before.len() && before[k] == x;
                    assert(now[k] == x);
                } else if now.contains(x) {
                    let k = choose|k: int| 0 <= k < now.len() && now[k] == x;
                    assert(before[k] == x);
                    assert(before.contains(x));
                }
            }
            assert forall|i: int, j: int| 0 <= i < j < now.len() implies now[i] < now[j] by {
                if j == before.len() {
                    assert(before.contains(before[i]));
                    assert(now[i] == before[i]);
                } else {
                    assert(now[i] == before[i] && now[j] == before[j]);
                }
            }
        } else {
            assert(now == before);
        }
    }
}

/// `target` is an expanded decision of the searcher at which no action was left out: what was seen
/// there, and what its actions are worth.
pub open spec fn tells_of<N: Scalar, G: Game<N>, F>(
    game: G,
    agent: usize,
    arena: Seq<NodeModel<G::State, F, N>>,
    gamma: N,
    k: nat,
    target: (Seq<F>, Seq<Seq<N>>),
    idx: int,
) -> bool {
    let node = arena[idx];
    let legal = game.spec_legal_actions(node.state, agent);
    &&& 0 <= idx < arena.len()
    &&& !node.terminal
    &&& node.max_node
    &&& node.edges matches Some(edges) && edges.len() == legal.len()
    &&& target.0 == node.obs
    &&& spec_action_values(arena, idx, legal, gamma, k, game.spec_action_count() as nat) == Ok::<
        _,
        Fault,
    >(target.1)
}

/// `target` tells of some such decision.
pub open spec fn told<N: Scalar, G: Game<N>, F>(
    game: G,
    agent: usize,
    arena: Seq<NodeModel<G::State, F, N>>,
    gamma: N,
    k: nat,
    target: (Seq<F>, Seq<Seq<N>>),
) -> bool {
    exists|idx: int| #[trigger] tells_of(game, agent, arena, gamma, k, target, idx)
}

/// Every target tells of some such decision, and those before stay.
pub open spec fn all_told<N: Scalar, G: Game<N>, F>(
    game: G,
    agent: usize,
    arena: Seq<NodeModel<G::State, F, N>>,
    gamma: N,
    k: nat,
    before: Seq<(Seq<F>, Seq<Seq<N>>)>,
    after: Seq<(Seq<F>, Seq<Seq<N>>)>,
) -> bool {
    &&& before.len() <= after.len()
    &&& forall|t: int| 0 <= t < before.len() ==> #[trigger] after[t] == before[t]
    &&& forall|t: int|
        before.len() <= t < after.len() ==> told(
            game,
            agent,
            arena,
            gamma,
            k,
            #[trigger] after[t],
        )
}

proof fn lemma_told_on<N: Scalar, G: Game<N>, F>(
    game: G,
    agent: usize,
    arena: Seq<NodeModel<G::State, F, N>>,
    gamma: N,
    k: nat,
    a: Seq<(Seq<F>, Seq<Seq<N>>)>,
    b: Seq<(Seq<F>, Seq<Seq<N>>)>,
    c: Seq<(Seq<F>, Seq<Seq<N>>)>,
)
    requires
        all_told(game, agent, arena, gamma, k, a, b),
        all_told(game, agent, arena, gamma, k, b, c),
    ensures
        all_told(game, agent, arena, gamma, k, a, c),
{
    assert forall|t: int| 0 <= t < a.len() implies #[trigger] c[t] == a[t] by {
        assert(b[t] == a[t]);
    }
    assert forall|t: int| a.len() <= t < c.len() implies told(
        game,
        agent,
        arena,
        gamma,
        k,
        #[trigger] c[t],
    ) by {
        if t < b.len() {
            assert(c[t] == b[t]);
        }
    }
}

/// Every interior target is of an expanded decision of the searcher at which no action was left out:
/// what was seen there, and what its actions are worth.
pub proof fn law_interior_targets_are_action_values<N: Scalar, G: Game<N>, F>(
    game: G,
    agent: usize,
    arena: Seq<NodeModel<G::State, F, N>>,
    idx: int,
    gamma: N,
    k: nat,
    out: Seq<(Seq<F>, Seq<Seq<N>>)>,
)
    ensures
        interior(game, agent, arena, idx, gamma, k, out) matches Ok(more) ==> all_told(
            game,
            agent,
            arena,
            gamma,
            k,
            out,
            more,
        ),
    decreases arena.len() - idx, 2int, 0int,
{
    if 0 <= idx < arena.len() && !arena[idx].terminal && arena[idx].edges is Some {
        let node = arena[idx];
        let edges = node.edges->0;
        let legal = game.spec_legal_actions(node.state, agent);
        if node.max_node && edges.len() == legal.len() {
            if let Ok(values) = spec_action_values(
                arena,
                idx,
                legal,
                gamma,
                k,
                game.spec_action_count() as nat,
            ) {
                let one = out.push((node.obs, values));
                assert(tells_of(game, agent, arena, gamma, k, one[out.len() as int], idx));
                lemma_told_edges(game, agent, arena, idx, edges, gamma, k, 0, one);
                if let Ok(more) = interior_edges(
                    game,
                    agent,
                    arena,
                    idx,
                    edges,
                    gamma,
                    k,
                    0,
                    one,
                ) {
                    lemma_told_on(game, agent, arena, gamma, k, out, one, more);
                }
            }
        } else {
            lemma_told_edges(game, agent, arena, idx, edges, gamma, k, 0, out);
        }
    }
}

proof fn lemma_told_edges<N: Scalar, G: Game<N>, F>(
    game: G,
    agent: usize,
    arena: Seq<NodeModel<G::State, F, N>>,
    idx: int,
    edges: Seq<Seq<BranchModel<N>>>,
    gamma: N,
    k: nat,
    ei: nat,
    out: Seq<(Seq<F>, Seq<Seq<N>>)>,
)
    ensures
        interior_edges(game, agent, arena, idx, edges, gamma, k, ei, out) matches Ok(more)
            ==> all_told(game, agent, arena, gamma, k, out, more),
    decreases arena.len() - idx, 1int, edges.len() - ei,
{
    if ei < edges.len() {
        lemma_told_branches(game, agent, arena, idx, edges[ei as int], gamma, k, 0, out);
        if let Ok(mid) = interior_branches(
            game,
            agent,
            arena,
            idx,
            edges[ei as int],
            gamma,
            k,
            0,
            out,
        ) {
            lemma_told_edges(game, agent, arena, idx, edges, gamma, k, ei + 1, mid);
            if let Ok(more) = interior_edges(
                game,
                agent,
                arena,
                idx,
                edges,
                gamma,
                k,
                ei + 1,
                mid,
            ) {
                lemma_told_on(game, agent, arena, gamma, k, out, mid, more);
            }
        }
    }
}

proof fn lemma_told_branches<N: Scalar, G: Game<N>, F>(
    game: G,
    agent: usize,
    arena: Seq<NodeModel<G::State, F, N>>,
    idx: int,
    branches: Seq<BranchModel<N>>,
    gamma: N,
    k: nat,
    bi: nat,
    out: Seq<(Seq<F>, Seq<Seq<N>>)>,
)
    ensures
        interior_branches(game, agent, arena, idx, branches, gamma, k, bi, out) matches Ok(more)
            ==> all_told(game, agent, arena, gamma, k, out, more),
    decreases arena.len() - idx, 0int, branches.len() - bi,
{
    if bi < branches.len() {
        let c = branches[bi as int].child as int;
        if !(idx < c < arena.len()) {
            lemma_told_branches(game, agent, arena, idx, branches, gamma, k, bi + 1, out);
        } else {
            law_interior_targets_are_action_values(game, agent, arena, c, gamma, k, out);
            if let Ok(mid) = interior(game, agent, arena, c, gamma, k, out) {
                lemma_told_branches(game, agent, arena, idx, branches, gamma, k, bi + 1, mid);
                if let Ok(more) = interior_branches(
                    game,
                    agent,
                    arena,
                    idx,
                    branches,
                    gamma,
                    k,
                    bi + 1,
                    mid,
                ) {
                    lemma_told_on(game, agent, arena, gamma, k, out, mid, more);
                }
            }
        }
    }
}

} // verus!
