//! What a round's network rows make of its leaves and of the co-movers' beliefs.

use vstd::prelude::*;

use super::tree::{
    find_leaf_player, Branch, Ctx, Edge, Node, Opponent, Search, SearchConfig,
};
#[allow(unused_imports)]
use super::tree::{
    branch_models, edge_models, leaf_player, node_models, rooted, BranchModel, NodeModel, SearchModel,
    SearchStats,
};
use crate::encoder::{ActionView, StateEncoder};
use crate::fault::Fault;
use crate::game::{Actor, Game};
use crate::num::{largest, sum, Scalar};
#[allow(unused_imports)]
use crate::num::{spec_largest, spec_sum};
use crate::policy::MAX_ENUMERATED_OUTCOMES;
use crate::reward::Reward;
use crate::util::{copied, filled};
#[allow(unused_imports)]
use crate::util::{spec_filled, viewed};

verus! {

/// A source of exponentials.
pub trait Exp<N: Scalar> {
    fn exp(&self, x: N) -> N;
}

/// What is handed to the exponential: each value below the largest, by temperature.
pub open spec fn softmax_exponents<N: Scalar>(q: Seq<N>, temperature: N) -> Seq<N> {
    q.map_values(|v: N| v.spec_minus(spec_largest(q)).spec_over(temperature))
}

/// The distribution that the exponentials `z` stand for, with `floor` of the mass spread evenly.
pub open spec fn floored<N: Scalar>(z: Seq<N>, floor: N) -> Seq<N> {
    z.map_values(
        |zi: N|
            N::spec_one().spec_minus(floor).spec_times(zi).spec_over(spec_sum(z)).spec_plus(
                floor.spec_over(N::spec_count(z.len() as u64)),
            ),
    )
}

/// `z` holds what `exp` gave for each of `xs`.
pub open spec fn exps_of<N: Scalar, X: Exp<N>>(exp: X, xs: Seq<N>, z: Seq<N>) -> bool {
    z.len() == xs.len() && forall|i: int|
        0 <= i < xs.len() ==> call_ensures(X::exp, (&exp, xs[i]), #[trigger] z[i])
}

/// Spreads `floor` of the mass of the exponentials `z` evenly.
pub fn floor_distribution<N: Scalar>(z: &[N], floor: N) -> (r: Vec<N>)
    ensures
        r@ == floored(z@, floor),
{
    let total = sum(z);
    let share = floor.over(N::count(z.len() as u64));
    let mut r: Vec<N> = Vec::new();
    let mut i: usize = 0;
    while i < z.len()
        invariant
            i <= z@.len(),
            total == spec_sum(z@),
            share == floor.spec_over(N::spec_count(z@.len() as u64)),
            r@.len() == i,
            forall|k: int| 0 <= k < i ==> #[trigger] r@[k] == floored(z@, floor)[k],
        decreases z.len() - i,
    {
        r.push(N::one().minus(floor).times(z[i]).over(total).plus(share));
        i = i + 1;
    }
    assert(r@ =~= floored(z@, floor));
    r
}

/// A softmax with a floor.
pub fn softmax_floor<N: Scalar, X: Exp<N>>(exp: &X, q: &[N], temperature: N, floor: N) -> (r: Vec<
    N,
>)
    ensures
        r@.len() == q@.len(),
        exists|z: Seq<N>|
            exps_of(*exp, softmax_exponents(q@, temperature), z) && r@ == #[trigger] floored(
                z,
                floor,
            ),
{
    let top = largest(q);
    let mut z: Vec<N> = Vec::new();
    let mut i: usize = 0;
    while i < q.len()
        invariant
            i <= q@.len(),
            top == spec_largest(q@),
            z@.len() == i,
            forall|k: int|
                0 <= k < i ==> call_ensures(
                    X::exp,
                    (exp, softmax_exponents(q@, temperature)[k]),
                    #[trigger] z@[k],
                ),
        decreases q.len() - i,
    {
        let x = q[i].minus(top).over(temperature);
        assert(x == softmax_exponents(q@, temperature)[i as int]);
        let e = exp.exp(x);
        z.push(e);
        i = i + 1;
    }
    assert(exps_of(*exp, softmax_exponents(q@, temperature), z@));
    floor_distribution(&z, floor)
}

/// The entries of column `j` in a row of `k` heads of `a` actions.
pub open spec fn column<N>(row: Seq<N>, k: nat, a: nat, j: nat) -> Seq<N> {
    Seq::new(k, |h: int| row[h * a + j])
}

/// The mean of the heads at column `j`.
pub open spec fn column_mean<N: Scalar>(row: Seq<N>, k: nat, a: nat, j: nat) -> N {
    spec_sum(column(row, k, a, j)).spec_over(N::spec_count(k as u64))
}

/// An entry of a row is in the row.
pub proof fn lemma_entry(h: nat, k: nat, a: nat, j: nat)
    requires
        h < k,
        j < a,
    ensures
        0 <= h * a + j < k * a,
        h * a <= k * a,
{
    assert(h * a + j < k * a && 0 <= h * a && h * a <= k * a) by (nonlinear_arith)
        requires
            h < k,
            j < a,
    ;
}

pub(crate) fn mean_of_heads<N: Scalar>(row: &[N], k: usize, a: usize, j: usize) -> (r: N)
    requires
        row@.len() == k * a,
        j < a,
    ensures
        r == column_mean(row@, k as nat, a as nat, j as nat),
{
    let mut entries: Vec<N> = Vec::new();
    let mut h: usize = 0;
    let len = row.len();
    while h < k
        invariant
            h <= k,
            row@.len() == k * a,
            len == row@.len(),
            j < a,
            entries@.len() == h,
            forall|i: int| 0 <= i < h ==> #[trigger] entries@[i] == row@[i * a + j],
        decreases k - h,
    {
        proof {
            lemma_entry(h as nat, k as nat, a as nat, j as nat);
        }
        entries.push(row[h * a + j]);
        h = h + 1;
    }
    assert(entries@ =~= column(row@, k as nat, a as nat, j as nat));
    sum(&entries).over(N::count(k as u64))
}

/// The heads of `legal` in the frame of `agent`.
pub open spec fn heads_of<V: ActionView>(view: V, legal: Seq<usize>, agent: usize) -> Seq<usize> {
    legal.map_values(|a: usize| view.spec_head_index(a, agent))
}

/// Some index is not below `end`.
pub open spec fn strays(xs: Seq<usize>, end: nat) -> bool {
    exists|i: int| 0 <= i < xs.len() && #[trigger] xs[i] >= end
}

pub(crate) fn find_heads<V: ActionView>(view: &V, legal: &[usize], agent: usize) -> (r: Vec<usize>)
    ensures
        r@ == heads_of(*view, legal@, agent),
{
    let mut r: Vec<usize> = Vec::new();
    let mut i: usize = 0;
    while i < legal.len()
        invariant
            i <= legal@.len(),
            r@.len() == i,
            forall|k: int| 0 <= k < i ==> #[trigger] r@[k] == view.spec_head_index(legal@[k], agent),
        decreases legal.len() - i,
    {
        r.push(view.head_index(legal[i], agent));
        i = i + 1;
    }
    assert(r@ =~= heads_of(*view, legal@, agent));
    r
}

pub(crate) fn any_stray(xs: &[usize], end: usize) -> (r: bool)
    ensures
        r == strays(xs@, end as nat),
{
    let mut i: usize = 0;
    while i < xs.len()
        invariant
            i <= xs@.len(),
            forall|k: int| 0 <= k < i ==> #[trigger] xs@[k] < end,
        decreases xs.len() - i,
    {
        if xs[i] >= end {
            return true;
        }
        i = i + 1;
    }
    false
}

/// The entries of head `h` at `heads`.
pub open spec fn gathered<N>(row: Seq<N>, a: nat, h: nat, heads: Seq<usize>) -> Seq<N> {
    heads.map_values(|x: usize| row[h * a + x])
}

/// A leaf's value per head: the best legal entry for whoever moves there, and the negative of it
/// where that is the adversary.
pub open spec fn leaf_values<N: Scalar>(
    row: Seq<N>,
    k: nat,
    a: nat,
    heads: Seq<usize>,
    adverse: bool,
) -> Seq<N> {
    Seq::new(
        k,
        |h: int|
            if adverse {
                spec_largest(gathered(row, a, h as nat, heads)).spec_negated()
            } else {
                spec_largest(gathered(row, a, h as nat, heads))
            },
    )
}

/// What a head holds for each action does not depend on the view: rows that hold the same number
/// for every action, each where its own view has it, are read alike.
pub proof fn law_heads_are_read_alike_under_every_view<N: Scalar>(
    row: Seq<N>,
    heads: Seq<usize>,
    other: Seq<N>,
    other_heads: Seq<usize>,
    k: nat,
    a: nat,
    adverse: bool,
)
    requires
        heads.len() == other_heads.len(),
        forall|h: int, x: int|
            0 <= h < k && 0 <= x < heads.len() ==> row[h * a + #[trigger] heads[x]] == other[
            #[trigger] (h * a) + other_heads[x]],
    ensures
        forall|h: int|
            0 <= h < k ==> gathered(row, a, h as nat, heads) == #[trigger] gathered(
                other,
                a,
                h as nat,
                other_heads,
            ),
        leaf_values(row, k, a, heads, adverse) == leaf_values(other, k, a, other_heads, adverse),
{
    assert forall|h: int| 0 <= h < k implies gathered(row, a, h as nat, heads)
        == #[trigger] gathered(other, a, h as nat, other_heads) by {
        assert forall|x: int| 0 <= x < heads.len() implies row[h * a + #[trigger] heads[x]]
            == other[h * a + other_heads[x]] by {
            let base = h * a;
        }
        assert(gathered(row, a, h as nat, heads) =~= gathered(other, a, h as nat, other_heads));
    }
    assert(leaf_values(row, k, a, heads, adverse) =~= leaf_values(
        other,
        k,
        a,
        other_heads,
        adverse,
    ));
}

fn bootstrap_values<N: Scalar>(
    row: &[N],
    k: usize,
    a: usize,
    heads: &[usize],
    adverse: bool,
) -> (r: Vec<N>)
    requires
        row@.len() == k * a,
        !strays(heads@, a as nat),
    ensures
        r@ == leaf_values(row@, k as nat, a as nat, heads@, adverse),
{
    let mut r: Vec<N> = Vec::new();
    let mut h: usize = 0;
    let len = row.len();
    while h < k
        invariant
            h <= k,
            len == row@.len() == k * a,
            !strays(heads@, a as nat),
            r@.len() == h,
            forall|i: int|
                0 <= i < h ==> #[trigger] r@[i] == leaf_values(
                    row@,
                    k as nat,
                    a as nat,
                    heads@,
                    adverse,
                )[i],
        decreases k - h,
    {
        let mut entries: Vec<N> = Vec::new();
        let mut i: usize = 0;
        while i < heads.len()
            invariant
                i <= heads@.len(),
                h < k,
                len == row@.len() == k * a,
                !strays(heads@, a as nat),
                entries@.len() == i,
                forall|j: int| 0 <= j < i ==> #[trigger] entries@[j] == row@[h * a + heads@[j]],
            decreases heads.len() - i,
        {
            let x = heads[i];
            proof {
                assert(!(heads@[i as int] >= a));
                lemma_entry(h as nat, k as nat, a as nat, x as nat);
            }
            entries.push(row[h * a + x]);
            i = i + 1;
        }
        assert(entries@ =~= gathered(row@, a as nat, h as nat, heads@));
        if adverse {
            r.push(largest(&entries).negated());
        } else {
            r.push(largest(&entries));
        }
        h = h + 1;
    }
    assert(r@ =~= leaf_values(row@, k as nat, a as nat, heads@, adverse));
    r
}

/// The spread of `values` about their mean.
pub open spec fn spec_std<N: Scalar>(values: Seq<N>) -> N {
    let n = N::spec_count(values.len() as u64);
    let mean = spec_sum(values).spec_over(n);
    spec_sum(
        values.map_values(|x: N| x.spec_minus(mean).spec_times(x.spec_minus(mean))),
    ).spec_over(n).spec_root()
}

fn spread<N: Scalar>(values: &[N]) -> (r: N)
    ensures
        r == spec_std(values@),
{
    let n = N::count(values.len() as u64);
    let mean = sum(values).over(n);
    let mut squares: Vec<N> = Vec::new();
    let mut i: usize = 0;
    while i < values.len()
        invariant
            i <= values@.len(),
            squares@.len() == i,
            forall|k: int|
                0 <= k < i ==> #[trigger] squares@[k] == values@[k].spec_minus(mean).spec_times(
                    values@[k].spec_minus(mean),
                ),
        decreases values.len() - i,
    {
        let d = values[i].minus(mean);
        squares.push(d.times(d));
        i = i + 1;
    }
    assert(squares@ =~= values@.map_values(
        |x: N| x.spec_minus(mean).spec_times(x.spec_minus(mean)),
    ));
    sum(&squares).over(n).root()
}

/// `out` with the head mean of each legal action from the `i`-th on.
pub open spec fn mean_row<N: Scalar>(
    row: Seq<N>,
    k: nat,
    a: nat,
    legal: Seq<usize>,
    heads: Seq<usize>,
    i: nat,
    out: Seq<N>,
) -> Seq<N>
    decreases legal.len() - i,
{
    if i >= legal.len() {
        out
    } else {
        mean_row(
            row,
            k,
            a,
            legal,
            heads,
            i + 1,
            out.update(legal[i as int] as int, column_mean(row, k, a, heads[i as int] as nat)),
        )
    }
}

fn build_mean_row<N: Scalar>(
    row: &[N],
    k: usize,
    a: usize,
    legal: &[usize],
    heads: &[usize],
) -> (r: Vec<N>)
    requires
        row@.len() == k * a,
        legal@.len() == heads@.len(),
        !strays(heads@, a as nat),
        !strays(legal@, a as nat),
    ensures
        r@ == mean_row(
            row@,
            k as nat,
            a as nat,
            legal@,
            heads@,
            0,
            spec_filled(N::spec_lowest(), a as nat),
        ),
{
    let mut r: Vec<N> = filled(N::lowest(), a);
    let mut i: usize = 0;
    while i < legal.len()
        invariant
            i <= legal@.len(),
            r@.len() == a,
            row@.len() == k * a,
            legal@.len() == heads@.len(),
            !strays(heads@, a as nat),
            !strays(legal@, a as nat),
            mean_row(row@, k as nat, a as nat, legal@, heads@, i as nat, r@) == mean_row(
                row@,
                k as nat,
                a as nat,
                legal@,
                heads@,
                0,
                spec_filled(N::spec_lowest(), a as nat),
            ),
        decreases legal.len() - i,
    {
        assert(!(heads@[i as int] >= a));
        assert(!(legal@[i as int] >= a));
        r.set(legal[i], mean_of_heads(row, k, a, heads[i]));
        i = i + 1;
    }
    r
}

/// The actions open at a leaf: the mover's, even where the row is the searcher's.
pub open spec fn leaf_legal<N: Scalar, G: Game<N>>(
    game: G,
    state: G::State,
    agent: usize,
) -> Result<Seq<usize>, Fault> {
    match game.spec_actor(state) {
        Actor::Agent(mover) => Ok(game.spec_legal_actions(state, mover)),
        Actor::Simultaneous => Ok(game.spec_legal_actions(state, agent)),
        Actor::Chance => Err(Fault::ChanceActor),
    }
}

/// Whether leaf evaluations are kept to order a beamed expansion.
pub open spec fn beams<N>(cfg: SearchConfig<N>) -> bool {
    cfg.opponent matches Opponent::Adversarial { move_cap } && move_cap != usize::MAX
}

/// The search with leaf `li` evaluated by `row`.
pub open spec fn leaf_evaluated<
    N: Scalar,
    G: Game<N>,
    E: StateEncoder<State = G::State>,
    W: Reward<N, Event = G::Event>,
>(
    ctx: Ctx<N, G, E, W>,
    m: SearchModel<G::State, E::Feature, N>,
    li: int,
    row: Seq<N>,
    k: nat,
) -> Result<SearchModel<G::State, E::Feature, N>, Fault> {
    let a = ctx.game.spec_action_count() as nat;
    let node = m.arena[li];
    match leaf_legal(*ctx.game, node.state, m.agent) {
        Err(f) => Err(f),
        Ok(legal) => {
            let player = leaf_player(*ctx.game, ctx.cfg, node.state, m.agent);
            let heads = heads_of(*ctx.enc, legal, player);
            if strays(heads, a) {
                Err(Fault::HeadRange)
            } else if beams(ctx.cfg) && strays(legal, a) {
                Err(Fault::ActionRange)
            } else {
                let boot = leaf_values(
                    row,
                    k,
                    a,
                    heads,
                    player != m.agent,
                );
                Ok(
                    SearchModel {
                        arena: m.arena.update(
                            li,
                            NodeModel {
                                sigma: spec_std(boot),
                                bootstrap: boot,
                                q_row: if beams(ctx.cfg) {
                                    mean_row(
                                        row,
                                        k,
                                        a,
                                        legal,
                                        heads,
                                        0,
                                        spec_filled(N::spec_lowest(), a),
                                    )
                                } else {
                                    node.q_row
                                },
                                ..node
                            },
                        ),
                        stats: SearchStats {
                            leaves: (m.stats.leaves + 1) as usize,
                            sigma_sum: m.stats.sigma_sum.spec_plus(spec_std(boot)),
                            ..m.stats
                        },
                        ..m
                    },
                )
            }
        },
    }
}

/// Same tree, other numbers.
pub open spec fn same_shape<S, F, N>(a: Seq<NodeModel<S, F, N>>, b: Seq<NodeModel<S, F, N>>) -> bool {
    &&& a.len() == b.len()
    &&& forall|i: int|
        0 <= i < a.len() ==> (#[trigger] b[i]).depth == a[i].depth && same_children(
            a[i].edges,
            b[i].edges,
        )
}

/// Same children, other weights.
pub open spec fn same_children<N>(
    a: Option<Seq<Seq<BranchModel<N>>>>,
    b: Option<Seq<Seq<BranchModel<N>>>>,
) -> bool {
    match (a, b) {
        (None, None) => true,
        (Some(x), Some(y)) => {
            &&& x.len() == y.len()
            &&& forall|e: int| 0 <= e < x.len() ==> (#[trigger] y[e]).len() == x[e].len()
            &&& forall|e: int, i: int|
                #![trigger y[e][i]]
                0 <= e < x.len() && 0 <= i < x[e].len() ==> y[e][i].child == x[e][i].child
        },
        _ => false,
    }
}

proof fn lemma_same_shape_rooted<S, F, N>(a: Seq<NodeModel<S, F, N>>, b: Seq<NodeModel<S, F, N>>)
    requires
        same_shape(a, b),
        rooted(a),
    ensures
        rooted(b),
{
    assert forall|i: int, e: int, k: int|
        #![trigger b[i].edges->0[e][k]]
        0 <= i < b.len() && b[i].edges is Some && 0 <= e < b[i].edges->0.len() && 0 <= k
            < b[i].edges->0[e].len() implies i < b[i].edges->0[e][k].child < b.len() by {
        assert(same_children(a[i].edges, b[i].edges));
        assert(b[i].edges->0[e].len() == a[i].edges->0[e].len());
        assert(b[i].edges->0[e][k].child == a[i].edges->0[e][k].child);
    }
}

proof fn lemma_same_shape_trans<S, F, N>(
    a: Seq<NodeModel<S, F, N>>,
    b: Seq<NodeModel<S, F, N>>,
    c: Seq<NodeModel<S, F, N>>,
)
    requires
        same_shape(a, b),
        same_shape(b, c),
    ensures
        same_shape(a, c),
{
    assert forall|i: int| 0 <= i < a.len() implies (#[trigger] c[i]).depth == a[i].depth
        && same_children(a[i].edges, c[i].edges) by {
        assert(b[i].depth == a[i].depth);
        assert(same_children(a[i].edges, b[i].edges));
        assert(same_children(b[i].edges, c[i].edges));
        if a[i].edges is Some {
            let (x, y, z) = (a[i].edges->0, b[i].edges->0, c[i].edges->0);
            assert forall|e: int| 0 <= e < x.len() implies (#[trigger] z[e]).len() == x[e].len() by {
                assert(y[e].len() == x[e].len());
            }
            assert forall|e: int, j: int|
                #![trigger z[e][j]]
                0 <= e < x.len() && 0 <= j < x[e].len() implies z[e][j].child == x[e][j].child by {
                assert(y[e].len() == x[e].len());
                assert(y[e][j].child == x[e][j].child);
            }
        }
    }
}

fn evaluate_leaf<
    N: Scalar,
    G: Game<N>,
    E: StateEncoder<State = G::State>,
    W: Reward<N, Event = G::Event>,
>(
    s: &mut Search<G::State, E::Feature, N>,
    ctx: &Ctx<N, G, E, W>,
    li: usize,
    row: &[N],
    k: usize,
) -> (r: Result<(), Fault>)
    requires
        li < old(s)@.arena.len(),
        row@.len() == k * ctx.game.spec_action_count(),
        old(s)@.stats.leaves < usize::MAX,
    ensures
        match r {
            Ok(_) => {
                &&& leaf_evaluated(*ctx, old(s)@, li as int, row@, k as nat) == Ok::<_, Fault>(
                    final(s)@,
                )
                &&& same_shape(old(s)@.arena, final(s)@.arena)
            },
            Err(f) => leaf_evaluated(*ctx, old(s)@, li as int, row@, k as nat) == Err::<
                SearchModel<G::State, E::Feature, N>,
                _,
            >(f),
        },
{
    let a = ctx.game.action_count();
    let agent = s.agent;
    assert(s@.arena[li as int] == s.arena@[li as int]@);
    let actor = ctx.game.actor(&s.arena[li].state);
    let player = find_leaf_player(ctx.game, &ctx.cfg, &s.arena[li].state, agent);
    let legal = match actor {
        Actor::Agent(mover) => ctx.game.legal_actions(&s.arena[li].state, mover),
        Actor::Simultaneous => ctx.game.legal_actions(&s.arena[li].state, agent),
        Actor::Chance => return Err(Fault::ChanceActor),
    };
    let heads = find_heads(ctx.enc, &legal, player);
    if any_stray(&heads, a) {
        return Err(Fault::HeadRange);
    }
    let beam = match ctx.cfg.opponent {
        Opponent::Adversarial { move_cap } => move_cap != usize::MAX,
        _ => false,
    };
    if beam && any_stray(&legal, a) {
        return Err(Fault::ActionRange);
    }
    let boot = bootstrap_values(row, k, a, &heads, player != agent);
    let sigma = spread(&boot);
    let ghost held = s@;
    let ghost values = boot@;
    s.arena[li].sigma = sigma;
    s.arena[li].bootstrap = boot;
    let ghost mut kept = held.arena[li as int].q_row;
    if beam {
        let q_row = build_mean_row(row, k, a, &legal, &heads);
        proof {
            kept = q_row@;
        }
        s.arena[li].q_row = q_row;
    }
    s.stats.leaves = s.stats.leaves + 1;
    s.stats.sigma_sum = s.stats.sigma_sum.plus(sigma);
    assert(s@.arena =~= held.arena.update(
        li as int,
        NodeModel { sigma, bootstrap: values, q_row: kept, ..held.arena[li as int] },
    ));
    Ok(())
}

/// The search with the leaves from the `j`-th on evaluated, their rows standing behind `n_opp`
/// others.
pub open spec fn leaves_evaluated<
    N: Scalar,
    G: Game<N>,
    E: StateEncoder<State = G::State>,
    W: Reward<N, Event = G::Event>,
>(
    ctx: Ctx<N, G, E, W>,
    leaves: Seq<usize>,
    rows: Seq<N>,
    n_opp: nat,
    k: nat,
    j: nat,
    m: SearchModel<G::State, E::Feature, N>,
) -> Result<SearchModel<G::State, E::Feature, N>, Fault>
    decreases leaves.len() - j,
{
    if j >= leaves.len() {
        Ok(m)
    } else {
        let a = ctx.game.spec_action_count() as nat;
        let row = crate::policy::spec_row(rows, k * a, n_opp + j);
        match leaf_evaluated(ctx, m, leaves[j as int] as int, row, k) {
            Err(f) => Err(f),
            Ok(next) => leaves_evaluated(ctx, leaves, rows, n_opp, k, j + 1, next),
        }
    }
}

/// The product of `acc` and the deferred factors from the `i`-th on.
pub open spec fn factored<N: Scalar>(
    deferred: Seq<(usize, usize)>,
    probs: Seq<Seq<N>>,
    i: nat,
    acc: N,
) -> Result<N, Fault>
    decreases deferred.len() - i,
{
    if i >= deferred.len() {
        Ok(acc)
    } else {
        let (oi, si) = deferred[i as int];
        if oi >= probs.len() || si >= probs[oi as int].len() {
            Err(Fault::ActionRange)
        } else {
            factored(deferred, probs, i + 1, acc.spec_times(probs[oi as int][si as int]))
        }
    }
}

/// The weight of a branch once the co-movers' beliefs are known.
pub open spec fn branch_weight<N: Scalar>(b: BranchModel<N>, probs: Seq<Seq<N>>) -> Result<N, Fault> {
    if b.deferred.len() == 0 {
        Ok(b.weight)
    } else {
        factored(b.deferred, probs, 0, b.scale)
    }
}

/// Beliefs as mathematical values.
pub open spec fn beliefs<N>(probs: Seq<Vec<N>>) -> Seq<Seq<N>> {
    probs.map_values(|p: Vec<N>| p@)
}

#[verifier::loop_isolation(false)]
fn weigh_branch<N: Scalar>(b: &Branch<N>, probs: &Vec<Vec<N>>) -> (r: Result<N, Fault>)
    ensures
        r == branch_weight(b@, beliefs(probs@)),
{
    if b.deferred.len() == 0 {
        return Ok(b.weight);
    }
    let mut w = b.scale;
    let mut i: usize = 0;
    while i < b.deferred.len()
        invariant
            i <= b.deferred@.len(),
            factored(b.deferred@, beliefs(probs@), i as nat, w) == branch_weight(
                b@,
                beliefs(probs@),
            ),
        decreases b.deferred@.len() - i,
    {
        let (oi, si) = b.deferred[i];
        if oi >= probs.len() {
            return Err(Fault::ActionRange);
        }
        assert(beliefs(probs@)[oi as int] == probs@[oi as int]@);
        if si >= probs[oi].len() {
            return Err(Fault::ActionRange);
        }
        w = w.times(probs[oi][si]);
        i = i + 1;
    }
    Ok(w)
}

/// The branches from the `i`-th on with their weights, and the path weights of their children.
pub open spec fn branches_weighed<N: Scalar>(
    branches: Seq<BranchModel<N>>,
    probs: Seq<Seq<N>>,
    parent: N,
    gamma: N,
    i: nat,
    out: Seq<BranchModel<N>>,
    paths: Seq<(usize, N)>,
) -> Result<(Seq<BranchModel<N>>, Seq<(usize, N)>), Fault>
    decreases branches.len() - i,
{
    if i >= branches.len() {
        Ok((out, paths))
    } else {
        let b = branches[i as int];
        match branch_weight(b, probs) {
            Err(f) => Err(f),
            Ok(w) => branches_weighed(
                branches,
                probs,
                parent,
                gamma,
                i + 1,
                out.push(BranchModel { weight: w, ..b }),
                paths.push((b.child, parent.spec_times(w).spec_times(gamma))),
            ),
        }
    }
}

#[verifier::loop_isolation(false)]
fn weigh_branches<N: Scalar>(
    branches: &Vec<Branch<N>>,
    probs: &Vec<Vec<N>>,
    parent: N,
    gamma: N,
    paths: &mut Vec<(usize, N)>,
) -> (r: Result<Vec<Branch<N>>, Fault>)
    ensures
        match r {
            Ok(out) => {
                &&& branches_weighed(
                    branch_models(branches@),
                    beliefs(probs@),
                    parent,
                    gamma,
                    0,
                    Seq::empty(),
                    old(paths)@,
                ) == Ok::<_, Fault>((branch_models(out@), final(paths)@))
                &&& out@.len() == branches@.len()
                &&& forall|i: int|
                    0 <= i < out@.len() ==> (#[trigger] out@[i]).child == branches@[i].child
                &&& final(paths)@.len() >= old(paths)@.len()
                &&& forall|i: int|
                    0 <= i < old(paths)@.len() ==> #[trigger] final(paths)@[i] == old(paths)@[i]
                &&& forall|i: int|
                    old(paths)@.len() <= i < final(paths)@.len() ==> exists|j: int|
                        0 <= j < branches@.len() && (#[trigger] branches@[j]).child == (
                        #[trigger] final(paths)@[i]).0
            },
            Err(f) => branches_weighed(
                branch_models(branches@),
                beliefs(probs@),
                parent,
                gamma,
                0,
                Seq::empty(),
                old(paths)@,
            ) == Err::<(Seq<BranchModel<N>>, Seq<(usize, N)>), _>(f),
        },
{
    let mut out: Vec<Branch<N>> = Vec::new();
    let ghost goal = branches_weighed(
        branch_models(branches@),
        beliefs(probs@),
        parent,
        gamma,
        0,
        Seq::empty(),
        old(paths)@,
    );
    let mut i: usize = 0;
    assert(branch_models(out@) =~= Seq::empty());
    while i < branches.len()
        invariant
            i <= branches@.len(),
            out@.len() == i,
            branches_weighed(
                branch_models(branches@),
                beliefs(probs@),
                parent,
                gamma,
                i as nat,
                branch_models(out@),
                paths@,
            ) == goal,
            forall|k: int| 0 <= k < i ==> (#[trigger] out@[k]).child == branches@[k].child,
            paths@.len() >= old(paths)@.len(),
            forall|k: int| 0 <= k < old(paths)@.len() ==> #[trigger] paths@[k] == old(paths)@[k],
            forall|k: int|
                old(paths)@.len() <= k < paths@.len() ==> exists|j: int|
                    0 <= j < branches@.len() && (#[trigger] branches@[j]).child == (
                    #[trigger] paths@[k]).0,
        decreases branches@.len() - i,
    {
        let b = &branches[i];
        assert(branch_models(branches@)[i as int] == b@);
        let w = match weigh_branch(b, probs) {
            Ok(w) => w,
            Err(f) => return Err(f),
        };
        let ghost listed = branch_models(out@);
        out.push(
            Branch {
                weight: w,
                deferred: copied(&b.deferred),
                scale: b.scale,
                reward: b.reward,
                child: b.child,
            },
        );
        assert(branch_models(out@) =~= listed.push(BranchModel { weight: w, ..b@ }));
        paths.push((b.child, parent.times(w).times(gamma)));
        i = i + 1;
    }
    Ok(out)
}

/// The edges from the `i`-th on with their weights, and the path weights of their children.
pub open spec fn edges_weighed<N: Scalar>(
    edges: Seq<Seq<BranchModel<N>>>,
    probs: Seq<Seq<N>>,
    parent: N,
    gamma: N,
    i: nat,
    out: Seq<Seq<BranchModel<N>>>,
    paths: Seq<(usize, N)>,
) -> Result<(Seq<Seq<BranchModel<N>>>, Seq<(usize, N)>), Fault>
    decreases edges.len() - i,
{
    if i >= edges.len() {
        Ok((out, paths))
    } else {
        match branches_weighed(edges[i as int], probs, parent, gamma, 0, Seq::empty(), paths) {
            Err(f) => Err(f),
            Ok((branches, more)) => edges_weighed(
                edges,
                probs,
                parent,
                gamma,
                i + 1,
                out.push(branches),
                more,
            ),
        }
    }
}

/// Every path leads to a child of one of the edges.
pub open spec fn paths_to_children<N>(
    paths: Seq<(usize, N)>,
    edges: Seq<Seq<BranchModel<N>>>,
) -> bool {
    forall|i: int|
        0 <= i < paths.len() ==> exists|e: int, b: int|
            0 <= e < edges.len() && 0 <= b < edges[e].len() && (#[trigger] edges[e][b]).child == (
            #[trigger] paths[i]).0
}

#[verifier::loop_isolation(false)]
fn weigh_edges<N: Scalar>(
    edges: &Vec<Edge<N>>,
    probs: &Vec<Vec<N>>,
    parent: N,
    gamma: N,
) -> (r: Result<(Vec<Edge<N>>, Vec<(usize, N)>), Fault>)
    ensures
        match r {
            Ok((out, paths)) => {
                &&& edges_weighed(
                    edge_models(edges@),
                    beliefs(probs@),
                    parent,
                    gamma,
                    0,
                    Seq::empty(),
                    Seq::empty(),
                ) == Ok::<_, Fault>((edge_models(out@), paths@))
                &&& same_children(Some(edge_models(edges@)), Some(edge_models(out@)))
                &&& paths_to_children(paths@, edge_models(edges@))
            },
            Err(f) => edges_weighed(
                edge_models(edges@),
                beliefs(probs@),
                parent,
                gamma,
                0,
                Seq::empty(),
                Seq::empty(),
            ) == Err::<(Seq<Seq<BranchModel<N>>>, Seq<(usize, N)>), _>(f),
        },
{
    let mut out: Vec<Edge<N>> = Vec::new();
    let mut paths: Vec<(usize, N)> = Vec::new();
    let ghost models = edge_models(edges@);
    let ghost goal = edges_weighed(
        models,
        beliefs(probs@),
        parent,
        gamma,
        0,
        Seq::empty(),
        Seq::empty(),
    );
    let mut i: usize = 0;
    assert(edge_models(out@) =~= Seq::empty());
    while i < edges.len()
        invariant
            i <= edges@.len(),
            out@.len() == i,
            edges_weighed(
                models,
                beliefs(probs@),
                parent,
                gamma,
                i as nat,
                edge_models(out@),
                paths@,
            ) == goal,
            forall|e: int|
                0 <= e < i ==> (#[trigger] edge_models(out@)[e]).len() == models[e].len(),
            forall|e: int, b: int|
                #![trigger edge_models(out@)[e][b]]
                0 <= e < i && 0 <= b < models[e].len() ==> edge_models(out@)[e][b].child
                    == models[e][b].child,
            paths_to_children(paths@, models),
        decreases edges@.len() - i,
    {
        assert(models[i as int] == edges@[i as int]@);
        let ghost led = paths@;
        let branches = match weigh_branches(&edges[i].branches, probs, parent, gamma, &mut paths) {
            Ok(branches) => branches,
            Err(f) => return Err(f),
        };
        proof {
            assert forall|k: int| 0 <= k < paths@.len() implies exists|e: int, b: int|
                0 <= e < models.len() && 0 <= b < models[e].len() && (
                #[trigger] models[e][b]).child == (#[trigger] paths@[k]).0 by {
                if k < led.len() {
                    assert(paths@[k] == led[k]);
                } else {
                    let j = choose|j: int|
                        0 <= j < edges@[i as int].branches@.len() && (
                        #[trigger] edges@[i as int].branches@[j]).child == paths@[k].0;
                    assert(models[i as int][j].child == paths@[k].0);
                }
            }
        }
        let edge = Edge { branches };
        let ghost listed = edge_models(out@);
        let ghost model = edge@;
        out.push(edge);
        assert(edge_models(out@) =~= listed.push(model));
        proof {
            let now = edge_models(out@);
            assert forall|e: int| 0 <= e < i + 1 implies (#[trigger] now[e]).len()
                == models[e].len() by {
                if e < i {
                    assert(now[e] == listed[e]);
                }
            }
            assert forall|e: int, b: int|
                #![trigger now[e][b]]
                0 <= e < i + 1 && 0 <= b < models[e].len() implies now[e][b].child
                == models[e][b].child by {
                if e < i {
                    assert(now[e] == listed[e]);
                    assert(listed[e][b].child == models[e][b].child);
                } else {
                    assert(now[e][b] == out@[e].branches@[b]@);
                    assert(models[e][b] == edges@[e].branches@[b]@);
                }
            }
        }
        i = i + 1;
    }
    Ok((out, paths))
}

/// The arena with the path weights from the `i`-th on written.
pub open spec fn paths_written<S, F, N>(
    arena: Seq<NodeModel<S, F, N>>,
    paths: Seq<(usize, N)>,
    i: nat,
) -> Seq<NodeModel<S, F, N>>
    decreases paths.len() - i,
{
    if i >= paths.len() {
        arena
    } else {
        let (c, pw) = paths[i as int];
        paths_written(
            arena.update(c as int, NodeModel { path_weight: pw, ..arena[c as int] }),
            paths,
            i + 1,
        )
    }
}

/// The search with the branches of the nodes of `batch` from the `i`-th on weighed.
pub open spec fn batch_weighed<S, F, N: Scalar>(
    batch: Seq<usize>,
    probs: Seq<Seq<N>>,
    gamma: N,
    i: nat,
    m: SearchModel<S, F, N>,
) -> Result<SearchModel<S, F, N>, Fault>
    decreases batch.len() - i,
{
    if i >= batch.len() {
        Ok(m)
    } else {
        let ni = batch[i as int] as int;
        let node = m.arena[ni];
        match node.edges {
            None => batch_weighed(batch, probs, gamma, i + 1, m),
            Some(edges) => match edges_weighed(
                edges,
                probs,
                node.path_weight,
                gamma,
                0,
                Seq::empty(),
                Seq::empty(),
            ) {
                Err(f) => Err(f),
                Ok((weighed, paths)) => batch_weighed(
                    batch,
                    probs,
                    gamma,
                    i + 1,
                    SearchModel {
                        arena: paths_written(
                            m.arena.update(ni, NodeModel { edges: Some(weighed), ..node }),
                            paths,
                            0,
                        ),
                        ..m
                    },
                ),
            },
        }
    }
}

#[verifier::loop_isolation(false)]
fn weigh_batch<S, F, N: Scalar>(
    s: &mut Search<S, F, N>,
    probs: &Vec<Vec<N>>,
    gamma: N,
) -> (r: Result<(), Fault>)
    requires
        rooted(old(s)@.arena),
        forall|i: int|
            0 <= i < old(s)@.batch.len() ==> #[trigger] old(s)@.batch[i] < old(s)@.arena.len(),
    ensures
        match r {
            Ok(_) => {
                &&& batch_weighed(old(s)@.batch, beliefs(probs@), gamma, 0, old(s)@) == Ok::<
                    _,
                    Fault,
                >(final(s)@)
                &&& same_shape(old(s)@.arena, final(s)@.arena)
                &&& final(s)@ == (SearchModel { arena: final(s)@.arena, ..old(s)@ })
            },
            Err(f) => batch_weighed(old(s)@.batch, beliefs(probs@), gamma, 0, old(s)@) == Err::<
                SearchModel<S, F, N>,
                _,
            >(f),
        },
{
    let ghost batch = old(s)@.batch;
    let ghost goal = batch_weighed(batch, beliefs(probs@), gamma, 0, old(s)@);
    let mut i: usize = 0;
    while i < s.batch.len()
        invariant
            i <= batch.len(),
            s@ == (SearchModel { arena: s@.arena, ..old(s)@ }),
            same_shape(old(s)@.arena, s@.arena),
            batch_weighed(batch, beliefs(probs@), gamma, i as nat, s@) == goal,
        decreases batch.len() - i,
    {
        let ni = s.batch[i];
        assert(ni == batch[i as int]);
        assert(s@.arena[ni as int] == s.arena@[ni as int]@);
        proof {
            lemma_same_shape_rooted(old(s)@.arena, s@.arena);
        }
        let ghost held = s@;
        let parent = s.arena[ni].path_weight;
        let made = match &s.arena[ni].edges {
            None => None,
            Some(edges) => match weigh_edges(edges, probs, parent, gamma) {
                Ok(made) => Some(made),
                Err(f) => return Err(f),
            },
        };
        match made {
            None => {},
            Some((edges, paths)) => {
                let ghost weighed = edge_models(edges@);
                s.arena[ni].edges = Some(edges);
                let ghost reweighed = s@.arena;
                proof {
                    assert(reweighed =~= held.arena.update(
                        ni as int,
                        NodeModel { edges: Some(weighed), ..held.arena[ni as int] },
                    ));
                    assert(same_shape(held.arena, reweighed));
                    assert forall|k: int| 0 <= k < paths@.len() implies (#[trigger] paths@[k]).0
                        < held.arena.len() by {
                        let edges0 = held.arena[ni as int].edges->0;
                        let (e, b) = choose|e: int, b: int|
                            0 <= e < edges0.len() && 0 <= b < edges0[e].len() && (
                            #[trigger] edges0[e][b]).child == paths@[k].0;
                        assert(held.arena[ni as int].edges->0[e][b].child < held.arena.len());
                    }
                }
                let mut k: usize = 0;
                while k < paths.len()
                    invariant
                        k <= paths@.len(),
                        s@ == (SearchModel { arena: s@.arena, ..old(s)@ }),
                        same_shape(held.arena, s@.arena),
                        paths_written(s@.arena, paths@, k as nat) == paths_written(
                            reweighed,
                            paths@,
                            0,
                        ),
                    decreases paths@.len() - k,
                {
                    let (c, pw) = paths[k];
                    assert(paths@[k as int].0 < held.arena.len());
                    let ghost before = s@.arena;
                    assert(before[c as int] == s.arena@[c as int]@);
                    s.arena[c].path_weight = pw;
                    assert(s@.arena =~= before.update(
                        c as int,
                        NodeModel { path_weight: pw, ..before[c as int] },
                    ));
                    proof {
                        assert(same_shape(before, s@.arena));
                        lemma_same_shape_trans(held.arena, before, s@.arena);
                    }
                    k = k + 1;
                }
                proof {
                    lemma_same_shape_trans(old(s)@.arena, held.arena, s@.arena);
                }
            },
        }
        i = i + 1;
    }
    Ok(())
}

/// The search after a round: leaves evaluated, branches weighed. The first `opp_obs` rows are the
/// co-movers', from which `probs` were read; the others belong to the leaves.
#[verifier::opaque]
pub open spec fn spec_evaluate<
    N: Scalar,
    G: Game<N>,
    E: StateEncoder<State = G::State>,
    W: Reward<N, Event = G::Event>,
>(
    ctx: Ctx<N, G, E, W>,
    m: SearchModel<G::State, E::Feature, N>,
    rows: Seq<N>,
    k: usize,
    probs: Seq<Seq<N>>,
) -> Result<SearchModel<G::State, E::Feature, N>, Fault> {
    match leaves_evaluated(
        ctx,
        m.new_leaves,
        rows,
        m.opp_obs.len(),
        k as nat,
        0,
        SearchModel { n_heads: k, ..m },
    ) {
        Err(f) => Err(f),
        Ok(next) => batch_weighed(next.batch, probs, ctx.cfg.gamma, 0, next),
    }
}

/// Closes a round.
#[verifier::loop_isolation(false)]
pub fn evaluate<
    N: Scalar,
    G: Game<N>,
    E: StateEncoder<State = G::State>,
    W: Reward<N, Event = G::Event>,
>(
    s: &mut Search<G::State, E::Feature, N>,
    ctx: &Ctx<N, G, E, W>,
    rows: &[N],
    k: usize,
    probs: &Vec<Vec<N>>,
) -> (r: Result<(), Fault>)
    requires
        old(s)@.wf(ctx.cfg.expansion_budget),
        old(s)@.mid_round(),
        old(s)@.opp_obs.len() + old(s)@.new_leaves.len() <= usize::MAX,
        (old(s)@.opp_obs.len() + old(s)@.new_leaves.len()) * (k * ctx.game.spec_action_count())
            <= rows@.len(),
    ensures
        match r {
            Ok(_) => {
                &&& spec_evaluate(*ctx, old(s)@, rows@, k, beliefs(probs@)) == Ok::<_, Fault>(
                    final(s)@,
                )
                &&& final(s)@.wf(ctx.cfg.expansion_budget)
                &&& final(s)@.agent == old(s)@.agent
                &&& final(s)@.stats.expansions == old(s)@.stats.expansions
            },
            Err(f) => spec_evaluate(*ctx, old(s)@, rows@, k, beliefs(probs@)) == Err::<
                SearchModel<G::State, E::Feature, N>,
                _,
            >(f),
        },
{
    reveal(spec_evaluate);
    let a = ctx.game.action_count();
    let n_opp = s.opp_obs.len();
    let ghost leaves = s@.new_leaves;
    let ghost total = (n_opp + leaves.len()) as nat;
    let ghost stride = (k * a) as nat;
    let len = rows.len();
    s.n_heads = k;
    let ghost start = s@;
    let mut j: usize = 0;
    while j < s.new_leaves.len()
        invariant
            j <= leaves.len(),
            s@ == (SearchModel { arena: s@.arena, stats: s@.stats, ..start }),
            s@.stats.expansions == start.stats.expansions,
            s@.stats.rounds == start.stats.rounds,
            s@.stats.leaves == start.stats.leaves + j,
            same_shape(start.arena, s@.arena),
            leaves_evaluated(*ctx, leaves, rows@, n_opp as nat, k as nat, j as nat, s@)
                == leaves_evaluated(*ctx, leaves, rows@, n_opp as nat, k as nat, 0, start),
        decreases leaves.len() - j,
    {
        let li = s.new_leaves[j];
        assert(li == leaves[j as int]);
        let ghost r = (n_opp + j) as nat;
        proof {
            assert(stride <= len && r * stride + stride <= len && r * stride >= 0
                && (r + 1) * stride == r * stride + stride) by (nonlinear_arith)
                requires
                    r + 1 <= total,
                    total * stride <= len,
                    0 <= stride,
                    0 <= r,
            ;
        }
        let stride_now = k * a;
        let at = (n_opp + j) * stride_now;
        let row = vstd::slice::slice_subrange(rows, at, at + stride_now);
        assert(row@ == crate::policy::spec_row(rows@, stride, r));
        let ghost held = s@;
        match evaluate_leaf(s, ctx, li, row, k) {
            Ok(_) => {},
            Err(f) => return Err(f),
        }
        proof {
            lemma_same_shape_trans(start.arena, held.arena, s@.arena);
        }
        j = j + 1;
    }
    proof {
        lemma_same_shape_rooted(start.arena, s@.arena);
    }
    let ghost done = s@;
    match weigh_batch(s, probs, ctx.cfg.gamma) {
        Ok(_) => {},
        Err(f) => return Err(f),
    }
    proof {
        lemma_same_shape_trans(start.arena, done.arena, s@.arena);
        lemma_same_shape_rooted(start.arena, s@.arena);
        let arena = s@.arena;
        assert forall|i: int| 0 <= i < arena.len() implies 0 <= (#[trigger] arena[i]).depth by {
            assert(arena[i].depth == start.arena[i].depth);
        }
        assert forall|i: int| 0 <= i < s@.frontier.len() implies (#[trigger] s@.frontier[i])
            < arena.len() && arena[s@.frontier[i] as int].depth < i32::MAX by {
            let n = s@.frontier[i] as int;
            assert(start.frontier[i] < start.arena.len());
            assert(arena[n].depth == start.arena[n].depth);
        }
    }
    Ok(())
}

/// `out` with the probability of each legal action from the `i`-th on.
pub open spec fn scattered<N>(legal: Seq<usize>, probs: Seq<N>, i: nat, out: Seq<N>) -> Seq<N>
    decreases legal.len() - i,
{
    if i >= legal.len() {
        out
    } else {
        scattered(legal, probs, i + 1, out.update(legal[i as int] as int, probs[i as int]))
    }
}

/// The head means of the legal actions in a co-mover's row.
pub open spec fn comover_values<N: Scalar>(row: Seq<N>, k: nat, a: nat, heads: Seq<usize>) -> Seq<N> {
    heads.map_values(|x: usize| column_mean(row, k, a, x as nat))
}

/// What a co-mover's row says of its actions, if it says anything: a softmax with a floor over the
/// legal ones, nothing for the others.
pub open spec fn comover_belief<N: Scalar, X: Exp<N>, V: ActionView>(
    exp: X,
    view: V,
    mover: usize,
    legal: Seq<usize>,
    row: Seq<N>,
    k: nat,
    a: nat,
    temperature: N,
    floor: N,
    belief: Seq<N>,
) -> bool {
    let heads = heads_of(view, legal, mover);
    exists|z: Seq<N>|
        exps_of(exp, softmax_exponents(comover_values(row, k, a, heads), temperature), z)
            && belief == scattered(
            legal,
            #[trigger] floored(z, floor),
            0,
            spec_filled(N::spec_zero(), a),
        )
}

fn believe<N: Scalar, X: Exp<N>, V: ActionView>(
    exp: &X,
    view: &V,
    mover: usize,
    legal: &[usize],
    row: &[N],
    k: usize,
    a: usize,
    temperature: N,
    floor: N,
) -> (r: Result<Vec<N>, Fault>)
    requires
        row@.len() == k * a,
    ensures
        match r {
            Ok(belief) => {
                &&& !strays(heads_of(*view, legal@, mover), a as nat)
                &&& !strays(legal@, a as nat)
                &&& comover_belief(
                    *exp,
                    *view,
                    mover,
                    legal@,
                    row@,
                    k as nat,
                    a as nat,
                    temperature,
                    floor,
                    belief@,
                )
            },
            Err(f) => {
                ||| f == Fault::HeadRange && strays(heads_of(*view, legal@, mover), a as nat)
                ||| f == Fault::ActionRange && strays(legal@, a as nat) && !strays(
                    heads_of(*view, legal@, mover),
                    a as nat,
                )
            },
        },
{
    let heads = find_heads(view, legal, mover);
    if any_stray(&heads, a) {
        return Err(Fault::HeadRange);
    }
    if any_stray(legal, a) {
        return Err(Fault::ActionRange);
    }
    let mut values: Vec<N> = Vec::new();
    let mut i: usize = 0;
    while i < heads.len()
        invariant
            i <= heads@.len(),
            row@.len() == k * a,
            !strays(heads@, a as nat),
            values@.len() == i,
            forall|j: int|
                0 <= j < i ==> #[trigger] values@[j] == column_mean(
                    row@,
                    k as nat,
                    a as nat,
                    heads@[j] as nat,
                ),
        decreases heads.len() - i,
    {
        assert(!(heads@[i as int] >= a));
        values.push(mean_of_heads(row, k, a, heads[i]));
        i = i + 1;
    }
    assert(values@ =~= comover_values(row@, k as nat, a as nat, heads@));
    let probs = softmax_floor(exp, &values, temperature, floor);
    let mut belief: Vec<N> = filled(N::zero(), a);
    let mut j: usize = 0;
    while j < legal.len()
        invariant
            j <= legal@.len(),
            probs@.len() == legal@.len(),
            belief@.len() == a,
            !strays(legal@, a as nat),
            scattered(legal@, probs@, j as nat, belief@) == scattered(
                legal@,
                probs@,
                0,
                spec_filled(N::spec_zero(), a as nat),
            ),
        decreases legal.len() - j,
    {
        assert(!(legal@[j as int] >= a));
        belief.set(legal[j], probs[j]);
        j = j + 1;
    }
    Ok(belief)
}

/// The beliefs that a round's co-mover rows may give.
pub open spec fn believed<
    N: Scalar,
    G: Game<N>,
    E: StateEncoder<State = G::State>,
    W: Reward<N, Event = G::Event>,
    X: Exp<N>,
>(
    ctx: Ctx<N, G, E, W>,
    exp: X,
    m: SearchModel<G::State, E::Feature, N>,
    rows: Seq<N>,
    k: nat,
    probs: Seq<Seq<N>>,
) -> bool {
    let a = ctx.game.spec_action_count() as nat;
    match ctx.cfg.opponent {
        Opponent::Distributional { temperature, floor } => {
            &&& probs.len() == m.opp_legal.len()
            &&& forall|i: int|
                0 <= i < probs.len() ==> comover_belief(
                    exp,
                    *ctx.enc,
                    m.opp_legal[i].0,
                    m.opp_legal[i].1,
                    crate::policy::spec_row(rows, k * a, i as nat),
                    k,
                    a,
                    temperature,
                    floor,
                    #[trigger] probs[i],
                )
        },
        _ => probs.len() == 0,
    }
}

/// A co-mover row that cannot be read.
pub open spec fn unreadable<
    N: Scalar,
    G: Game<N>,
    E: StateEncoder<State = G::State>,
    W: Reward<N, Event = G::Event>,
>(
    ctx: Ctx<N, G, E, W>,
    m: SearchModel<G::State, E::Feature, N>,
    f: Fault,
) -> bool {
    let a = ctx.game.spec_action_count() as nat;
    exists|i: int|
        0 <= i < m.opp_legal.len() && ((f == Fault::HeadRange && strays(
            heads_of(*ctx.enc, (#[trigger] m.opp_legal[i]).1, m.opp_legal[i].0),
            a,
        )) || (f == Fault::ActionRange && strays(m.opp_legal[i].1, a)))
}

/// Reads the co-movers' beliefs from their rows, each in its own mover's frame.
#[verifier::loop_isolation(false)]
pub fn read_beliefs<
    N: Scalar,
    G: Game<N>,
    E: StateEncoder<State = G::State>,
    W: Reward<N, Event = G::Event>,
    X: Exp<N>,
>(
    s: &Search<G::State, E::Feature, N>,
    ctx: &Ctx<N, G, E, W>,
    exp: &X,
    rows: &[N],
    k: usize,
) -> (r: Result<Vec<Vec<N>>, Fault>)
    requires
        s@.opp_legal.len() * (k * ctx.game.spec_action_count()) <= rows@.len(),
    ensures
        match r {
            Ok(probs) => believed(*ctx, *exp, s@, rows@, k as nat, beliefs(probs@)),
            Err(f) => unreadable(*ctx, s@, f),
        },
{
    let mut probs: Vec<Vec<N>> = Vec::new();
    let (temperature, floor) = match ctx.cfg.opponent {
        Opponent::Distributional { temperature, floor } => (temperature, floor),
        _ => {
            assert(beliefs(probs@) =~= Seq::empty());
            return Ok(probs);
        },
    };
    let a = ctx.game.action_count();
    let ghost total = s@.opp_legal.len();
    let ghost stride = (k * a) as nat;
    let len = rows.len();
    let mut i: usize = 0;
    while i < s.opp_legal.len()
        invariant
            i <= total,
            probs@.len() == i,
            forall|j: int|
                0 <= j < i ==> comover_belief(
                    *exp,
                    *ctx.enc,
                    s@.opp_legal[j].0,
                    s@.opp_legal[j].1,
                    crate::policy::spec_row(rows@, stride, j as nat),
                    k as nat,
                    a as nat,
                    temperature,
                    floor,
                    (#[trigger] probs@[j])@,
                ),
        decreases total - i,
    {
        proof {
            assert(stride <= len && i * stride + stride <= len && i * stride >= 0 && (i + 1)
                * stride == i * stride + stride) by (nonlinear_arith)
                requires
                    i + 1 <= total,
                    total * stride <= len,
                    0 <= stride,
                    0 <= i,
            ;
        }
        let stride_now = k * a;
        let at = i * stride_now;
        let row = vstd::slice::slice_subrange(rows, at, at + stride_now);
        assert(row@ == crate::policy::spec_row(rows@, stride, i as nat));
        let entry = &s.opp_legal[i];
        assert(s@.opp_legal[i as int] == (entry.0, entry.1@));
        match believe(exp, ctx.enc, entry.0, &entry.1, row, k, a, temperature, floor) {
            Ok(belief) => probs.push(belief),
            Err(f) => {
                assert(unreadable(*ctx, s@, f));
                return Err(f);
            },
        }
        i = i + 1;
    }
    proof {
        let shown = beliefs(probs@);
        assert forall|j: int| 0 <= j < shown.len() implies comover_belief(
            *exp,
            *ctx.enc,
            s@.opp_legal[j].0,
            s@.opp_legal[j].1,
            crate::policy::spec_row(rows@, stride, j as nat),
            k as nat,
            a as nat,
            temperature,
            floor,
            #[trigger] shown[j],
        ) by {
            assert(shown[j] == probs@[j]@);
        }
    }
    Ok(probs)
}

} // verus!
