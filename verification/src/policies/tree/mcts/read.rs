//! What a network row says of a node, and what a tree makes of it.

use vstd::prelude::*;

use super::backup::{backprop, backup_leaf_values, fan_backprop};
#[allow(unused_imports)]
use super::backup::{fan_backed_up, leaf_backed_up, spec_backprop};
#[allow(unused_imports)]
use super::grow::with_node;
use super::select::Guidance;
use super::tree::{Arm, Kind, Node, PendingWork, Tree, TreeMode};
#[allow(unused_imports)]
use super::tree::{
    node_models, same_counts, table_models, KindModel, NodeModel, TableModel, TreeModel,
};
use crate::encoder::ActionView;
use crate::fault::Fault;
use crate::num::{largest, sum, Scalar};
#[allow(unused_imports)]
use crate::num::{spec_largest, spec_sum};
use crate::policies::tree::expectimax::evaluate::{
    any_stray, find_heads, mean_of_heads, Exp,
};
#[allow(unused_imports)]
use crate::policies::tree::expectimax::evaluate::{
    column, column_mean, comover_values, exps_of, heads_of, lemma_entry, strays,
};
use crate::rng::{dirichlet, GammaSource, SplitMix64};
#[allow(unused_imports)]
use crate::rng::{drawn, generator, normalized};

verus! {

/// Each logit below the largest: what is handed to the exponential.
pub open spec fn logit_exponents<N: Scalar>(logits: Seq<N>) -> Seq<N> {
    logits.map_values(|l: N| l.spec_minus(spec_largest(logits)))
}

/// The distribution that exponentials stand for.
pub open spec fn shares<N: Scalar>(z: Seq<N>) -> Seq<N> {
    z.map_values(|e: N| e.spec_over(spec_sum(z)))
}

/// Scales exponentials to a distribution.
pub fn share_out<N: Scalar>(z: &[N]) -> (r: Vec<N>)
    ensures
        r@ == shares(z@),
{
    let total = sum(z);
    let mut r: Vec<N> = Vec::new();
    let mut i: usize = 0;
    while i < z.len()
        invariant
            i <= z@.len(),
            total == spec_sum(z@),
            r@.len() == i,
            forall|k: int| 0 <= k < i ==> #[trigger] r@[k] == z@[k].spec_over(total),
        decreases z@.len() - i,
    {
        r.push(z[i].over(total));
        i = i + 1;
    }
    assert(r@ =~= shares(z@));
    r
}

/// A softmax.
pub fn softmax<N: Scalar, X: Exp<N>>(exp: &X, logits: &[N]) -> (r: Vec<N>)
    ensures
        r@.len() == logits@.len(),
        exists|z: Seq<N>|
            exps_of(*exp, logit_exponents(logits@), z) && r@ == #[trigger] shares(z),
{
    let top = largest(logits);
    let mut z: Vec<N> = Vec::new();
    let mut i: usize = 0;
    while i < logits.len()
        invariant
            i <= logits@.len(),
            top == spec_largest(logits@),
            z@.len() == i,
            forall|k: int|
                0 <= k < i ==> call_ensures(
                    X::exp,
                    (exp, logit_exponents(logits@)[k]),
                    #[trigger] z@[k],
                ),
        decreases logits@.len() - i,
    {
        let x = logits[i].minus(top);
        assert(x == logit_exponents(logits@)[i as int]);
        let e = exp.exp(x);
        z.push(e);
        i = i + 1;
    }
    assert(exps_of(*exp, logit_exponents(logits@), z@));
    share_out(&z)
}

/// A prior with noise of weight `eps` mixed in.
pub open spec fn noised<N: Scalar>(prior: Seq<N>, eps: N, draw: Seq<N>) -> Seq<N> {
    Seq::new(
        prior.len(),
        |i: int|
            N::spec_one().spec_minus(eps).spec_times(prior[i]).spec_plus(eps.spec_times(draw[i])),
    )
}

/// Mixes noise into a prior.
pub fn mix_noise<N: Scalar>(prior: &[N], eps: N, draw: &[N]) -> (r: Vec<N>)
    requires
        draw@.len() == prior@.len(),
    ensures
        r@ == noised(prior@, eps, draw@),
{
    let mut r: Vec<N> = Vec::new();
    let mut i: usize = 0;
    while i < prior.len()
        invariant
            i <= prior@.len() == draw@.len(),
            r@.len() == i,
            forall|k: int| 0 <= k < i ==> #[trigger] r@[k] == noised(prior@, eps, draw@)[k],
        decreases prior@.len() - i,
    {
        r.push(N::one().minus(eps).times(prior[i]).plus(eps.times(draw[i])));
        i = i + 1;
    }
    assert(r@ =~= noised(prior@, eps, draw@));
    r
}

/// The actions of a table.
pub open spec fn table_actions<N>(t: TableModel<N>) -> Seq<usize> {
    t.arms.map_values(|a: Arm<N>| a.action)
}

fn actions_of<N: Scalar>(arms: &Vec<Arm<N>>) -> (r: Vec<usize>)
    ensures
        r@ == arms@.map_values(|a: Arm<N>| a.action),
{
    let mut r: Vec<usize> = Vec::new();
    let mut i: usize = 0;
    while i < arms.len()
        invariant
            i <= arms@.len(),
            r@.len() == i,
            forall|k: int| 0 <= k < i ==> #[trigger] r@[k] == arms@[k].action,
        decreases arms@.len() - i,
    {
        r.push(arms[i].action);
        i = i + 1;
    }
    assert(r@ =~= arms@.map_values(|a: Arm<N>| a.action));
    r
}

/// A leaf's value by its action values: the largest head mean of a legal action.
pub open spec fn best_mean<N: Scalar>(row: Seq<N>, k: nat, a: nat, heads: Seq<usize>) -> N {
    spec_largest(comover_values(row, k, a, heads))
}

/// Everything a row's reading depends on beside the row: the table whose row it is, in which frame,
/// and whether it sets priors, noised or not.
pub struct RowRole {
    pub table: usize,
    pub agent: usize,
    /// The row of an agent that does not move here: its value counts, its policy does not.
    pub side: bool,
    pub noised: bool,
}

/// A prior as a mathematical value, where there is one.
pub open spec fn prior_view<N>(prior: Option<Vec<N>>) -> Option<Seq<N>> {
    match prior {
        Some(p) => Some(p@),
        None => None,
    }
}

/// The role of row `slot` of node `ni`.
pub open spec fn role_of<S, F, N>(
    m: TreeModel<S, F, N>,
    ni: usize,
    slot: usize,
    noise_all: bool,
) -> RowRole {
    let node = m.arena[ni as int];
    let sim = node.kind is Simultaneous;
    let maxn = !sim && m.mode == TreeMode::SeqMaxN;
    RowRole {
        table: if sim {
            slot
        } else {
            0
        },
        agent: if sim || maxn {
            slot
        } else {
            node.actor
        },
        side: maxn && slot != node.actor,
        noised: ni == 0 && (!sim || slot == m.requester || noise_all),
    }
}

fn find_role<S, F, N>(t: &Tree<S, F, N>, ni: usize, slot: usize, noise_all: bool) -> (r: RowRole)
    requires
        ni < t@.arena.len(),
    ensures
        r == role_of(t@, ni, slot, noise_all),
{
    assert(t@.arena[ni as int] == t.arena@[ni as int]@);
    let sim = matches!(&t.arena[ni].kind, Kind::Simultaneous);
    let maxn = !sim && matches!(t.mode, TreeMode::SeqMaxN);
    RowRole {
        table: if sim {
            slot
        } else {
            0
        },
        agent: if sim || maxn {
            slot
        } else {
            t.arena[ni].actor
        },
        side: maxn && slot != t.arena[ni].actor,
        noised: ni == 0 && (!sim || slot == t.requester || noise_all),
    }
}

/// Where a root's noise is drawn from: a stream of its own for each tree and row, so that a row
/// from a cache is noised as a fresh one is.
pub open spec fn noise_stream(seed: u64, ti: usize, slot: usize) -> u64 {
    seed ^ vstd::wrapping::u64_specs::wrapping_mul(ti as u64, 0x9E37_79B9_7F4A_7C15)
        ^ vstd::wrapping::u64_specs::wrapping_mul(slot as u64, 0xD1B5_4A32_D192_ED03)
}

/// A prior that a row may give: a softmax over the legal logits, noised at the root.
pub open spec fn prior_read<N: Scalar, X: Exp<N>, M: GammaSource<N, SplitMix64>>(
    exp: X,
    gammas: M,
    logits: Seq<N>,
    noise: Option<(N, N, u64)>,
    role: RowRole,
    ti: usize,
    slot: usize,
    prior: Seq<N>,
) -> bool {
    exists|z: Seq<N>|
        exps_of(exp, logit_exponents(logits), z) && {
            let plain = #[trigger] shares(z);
            match noise {
                Some((eps, alpha, seed)) if role.noised && N::spec_zero().spec_less(
                    eps,
                ) => exists|draws: Seq<N>, end: SplitMix64|
                    draws.len() == plain.len() && #[trigger] drawn(
                        gammas,
                        generator(noise_stream(seed, ti, slot)),
                        alpha,
                        draws,
                        end,
                    ) && prior == noised(plain, eps, normalized(draws)),
                _ => prior == plain,
            }
        }
}

/// What a row may say of a node: a value, and a prior where it sets one.
pub open spec fn row_read<N: Scalar, V: ActionView, X: Exp<N>, M: GammaSource<N, SplitMix64>>(
    view: V,
    exp: X,
    gammas: M,
    guidance: Guidance<N>,
    a: nat,
    role: RowRole,
    ti: usize,
    slot: usize,
    actions: Seq<usize>,
    row: Seq<N>,
    value: N,
    prior: Option<Seq<N>>,
) -> bool {
    let heads = heads_of(view, actions, role.agent);
    match guidance {
        Guidance::Uct { .. } => {
            &&& a > 0
            &&& !strays(heads, a)
            &&& prior is None
            &&& value == best_mean(row, row.len() / a, a, heads)
        },
        Guidance::Puct { noise, .. } => {
            &&& row.len() > a
            &&& value == row[a as int]
            &&& if role.side {
                prior is None
            } else {
                &&& !strays(heads, a)
                &&& prior matches Some(p) && p.len() == actions.len() && prior_read(
                    exp,
                    gammas,
                    heads.map_values(|h: usize| row[h as int]),
                    noise,
                    role,
                    ti,
                    slot,
                    p,
                )
            }
        },
    }
}

/// What a row says of a node does not depend on the action view: rows that hold the same number for
/// every action, each where its own view has it, and the same value, are read alike.
pub proof fn law_rows_are_read_alike_under_every_view<
    N: Scalar,
    V: ActionView,
    U: ActionView,
    X: Exp<N>,
    M: GammaSource<N, SplitMix64>,
>(
    view: V,
    row: Seq<N>,
    framed: U,
    other: Seq<N>,
    exp: X,
    gammas: M,
    guidance: Guidance<N>,
    a: nat,
    role: RowRole,
    ti: usize,
    slot: usize,
    actions: Seq<usize>,
    value: N,
    prior: Option<Seq<N>>,
)
    requires
        row.len() == other.len(),
        !strays(heads_of(view, actions, role.agent), a),
        !strays(heads_of(framed, actions, role.agent), a),
        forall|h: int, i: int|
            #![trigger (h * a), actions[i]]
            0 <= h < row.len() / a && 0 <= i < actions.len() ==> row[(h * a)
                + view.spec_head_index(actions[i], role.agent)] == other[(h * a)
                + framed.spec_head_index(actions[i], role.agent)],
        guidance is Puct && row.len() > a ==> row[a as int] == other[a as int],
    ensures
        row_read(view, exp, gammas, guidance, a, role, ti, slot, actions, row, value, prior)
            == row_read(
            framed,
            exp,
            gammas,
            guidance,
            a,
            role,
            ti,
            slot,
            actions,
            other,
            value,
            prior,
        ),
{
    let p = heads_of(view, actions, role.agent);
    let q = heads_of(framed, actions, role.agent);
    if a > 0 {
        let k = row.len() / a;
        assert forall|x: int| 0 <= x < p.len() implies #[trigger] comover_values(row, k, a, p)[x]
            == comover_values(other, k, a, q)[x] by {
            let l = column(row, k, a, p[x] as nat);
            let m = column(other, k, a, q[x] as nat);
            assert forall|h: int| 0 <= h < k implies l[h] == m[h] by {
                let base = (h * a);
                assert(actions[x] == actions[x]);
            }
            assert(l =~= m);
        }
        assert(comover_values(row, k, a, p) =~= comover_values(other, k, a, q));
        if row.len() > a {
            assert(k >= 1) by (nonlinear_arith)
                requires
                    k == row.len() / a,
                    row.len() > a,
                    a > 0,
            ;
            let x = p.map_values(|h: usize| row[h as int]);
            let y = q.map_values(|h: usize| other[h as int]);
            assert forall|i: int| 0 <= i < x.len() implies x[i] == y[i] by {
                let base = (0int * a);
                assert(actions[i] == actions[i]);
                assert(row[base + p[i]] == other[base + q[i]]);
            }
            assert(x =~= y);
        }
    } else {
        if p.len() > 0 {
            assert(p[0] >= a);
        }
        assert(p.map_values(|h: usize| row[h as int]) =~= q.map_values(|h: usize| other[h as int]));
    }
}

/// Why a row cannot be read.
pub open spec fn row_unread<N: Scalar, V: ActionView>(
    view: V,
    guidance: Guidance<N>,
    a: nat,
    role: RowRole,
    actions: Seq<usize>,
    row: Seq<N>,
    f: Fault,
) -> bool {
    let heads = heads_of(view, actions, role.agent);
    match guidance {
        Guidance::Uct { .. } => (f == Fault::ActionRange && a == 0) || (f == Fault::HeadRange
            && strays(heads, a)),
        Guidance::Puct { .. } => (f == Fault::RowWidth && row.len() <= a) || (f == Fault::HeadRange
            && strays(heads, a)),
    }
}

/// Reads a row.
pub fn read_row<N: Scalar, V: ActionView, X: Exp<N>, M: GammaSource<N, SplitMix64>>(
    view: &V,
    exp: &X,
    gammas: &M,
    guidance: &Guidance<N>,
    a: usize,
    role: &RowRole,
    ti: usize,
    slot: usize,
    actions: &[usize],
    row: &[N],
) -> (r: Result<(N, Option<Vec<N>>), Fault>)
    ensures
        match r {
            Ok((value, prior)) => row_read(
                *view,
                *exp,
                *gammas,
                *guidance,
                a as nat,
                *role,
                ti,
                slot,
                actions@,
                row@,
                value,
                prior_view(prior),
            ),
            Err(f) => row_unread(*view, *guidance, a as nat, *role, actions@, row@, f),
        },
{
    let heads = find_heads(view, actions, role.agent);
    match guidance {
        Guidance::Uct { .. } => {
            if a == 0 {
                return Err(Fault::ActionRange);
            }
            if any_stray(&heads, a) {
                return Err(Fault::HeadRange);
            }
            let k = row.len() / a;
            let ghost whole = row@;
            proof {
                assert(k * a <= whole.len()) by (nonlinear_arith)
                    requires
                        k == whole.len() as int / a as int,
                        a > 0,
                ;
            }
            let body = vstd::slice::slice_subrange(row, 0, k * a);
            let mut means: Vec<N> = Vec::new();
            let mut i: usize = 0;
            while i < heads.len()
                invariant
                    i <= heads@.len(),
                    body@ == whole.subrange(0, k * a),
                    k * a <= whole.len(),
                    !strays(heads@, a as nat),
                    means@.len() == i,
                    forall|j: int|
                        0 <= j < i ==> #[trigger] means@[j] == column_mean(
                            whole,
                            k as nat,
                            a as nat,
                            heads@[j] as nat,
                        ),
                decreases heads@.len() - i,
            {
                assert(!(heads@[i as int] >= a));
                let h = heads[i];
                let mean = mean_of_heads(body, k, a, h);
                proof {
                    lemma_column_prefix(whole, k as nat, a as nat, h as nat);
                }
                means.push(mean);
                i = i + 1;
            }
            assert(means@ =~= comover_values(whole, k as nat, a as nat, heads@));
            Ok((largest(&means), None))
        },
        Guidance::Puct { noise, .. } => {
            if row.len() <= a {
                return Err(Fault::RowWidth);
            }
            let value = row[a];
            if role.side {
                return Ok((value, None));
            }
            if any_stray(&heads, a) {
                return Err(Fault::HeadRange);
            }
            let mut logits: Vec<N> = Vec::new();
            let mut i: usize = 0;
            while i < heads.len()
                invariant
                    i <= heads@.len(),
                    a < row@.len(),
                    !strays(heads@, a as nat),
                    logits@.len() == i,
                    forall|j: int| 0 <= j < i ==> #[trigger] logits@[j] == row@[heads@[j] as int],
                decreases heads@.len() - i,
            {
                assert(!(heads@[i as int] >= a));
                logits.push(row[heads[i]]);
                i = i + 1;
            }
            assert(logits@ =~= heads@.map_values(|h: usize| row@[h as int]));
            let plain = softmax(exp, &logits);
            let ghost z = choose|z: Seq<N>|
                exps_of(*exp, logit_exponents(logits@), z) && plain@ == #[trigger] shares(z);
            let mut prior = plain;
            if role.noised {
                match noise {
                    Some((eps, alpha, seed)) => {
                        if N::zero().less(*eps) {
                            let stream = *seed ^ (ti as u64).wrapping_mul(0x9E37_79B9_7F4A_7C15) ^ (
                            slot as u64).wrapping_mul(0xD1B5_4A32_D192_ED03);
                            let rng = SplitMix64::new(stream);
                            assert(rng == generator(noise_stream(*seed, ti, slot)));
                            let (draw, end) = dirichlet(gammas, rng, *alpha, prior.len());
                            let ghost draws = choose|draws: Seq<N>|
                                draws.len() == prior@.len() && drawn(
                                    *gammas,
                                    rng,
                                    *alpha,
                                    draws,
                                    end,
                                ) && draw@ == #[trigger] normalized(draws);
                            assert(drawn(*gammas, rng, *alpha, draws, end));
                            prior = mix_noise(&prior, *eps, &draw);
                        }
                    },
                    None => {},
                }
            }
            assert(prior_read(*exp, *gammas, logits@, *noise, *role, ti, slot, prior@)) by {
                assert(exps_of(*exp, logit_exponents(logits@), z));
                assert(shares(z).len() == logits@.len());
            }
            Ok((value, Some(prior)))
        },
    }
}

proof fn lemma_column_prefix<N: Scalar>(row: Seq<N>, k: nat, a: nat, j: nat)
    requires
        k * a <= row.len(),
        j < a,
    ensures
        column_mean(row.subrange(0, (k * a) as int), k, a, j) == column_mean(row, k, a, j),
{
    let cut = row.subrange(0, (k * a) as int);
    assert forall|h: int| 0 <= h < k implies #[trigger] column(cut, k, a, j)[h] == column(
        row,
        k,
        a,
        j,
    )[h] by {
        lemma_entry(h as nat, k, a, j);
    }
    assert(column(cut, k, a, j) =~= column(row, k, a, j));
}

/// A table with its priors set.
pub open spec fn table_primed<N>(t: TableModel<N>, prior: Seq<N>) -> TableModel<N> {
    TableModel {
        arms: Seq::new(
            t.arms.len(),
            |i: int|
                if i < prior.len() {
                    Arm { prior: prior[i], ..t.arms[i] }
                } else {
                    t.arms[i]
                },
        ),
        evaluated: true,
        ..t
    }
}

/// A node with the reading of one of its rows written in.
pub open spec fn node_told<S, F, N>(
    node: NodeModel<S, F, N>,
    mode: TreeMode,
    table: usize,
    slot: usize,
    value: N,
    prior: Option<Seq<N>>,
) -> Result<NodeModel<S, F, N>, Fault> {
    if prior is Some && table >= node.tables.len() {
        Err(Fault::Tree)
    } else {
        let primed = match prior {
            None => node.tables,
            Some(p) => node.tables.update(
                table as int,
                table_primed(node.tables[table as int], p),
            ),
        };
        if mode == TreeMode::SeqNegamax {
            Ok(NodeModel { tables: primed, values: seq![value], ..node })
        } else if slot < node.values.len() {
            Ok(
                NodeModel {
                    tables: primed,
                    values: node.values.update(slot as int, value),
                    ..node
                },
            )
        } else {
            Err(Fault::Tree)
        }
    }
}

fn prime_arms<N: Scalar>(arms: &mut Vec<Arm<N>>, prior: &[N])
    ensures
        final(arms)@.len() == old(arms)@.len(),
        forall|i: int|
            0 <= i < old(arms)@.len() ==> #[trigger] final(arms)@[i] == (if i < prior@.len() {
                Arm { prior: prior@[i], ..old(arms)@[i] }
            } else {
                old(arms)@[i]
            }),
{
    let mut i: usize = 0;
    while i < arms.len() && i < prior.len()
        invariant
            i <= arms@.len() == old(arms)@.len(),
            i <= prior@.len(),
            forall|k: int|
                0 <= k < i ==> #[trigger] arms@[k] == (Arm { prior: prior@[k], ..old(arms)@[k] }),
            forall|k: int| i <= k < arms@.len() ==> #[trigger] arms@[k] == old(arms)@[k],
        decreases arms@.len() - i,
    {
        let arm = arms[i];
        arms.set(
            i,
            Arm {
                action: arm.action,
                visits: arm.visits,
                value_sum: arm.value_sum,
                prior: prior[i],
            },
        );
        i = i + 1;
    }
}

fn tell_node<S, F, N: Scalar>(
    node: &mut Node<S, F, N>,
    mode: TreeMode,
    table: usize,
    slot: usize,
    value: N,
    prior: &Option<Vec<N>>,
) -> (r: Result<(), Fault>)
    ensures
        match r {
            Ok(_) => node_told(
                old(node)@,
                mode,
                table,
                slot,
                value,
                prior_view(*prior),
            ) == Ok::<_, Fault>(final(node)@),
            Err(f) => node_told(
                old(node)@,
                mode,
                table,
                slot,
                value,
                prior_view(*prior),
            ) == Err::<NodeModel<S, F, N>, _>(f),
        },
{
    let ghost before = node@;
    match prior {
        Some(p) => {
            if table >= node.tables.len() {
                return Err(Fault::Tree);
            }
            assert(before.tables[table as int] == node.tables@[table as int]@);
            prime_arms(&mut node.tables[table].arms, p);
            node.tables[table].evaluated = true;
            assert(node@.tables =~= before.tables.update(
                table as int,
                table_primed(before.tables[table as int], p@),
            )) by {
                assert(node.tables@[table as int]@ =~= table_primed(
                    before.tables[table as int],
                    p@,
                ));
            }
        },
        None => {},
    }
    if matches!(mode, TreeMode::SeqNegamax) {
        let mut values: Vec<N> = Vec::new();
        values.push(value);
        assert(values@ =~= seq![value]);
        node.values = values;
        Ok(())
    } else if slot < node.values.len() {
        node.values.set(slot, value);
        Ok(())
    } else {
        Err(Fault::Tree)
    }
}

/// The tree with a reading of row `slot` of node `ni` taken in: with the last row that some work
/// waits for, the work is done.
pub open spec fn spec_consume<S, F, N: Scalar>(
    gamma: N,
    m: TreeModel<S, F, N>,
    ni: usize,
    slot: usize,
    value: N,
    prior: Option<Seq<N>>,
) -> Result<TreeModel<S, F, N>, Fault> {
    if ni >= m.arena.len() {
        Err(Fault::Tree)
    } else {
        match node_told(
            m.arena[ni as int],
            m.mode,
            role_of(m, ni, slot, false).table,
            slot,
            value,
            prior,
        ) {
            Err(f) => Err(f),
            Ok(node) => {
                let told = with_node(m, ni as int, node);
                match m.pending {
                    None => spec_backprop(gamma, told, value),
                    Some((work, missing)) => if missing > 1 {
                        Ok(TreeModel { pending: Some((work, (missing - 1) as usize)), ..told })
                    } else {
                        match work {
                            PendingWork::Fan => fan_backed_up(
                                gamma,
                                TreeModel { pending: None, ..told },
                            ),
                            PendingWork::NodeEval(_) => leaf_backed_up(
                                gamma,
                                TreeModel { pending: None, ..told },
                            ),
                        }
                    },
                }
            },
        }
    }
}

/// Two trees with the same accounts, but for the rows that they wait for.
pub open spec fn same_accounts<S, F, N>(a: TreeModel<S, F, N>, b: TreeModel<S, F, N>) -> bool {
    same_counts(TreeModel { pending: None, ..a }, TreeModel { pending: None, ..b })
}

/// Takes a reading in. Fresh rows, cached rows and shared rows all come through here, so none of
/// them changes what the search makes of a row.
pub fn consume<S, F, N: Scalar>(
    t: &mut Tree<S, F, N>,
    gamma: N,
    ni: usize,
    slot: usize,
    value: N,
    prior: &Option<Vec<N>>,
) -> (r: Result<(), Fault>)
    ensures
        match r {
            Ok(_) => spec_consume(
                gamma,
                old(t)@,
                ni,
                slot,
                value,
                prior_view(*prior),
            ) == Ok::<_, Fault>(final(t)@) && same_accounts(old(t)@, final(t)@),
            Err(f) => spec_consume(
                gamma,
                old(t)@,
                ni,
                slot,
                value,
                prior_view(*prior),
            ) == Err::<TreeModel<S, F, N>, _>(f),
        },
{
    if ni >= t.arena.len() {
        return Err(Fault::Tree);
    }
    let ghost held = t@;
    assert(held.arena[ni as int] == t.arena@[ni as int]@);
    let role = find_role(t, ni, slot, false);
    let mode = t.mode;
    match tell_node(&mut t.arena[ni], mode, role.table, slot, value, prior) {
        Ok(_) => {},
        Err(f) => return Err(f),
    }
    let ghost told = node_told(
        held.arena[ni as int],
        mode,
        role.table,
        slot,
        value,
        prior_view(*prior),
    )->Ok_0;
    assert(t@ =~= with_node(held, ni as int, told)) by {
        assert(t@.arena =~= held.arena.update(ni as int, told));
    }
    match t.pending {
        None => backprop(t, gamma, value),
        Some((work, missing)) => {
            if missing > 1 {
                t.pending = Some((work, missing - 1));
                Ok(())
            } else {
                t.pending = None;
                match work {
                    PendingWork::Fan => fan_backprop(t, gamma),
                    PendingWork::NodeEval(_) => backup_leaf_values(t, gamma),
                }
            }
        },
    }
}

/// Reads the actions of the table that a row is for.
pub(crate) fn role_actions<S, F, N: Scalar>(node: &Node<S, F, N>, table: usize) -> (r: Vec<usize>)
    ensures
        r@ == (if table < node@.tables.len() {
            table_actions(node@.tables[table as int])
        } else {
            Seq::empty()
        }),
{
    if table < node.tables.len() {
        assert(node@.tables[table as int] == node.tables@[table as int]@);
        actions_of(&node.tables[table].arms)
    } else {
        let none: Vec<usize> = Vec::new();
        assert(none@ =~= Seq::empty());
        none
    }
}

/// Finds the role of a row.
pub(crate) fn row_role<S, F, N>(t: &Tree<S, F, N>, ni: usize, slot: usize, noise_all: bool) -> (r:
    RowRole)
    requires
        ni < t@.arena.len(),
    ensures
        r == role_of(t@, ni, slot, noise_all),
{
    find_role(t, ni, slot, noise_all)
}

} // verus!
