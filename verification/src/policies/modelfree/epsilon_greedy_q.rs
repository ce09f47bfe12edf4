//! Epsilon-greedy acting on ensemble Q-values.

use vstd::prelude::*;

use super::{
    ask_for_requests, one_shot_absorb, one_shot_begin, one_shot_round, one_shot_row, OneShot,
};
#[allow(unused_imports)]
use super::{no_targets, requests_served, shot_asked, shot_begun, OneShotModel};
use crate::codec::bytes::{put_sizes, put_u32, sizes, DecodeFault, Reader};
#[allow(unused_imports)]
use crate::codec::bytes::{
    law_sizes_round_trip, law_u32_round_trip, read_sizes, read_u32, reads_view, sizes_bytes, Read,
};
use crate::encoder::{ActionView, PermTable, StateEncoder};
#[allow(unused_imports)]
use crate::encoder::spec_head_permutation;
use crate::fault::Fault;
use crate::game::{Game, Rng};
use crate::num::Scalar;
#[allow(unused_imports)]
use crate::num::faithful_bits;
use crate::policies::planner::Planner;
use crate::policies::tree::evaluation::{below, find_bad_row, put_rows, take_rows};
#[allow(unused_imports)]
use crate::policies::tree::evaluation::{
    all_below, all_finite, bad_row, lemma_good_rows, lemma_rows_round_trip, read_rows, rows_bytes,
};
use crate::policies::tree::expectimax::backup::InteriorTarget;
use crate::policies::tree::expectimax::evaluate::{any_stray, find_heads};
#[allow(unused_imports)]
use crate::policies::tree::expectimax::evaluate::{gathered, heads_of, lemma_entry, strays};
use crate::policies::tree::expectimax::search::Infer;
use crate::policy::{
    act_by_head, thompson_head_from_u64, Policy, RequestSink, RoundStatus, RowsView,
};
#[allow(unused_imports)]
use crate::policy::{stored_head, thompson};
use crate::reward::Reward;
use crate::rng::SplitMix64;
use crate::stats::CollectStats;
#[allow(unused_imports)]
use crate::stats::StatsModel;
use crate::util::copied;
#[allow(unused_imports)]
use crate::util::matrix;
#[allow(unused_imports)]
use vstd::bytes::spec_u32_to_le_bytes;

verus! {

/// Per-head Q-values and legal actions for one decision.
pub struct QEvaluation<N> {
    pub values: Vec<Vec<N>>,
    pub legal: Vec<usize>,
}

/// Q-values as a mathematical value.
#[verifier::ext_equal]
pub struct QModel<N> {
    pub values: Seq<Seq<N>>,
    pub legal: Seq<usize>,
}

impl<N> View for QEvaluation<N> {
    type V = QModel<N>;

    open spec fn view(&self) -> QModel<N> {
        QModel { values: matrix(self.values@), legal: self.legal@ }
    }
}

/// The bytes of Q-values.
pub open spec fn q_bytes<N: Scalar>(e: QModel<N>) -> Seq<u8> {
    spec_u32_to_le_bytes(e.values.len() as u32) + (rows_bytes(e.values) + sizes_bytes(e.legal))
}

/// Q-values of so many heads, one finite value for each action, and legal actions that the game
/// has.
pub open spec fn read_q_eval<N: Scalar>(s: Seq<u8>, actions: usize, heads: usize) -> Read<
    QModel<N>,
> {
    match read_u32(s) {
        Err(f) => Err(f),
        Ok((k, s1)) => if k != heads {
            Err(DecodeFault::Heads)
        } else {
            match read_rows::<N>(s1, k as nat) {
                Err(f) => Err(f),
                Ok((values, s2)) => match bad_row(values, actions, 0) {
                    Some(f) => Err(f),
                    None => match read_sizes(s2) {
                        Err(f) => Err(f),
                        Ok((legal, s3)) => if !all_below(legal, actions) {
                            Err(DecodeFault::ActionRange)
                        } else {
                            Ok((QModel { values, legal }, s3))
                        },
                    },
                },
            }
        },
    }
}

/// Writes Q-values.
pub fn encode_q<N: Scalar>(e: &QEvaluation<N>, out: &mut Vec<u8>)
    ensures
        final(out)@ == old(out)@ + q_bytes(e@),
{
    put_u32(out, e.values.len() as u32);
    put_rows(out, &e.values);
    put_sizes(out, &e.legal);
    assert(out@ =~= old(out)@ + q_bytes(e@));
}

/// Reads Q-values, and validates them.
pub fn decode_q<N: Scalar>(r: &mut Reader, action_count: usize, heads: usize) -> (out: Result<
    QEvaluation<N>,
    DecodeFault,
>)
    ensures
        reads_view(out, read_q_eval::<N>(old(r)@, action_count, heads), final(r)@),
{
    let k = match r.u32() {
        Ok(k) => k,
        Err(f) => return Err(f),
    };
    if k as u64 != heads as u64 {
        return Err(DecodeFault::Heads);
    }
    let values = match take_rows::<N>(r, k) {
        Ok(values) => values,
        Err(f) => return Err(f),
    };
    match find_bad_row(&values, action_count) {
        Some(f) => return Err(f),
        None => {},
    }
    let legal = match sizes(r) {
        Ok(legal) => legal,
        Err(f) => return Err(f),
    };
    if !below(&legal, action_count) {
        return Err(DecodeFault::ActionRange);
    }
    Ok(QEvaluation { values, legal })
}

/// Q-values of the right shape are read back as they were written.
pub proof fn law_q_round_trip<N: Scalar>(
    e: QModel<N>,
    actions: usize,
    heads: usize,
    rest: Seq<u8>,
)
    requires
        faithful_bits::<N>(),
        e.values.len() == heads <= u32::MAX,
        actions <= u32::MAX,
        forall|i: int|
            0 <= i < e.values.len() ==> (#[trigger] e.values[i]).len() == actions && all_finite(
                e.values[i],
            ),
        e.legal.len() <= u32::MAX,
        all_below(e.legal, actions),
    ensures
        read_q_eval::<N>(q_bytes(e) + rest, actions, heads) == Ok::<_, DecodeFault>((e, rest)),
{
    let s2 = sizes_bytes(e.legal) + rest;
    let s1 = rows_bytes(e.values) + s2;
    assert(q_bytes(e) + rest =~= spec_u32_to_le_bytes(e.values.len() as u32) + s1);
    law_u32_round_trip(e.values.len() as u32, s1);
    lemma_rows_round_trip(e.values, s2);
    lemma_good_rows(e.values, actions, 0);
    law_sizes_round_trip(e.legal, rest);
}

/// All actions of a game.
pub open spec fn all_actions(a: nat) -> Seq<usize> {
    Seq::new(a, |x: int| x as usize)
}

/// A row's values, head by head, from head slots to game actions.
pub open spec fn q_values<N>(row: Seq<N>, a: nat, heads: Seq<usize>) -> Seq<Seq<N>> {
    Seq::new(row.len() / a, |h: int| gathered(row, a, h as nat, heads))
}

/// What a row says of a decision, where action `x` has slot `heads[x]` of each head.
pub open spec fn q_framed<N: Scalar>(
    heads: Seq<usize>,
    a: usize,
    row: Seq<N>,
    legal: Seq<usize>,
) -> Result<QModel<N>, Fault> {
    if a == 0 {
        Err(Fault::ActionRange)
    } else if strays(heads, a as nat) {
        Err(Fault::HeadRange)
    } else {
        Ok(QModel { values: q_values(row, a as nat, heads), legal })
    }
}

/// Reads a row through the slots of the actions.
pub fn frame_q<N: Scalar>(heads: &[usize], a: usize, row: &[N], legal: Vec<usize>) -> (r: Result<
    QEvaluation<N>,
    Fault,
>)
    ensures
        crate::util::viewed(r) == q_framed(heads@, a, row@, legal@),
{
    if a == 0 {
        return Err(Fault::ActionRange);
    }
    if any_stray(heads, a) {
        return Err(Fault::HeadRange);
    }
    let len = row.len();
    let k = len / a;
    proof {
        assert(k * a <= len) by (nonlinear_arith)
            requires
                k == len as int / a as int,
                a > 0,
        ;
    }
    let ghost whole = q_values(row@, a as nat, heads@);
    let mut values: Vec<Vec<N>> = Vec::new();
    let mut h: usize = 0;
    while h < k
        invariant
            h <= k,
            a > 0,
            k * a <= len == row@.len(),
            whole == q_values(row@, a as nat, heads@),
            whole.len() == k,
            !strays(heads@, a as nat),
            values@.len() == h,
            forall|x: int| 0 <= x < h ==> (#[trigger] values@[x])@ == whole[x],
        decreases k - h,
    {
        let mut one: Vec<N> = Vec::new();
        let mut j: usize = 0;
        while j < heads.len()
            invariant
                j <= heads@.len(),
                h < k,
                k * a <= len == row@.len(),
                !strays(heads@, a as nat),
                one@.len() == j,
                forall|x: int| 0 <= x < j ==> #[trigger] one@[x] == row@[h * a + heads@[x]],
            decreases heads@.len() - j,
        {
            let x = heads[j];
            proof {
                assert(!(heads@[j as int] >= a));
                lemma_entry(h as nat, k as nat, a as nat, x as nat);
            }
            one.push(row[h * a + x]);
            j = j + 1;
        }
        assert(one@ =~= gathered(row@, a as nat, h as nat, heads@));
        values.push(one);
        h = h + 1;
    }
    assert(matrix(values@) =~= whole);
    Ok(QEvaluation { values, legal })
}

/// What a row says of a decision of `agent`.
pub open spec fn q_read<N: Scalar, V: ActionView>(
    view: V,
    agent: usize,
    a: usize,
    row: Seq<N>,
    legal: Seq<usize>,
) -> Result<QModel<N>, Fault> {
    q_framed(heads_of(view, all_actions(a as nat), agent), a, row, legal)
}

/// Reads a row.
pub fn read_q<N: Scalar, V: ActionView>(
    view: &V,
    agent: usize,
    a: usize,
    row: &[N],
    legal: Vec<usize>,
) -> (r: Result<QEvaluation<N>, Fault>)
    ensures
        crate::util::viewed(r) == q_read(*view, agent, a, row@, legal@),
{
    let mut ids: Vec<usize> = Vec::new();
    let mut i: usize = 0;
    assert(ids@ =~= all_actions(0));
    while i < a
        invariant
            i <= a,
            ids@ == all_actions(i as nat),
        decreases a - i,
    {
        ids.push(i);
        i = i + 1;
        assert(ids@ =~= all_actions(i as nat));
    }
    let heads = find_heads(view, &ids, agent);
    frame_q(&heads, a, row, legal)
}

/// Acting on one head's Q-values an episode, and now and then at random.
pub struct EpsilonGreedyQ<N> {
    pub n_heads: usize,
    pub epsilon: N,
}

/// The policy by the name of its algorithm.
pub type DqnPolicy<N> = EpsilonGreedyQ<N>;

impl<N> EpsilonGreedyQ<N> {
    pub fn new(n_heads: usize, epsilon: N) -> (r: Self)
        ensures
            r.n_heads == (if n_heads == 0 {
                1
            } else {
                n_heads
            }),
            r.epsilon == epsilon,
    {
        EpsilonGreedyQ {
            n_heads: if n_heads == 0 {
                1
            } else {
                n_heads
            },
            epsilon,
        }
    }
}

impl<N: Scalar> Policy<N> for EpsilonGreedyQ<N> {
    type Evaluation = QEvaluation<N>;

    type PolicyState = usize;

    open spec fn spec_max_agents(&self, sequential: bool) -> Option<usize> {
        None
    }

    fn max_agents(&self, sequential: bool) -> (r: Option<usize>) {
        None
    }

    open spec fn spec_evaluates_all_perspectives(
        &self,
        sequential: bool,
        num_agents: usize,
    ) -> bool {
        false
    }

    fn evaluates_all_perspectives(&self, sequential: bool, num_agents: usize) -> (r: bool) {
        false
    }

    open spec fn spec_supports_imperfect_information(&self) -> bool {
        true
    }

    fn supports_imperfect_information(&self) -> (r: bool) {
        true
    }

    open spec fn spec_begin_episode(&self, rng: SplitMix64) -> (usize, SplitMix64) {
        if self.n_heads == 0 {
            (0, rng)
        } else {
            <SplitMix64 as Rng<N>>::spec_below(rng, self.n_heads)
        }
    }

    fn begin_episode(&self, rng: &mut SplitMix64) -> (r: usize) {
        if self.n_heads == 0 {
            return 0;
        }
        <SplitMix64 as Rng<N>>::below(rng, self.n_heads)
    }

    open spec fn spec_encode_eval(&self, eval: QModel<N>) -> Seq<u8> {
        q_bytes(eval)
    }

    fn encode_eval(&self, eval: &QEvaluation<N>, out: &mut Vec<u8>) {
        encode_q(eval, out);
    }

    open spec fn spec_decode_eval(&self, s: Seq<u8>, action_count: usize) -> Read<
        QModel<N>,
    > {
        read_q_eval(s, action_count, self.n_heads)
    }

    fn decode_eval(&self, r: &mut Reader, action_count: usize) -> (out: Result<
        QEvaluation<N>,
        DecodeFault,
    >) {
        decode_q(r, action_count, self.n_heads)
    }

    open spec fn spec_policy_state_to_u64(&self, s: usize) -> u64 {
        s as u64
    }

    fn policy_state_to_u64(&self, s: usize) -> (r: u64) {
        s as u64
    }

    open spec fn spec_policy_state_from_u64(&self, v: u64) -> Result<usize, DecodeFault> {
        stored_head(v, self.n_heads)
    }

    fn policy_state_from_u64(&self, v: u64) -> (r: Result<usize, DecodeFault>) {
        thompson_head_from_u64(v, self.n_heads)
    }

    open spec fn selects(
        &self,
        eval: QModel<N>,
        state: usize,
        rng: SplitMix64,
        action: usize,
        next_state: usize,
        next_rng: SplitMix64,
    ) -> bool {
        &&& next_state == state
        &&& thompson(eval.values, eval.legal, self.epsilon, state, rng) == (
            Ok::<_, Fault>(action),
            next_rng,
        )
    }

    open spec fn cannot_select(&self, eval: QModel<N>, state: usize, f: Fault) -> bool {
        exists|rng: SplitMix64|
            (#[trigger] thompson(eval.values, eval.legal, self.epsilon, state, rng)).0 == Err::<
                usize,
                _,
            >(f)
    }

    fn select(&self, eval: &QEvaluation<N>, state: &mut usize, rng: &mut SplitMix64) -> (r:
        Result<usize, Fault>) {
        act_by_head(&eval.values, &eval.legal, self.epsilon, *state, rng)
    }

    open spec fn spec_fold_telemetry(&self, eval: QModel<N>, stats: StatsModel<N>) -> Result<
        StatsModel<N>,
        Fault,
    > {
        Ok(stats)
    }

    fn fold_telemetry(&self, eval: &QEvaluation<N>, stats: &mut CollectStats<N>) -> (r: Result<
        (),
        Fault,
    >) {
        Ok(())
    }
}

/// What the rows of a one-round search say of its agent `i`: the row is read through the agent's head
/// permutation.
pub open spec fn q_shot<F, N: Scalar>(
    perms: Seq<Seq<usize>>,
    a: usize,
    m: OneShotModel<F, N>,
    i: nat,
) -> Result<QModel<N>, Fault> {
    let agent = m.agents[i as int];
    if agent >= perms.len() {
        Err(Fault::AgentRange)
    } else {
        match m.row(i) {
            None => Err(Fault::RowCount),
            Some(row) => q_framed(perms[agent as int], a, row, m.legal[i as int]),
        }
    }
}

/// What the rows say of the first `n` agents.
pub open spec fn q_shots<F, N: Scalar>(
    perms: Seq<Seq<usize>>,
    a: usize,
    m: OneShotModel<F, N>,
    n: nat,
) -> Result<Seq<QModel<N>>, Fault>
    decreases n,
{
    if n == 0 {
        Ok(Seq::empty())
    } else {
        match q_shots(perms, a, m, (n - 1) as nat) {
            Err(f) => Err(f),
            Ok(said) => match q_shot(perms, a, m, (n - 1) as nat) {
                Err(f) => Err(f),
                Ok(e) => Ok(said.push(e)),
            },
        }
    }
}

proof fn lemma_q_shots_fault<F, N: Scalar>(
    perms: Seq<Seq<usize>>,
    a: usize,
    m: OneShotModel<F, N>,
    i: nat,
    n: nat,
    f: Fault,
)
    requires
        i <= n,
        q_shots(perms, a, m, i) == Err::<Seq<QModel<N>>, _>(f),
    ensures
        q_shots(perms, a, m, n) == Err::<Seq<QModel<N>>, _>(f),
    decreases n - i,
{
    if i < n {
        lemma_q_shots_fault(perms, a, m, i, (n - 1) as nat, f);
    }
}

/// Q-values as mathematical values.
pub open spec fn q_models<F, N>(out: Seq<(QEvaluation<N>, Vec<InteriorTarget<F, N>>)>) -> Seq<
    QModel<N>,
> {
    out.map_values(|e: (QEvaluation<N>, Vec<InteriorTarget<F, N>>)| e.0@)
}

impl<N: Scalar> EpsilonGreedyQ<N> {
    /// Begins the search of a state, for some agents.
    pub fn begin_search<G: Game<N>, E: StateEncoder<State = G::State>>(
        &self,
        game: &G,
        enc: &E,
        state: &G::State,
        perspectives: &[usize],
    ) -> (r: OneShot<E::Feature, N>)
        ensures
            r@ == shot_begun::<N, G, E>(*game, *enc, *state, perspectives@),
            r@.wf(),
    {
        one_shot_begin(game, enc, state, perspectives)
    }

    /// Asks for what the search needs.
    pub fn round<F: Copy>(&self, search: &mut OneShot<F, N>, out: &mut RequestSink<F>) -> (r:
        RoundStatus)
        requires
            old(search)@.wf(),
        ensures
            final(search)@.wf(),
            shot_asked(old(search)@, old(out)@, r, final(search)@, final(out)@),
    {
        one_shot_round(search, out)
    }

    /// Takes the rows that answer.
    pub fn absorb<F>(&self, search: &mut OneShot<F, N>, rows: RowsView<N>)
        requires
            old(search)@.wf(),
        ensures
            final(search)@.wf(),
            final(search)@ == (OneShotModel {
                rows: rows@,
                stride: rows.spec_stride(),
                ..old(search)@
            }),
    {
        one_shot_absorb(search, rows)
    }

    /// The evaluations of a search whose rows have been taken, one for each agent in their order. The
    /// rows are read through the permutations of `perms`, as many values a head as there are actions.
    pub fn finish<F>(&self, action_count: usize, perms: &PermTable, search: OneShot<F, N>) -> (r:
        Result<Vec<(QEvaluation<N>, Vec<InteriorTarget<F, N>>)>, Fault>)
        requires
            perms.wf(),
            search@.wf(),
        ensures
            match r {
                Ok(out) => {
                    &&& q_shots(perms@, action_count, search@, search@.agents.len()) == Ok::<
                        _,
                        Fault,
                    >(q_models(out@))
                    &&& no_targets(out@)
                },
                Err(f) => q_shots(perms@, action_count, search@, search@.agents.len()) == Err::<
                    Seq<QModel<N>>,
                    _,
                >(f),
            },
    {
        let ghost m = search@;
        let n = search.agents.len();
        let known = perms.agents();
        let mut out: Vec<(QEvaluation<N>, Vec<InteriorTarget<F, N>>)> = Vec::new();
        let mut i: usize = 0;
        assert(q_models(out@) =~= Seq::empty());
        while i < n
            invariant
                i <= n == m.agents.len(),
                m == search@,
                m.wf(),
                perms.wf(),
                known == perms@.len(),
                q_shots(perms@, action_count, m, i as nat) == Ok::<_, Fault>(q_models(out@)),
                no_targets(out@),
            decreases n - i,
        {
            let agent = search.agents[i];
            assert(m.legal[i as int] == search.legal@[i as int]@);
            let said = if agent >= known {
                Err(Fault::AgentRange)
            } else {
                match one_shot_row(&search, i) {
                    None => Err(Fault::RowCount),
                    Some(row) => frame_q(
                        perms.get(agent).0,
                        action_count,
                        row,
                        copied(&search.legal[i]),
                    ),
                }
            };
            assert(crate::util::viewed(said) == q_shot(perms@, action_count, m, i as nat));
            match said {
                Err(f) => {
                    proof {
                        lemma_q_shots_fault(perms@, action_count, m, (i + 1) as nat, n as nat, f);
                    }
                    return Err(f);
                },
                Ok(e) => {
                    let ghost before = out@;
                    out.push((e, Vec::new()));
                    assert(q_models(out@) =~= q_models(before).push(e@));
                },
            }
            i = i + 1;
        }
        Ok(out)
    }
}

/// A row read through a view's permutation says what it says through the view.
pub proof fn law_frames_agree<N: Scalar, V: ActionView>(
    view: V,
    agent: usize,
    a: usize,
    row: Seq<N>,
    legal: Seq<usize>,
)
    ensures
        q_framed(spec_head_permutation(view, a, agent), a, row, legal) == q_read(
            view,
            agent,
            a,
            row,
            legal,
        ),
{
    assert(spec_head_permutation(view, a, agent) =~= heads_of(view, all_actions(a as nat), agent));
}

/// The evaluation of request `i`, whose row is `row`.
pub open spec fn q_of_request<N: Scalar, G: Game<N>, E: StateEncoder<State = G::State>>(
    game: G,
    enc: E,
    request: (G::State, usize),
    row: Seq<N>,
) -> Result<QModel<N>, Fault> {
    q_read(
        enc,
        request.1,
        game.spec_action_count(),
        row,
        game.spec_legal_actions(request.0, request.1),
    )
}

impl<
    N: Scalar,
    G: Game<N>,
    E: StateEncoder<State = G::State>,
    W: Reward<N, Event = G::Event>,
    I: Infer<E::Feature, N>,
> Planner<N, G, E, W, I> for EpsilonGreedyQ<N> {
    open spec fn evaluates(
        &self,
        game: G,
        enc: E,
        reward: W,
        requests: Seq<(G::State, usize)>,
        seed: u64,
        collect_interior: bool,
        source: (I, I),
        out: Seq<(QEvaluation<N>, Vec<InteriorTarget<E::Feature, N>>)>,
    ) -> bool {
        exists|rows: Seq<Seq<N>>|
            {
                &&& #[trigger] requests_served::<N, G, E, I>(enc, requests, source, rows)
                &&& out.len() == requests.len() == rows.len()
                &&& forall|i: int|
                    0 <= i < out.len() ==> q_of_request(game, enc, requests[i], rows[i]) == Ok::<
                        _,
                        Fault,
                    >((#[trigger] out[i]).0@) && out[i].1@.len() == 0
            }
    }

    open spec fn cannot_evaluate(
        &self,
        game: G,
        enc: E,
        reward: W,
        requests: Seq<(G::State, usize)>,
        seed: u64,
        collect_interior: bool,
        source: I,
        f: Fault,
    ) -> bool {
        exists|rows: Seq<Seq<N>>, after: I, i: int|
            {
                &&& #[trigger] requests_served::<N, G, E, I>(enc, requests, (source, after), rows)
                &&& 0 <= i < requests.len() == rows.len()
                &&& q_of_request(game, enc, requests[i], #[trigger] rows[i]) == Err::<
                    QModel<N>,
                    _,
                >(f)
            }
    }

    #[verifier::loop_isolation(false)]
    fn evaluate(
        &self,
        game: &G,
        enc: &E,
        reward: &W,
        requests: Vec<(G::State, usize)>,
        seed: u64,
        collect_interior: bool,
        source: I,
    ) -> (r: (Result<Vec<(QEvaluation<N>, Vec<InteriorTarget<E::Feature, N>>)>, Fault>, I)) {
        let a = game.action_count();
        let (rows, after) = ask_for_requests::<N, G, E, I>(enc, &requests, source);
        let ghost all = matrix(rows@);
        assert(all.len() == requests@.len());
        assert(requests_served::<N, G, E, I>(*enc, requests@, (source, after), all));
        let mut out: Vec<(QEvaluation<N>, Vec<InteriorTarget<E::Feature, N>>)> = Vec::new();
        let mut i: usize = 0;
        while i < requests.len()
            invariant
                i <= requests@.len() == rows@.len(),
                out@.len() == i,
                forall|k: int|
                    0 <= k < i ==> q_of_request(*game, *enc, requests@[k], all[k]) == Ok::<
                        _,
                        Fault,
                    >((#[trigger] out@[k]).0@) && out@[k].1@.len() == 0,
            decreases requests@.len() - i,
        {
            let agent = requests[i].1;
            let legal = game.legal_actions(&requests[i].0, agent);
            assert(all[i as int] == rows@[i as int]@);
            match read_q(enc, agent, a, &rows[i], legal) {
                Ok(e) => out.push((e, Vec::new())),
                Err(f) => {
                    assert(q_of_request(*game, *enc, requests@[i as int], all[i as int]) == Err::<
                        QModel<N>,
                        _,
                    >(f));
                    return (Err(f), after);
                },
            }
            i = i + 1;
        }
        (Ok(out), after)
    }
}

} // verus!
