//! Stochastic actor over policy logits and a state value.

use vstd::prelude::*;

use super::{
    ask_for_requests, one_shot_absorb, one_shot_begin, one_shot_round, one_shot_row, OneShot,
};
#[allow(unused_imports)]
use super::{no_targets, requests_served, shot_asked, shot_begun, OneShotModel};
use crate::codec::bytes::{nums, put_num, put_nums, put_sizes, sizes, DecodeFault, Reader};
#[allow(unused_imports)]
use crate::codec::bytes::{
    law_num_round_trip, law_nums_round_trip, law_sizes_round_trip, num_bytes, nums_bytes, read_num,
    read_nums, read_sizes, reads_view, sizes_bytes, Read,
};
use crate::encoder::{ActionView, PermTable, StateEncoder};
use crate::fault::Fault;
use crate::game::{Game, Rng};
use crate::num::{largest, sum, Scalar};
#[allow(unused_imports)]
use crate::num::{faithful_bits, spec_largest, spec_sum};
use crate::policies::planner::Planner;
use crate::policies::tree::evaluation::{below, finite};
#[allow(unused_imports)]
use crate::policies::tree::evaluation::{all_below, all_finite};
use crate::policies::tree::expectimax::backup::InteriorTarget;
use crate::policies::tree::expectimax::evaluate::{any_stray, find_heads, Exp};
#[allow(unused_imports)]
use crate::policies::tree::expectimax::evaluate::{exps_of, heads_of, strays};
use crate::policies::tree::expectimax::search::Infer;
use crate::policies::tree::mcts::select::Ln;
use crate::policy::{
    argmax, nothing_from_u64, Policy, RequestSink, RoundStatus, RowsView, Stateless,
};
#[allow(unused_imports)]
use crate::policy::{spec_argmax, stored_nothing};
use crate::reward::Reward;
use crate::rng::SplitMix64;
use crate::stats::CollectStats;
#[allow(unused_imports)]
use crate::stats::StatsModel;
use crate::util::copied;
#[allow(unused_imports)]
use crate::util::matrix;

verus! {

/// Masked-softmax log-probabilities parallel to `legal`, the critic's state value, and the legal
/// actions for one decision.
pub struct PpoEvaluation<N> {
    pub log_probs: Vec<N>,
    pub value: N,
    pub legal: Vec<usize>,
}

/// An evaluation as a mathematical value.
#[verifier::ext_equal]
pub struct PpoModel<N> {
    pub log_probs: Seq<N>,
    pub value: N,
    pub legal: Seq<usize>,
}

impl<N> View for PpoEvaluation<N> {
    type V = PpoModel<N>;

    open spec fn view(&self) -> PpoModel<N> {
        PpoModel { log_probs: self.log_probs@, value: self.value, legal: self.legal@ }
    }
}

/// The entries of `logits` at `legal`.
pub open spec fn masked<N>(logits: Seq<N>, legal: Seq<usize>) -> Seq<N> {
    legal.map_values(|a: usize| logits[a as int])
}

/// Each entry below the largest.
pub open spec fn lowered<N: Scalar>(xs: Seq<N>) -> Seq<N> {
    xs.map_values(|x: N| x.spec_minus(spec_largest(xs)))
}

/// Log-probabilities that a masked softmax may give: what exponentials `z` and the logarithm `s` of
/// their sum make of it.
pub open spec fn log_softmax<N: Scalar>(xs: Seq<N>, s: N) -> Seq<N> {
    lowered(xs).map_values(|x: N| x.spec_minus(s))
}

/// `out` may be the log-probabilities of the masked softmax.
pub open spec fn masked_log_softmax<N: Scalar, K: Exp<N> + Ln<N>>(
    maths: K,
    xs: Seq<N>,
    out: Seq<N>,
) -> bool {
    exists|z: Seq<N>, s: N|
        exps_of(maths, lowered(xs), z) && call_ensures(K::ln, (&maths, spec_sum(z)), s) && out
            == #[trigger] log_softmax(xs, s) && #[trigger] z.len() == xs.len()
}

/// Log-probabilities of the masked softmax over `legal`, parallel to `legal`. Sampling and the
/// recorded log-probability both come from here, so that they cannot drift apart.
pub fn masked_log_probs<N: Scalar, K: Exp<N> + Ln<N>>(
    maths: &K,
    logits: &[N],
    legal: &[usize],
) -> (r: Vec<N>)
    requires
        !strays(legal@, logits@.len()),
    ensures
        masked_log_softmax(*maths, masked(logits@, legal@), r@),
        r@.len() == legal@.len(),
{
    let mut xs: Vec<N> = Vec::new();
    let mut i: usize = 0;
    while i < legal.len()
        invariant
            i <= legal@.len(),
            !strays(legal@, logits@.len()),
            xs@.len() == i,
            forall|k: int| 0 <= k < i ==> #[trigger] xs@[k] == logits@[legal@[k] as int],
        decreases legal@.len() - i,
    {
        assert(!(legal@[i as int] >= logits@.len()));
        xs.push(logits[legal[i]]);
        i = i + 1;
    }
    assert(xs@ =~= masked(logits@, legal@));
    let top = largest(&xs);
    let mut low: Vec<N> = Vec::new();
    let mut z: Vec<N> = Vec::new();
    let mut j: usize = 0;
    while j < xs.len()
        invariant
            j <= xs@.len(),
            top == spec_largest(xs@),
            low@.len() == j,
            z@.len() == j,
            forall|k: int| 0 <= k < j ==> #[trigger] low@[k] == xs@[k].spec_minus(top),
            forall|k: int|
                0 <= k < j ==> call_ensures(
                    K::exp,
                    (maths, xs@[k].spec_minus(top)),
                    #[trigger] z@[k],
                ),
        decreases xs@.len() - j,
    {
        let x = xs[j].minus(top);
        let e = maths.exp(x);
        low.push(x);
        z.push(e);
        j = j + 1;
    }
    assert(low@ =~= lowered(xs@));
    assert(exps_of(*maths, lowered(xs@), z@));
    let s = maths.ln(sum(&z));
    let mut r: Vec<N> = Vec::new();
    let mut t: usize = 0;
    while t < low.len()
        invariant
            t <= low@.len(),
            r@.len() == t,
            forall|k: int| 0 <= k < t ==> #[trigger] r@[k] == low@[k].spec_minus(s),
        decreases low@.len() - t,
    {
        r.push(low[t].minus(s));
        t = t + 1;
    }
    assert(r@ =~= log_softmax(xs@, s));
    assert(z@.len() == xs@.len());
    r
}

/// The bytes of an evaluation.
pub open spec fn ppo_bytes<N: Scalar>(e: PpoModel<N>) -> Seq<u8> {
    nums_bytes(e.log_probs) + (num_bytes(e.value) + sizes_bytes(e.legal))
}

/// An evaluation of finite numbers, one log-probability for each legal action, and legal actions
/// that the game has.
pub open spec fn read_ppo<N: Scalar>(s: Seq<u8>, actions: usize) -> Read<PpoModel<N>> {
    match read_nums::<N>(s) {
        Err(f) => Err(f),
        Ok((log_probs, s1)) => match read_num::<N>(s1) {
            Err(f) => Err(f),
            Ok((value, s2)) => if !all_finite(log_probs) || !value.spec_is_finite() {
                Err(DecodeFault::NotFinite)
            } else {
                match read_sizes(s2) {
                    Err(f) => Err(f),
                    Ok((legal, s3)) => if legal.len() != log_probs.len() {
                        Err(DecodeFault::LegalWidth)
                    } else if !all_below(legal, actions) {
                        Err(DecodeFault::ActionRange)
                    } else {
                        Ok((PpoModel { log_probs, value, legal }, s3))
                    },
                }
            },
        },
    }
}

/// Writes an evaluation.
pub fn encode_ppo<N: Scalar>(e: &PpoEvaluation<N>, out: &mut Vec<u8>)
    ensures
        final(out)@ == old(out)@ + ppo_bytes(e@),
{
    put_nums(out, &e.log_probs);
    put_num(out, e.value);
    put_sizes(out, &e.legal);
    assert(out@ =~= old(out)@ + ppo_bytes(e@));
}

/// Reads an evaluation, and validates it.
pub fn decode_ppo<N: Scalar>(r: &mut Reader, action_count: usize) -> (out: Result<
    PpoEvaluation<N>,
    DecodeFault,
>)
    ensures
        reads_view(out, read_ppo::<N>(old(r)@, action_count), final(r)@),
{
    let log_probs = match nums::<N>(r) {
        Ok(xs) => xs,
        Err(f) => return Err(f),
    };
    let value = match r.num::<N>() {
        Ok(x) => x,
        Err(f) => return Err(f),
    };
    if !finite(&log_probs) || !value.is_finite() {
        return Err(DecodeFault::NotFinite);
    }
    let legal = match sizes(r) {
        Ok(xs) => xs,
        Err(f) => return Err(f),
    };
    if legal.len() != log_probs.len() {
        return Err(DecodeFault::LegalWidth);
    }
    if !below(&legal, action_count) {
        return Err(DecodeFault::ActionRange);
    }
    Ok(PpoEvaluation { log_probs, value, legal })
}

/// An evaluation of the right shape is read back as it was written.
pub proof fn law_ppo_round_trip<N: Scalar>(e: PpoModel<N>, actions: usize, rest: Seq<u8>)
    requires
        faithful_bits::<N>(),
        all_finite(e.log_probs),
        e.value.spec_is_finite(),
        e.legal.len() == e.log_probs.len() <= u32::MAX,
        all_below(e.legal, actions),
    ensures
        read_ppo::<N>(ppo_bytes(e) + rest, actions) == Ok::<_, DecodeFault>((e, rest)),
{
    let s2 = sizes_bytes(e.legal) + rest;
    let s1 = num_bytes(e.value) + s2;
    assert(ppo_bytes(e) + rest =~= nums_bytes(e.log_probs) + s1);
    law_nums_round_trip(e.log_probs, s1);
    law_num_round_trip(e.value, s2);
    law_sizes_round_trip(e.legal, rest);
}

/// The action at place `i`.
pub open spec fn legal_at(legal: Seq<usize>, i: int) -> Result<usize, Fault> {
    if i < legal.len() {
        Ok(legal[i])
    } else {
        Err(Fault::NoAction)
    }
}

/// The action at which `r` is used up by the probabilities from the `i`-th on; the likeliest where
/// rounding leaves some over.
pub open spec fn prob_taken<N: Scalar>(eval: PpoModel<N>, probs: Seq<N>, i: nat, r: N) -> Result<
    usize,
    Fault,
>
    decreases probs.len() - i,
{
    if i >= probs.len() {
        legal_at(eval.legal, spec_argmax(eval.log_probs, eval.log_probs.len()))
    } else {
        let left = r.spec_minus(probs[i as int]);
        if left.spec_at_most(N::spec_zero()) {
            legal_at(eval.legal, i as int)
        } else {
            prob_taken(eval, probs, i + 1, left)
        }
    }
}

/// The action that probabilities and a draw pick.
pub open spec fn actor_choice<N: Scalar>(eval: PpoModel<N>, probs: Seq<N>, draw: N) -> Result<
    usize,
    Fault,
> {
    prob_taken(eval, probs, 0, draw)
}

/// Picks by probability.
#[verifier::loop_isolation(false)]
pub fn choose_by_probs<N: Scalar>(eval: &PpoEvaluation<N>, probs: &[N], draw: N) -> (r: Result<
    usize,
    Fault,
>)
    ensures
        r == actor_choice(eval@, probs@, draw),
{
    let mut r = draw;
    let mut i: usize = 0;
    while i < probs.len()
        invariant
            i <= probs@.len(),
            prob_taken(eval@, probs@, i as nat, r) == actor_choice(eval@, probs@, draw),
        decreases probs@.len() - i,
    {
        r = r.minus(probs[i]);
        if r.at_most(N::zero()) {
            return if i < eval.legal.len() {
                Ok(eval.legal[i])
            } else {
                Err(Fault::NoAction)
            };
        }
        i = i + 1;
    }
    let best = argmax(&eval.log_probs);
    if best < eval.legal.len() {
        Ok(eval.legal[best])
    } else {
        Err(Fault::NoAction)
    }
}

/// Whatever is played is legal.
pub proof fn law_actor_is_legal<N: Scalar>(eval: PpoModel<N>, probs: Seq<N>, draw: N)
    ensures
        actor_choice(eval, probs, draw) matches Ok(action) ==> eval.legal.contains(action),
{
    lemma_prob_taken_legal(eval, probs, 0, draw);
}

proof fn lemma_prob_taken_legal<N: Scalar>(eval: PpoModel<N>, probs: Seq<N>, i: nat, r: N)
    ensures
        prob_taken(eval, probs, i, r) matches Ok(action) ==> eval.legal.contains(action),
    decreases probs.len() - i,
{
    if i < probs.len() {
        if i < eval.legal.len() {
            assert(eval.legal.contains(eval.legal[i as int]));
        }
        lemma_prob_taken_legal(eval, probs, i + 1, r.spec_minus(probs[i as int]));
    } else {
        let best = spec_argmax(eval.log_probs, eval.log_probs.len());
        lemma_argmax_at_least_zero(eval.log_probs, eval.log_probs.len());
        if best < eval.legal.len() {
            assert(eval.legal.contains(eval.legal[best]));
        }
    }
}

proof fn lemma_argmax_at_least_zero<N: Scalar>(values: Seq<N>, n: nat)
    ensures
        0 <= spec_argmax(values, n),
    decreases n,
{
    if n > 0 {
        lemma_argmax_at_least_zero(values, (n - 1) as nat);
    }
}

/// Sampling from the masked softmax.
pub struct PpoActor<K> {
    pub maths: K,
}

impl<K> PpoActor<K> {
    pub fn new(maths: K) -> (r: Self)
        ensures
            r.maths == maths,
    {
        PpoActor { maths }
    }
}

impl<N: Scalar, K: Exp<N>> Policy<N> for PpoActor<K> {
    type Evaluation = PpoEvaluation<N>;

    type PolicyState = Stateless;

    open spec fn spec_max_agents(&self, sequential: bool) -> Option<usize> {
        None
    }

    fn max_agents(&self, sequential: bool) -> (r: Option<usize>) {
        None
    }

    open spec fn spec_evaluates_all_perspectives(
        &self,
        sequential: bool,
        num_agents: usize,
    ) -> bool {
        false
    }

    fn evaluates_all_perspectives(&self, sequential: bool, num_agents: usize) -> (r: bool) {
        false
    }

    open spec fn spec_supports_imperfect_information(&self) -> bool {
        true
    }

    fn supports_imperfect_information(&self) -> (r: bool) {
        true
    }

    open spec fn spec_begin_episode(&self, rng: SplitMix64) -> (Stateless, SplitMix64) {
        (Stateless, rng)
    }

    fn begin_episode(&self, rng: &mut SplitMix64) -> (r: Stateless) {
        Stateless
    }

    open spec fn spec_encode_eval(&self, eval: PpoModel<N>) -> Seq<u8> {
        ppo_bytes(eval)
    }

    fn encode_eval(&self, eval: &PpoEvaluation<N>, out: &mut Vec<u8>) {
        encode_ppo(eval, out);
    }

    open spec fn spec_decode_eval(&self, s: Seq<u8>, action_count: usize) -> Read<
        PpoModel<N>,
    > {
        read_ppo(s, action_count)
    }

    fn decode_eval(&self, r: &mut Reader, action_count: usize) -> (out: Result<
        PpoEvaluation<N>,
        DecodeFault,
    >) {
        decode_ppo(r, action_count)
    }

    open spec fn spec_policy_state_to_u64(&self, s: Stateless) -> u64 {
        0
    }

    fn policy_state_to_u64(&self, s: Stateless) -> (r: u64) {
        0
    }

    open spec fn spec_policy_state_from_u64(&self, v: u64) -> Result<Stateless, DecodeFault> {
        stored_nothing(v)
    }

    fn policy_state_from_u64(&self, v: u64) -> (r: Result<Stateless, DecodeFault>) {
        nothing_from_u64(v)
    }

    open spec fn selects(
        &self,
        eval: PpoModel<N>,
        state: Stateless,
        rng: SplitMix64,
        action: usize,
        next_state: Stateless,
        next_rng: SplitMix64,
    ) -> bool {
        let (draw, after) = <SplitMix64 as Rng<N>>::spec_unit(rng);
        &&& next_rng == after
        &&& exists|probs: Seq<N>| #[trigger]
            exps_of(self.maths, eval.log_probs, probs) && actor_choice(eval, probs, draw) == Ok::<
                _,
                Fault,
            >(action)
    }

    open spec fn cannot_select(&self, eval: PpoModel<N>, state: Stateless, f: Fault) -> bool {
        exists|probs: Seq<N>, draw: N|
            exps_of(self.maths, eval.log_probs, probs) && (#[trigger] actor_choice(
                eval,
                probs,
                draw,
            )) == Err::<usize, _>(f)
    }

    fn select(&self, eval: &PpoEvaluation<N>, state: &mut Stateless, rng: &mut SplitMix64) -> (r:
        Result<usize, Fault>) {
        let draw: N = <SplitMix64 as Rng<N>>::unit(rng);
        let mut probs: Vec<N> = Vec::new();
        let mut i: usize = 0;
        while i < eval.log_probs.len()
            invariant
                i <= eval.log_probs@.len(),
                probs@.len() == i,
                draw == <SplitMix64 as Rng<N>>::spec_unit(*old(rng)).0,
                *rng == <SplitMix64 as Rng<N>>::spec_unit(*old(rng)).1,
                forall|k: int|
                    0 <= k < i ==> call_ensures(
                        K::exp,
                        (&self.maths, eval.log_probs@[k]),
                        #[trigger] probs@[k],
                    ),
            decreases eval.log_probs@.len() - i,
        {
            let p = self.maths.exp(eval.log_probs[i]);
            probs.push(p);
            i = i + 1;
        }
        assert(exps_of(self.maths, eval@.log_probs, probs@));
        let r = choose_by_probs(eval, &probs, draw);
        assert(r == actor_choice(eval@, probs@, draw));
        r
    }

    open spec fn spec_fold_telemetry(&self, eval: PpoModel<N>, stats: StatsModel<N>) -> Result<
        StatsModel<N>,
        Fault,
    > {
        Ok(stats)
    }

    fn fold_telemetry(&self, eval: &PpoEvaluation<N>, stats: &mut CollectStats<N>) -> (r: Result<
        (),
        Fault,
    >) {
        Ok(())
    }
}

/// What a row may say of a decision whose legal actions have the slots `heads`: a log-probability for
/// each of them, and the value that follows the logits.
pub open spec fn ppo_framed<N: Scalar, K: Exp<N> + Ln<N>>(
    maths: K,
    heads: Seq<usize>,
    a: usize,
    row: Seq<N>,
    legal: Seq<usize>,
    out: PpoModel<N>,
) -> bool {
    &&& ppo_unframed(heads, a, row) is None
    &&& out.value == row[a as int]
    &&& out.legal == legal
    &&& masked_log_softmax(maths, masked(row.take(a as int), heads), out.log_probs)
    &&& out.log_probs.len() == heads.len()
}

/// Why a row says nothing, if it does not.
pub open spec fn ppo_unframed<N>(heads: Seq<usize>, a: usize, row: Seq<N>) -> Option<Fault> {
    if row.len() <= a {
        Some(Fault::RowWidth)
    } else if strays(heads, a as nat) {
        Some(Fault::HeadRange)
    } else {
        None
    }
}

/// Reads a row through the slots of the legal actions.
pub fn frame_ppo<N: Scalar, K: Exp<N> + Ln<N>>(
    maths: &K,
    heads: &[usize],
    a: usize,
    row: &[N],
    legal: Vec<usize>,
) -> (r: Result<PpoEvaluation<N>, Fault>)
    ensures
        match r {
            Ok(e) => ppo_framed(*maths, heads@, a, row@, legal@, e@),
            Err(f) => ppo_unframed(heads@, a, row@) == Some(f),
        },
{
    if row.len() <= a {
        return Err(Fault::RowWidth);
    }
    if any_stray(heads, a) {
        return Err(Fault::HeadRange);
    }
    let logits = vstd::slice::slice_subrange(row, 0, a);
    assert(logits@ =~= row@.take(a as int));
    let log_probs = masked_log_probs(maths, logits, heads);
    Ok(PpoEvaluation { log_probs, value: row[a], legal })
}

/// What a row may say of a decision of `agent`.
pub open spec fn ppo_read<N: Scalar, V: ActionView, K: Exp<N> + Ln<N>>(
    maths: K,
    view: V,
    agent: usize,
    a: usize,
    row: Seq<N>,
    legal: Seq<usize>,
    out: PpoModel<N>,
) -> bool {
    ppo_framed(maths, heads_of(view, legal, agent), a, row, legal, out)
}

/// Why a row says nothing.
pub open spec fn ppo_unread<N: Scalar, V: ActionView>(
    view: V,
    agent: usize,
    a: usize,
    row: Seq<N>,
    legal: Seq<usize>,
    f: Fault,
) -> bool {
    ppo_unframed(heads_of(view, legal, agent), a, row) == Some(f)
}

/// Reads a row.
pub fn read_ppo_row<N: Scalar, V: ActionView, K: Exp<N> + Ln<N>>(
    maths: &K,
    view: &V,
    agent: usize,
    a: usize,
    row: &[N],
    legal: Vec<usize>,
) -> (r: Result<PpoEvaluation<N>, Fault>)
    ensures
        match r {
            Ok(e) => ppo_read(*maths, *view, agent, a, row@, legal@, e@),
            Err(f) => ppo_unread(*view, agent, a, row@, legal@, f),
        },
{
    let heads = find_heads(view, &legal, agent);
    frame_ppo(maths, &heads, a, row, legal)
}

/// The slots of legal actions under a head permutation.
pub open spec fn permuted(perm: Seq<usize>, legal: Seq<usize>) -> Seq<usize> {
    legal.map_values(|g: usize| perm[g as int])
}

fn permute(perm: &[usize], legal: &[usize]) -> (r: Vec<usize>)
    requires
        !strays(legal@, perm@.len()),
    ensures
        r@ == permuted(perm@, legal@),
{
    let mut r: Vec<usize> = Vec::new();
    let mut i: usize = 0;
    while i < legal.len()
        invariant
            i <= legal@.len(),
            !strays(legal@, perm@.len()),
            r@.len() == i,
            forall|k: int| 0 <= k < i ==> #[trigger] r@[k] == perm@[legal@[k] as int],
        decreases legal@.len() - i,
    {
        assert(!(legal@[i as int] >= perm@.len()));
        r.push(perm[legal[i]]);
        i = i + 1;
    }
    assert(r@ =~= permuted(perm@, legal@));
    r
}

/// Why the rows of a one-round search say nothing of its agent `i`, if they do not.
pub open spec fn ppo_unshot<F, N: Scalar>(
    perms: Seq<Seq<usize>>,
    a: usize,
    m: OneShotModel<F, N>,
    i: int,
) -> Option<Fault> {
    let agent = m.agents[i];
    if agent >= perms.len() {
        Some(Fault::AgentRange)
    } else if m.row(i as nat) is None {
        Some(Fault::RowCount)
    } else if strays(m.legal[i], perms[agent as int].len()) {
        Some(Fault::ActionRange)
    } else {
        ppo_unframed(permuted(perms[agent as int], m.legal[i]), a, m.row(i as nat)->Some_0)
    }
}

/// What the rows of a one-round search may say of its agent `i`: the row is read through the agent's
/// head permutation.
pub open spec fn ppo_shot<F, N: Scalar, K: Exp<N> + Ln<N>>(
    maths: K,
    perms: Seq<Seq<usize>>,
    a: usize,
    m: OneShotModel<F, N>,
    i: int,
    out: PpoModel<N>,
) -> bool {
    &&& ppo_unshot(perms, a, m, i) is None
    &&& ppo_framed(
        maths,
        permuted(perms[m.agents[i] as int], m.legal[i]),
        a,
        m.row(i as nat)->Some_0,
        m.legal[i],
        out,
    )
}

impl<K> PpoActor<K> {
    /// Begins the search of a state, for some agents.
    pub fn begin_search<N: Scalar, G: Game<N>, E: StateEncoder<State = G::State>>(
        &self,
        game: &G,
        enc: &E,
        state: &G::State,
        perspectives: &[usize],
    ) -> (r: OneShot<E::Feature, N>)
        ensures
            r@ == shot_begun::<N, G, E>(*game, *enc, *state, perspectives@),
            r@.wf(),
    {
        one_shot_begin(game, enc, state, perspectives)
    }

    /// Asks for what the search needs.
    pub fn round<F: Copy, N: Scalar>(
        &self,
        search: &mut OneShot<F, N>,
        out: &mut RequestSink<F>,
    ) -> (r: RoundStatus)
        requires
            old(search)@.wf(),
        ensures
            final(search)@.wf(),
            shot_asked(old(search)@, old(out)@, r, final(search)@, final(out)@),
    {
        one_shot_round(search, out)
    }

    /// Takes the rows that answer.
    pub fn absorb<F, N: Scalar>(&self, search: &mut OneShot<F, N>, rows: RowsView<N>)
        requires
            old(search)@.wf(),
        ensures
            final(search)@.wf(),
            final(search)@ == (OneShotModel {
                rows: rows@,
                stride: rows.spec_stride(),
                ..old(search)@
            }),
    {
        one_shot_absorb(search, rows)
    }

    /// The evaluations of a search whose rows have been taken, one for each agent in their order. The
    /// rows are read through the permutations of `perms`: logits for each action, and the value.
    pub fn finish<F, N: Scalar>(
        &self,
        action_count: usize,
        perms: &PermTable,
        search: OneShot<F, N>,
    ) -> (r: Result<Vec<(PpoEvaluation<N>, Vec<InteriorTarget<F, N>>)>, Fault>) where
        K: Exp<N> + Ln<N>,

        requires
            perms.wf(),
            search@.wf(),
        ensures
            match r {
                Ok(out) => {
                    &&& out@.len() == search@.agents.len()
                    &&& forall|i: int|
                        0 <= i < out@.len() ==> ppo_shot(
                            self.maths,
                            perms@,
                            action_count,
                            search@,
                            i,
                            (#[trigger] out@[i]).0@,
                        )
                    &&& no_targets(out@)
                },
                Err(f) => exists|i: int|
                    {
                        &&& 0 <= i < search@.agents.len()
                        &&& #[trigger] ppo_unshot(perms@, action_count, search@, i) == Some(f)
                        &&& forall|j: int|
                            0 <= j < i ==> #[trigger] ppo_unshot(
                                perms@,
                                action_count,
                                search@,
                                j,
                            ) is None
                    },
            },
    {
        let ghost m = search@;
        let n = search.agents.len();
        let known = perms.agents();
        let mut out: Vec<(PpoEvaluation<N>, Vec<InteriorTarget<F, N>>)> = Vec::new();
        let mut i: usize = 0;
        while i < n
            invariant
                i <= n == m.agents.len(),
                m == search@,
                m.wf(),
                perms.wf(),
                known == perms@.len(),
                out@.len() == i,
                forall|j: int|
                    0 <= j < i ==> ppo_shot(
                        self.maths,
                        perms@,
                        action_count,
                        m,
                        j,
                        (#[trigger] out@[j]).0@,
                    ),
                forall|j: int|
                    0 <= j < i ==> #[trigger] ppo_unshot(perms@, action_count, m, j) is None,
                no_targets(out@),
            decreases n - i,
        {
            let agent = search.agents[i];
            assert(m.legal[i as int] == search.legal@[i as int]@);
            if agent >= known {
                assert(ppo_unshot(perms@, action_count, m, i as int) == Some(Fault::AgentRange));
                return Err(Fault::AgentRange);
            }
            let row = match one_shot_row(&search, i) {
                None => {
                    assert(ppo_unshot(perms@, action_count, m, i as int) == Some(Fault::RowCount));
                    return Err(Fault::RowCount);
                },
                Some(row) => row,
            };
            let perm = perms.get(agent).0;
            let legal = copied(&search.legal[i]);
            if any_stray(&legal, perm.len()) {
                assert(ppo_unshot(perms@, action_count, m, i as int) == Some(Fault::ActionRange));
                return Err(Fault::ActionRange);
            }
            let heads = permute(perm, &legal);
            match frame_ppo(&self.maths, &heads, action_count, row, legal) {
                Err(f) => {
                    assert(ppo_unshot(perms@, action_count, m, i as int) == Some(f));
                    return Err(f);
                },
                Ok(e) => {
                    assert(ppo_shot(self.maths, perms@, action_count, m, i as int, e@));
                    out.push((e, Vec::new()));
                },
            }
            i = i + 1;
        }
        Ok(out)
    }
}

impl<
    N: Scalar,
    G: Game<N>,
    E: StateEncoder<State = G::State>,
    W: Reward<N, Event = G::Event>,
    I: Infer<E::Feature, N>,
    K: Exp<N> + Ln<N>,
> Planner<N, G, E, W, I> for PpoActor<K> {
    open spec fn evaluates(
        &self,
        game: G,
        enc: E,
        reward: W,
        requests: Seq<(G::State, usize)>,
        seed: u64,
        collect_interior: bool,
        source: (I, I),
        out: Seq<(PpoEvaluation<N>, Vec<InteriorTarget<E::Feature, N>>)>,
    ) -> bool {
        exists|rows: Seq<Seq<N>>|
            {
                &&& #[trigger] requests_served::<N, G, E, I>(enc, requests, source, rows)
                &&& out.len() == requests.len() == rows.len()
                &&& forall|i: int|
                    0 <= i < out.len() ==> ppo_read(
                        self.maths,
                        enc,
                        requests[i].1,
                        game.spec_action_count(),
                        rows[i],
                        game.spec_legal_actions(requests[i].0, requests[i].1),
                        (#[trigger] out[i]).0@,
                    ) && out[i].1@.len() == 0
            }
    }

    open spec fn cannot_evaluate(
        &self,
        game: G,
        enc: E,
        reward: W,
        requests: Seq<(G::State, usize)>,
        seed: u64,
        collect_interior: bool,
        source: I,
        f: Fault,
    ) -> bool {
        exists|rows: Seq<Seq<N>>, after: I, i: int|
            {
                &&& #[trigger] requests_served::<N, G, E, I>(enc, requests, (source, after), rows)
                &&& 0 <= i < requests.len() == rows.len()
                &&& ppo_unread(
                    enc,
                    requests[i].1,
                    game.spec_action_count(),
                    #[trigger] rows[i],
                    game.spec_legal_actions(requests[i].0, requests[i].1),
                    f,
                )
            }
    }

    #[verifier::loop_isolation(false)]
    fn evaluate(
        &self,
        game: &G,
        enc: &E,
        reward: &W,
        requests: Vec<(G::State, usize)>,
        seed: u64,
        collect_interior: bool,
        source: I,
    ) -> (r: (Result<Vec<(PpoEvaluation<N>, Vec<InteriorTarget<E::Feature, N>>)>, Fault>, I)) {
        let a = game.action_count();
        let (rows, after) = ask_for_requests::<N, G, E, I>(enc, &requests, source);
        let ghost all = matrix(rows@);
        assert(all.len() == requests@.len());
        assert(requests_served::<N, G, E, I>(*enc, requests@, (source, after), all));
        let mut out: Vec<(PpoEvaluation<N>, Vec<InteriorTarget<E::Feature, N>>)> = Vec::new();
        let mut i: usize = 0;
        while i < requests.len()
            invariant
                i <= requests@.len() == rows@.len(),
                out@.len() == i,
                forall|k: int|
                    0 <= k < i ==> ppo_read(
                        self.maths,
                        *enc,
                        requests@[k].1,
                        game.spec_action_count(),
                        all[k],
                        game.spec_legal_actions(requests@[k].0, requests@[k].1),
                        (#[trigger] out@[k]).0@,
                    ) && out@[k].1@.len() == 0,
            decreases requests@.len() - i,
        {
            let agent = requests[i].1;
            let legal = game.legal_actions(&requests[i].0, agent);
            assert(all[i as int] == rows@[i as int]@);
            match read_ppo_row(&self.maths, enc, agent, a, &rows[i], legal) {
                Ok(e) => out.push((e, Vec::new())),
                Err(f) => {
                    assert(ppo_unread(
                        *enc,
                        requests@[i as int].1,
                        game.spec_action_count(),
                        all[i as int],
                        game.spec_legal_actions(requests@[i as int].0, requests@[i as int].1),
                        f,
                    ));
                    return (Err(f), after);
                },
            }
            i = i + 1;
        }
        (Ok(out), after)
    }
}

} // verus!
