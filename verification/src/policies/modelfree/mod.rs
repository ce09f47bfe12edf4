//! Policies that act directly from agent observations.



pub mod epsilon_greedy_q;
pub mod ppo;

use vstd::prelude::*;

use crate::encoder::StateEncoder;
use crate::game::Game;
use crate::num::Scalar;
#[allow(unused_imports)]
use crate::policies::tree::expectimax::backup::InteriorTarget;
use crate::policies::tree::expectimax::search::Infer;
#[allow(unused_imports)]
use crate::policies::tree::expectimax::search::{in_line, infers, laid_out, lane_rows};
use crate::policy::{RequestSink, RoundStatus, RowsView};
#[allow(unused_imports)]
use crate::policy::{spec_row, SinkModel};
use crate::util::{append, copied};
#[allow(unused_imports)]
use crate::util::matrix;

verus! {

/// The one-round search of policies that plan nothing: the observation of every perspective is
/// encoded at the start and asked for in one round, and the rows that answer are kept for the end.
pub struct OneShot<F, N> {
    pub agents: Vec<usize>,
    pub legal: Vec<Vec<usize>>,
    pub obs: Vec<Vec<F>>,
    pub emitted: bool,
    pub rows: Vec<N>,
    pub stride: usize,
}

/// A one-round search as a mathematical value.
#[verifier::ext_equal]
pub struct OneShotModel<F, N> {
    pub agents: Seq<usize>,
    pub legal: Seq<Seq<usize>>,
    pub obs: Seq<Seq<F>>,
    pub emitted: bool,
    pub rows: Seq<N>,
    pub stride: nat,
}

impl<F, N> View for OneShot<F, N> {
    type V = OneShotModel<F, N>;

    open spec fn view(&self) -> OneShotModel<F, N> {
        OneShotModel {
            agents: self.agents@,
            legal: matrix(self.legal@),
            obs: matrix(self.obs@),
            emitted: self.emitted,
            rows: self.rows@,
            stride: self.stride as nat,
        }
    }
}

impl<F, N> OneShotModel<F, N> {
    /// Every agent has its legal actions and, until it is asked for, its observation.
    pub open spec fn wf(self) -> bool {
        &&& self.legal.len() == self.agents.len()
        &&& self.emitted || self.obs.len() == self.agents.len()
    }

    /// The row that answers agent `i`, if there is one.
    pub open spec fn row(self, i: nat) -> Option<Seq<N>> {
        if (i + 1) * self.stride <= self.rows.len() {
            Some(spec_row(self.rows, self.stride, i))
        } else {
            None
        }
    }
}

/// A search of a state for some agents, as it begins.
pub open spec fn shot_begun<N: Scalar, G: Game<N>, E: StateEncoder<State = G::State>>(
    game: G,
    enc: E,
    state: G::State,
    perspectives: Seq<usize>,
) -> OneShotModel<E::Feature, N> {
    OneShotModel {
        agents: perspectives,
        legal: perspectives.map_values(|a: usize| game.spec_legal_actions(state, a)),
        obs: perspectives.map_values(|a: usize| enc.spec_encode(state, a)),
        emitted: false,
        rows: Seq::empty(),
        stride: 0,
    }
}

/// The search of a state, for some agents.
pub fn one_shot_begin<N: Scalar, G: Game<N>, E: StateEncoder<State = G::State>>(
    game: &G,
    enc: &E,
    state: &G::State,
    perspectives: &[usize],
) -> (r: OneShot<E::Feature, N>)
    ensures
        r@.wf(),
        r@ == shot_begun::<N, G, E>(*game, *enc, *state, perspectives@),
{
    let mut legal: Vec<Vec<usize>> = Vec::new();
    let mut obs: Vec<Vec<E::Feature>> = Vec::new();
    let mut i: usize = 0;
    while i < perspectives.len()
        invariant
            i <= perspectives@.len(),
            legal@.len() == i,
            obs@.len() == i,
            forall|k: int|
                0 <= k < i ==> (#[trigger] legal@[k])@ == game.spec_legal_actions(
                    *state,
                    perspectives@[k],
                ),
            forall|k: int|
                0 <= k < i ==> (#[trigger] obs@[k])@ == enc.spec_encode(*state, perspectives@[k]),
        decreases perspectives@.len() - i,
    {
        legal.push(game.legal_actions(state, perspectives[i]));
        obs.push(enc.encode(state, perspectives[i]));
        i = i + 1;
    }
    assert(matrix(legal@) =~= perspectives@.map_values(
        |a: usize| game.spec_legal_actions(*state, a),
    ));
    assert(matrix(obs@) =~= perspectives@.map_values(|a: usize| enc.spec_encode(*state, a)));
    OneShot {
        agents: copied(perspectives),
        legal,
        obs,
        emitted: false,
        rows: Vec::new(),
        stride: 0,
    }
}

/// What a round does: every observation is asked for, once; there is none to ask for where there is
/// no agent.
pub open spec fn shot_asked<F, N>(
    search: OneShotModel<F, N>,
    sink: SinkModel<F>,
    status: RoundStatus,
    next: OneShotModel<F, N>,
    asked: SinkModel<F>,
) -> bool {
    if search.emitted || search.agents.len() == 0 {
        &&& status == RoundStatus::Done
        &&& next == search
        &&& asked == sink
    } else {
        &&& status == RoundStatus::Pending
        &&& next == (OneShotModel { obs: Seq::empty(), emitted: true, ..search })
        &&& asked == (SinkModel {
            players: sink.players + search.agents,
            obs: sink.obs + laid_out(search.obs, search.obs.len()),
            ..sink
        })
    }
}

/// Asks for every observation, once; there is no observation to ask for where there is no agent.
pub fn one_shot_round<F: Copy, N>(search: &mut OneShot<F, N>, out: &mut RequestSink<F>) -> (r:
    RoundStatus)
    requires
        old(search)@.wf(),
    ensures
        final(search)@.wf(),
        shot_asked(old(search)@, old(out)@, r, final(search)@, final(out)@),
{
    if search.emitted || search.agents.len() == 0 {
        return RoundStatus::Done;
    }
    let ghost m = search@;
    let mut i: usize = 0;
    assert(m.agents.take(0) =~= Seq::empty());
    assert(out@.players =~= old(out)@.players + m.agents.take(0));
    assert(out@.obs =~= old(out)@.obs + laid_out(m.obs, 0));
    while i < search.agents.len()
        invariant
            i <= m.agents.len() == m.obs.len(),
            m == search@,
            out@ == (SinkModel {
                players: old(out)@.players + m.agents.take(i as int),
                obs: old(out)@.obs + laid_out(m.obs, i as nat),
                ..old(out)@
            }),
        decreases m.agents.len() - i,
    {
        assert(m.obs[i as int] == search.obs@[i as int]@);
        out.push(search.agents[i], &search.obs[i]);
        i = i + 1;
        assert(out@.players =~= old(out)@.players + m.agents.take(i as int));
        assert(out@.obs =~= old(out)@.obs + laid_out(m.obs, i as nat));
    }
    assert(m.agents.take(i as int) =~= m.agents);
    search.obs = Vec::new();
    search.emitted = true;
    assert(matrix(search.obs@) =~= Seq::empty());
    RoundStatus::Pending
}

/// No evaluation comes with interior targets.
pub open spec fn no_targets<E, F, N>(out: Seq<(E, Vec<InteriorTarget<F, N>>)>) -> bool {
    forall|i: int| 0 <= i < out.len() ==> (#[trigger] out[i]).1@.len() == 0
}

/// Keeps the rows that answer the round.
pub fn one_shot_absorb<F, N: Scalar>(search: &mut OneShot<F, N>, rows: RowsView<N>)
    requires
        old(search)@.wf(),
    ensures
        final(search)@.wf(),
        final(search)@ == (OneShotModel {
            rows: rows@,
            stride: rows.spec_stride(),
            ..old(search)@
        }),
{
    search.rows = copied(rows.flat());
    search.stride = rows.stride();
}

/// The row that answers agent `i`, if there is one.
pub fn one_shot_row<F, N>(search: &OneShot<F, N>, i: usize) -> (r: Option<&[N]>)
    ensures
        match r {
            Some(row) => search@.row(i as nat) == Some(row@),
            None => search@.row(i as nat) is None,
        },
{
    let stride = search.stride;
    let n = search.rows.len();
    proof {
        assert((i + 1) * stride == i * stride + stride && 0 <= i * stride) by (nonlinear_arith)
            requires
                0 <= i,
                0 <= stride,
        ;
    }
    match i.checked_mul(stride) {
        None => None,
        Some(start) => if start > n || n - start < stride {
            None
        } else {
            let row = vstd::slice::slice_subrange(&search.rows, start, start + stride);
            assert(row@ =~= spec_row(search.rows@, stride as nat, i as nat));
            Some(row)
        },
    }
}

/// The observations of requests, each of a state for the agent that asks.
pub open spec fn request_rows<N: Scalar, G: Game<N>, E: StateEncoder<State = G::State>>(
    enc: E,
    requests: Seq<(G::State, usize)>,
) -> Seq<Seq<E::Feature>> {
    requests.map_values(|r: (G::State, usize)| enc.spec_encode(r.0, r.1))
}

/// The agents that ask.
pub open spec fn request_agents<S>(requests: Seq<(S, usize)>) -> Seq<usize> {
    requests.map_values(|r: (S, usize)| r.1)
}

/// The rows of an answer, each `stride` long.
pub open spec fn answer_rows<N>(flat: Seq<N>, n: nat, stride: nat) -> Seq<Seq<N>> {
    Seq::new(n, |i: int| lane_rows(flat, i as nat, 1, stride))
}

/// `rows` is what a network answers to the requests, when it was handed in as the first of `nets`
/// and back as the second: one row for each, all equally long, out of one call. Without requests it
/// is not asked.
pub open spec fn requests_served<
    N: Scalar,
    G: Game<N>,
    E: StateEncoder<State = G::State>,
    I: Infer<E::Feature, N>,
>(enc: E, requests: Seq<(G::State, usize)>, nets: (I, I), rows: Seq<Seq<N>>) -> bool {
    if requests.len() == 0 {
        rows.len() == 0 && nets.1 == nets.0
    } else {
        exists|out: Seq<N>| #[trigger]
            infers(
                nets.0,
                request_agents(requests),
                request_rows::<N, G, E>(enc, requests),
                out,
                nets.1,
            ) && rows == answer_rows(out, requests.len(), out.len() / requests.len())
    }
}

/// Asks the network for the rows of requests.
pub fn ask_for_requests<
    N: Scalar,
    G: Game<N>,
    E: StateEncoder<State = G::State>,
    I: Infer<E::Feature, N>,
>(enc: &E, requests: &Vec<(G::State, usize)>, source: I) -> (r: (Vec<Vec<N>>, I))
    ensures
        requests_served::<N, G, E, I>(*enc, requests@, (source, r.1), matrix(r.0@)),
{
    let n = requests.len();
    let mut rows: Vec<Vec<N>> = Vec::new();
    if n == 0 {
        assert(matrix(rows@).len() == 0);
        return (rows, source);
    }
    let ghost all = request_rows::<N, G, E>(*enc, requests@);
    let mut players: Vec<usize> = Vec::new();
    let mut obs: Vec<E::Feature> = Vec::new();
    let mut i: usize = 0;
    assert(obs@ =~= laid_out(all, 0));
    while i < n
        invariant
            i <= n == requests@.len(),
            all == request_rows::<N, G, E>(*enc, requests@),
            players@.len() == i,
            forall|k: int| 0 <= k < i ==> #[trigger] players@[k] == requests@[k].1,
            obs@ == laid_out(all, i as nat),
        decreases n - i,
    {
        let row = enc.encode(&requests[i].0, requests[i].1);
        assert(all[i as int] == row@);
        append(&mut obs, &row);
        players.push(requests[i].1);
        i = i + 1;
        assert(obs@ =~= laid_out(all, i as nat));
    }
    assert(obs@ == in_line(all));
    assert(players@ =~= request_agents(requests@));
    let (after, out) = source.infer(&players, obs, n);
    let len = out.len();
    let stride = len / n;
    proof {
        assert(n * stride <= out@.len()) by (nonlinear_arith)
            requires
                stride == out@.len() as int / n as int,
                n > 0,
        ;
    }
    let ghost nets = (source, after);
    assert(infers(nets.0, request_agents(requests@), all, out@, nets.1));
    let mut j: usize = 0;
    while j < n
        invariant
            j <= n,
            n * stride <= len == out@.len(),
            rows@.len() == j,
            forall|k: int|
                0 <= k < j ==> (#[trigger] rows@[k])@ == lane_rows(out@, k as nat, 1, stride as nat),
        decreases n - j,
    {
        proof {
            assert(0 <= j * stride && (j + 1) * stride == j * stride + stride && (j + 1) * stride
                <= n * stride && 0 * stride == 0) by (nonlinear_arith)
                requires
                    0 <= j < n,
                    0 <= stride,
            ;
        }
        let start = j * stride;
        let one = vstd::slice::slice_subrange(&out, start, start + stride);
        let row = copied(one);
        assert(row@ =~= lane_rows(out@, j as nat, 1, stride as nat));
        rows.push(row);
        j = j + 1;
    }
    assert(matrix(rows@) =~= answer_rows(out@, requests@.len(), stride as nat));
    assert(stride as nat == out@.len() / requests@.len());
    (rows, after)
}

} // verus!
