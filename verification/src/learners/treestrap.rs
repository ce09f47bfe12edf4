//! TreeStrap training-record production.

use vstd::prelude::*;

use crate::encoder::{head_permutation, ActionView};
#[allow(unused_imports)]
use crate::encoder::{is_identity, spec_head_permutation};
use crate::fault::Fault;
use crate::learner::{find_head_maxima, sample_mask, Learner, Step};
#[allow(unused_imports)]
use crate::learner::{
    head_maxima, record_models, spec_sample_mask, step_models, Made, StepModel,
};
use crate::learners::frame::to_head_frame;
#[allow(unused_imports)]
use crate::learners::frame::values_in_head_frame;
use crate::num::Scalar;
use crate::policies::tree::evaluation::SearchEvaluation;
#[allow(unused_imports)]
use crate::policies::tree::evaluation::EvaluationModel;
use crate::policies::tree::expectimax::backup::InteriorTarget;
#[allow(unused_imports)]
use crate::policies::tree::expectimax::backup::targets;
use crate::rng::SplitMix64;
use crate::util::{copied, copied_rows, filled, reversed};
#[allow(unused_imports)]
use crate::util::{matrix, spec_filled, viewed};

verus! {

/// An observation, action targets per head, a bootstrap mask and a player.
pub type TreeStrapRecord<F, N> = (Vec<F>, Vec<Vec<N>>, Vec<N>, usize);

/// A record as a mathematical value.
pub type StrapShown<F, N> = (Seq<F>, Seq<Seq<N>>, Seq<N>, usize);

/// Regresses every head's action values toward searched ones.
pub struct TreeStrap<N> {
    pub gamma: N,
    pub outcome_weight: N,
    pub bootstrap_p: N,
    pub interior_targets: bool,
}

/// The learner by its longer name.
pub type TreeStrapLearner<N> = TreeStrap<N>;

/// A decision's values, its executed action and its reward.
pub type Played<N> = (Vec<Vec<N>>, usize, N);

/// A decision as a mathematical value.
pub type PlayedShown<N> = (Seq<Seq<N>>, usize, N);

/// Decisions as mathematical values.
pub open spec fn played<N>(trajectory: Seq<Played<N>>) -> Seq<PlayedShown<N>> {
    trajectory.map_values(|p: Played<N>| (matrix(p.0@), p.1, p.2))
}

/// Discounted returns by head from the `t`-th decision on, the tail beyond the last.
pub open spec fn returns_from<N: Scalar>(
    trajectory: Seq<PlayedShown<N>>,
    gamma: N,
    tail: Seq<N>,
    t: nat,
) -> Seq<N>
    decreases trajectory.len() - t,
{
    if t >= trajectory.len() {
        tail
    } else {
        returns_from(trajectory, gamma, tail, t + 1).map_values(
            |z: N| trajectory[t as int].2.spec_plus(gamma.spec_times(z)),
        )
    }
}

/// A searched value with so much of the outcome in it.
pub open spec fn spec_blend<N: Scalar>(weight: N, value: N, outcome: N) -> N {
    N::spec_one().spec_minus(weight).spec_times(value).spec_plus(weight.spec_times(outcome))
}

/// `rows` with the outcome blended into the executed action of each head from the `h`-th on.
pub open spec fn mixed_from<N: Scalar>(
    rows: Seq<Seq<N>>,
    action: usize,
    weight: N,
    z: Seq<N>,
    h: nat,
) -> Result<Seq<Seq<N>>, Fault>
    decreases rows.len() - h,
{
    if h >= rows.len() {
        Ok(rows)
    } else if action >= rows[h as int].len() {
        Err(Fault::ActionRange)
    } else if h >= z.len() {
        Err(Fault::HeadCount)
    } else {
        let row = rows[h as int];
        let entry = spec_blend(weight, row[action as int], z[h as int]);
        mixed_from(rows.update(h as int, row.update(action as int, entry)), action, weight, z, h + 1)
    }
}

/// The targets of one decision.
pub open spec fn mixed<N: Scalar>(rows: Seq<Seq<N>>, action: usize, weight: N, z: Seq<N>) -> Result<
    Seq<Seq<N>>,
    Fault,
> {
    if N::spec_zero().spec_less(weight) {
        mixed_from(rows, action, weight, z, 0)
    } else {
        Ok(rows)
    }
}

/// The targets of the decisions from the `t`-th on. Of several faults the last decision's counts.
pub open spec fn blended_from<N: Scalar>(
    trajectory: Seq<PlayedShown<N>>,
    gamma: N,
    weight: N,
    tail: Seq<N>,
    t: nat,
) -> Result<Seq<Seq<Seq<N>>>, Fault>
    decreases trajectory.len() - t,
{
    if t >= trajectory.len() {
        Ok(Seq::empty())
    } else {
        match blended_from(trajectory, gamma, weight, tail, t + 1) {
            Err(f) => Err(f),
            Ok(rest) => {
                let (rows, action, _) = trajectory[t as int];
                match mixed(rows, action, weight, returns_from(trajectory, gamma, tail, t)) {
                    Err(f) => Err(f),
                    Ok(row) => Ok(seq![row] + rest),
                }
            },
        }
    }
}

/// The targets of every decision.
pub open spec fn blended<N: Scalar>(
    trajectory: Seq<PlayedShown<N>>,
    gamma: N,
    weight: N,
    tail: Seq<N>,
) -> Result<Seq<Seq<Seq<N>>>, Fault> {
    blended_from(trajectory, gamma, weight, tail, 0)
}

/// Targets as mathematical values.
pub open spec fn cubes<N>(xs: Seq<Vec<Vec<N>>>) -> Seq<Seq<Seq<N>>> {
    xs.map_values(|m: Vec<Vec<N>>| matrix(m@))
}

/// `rows` and `out` agree but at `action`, where `out` has the blend.
pub open spec fn mixes_only<N: Scalar>(
    rows: Seq<Seq<N>>,
    out: Seq<Seq<N>>,
    action: usize,
    weight: N,
    z: Seq<N>,
) -> bool {
    &&& out.len() == rows.len()
    &&& forall|h: int|
        0 <= h < rows.len() ==> (#[trigger] out[h]) == rows[h].update(
            action as int,
            spec_blend(weight, rows[h][action as int], z[h]),
        )
}

/// A positive outcome weight mixes each decision's discounted return into the value of its executed
/// action, in every head, and changes nothing else; where it is not positive nothing changes. Every
/// decision has its targets, wherever its action is one of the values' and the tail has a value for
/// each head.
pub proof fn law_blend<N: Scalar>(
    trajectory: Seq<PlayedShown<N>>,
    gamma: N,
    weight: N,
    tail: Seq<N>,
)
    requires
        forall|t: int, h: int|
            0 <= t < trajectory.len() && 0 <= h < trajectory[t].0.len() ==> trajectory[t].1
                < #[trigger] trajectory[t].0[h].len() && h < tail.len(),
    ensures
        blended(trajectory, gamma, weight, tail) matches Ok(out) && out.len() == trajectory.len()
            && forall|t: int|
            0 <= t < trajectory.len() ==> if N::spec_zero().spec_less(weight) {
                mixes_only(
                    trajectory[t].0,
                    #[trigger] out[t],
                    trajectory[t].1,
                    weight,
                    returns_from(trajectory, gamma, tail, t as nat),
                )
            } else {
                out[t] == trajectory[t].0
            },
{
    lemma_blended(trajectory, gamma, weight, tail, 0);
    let out = blended(trajectory, gamma, weight, tail)->Ok_0;
    assert forall|t: int| 0 <= t < trajectory.len() implies if N::spec_zero().spec_less(weight) {
        mixes_only(
            trajectory[t].0,
            #[trigger] out[t],
            trajectory[t].1,
            weight,
            returns_from(trajectory, gamma, tail, t as nat),
        )
    } else {
        out[t] == trajectory[t].0
    } by {
        assert(out[t] == out[t - 0]);
    }
}

proof fn lemma_returns_len<N: Scalar>(
    trajectory: Seq<PlayedShown<N>>,
    gamma: N,
    tail: Seq<N>,
    t: nat,
)
    ensures
        returns_from(trajectory, gamma, tail, t).len() == tail.len(),
    decreases trajectory.len() - t,
{
    if t < trajectory.len() {
        lemma_returns_len(trajectory, gamma, tail, t + 1);
    }
}

proof fn lemma_mixed<N: Scalar>(
    rows: Seq<Seq<N>>,
    now: Seq<Seq<N>>,
    action: usize,
    weight: N,
    z: Seq<N>,
    h: nat,
)
    requires
        forall|i: int| 0 <= i < rows.len() ==> action < #[trigger] rows[i].len() && i < z.len(),
        now.len() == rows.len(),
        h <= rows.len(),
        forall|i: int|
            0 <= i < h ==> (#[trigger] now[i]) == rows[i].update(
                action as int,
                spec_blend(weight, rows[i][action as int], z[i]),
            ),
        forall|i: int| h <= i < rows.len() ==> (#[trigger] now[i]) == rows[i],
    ensures
        mixed_from(now, action, weight, z, h) matches Ok(out) && mixes_only(
            rows,
            out,
            action,
            weight,
            z,
        ),
    decreases rows.len() - h,
{
    if h < rows.len() {
        let row = now[h as int];
        assert(row == rows[h as int]);
        assert(action < rows[h as int].len() && h < z.len());
        let entry = spec_blend(weight, row[action as int], z[h as int]);
        let next = now.update(h as int, row.update(action as int, entry));
        lemma_mixed(rows, next, action, weight, z, h + 1);
    }
}

proof fn lemma_blended<N: Scalar>(
    trajectory: Seq<PlayedShown<N>>,
    gamma: N,
    weight: N,
    tail: Seq<N>,
    t: nat,
)
    requires
        t <= trajectory.len(),
        forall|t: int, h: int|
            0 <= t < trajectory.len() && 0 <= h < trajectory[t].0.len() ==> trajectory[t].1
                < #[trigger] trajectory[t].0[h].len() && h < tail.len(),
    ensures
        blended_from(trajectory, gamma, weight, tail, t) matches Ok(out) && out.len()
            == trajectory.len() - t && forall|i: int|
            t <= i < trajectory.len() ==> if N::spec_zero().spec_less(weight) {
                mixes_only(
                    trajectory[i].0,
                    #[trigger] out[i - t],
                    trajectory[i].1,
                    weight,
                    returns_from(trajectory, gamma, tail, i as nat),
                )
            } else {
                out[i - t] == trajectory[i].0
            },
    decreases trajectory.len() - t,
{
    if t < trajectory.len() {
        lemma_blended(trajectory, gamma, weight, tail, t + 1);
        let z = returns_from(trajectory, gamma, tail, t);
        let (rows, action, _) = trajectory[t as int];
        lemma_returns_len(trajectory, gamma, tail, t);
        assert forall|i: int| 0 <= i < rows.len() implies action < #[trigger] rows[i].len() && i
            < z.len() by {
            assert(trajectory[t as int].1 < trajectory[t as int].0[i].len());
        }
        if N::spec_zero().spec_less(weight) {
            lemma_mixed(rows, rows, action, weight, z, 0);
        }
        let rest = blended_from(trajectory, gamma, weight, tail, t + 1)->Ok_0;
        let row = mixed(rows, action, weight, z)->Ok_0;
        let out = seq![row] + rest;
        assert(blended_from(trajectory, gamma, weight, tail, t) == Ok::<_, Fault>(out));
        assert forall|i: int| t <= i < trajectory.len() implies if N::spec_zero().spec_less(weight) {
            mixes_only(
                trajectory[i].0,
                #[trigger] out[i - t],
                trajectory[i].1,
                weight,
                returns_from(trajectory, gamma, tail, i as nat),
            )
        } else {
            out[i - t] == trajectory[i].0
        } by {
            if i > t {
                assert(out[i - t] == rest[i - (t + 1)]);
            }
        }
    }
}

/// Records of observations and values, from the `i`-th on, and the generator then.
pub open spec fn strapped<F, N: Scalar>(
    items: Seq<(Seq<F>, Seq<Seq<N>>)>,
    heads: nat,
    p: N,
    perm: Seq<usize>,
    agent: usize,
    i: nat,
    acc: Seq<StrapShown<F, N>>,
    rng: SplitMix64,
) -> Made<StrapShown<F, N>>
    decreases items.len() - i,
{
    if i >= items.len() {
        (Ok(acc), rng)
    } else {
        let (mask, next) = spec_sample_mask(rng, heads, p);
        let (obs, values) = items[i as int];
        match values_in_head_frame(values, perm) {
            Err(f) => (Err(f), next),
            Ok(v) => strapped(
                items,
                heads,
                p,
                perm,
                agent,
                i + 1,
                acc.push((obs, v, mask, agent)),
                next,
            ),
        }
    }
}

/// A record by its views.
pub open spec fn strap_shown<F, N>(r: TreeStrapRecord<F, N>) -> StrapShown<F, N> {
    (r.0@, matrix(r.1@), r.2@, r.3)
}

/// Makes records of observations and values.
#[verifier::loop_isolation(false)]
pub fn strap_all<F: Copy, N: Scalar>(
    items: &Vec<InteriorTarget<F, N>>,
    heads: usize,
    p: N,
    perm: &[usize],
    identity: bool,
    agent: usize,
    rng: &mut SplitMix64,
) -> (r: Result<Vec<TreeStrapRecord<F, N>>, Fault>)
    requires
        identity == is_identity(perm@),
    ensures
        match r {
            Ok(out) => strapped(
                targets(items@),
                heads as nat,
                p,
                perm@,
                agent,
                0,
                Seq::empty(),
                *old(rng),
            ) == (
                Ok::<_, Fault>(record_models(out@, |x: TreeStrapRecord<F, N>| strap_shown(x))),
                *final(rng),
            ),
            Err(f) => strapped(
                targets(items@),
                heads as nat,
                p,
                perm@,
                agent,
                0,
                Seq::empty(),
                *old(rng),
            ).0 == Err::<Seq<StrapShown<F, N>>, _>(f),
        },
{
    let ghost shown = |x: TreeStrapRecord<F, N>| strap_shown(x);
    let ghost goal = strapped(
        targets(items@),
        heads as nat,
        p,
        perm@,
        agent,
        0,
        Seq::empty(),
        *old(rng),
    );
    let mut out: Vec<TreeStrapRecord<F, N>> = Vec::new();
    assert(record_models(out@, shown) =~= Seq::empty());
    let mut i: usize = 0;
    while i < items.len()
        invariant
            i <= items@.len(),
            strapped(
                targets(items@),
                heads as nat,
                p,
                perm@,
                agent,
                i as nat,
                record_models(out@, shown),
                *rng,
            ) == goal,
        decreases items@.len() - i,
    {
        let ghost before = record_models(out@, shown);
        assert(targets(items@)[i as int] == (items@[i as int].0@, matrix(items@[i as int].1@)));
        let mask = sample_mask(rng, heads, p);
        match to_head_frame(&items[i].1, perm, identity) {
            Ok(v) => {
                let record = (copied(&items[i].0), v, mask, agent);
                let ghost was = out@;
                proof {
                    assert(strap_shown(record) == (
                        items@[i as int].0@,
                        matrix(v@),
                        mask@,
                        agent,
                    ));
                    assert(record_models(was.push(record), shown) =~= before.push(
                        strap_shown(record),
                    ));
                }
                out.push(record);
            },
            Err(f) => return Err(f),
        }
        i = i + 1;
    }
    Ok(out)
}

/// What the decisions of a trajectory were.
pub open spec fn moves_of<F, N>(trajectory: Seq<StepModel<F, N, EvaluationModel<N>>>) -> Seq<
    PlayedShown<N>,
> {
    trajectory.map_values(
        |s: StepModel<F, N, EvaluationModel<N>>| (s.evaluation.values, s.action, s.reward),
    )
}

/// Observations beside targets.
pub open spec fn beside<F, N>(
    trajectory: Seq<StepModel<F, N, EvaluationModel<N>>>,
    values: Seq<Seq<Seq<N>>>,
) -> Seq<(Seq<F>, Seq<Seq<N>>)> {
    Seq::new(trajectory.len(), |i: int| (trajectory[i].obs, values[i]))
}

/// The tail, or zeros where there is none.
pub open spec fn tail_or_zeros<N: Scalar>(tail: Seq<N>, k: nat) -> Seq<N> {
    if tail.len() == 0 {
        spec_filled(N::spec_zero(), k)
    } else {
        tail
    }
}

proof fn lemma_blended_len<N: Scalar>(
    trajectory: Seq<PlayedShown<N>>,
    gamma: N,
    weight: N,
    tail: Seq<N>,
    t: nat,
)
    requires
        t <= trajectory.len(),
    ensures
        blended_from(trajectory, gamma, weight, tail, t) matches Ok(out) ==> out.len()
            == trajectory.len() - t,
    decreases trajectory.len() - t,
{
    if t < trajectory.len() {
        lemma_blended_len(trajectory, gamma, weight, tail, t + 1);
    }
}

/// Blends the outcome into a decision's targets.
#[verifier::loop_isolation(false)]
fn mix<N: Scalar>(rows: &Vec<Vec<N>>, action: usize, weight: N, z: &Vec<N>) -> (r: Result<
    Vec<Vec<N>>,
    Fault,
>)
    ensures
        match r {
            Ok(out) => mixed(matrix(rows@), action, weight, z@) == Ok::<_, Fault>(matrix(out@)),
            Err(f) => mixed(matrix(rows@), action, weight, z@) == Err::<Seq<Seq<N>>, _>(f),
        },
{
    let mut out = copied_rows(rows);
    if !N::zero().less(weight) {
        return Ok(out);
    }
    let ghost goal = mixed(matrix(rows@), action, weight, z@);
    let n = rows.len();
    assert(matrix(out@).len() == matrix(rows@).len());
    let mut h: usize = 0;
    while h < n
        invariant
            h <= n == out@.len(),
            mixed_from(matrix(out@), action, weight, z@, h as nat) == goal,
        decreases n - h,
    {
        let ghost before = matrix(out@);
        assert(before[h as int] == out@[h as int]@);
        if action >= out[h].len() {
            return Err(Fault::ActionRange);
        }
        if h >= z.len() {
            return Err(Fault::HeadCount);
        }
        let mut row = copied(&out[h]);
        let entry = N::one().minus(weight).times(row[action]).plus(weight.times(z[h]));
        row.set(action, entry);
        let ghost shown = row@;
        out.set(h, row);
        assert(matrix(out@) =~= before.update(h as int, shown));
        h = h + 1;
    }
    Ok(out)
}

impl<N: Scalar> TreeStrap<N> {
    pub fn new(gamma: N, outcome_weight: N, bootstrap_p: N, interior_targets: bool) -> (r: Self)
        ensures
            r == (TreeStrap { gamma, outcome_weight, bootstrap_p, interior_targets }),
    {
        TreeStrap { gamma, outcome_weight, bootstrap_p, interior_targets }
    }

    /// Blends discounted returns into each head's executed-action target.
    #[verifier::loop_isolation(false)]
    pub fn blend_outcome_targets(
        trajectory: &[Played<N>],
        gamma: N,
        outcome_weight: N,
        tail: &[N],
    ) -> (r: Result<Vec<Vec<Vec<N>>>, Fault>)
        ensures
            match r {
                Ok(out) => blended(played(trajectory@), gamma, outcome_weight, tail@) == Ok::<
                    _,
                    Fault,
                >(cubes(out@)),
                Err(f) => blended(played(trajectory@), gamma, outcome_weight, tail@) == Err::<
                    Seq<Seq<Seq<N>>>,
                    _,
                >(f),
            },
    {
        let ghost moves = played(trajectory@);
        let n = trajectory.len();
        let mut z = copied(tail);
        let mut out: Vec<Vec<Vec<N>>> = Vec::new();
        let mut t = n;
        assert(cubes(out@).reverse() =~= Seq::empty());
        while t > 0
            invariant
                t <= n,
                z@ == returns_from(moves, gamma, tail@, t as nat),
                blended_from(moves, gamma, outcome_weight, tail@, t as nat) == Ok::<_, Fault>(
                    cubes(out@).reverse(),
                ),
            decreases t,
        {
            t = t - 1;
            let ghost later = z@;
            let reward = trajectory[t].2;
            let mut h: usize = 0;
            while h < z.len()
                invariant
                    h <= z@.len() == later.len(),
                    forall|i: int|
                        0 <= i < h ==> #[trigger] z@[i] == reward.spec_plus(
                            gamma.spec_times(later[i]),
                        ),
                    forall|i: int| h <= i < z@.len() ==> #[trigger] z@[i] == later[i],
                decreases z@.len() - h,
            {
                let x = reward.plus(gamma.times(z[h]));
                z.set(h, x);
                h = h + 1;
            }
            assert(moves[t as int] == (
                matrix(trajectory@[t as int].0@),
                trajectory@[t as int].1,
                trajectory@[t as int].2,
            ));
            assert(z@ =~= returns_from(moves, gamma, tail@, t as nat));
            match mix(&trajectory[t].0, trajectory[t].1, outcome_weight, &z) {
                Err(f) => {
                    proof {
                        lemma_fault_stays(moves, gamma, outcome_weight, tail@, t as nat, f);
                    }
                    return Err(f);
                },
                Ok(row) => {
                    let ghost before = cubes(out@);
                    let ghost shown = matrix(row@);
                    out.push(row);
                    assert(cubes(out@).reverse() =~= seq![shown] + before.reverse());
                },
            }
        }
        let out = reversed(out);
        assert(cubes(out@) =~= blended(moves, gamma, outcome_weight, tail@)->Ok_0);
        Ok(out)
    }
}

proof fn lemma_fault_stays<N: Scalar>(
    trajectory: Seq<PlayedShown<N>>,
    gamma: N,
    weight: N,
    tail: Seq<N>,
    t: nat,
    f: Fault,
)
    requires
        t <= trajectory.len(),
        blended_from(trajectory, gamma, weight, tail, t) == Err::<Seq<Seq<Seq<N>>>, _>(f),
    ensures
        blended(trajectory, gamma, weight, tail) == Err::<Seq<Seq<Seq<N>>>, _>(f),
    decreases t,
{
    if t > 0 {
        lemma_fault_stays(trajectory, gamma, weight, tail, (t - 1) as nat, f);
    }
}

/// How many actions a value row has for the first head.
pub open spec fn first_width<N>(values: Seq<Seq<N>>) -> Result<nat, Fault> {
    if values.len() == 0 {
        Err(Fault::NoValues)
    } else {
        Ok(values[0].len())
    }
}

impl<N: Scalar, F: Copy, V: ActionView> Learner<N, F, SearchEvaluation<N>, V> for TreeStrap<N> {
    type Record = TreeStrapRecord<F, N>;

    type Shown = StrapShown<F, N>;

    open spec fn shown(record: TreeStrapRecord<F, N>) -> StrapShown<F, N> {
        strap_shown(record)
    }

    open spec fn spec_uses_episode_tail(&self) -> bool {
        N::spec_zero().spec_less(self.outcome_weight)
    }

    fn uses_episode_tail(&self) -> (r: bool) {
        N::zero().less(self.outcome_weight)
    }

    open spec fn spec_needs_next_obs(&self) -> bool {
        false
    }

    fn needs_next_obs(&self) -> (r: bool) {
        false
    }

    open spec fn spec_needs_interior(&self) -> bool {
        self.interior_targets
    }

    fn needs_interior(&self) -> (r: bool) {
        self.interior_targets
    }

    open spec fn spec_tails_all_trajectories(&self) -> bool {
        false
    }

    fn tails_all_trajectories(&self) -> (r: bool) {
        false
    }

    open spec fn spec_bootstraps_fragments(&self) -> bool {
        false
    }

    fn bootstraps_fragments(&self) -> (r: bool) {
        false
    }

    open spec fn spec_tail_from_row(
        &self,
        row: Seq<N>,
        action_count: usize,
        legal: Seq<usize>,
        view: V,
        agent: usize,
    ) -> Result<Seq<N>, Fault> {
        head_maxima(row, action_count, legal, view, agent)
    }

    fn tail_from_row(
        &self,
        row: &[N],
        action_count: usize,
        legal: &[usize],
        view: &V,
        agent: usize,
    ) -> (r: Result<Vec<N>, Fault>) {
        find_head_maxima(row, action_count, legal, view, agent)
    }

    open spec fn spec_value_only_evaluation(&self, action_count: usize) -> Option<
        EvaluationModel<N>,
    > {
        None
    }

    fn value_only_evaluation(&self, action_count: usize) -> (r: Option<SearchEvaluation<N>>) {
        None
    }

    /// A masked record for each interior target, in the network's frame.
    open spec fn spec_eval_records(
        &self,
        evaluation: EvaluationModel<N>,
        interior: Seq<(Seq<F>, Seq<Seq<N>>)>,
        view: V,
        agent: usize,
        rng: SplitMix64,
    ) -> Made<StrapShown<F, N>> {
        if interior.len() == 0 {
            (Ok(Seq::empty()), rng)
        } else {
            match first_width(interior[0].1) {
                Err(f) => (Err(f), rng),
                Ok(a) => strapped(
                    interior,
                    evaluation.values.len(),
                    self.bootstrap_p,
                    spec_head_permutation(view, a as usize, agent),
                    agent,
                    0,
                    Seq::empty(),
                    rng,
                ),
            }
        }
    }

    fn eval_records(
        &self,
        evaluation: &SearchEvaluation<N>,
        interior: Vec<InteriorTarget<F, N>>,
        view: &V,
        agent: usize,
        rng: &mut SplitMix64,
    ) -> (r: Result<Vec<TreeStrapRecord<F, N>>, Fault>) {
        if interior.len() == 0 {
            let out: Vec<TreeStrapRecord<F, N>> = Vec::new();
            assert(record_models(
                out@,
                |x: TreeStrapRecord<F, N>| <Self as Learner<N, F, SearchEvaluation<N>, V>>::shown(x),
            ) =~= Seq::empty());
            return Ok(out);
        }
        assert(targets(interior@)[0].1 == matrix(interior@[0].1@));
        if interior[0].1.len() == 0 {
            return Err(Fault::NoValues);
        }
        assert(matrix(interior@[0].1@)[0] == interior@[0].1@[0]@);
        let a = interior[0].1[0].len();
        let (perm, identity) = head_permutation(view, a, agent);
        let r = strap_all(
            &interior,
            evaluation.values.len(),
            self.bootstrap_p,
            &perm,
            identity,
            agent,
            rng,
        );
        proof {
            assert(matrix(evaluation.values@).len() == evaluation.values@.len());
            if r is Ok {
                let out = r->Ok_0;
                assert(record_models(out@, |x: TreeStrapRecord<F, N>| strap_shown(x))
                    =~= record_models(
                    out@,
                    |x: TreeStrapRecord<F, N>|
                        <Self as Learner<N, F, SearchEvaluation<N>, V>>::shown(x),
                ));
            }
        }
        r
    }

    /// A masked record for each decision: its searched values with the outcome blended in, in the
    /// network's frame.
    open spec fn spec_episode_records(
        &self,
        trajectory: Seq<StepModel<F, N, EvaluationModel<N>>>,
        tail: Seq<N>,
        view: V,
        agent: usize,
        rng: SplitMix64,
    ) -> Made<StrapShown<F, N>> {
        if trajectory.len() == 0 {
            (Ok(Seq::empty()), rng)
        } else {
            let k = trajectory[0].evaluation.values.len();
            match first_width(trajectory[0].evaluation.values) {
                Err(f) => (Err(f), rng),
                Ok(a) => match blended(
                    moves_of(trajectory),
                    self.gamma,
                    self.outcome_weight,
                    tail_or_zeros(tail, k),
                ) {
                    Err(f) => (Err(f), rng),
                    Ok(values) => strapped(
                        beside(trajectory, values),
                        k,
                        self.bootstrap_p,
                        spec_head_permutation(view, a as usize, agent),
                        agent,
                        0,
                        Seq::empty(),
                        rng,
                    ),
                },
            }
        }
    }

    #[verifier::loop_isolation(false)]
    fn episode_records(
        &self,
        trajectory: &Vec<Step<F, N, SearchEvaluation<N>>>,
        tail: &[N],
        view: &V,
        agent: usize,
        rng: &mut SplitMix64,
    ) -> (r: Result<Vec<TreeStrapRecord<F, N>>, Fault>) {
        let ghost steps = step_models(trajectory@);
        let n = trajectory.len();
        if n == 0 {
            let out: Vec<TreeStrapRecord<F, N>> = Vec::new();
            assert(record_models(
                out@,
                |x: TreeStrapRecord<F, N>| <Self as Learner<N, F, SearchEvaluation<N>, V>>::shown(x),
            ) =~= Seq::empty());
            return Ok(out);
        }
        assert(steps[0] == trajectory@[0]@);
        let k = trajectory[0].evaluation.values.len();
        if k == 0 {
            return Err(Fault::NoValues);
        }
        let zeros = filled(N::zero(), k);
        let tail: &[N] = if tail.len() == 0 {
            &zeros
        } else {
            tail
        };
        let mut moves: Vec<Played<N>> = Vec::new();
        let mut i: usize = 0;
        while i < n
            invariant
                i <= n,
                played(moves@) =~= moves_of(steps).take(i as int),
            decreases n - i,
        {
            let ghost was = moves@;
            let step = &trajectory[i];
            let m = (copied_rows(&step.evaluation.values), step.action, step.reward);
            assert(moves_of(steps)[i as int] == (matrix(m.0@), m.1, m.2));
            moves.push(m);
            assert(played(moves@) =~= played(was).push((matrix(m.0@), m.1, m.2)));
            i = i + 1;
        }
        assert(moves_of(steps).take(n as int) =~= moves_of(steps));
        assert(steps[0].evaluation.values[0] == trajectory@[0].evaluation.values@[0]@);
        let a = trajectory[0].evaluation.values[0].len();
        let (perm, identity) = head_permutation(view, a, agent);
        let values = match TreeStrap::blend_outcome_targets(
            &moves,
            self.gamma,
            self.outcome_weight,
            tail,
        ) {
            Ok(v) => v,
            Err(f) => return Err(f),
        };
        proof {
            lemma_blended_len(moves_of(steps), self.gamma, self.outcome_weight, tail@, 0);
        }
        let ghost cube = cubes(values@);
        let mut items: Vec<InteriorTarget<F, N>> = Vec::new();
        let mut i: usize = 0;
        for v in it: values
            invariant
                it.seq() == values@,
                i == it.index(),
                i <= n == values@.len(),
                targets(items@) =~= beside(steps, cube).take(i as int),
        {
            let ghost was = items@;
            let item = (copied(&trajectory[i].obs), v);
            assert(cube[i as int] == matrix(v@));
            assert(beside(steps, cube)[i as int] == (item.0@, matrix(item.1@)));
            items.push(item);
            assert(targets(items@) =~= targets(was).push((item.0@, matrix(item.1@))));
            i = i + 1;
        }
        assert(beside(steps, cube).take(n as int) =~= beside(steps, cube));
        let r = strap_all(&items, k, self.bootstrap_p, &perm, identity, agent, rng);
        proof {
            if r is Ok {
                let out = r->Ok_0;
                assert(record_models(out@, |x: TreeStrapRecord<F, N>| strap_shown(x))
                    =~= record_models(
                    out@,
                    |x: TreeStrapRecord<F, N>|
                        <Self as Learner<N, F, SearchEvaluation<N>, V>>::shown(x),
                ));
            }
        }
        r
    }
}

} // verus!
