//! Pieces shared by the acting policies: evaluation requests and rows, chance modes, counters.

use vstd::prelude::*;

use crate::codec::bytes::{DecodeFault, Reader};
#[allow(unused_imports)]
use crate::codec::bytes::{reads_view, Read};
use crate::encoder::StateEncoder;
use crate::fault::Fault;
use crate::game::Rng;
use crate::num::Scalar;
#[allow(unused_imports)]
use crate::num::weakly_ordered;
use crate::rng::SplitMix64;
use crate::stats::CollectStats;
#[allow(unused_imports)]
use crate::stats::StatsModel;
use crate::util::append;
#[allow(unused_imports)]
use crate::util::matrix;

verus! {

/// Maximum simultaneous joint-action fan.
pub const MAX_JOINT_SLOTS: usize = 1_048_576;

/// Maximum chance fan materialized by exhaustive search modes.
pub const MAX_ENUMERATED_OUTCOMES: usize = 1_048_576;

/// Whether a search needs more inference rounds.
#[derive(Clone, Copy, PartialEq, Eq, Debug, Structural)]
pub enum RoundStatus {
    Pending,
    Done,
}

/// How tree search consumes declared chance distributions.
#[derive(Clone, Copy, Debug, PartialEq, Eq, Structural)]
pub enum ChanceMode {
    /// Draw a fresh outcome on every traversal. Unlike one committed sample, repeated draws
    /// converge to the chance distribution.
    AlwaysResample,
    /// Draw and freeze `samples` outcomes at edge expansion.
    Committed { samples: usize },
    /// Materialize every outcome at edge expansion.
    ExpandAll,
}

impl Default for ChanceMode {
    fn default() -> (r: Self)
        ensures
            r == ChanceMode::AlwaysResample,
    {
        ChanceMode::AlwaysResample
    }
}

impl ChanceMode {
    /// Whether the mode redraws on every traversal rather than only at expansion.
    pub fn requires_repeated_traversal(&self) -> (r: bool)
        ensures
            r == (*self == ChanceMode::AlwaysResample),
    {
        matches!(self, ChanceMode::AlwaysResample)
    }
}

/// One round's evaluation requests: a player and an observation row each, in emission order.
/// Root rows are retained for training records in capture mode.
pub struct RequestSink<F> {
    players: Vec<usize>,
    obs: Vec<F>,
    roots: Vec<(usize, Vec<F>)>,
    capture_roots: bool,
}

/// A request sink as a mathematical value: the requests, the retained rows, and whether rows are
/// retained at all.
#[verifier::ext_equal]
pub struct SinkModel<F> {
    pub players: Seq<usize>,
    pub obs: Seq<F>,
    pub roots: Seq<(usize, Seq<F>)>,
    pub capture_roots: bool,
}

/// Root rows as mathematical values.
pub open spec fn root_rows<F>(roots: Seq<(usize, Vec<F>)>) -> Seq<(usize, Seq<F>)> {
    roots.map_values(|r: (usize, Vec<F>)| (r.0, r.1@))
}

impl<F> View for RequestSink<F> {
    type V = SinkModel<F>;

    closed spec fn view(&self) -> SinkModel<F> {
        SinkModel {
            players: self.players@,
            obs: self.obs@,
            roots: root_rows(self.roots@),
            capture_roots: self.capture_roots,
        }
    }
}

impl<F: Copy> RequestSink<F> {
    /// An empty sink.
    pub fn new(capture_roots: bool) -> (r: Self)
        ensures
            r@ == (SinkModel {
                players: Seq::empty(),
                obs: Seq::<F>::empty(),
                roots: Seq::<(usize, Seq<F>)>::empty(),
                capture_roots,
            }),
    {
        let r = RequestSink {
            players: Vec::new(),
            obs: Vec::new(),
            roots: Vec::new(),
            capture_roots,
        };
        assert(root_rows(r.roots@) =~= Seq::empty());
        r
    }

    pub fn push(&mut self, player: usize, obs: &[F])
        ensures
            final(self)@ == (SinkModel {
                players: old(self)@.players.push(player),
                obs: old(self)@.obs + obs@,
                ..old(self)@
            }),
    {
        self.players.push(player);
        append(&mut self.obs, obs);
    }

    /// Pushes a request whose row is the current-state observation for `perspective`, retained
    /// in capture mode so that training records need not encode it again.
    pub fn push_root(&mut self, player: usize, obs: Vec<F>, perspective: usize)
        ensures
            final(self)@ == (SinkModel {
                players: old(self)@.players.push(player),
                obs: old(self)@.obs + obs@,
                roots: if old(self)@.capture_roots {
                    old(self)@.roots.push((perspective, obs@))
                } else {
                    old(self)@.roots
                },
                ..old(self)@
            }),
    {
        self.players.push(player);
        append(&mut self.obs, &obs);
        if self.capture_roots {
            let ghost row = obs@;
            self.roots.push((perspective, obs));
            assert(root_rows(self.roots@) =~= root_rows(old(self).roots@).push((perspective, row)));
        }
    }

    /// Pushes the observation of `state` for `player`.
    pub fn push_state<E: StateEncoder<Feature = F>>(
        &mut self,
        enc: &E,
        player: usize,
        state: &E::State,
    )
        ensures
            final(self)@ == (SinkModel {
                players: old(self)@.players.push(player),
                obs: old(self)@.obs + enc.spec_encode(*state, player),
                ..old(self)@
            }),
    {
        let row = enc.encode(state, player);
        self.players.push(player);
        append(&mut self.obs, &row);
    }

    pub fn len(&self) -> (r: usize)
        ensures
            r == self@.players.len(),
    {
        self.players.len()
    }

    pub fn is_empty(&self) -> (r: bool)
        ensures
            r == (self@.players.len() == 0),
    {
        self.players.len() == 0
    }

    /// The requests, players and rows apart.
    pub fn into_parts(self) -> (r: (Vec<usize>, Vec<F>))
        ensures
            r.0@ == self@.players,
            r.1@ == self@.obs,
    {
        (self.players, self.obs)
    }

    /// The retained root rows.
    pub fn into_roots(self) -> (r: Vec<(usize, Vec<F>)>)
        ensures
            root_rows(r@) == self@.roots,
    {
        self.roots
    }
}

/// Row `i` of row-major data.
pub open spec fn spec_row<N>(data: Seq<N>, stride: nat, i: nat) -> Seq<N> {
    data.subrange((i * stride) as int, ((i + 1) * stride) as int)
}

/// The complete rows answering one search round, in emission order: row-major, every row of
/// `stride` numbers.
pub struct RowsView<'a, N> {
    data: &'a [N],
    stride: usize,
}

impl<'a, N> View for RowsView<'a, N> {
    type V = Seq<N>;

    closed spec fn view(&self) -> Seq<N> {
        self.data@
    }
}

impl<'a, N: Scalar> RowsView<'a, N> {
    pub closed spec fn spec_stride(&self) -> nat {
        self.stride as nat
    }

    pub fn row(&self, i: usize) -> (r: &'a [N])
        requires
            (i + 1) * self.spec_stride() <= self@.len(),
        ensures
            r@ == spec_row(self@, self.spec_stride(), i as nat),
    {
        let len = self.data.len();
        proof {
            lemma_row_bounds(i as nat, self.spec_stride(), len as nat);
        }
        let start = i * self.stride;
        vstd::slice::slice_subrange(self.data, start, start + self.stride)
    }

    pub fn stride(&self) -> (r: usize)
        ensures
            r == self.spec_stride(),
    {
        self.stride
    }

    /// The rows as one contiguous row-major slice.
    pub fn flat(&self) -> (r: &'a [N])
        ensures
            r@ == self@,
    {
        self.data
    }

    pub fn len(&self) -> (r: usize)
        ensures
            r == (if self.spec_stride() == 0 {
                0
            } else {
                self@.len() / self.spec_stride()
            }),
    {
        if self.stride == 0 {
            0
        } else {
            self.data.len() / self.stride
        }
    }

    pub fn is_empty(&self) -> (r: bool)
        ensures
            r == (self@.len() == 0),
    {
        self.data.len() == 0
    }

    pub fn from_slice(data: &'a [N], stride: usize) -> (r: RowsView<'a, N>)
        ensures
            r@ == data@,
            r.spec_stride() == stride,
    {
        RowsView { data, stride }
    }

    /// Sub-view over `count` rows starting at `start`.
    pub fn slice(&self, start: usize, count: usize) -> (r: RowsView<'a, N>)
        requires
            (start + count) * self.spec_stride() <= self@.len(),
            start + count <= usize::MAX,
        ensures
            r.spec_stride() == self.spec_stride(),
            r@ == self@.subrange(
                (start * self.spec_stride()) as int,
                ((start + count) * self.spec_stride()) as int,
            ),
    {
        let len = self.data.len();
        proof {
            let s = self.spec_stride() as int;
            assert((start + count) * s <= len);
            assert(0 <= start * s <= (start + count) * s) by (nonlinear_arith)
                requires
                    0 <= s,
                    0 <= start,
                    0 <= count,
            ;
        }
        RowsView {
            data: vstd::slice::slice_subrange(
                self.data,
                start * self.stride,
                (start + count) * self.stride,
            ),
            stride: self.stride,
        }
    }
}

/// Where a row ends, it also began.
pub proof fn lemma_row_bounds(i: nat, stride: nat, len: nat)
    requires
        (i + 1) * stride <= len,
    ensures
        0 <= i * stride <= (i + 1) * stride <= len,
        (i + 1) * stride == i * stride + stride,
{
    assert(0 <= i * stride && (i + 1) * stride == i * stride + stride) by (nonlinear_arith)
        requires
            0 <= i,
            0 <= stride,
    ;
}

/// The acting-ply counter that `v` stores. Selecting advances it, so the largest value must stay
/// unreachable.
pub open spec fn stored_ply(v: u64) -> Result<u32, DecodeFault> {
    if v < u32::MAX {
        Ok(v as u32)
    } else {
        Err(DecodeFault::PolicyState)
    }
}

/// A stored acting-ply counter.
pub fn ply_from_u64(v: u64) -> (r: Result<u32, DecodeFault>)
    ensures
        r == stored_ply(v),
{
    if v < u32::MAX as u64 {
        Ok(v as u32)
    } else {
        Err(DecodeFault::PolicyState)
    }
}

/// The Thompson head that `v` stores, of `n_heads`.
pub open spec fn stored_head(v: u64, n_heads: usize) -> Result<usize, DecodeFault> {
    if (v as usize) < n_heads {
        Ok(v as usize)
    } else {
        Err(DecodeFault::PolicyState)
    }
}

/// A stored Thompson head.
pub fn thompson_head_from_u64(v: u64, n_heads: usize) -> (r: Result<usize, DecodeFault>)
    ensures
        r == stored_head(v, n_heads),
{
    if v as usize >= n_heads {
        return Err(DecodeFault::PolicyState);
    }
    Ok(v as usize)
}

/// The acting state of a policy that has none.
#[derive(Clone, Copy, Debug, PartialEq, Eq, Structural)]
pub struct Stateless;

/// The absent state that `v` stores.
pub open spec fn stored_nothing(v: u64) -> Result<Stateless, DecodeFault> {
    if v == 0 {
        Ok(Stateless)
    } else {
        Err(DecodeFault::PolicyState)
    }
}

/// A stored state of a policy that has none.
pub fn nothing_from_u64(v: u64) -> (r: Result<Stateless, DecodeFault>)
    ensures
        r == stored_nothing(v),
{
    if v == 0 {
        Ok(Stateless)
    } else {
        Err(DecodeFault::PolicyState)
    }
}

/// The best index among the first `n`: a later one wins only where it is above the best before.
pub open spec fn spec_argmax<N: Scalar>(values: Seq<N>, n: nat) -> int
    decreases n,
{
    if n == 0 {
        0
    } else {
        let best = spec_argmax(values, (n - 1) as nat);
        if values[best].spec_less(values[n - 1]) {
            n - 1
        } else {
            best
        }
    }
}

/// The index of the first maximum.
pub fn argmax<N: Scalar>(values: &[N]) -> (r: usize)
    ensures
        r == spec_argmax(values@, values@.len()),
        values@.len() > 0 ==> r < values@.len(),
        values@.len() == 0 ==> r == 0,
{
    let mut best: usize = 0;
    let mut i: usize = 0;
    while i < values.len()
        invariant
            i <= values@.len(),
            best == spec_argmax(values@, i as nat),
            best < i || best == 0,
        decreases values.len() - i,
    {
        if values[best].less(values[i]) {
            best = i;
        }
        i = i + 1;
    }
    best
}

/// Among numbers, nothing is above the value at the index taken, and every value before it is
/// below it: it is the first maximum.
pub proof fn law_argmax<N: Scalar>(values: Seq<N>, n: nat)
    requires
        weakly_ordered::<N>(),
        0 < n <= values.len(),
        forall|i: int| 0 <= i < n ==> (#[trigger] values[i]).spec_is_number(),
    ensures
        0 <= spec_argmax(values, n) < n,
        forall|i: int|
            0 <= i < n ==> !values[spec_argmax(values, n)].spec_less(#[trigger] values[i]),
        forall|i: int|
            0 <= i < spec_argmax(values, n) ==> (#[trigger] values[i]).spec_less(
                values[spec_argmax(values, n)],
            ),
    decreases n,
{
    if n > 1 {
        let m = (n - 1) as nat;
        law_argmax(values, m);
        let b = spec_argmax(values, m);
        let best = spec_argmax(values, n);
        assert forall|i: int| 0 <= i < n implies !values[best].spec_less(#[trigger] values[i]) by {
            if best == n - 1 && i < m {
            }
        }
        assert forall|i: int| 0 <= i < best implies (#[trigger] values[i]).spec_less(
            values[best],
        ) by {
            if best == n - 1 {
                // what is not above the old best is below what is above it
            }
        }
    } else {
        assert(spec_argmax(values, 0) == 0);
    }
}

/// The best of the legal actions from the `i`-th on, `best` before them.
pub open spec fn best_from<N: Scalar>(row: Seq<N>, legal: Seq<usize>, i: nat, best: usize) -> Result<
    usize,
    Fault,
>
    decreases legal.len() - i,
{
    if i >= legal.len() {
        Ok(best)
    } else if legal[i as int] >= row.len() {
        Err(Fault::ActionRange)
    } else if row[best as int].spec_less(row[legal[i as int] as int]) {
        best_from(row, legal, i + 1, legal[i as int])
    } else {
        best_from(row, legal, i + 1, best)
    }
}

/// The legal action with the first maximum. Rows hold zeros on illegal actions, which must not win.
pub open spec fn best_legal<N: Scalar>(row: Seq<N>, legal: Seq<usize>) -> Result<usize, Fault> {
    if legal.len() == 0 {
        Err(Fault::NoAction)
    } else {
        best_from(row, legal, 0, legal[0])
    }
}

/// Takes the best legal action.
#[verifier::loop_isolation(false)]
pub fn take_best<N: Scalar>(row: &[N], legal: &[usize]) -> (r: Result<usize, Fault>)
    ensures
        r == best_legal(row@, legal@),
{
    if legal.len() == 0 {
        return Err(Fault::NoAction);
    }
    let mut best = legal[0];
    let mut i: usize = 0;
    while i < legal.len()
        invariant
            i <= legal@.len(),
            i > 0 ==> best < row@.len(),
            i == 0 ==> best == legal@[0],
            best_from(row@, legal@, i as nat, best) == best_legal(row@, legal@),
        decreases legal.len() - i,
    {
        let a = legal[i];
        if a >= row.len() {
            return Err(Fault::ActionRange);
        }
        if row[best].less(row[a]) {
            best = a;
        }
        i = i + 1;
    }
    Ok(best)
}

/// Among numbers, the action taken is legal, and no legal action is above it.
pub proof fn law_best_legal<N: Scalar>(row: Seq<N>, legal: Seq<usize>)
    requires
        weakly_ordered::<N>(),
        legal.len() > 0,
        forall|i: int|
            0 <= i < legal.len() ==> #[trigger] legal[i] < row.len()
                && row[legal[i] as int].spec_is_number(),
    ensures
        best_legal(row, legal) matches Ok(best) && legal.contains(best) && forall|i: int|
            0 <= i < legal.len() ==> !row[best as int].spec_less(
                row[(#[trigger] legal[i]) as int],
            ),
{
    assert(legal.contains(legal[0]));
    lemma_best_from(row, legal, 0, legal[0]);
}

proof fn lemma_best_from<N: Scalar>(row: Seq<N>, legal: Seq<usize>, i: nat, best: usize)
    requires
        weakly_ordered::<N>(),
        i <= legal.len(),
        legal.contains(best),
        forall|k: int|
            0 <= k < legal.len() ==> #[trigger] legal[k] < row.len()
                && row[legal[k] as int].spec_is_number(),
        forall|k: int|
            0 <= k < i ==> !row[best as int].spec_less(row[(#[trigger] legal[k]) as int]),
    ensures
        best_from(row, legal, i, best) matches Ok(b) && legal.contains(b) && forall|k: int|
            0 <= k < legal.len() ==> !row[b as int].spec_less(row[(#[trigger] legal[k]) as int]),
    decreases legal.len() - i,
{
    if i < legal.len() {
        let a = legal[i as int];
        let w = choose|w: int| 0 <= w < legal.len() && legal[w] == best;
        assert(legal[w] < row.len() && row[legal[w] as int].spec_is_number());
        if row[best as int].spec_less(row[a as int]) {
            assert forall|k: int| 0 <= k < i + 1 implies !row[a as int].spec_less(
                row[(#[trigger] legal[k]) as int],
            ) by {
                if k < i {
                    assert(!row[best as int].spec_less(row[legal[k] as int]));
                }
            }
            lemma_best_from(row, legal, i + 1, a);
        } else {
            lemma_best_from(row, legal, i + 1, best);
        }
    }
}

/// What Thompson acting takes: the best legal action of one head's row, and now and then any.
pub open spec fn thompson<N: Scalar>(
    values: Seq<Seq<N>>,
    legal: Seq<usize>,
    epsilon: N,
    head: usize,
    rng: SplitMix64,
) -> (Result<usize, Fault>, SplitMix64) {
    if values.len() == 0 {
        (Err(Fault::NoValues), rng)
    } else {
        let row = values[if head < values.len() {
            head as int
        } else {
            values.len() - 1
        }];
        match best_legal(row, legal) {
            Err(f) => (Err(f), rng),
            Ok(best) => if N::spec_zero().spec_less(epsilon) {
                let (u, after) = <SplitMix64 as Rng<N>>::spec_unit(rng);
                if u.spec_less(epsilon) {
                    let (i, last) = <SplitMix64 as Rng<N>>::spec_below(after, legal.len() as usize);
                    (Ok(legal[i as int]), last)
                } else {
                    (Ok(best), after)
                }
            } else {
                (Ok(best), rng)
            },
        }
    }
}

/// Acts by a head's values.
pub fn act_by_head<N: Scalar>(
    values: &Vec<Vec<N>>,
    legal: &[usize],
    epsilon: N,
    head: usize,
    rng: &mut SplitMix64,
) -> (r: Result<usize, Fault>)
    ensures
        r == thompson(matrix(values@), legal@, epsilon, head, *old(rng)).0,
        r is Ok ==> *final(rng) == thompson(matrix(values@), legal@, epsilon, head, *old(rng)).1,
        r is Err ==> *final(rng) == *old(rng),
{
    if values.len() == 0 {
        return Err(Fault::NoValues);
    }
    let at = if head < values.len() {
        head
    } else {
        values.len() - 1
    };
    assert(matrix(values@)[at as int] == values@[at as int]@);
    let best = match take_best(&values[at], legal) {
        Ok(best) => best,
        Err(f) => return Err(f),
    };
    if N::zero().less(epsilon) {
        let u: N = <SplitMix64 as Rng<N>>::unit(rng);
        if u.less(epsilon) {
            let i = <SplitMix64 as Rng<N>>::below(rng, legal.len());
            return Ok(legal[i]);
        }
    }
    Ok(best)
}

/// Whatever is played is legal.
pub proof fn law_thompson_is_legal<N: Scalar>(
    values: Seq<Seq<N>>,
    legal: Seq<usize>,
    epsilon: N,
    head: usize,
    rng: SplitMix64,
)
    requires
        legal.len() <= usize::MAX,
    ensures
        thompson(values, legal, epsilon, head, rng).0 matches Ok(action) ==> legal.contains(action),
{
    if values.len() > 0 && legal.len() > 0 {
        let row = values[if head < values.len() {
            head as int
        } else {
            values.len() - 1
        }];
        assert(legal.contains(legal[0]));
        lemma_best_from_legal(row, legal, 0, legal[0]);
        let after = <SplitMix64 as Rng<N>>::spec_unit(rng).1;
        let n = legal.len() as usize;
        assert(<SplitMix64 as Rng<N>>::spec_below(after, n).0 < n);
    }
}

proof fn lemma_best_from_legal<N: Scalar>(row: Seq<N>, legal: Seq<usize>, i: nat, best: usize)
    requires
        legal.contains(best),
    ensures
        best_from(row, legal, i, best) matches Ok(b) ==> legal.contains(b),
    decreases legal.len() - i,
{
    if i < legal.len() && legal[i as int] < row.len() {
        assert(legal.contains(legal[i as int]));
        if row[best as int].spec_less(row[legal[i as int] as int]) {
            lemma_best_from_legal(row, legal, i + 1, legal[i as int]);
        } else {
            lemma_best_from_legal(row, legal, i + 1, best);
        }
    }
}

/// How an algorithm acts on what it has evaluated.
pub trait Policy<N: Scalar> {
    type Evaluation: View;

    type PolicyState: Copy;

    open spec fn spec_max_agents(&self, sequential: bool) -> Option<usize> {
        arbitrary()
    }

    /// The largest number of agents supported, in sequential or in simultaneous games.
    fn max_agents(&self, sequential: bool) -> (r: Option<usize>)
        ensures
            r == self.spec_max_agents(sequential),
    ;

    open spec fn spec_evaluates_all_perspectives(
        &self,
        sequential: bool,
        num_agents: usize,
    ) -> bool {
        arbitrary()
    }

    /// Whether sequential search consumes every agent's perspective.
    fn evaluates_all_perspectives(&self, sequential: bool, num_agents: usize) -> (r: bool)
        ensures
            r == self.spec_evaluates_all_perspectives(sequential, num_agents),
    ;

    open spec fn spec_supports_imperfect_information(&self) -> bool {
        arbitrary()
    }

    /// Whether the policy is sound where the state holds hidden information.
    fn supports_imperfect_information(&self) -> (r: bool)
        ensures
            r == self.spec_supports_imperfect_information(),
    ;

    open spec fn spec_begin_episode(&self, rng: SplitMix64) -> (Self::PolicyState, SplitMix64) {
        arbitrary()
    }

    /// The acting state of a fresh episode.
    fn begin_episode(&self, rng: &mut SplitMix64) -> (r: Self::PolicyState)
        ensures
            (r, *final(rng)) == self.spec_begin_episode(*old(rng)),
    ;

    open spec fn spec_encode_eval(&self, eval: <Self::Evaluation as View>::V) -> Seq<u8> {
        arbitrary()
    }

    /// Writes a buffered evaluation.
    fn encode_eval(&self, eval: &Self::Evaluation, out: &mut Vec<u8>)
        ensures
            final(out)@ == old(out)@ + self.spec_encode_eval(eval@),
    ;

    open spec fn spec_decode_eval(&self, s: Seq<u8>, action_count: usize) -> Read<
        <Self::Evaluation as View>::V,
    > {
        arbitrary()
    }

    /// Reads an evaluation, and validates it.
    fn decode_eval(&self, r: &mut Reader, action_count: usize) -> (out: Result<
        Self::Evaluation,
        DecodeFault,
    >)
        ensures
            reads_view(out, self.spec_decode_eval(old(r)@, action_count), final(r)@),
    ;

    open spec fn spec_policy_state_to_u64(&self, s: Self::PolicyState) -> u64 {
        arbitrary()
    }

    fn policy_state_to_u64(&self, s: Self::PolicyState) -> (r: u64)
        ensures
            r == self.spec_policy_state_to_u64(s),
    ;

    open spec fn spec_policy_state_from_u64(&self, v: u64) -> Result<
        Self::PolicyState,
        DecodeFault,
    > {
        arbitrary()
    }

    fn policy_state_from_u64(&self, v: u64) -> (r: Result<Self::PolicyState, DecodeFault>)
        ensures
            r == self.spec_policy_state_from_u64(v),
    ;

    /// `action` may be chosen from an evaluation.
    open spec fn selects(
        &self,
        eval: <Self::Evaluation as View>::V,
        state: Self::PolicyState,
        rng: SplitMix64,
        action: usize,
        next_state: Self::PolicyState,
        next_rng: SplitMix64,
    ) -> bool {
        arbitrary()
    }

    /// Why no action can be chosen from an evaluation.
    open spec fn cannot_select(
        &self,
        eval: <Self::Evaluation as View>::V,
        state: Self::PolicyState,
        f: Fault,
    ) -> bool {
        arbitrary()
    }

    /// Chooses an action from an evaluation.
    fn select(
        &self,
        eval: &Self::Evaluation,
        state: &mut Self::PolicyState,
        rng: &mut SplitMix64,
    ) -> (r: Result<usize, Fault>)
        ensures
            match r {
                Ok(action) => self.selects(
                    eval@,
                    *old(state),
                    *old(rng),
                    action,
                    *final(state),
                    *final(rng),
                ),
                Err(f) => self.cannot_select(eval@, *old(state), f),
            },
    ;

    open spec fn spec_fold_telemetry(
        &self,
        eval: <Self::Evaluation as View>::V,
        stats: StatsModel<N>,
    ) -> Result<StatsModel<N>, Fault> {
        arbitrary()
    }

    /// Folds an evaluation's telemetry in.
    fn fold_telemetry(&self, eval: &Self::Evaluation, stats: &mut CollectStats<N>) -> (r: Result<
        (),
        Fault,
    >)
        ensures
            match r {
                Ok(_) => self.spec_fold_telemetry(eval@, old(stats)@) == Ok::<_, Fault>(
                    final(stats)@,
                ),
                Err(f) => self.spec_fold_telemetry(eval@, old(stats)@) == Err::<StatsModel<N>, _>(
                    f,
                ),
            },
    ;
}

} // verus!
