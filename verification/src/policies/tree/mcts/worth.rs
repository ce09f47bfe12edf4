//! What a backup credits: every choice on the path with the discounted sum of what was paid from it
//! on, and of the value at the end.

use vstd::prelude::*;

#[allow(unused_imports)]
use super::backup::{
    chance_passed, choice_up, choice_values, credited, joint_credited, negamax_up, spec_backprop,
    spec_backprop_vector, vector_up,
};
#[allow(unused_imports)]
use super::fan::added;
#[allow(unused_imports)]
use super::grow::{chance_child, with_node};
#[allow(unused_imports)]
use super::sound::{path_sound, step_sound};
#[allow(unused_imports)]
use super::tree::{NodeModel, TableModel, TreeMode, TreeModel};
#[allow(unused_imports)]
use crate::fault::Fault;
#[allow(unused_imports)]
use crate::num::{law_ring, law_ring_signs, power, ring, Scalar};
#[allow(unused_imports)]
use crate::util::spec_filled;

verus! {

/// One step of a path, as one agent sees it: a choice with its mover and what it pays, or a chance
/// event with what it pays every agent.
#[verifier::ext_equal]
pub struct Leg<N> {
    pub decides: bool,
    pub mover: usize,
    pub reward: N,
    pub chance: Seq<N>,
}

/// What the chance event at a step pays every agent.
pub open spec fn chance_paid<S, F, N>(m: TreeModel<S, F, N>, step: (usize, usize)) -> Seq<N> {
    if m.arena[step.0 as int].kind is Chance {
        match chance_child(m.arena[step.0 as int], step.1) {
            Ok(Some(c)) => m.arena[c as int].chance_in,
            _ => Seq::empty(),
        }
    } else {
        Seq::empty()
    }
}

/// The steps of a path in a two-agent tree: each choice pays its mover.
pub open spec fn movers_legs<S, F, N>(m: TreeModel<S, F, N>) -> Seq<Leg<N>> {
    Seq::new(
        m.path.len(),
        |k: int|
            {
                let node = m.arena[m.path[k].0 as int];
                Leg {
                    decides: !(node.kind is Chance),
                    mover: node.actor,
                    reward: node.links[m.path[k].1 as int].rewards[0],
                    chance: chance_paid(m, m.path[k]),
                }
            },
    )
}

/// The steps of a path as agent `x` sees them: each choice pays everyone.
pub open spec fn agents_legs<S, F, N>(m: TreeModel<S, F, N>, x: usize) -> Seq<Leg<N>> {
    Seq::new(
        m.path.len(),
        |k: int|
            {
                let node = m.arena[m.path[k].0 as int];
                Leg {
                    decides: !(node.kind is Chance),
                    mover: x,
                    reward: node.links[m.path[k].1 as int].rewards[x as int],
                    chance: chance_paid(m, m.path[k]),
                }
            },
    )
}

/// What agent `from` gains, as agent `to` sees it: the same to itself, the opposite to the other.
pub open spec fn seen_by<N: Scalar>(x: N, from: usize, to: usize) -> N {
    if from == to {
        x
    } else {
        x.spec_negated()
    }
}

/// How many choices lie among the steps from `d` to before `k`.
pub open spec fn choices_between<N>(legs: Seq<Leg<N>>, d: int, k: int) -> nat
    decreases k - d,
{
    if k <= d {
        0
    } else {
        choices_between(legs, d, k - 1) + if legs[k - 1].decides {
            1nat
        } else {
            0nat
        }
    }
}

/// What chance pays agent `x` from step `j` on until the next choice, or until the end, where `due`
/// is paid besides.
pub open spec fn paid_by_chance<N: Scalar>(
    legs: Seq<Leg<N>>,
    j: int,
    n: int,
    due: Seq<N>,
    x: usize,
) -> N
    decreases n - j,
{
    if j >= n {
        if x < due.len() {
            due[x as int]
        } else {
            N::spec_zero()
        }
    } else if legs[j].decides {
        N::spec_zero()
    } else {
        (if x < legs[j].chance.len() {
            legs[j].chance[x as int]
        } else {
            N::spec_zero()
        }).spec_plus(paid_by_chance(legs, j + 1, n, due, x))
    }
}

/// What choice `k` pays its mover: its own reward, and what chance pays right after it.
pub open spec fn paid<N: Scalar>(legs: Seq<Leg<N>>, k: int, n: int, due: Seq<N>) -> N {
    legs[k].reward.spec_plus(paid_by_chance(legs, k + 1, n, due, legs[k].mover))
}

/// What the choices from step `k` on pay, as the mover of choice `d` sees it, each discounted once
/// for every choice from `d` to before it.
pub open spec fn discounted_from<N: Scalar>(
    legs: Seq<Leg<N>>,
    gamma: N,
    d: int,
    k: int,
    n: int,
    due: Seq<N>,
) -> N
    decreases n - k,
{
    if k >= n {
        N::spec_zero()
    } else {
        (if legs[k].decides {
            seen_by(
                power(gamma, choices_between(legs, d, k)).spec_times(paid(legs, k, n, due)),
                legs[k].mover,
                legs[d].mover,
            )
        } else {
            N::spec_zero()
        }).spec_plus(discounted_from(legs, gamma, d, k + 1, n, due))
    }
}

/// What choice `d` of a path of `n` steps is worth to its mover: the discounted sum of what it and
/// all later choices pay, and of the value at the end, which is agent `owner`'s.
pub open spec fn discounted<N: Scalar>(
    legs: Seq<Leg<N>>,
    gamma: N,
    d: int,
    n: int,
    value: N,
    owner: usize,
    due: Seq<N>,
) -> N {
    discounted_from(legs, gamma, d, d, n, due).spec_plus(
        seen_by(
            power(gamma, choices_between(legs, d, n)).spec_times(value),
            owner,
            legs[d].mover,
        ),
    )
}

proof fn lemma_chance_end<N: Scalar>(
    legs: Seq<Leg<N>>,
    j: int,
    n: int,
    due: Seq<N>,
    x: usize,
)
    requires
        ring::<N>(),
        0 <= j < n <= legs.len(),
        x < due.len(),
    ensures
        !legs[n - 1].decides ==> paid_by_chance(legs, j, n, due, x) == paid_by_chance(
            legs,
            j,
            n - 1,
            added(due, legs[n - 1].chance),
            x,
        ),
        legs[n - 1].decides ==> paid_by_chance(legs, j, n, due, x) == paid_by_chance(
            legs,
            j,
            n - 1,
            spec_filled(N::spec_zero(), due.len()),
            x,
        ),
    decreases n - j,
{
    if j < n - 1 {
        if !legs[j].decides {
            lemma_chance_end(legs, j + 1, n, due, x);
        }
    } else {
        let own = if x < legs[j].chance.len() {
            legs[j].chance[x as int]
        } else {
            N::spec_zero()
        };
        law_ring(due[x as int], own, own);
        assert(paid_by_chance(legs, n, n, due, x) == due[x as int]);
    }
}

/// The last step taken off the end of the sum.
proof fn lemma_sum_end<N: Scalar>(
    legs: Seq<Leg<N>>,
    gamma: N,
    d: int,
    k: int,
    n: int,
    due: Seq<N>,
)
    requires
        ring::<N>(),
        0 <= d <= k < n <= legs.len(),
        forall|i: int| 0 <= i < n && (#[trigger] legs[i]).decides ==> legs[i].mover < due.len(),
    ensures
        !legs[n - 1].decides ==> discounted_from(legs, gamma, d, k, n, due) == discounted_from(
            legs,
            gamma,
            d,
            k,
            n - 1,
            added(due, legs[n - 1].chance),
        ),
        legs[n - 1].decides ==> discounted_from(legs, gamma, d, k, n, due) == discounted_from(
            legs,
            gamma,
            d,
            k,
            n - 1,
            spec_filled(N::spec_zero(), due.len()),
        ).spec_plus(
            seen_by(
                power(gamma, choices_between(legs, d, n - 1)).spec_times(
                    legs[n - 1].reward.spec_plus(due[legs[n - 1].mover as int]),
                ),
                legs[n - 1].mover,
                legs[d].mover,
            ),
        ),
    decreases n - k,
{
    let top = legs[n - 1];
    let zero = N::spec_zero();
    if k < n - 1 {
        lemma_sum_end(legs, gamma, d, k + 1, n, due);
        if legs[k].decides {
            lemma_chance_end(legs, k + 1, n, due, legs[k].mover);
        }
        if top.decides {
            let rest = spec_filled(zero, due.len());
            let term = if legs[k].decides {
                seen_by(
                    power(gamma, choices_between(legs, d, k)).spec_times(paid(legs, k, n, due)),
                    legs[k].mover,
                    legs[d].mover,
                )
            } else {
                zero
            };
            let last = seen_by(
                power(gamma, choices_between(legs, d, n - 1)).spec_times(
                    top.reward.spec_plus(due[top.mover as int]),
                ),
                top.mover,
                legs[d].mover,
            );
            law_ring(term, discounted_from(legs, gamma, d, k + 1, n - 1, rest), last);
        }
    } else {
        assert(discounted_from(legs, gamma, d, n, n, due) == zero);
        let term = if top.decides {
            seen_by(
                power(gamma, choices_between(legs, d, k)).spec_times(paid(legs, k, n, due)),
                top.mover,
                legs[d].mover,
            )
        } else {
            zero
        };
        law_ring(term, zero, zero);
        law_ring(zero, term, zero);
        if top.decides {
            assert(paid_by_chance(legs, n, n, due, top.mover) == due[top.mover as int]);
        }
    }
}

proof fn lemma_seen_by<N: Scalar>(x: N, y: N, a: usize, b: usize, c: usize)
    requires
        ring::<N>(),
        a == b || b == c || a == c,
    ensures
        seen_by(seen_by(x, a, b), b, c) == seen_by(x, a, c),
        seen_by(x.spec_plus(y), a, b) == seen_by(x, a, b).spec_plus(seen_by(y, a, b)),
        y.spec_times(seen_by(x, a, b)) == seen_by(y.spec_times(x), a, b),
{
    law_ring_signs(x, y);
    law_ring_signs(y, x);
}

/// A choice at the top of what is left, with the value below it, is worth what the closed form says;
/// and it stands, with that worth, for everything below it.
proof fn lemma_top_choice<N: Scalar>(
    legs: Seq<Leg<N>>,
    gamma: N,
    d: int,
    n: int,
    value: N,
    owner: usize,
    due: Seq<N>,
)
    requires
        ring::<N>(),
        0 <= d < n <= legs.len(),
        legs[n - 1].decides,
        forall|i: int| 0 <= i < n && (#[trigger] legs[i]).decides ==> legs[i].mover < due.len(),
        owner == legs[n - 1].mover || legs[n - 1].mover == legs[d].mover || owner
            == legs[d].mover,
    ensures
        ({
            let top = legs[n - 1];
            let q = top.reward.spec_plus(due[top.mover as int]).spec_plus(
                gamma.spec_times(seen_by(value, owner, top.mover)),
            );
            &&& d == n - 1 ==> discounted(legs, gamma, d, n, value, owner, due) == q
            &&& d < n - 1 ==> discounted(legs, gamma, d, n, value, owner, due) == discounted(
                legs,
                gamma,
                d,
                n - 1,
                q,
                top.mover,
                spec_filled(N::spec_zero(), due.len()),
            )
        }),
{
    let top = legs[n - 1];
    let zero = N::spec_zero();
    let pay = top.reward.spec_plus(due[top.mover as int]);
    let seen = seen_by(value, owner, top.mover);
    let q = pay.spec_plus(gamma.spec_times(seen));
    lemma_sum_end(legs, gamma, d, d, n, due);
    let p = power(gamma, choices_between(legs, d, n - 1));
    assert(power(gamma, choices_between(legs, d, n)) == p.spec_times(gamma));
    let rest = discounted_from(legs, gamma, d, d, n - 1, spec_filled(zero, due.len()));
    let paid_part = seen_by(p.spec_times(pay), top.mover, legs[d].mover);
    let end_part = seen_by(p.spec_times(gamma).spec_times(value), owner, legs[d].mover);
    assert(discounted_from(legs, gamma, d, d, n, due) == rest.spec_plus(paid_part));
    law_ring(rest, paid_part, end_part);
    // The worth of the choice, carried to `d`.
    law_ring(p, pay, gamma.spec_times(seen));
    law_ring(p, gamma, seen);
    lemma_seen_by(
        p.spec_times(pay),
        p.spec_times(gamma.spec_times(seen)),
        top.mover,
        legs[d].mover,
        legs[d].mover,
    );
    lemma_seen_by(value, p.spec_times(gamma), owner, top.mover, legs[d].mover);
    lemma_seen_by(
        p.spec_times(gamma).spec_times(value),
        p,
        owner,
        top.mover,
        legs[d].mover,
    );
    assert(seen_by(p.spec_times(q), top.mover, legs[d].mover) == paid_part.spec_plus(end_part));
    if d == n - 1 {
        assert(choices_between(legs, d, d) == 0);
        assert(discounted_from(legs, gamma, d, d, d, spec_filled(zero, due.len())) == zero);
        law_ring(q, zero, zero);
        law_ring(paid_part.spec_plus(end_part), zero, zero);
    }
}

/// A chance event at the top of what is left adds to what is due.
proof fn lemma_top_chance<N: Scalar>(
    legs: Seq<Leg<N>>,
    gamma: N,
    d: int,
    n: int,
    value: N,
    owner: usize,
    due: Seq<N>,
)
    requires
        ring::<N>(),
        0 <= d < n - 1,
        n <= legs.len(),
        !legs[n - 1].decides,
        forall|i: int| 0 <= i < n && (#[trigger] legs[i]).decides ==> legs[i].mover < due.len(),
    ensures
        discounted(legs, gamma, d, n, value, owner, due) == discounted(
            legs,
            gamma,
            d,
            n - 1,
            value,
            owner,
            added(due, legs[n - 1].chance),
        ),
{
    lemma_sum_end(legs, gamma, d, d, n, due);
}

/// `b` is `a` with one more visit of arm `arm` of table `t`, which brought it `worth`; no other arm
/// of that table has changed.
pub open spec fn arm_credited<N: Scalar>(
    a: TableModel<N>,
    b: TableModel<N>,
    arm: int,
    worth: N,
) -> bool {
    &&& 0 <= arm < a.arms.len() == b.arms.len()
    &&& b.total_visits == a.total_visits + 1
    &&& b.arms[arm].visits == a.arms[arm].visits + 1
    &&& b.arms[arm].value_sum == a.arms[arm].value_sum.spec_plus(worth)
    &&& b.arms[arm].action == a.arms[arm].action
    &&& b.arms[arm].prior == a.arms[arm].prior
    &&& forall|j: int| 0 <= j < a.arms.len() && j != arm ==> #[trigger] b.arms[j] == a.arms[j]
}

/// `b` is `a` with `worth` credited to one arm of table `t`, and nothing else.
pub open spec fn credits_one<S, F, N: Scalar>(
    a: NodeModel<S, F, N>,
    b: NodeModel<S, F, N>,
    t: int,
    arm: int,
    worth: N,
) -> bool {
    &&& 0 <= t < a.tables.len() == b.tables.len()
    &&& arm_credited(a.tables[t], b.tables[t], arm, worth)
    &&& forall|j: int| 0 <= j < a.tables.len() && j != t ==> #[trigger] b.tables[j] == a.tables[j]
}

/// Two trees that lead alike: what a path pays does not depend on what its nodes have been credited.
spec fn leads_alike<S, F, N>(a: TreeModel<S, F, N>, b: TreeModel<S, F, N>) -> bool {
    &&& b.path == a.path
    &&& b.arena.len() == a.arena.len()
    &&& forall|i: int|
        #![trigger b.arena[i]]
        #![trigger a.arena[i]]
        0 <= i < a.arena.len() ==> b.arena[i] == (NodeModel {
            tables: b.arena[i].tables,
            values: b.arena[i].values,
            ..a.arena[i]
        })
}

proof fn lemma_up<S, F, N: Scalar>(
    gamma: N,
    m: TreeModel<S, F, N>,
    n: nat,
    g: N,
    owner: usize,
    due: Seq<N>,
    d: int,
)
    requires
        ring::<N>(),
        path_sound(m),
        n <= m.path.len(),
        owner < 2,
        due.len() == 2,
        negamax_up(gamma, m, n, g, owner, due) is Ok,
    ensures
        ({
            let b = negamax_up(gamma, m, n, g, owner, due)->Ok_0;
            let legs = movers_legs(m);
            &&& leads_alike(m, b)
            &&& forall|i: int| 0 <= i < n ==> (#[trigger] m.path[i]).0 < m.arena.len()
            &&& forall|i: int|
                0 <= i < n && (#[trigger] legs[i]).decides ==> legs[i].mover < 2
            &&& 0 <= d < n && legs[d].decides ==> credits_one(
                m.arena[m.path[d].0 as int],
                b.arena[m.path[d].0 as int],
                0,
                m.path[d].1 as int,
                discounted(legs, gamma, d, n as int, g, owner, due),
            )
            &&& forall|i: int|
                0 <= i < m.arena.len() && (forall|k: int|
                    0 <= k < n ==> (#[trigger] m.path[k]).0 != i) ==> #[trigger] b.arena[i]
                    == m.arena[i]
        }),
    decreases n,
{
    let legs = movers_legs(m);
    if n > 0 {
        let top = n - 1;
        let (ni, a) = m.path[top];
        let node = m.arena[ni as int];
        let b = negamax_up(gamma, m, n, g, owner, due)->Ok_0;
        if node.kind is Chance {
            let more = chance_passed(m, ni as int, a, due)->Ok_0;
            assert(more =~= added(due, legs[top].chance));
            lemma_up(gamma, m, top as nat, g, owner, more, d);
            if 0 <= d < top && legs[d].decides {
                lemma_top_chance(legs, gamma, d, n as int, g, owner, due);
            }
            assert forall|i: int|
                0 <= i < m.arena.len() && (forall|k: int|
                    0 <= k < n ==> (#[trigger] m.path[k]).0 != i) implies #[trigger] b.arena[i]
                == m.arena[i] by {}
        } else {
            let q = node.links[a as int].rewards[0].spec_plus(due[node.actor as int]).spec_plus(
                gamma.spec_times(seen_by(g, owner, node.actor)),
            );
            let next = credited(node, 0, a as nat, q)->Ok_0;
            let mid = with_node(m, ni as int, next);
            let zeros = spec_filled(N::spec_zero(), 2);
            assert(leads_alike(m, mid));
            lemma_same_legs(m, mid);
            lemma_up(gamma, mid, top as nat, q, node.actor, zeros, d);
            assert(leads_alike(m, b));
            if 0 <= d < n && legs[d].decides {
                assert forall|i: int| 0 <= i < n && (#[trigger] legs[i]).decides implies legs[i].mover
                    < due.len() by {
                    if i < top {
                        assert(movers_legs(mid)[i].decides);
                    }
                }
                lemma_top_choice(legs, gamma, d, n as int, g, owner, due);
                if d < top {
                    assert(m.path[d].0 != m.path[top].0);
                    assert(mid.arena[m.path[d].0 as int] == m.arena[m.path[d].0 as int]);
                } else {
                    assert forall|k: int| 0 <= k < top implies (#[trigger] mid.path[k]).0 != ni by {
                        assert(m.path[k].0 != m.path[top].0);
                    }
                    assert(b.arena[ni as int] == mid.arena[ni as int]);
                }
            }
            assert forall|i: int|
                0 <= i < m.arena.len() && (forall|k: int|
                    0 <= k < n ==> (#[trigger] m.path[k]).0 != i) implies #[trigger] b.arena[i]
                == m.arena[i] by {
                assert(m.path[top].0 != i);
                assert(mid.arena[i] == m.arena[i]);
            }
        }
    }
}

proof fn lemma_same_legs<S, F, N>(a: TreeModel<S, F, N>, b: TreeModel<S, F, N>)
    requires
        leads_alike(a, b),
        path_sound(a),
    ensures
        path_sound(b),
        movers_legs(a) == movers_legs(b),
        forall|x: usize| agents_legs(a, x) == #[trigger] agents_legs(b, x),
{
    assert forall|k: int| 0 <= k < a.path.len() implies step_sound(b, #[trigger] b.path[k])
        && chance_paid(a, a.path[k]) == chance_paid(b, a.path[k]) by {
        assert(step_sound(a, a.path[k]));
        let at = a.path[k].0 as int;
        assert(b.arena[at] == (NodeModel {
            tables: b.arena[at].tables,
            values: b.arena[at].values,
            ..a.arena[at]
        }));
        if let Ok(Some(c)) = chance_child(a.arena[at], a.path[k].1) {
            if a.arena[at].kind is Chance {
                assert(b.arena[c as int].chance_in == a.arena[c as int].chance_in);
            }
        }
    }
    assert(movers_legs(a) =~= movers_legs(b));
    assert forall|x: usize| agents_legs(a, x) == #[trigger] agents_legs(b, x) by {
        assert(agents_legs(a, x) =~= agents_legs(b, x));
    }
}

/// What a negamax backup credits. Every choice on the path is credited, once and alone at its node,
/// with the discounted sum of what it and all later choices pay and of the value at the end: what a
/// choice pays is its own reward and what chance pays its mover right after it; it is discounted once
/// for every choice before it on the path, back to the one that is credited; and it counts against
/// that one's mover where the other agent is paid. Nodes off the path are not touched.
pub proof fn law_backups_discount<S, F, N: Scalar>(
    gamma: N,
    m: TreeModel<S, F, N>,
    value: N,
    b: TreeModel<S, F, N>,
    d: int,
)
    requires
        ring::<N>(),
        path_sound(m),
        m.leaf < m.arena.len(),
        m.arena[m.leaf as int].actor < 2,
        spec_backprop(gamma, m, value) == Ok::<_, Fault>(b),
        0 <= d < m.path.len(),
        !(m.arena[m.path[d].0 as int].kind is Chance),
    ensures
        credits_one(
            m.arena[m.path[d].0 as int],
            b.arena[m.path[d].0 as int],
            0,
            m.path[d].1 as int,
            discounted(
                movers_legs(m),
                gamma,
                d,
                m.path.len() as int,
                value,
                m.arena[m.leaf as int].actor,
                m.pend_seed,
            ),
        ),
        forall|i: int|
            0 <= i < m.arena.len() && (forall|k: int|
                0 <= k < m.path.len() ==> (#[trigger] m.path[k]).0 != i) ==> (
            #[trigger] b.arena[i]).tables == m.arena[i].tables,
{
    let mid = super::backup::leaf_valued(m, value);
    let owner = m.arena[m.leaf as int].actor;
    let due = added(spec_filled(N::spec_zero(), 2), m.pend_seed);
    assert(leads_alike(m, mid));
    lemma_same_legs(m, mid);
    lemma_up(gamma, mid, m.path.len(), value, owner, due, d);
    lemma_due(movers_legs(m), gamma, d, d, m.path.len() as int, m.pend_seed, due);
    assert(mid.arena[m.path[d].0 as int].tables == m.arena[m.path[d].0 as int].tables);
    assert forall|i: int|
        0 <= i < m.arena.len() && (forall|k: int|
            0 <= k < m.path.len() ==> (#[trigger] m.path[k]).0 != i) implies (
    #[trigger] b.arena[i]).tables == m.arena[i].tables by {
        assert(forall|k: int| 0 <= k < mid.path.len() ==> (#[trigger] mid.path[k]).0 != i);
        assert(b.arena[i] == mid.arena[i]);
    }
}

/// Where nothing is discounted away but everything that comes later, a choice is credited with what
/// it pays itself.
pub proof fn law_without_a_future_a_choice_is_its_own_pay<N: Scalar>(
    legs: Seq<Leg<N>>,
    d: int,
    value: N,
    owner: usize,
    due: Seq<N>,
)
    requires
        ring::<N>(),
        0 <= d < legs.len(),
        legs[d].decides,
    ensures
        discounted(legs, N::spec_zero(), d, legs.len() as int, value, owner, due) == paid(
            legs,
            d,
            legs.len() as int,
            due,
        ),
{
    let zero = N::spec_zero();
    let n = legs.len() as int;
    assert(choices_between(legs, d, d) == 0);
    assert(choices_between(legs, d, d + 1) == 1);
    lemma_no_future(legs, d, d + 1, n, due);
    lemma_choices_grow(legs, d, d + 1, n);
    lemma_power_zero::<N>(choices_between(legs, d, n));
    law_ring(value, zero, zero);
    law_ring_signs(zero, zero);
    law_ring(zero, zero, zero);
    let own = paid(legs, d, n, due);
    law_ring(own, zero, zero);
    assert(zero.spec_negated() == zero) by {
        law_ring(zero, zero.spec_negated(), zero);
    }
}

proof fn lemma_choices_grow<N>(legs: Seq<Leg<N>>, d: int, k: int, n: int)
    requires
        d <= k <= n,
    ensures
        choices_between(legs, d, k) <= choices_between(legs, d, n),
    decreases n - k,
{
    if k < n {
        lemma_choices_grow(legs, d, k, n - 1);
    }
}

proof fn lemma_power_zero<N: Scalar>(k: nat)
    requires
        ring::<N>(),
        k > 0,
    ensures
        power(N::spec_zero(), k) == N::spec_zero(),
{
    law_ring(power(N::spec_zero(), (k - 1) as nat), N::spec_zero(), N::spec_zero());
}

proof fn lemma_no_future<N: Scalar>(legs: Seq<Leg<N>>, d: int, k: int, n: int, due: Seq<N>)
    requires
        ring::<N>(),
        0 <= d < k <= n <= legs.len(),
        choices_between(legs, d, d + 1) == 1,
    ensures
        discounted_from(legs, N::spec_zero(), d, k, n, due) == N::spec_zero(),
    decreases n - k,
{
    let zero = N::spec_zero();
    if k < n {
        lemma_no_future(legs, d, k + 1, n, due);
        lemma_choices_grow(legs, d, d + 1, k);
        lemma_power_zero::<N>(choices_between(legs, d, k));
        law_ring(paid(legs, k, n, due), zero, zero);
        law_ring(zero, zero.spec_negated(), zero);
    }
}

/// What is due may be given as far as it is not nothing.
proof fn lemma_due<N: Scalar>(
    legs: Seq<Leg<N>>,
    gamma: N,
    d: int,
    k: int,
    n: int,
    seed: Seq<N>,
    due: Seq<N>,
)
    requires
        ring::<N>(),
        0 <= d <= k <= n <= legs.len(),
        due == added(spec_filled(N::spec_zero(), due.len()), seed),
        forall|i: int| 0 <= i < n && (#[trigger] legs[i]).decides ==> legs[i].mover < due.len(),
    ensures
        discounted_from(legs, gamma, d, k, n, seed) == discounted_from(legs, gamma, d, k, n, due),
    decreases n - k,
{
    if k < n {
        lemma_due(legs, gamma, d, k + 1, n, seed, due);
        if legs[k].decides {
            lemma_due_chance(legs, k + 1, n, seed, due, legs[k].mover);
        }
    }
}

proof fn lemma_due_chance<N: Scalar>(
    legs: Seq<Leg<N>>,
    j: int,
    n: int,
    seed: Seq<N>,
    due: Seq<N>,
    x: usize,
)
    requires
        ring::<N>(),
        0 <= j <= n <= legs.len(),
        x < due.len(),
        due == added(spec_filled(N::spec_zero(), due.len()), seed),
    ensures
        paid_by_chance(legs, j, n, seed, x) == paid_by_chance(legs, j, n, due, x),
    decreases n - j,
{
    if j < n {
        if !legs[j].decides {
            lemma_due_chance(legs, j + 1, n, seed, due, x);
        }
    } else if x < seed.len() {
        law_ring(seed[x as int], N::spec_zero(), N::spec_zero());
    }
}

/// The number of a joint choice: table by table, the last varying fastest.
pub open spec fn joint_number<N>(tables: Seq<TableModel<N>>, picks: Seq<nat>, i: nat) -> nat
    decreases i,
{
    if i == 0 {
        0
    } else {
        joint_number(tables, picks, (i - 1) as nat) * tables[i - 1].arms.len() + picks[i - 1]
    }
}

/// How many joint choices the first `i` tables have.
pub open spec fn joint_choices<N>(tables: Seq<TableModel<N>>, i: nat) -> nat
    decreases i,
{
    if i == 0 {
        1
    } else {
        joint_choices(tables, (i - 1) as nat) * tables[i - 1].arms.len()
    }
}

/// `b` is `a` with every agent's worth credited to the arm that it picked.
pub open spec fn credits_all<S, F, N: Scalar>(
    a: NodeModel<S, F, N>,
    b: NodeModel<S, F, N>,
    picks: Seq<nat>,
    worth: Seq<N>,
    n: nat,
) -> bool {
    &&& b.tables.len() == a.tables.len()
    &&& forall|t: int|
        #![trigger b.tables[t]]
        0 <= t < a.tables.len() ==> if t < n {
            arm_credited(a.tables[t], b.tables[t], picks[t] as int, worth[t])
        } else {
            b.tables[t] == a.tables[t]
        }
}

/// A joint choice credits every agent's own arm in it: the arms whose number the choice is.
pub proof fn law_joint_choices_credit_everyone<S, F, N: Scalar>(
    node: NodeModel<S, F, N>,
    i: nat,
    choice: nat,
    worth: Seq<N>,
    b: NodeModel<S, F, N>,
) -> (picks: Seq<nat>)
    requires
        i <= node.tables.len(),
        choice < joint_choices(node.tables, i),
        joint_credited(node, i, choice, worth) == Ok::<_, Fault>(b),
    ensures
        picks.len() == i,
        joint_number(node.tables, picks, i) == choice,
        credits_all(node, b, picks, worth, i),
        b == (NodeModel { tables: b.tables, ..node }),
    decreases i,
{
    if i == 0 {
        Seq::empty()
    } else {
        let ti = (i - 1) as nat;
        let l = node.tables[ti as int].arms.len();
        let mid = credited(node, ti, choice % l, worth[ti as int])->Ok_0;
        let w = joint_choices(node.tables, ti);
        assert(choice / l < w && choice == (choice / l) * l + choice % l) by (nonlinear_arith)
            requires
                choice < w * l,
                l > 0,
        ;
        lemma_joint_same(node.tables, mid.tables, ti);
        let before = law_joint_choices_credit_everyone(mid, ti, choice / l, worth, b);
        let picks = before.push(choice % l);
        lemma_number_same(mid.tables, node.tables, before, picks, ti);
        assert forall|t: int|
            #![trigger b.tables[t]]
            0 <= t < node.tables.len() implies if t < i {
            arm_credited(node.tables[t], b.tables[t], picks[t] as int, worth[t])
        } else {
            b.tables[t] == node.tables[t]
        } by {
            if t != ti {
                assert(mid.tables[t] == node.tables[t]);
            } else {
                assert(b.tables[t] == mid.tables[t]);
            }
        }
        picks
    }
}

proof fn lemma_joint_same<N>(a: Seq<TableModel<N>>, b: Seq<TableModel<N>>, i: nat)
    requires
        i <= a.len() == b.len(),
        forall|t: int| 0 <= t < a.len() ==> (#[trigger] b[t]).arms.len() == a[t].arms.len(),
    ensures
        joint_choices(a, i) == joint_choices(b, i),
    decreases i,
{
    if i > 0 {
        lemma_joint_same(a, b, (i - 1) as nat);
        assert(b[i - 1].arms.len() == a[i - 1].arms.len());
    }
}

proof fn lemma_number_same<N>(
    a: Seq<TableModel<N>>,
    b: Seq<TableModel<N>>,
    p: Seq<nat>,
    q: Seq<nat>,
    i: nat,
)
    requires
        i <= a.len() == b.len(),
        i <= p.len(),
        i <= q.len(),
        forall|t: int| 0 <= t < i ==> p[t] == q[t],
        forall|t: int| 0 <= t < a.len() ==> (#[trigger] b[t]).arms.len() == a[t].arms.len(),
    ensures
        joint_number(a, p, i) == joint_number(b, q, i),
    decreases i,
{
    if i > 0 {
        lemma_number_same(a, b, p, q, (i - 1) as nat);
        assert(b[i - 1].arms.len() == a[i - 1].arms.len());
    }
}

/// What every agent gets for choice `d`.
pub open spec fn worths<S, F, N: Scalar>(
    m: TreeModel<S, F, N>,
    gamma: N,
    d: int,
    n: int,
    vals: Seq<N>,
    due: Seq<N>,
) -> Seq<N> {
    Seq::new(
        vals.len(),
        |x: int|
            discounted(agents_legs(m, x as usize), gamma, d, n, vals[x], x as usize, due),
    )
}

proof fn lemma_vector_worth<S, F, N: Scalar>(
    gamma: N,
    m: TreeModel<S, F, N>,
    n: nat,
    g: Seq<N>,
    due: Seq<N>,
    d: int,
)
    requires
        ring::<N>(),
        path_sound(m),
        n <= m.path.len(),
        g.len() <= due.len(),
        g.len() <= usize::MAX,
        vector_up(gamma, m, n, g, due) is Ok,
        0 <= d < n,
        !(m.arena[m.path[d].0 as int].kind is Chance),
    ensures
        ({
            let b = vector_up(gamma, m, n, g, due)->Ok_0;
            let node = m.arena[m.path[d].0 as int];
            let slot = m.path[d].1;
            let worth = worths(m, gamma, d, n as int, g, due);
            &&& leads_alike(m, b)
            &&& if m.mode == TreeMode::Sim {
                joint_credited(node, node.tables.len(), slot as nat, worth) == Ok::<_, Fault>(
                    b.arena[m.path[d].0 as int],
                )
            } else {
                &&& node.actor < g.len()
                &&& credited(node, 0, slot as nat, worth[node.actor as int]) == Ok::<_, Fault>(
                    b.arena[m.path[d].0 as int],
                )
            }
        }),
    decreases n,
{
    let top = n - 1;
    let (ni, slot) = m.path[top];
    let node = m.arena[ni as int];
    assert(step_sound(m, m.path[top]));
    if node.kind is Chance {
        let more = chance_passed(m, ni as int, slot, due)->Ok_0;
        assert(more =~= added(due, chance_paid(m, m.path[top])));
        lemma_vector_worth(gamma, m, top as nat, g, more, d);
        assert(worths(m, gamma, d, n as int, g, due) =~= worths(
            m,
            gamma,
            d,
            top,
            g,
            more,
        )) by {
            assert forall|x: int| 0 <= x < g.len() implies #[trigger] worths(
                m,
                gamma,
                d,
                n as int,
                g,
                due,
            )[x] == worths(m, gamma, d, top, g, more)[x] by {
                let legs = agents_legs(m, x as usize);
                lemma_top_chance(legs, gamma, d, n as int, g[x], x as usize, due);
            }
        }
    } else {
        let (next, q) = choice_up(gamma, m.mode, node, slot, g, due)->Ok_0;
        let mid = with_node(m, ni as int, next);
        let zeros = spec_filled(N::spec_zero(), due.len());
        lemma_credit_keeps(gamma, m.mode, node, slot, g, due);
        assert(leads_alike(m, mid));
        lemma_same_legs(m, mid);
        let worth = worths(m, gamma, d, n as int, g, due);
        assert forall|x: int| 0 <= x < g.len() implies #[trigger] worth[x] == (if d == top {
            q[x]
        } else {
            worths(mid, gamma, d, top, q, zeros)[x]
        }) by {
            let legs = agents_legs(m, x as usize);
            assert(agents_legs(mid, x as usize) == legs);
            lemma_top_choice(legs, gamma, d, n as int, g[x], x as usize, due);
        }
        let b = vector_up(gamma, m, n, g, due)->Ok_0;
        if d == top {
            assert(worth =~= q);
            lemma_vector_off(gamma, mid, top as nat, q, zeros, ni as int);
        } else {
            assert(worth =~= worths(mid, gamma, d, top, q, zeros));
            assert(m.path[d].0 != m.path[top].0) by {
                assert(m.path[d].0 < m.path[top].0);
            }
            assert(mid.arena[m.path[d].0 as int] == m.arena[m.path[d].0 as int]);
            lemma_vector_worth(gamma, mid, top as nat, q, zeros, d);
        }
    }
}

proof fn lemma_credit_keeps<S, F, N: Scalar>(
    gamma: N,
    mode: TreeMode,
    node: NodeModel<S, F, N>,
    slot: usize,
    g: Seq<N>,
    due: Seq<N>,
)
    requires
        choice_up(gamma, mode, node, slot, g, due) is Ok,
    ensures
        ({
            let (next, q) = choice_up(gamma, mode, node, slot, g, due)->Ok_0;
            &&& next == (NodeModel { tables: next.tables, ..node })
            &&& q.len() == g.len()
        }),
{
    let q = choice_values(node.links[slot as int].rewards, due, gamma, g);
    if mode == TreeMode::Sim {
        lemma_joint_keeps(node, node.tables.len(), slot as nat, q);
    }
}

proof fn lemma_joint_keeps<S, F, N: Scalar>(
    node: NodeModel<S, F, N>,
    i: nat,
    rem: nat,
    g: Seq<N>,
)
    requires
        joint_credited(node, i, rem, g) is Ok,
    ensures
        ({
            let next = joint_credited(node, i, rem, g)->Ok_0;
            next == (NodeModel { tables: next.tables, ..node })
        }),
    decreases i,
{
    if i > 0 {
        let ti = (i - 1) as nat;
        let l = node.tables[ti as int].arms.len();
        let mid = credited(node, ti, rem % l, g[ti as int])->Ok_0;
        lemma_joint_keeps(mid, ti, rem / l, g);
    }
}

/// Nodes that a path does not pass are not touched.
proof fn lemma_vector_off<S, F, N: Scalar>(
    gamma: N,
    m: TreeModel<S, F, N>,
    n: nat,
    g: Seq<N>,
    due: Seq<N>,
    at: int,
)
    requires
        path_sound(m),
        n <= m.path.len(),
        vector_up(gamma, m, n, g, due) is Ok,
    ensures
        leads_alike(m, vector_up(gamma, m, n, g, due)->Ok_0),
        0 <= at < m.arena.len() && (forall|k: int|
            0 <= k < n ==> (#[trigger] m.path[k]).0 != at) ==> vector_up(gamma, m, n, g, due)->Ok_0.arena[at]
            == m.arena[at],
    decreases n,
{
    if n > 0 {
        let top = n - 1;
        let (ni, slot) = m.path[top];
        let node = m.arena[ni as int];
        assert(step_sound(m, m.path[top]));
        if node.kind is Chance {
            let more = chance_passed(m, ni as int, slot, due)->Ok_0;
            lemma_vector_off(gamma, m, top as nat, g, more, at);
        } else {
            let (next, q) = choice_up(gamma, m.mode, node, slot, g, due)->Ok_0;
            lemma_credit_keeps(gamma, m.mode, node, slot, g, due);
            let mid = with_node(m, ni as int, next);
            assert(leads_alike(m, mid));
            lemma_same_legs(m, mid);
            let zeros = spec_filled(N::spec_zero(), due.len());
            lemma_vector_off(gamma, mid, top as nat, q, zeros, at);
            if forall|k: int| 0 <= k < n ==> (#[trigger] m.path[k]).0 != at {
                assert(m.path[top].0 != at);
            }
        }
    }
}

/// What a backup of every agent's value credits, where agents move in turn: the mover of every choice
/// on the path, with the discounted sum of what that agent is paid by this choice and all later ones,
/// by chance right after them, and of its own value at the end.
pub proof fn law_turns_credit_their_mover<S, F, N: Scalar>(
    gamma: N,
    m: TreeModel<S, F, N>,
    vals: Seq<N>,
    b: TreeModel<S, F, N>,
    d: int,
)
    requires
        ring::<N>(),
        path_sound(m),
        m.mode == TreeMode::SeqMaxN,
        vals.len() == m.n_agents,
        spec_backprop_vector(gamma, m, vals) == Ok::<_, Fault>(b),
        0 <= d < m.path.len(),
        !(m.arena[m.path[d].0 as int].kind is Chance),
    ensures
        ({
            let node = m.arena[m.path[d].0 as int];
            let x = node.actor;
            &&& x < vals.len()
            &&& credits_one(
                node,
                b.arena[m.path[d].0 as int],
                0,
                m.path[d].1 as int,
                discounted(
                    agents_legs(m, x),
                    gamma,
                    d,
                    m.path.len() as int,
                    vals[x as int],
                    x,
                    m.pend_seed,
                ),
            )
        }),
{
    let mid = TreeModel { pend_seed: Seq::empty(), ..m };
    let due = added(spec_filled(N::spec_zero(), m.n_agents as nat), m.pend_seed);
    assert(leads_alike(m, mid));
    lemma_same_legs(m, mid);
    lemma_vector_worth(gamma, mid, m.path.len(), vals, due, d);
    let x = m.arena[m.path[d].0 as int].actor;
    assert(agents_legs(mid, x) == agents_legs(m, x));
    lemma_due(agents_legs(m, x), gamma, d, d, m.path.len() as int, m.pend_seed, due);
}

/// What a backup of every agent's value credits, where all move at once: every agent's own arm of the
/// joint choice, with the discounted sum of what that agent is paid.
pub proof fn law_joint_choices_are_discounted<S, F, N: Scalar>(
    gamma: N,
    m: TreeModel<S, F, N>,
    vals: Seq<N>,
    b: TreeModel<S, F, N>,
    d: int,
) -> (picks: Seq<nat>)
    requires
        ring::<N>(),
        path_sound(m),
        m.mode == TreeMode::Sim,
        vals.len() == m.n_agents,
        spec_backprop_vector(gamma, m, vals) == Ok::<_, Fault>(b),
        0 <= d < m.path.len(),
        !(m.arena[m.path[d].0 as int].kind is Chance),
        m.path[d].1 < joint_choices(
            m.arena[m.path[d].0 as int].tables,
            m.arena[m.path[d].0 as int].tables.len(),
        ),
    ensures
        ({
            let node = m.arena[m.path[d].0 as int];
            &&& picks.len() == node.tables.len()
            &&& joint_number(node.tables, picks, node.tables.len()) == m.path[d].1
            &&& forall|t: int|
                0 <= t < node.tables.len() ==> arm_credited(
                    node.tables[t],
                    (#[trigger] b.arena[m.path[d].0 as int].tables[t]),
                    picks[t] as int,
                    discounted(
                        agents_legs(m, t as usize),
                        gamma,
                        d,
                        m.path.len() as int,
                        vals[t],
                        t as usize,
                        m.pend_seed,
                    ),
                )
        }),
{
    let mid = TreeModel { pend_seed: Seq::empty(), ..m };
    let due = added(spec_filled(N::spec_zero(), m.n_agents as nat), m.pend_seed);
    assert(leads_alike(m, mid));
    lemma_same_legs(m, mid);
    lemma_vector_worth(gamma, mid, m.path.len(), vals, due, d);
    let node = m.arena[m.path[d].0 as int];
    let worth = worths(mid, gamma, d, m.path.len() as int, vals, due);
    let after = b.arena[m.path[d].0 as int];
    lemma_joint_width(node, node.tables.len(), m.path[d].1 as nat, worth);
    let picks = law_joint_choices_credit_everyone(
        node,
        node.tables.len(),
        m.path[d].1 as nat,
        worth,
        after,
    );
    assert forall|t: int| 0 <= t < node.tables.len() implies arm_credited(
        node.tables[t],
        (#[trigger] b.arena[m.path[d].0 as int].tables[t]),
        picks[t] as int,
        discounted(
            agents_legs(m, t as usize),
            gamma,
            d,
            m.path.len() as int,
            vals[t],
            t as usize,
            m.pend_seed,
        ),
    ) by {
        let x = t as usize;
        assert(agents_legs(mid, x) == agents_legs(m, x));
        lemma_due(agents_legs(m, x), gamma, d, d, m.path.len() as int, m.pend_seed, due);
        assert(worth[t] == discounted(
            agents_legs(m, x),
            gamma,
            d,
            m.path.len() as int,
            vals[t],
            x,
            due,
        ));
    }
    picks
}

/// A joint choice that could be credited has a value for every table.
proof fn lemma_joint_width<S, F, N: Scalar>(
    node: NodeModel<S, F, N>,
    i: nat,
    rem: nat,
    g: Seq<N>,
)
    requires
        joint_credited(node, i, rem, g) is Ok,
    ensures
        i <= node.tables.len(),
        i <= g.len(),
{
}

} // verus!
