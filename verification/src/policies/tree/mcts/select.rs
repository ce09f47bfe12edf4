//! Which arm a simulation takes.

use vstd::prelude::*;

use super::tree::{Arm, Table};
#[allow(unused_imports)]
use super::tree::{table_models, TableModel};
use crate::fault::Fault;
use crate::num::{weakly_ordered, Scalar};
use crate::policy::MAX_JOINT_SLOTS;

verus! {

/// Search guidance and leaf-output contract.
#[derive(Clone, Copy)]
pub enum Guidance<N> {
    Uct { c: N },
    /// `noise` is the weight, the concentration and the seed of the root noise; `noise_all` noises
    /// every agent's root priors, not the requester's alone.
    Puct { c: N, noise: Option<(N, N, u64)>, noise_all: bool },
}

/// A total, not below one.
pub open spec fn at_least_one(total: u32) -> u32 {
    if total == 0 {
        1
    } else {
        total
    }
}

/// How promising an arm is. `ln` is the logarithm of the total.
pub open spec fn arm_score<N: Scalar>(arm: Arm<N>, total: u32, guidance: Guidance<N>, ln: N) -> N {
    let n = N::spec_count(arm.visits as u64);
    match guidance {
        Guidance::Uct { c } => if arm.visits == 0 {
            N::spec_highest()
        } else {
            arm.value_sum.spec_over(n).spec_plus(c.spec_times(ln.spec_over(n).spec_root()))
        },
        Guidance::Puct { c, .. } => {
            let q = if arm.visits > 0 {
                arm.value_sum.spec_over(n)
            } else {
                N::spec_zero()
            };
            let root = N::spec_count(at_least_one(total) as u64).spec_root();
            q.spec_plus(
                c.spec_times(arm.prior).spec_times(root).spec_over(N::spec_one().spec_plus(n)),
            )
        },
    }
}

/// The best of the arms from `i` on, `best` with `top` being the best before: a later arm wins only
/// where its score is above.
pub open spec fn best_arm<N: Scalar>(
    arms: Seq<Arm<N>>,
    total: u32,
    guidance: Guidance<N>,
    ln: N,
    i: nat,
    best: nat,
    top: N,
) -> nat
    decreases arms.len() - i,
{
    if i >= arms.len() {
        best
    } else {
        let score = arm_score(arms[i as int], total, guidance, ln);
        if top.spec_less(score) {
            best_arm(arms, total, guidance, ln, i + 1, i, score)
        } else {
            best_arm(arms, total, guidance, ln, i + 1, best, top)
        }
    }
}

/// The arm that a table takes.
pub open spec fn chosen_arm<N: Scalar>(t: TableModel<N>, guidance: Guidance<N>, ln: N) -> nat {
    best_arm(t.arms, t.total_visits, guidance, ln, 0, 0, N::spec_lowest())
}

/// Takes the best arm.
pub fn select_scored<N: Scalar>(t: &Table<N>, guidance: &Guidance<N>, ln: N) -> (r: usize)
    ensures
        r == chosen_arm(t@, *guidance, ln),
        r == 0 || r < t@.arms.len(),
{
    let total = if t.total_visits == 0 {
        1u32
    } else {
        t.total_visits
    };
    let mut best: usize = 0;
    let mut top = N::lowest();
    let mut i: usize = 0;
    while i < t.arms.len()
        invariant
            i <= t.arms@.len(),
            best == 0 || best < t.arms@.len(),
            total == at_least_one(t.total_visits),
            best_arm(t.arms@, t.total_visits, *guidance, ln, i as nat, best as nat, top)
                == chosen_arm(t@, *guidance, ln),
        decreases t.arms@.len() - i,
    {
        let arm = t.arms[i];
        let n = N::count(arm.visits as u64);
        let score = match guidance {
            Guidance::Uct { c } => {
                if arm.visits == 0 {
                    N::highest()
                } else {
                    arm.value_sum.over(n).plus(c.times(ln.over(n).root()))
                }
            },
            Guidance::Puct { c, .. } => {
                let q = if arm.visits > 0 {
                    arm.value_sum.over(n)
                } else {
                    N::zero()
                };
                let root = N::count(total as u64).root();
                q.plus(c.times(arm.prior).times(root).over(N::one().plus(n)))
            },
        };
        if top.less(score) {
            top = score;
            best = i;
        }
        i = i + 1;
    }
    best
}

/// Among scores that are numbers, the chosen arm's is the first that none is above, wherever some
/// score is above the lowest number.
pub proof fn law_chosen_arm<N: Scalar>(t: TableModel<N>, guidance: Guidance<N>, ln: N)
    requires
        weakly_ordered::<N>(),
        N::spec_lowest().spec_is_number(),
        forall|i: int|
            0 <= i < t.arms.len() ==> arm_score(
                #[trigger] t.arms[i],
                t.total_visits,
                guidance,
                ln,
            ).spec_is_number(),
        exists|i: int|
            0 <= i < t.arms.len() && N::spec_lowest().spec_less(
                arm_score(#[trigger] t.arms[i], t.total_visits, guidance, ln),
            ),
    ensures
        chosen_arm(t, guidance, ln) < t.arms.len(),
        forall|i: int|
            0 <= i < t.arms.len() ==> !arm_score(
                t.arms[chosen_arm(t, guidance, ln) as int],
                t.total_visits,
                guidance,
                ln,
            ).spec_less(arm_score(#[trigger] t.arms[i], t.total_visits, guidance, ln)),
{
    let w = choose|i: int|
        0 <= i < t.arms.len() && N::spec_lowest().spec_less(
            arm_score(#[trigger] t.arms[i], t.total_visits, guidance, ln),
        );
    lemma_best_arm(t.arms, t.total_visits, guidance, ln, 0, 0, N::spec_lowest(), w);
}

proof fn lemma_best_arm<N: Scalar>(
    arms: Seq<Arm<N>>,
    total: u32,
    guidance: Guidance<N>,
    ln: N,
    i: nat,
    best: nat,
    top: N,
    w: int,
)
    requires
        weakly_ordered::<N>(),
        i <= arms.len(),
        top.spec_is_number(),
        forall|j: int|
            0 <= j < arms.len() ==> arm_score(
                #[trigger] arms[j],
                total,
                guidance,
                ln,
            ).spec_is_number(),
        forall|j: int|
            0 <= j < i ==> !top.spec_less(arm_score(#[trigger] arms[j], total, guidance, ln)),
        (best < arms.len() && top == arm_score(arms[best as int], total, guidance, ln)) || (i <= w
            < arms.len() && top.spec_less(arm_score(arms[w], total, guidance, ln))),
    ensures
        best_arm(arms, total, guidance, ln, i, best, top) < arms.len(),
        forall|j: int|
            0 <= j < arms.len() ==> !arm_score(
                arms[best_arm(arms, total, guidance, ln, i, best, top) as int],
                total,
                guidance,
                ln,
            ).spec_less(arm_score(#[trigger] arms[j], total, guidance, ln)),
    decreases arms.len() - i,
{
    if i < arms.len() {
        let score = arm_score(arms[i as int], total, guidance, ln);
        if top.spec_less(score) {
            assert forall|j: int| 0 <= j < i + 1 implies !score.spec_less(
                arm_score(#[trigger] arms[j], total, guidance, ln),
            ) by {
                if j < i {
                    let other = arm_score(arms[j], total, guidance, ln);
                    assert(!top.spec_less(other));
                    assert(!score.spec_less(top));
                }
            }
            lemma_best_arm(arms, total, guidance, ln, i + 1, i, score, w);
        } else {
            lemma_best_arm(arms, total, guidance, ln, i + 1, best, top, w);
        }
    }
}

/// The logarithm that a selection at `total` visits takes, out of a table of logarithms.
pub open spec fn log_at<N: Scalar>(guidance: Guidance<N>, logs: Seq<N>, total: u32) -> Result<
    N,
    Fault,
> {
    if guidance is Uct {
        if at_least_one(total) < logs.len() {
            Ok(logs[at_least_one(total) as int])
        } else {
            Err(Fault::VisitCount)
        }
    } else {
        Ok(N::spec_zero())
    }
}

/// The link that the tables from the `i`-th on choose together, the last varying fastest.
pub open spec fn joint_choice<N: Scalar>(
    tables: Seq<TableModel<N>>,
    guidance: Guidance<N>,
    logs: Seq<N>,
    i: nat,
    acc: nat,
) -> Result<nat, Fault>
    decreases tables.len() - i,
{
    if i >= tables.len() {
        Ok(acc)
    } else {
        let t = tables[i as int];
        match log_at(guidance, logs, t.total_visits) {
            Err(f) => Err(f),
            Ok(ln) => {
                let next = acc * t.arms.len() + chosen_arm(t, guidance, ln);
                if next > MAX_JOINT_SLOTS {
                    Err(Fault::JointLimit)
                } else {
                    joint_choice(tables, guidance, logs, i + 1, next)
                }
            },
        }
    }
}

/// Chooses an arm of every table.
#[verifier::loop_isolation(false)]
pub fn choose_link<N: Scalar>(tables: &Vec<Table<N>>, guidance: &Guidance<N>, logs: &[N]) -> (r:
    Result<usize, Fault>)
    ensures
        match r {
            Ok(js) => joint_choice(table_models(tables@), *guidance, logs@, 0, 0) == Ok::<_, Fault>(
                js as nat,
            ),
            Err(f) => joint_choice(table_models(tables@), *guidance, logs@, 0, 0) == Err::<nat, _>(
                f,
            ),
        },
{
    let ghost models = table_models(tables@);
    let mut acc: usize = 0;
    let mut i: usize = 0;
    while i < tables.len()
        invariant
            i <= tables@.len(),
            acc <= MAX_JOINT_SLOTS,
            joint_choice(models, *guidance, logs@, i as nat, acc as nat) == joint_choice(
                models,
                *guidance,
                logs@,
                0,
                0,
            ),
        decreases tables@.len() - i,
    {
        let t = &tables[i];
        assert(models[i as int] == t@);
        let ln = match guidance {
            Guidance::Uct { .. } => {
                let at = if t.total_visits == 0 {
                    1usize
                } else {
                    t.total_visits as usize
                };
                if at >= logs.len() {
                    return Err(Fault::VisitCount);
                }
                logs[at]
            },
            Guidance::Puct { .. } => N::zero(),
        };
        let arm = select_scored(t, guidance, ln);
        let width = t.arms.len();
        proof {
            assert(0 <= acc * width <= 0x10_0000 * 0xffff_ffff_ffff_ffff) by (nonlinear_arith)
                requires
                    0 <= acc <= 0x10_0000,
                    0 <= width <= 0xffff_ffff_ffff_ffff,
            ;
        }
        let next: u128 = (acc as u128) * (width as u128) + (arm as u128);
        if next > MAX_JOINT_SLOTS as u128 {
            return Err(Fault::JointLimit);
        }
        acc = next as usize;
        i = i + 1;
    }
    Ok(acc)
}

/// A source of logarithms.
pub trait Ln<N: Scalar> {
    fn ln(&self, x: N) -> N;
}

/// `logs` holds a logarithm for every count below `n`, of at least one.
pub open spec fn logs_of<N: Scalar, L: Ln<N>>(ln: L, logs: Seq<N>, n: nat) -> bool {
    logs.len() == n && forall|i: int|
        0 <= i < n ==> call_ensures(
            L::ln,
            (
                &ln,
                N::spec_count(
                    if i == 0 {
                        1
                    } else {
                        i as u64
                    },
                ),
            ),
            #[trigger] logs[i],
        )
}

/// The logarithms of the counts up to `top`.
pub fn log_table<N: Scalar, L: Ln<N>>(ln: &L, top: usize) -> (r: Vec<N>)
    requires
        top < usize::MAX,
    ensures
        logs_of(*ln, r@, top as nat + 1),
{
    let mut r: Vec<N> = Vec::new();
    let mut i: usize = 0;
    while i < top + 1
        invariant
            i <= top + 1,
            top < usize::MAX,
            logs_of(*ln, r@, i as nat),
        decreases top + 1 - i,
    {
        let at = if i == 0 {
            1u64
        } else {
            i as u64
        };
        let x = ln.ln(N::count(at));
        r.push(x);
        i = i + 1;
    }
    r
}

} // verus!
