//! From the game's action frame to the network's.

use vstd::prelude::*;

#[allow(unused_imports)]
use crate::encoder::is_identity;
use crate::fault::Fault;
use crate::num::Scalar;
use crate::util::{copied, filled};
#[allow(unused_imports)]
use crate::util::{matrix, spec_filled, viewed};

verus! {

/// `acc` with the entries of `row` from the `a`-th on, each where `perm` puts it.
pub open spec fn scattered<N>(row: Seq<N>, perm: Seq<usize>, a: nat, acc: Seq<N>) -> Result<
    Seq<N>,
    Fault,
>
    decreases row.len() - a,
{
    if a >= row.len() {
        Ok(acc)
    } else if a >= perm.len() {
        Err(Fault::ActionRange)
    } else if perm[a as int] >= acc.len() {
        Err(Fault::HeadRange)
    } else {
        scattered(row, perm, a + 1, acc.update(perm[a as int] as int, row[a as int]))
    }
}

/// A row in the network's frame. A permutation that moves nothing changes nothing.
pub open spec fn in_head_frame<N: Scalar>(row: Seq<N>, perm: Seq<usize>) -> Result<Seq<N>, Fault> {
    if is_identity(perm) {
        Ok(row)
    } else {
        scattered(row, perm, 0, spec_filled(N::spec_zero(), row.len()))
    }
}

/// A permutation of a row's actions: each has a head of its own.
pub open spec fn permutes(perm: Seq<usize>, n: nat) -> bool {
    &&& perm.len() == n
    &&& forall|i: int| 0 <= i < n ==> #[trigger] perm[i] < n
    &&& forall|i: int, j: int| 0 <= i < j < n ==> #[trigger] perm[i] != #[trigger] perm[j]
}

/// Under a permutation every action's entry stands at its head.
pub proof fn law_head_frame<N: Scalar>(row: Seq<N>, perm: Seq<usize>)
    requires
        permutes(perm, row.len()),
    ensures
        in_head_frame(row, perm) matches Ok(out) && out.len() == row.len() && forall|a: int|
            0 <= a < row.len() ==> out[(#[trigger] perm[a]) as int] == row[a],
{
    if !is_identity(perm) {
        lemma_scattered(row, perm, 0, spec_filled(N::spec_zero(), row.len()));
    }
}

proof fn lemma_scattered<N>(row: Seq<N>, perm: Seq<usize>, a: nat, acc: Seq<N>)
    requires
        permutes(perm, row.len()),
        acc.len() == row.len(),
        a <= row.len(),
        forall|i: int| 0 <= i < a ==> acc[(#[trigger] perm[i]) as int] == row[i],
    ensures
        scattered(row, perm, a, acc) matches Ok(out) && out.len() == row.len() && forall|i: int|
            0 <= i < row.len() ==> out[(#[trigger] perm[i]) as int] == row[i],
    decreases row.len() - a,
{
    if a < row.len() {
        let next = acc.update(perm[a as int] as int, row[a as int]);
        assert forall|i: int| 0 <= i < a + 1 implies next[(#[trigger] perm[i]) as int] == row[i] by {
            if i < a {
                assert(perm[i] != perm[a as int]);
            }
        }
        lemma_scattered(row, perm, a + 1, next);
    }
}

/// Puts a row into the network's frame.
#[verifier::loop_isolation(false)]
pub fn to_head_row<N: Scalar>(row: &[N], perm: &[usize], identity: bool) -> (r: Result<
    Vec<N>,
    Fault,
>)
    requires
        identity == is_identity(perm@),
    ensures
        viewed(r) == in_head_frame(row@, perm@),
{
    if identity {
        return Ok(copied(row));
    }
    let n = row.len();
    let mut out = filled(N::zero(), n);
    let mut a: usize = 0;
    while a < n
        invariant
            a <= n == row@.len(),
            out@.len() == n,
            scattered(row@, perm@, a as nat, out@) == in_head_frame(row@, perm@),
        decreases n - a,
    {
        if a >= perm.len() {
            return Err(Fault::ActionRange);
        }
        if perm[a] >= n {
            return Err(Fault::HeadRange);
        }
        out.set(perm[a], row[a]);
        a = a + 1;
    }
    Ok(out)
}

/// Rows in the network's frame, from the `h`-th on.
pub open spec fn rows_in_head_frame<N: Scalar>(
    rows: Seq<Seq<N>>,
    perm: Seq<usize>,
    h: nat,
    acc: Seq<Seq<N>>,
) -> Result<Seq<Seq<N>>, Fault>
    decreases rows.len() - h,
{
    if h >= rows.len() {
        Ok(acc)
    } else {
        match in_head_frame(rows[h as int], perm) {
            Err(f) => Err(f),
            Ok(row) => rows_in_head_frame(rows, perm, h + 1, acc.push(row)),
        }
    }
}

/// Values in the network's frame.
pub open spec fn values_in_head_frame<N: Scalar>(rows: Seq<Seq<N>>, perm: Seq<usize>) -> Result<
    Seq<Seq<N>>,
    Fault,
> {
    rows_in_head_frame(rows, perm, 0, Seq::empty())
}

/// Puts rows into the network's frame.
#[verifier::loop_isolation(false)]
pub fn to_head_frame<N: Scalar>(values: &Vec<Vec<N>>, perm: &[usize], identity: bool) -> (r: Result<
    Vec<Vec<N>>,
    Fault,
>)
    requires
        identity == is_identity(perm@),
    ensures
        match r {
            Ok(out) => values_in_head_frame(matrix(values@), perm@) == Ok::<_, Fault>(matrix(out@)),
            Err(f) => values_in_head_frame(matrix(values@), perm@) == Err::<Seq<Seq<N>>, _>(f),
        },
{
    let ghost rows = matrix(values@);
    let mut out: Vec<Vec<N>> = Vec::new();
    assert(matrix(out@) =~= Seq::empty());
    let mut h: usize = 0;
    while h < values.len()
        invariant
            h <= values@.len(),
            rows_in_head_frame(rows, perm@, h as nat, matrix(out@)) == values_in_head_frame(
                rows,
                perm@,
            ),
        decreases values@.len() - h,
    {
        assert(rows[h as int] == values@[h as int]@);
        let ghost before = matrix(out@);
        match to_head_row(&values[h], perm, identity) {
            Ok(row) => {
                let ghost shown = row@;
                out.push(row);
                assert(matrix(out@) =~= before.push(shown));
            },
            Err(f) => return Err(f),
        }
        h = h + 1;
    }
    Ok(out)
}

/// The heads of actions, from the `i`-th on.
pub open spec fn ids_mapped(ids: Seq<usize>, perm: Seq<usize>, i: nat, acc: Seq<usize>) -> Result<
    Seq<usize>,
    Fault,
>
    decreases ids.len() - i,
{
    if i >= ids.len() {
        Ok(acc)
    } else if ids[i as int] >= perm.len() {
        Err(Fault::ActionRange)
    } else {
        ids_mapped(ids, perm, i + 1, acc.push(perm[ids[i as int] as int]))
    }
}

/// Actions in the network's frame.
pub open spec fn ids_in_head_frame(ids: Seq<usize>, perm: Seq<usize>) -> Result<Seq<usize>, Fault> {
    if is_identity(perm) {
        Ok(ids)
    } else {
        ids_mapped(ids, perm, 0, Seq::empty())
    }
}

/// Puts actions into the network's frame.
#[verifier::loop_isolation(false)]
pub fn to_head_ids(ids: &[usize], perm: &[usize], identity: bool) -> (r: Result<Vec<usize>, Fault>)
    requires
        identity == is_identity(perm@),
    ensures
        viewed(r) == ids_in_head_frame(ids@, perm@),
{
    if identity {
        return Ok(copied(ids));
    }
    let mut out: Vec<usize> = Vec::new();
    assert(out@ =~= Seq::empty());
    let mut i: usize = 0;
    while i < ids.len()
        invariant
            i <= ids@.len(),
            ids_mapped(ids@, perm@, i as nat, out@) == ids_in_head_frame(ids@, perm@),
        decreases ids@.len() - i,
    {
        if ids[i] >= perm.len() {
            return Err(Fault::ActionRange);
        }
        out.push(perm[ids[i]]);
        i = i + 1;
    }
    Ok(out)
}

} // verus!
