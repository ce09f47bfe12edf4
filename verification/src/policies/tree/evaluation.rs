//! What a tree search says of a decision.

use vstd::prelude::*;

use super::expectimax::tree::SearchStats;
use crate::codec::bytes::{
    nums, put_i64, put_num, put_nums, put_sizes, put_u32, put_u64, sizes, DecodeFault, Reader,
};
#[allow(unused_imports)]
use crate::codec::bytes::{
    i64_bytes, joined, law_i64_round_trip, law_num_round_trip, law_nums_round_trip,
    law_sizes_round_trip, law_u32_round_trip, law_u64_round_trip, lemma_read_fails,
    lemma_read_joined, num_bytes, nums_bytes, read_each, read_i64, read_num, read_nums, read_size,
    read_sizes, read_u32, reads, reads_view, sizes_bytes, Read,
};
use crate::num::Scalar;
#[allow(unused_imports)]
use crate::num::faithful_bits;
#[allow(unused_imports)]
use crate::util::matrix;
#[allow(unused_imports)]
use vstd::bytes::{spec_u32_to_le_bytes, spec_u64_to_le_bytes};

verus! {

/// Per-decision values, visits, legality, and telemetry.
pub struct SearchEvaluation<N> {
    /// A row of action values for each head.
    pub values: Vec<Vec<N>>,
    /// Visits by action; none where the search counts none.
    pub visits: Vec<N>,
    pub legal: Vec<usize>,
    pub stats: SearchStats<N>,
}

/// An evaluation as a mathematical value.
#[verifier::ext_equal]
pub struct EvaluationModel<N> {
    pub values: Seq<Seq<N>>,
    pub visits: Seq<N>,
    pub legal: Seq<usize>,
    pub stats: SearchStats<N>,
}

impl<N> View for SearchEvaluation<N> {
    type V = EvaluationModel<N>;

    open spec fn view(&self) -> EvaluationModel<N> {
        EvaluationModel {
            values: matrix(self.values@),
            visits: self.visits@,
            legal: self.legal@,
            stats: self.stats,
        }
    }
}

/// The bytes of rows of numbers, one after the other.
pub open spec fn rows_bytes<N: Scalar>(rows: Seq<Seq<N>>) -> Seq<u8> {
    joined(rows, |row: Seq<N>| nums_bytes(row))
}

/// `k` rows of numbers.
pub open spec fn read_rows<N: Scalar>(s: Seq<u8>, k: nat) -> Read<Seq<Seq<N>>> {
    read_each(s, k, |s: Seq<u8>| read_nums::<N>(s))
}

/// Rows are read back as they were written.
pub proof fn lemma_rows_round_trip<N: Scalar>(rows: Seq<Seq<N>>, rest: Seq<u8>)
    requires
        faithful_bits::<N>(),
        forall|i: int| 0 <= i < rows.len() ==> (#[trigger] rows[i]).len() <= u32::MAX,
    ensures
        read_rows::<N>(rows_bytes(rows) + rest, rows.len()) == Ok::<_, DecodeFault>((rows, rest)),
{
    let each = |row: Seq<N>| nums_bytes(row);
    let one = |s: Seq<u8>| read_nums::<N>(s);
    assert forall|i: int, after: Seq<u8>| 0 <= i < rows.len() implies one(
        #[trigger] (each(rows[i]) + after),
    ) == Ok::<_, DecodeFault>((rows[i], after)) by {
        law_nums_round_trip(rows[i], after);
    }
    lemma_read_joined(rows, each, one, rest);
}

/// Writes rows of numbers.
pub fn put_rows<N: Scalar>(out: &mut Vec<u8>, rows: &Vec<Vec<N>>)
    ensures
        final(out)@ == old(out)@ + rows_bytes(matrix(rows@)),
{
    let ghost all = matrix(rows@);
    let ghost each = |row: Seq<N>| nums_bytes(row);
    let mut i: usize = 0;
    assert(out@ =~= old(out)@ + joined(all.take(0), each));
    while i < rows.len()
        invariant
            i <= rows@.len() == all.len(),
            all == matrix(rows@),
            each == |row: Seq<N>| nums_bytes(row),
            out@ == old(out)@ + joined(all.take(i as int), each),
        decreases rows@.len() - i,
    {
        assert(all[i as int] == rows@[i as int]@);
        put_nums(out, &rows[i]);
        i = i + 1;
        assert(all.take(i as int).drop_last() =~= all.take(i - 1));
        assert(out@ =~= old(out)@ + joined(all.take(i as int), each));
    }
    assert(all.take(i as int) =~= all);
}

/// Reads `k` rows of numbers.
pub fn take_rows<N: Scalar>(r: &mut Reader, k: u32) -> (out: Result<Vec<Vec<N>>, DecodeFault>)
    ensures
        match out {
            Ok(rows) => read_rows::<N>(old(r)@, k as nat) == Ok::<_, DecodeFault>(
                (matrix(rows@), final(r)@),
            ),
            Err(f) => read_rows::<N>(old(r)@, k as nat) == Err::<(Seq<Seq<N>>, Seq<u8>), _>(f),
        },
{
    let ghost one = |s: Seq<u8>| read_nums::<N>(s);
    let ghost start = r@;
    let mut out: Vec<Vec<N>> = Vec::new();
    let mut i: u32 = 0;
    assert(matrix(out@) =~= Seq::empty());
    while i < k
        invariant
            i <= k,
            one == |s: Seq<u8>| read_nums::<N>(s),
            start == old(r)@,
            read_each(start, i as nat, one) == Ok::<_, DecodeFault>((matrix(out@), r@)),
        decreases k - i,
    {
        let ghost before = matrix(out@);
        match nums::<N>(r) {
            Ok(row) => {
                let ghost shown = row@;
                out.push(row);
                assert(matrix(out@) =~= before.push(shown));
            },
            Err(f) => {
                proof {
                    lemma_read_fails(start, (i + 1) as nat, k as nat, one, f);
                }
                return Err(f);
            },
        }
        i = i + 1;
    }
    Ok(out)
}

/// Every number is finite.
pub open spec fn all_finite<N: Scalar>(xs: Seq<N>) -> bool {
    forall|i: int| 0 <= i < xs.len() ==> (#[trigger] xs[i]).spec_is_finite()
}

/// Whether every number is finite.
pub fn finite<N: Scalar>(xs: &[N]) -> (r: bool)
    ensures
        r == all_finite(xs@),
{
    let mut i: usize = 0;
    while i < xs.len()
        invariant
            i <= xs@.len(),
            forall|k: int| 0 <= k < i ==> (#[trigger] xs@[k]).spec_is_finite(),
        decreases xs@.len() - i,
    {
        if !xs[i].is_finite() {
            return false;
        }
        i = i + 1;
    }
    true
}

/// Every action is one of the game's.
pub open spec fn all_below(xs: Seq<usize>, end: usize) -> bool {
    forall|i: int| 0 <= i < xs.len() ==> #[trigger] xs[i] < end
}

/// Whether every action is one of the game's.
pub fn below(xs: &[usize], end: usize) -> (r: bool)
    ensures
        r == all_below(xs@, end),
{
    let mut i: usize = 0;
    while i < xs.len()
        invariant
            i <= xs@.len(),
            forall|k: int| 0 <= k < i ==> #[trigger] xs@[k] < end,
        decreases xs@.len() - i,
    {
        if xs[i] >= end {
            return false;
        }
        i = i + 1;
    }
    true
}

/// What is wrong with the first bad row from the `i`-th on, if any is: a row holds one finite
/// number for each action.
pub open spec fn bad_row<N: Scalar>(rows: Seq<Seq<N>>, actions: usize, i: nat) -> Option<
    DecodeFault,
>
    decreases rows.len() - i,
{
    if i >= rows.len() {
        None
    } else if rows[i as int].len() != actions {
        Some(DecodeFault::RowWidth)
    } else if !all_finite(rows[i as int]) {
        Some(DecodeFault::NotFinite)
    } else {
        bad_row(rows, actions, i + 1)
    }
}

/// Finds what is wrong with rows.
pub fn find_bad_row<N: Scalar>(rows: &Vec<Vec<N>>, actions: usize) -> (r: Option<DecodeFault>)
    ensures
        r == bad_row(matrix(rows@), actions, 0),
{
    let ghost all = matrix(rows@);
    let mut i: usize = 0;
    while i < rows.len()
        invariant
            i <= rows@.len() == all.len(),
            all == matrix(rows@),
            bad_row(all, actions, i as nat) == bad_row(all, actions, 0),
        decreases rows@.len() - i,
    {
        assert(all[i as int] == rows@[i as int]@);
        if rows[i].len() != actions {
            return Some(DecodeFault::RowWidth);
        }
        if !finite(&rows[i]) {
            return Some(DecodeFault::NotFinite);
        }
        i = i + 1;
    }
    None
}

/// Rows of one finite number for each action have nothing wrong.
pub proof fn lemma_good_rows<N: Scalar>(rows: Seq<Seq<N>>, actions: usize, i: nat)
    requires
        forall|k: int|
            0 <= k < rows.len() ==> (#[trigger] rows[k]).len() == actions && all_finite(rows[k]),
    ensures
        bad_row(rows, actions, i) is None,
    decreases rows.len() - i,
{
    if i < rows.len() {
        lemma_good_rows(rows, actions, i + 1);
    }
}

/// Some count is not finite, or below zero.
pub open spec fn bad_visits<N: Scalar>(xs: Seq<N>) -> bool {
    exists|i: int|
        0 <= i < xs.len() && (!(#[trigger] xs[i]).spec_is_finite() || xs[i].spec_less(
            N::spec_zero(),
        ))
}

fn any_bad_visits<N: Scalar>(xs: &[N]) -> (r: bool)
    ensures
        r == bad_visits(xs@),
{
    let mut i: usize = 0;
    while i < xs.len()
        invariant
            i <= xs@.len(),
            forall|k: int|
                0 <= k < i ==> (#[trigger] xs@[k]).spec_is_finite() && !xs@[k].spec_less(
                    N::spec_zero(),
                ),
        decreases xs@.len() - i,
    {
        if !xs[i].is_finite() || xs[i].less(N::zero()) {
            assert(!xs@[i as int].spec_is_finite() || xs@[i as int].spec_less(N::spec_zero()));
            return true;
        }
        i = i + 1;
    }
    false
}

/// The bytes of sizes, without their count.
pub open spec fn bare_sizes(xs: Seq<usize>) -> Seq<u8> {
    joined(xs, |x: usize| spec_u64_to_le_bytes(x as u64))
}

/// `n` sizes.
pub open spec fn read_bare_sizes(s: Seq<u8>, n: nat) -> Read<Seq<usize>> {
    read_each(s, n, |s: Seq<u8>| read_size(s))
}

proof fn lemma_bare_sizes(xs: Seq<usize>, rest: Seq<u8>)
    ensures
        read_bare_sizes(bare_sizes(xs) + rest, xs.len()) == Ok::<_, DecodeFault>((xs, rest)),
{
    let each = |x: usize| spec_u64_to_le_bytes(x as u64);
    let one = |s: Seq<u8>| read_size(s);
    assert forall|i: int, after: Seq<u8>| 0 <= i < xs.len() implies one(
        #[trigger] (each(xs[i]) + after),
    ) == Ok::<_, DecodeFault>((xs[i], after)) by {
        law_u64_round_trip(xs[i] as u64, after);
    }
    lemma_read_joined(xs, each, one, rest);
}

fn put_bare_sizes(out: &mut Vec<u8>, xs: &[usize])
    ensures
        final(out)@ == old(out)@ + bare_sizes(xs@),
{
    let ghost each = |x: usize| spec_u64_to_le_bytes(x as u64);
    let mut i: usize = 0;
    assert(out@ =~= old(out)@ + joined(xs@.take(0), each));
    while i < xs.len()
        invariant
            i <= xs@.len(),
            each == |x: usize| spec_u64_to_le_bytes(x as u64),
            out@ == old(out)@ + joined(xs@.take(i as int), each),
        decreases xs@.len() - i,
    {
        put_u64(out, xs[i] as u64);
        i = i + 1;
        assert(xs@.take(i as int).drop_last() =~= xs@.take(i - 1));
        assert(out@ =~= old(out)@ + joined(xs@.take(i as int), each));
    }
    assert(xs@.take(i as int) =~= xs@);
}

fn take_bare_sizes(r: &mut Reader, n: usize) -> (out: Result<Vec<usize>, DecodeFault>)
    ensures
        reads_view(out, read_bare_sizes(old(r)@, n as nat), final(r)@),
        out matches Ok(xs) ==> xs@.len() == n,
{
    let ghost one = |s: Seq<u8>| read_size(s);
    let ghost start = r@;
    let mut out: Vec<usize> = Vec::new();
    let mut i: usize = 0;
    assert(out@ =~= Seq::empty());
    while i < n
        invariant
            i <= n,
            start == old(r)@,
            out@.len() == i,
            one == |s: Seq<u8>| read_size(s),
            read_each(start, i as nat, one) == Ok::<_, DecodeFault>((out@, r@)),
        decreases n - i,
    {
        match r.size() {
            Ok(x) => out.push(x),
            Err(f) => {
                proof {
                    lemma_read_fails(start, (i + 1) as nat, n as nat, one, f);
                }
                return Err(f);
            },
        }
        i = i + 1;
    }
    Ok(out)
}

/// The bytes of telemetry.
pub open spec fn stats_bytes<N: Scalar>(st: SearchStats<N>) -> Seq<u8> {
    i64_bytes(st.max_depth as i64) + (bare_sizes(seq![st.expansions, st.leaves, st.rounds]) + (
    num_bytes(st.sigma_sum) + bare_sizes(
        seq![
            st.terminal_sims,
            st.depthcap_sims,
            st.shared_rows,
            st.fresh_rows,
            st.hit_rows,
            st.extra_eval_rows,
        ],
    )))
}

/// A depth.
pub open spec fn read_depth(s: Seq<u8>) -> Read<i32> {
    match read_i64(s) {
        Err(f) => Err(f),
        Ok((x, rest)) => if i32::MIN <= x <= i32::MAX {
            Ok((x as i32, rest))
        } else {
            Err(DecodeFault::Depth)
        },
    }
}

/// Telemetry.
pub open spec fn read_stats<N: Scalar>(s: Seq<u8>) -> Read<SearchStats<N>> {
    match read_depth(s) {
        Err(f) => Err(f),
        Ok((max_depth, s1)) => match read_bare_sizes(s1, 3) {
            Err(f) => Err(f),
            Ok((a, s2)) => match read_num::<N>(s2) {
                Err(f) => Err(f),
                Ok((sigma_sum, s3)) => match read_bare_sizes(s3, 6) {
                    Err(f) => Err(f),
                    Ok((b, s4)) => Ok(
                        (
                            SearchStats {
                                max_depth,
                                expansions: a[0],
                                leaves: a[1],
                                rounds: a[2],
                                sigma_sum,
                                terminal_sims: b[0],
                                depthcap_sims: b[1],
                                shared_rows: b[2],
                                fresh_rows: b[3],
                                hit_rows: b[4],
                                extra_eval_rows: b[5],
                            },
                            s4,
                        ),
                    ),
                },
            },
        },
    }
}

fn put_stats<N: Scalar>(out: &mut Vec<u8>, st: &SearchStats<N>)
    ensures
        final(out)@ == old(out)@ + stats_bytes(*st),
{
    put_i64(out, st.max_depth as i64);
    let work = vec![st.expansions, st.leaves, st.rounds];
    put_bare_sizes(out, &work);
    put_num(out, st.sigma_sum);
    let fates = vec![
        st.terminal_sims,
        st.depthcap_sims,
        st.shared_rows,
        st.fresh_rows,
        st.hit_rows,
        st.extra_eval_rows,
    ];
    put_bare_sizes(out, &fates);
    assert(work@ =~= seq![st.expansions, st.leaves, st.rounds]);
    assert(fates@ =~= seq![
        st.terminal_sims,
        st.depthcap_sims,
        st.shared_rows,
        st.fresh_rows,
        st.hit_rows,
        st.extra_eval_rows,
    ]);
    assert(out@ =~= old(out)@ + stats_bytes(*st));
}

fn take_stats<N: Scalar>(r: &mut Reader) -> (out: Result<SearchStats<N>, DecodeFault>)
    ensures
        reads(out, read_stats::<N>(old(r)@), final(r)@),
{
    let depth = match r.i64() {
        Ok(x) => x,
        Err(f) => return Err(f),
    };
    if depth < i32::MIN as i64 || depth > i32::MAX as i64 {
        return Err(DecodeFault::Depth);
    }
    let work = match take_bare_sizes(r, 3) {
        Ok(xs) => xs,
        Err(f) => return Err(f),
    };
    let sigma_sum = match r.num::<N>() {
        Ok(x) => x,
        Err(f) => return Err(f),
    };
    let fates = match take_bare_sizes(r, 6) {
        Ok(xs) => xs,
        Err(f) => return Err(f),
    };
    Ok(
        SearchStats {
            max_depth: depth as i32,
            expansions: work[0],
            leaves: work[1],
            rounds: work[2],
            sigma_sum,
            terminal_sims: fates[0],
            depthcap_sims: fates[1],
            shared_rows: fates[2],
            fresh_rows: fates[3],
            hit_rows: fates[4],
            extra_eval_rows: fates[5],
        },
    )
}

proof fn lemma_stats_round_trip<N: Scalar>(st: SearchStats<N>, rest: Seq<u8>)
    requires
        faithful_bits::<N>(),
    ensures
        read_stats::<N>(stats_bytes(st) + rest) == Ok::<_, DecodeFault>((st, rest)),
{
    let work = seq![st.expansions, st.leaves, st.rounds];
    let fates = seq![
        st.terminal_sims,
        st.depthcap_sims,
        st.shared_rows,
        st.fresh_rows,
        st.hit_rows,
        st.extra_eval_rows,
    ];
    let s3 = bare_sizes(fates) + rest;
    let s2 = num_bytes(st.sigma_sum) + s3;
    let s1 = bare_sizes(work) + s2;
    assert(stats_bytes(st) + rest =~= i64_bytes(st.max_depth as i64) + s1);
    law_i64_round_trip(st.max_depth as i64, s1);
    lemma_bare_sizes(work, s2);
    law_num_round_trip(st.sigma_sum, s3);
    lemma_bare_sizes(fates, rest);
}

/// The bytes of an evaluation.
pub open spec fn eval_bytes<N: Scalar>(e: EvaluationModel<N>) -> Seq<u8> {
    spec_u32_to_le_bytes(e.values.len() as u32) + (rows_bytes(e.values) + (nums_bytes(e.visits) + (
    sizes_bytes(e.legal) + stats_bytes(e.stats))))
}

/// What is wrong with the visits of an evaluation, if anything is.
pub open spec fn visits_fault<N: Scalar>(
    visits: Seq<N>,
    actions: usize,
    expect_visits: bool,
) -> Option<DecodeFault> {
    if expect_visits && visits.len() != actions {
        Some(DecodeFault::VisitWidth)
    } else if !expect_visits && visits.len() > 0 {
        Some(DecodeFault::Visits)
    } else if bad_visits(visits) {
        Some(DecodeFault::VisitCount)
    } else {
        None
    }
}

/// An evaluation of the shape that its policy and its learner need: so many heads, one finite value
/// and, where visits are kept, one count for each action, and legal actions that the game has.
pub open spec fn read_eval<N: Scalar>(
    s: Seq<u8>,
    actions: usize,
    heads: usize,
    expect_visits: bool,
) -> Read<EvaluationModel<N>> {
    match read_u32(s) {
        Err(f) => Err(f),
        Ok((k, s1)) => if k != heads {
            Err(DecodeFault::Heads)
        } else {
            match read_rows::<N>(s1, k as nat) {
                Err(f) => Err(f),
                Ok((values, s2)) => match bad_row(values, actions, 0) {
                    Some(f) => Err(f),
                    None => match read_nums::<N>(s2) {
                        Err(f) => Err(f),
                        Ok((visits, s3)) => match visits_fault(visits, actions, expect_visits) {
                            Some(f) => Err(f),
                            None => match read_sizes(s3) {
                                Err(f) => Err(f),
                                Ok((legal, s4)) => if !all_below(legal, actions) {
                                    Err(DecodeFault::ActionRange)
                                } else {
                                    match read_stats::<N>(s4) {
                                        Err(f) => Err(f),
                                        Ok((stats, s5)) => Ok(
                                            (EvaluationModel { values, visits, legal, stats }, s5),
                                        ),
                                    }
                                },
                            },
                        },
                    },
                },
            }
        },
    }
}

/// Writes an evaluation.
pub fn encode_search_eval<N: Scalar>(e: &SearchEvaluation<N>, out: &mut Vec<u8>)
    ensures
        final(out)@ == old(out)@ + eval_bytes(e@),
{
    put_u32(out, e.values.len() as u32);
    put_rows(out, &e.values);
    put_nums(out, &e.visits);
    put_sizes(out, &e.legal);
    put_stats(out, &e.stats);
    assert(out@ =~= old(out)@ + eval_bytes(e@));
}

/// Reads an evaluation, and validates the shape that the policy and the learner require.
pub fn decode_search_eval<N: Scalar>(
    r: &mut Reader,
    action_count: usize,
    expected_heads: usize,
    expect_visits: bool,
) -> (out: Result<SearchEvaluation<N>, DecodeFault>)
    ensures
        reads_view(
            out,
            read_eval::<N>(old(r)@, action_count, expected_heads, expect_visits),
            final(r)@,
        ),
{
    let k = match r.u32() {
        Ok(k) => k,
        Err(f) => return Err(f),
    };
    if k as u64 != expected_heads as u64 {
        return Err(DecodeFault::Heads);
    }
    let values = match take_rows::<N>(r, k) {
        Ok(values) => values,
        Err(f) => return Err(f),
    };
    match find_bad_row(&values, action_count) {
        Some(f) => return Err(f),
        None => {},
    }
    let visits = match nums::<N>(r) {
        Ok(visits) => visits,
        Err(f) => return Err(f),
    };
    if expect_visits {
        if visits.len() != action_count {
            return Err(DecodeFault::VisitWidth);
        }
    } else if visits.len() > 0 {
        return Err(DecodeFault::Visits);
    }
    if any_bad_visits(&visits) {
        return Err(DecodeFault::VisitCount);
    }
    let legal = match sizes(r) {
        Ok(legal) => legal,
        Err(f) => return Err(f),
    };
    if !below(&legal, action_count) {
        return Err(DecodeFault::ActionRange);
    }
    let stats = match take_stats::<N>(r) {
        Ok(stats) => stats,
        Err(f) => return Err(f),
    };
    Ok(SearchEvaluation { values, visits, legal, stats })
}

/// An evaluation has the shape that is asked of it, and its parts can be counted.
pub open spec fn shaped<N: Scalar>(
    e: EvaluationModel<N>,
    actions: usize,
    heads: usize,
    expect_visits: bool,
) -> bool {
    &&& e.values.len() == heads <= u32::MAX
    &&& actions <= u32::MAX
    &&& forall|i: int|
        0 <= i < e.values.len() ==> (#[trigger] e.values[i]).len() == actions && all_finite(
            e.values[i],
        )
    &&& visits_fault(e.visits, actions, expect_visits) is None
    &&& e.legal.len() <= u32::MAX
    &&& all_below(e.legal, actions)
}

/// An evaluation of the right shape is read back as it was written.
pub proof fn law_eval_round_trip<N: Scalar>(
    e: EvaluationModel<N>,
    actions: usize,
    heads: usize,
    expect_visits: bool,
    rest: Seq<u8>,
)
    requires
        faithful_bits::<N>(),
        shaped(e, actions, heads, expect_visits),
    ensures
        read_eval::<N>(eval_bytes(e) + rest, actions, heads, expect_visits) == Ok::<
            _,
            DecodeFault,
        >((e, rest)),
{
    let s4 = stats_bytes(e.stats) + rest;
    let s3 = sizes_bytes(e.legal) + s4;
    let s2 = nums_bytes(e.visits) + s3;
    let s1 = rows_bytes(e.values) + s2;
    assert(eval_bytes(e) + rest =~= spec_u32_to_le_bytes(e.values.len() as u32) + s1);
    law_u32_round_trip(e.values.len() as u32, s1);
    lemma_rows_round_trip(e.values, s2);
    lemma_good_rows(e.values, actions, 0);
    law_nums_round_trip(e.visits, s3);
    law_sizes_round_trip(e.legal, s4);
    lemma_stats_round_trip(e.stats, rest);
}

} // verus!
