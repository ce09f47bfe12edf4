//! Stable sorting of indices.

use vstd::prelude::*;

verus! {

/// Which of two indices comes first.
pub type Before = spec_fn(usize, usize) -> bool;

/// A strict order on indices.
pub trait Precedence {
    open spec fn relation(&self) -> Before {
        arbitrary()
    }

    /// The indices that the order is made for.
    open spec fn covers(&self, a: usize) -> bool {
        arbitrary()
    }

    fn before(&self, a: usize, b: usize) -> (r: bool)
        requires
            self.covers(a),
            self.covers(b),
        ensures
            r == self.relation()(a, b),
    ;
}

/// `list` with `x` placed behind the last element that `x` does not precede.
pub open spec fn placed(before: Before, list: Seq<usize>, x: usize) -> Seq<usize>
    decreases list.len(),
{
    if list.len() == 0 || !before(x, list.last()) {
        list.push(x)
    } else {
        placed(before, list.drop_last(), x).push(list.last())
    }
}

/// `items` in order, equals staying as they came.
pub open spec fn sorted(before: Before, items: Seq<usize>) -> Seq<usize>
    decreases items.len(),
{
    if items.len() == 0 {
        Seq::empty()
    } else {
        placed(before, sorted(before, items.drop_last()), items.last())
    }
}

proof fn lemma_placed(before: Before, list: Seq<usize>, x: usize, at: int)
    requires
        0 <= at <= list.len(),
        forall|i: int| at <= i < list.len() ==> before(x, #[trigger] list[i]),
        at > 0 ==> !before(x, list[at - 1]),
    ensures
        placed(before, list, x) == list.insert(at, x),
    decreases list.len(),
{
    if at == list.len() {
        assert(list.insert(at, x) =~= list.push(x));
    } else {
        lemma_placed(before, list.drop_last(), x, at);
        assert(list.insert(at, x) =~= list.drop_last().insert(at, x).push(list.last()));
    }
}

/// Placing adds exactly the element placed.
pub proof fn lemma_placed_multiset(before: Before, list: Seq<usize>, x: usize)
    ensures
        placed(before, list, x).to_multiset() == list.to_multiset().insert(x),
        placed(before, list, x).len() == list.len() + 1,
    decreases list.len(),
{
    broadcast use vstd::seq_lib::group_to_multiset_ensures;

    if list.len() == 0 || !before(x, list.last()) {
    } else {
        lemma_placed_multiset(before, list.drop_last(), x);
        assert(list =~= list.drop_last().push(list.last()));
        assert(list.to_multiset() == list.drop_last().to_multiset().insert(list.last()));
        assert(placed(before, list, x).to_multiset() =~= list.to_multiset().insert(x));
    }
}

/// Sorting permutes.
pub proof fn law_sorted_permutes(before: Before, items: Seq<usize>)
    ensures
        sorted(before, items).to_multiset() == items.to_multiset(),
        sorted(before, items).len() == items.len(),
    decreases items.len(),
{
    broadcast use vstd::seq_lib::group_to_multiset_ensures;

    if items.len() > 0 {
        law_sorted_permutes(before, items.drop_last());
        lemma_placed_multiset(before, sorted(before, items.drop_last()), items.last());
        assert(items =~= items.drop_last().push(items.last()));
    } else {
        assert(items =~= Seq::empty());
    }
}

/// Sorting keeps whatever holds of every element.
pub proof fn lemma_sorted_all(before: Before, items: Seq<usize>, p: spec_fn(usize) -> bool)
    requires
        forall|i: int| 0 <= i < items.len() ==> p(#[trigger] items[i]),
    ensures
        sorted(before, items).len() == items.len(),
        forall|i: int| 0 <= i < items.len() ==> p(#[trigger] sorted(before, items)[i]),
    decreases items.len(),
{
    if items.len() > 0 {
        lemma_sorted_all(before, items.drop_last(), p);
        lemma_placed_all(before, sorted(before, items.drop_last()), items.last(), p);
    }
}

proof fn lemma_placed_all(
    before: Before,
    list: Seq<usize>,
    x: usize,
    p: spec_fn(usize) -> bool,
)
    requires
        p(x),
        forall|i: int| 0 <= i < list.len() ==> p(#[trigger] list[i]),
    ensures
        placed(before, list, x).len() == list.len() + 1,
        forall|i: int| 0 <= i < list.len() + 1 ==> p(#[trigger] placed(before, list, x)[i]),
    decreases list.len(),
{
    if list.len() > 0 && before(x, list.last()) {
        lemma_placed_all(before, list.drop_last(), x, p);
    }
}

/// No element precedes one that stands before it.
pub open spec fn in_order(before: Before, list: Seq<usize>) -> bool {
    forall|i: int, j: int|
        0 <= i < j < list.len() ==> !before(#[trigger] list[j], #[trigger] list[i])
}

/// A strict weak order on what it covers.
pub open spec fn weak_order(before: Before, covers: spec_fn(usize) -> bool) -> bool {
    &&& forall|a: usize, b: usize|
        covers(a) && covers(b) && #[trigger] before(a, b)
            ==> !before(b, a)
    &&& forall|a: usize, b: usize, c: usize|
        covers(a) && covers(b) && covers(c) && !#[trigger] before(b, a)
            && !#[trigger] before(c, b) ==> !before(c, a)
}

/// Under a strict weak order, sorting puts in order.
pub proof fn law_sorted_in_order(
    before: Before,
    covers: spec_fn(usize) -> bool,
    items: Seq<usize>,
)
    requires
        weak_order(before, covers),
        forall|i: int| 0 <= i < items.len() ==> covers(#[trigger] items[i]),
    ensures
        in_order(before, sorted(before, items)),
    decreases items.len(),
{
    if items.len() > 0 {
        let done = sorted(before, items.drop_last());
        law_sorted_in_order(before, covers, items.drop_last());
        lemma_sorted_all(before, items.drop_last(), covers);
        lemma_placed_in_order(before, covers, done, items.last());
    }
}

proof fn lemma_placed_in_order(
    before: Before,
    covers: spec_fn(usize) -> bool,
    list: Seq<usize>,
    x: usize,
)
    requires
        weak_order(before, covers),
        covers(x),
        forall|i: int| 0 <= i < list.len() ==> covers(#[trigger] list[i]),
        in_order(before, list),
    ensures
        in_order(before, placed(before, list, x)),
    decreases list.len(),
{
    let out = placed(before, list, x);
    if list.len() == 0 {
    } else if !before(x, list.last()) {
        assert forall|i: int, j: int| 0 <= i < j < out.len() implies !before(
            #[trigger] out[j],
            #[trigger] out[i],
        ) by {
            if j == list.len() && i < list.len() - 1 {
                assert(!before(list.last(), list[i]));
            }
        }
    } else {
        let rest = list.drop_last();
        lemma_placed_in_order(before, covers, rest, x);
        let p = |y: usize| covers(y) && !before(list.last(), y);
        assert(!before(list.last(), x));
        assert forall|i: int| 0 <= i < rest.len() implies p(#[trigger] rest[i]) by {
            assert(rest[i] == list[i]);
        }
        lemma_placed_all(before, rest, x, p);
    }
}

/// Sorts indices, equals staying as they came.
pub fn stable_sort<P: Precedence>(items: &[usize], order: &P) -> (r: Vec<usize>)
    requires
        forall|i: int| 0 <= i < items@.len() ==> order.covers(#[trigger] items@[i]),
    ensures
        r@ == sorted(order.relation(), items@),
{
    let mut r: Vec<usize> = Vec::new();
    let mut i: usize = 0;
    while i < items.len()
        invariant
            i <= items@.len(),
            r@.len() == i,
            r@ == sorted(order.relation(), items@.take(i as int)),
            forall|k: int| 0 <= k < items@.len() ==> order.covers(#[trigger] items@[k]),
        decreases items.len() - i,
    {
        proof {
            assert(items@.take(i + 1).drop_last() =~= items@.take(i as int));
            lemma_sorted_all(
                order.relation(),
                items@.take(i as int),
                |x: usize| order.covers(x),
            );
        }
        let x = items[i];
        let mut at: usize = r.len();
        while at > 0 && order.before(x, r[at - 1])
            invariant
                at <= r@.len(),
                order.covers(x),
                forall|k: int| 0 <= k < r@.len() ==> order.covers(#[trigger] r@[k]),
                forall|k: int| at <= k < r@.len() ==> order.relation()(x, #[trigger] r@[k]),
            decreases at,
        {
            at = at - 1;
        }
        proof {
            lemma_placed(order.relation(), r@, x, at as int);
        }
        r.insert(at, x);
        i = i + 1;
    }
    assert(items@.take(i as int) =~= items@);
    r
}

/// The order of the integers.
pub struct Ascending;

impl Precedence for Ascending {
    open spec fn relation(&self) -> Before {
        |a: usize, b: usize| a < b
    }

    open spec fn covers(&self, a: usize) -> bool {
        true
    }

    fn before(&self, a: usize, b: usize) -> (r: bool) {
        a < b
    }
}

} // verus!
