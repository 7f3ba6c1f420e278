//! Finite sums, and arithmetic modulo the width of an accumulator lane.

use vstd::prelude::*;

verus! {

/// The value of `x` once reduced to the width of an accumulator lane, in two's complement.
pub open spec fn wrap_i16(x: int) -> i16 {
    (((x + 0x8000) % 0x1_0000) - 0x8000) as i16
}

/// The sum of `weight` over the items of `items`.
pub open spec fn sum_of<T>(items: Seq<T>, weight: spec_fn(T) -> int) -> int
    decreases items.len(),
{
    if items.len() == 0 {
        0
    } else {
        sum_of(items.drop_last(), weight) + weight(items.last())
    }
}

/// Reducing a part of a sum before the rest is added does not change the reduced sum.
pub proof fn lemma_wrap_absorbs(x: int, y: int)
    ensures
        wrap_i16(wrap_i16(x) + y) == wrap_i16(x + y),
        wrap_i16(wrap_i16(x) - y) == wrap_i16(x - y),
{
}

/// A value that fits a lane is its own reduction.
pub proof fn lemma_wrap_fits(x: i16)
    ensures
        wrap_i16(x as int) == x,
{
}

pub proof fn lemma_sum_push<T>(items: Seq<T>, item: T, weight: spec_fn(T) -> int)
    ensures
        sum_of(items.push(item), weight) == sum_of(items, weight) + weight(item),
{
    assert(items.push(item).drop_last() =~= items);
}

/// The sum over the first `k + 1` items is the sum over the first `k`, and the next.
pub proof fn lemma_sum_take<T>(items: Seq<T>, k: int, weight: spec_fn(T) -> int)
    requires
        0 <= k < items.len(),
    ensures
        sum_of(items.take(k + 1), weight) == sum_of(items.take(k), weight) + weight(items[k]),
{
    assert(items.take(k + 1).drop_last() =~= items.take(k));
}

pub proof fn lemma_sum_concat<T>(s: Seq<T>, t: Seq<T>, weight: spec_fn(T) -> int)
    ensures
        sum_of(s + t, weight) == sum_of(s, weight) + sum_of(t, weight),
    decreases t.len(),
{
    if t.len() == 0 {
        assert(s + t =~= s);
    } else {
        lemma_sum_concat(s, t.drop_last(), weight);
        assert((s + t).drop_last() =~= s + t.drop_last());
    }
}

/// Items of equal weight sum equally.
pub proof fn lemma_sum_of_same<S, T>(
    s: Seq<S>,
    t: Seq<T>,
    s_weight: spec_fn(S) -> int,
    t_weight: spec_fn(T) -> int,
)
    requires
        s.len() == t.len(),
        forall|i: int| 0 <= i < s.len() ==> s_weight(#[trigger] s[i]) == t_weight(t[i]),
    ensures
        sum_of(s, s_weight) == sum_of(t, t_weight),
    decreases s.len(),
{
    if s.len() > 0 {
        assert forall|i: int| 0 <= i < s.drop_last().len() implies s_weight(
            #[trigger] s.drop_last()[i],
        ) == t_weight(t.drop_last()[i]) by {
            assert(s.drop_last()[i] == s[i]);
        }
        lemma_sum_of_same(s.drop_last(), t.drop_last(), s_weight, t_weight);
        assert(s.last() == s[s.len() - 1]);
    }
}

/// Items of weight one sum to their number.
pub proof fn lemma_sum_of_ones<T>(s: Seq<T>)
    ensures
        sum_of(s, |x: T| 1int) == s.len(),
    decreases s.len(),
{
    if s.len() > 0 {
        lemma_sum_of_ones(s.drop_last());
    }
}

/// The sum of `term` over the squares from `i` on.
pub open spec fn sum_from(term: spec_fn(int) -> int, i: int) -> int
    decreases 64 - i,
{
    if i >= 64 {
        0
    } else {
        term(i) + sum_from(term, i + 1)
    }
}

/// The sum of `term` over all squares.
pub open spec fn sum_squares(term: spec_fn(int) -> int) -> int {
    sum_from(term, 0)
}

/// The sum of `term` over all ordered pairs of squares.
pub open spec fn sum_pairs(term: spec_fn(int, int) -> int) -> int {
    sum_squares(|a: int| sum_squares(|b: int| term(a, b)))
}

/// The lists of the squares from `i` on, one behind the other.
pub open spec fn list_from(lists: spec_fn(int) -> Seq<u32>, i: int) -> Seq<u32>
    decreases 64 - i,
{
    if i >= 64 {
        Seq::empty()
    } else {
        lists(i) + list_from(lists, i + 1)
    }
}

/// The lists of all squares, one behind the other.
pub open spec fn list_squares(lists: spec_fn(int) -> Seq<u32>) -> Seq<u32> {
    list_from(lists, 0)
}

/// Squares with an empty list may be skipped.
pub proof fn lemma_list_skip(lists: spec_fn(int) -> Seq<u32>, i: int, j: int)
    requires
        0 <= i <= j <= 64,
        forall|t: int| i <= t < j ==> (#[trigger] lists(t)).len() == 0,
    ensures
        list_from(lists, i) == list_from(lists, j),
    decreases j - i,
{
    if i < j {
        lemma_list_skip(lists, i + 1, j);
        assert(lists(i) + list_from(lists, i + 1) =~= list_from(lists, i + 1));
    }
}

/// The sum over joined lists is the sum of their sums.
pub proof fn lemma_list_sum(
    lists: spec_fn(int) -> Seq<u32>,
    weight: spec_fn(u32) -> int,
    term: spec_fn(int) -> int,
    i: int,
)
    requires
        0 <= i <= 64,
        forall|t: int| i <= t < 64 ==> sum_of(#[trigger] lists(t), weight) == term(t),
    ensures
        sum_of(list_from(lists, i), weight) == sum_from(term, i),
    decreases 64 - i,
{
    if i < 64 {
        lemma_list_sum(lists, weight, term, i + 1);
        lemma_sum_concat(lists(i), list_from(lists, i + 1), weight);
    }
}

pub proof fn lemma_sum_same(f: spec_fn(int) -> int, g: spec_fn(int) -> int, i: int)
    requires
        0 <= i <= 64,
        forall|t: int| i <= t < 64 ==> #[trigger] f(t) == g(t),
    ensures
        sum_from(f, i) == sum_from(g, i),
    decreases 64 - i,
{
    if i < 64 {
        lemma_sum_same(f, g, i + 1);
    }
}

pub proof fn lemma_sum_add(
    f: spec_fn(int) -> int,
    g: spec_fn(int) -> int,
    h: spec_fn(int) -> int,
    i: int,
)
    requires
        0 <= i <= 64,
        forall|t: int| i <= t < 64 ==> #[trigger] h(t) == f(t) + g(t),
    ensures
        sum_from(h, i) == sum_from(f, i) + sum_from(g, i),
    decreases 64 - i,
{
    if i < 64 {
        lemma_sum_add(f, g, h, i + 1);
    }
}

pub proof fn lemma_sum_zero(f: spec_fn(int) -> int, i: int)
    requires
        0 <= i <= 64,
        forall|t: int| i <= t < 64 ==> #[trigger] f(t) == 0,
    ensures
        sum_from(f, i) == 0,
    decreases 64 - i,
{
    if i < 64 {
        lemma_sum_zero(f, i + 1);
    }
}

pub proof fn lemma_pairs_zero(f: spec_fn(int, int) -> int)
    requires
        forall|a: int, b: int| 0 <= a < 64 && 0 <= b < 64 ==> #[trigger] f(a, b) == 0,
    ensures
        sum_pairs(f) == 0,
{
    let rows = |a: int| sum_squares(|b: int| f(a, b));
    assert forall|a: int| 0 <= a < 64 implies #[trigger] rows(a) == 0 by {
        lemma_sum_zero(|b: int| f(a, b), 0);
    }
    lemma_sum_zero(rows, 0);
}

pub proof fn lemma_pairs_same(f: spec_fn(int, int) -> int, g: spec_fn(int, int) -> int)
    requires
        forall|a: int, b: int| 0 <= a < 64 && 0 <= b < 64 ==> #[trigger] f(a, b) == g(a, b),
    ensures
        sum_pairs(f) == sum_pairs(g),
{
    let rows_f = |a: int| sum_squares(|b: int| f(a, b));
    let rows_g = |a: int| sum_squares(|b: int| g(a, b));
    assert forall|a: int| 0 <= a < 64 implies #[trigger] rows_f(a) == rows_g(a) by {
        lemma_sum_same(|b: int| f(a, b), |b: int| g(a, b), 0);
    }
    lemma_sum_same(rows_f, rows_g, 0);
}

pub proof fn lemma_pairs_add(
    f: spec_fn(int, int) -> int,
    g: spec_fn(int, int) -> int,
    h: spec_fn(int, int) -> int,
)
    requires
        forall|a: int, b: int|
            0 <= a < 64 && 0 <= b < 64 ==> #[trigger] h(a, b) == f(a, b) + g(a, b),
    ensures
        sum_pairs(h) == sum_pairs(f) + sum_pairs(g),
{
    let rows_f = |a: int| sum_squares(|b: int| f(a, b));
    let rows_g = |a: int| sum_squares(|b: int| g(a, b));
    let rows_h = |a: int| sum_squares(|b: int| h(a, b));
    assert forall|a: int| 0 <= a < 64 implies #[trigger] rows_h(a) == rows_f(a) + rows_g(a) by {
        lemma_sum_add(|b: int| f(a, b), |b: int| g(a, b), |b: int| h(a, b), 0);
    }
    lemma_sum_add(rows_f, rows_g, rows_h, 0);
}

/// Rows first or columns first, from row `i` and column `j` on.
proof fn lemma_swap_from(f: spec_fn(int, int) -> int, i: int, j: int)
    requires
        0 <= i <= 64,
        0 <= j <= 64,
    ensures
        sum_from(|a: int| sum_from(|b: int| f(a, b), j), i) == sum_from(
            |b: int| sum_from(|a: int| f(a, b), i),
            j,
        ),
    decreases 64 - i,
{
    let rows = |a: int| sum_from(|b: int| f(a, b), j);
    let columns = |b: int| sum_from(|a: int| f(a, b), i);
    if i == 64 {
        assert forall|b: int| j <= b < 64 implies #[trigger] columns(b) == 0 by {}
        lemma_sum_zero(columns, j);
    } else {
        lemma_swap_from(f, i + 1, j);
        let shorter = |b: int| sum_from(|a: int| f(a, b), i + 1);
        let first = |b: int| f(i, b);
        assert forall|b: int| j <= b < 64 implies #[trigger] columns(b) == first(b) + shorter(
            b,
        ) by {
            let column = |a: int| f(a, b);
            assert(sum_from(column, i) == column(i) + sum_from(column, i + 1));
        }
        lemma_sum_add(first, shorter, columns, j);
        assert(sum_from(rows, i) == rows(i) + sum_from(rows, i + 1));
    }
}

/// A sum over ordered pairs may name either square first.
pub proof fn lemma_pairs_swap(f: spec_fn(int, int) -> int, g: spec_fn(int, int) -> int)
    requires
        forall|a: int, b: int| 0 <= a < 64 && 0 <= b < 64 ==> #[trigger] g(a, b) == f(b, a),
    ensures
        sum_pairs(f) == sum_pairs(g),
{
    lemma_swap_from(f, 0, 0);
    let rows_f = |a: int| sum_squares(|b: int| f(a, b));
    lemma_sum_same(rows_f, |a: int| sum_from(|b: int| f(a, b), 0), 0);
    let columns = |b: int| sum_from(|a: int| f(a, b), 0);
    let rows = |a: int| sum_squares(|b: int| g(a, b));
    assert forall|a: int| 0 <= a < 64 implies #[trigger] columns(a) == rows(a) by {
        lemma_sum_same(|x: int| f(x, a), |x: int| g(a, x), 0);
    }
    lemma_sum_same(columns, rows, 0);
}

/// Folds the ordered pairs of distinct squares onto the pairs with the lower square first.
pub proof fn lemma_pairs_fold(f: spec_fn(int, int) -> int, folded: spec_fn(int, int) -> int)
    requires
        forall|a: int| 0 <= a < 64 ==> #[trigger] f(a, a) == 0,
        forall|a: int, b: int|
            0 <= a < 64 && 0 <= b < 64 ==> #[trigger] folded(a, b) == if a < b {
                f(a, b) + f(b, a)
            } else {
                0
            },
    ensures
        sum_pairs(f) == sum_pairs(folded),
{
    let below = |a: int, b: int| if a < b { f(a, b) } else { 0 };
    let above = |a: int, b: int| if a > b { f(a, b) } else { 0 };
    let turned = |a: int, b: int| above(b, a);
    assert forall|a: int, b: int| 0 <= a < 64 && 0 <= b < 64 implies #[trigger] f(a, b) == below(
        a,
        b,
    ) + above(a, b) by {
        if a == b {
            assert(f(a, a) == 0);
        }
    }
    lemma_pairs_add(below, above, f);
    lemma_pairs_swap(above, turned);
    lemma_pairs_add(below, turned, folded);
}

} // verus!
