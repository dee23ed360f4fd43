//! Stable sorting of rows by one of their columns, ascending or descending.

use vstd::prelude::*;
use std::collections::VecDeque;
use crate::record::Row;
use crate::text::{compare_text, lemma_lex_antisymmetric, lemma_lex_transitive, lemma_lex_zero, lex_order};

verus! {

/// The column that rows are ordered by.
#[derive(Clone, Copy, PartialEq, Eq, Debug)]
pub enum SortKey {
    LifeExpectancy,
    Year,
    Delta,
    Region,
}

/// The sign of an integer: -1, 0 or 1.
pub open spec fn sign(x: int) -> int {
    if x < 0 {
        -1
    } else if x > 0 {
        1
    } else {
        0
    }
}

/// How two rows compare on a column: -1 when `a` comes first, 0 when the column
/// holds the same value in both, 1 when `b` comes first. Regions compare
/// lexicographically by code point, the other columns as numbers.
pub open spec fn rank(key: SortKey, a: Row, b: Row) -> int {
    match key {
        SortKey::LifeExpectancy => sign(a.life_expectancy - b.life_expectancy),
        SortKey::Year => sign(a.year - b.year),
        SortKey::Delta => sign(a.delta - b.delta),
        SortKey::Region => lex_order(a.region@, b.region@),
    }
}

/// `rank` in the chosen direction: as it is for ascending order, with the
/// arguments swapped for descending order.
pub open spec fn directed(key: SortKey, ascending: bool, a: Row, b: Row) -> int {
    if ascending {
        rank(key, a, b)
    } else {
        rank(key, b, a)
    }
}

/// `a` may stand before `b`.
pub open spec fn in_order(key: SortKey, ascending: bool, a: Row, b: Row) -> bool {
    directed(key, ascending, a, b) <= 0
}

/// Every row stands before every later row.
pub open spec fn sorted_by(s: Seq<Row>, key: SortKey, ascending: bool) -> bool {
    forall|i: int, j: int|
        #![trigger s[i], s[j]]
        0 <= i < j < s.len() ==> in_order(key, ascending, s[i], s[j])
}

/// The rows whose column holds the same value as `r`'s.
pub open spec fn key_class(key: SortKey, r: Row) -> spec_fn(Row) -> bool {
    |x: Row| rank(key, x, r) == 0
}

/// `after` holds the rows of `before`, and the rows that agree on the column keep
/// their order: for every value of the column, the rows with that value appear in
/// `after` in the same order as in `before`.
pub open spec fn stable_rearrangement(before: Seq<Row>, after: Seq<Row>, key: SortKey) -> bool {
    forall|r: Row| #[trigger] after.filter(key_class(key, r)) == before.filter(key_class(key, r))
}

/// Swapping the rows negates `rank`.
pub proof fn lemma_rank_antisymmetric(key: SortKey, a: Row, b: Row)
    ensures
        rank(key, a, b) == -rank(key, b, a),
{
    if key == SortKey::Region {
        lemma_lex_antisymmetric(a.region@, b.region@);
    }
}

/// Every row agrees with itself on every column.
pub proof fn lemma_rank_reflexive(key: SortKey, a: Row)
    ensures
        rank(key, a, a) == 0,
{
    if key == SortKey::Region {
        lemma_lex_zero(a.region@, a.region@);
    }
}

/// "Not after" is transitive.
pub proof fn lemma_rank_transitive(key: SortKey, a: Row, b: Row, c: Row)
    requires
        rank(key, a, b) <= 0,
        rank(key, b, c) <= 0,
    ensures
        rank(key, a, c) <= 0,
{
    if key == SortKey::Region {
        lemma_lex_transitive(a.region@, b.region@, c.region@);
    }
}

/// Rows that agree with a third row on the column agree with each other.
pub proof fn lemma_same_key_transitive(key: SortKey, a: Row, b: Row, c: Row)
    requires
        rank(key, a, b) == 0,
        rank(key, b, c) == 0,
    ensures
        rank(key, a, c) == 0,
{
    lemma_rank_antisymmetric(key, a, b);
    lemma_rank_antisymmetric(key, b, c);
    lemma_rank_antisymmetric(key, a, c);
    lemma_rank_transitive(key, a, b, c);
    lemma_rank_transitive(key, c, b, a);
}

proof fn lemma_directed_antisymmetric(key: SortKey, ascending: bool, a: Row, b: Row)
    ensures
        directed(key, ascending, a, b) == -directed(key, ascending, b, a),
{
    lemma_rank_antisymmetric(key, a, b);
}

proof fn lemma_directed_transitive(key: SortKey, ascending: bool, a: Row, b: Row, c: Row)
    requires
        directed(key, ascending, a, b) <= 0,
        directed(key, ascending, b, c) <= 0,
    ensures
        directed(key, ascending, a, c) <= 0,
{
    if ascending {
        lemma_rank_transitive(key, a, b, c);
    } else {
        lemma_rank_transitive(key, c, b, a);
    }
}

proof fn lemma_directed_strict(key: SortKey, ascending: bool, a: Row, b: Row, c: Row)
    requires
        directed(key, ascending, a, b) < 0,
        directed(key, ascending, b, c) <= 0,
    ensures
        directed(key, ascending, a, c) < 0,
{
    lemma_directed_transitive(key, ascending, a, b, c);
    lemma_directed_antisymmetric(key, ascending, a, b);
    lemma_directed_antisymmetric(key, ascending, a, c);
    if directed(key, ascending, a, c) == 0 {
        lemma_directed_transitive(key, ascending, b, c, a);
    }
}

proof fn lemma_filter_none(s: Seq<Row>, pred: spec_fn(Row) -> bool)
    requires
        forall|i: int| 0 <= i < s.len() ==> !pred(s[i]),
    ensures
        s.filter(pred) == Seq::<Row>::empty(),
{
    assert(s.all(|x: Row| !pred(x)));
    s.lemma_all_neg_filter_empty(pred);
    assert(s.filter(pred) =~= Seq::<Row>::empty());
}

proof fn lemma_filter_count(s: Seq<Row>, pred: spec_fn(Row) -> bool, x: Row)
    requires
        pred(x),
    ensures
        s.filter(pred).to_multiset().count(x) == s.to_multiset().count(x),
    decreases s.len(),
{
    broadcast use vstd::seq_lib::group_to_multiset_ensures;

    if s.len() > 0 {
        lemma_filter_count(s.drop_last(), pred, x);
        assert(s =~= s.drop_last().push(s.last()));
        s.drop_last().lemma_filter_push(s.last(), pred);
    }
}

/// Sorting keeps the rows: a stable rearrangement holds exactly the rows it was
/// made from, each as often as before.
pub proof fn stable_rearrangement_keeps_rows(before: Seq<Row>, after: Seq<Row>, key: SortKey)
    requires
        stable_rearrangement(before, after, key),
    ensures
        after.to_multiset() == before.to_multiset(),
{
    assert forall|x: Row| after.to_multiset().count(x) == before.to_multiset().count(x) by {
        lemma_rank_reflexive(key, x);
        lemma_filter_count(after, key_class(key, x), x);
        lemma_filter_count(before, key_class(key, x), x);
        assert(after.filter(key_class(key, x)) == before.filter(key_class(key, x)));
    }
    assert(after.to_multiset() =~= before.to_multiset());
}

proof fn lemma_filter_front(s: Seq<Row>, pred: spec_fn(Row) -> bool)
    requires
        s.len() > 0,
    ensures
        s.filter(pred) == (if pred(s[0]) {
            seq![s[0]]
        } else {
            Seq::<Row>::empty()
        }) + s.drop_first().filter(pred),
{
    assert(s =~= seq![s[0]] + s.drop_first());
    Seq::filter_distributes_over_add(seq![s[0]], s.drop_first(), pred);
    reveal_with_fuel(Seq::filter, 2);
    assert(seq![s[0]].drop_last() =~= Seq::<Row>::empty());
    if pred(s[0]) {
        assert(seq![s[0]].filter(pred) =~= seq![s[0]]);
    } else {
        assert(seq![s[0]].filter(pred) =~= Seq::<Row>::empty());
    }
}

/// The order of a stable sort is fully determined: two sequences that are both
/// sorted on a column and hold, for every value of the column, the same rows in the
/// same order, are equal. In particular, sorting rows that are already in order
/// leaves them as they are.
pub proof fn stable_sort_is_unique(s1: Seq<Row>, s2: Seq<Row>, key: SortKey, ascending: bool)
    requires
        sorted_by(s1, key, ascending),
        sorted_by(s2, key, ascending),
        stable_rearrangement(s1, s2, key),
    ensures
        s1 == s2,
    decreases s1.len() + s2.len(),
{
    if s1.len() == 0 || s2.len() == 0 {
        if s1.len() > 0 {
            let x = s1[0];
            lemma_rank_reflexive(key, x);
            lemma_filter_front(s1, key_class(key, x));
            lemma_filter_none(s2, key_class(key, x));
            assert(s2.filter(key_class(key, x)) == s1.filter(key_class(key, x)));
        } else if s2.len() > 0 {
            let y = s2[0];
            lemma_rank_reflexive(key, y);
            lemma_filter_front(s2, key_class(key, y));
            lemma_filter_none(s1, key_class(key, y));
            assert(s2.filter(key_class(key, y)) == s1.filter(key_class(key, y)));
        } else {
            assert(s1 =~= s2);
        }
    } else {
        let x = s1[0];
        let y = s2[0];
        let cx = key_class(key, x);
        let cy = key_class(key, y);
        lemma_rank_reflexive(key, x);
        lemma_rank_reflexive(key, y);
        lemma_filter_front(s1, cx);
        lemma_filter_front(s2, cy);
        // x occurs in s2, so y stands before it; and the other way round.
        assert(s2.filter(cx) == s1.filter(cx));
        assert(s2.filter(cx)[0] == x);
        assert(s2.filter(cx).contains(x));
        s2.lemma_filter_contains_rev(cx, x);
        let p = choose|p: int| 0 <= p < s2.len() && s2[p] == x;
        if p > 0 {
            assert(in_order(key, ascending, s2[0], s2[p]));
        }
        assert(s1.filter(cy) == s2.filter(cy));
        assert(s1.filter(cy)[0] == y);
        assert(s1.filter(cy).contains(y));
        s1.lemma_filter_contains_rev(cy, y);
        let q = choose|q: int| 0 <= q < s1.len() && s1[q] == y;
        if q > 0 {
            assert(in_order(key, ascending, s1[0], s1[q]));
        }
        assert(in_order(key, ascending, y, x));
        assert(in_order(key, ascending, x, y));
        lemma_directed_antisymmetric(key, ascending, x, y);
        lemma_rank_antisymmetric(key, x, y);
        assert(rank(key, y, x) == 0);
        lemma_filter_front(s2, cx);
        assert(cx(y));
        assert(s2.filter(cx)[0] == y);
        assert(x == y);
        let t1 = s1.drop_first();
        let t2 = s2.drop_first();
        assert forall|r: Row| #[trigger] t2.filter(key_class(key, r)) == t1.filter(key_class(key, r)) by {
            let c = key_class(key, r);
            lemma_filter_front(s1, c);
            lemma_filter_front(s2, c);
            assert(s2.filter(c) == s1.filter(c));
            if c(x) {
                assert(t1.filter(c) =~= s1.filter(c).drop_first());
                assert(t2.filter(c) =~= s2.filter(c).drop_first());
            }
        }
        assert(sorted_by(t1, key, ascending)) by {
            assert forall|i: int, j: int| #![trigger t1[i], t1[j]] 0 <= i < j < t1.len() implies in_order(
                key,
                ascending,
                t1[i],
                t1[j],
            ) by {
                assert(t1[i] == s1[i + 1] && t1[j] == s1[j + 1]);
            }
        }
        assert(sorted_by(t2, key, ascending)) by {
            assert forall|i: int, j: int| #![trigger t2[i], t2[j]] 0 <= i < j < t2.len() implies in_order(
                key,
                ascending,
                t2[i],
                t2[j],
            ) by {
                assert(t2[i] == s2[i + 1] && t2[j] == s2[j + 1]);
            }
        }
        stable_sort_is_unique(t1, t2, key, ascending);
        assert(s1 =~= seq![x] + t1);
        assert(s2 =~= seq![y] + t2);
    }
}

proof fn lemma_sorted_filter(s: Seq<Row>, key: SortKey, ascending: bool, pred: spec_fn(Row) -> bool)
    requires
        sorted_by(s, key, ascending),
    ensures
        sorted_by(s.filter(pred), key, ascending),
    decreases s.len(),
{
    reveal(Seq::filter);
    if s.len() > 0 {
        let init = s.drop_last();
        let last = s.last();
        assert(sorted_by(init, key, ascending)) by {
            assert forall|i: int, j: int| #![trigger init[i], init[j]] 0 <= i < j < init.len() implies in_order(
                key,
                ascending,
                init[i],
                init[j],
            ) by {
                assert(init[i] == s[i] && init[j] == s[j]);
            }
        }
        lemma_sorted_filter(init, key, ascending, pred);
        let f = init.filter(pred);
        if pred(last) {
            let g = f.push(last);
            assert forall|i: int, j: int| #![trigger g[i], g[j]] 0 <= i < j < g.len() implies in_order(
                key,
                ascending,
                g[i],
                g[j],
            ) by {
                if j == g.len() - 1 {
                    assert(f.contains(f[i]));
                    init.lemma_filter_contains_rev(pred, f[i]);
                    let k = choose|k: int| 0 <= k < init.len() && init[k] == f[i];
                    assert(s[k] == init[k]);
                    assert(s[s.len() - 1] == last);
                } else {
                    assert(g[i] == f[i] && g[j] == f[j]);
                }
            }
        }
    }
}

proof fn lemma_filters_commute(s: Seq<Row>, p: spec_fn(Row) -> bool, q: spec_fn(Row) -> bool)
    ensures
        s.filter(p).filter(q) == s.filter(q).filter(p),
    decreases s.len(),
{
    reveal(Seq::filter);
    if s.len() > 0 {
        let init = s.drop_last();
        let last = s.last();
        lemma_filters_commute(init, p, q);
        init.filter(p).lemma_filter_push(last, q);
        init.filter(q).lemma_filter_push(last, p);
    }
}

/// Sorting by year and then by region orders the rows by region and, within a
/// region, by year; rows of the same region and year keep their original order.
pub proof fn region_sort_after_year_sort(d: Seq<Row>, by_year: Seq<Row>, by_region: Seq<Row>)
    requires
        sorted_by(by_year, SortKey::Year, true),
        stable_rearrangement(d, by_year, SortKey::Year),
        sorted_by(by_region, SortKey::Region, true),
        stable_rearrangement(by_year, by_region, SortKey::Region),
    ensures
        forall|r: Row| #[trigger] sorted_by(by_region.filter(key_class(SortKey::Region, r)), SortKey::Year, true),
        forall|r: Row| #[trigger]
            by_region.filter(key_class(SortKey::Region, r)).filter(key_class(SortKey::Year, r)) == d.filter(
                key_class(SortKey::Region, r),
            ).filter(key_class(SortKey::Year, r)),
{
    assert forall|r: Row| #[trigger] sorted_by(by_region.filter(key_class(SortKey::Region, r)), SortKey::Year, true) by {
        assert(by_region.filter(key_class(SortKey::Region, r)) == by_year.filter(key_class(SortKey::Region, r)));
        lemma_sorted_filter(by_year, SortKey::Year, true, key_class(SortKey::Region, r));
    }
    assert forall|r: Row| #[trigger]
        by_region.filter(key_class(SortKey::Region, r)).filter(key_class(SortKey::Year, r)) == d.filter(
            key_class(SortKey::Region, r),
        ).filter(key_class(SortKey::Year, r)) by {
        let cr = key_class(SortKey::Region, r);
        let cy = key_class(SortKey::Year, r);
        assert(by_region.filter(cr) == by_year.filter(cr));
        assert(by_year.filter(cy) == d.filter(cy));
        lemma_filters_commute(by_year, cr, cy);
        lemma_filters_commute(d, cr, cy);
    }
}

/// Sorting rows a second time on the same column, in the same direction,
/// changes nothing.
pub proof fn sorting_twice_changes_nothing(once: Seq<Row>, twice: Seq<Row>, key: SortKey, ascending: bool)
    requires
        sorted_by(once, key, ascending),
        sorted_by(twice, key, ascending),
        stable_rearrangement(once, twice, key),
    ensures
        twice == once,
{
    stable_sort_is_unique(once, twice, key, ascending);
}

fn rank_rows(key: SortKey, a: &Row, b: &Row) -> (r: i8)
    ensures
        r == rank(key, *a, *b),
{
    match key {
        SortKey::LifeExpectancy => {
            if a.life_expectancy < b.life_expectancy {
                -1
            } else if a.life_expectancy > b.life_expectancy {
                1
            } else {
                0
            }
        },
        SortKey::Year => {
            if a.year < b.year {
                -1
            } else if a.year > b.year {
                1
            } else {
                0
            }
        },
        SortKey::Delta => {
            if a.delta < b.delta {
                -1
            } else if a.delta > b.delta {
                1
            } else {
                0
            }
        },
        SortKey::Region => compare_text(a.region.as_str(), b.region.as_str()),
    }
}

fn directed_rows(key: SortKey, ascending: bool, a: &Row, b: &Row) -> (r: i8)
    ensures
        r == directed(key, ascending, *a, *b),
{
    if ascending {
        rank_rows(key, a, b)
    } else {
        rank_rows(key, b, a)
    }
}

/// Merges two sorted runs; on ties the rows of `a` come first.
fn merge(a: VecDeque<Row>, b: VecDeque<Row>, key: SortKey, ascending: bool) -> (out: VecDeque<Row>)
    requires
        sorted_by(a@, key, ascending),
        sorted_by(b@, key, ascending),
    ensures
        out@.len() == a@.len() + b@.len(),
        sorted_by(out@, key, ascending),
        forall|r: Row| #[trigger]
            out@.filter(key_class(key, r)) == a@.filter(key_class(key, r)) + b@.filter(
                key_class(key, r),
            ),
{
    let ghost a0 = a@;
    let ghost b0 = b@;
    let mut a = a;
    let mut b = b;
    let mut out: VecDeque<Row> = VecDeque::new();
    let ghost mut ia: int = 0;
    let ghost mut ib: int = 0;
    proof {
        assert(a0.subrange(0, a0.len() as int) =~= a0);
        assert(b0.subrange(0, b0.len() as int) =~= b0);
        assert forall|r: Row| #[trigger]
            out@.filter(key_class(key, r)) == a0.take(0).filter(key_class(key, r)) + b0.take(
                0,
            ).filter(key_class(key, r)) by {
            assert(a0.take(0) =~= Seq::<Row>::empty());
            assert(b0.take(0) =~= Seq::<Row>::empty());
            lemma_filter_none(out@, key_class(key, r));
            lemma_filter_none(a0.take(0), key_class(key, r));
            lemma_filter_none(b0.take(0), key_class(key, r));
            assert(Seq::<Row>::empty() + Seq::<Row>::empty() =~= Seq::<Row>::empty());
        }
    }
    while a.len() > 0 || b.len() > 0
        invariant
            sorted_by(a0, key, ascending),
            sorted_by(b0, key, ascending),
            0 <= ia <= a0.len(),
            0 <= ib <= b0.len(),
            a@ == a0.subrange(ia, a0.len() as int),
            b@ == b0.subrange(ib, b0.len() as int),
            out@.len() == ia + ib,
            sorted_by(out@, key, ascending),
            forall|k: int, q: int|
                0 <= k < out@.len() && ia <= q < a0.len() ==> in_order(
                    key,
                    ascending,
                    #[trigger] out@[k],
                    #[trigger] a0[q],
                ),
            forall|k: int, q: int|
                0 <= k < out@.len() && ib <= q < b0.len() ==> in_order(
                    key,
                    ascending,
                    #[trigger] out@[k],
                    #[trigger] b0[q],
                ),
            forall|p: int, q: int|
                0 <= p < ib && ia <= q < a0.len() ==> directed(
                    key,
                    ascending,
                    #[trigger] b0[p],
                    #[trigger] a0[q],
                ) < 0,
            forall|r: Row| #[trigger]
                out@.filter(key_class(key, r)) == a0.take(ia).filter(key_class(key, r)) + b0.take(
                    ib,
                ).filter(key_class(key, r)),
        decreases a@.len() + b@.len(),
    {
        let take_a: bool = if a.len() == 0 {
            false
        } else if b.len() == 0 {
            true
        } else {
            directed_rows(key, ascending, &a[0], &b[0]) <= 0
        };
        let ghost old_out = out@;
        if take_a {
            let x: Row = a.pop_front().unwrap();
            proof {
                assert(x == a0[ia]);
            }
            out.push_back(x);
            proof {
                assert(out@ =~= old_out.push(x));
                assert(a0.take(ia + 1) =~= a0.take(ia).push(x));
                // x stands after everything already merged and before everything left.
                assert forall|q: int| ib <= q < b0.len() implies in_order(
                    key,
                    ascending,
                    x,
                    #[trigger] b0[q],
                ) by {
                    assert(b0[ib] == b@[0]);
                    if q > ib {
                        lemma_directed_transitive(key, ascending, x, b0[ib], b0[q]);
                    }
                }
                assert forall|r: Row| #[trigger]
                    out@.filter(key_class(key, r)) == a0.take(ia + 1).filter(key_class(key, r))
                        + b0.take(ib).filter(key_class(key, r)) by {
                    let c = key_class(key, r);
                    old_out.lemma_filter_push(x, c);
                    a0.take(ia).lemma_filter_push(x, c);
                    if c(x) {
                        assert forall|p: int| 0 <= p < b0.take(ib).len() implies !c(
                            b0.take(ib)[p],
                        ) by {
                            let y = b0[p];
                            assert(directed(key, ascending, y, a0[ia]) < 0);
                            if rank(key, y, r) == 0 {
                                lemma_rank_antisymmetric(key, x, r);
                                lemma_same_key_transitive(key, y, r, x);
                                lemma_rank_antisymmetric(key, y, x);
                            }
                        }
                        lemma_filter_none(b0.take(ib), c);
                        assert(old_out.filter(c).push(x) =~= a0.take(ia).filter(c).push(x) + b0.take(
                            ib,
                        ).filter(c));
                    }
                }
                ia = ia + 1;
                assert(a@ =~= a0.subrange(ia, a0.len() as int));
            }
        } else {
            let y: Row = b.pop_front().unwrap();
            proof {
                assert(y == b0[ib]);
            }
            out.push_back(y);
            proof {
                assert(out@ =~= old_out.push(y));
                assert(b0.take(ib + 1) =~= b0.take(ib).push(y));
                if a@.len() > 0 {
                    assert(a0[ia] == a@[0]);
                    lemma_directed_antisymmetric(key, ascending, a0[ia], y);
                }
                assert forall|q: int| ia <= q < a0.len() implies directed(
                    key,
                    ascending,
                    y,
                    #[trigger] a0[q],
                ) < 0 by {
                    if q > ia {
                        lemma_directed_strict(key, ascending, y, a0[ia], a0[q]);
                    }
                }
                assert forall|r: Row| #[trigger]
                    out@.filter(key_class(key, r)) == a0.take(ia).filter(key_class(key, r))
                        + b0.take(ib + 1).filter(key_class(key, r)) by {
                    let c = key_class(key, r);
                    old_out.lemma_filter_push(y, c);
                    b0.take(ib).lemma_filter_push(y, c);
                    if c(y) {
                        assert(old_out.filter(c).push(y) =~= a0.take(ia).filter(c) + b0.take(
                            ib,
                        ).filter(c).push(y));
                    }
                }
                ib = ib + 1;
                assert(b@ =~= b0.subrange(ib, b0.len() as int));
            }
        }
    }
    proof {
        assert(a0.take(ia) =~= a0);
        assert(b0.take(ib) =~= b0);
    }
    out
}

fn merge_sort(v: VecDeque<Row>, key: SortKey, ascending: bool) -> (out: VecDeque<Row>)
    ensures
        out@.len() == v@.len(),
        sorted_by(out@, key, ascending),
        stable_rearrangement(v@, out@, key),
    decreases v@.len(),
{
    if v.len() <= 1 {
        return v;
    }
    let ghost whole = v@;
    let mut left = v;
    let half: usize = left.len() / 2;
    let right = left.split_off(half);
    assert(whole =~= left@ + right@);
    let sorted_left = merge_sort(left, key, ascending);
    let sorted_right = merge_sort(right, key, ascending);
    let out = merge(sorted_left, sorted_right, key, ascending);
    proof {
        assert forall|r: Row| #[trigger]
            out@.filter(key_class(key, r)) == whole.filter(key_class(key, r)) by {
            Seq::filter_distributes_over_add(left@, right@, key_class(key, r));
        }
    }
    out
}

/// Sorts rows stably by a column.
pub fn sort_rows(rows: Vec<Row>, key: SortKey, ascending: bool) -> (out: Vec<Row>)
    ensures
        out@.len() == rows@.len(),
        sorted_by(out@, key, ascending),
        stable_rearrangement(rows@, out@, key),
{
    let ghost original = rows@;
    let mut rows = rows;
    let mut queue: VecDeque<Row> = VecDeque::new();
    while rows.len() > 0
        invariant
            original == rows@ + queue@,
        decreases rows@.len(),
    {
        let ghost before = queue@;
        let r: Row = rows.pop().unwrap();
        queue.push_front(r);
        assert(original =~= rows@ + queue@);
    }
    assert(queue@ =~= original);
    let sorted = merge_sort(queue, key, ascending);
    let ghost result = sorted@;
    let mut sorted = sorted;
    let mut out: Vec<Row> = Vec::new();
    while sorted.len() > 0
        invariant
            result == out@ + sorted@,
        decreases sorted@.len(),
    {
        let r: Row = sorted.pop_front().unwrap();
        out.push(r);
        assert(result =~= out@ + sorted@);
    }
    assert(out@ =~= result);
    out
}

/// Orders rows by life expectancy, lowest first when `sort_order` is true and
/// highest first otherwise; rows with equal life expectancy keep their order.
pub fn sort_by_life_expectancy(data_set: Vec<Row>, sort_order: bool) -> (r: Vec<Row>)
    ensures
        r@.len() == data_set@.len(),
        sorted_by(r@, SortKey::LifeExpectancy, sort_order),
        stable_rearrangement(data_set@, r@, SortKey::LifeExpectancy),
{
    sort_rows(data_set, SortKey::LifeExpectancy, sort_order)
}

/// Orders rows by year, oldest first when `sort_order` is true and newest first
/// otherwise; rows of the same year keep their order.
pub fn sort_by_year(data_set: Vec<Row>, sort_order: bool) -> (r: Vec<Row>)
    ensures
        r@.len() == data_set@.len(),
        sorted_by(r@, SortKey::Year, sort_order),
        stable_rearrangement(data_set@, r@, SortKey::Year),
{
    sort_rows(data_set, SortKey::Year, sort_order)
}

/// Orders rows by their change of life expectancy, smallest first when
/// `sort_order` is true and largest first otherwise; equal changes keep their order.
pub fn sort_by_delta(data_set: Vec<Row>, sort_order: bool) -> (r: Vec<Row>)
    ensures
        r@.len() == data_set@.len(),
        sorted_by(r@, SortKey::Delta, sort_order),
        stable_rearrangement(data_set@, r@, SortKey::Delta),
{
    sort_rows(data_set, SortKey::Delta, sort_order)
}

/// Orders rows alphabetically by region; rows of the same region keep their order.
pub fn sort_by_region(data_set: Vec<Row>) -> (r: Vec<Row>)
    ensures
        r@.len() == data_set@.len(),
        sorted_by(r@, SortKey::Region, true),
        stable_rearrangement(data_set@, r@, SortKey::Region),
{
    sort_rows(data_set, SortKey::Region, true)
}

/// What each order means on the rows' columns: ascending order puts the smaller
/// value first, descending order the larger, and region order is alphabetical.
pub proof fn sorted_order_law(s: Seq<Row>)
    ensures
        sorted_by(s, SortKey::LifeExpectancy, true) <==> forall|i: int, j: int|
            #![trigger s[i], s[j]]
            0 <= i < j < s.len() ==> s[i].life_expectancy <= s[j].life_expectancy,
        sorted_by(s, SortKey::LifeExpectancy, false) <==> forall|i: int, j: int|
            #![trigger s[i], s[j]]
            0 <= i < j < s.len() ==> s[i].life_expectancy >= s[j].life_expectancy,
        sorted_by(s, SortKey::Year, true) <==> forall|i: int, j: int|
            #![trigger s[i], s[j]]
            0 <= i < j < s.len() ==> s[i].year <= s[j].year,
        sorted_by(s, SortKey::Year, false) <==> forall|i: int, j: int|
            #![trigger s[i], s[j]]
            0 <= i < j < s.len() ==> s[i].year >= s[j].year,
        sorted_by(s, SortKey::Delta, true) <==> forall|i: int, j: int|
            #![trigger s[i], s[j]]
            0 <= i < j < s.len() ==> s[i].delta <= s[j].delta,
        sorted_by(s, SortKey::Delta, false) <==> forall|i: int, j: int|
            #![trigger s[i], s[j]]
            0 <= i < j < s.len() ==> s[i].delta >= s[j].delta,
        sorted_by(s, SortKey::Region, true) <==> forall|i: int, j: int|
            #![trigger s[i], s[j]]
            0 <= i < j < s.len() ==> lex_order(s[i].region@, s[j].region@) <= 0,
{
}

} // verus!
