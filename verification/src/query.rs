//! The steps of a query: choosing regions and years, pairing rows with the
//! record a number of years later, ordering, and cutting the result short.

use vstd::prelude::*;
use vstd::utf8::encode_utf8;
use crate::record::{LifeTable, Row, SourceRecord, life_key_text, life_table_holds_last_record, life_table_of, loaded_row, record_key};
use crate::sort::{
    SortKey, sorted_by, stable_rearrangement, sort_by_delta, sort_by_life_expectancy,
    sort_by_region, sort_by_year,
};
use crate::text::{lex_order, texts};

verus! {

/// A query over life expectancy in the chosen years.
pub const QUERY_TYPE_GENERAL: i32 = 0;

/// A query over the change of life expectancy over a number of years.
pub const QUERY_TYPE_DELTA: i32 = 1;

/// Menu choice: lowest life expectancy first.
pub const ORDER_LIFE_ASC: i32 = 1;

/// Menu choice: highest life expectancy first.
pub const ORDER_LIFE_DES: i32 = 2;

/// Menu choice: oldest year first.
pub const ORDER_DATE_ASC: i32 = 3;

/// Menu choice: newest year first.
pub const ORDER_DATE_DES: i32 = 4;

/// Menu choice: regions in alphabetical order.
pub const ORDER_REGION_DES: i32 = 5;

/// Menu choice: largest change first.
pub const ORDER_DELTA_ASC: i32 = 6;

/// Menu choice: smallest change first.
pub const ORDER_DELTA_DES: i32 = 7;

/// Whether `name` is one of `names`.
pub fn contains_text(names: &Vec<String>, name: &String) -> (r: bool)
    ensures
        r == texts(names@).contains(name@),
{
    let mut i: usize = 0;
    while i < names.len()
        invariant
            i <= names.len(),
            forall|k: int| 0 <= k < i ==> names@[k]@ != name@,
        decreases names.len() - i,
    {
        if names[i] == *name {
            assert(texts(names@)[i as int] == name@);
            return true;
        }
        i = i + 1;
    }
    proof {
        if texts(names@).contains(name@) {
            let k = choose|k: int| 0 <= k < texts(names@).len() && texts(names@)[k] == name@;
            assert(names@[k]@ == name@);
        }
    }
    false
}

/// The elements of a vector in reverse order.
fn reversed<T>(v: Vec<T>) -> (r: Vec<T>)
    ensures
        r@.len() == v@.len(),
        forall|k: int| 0 <= k < v@.len() ==> #[trigger] r@[k] == v@[v@.len() - 1 - k],
{
    let ghost all = v@;
    let mut rest: Vec<T> = v;
    let mut out: Vec<T> = Vec::new();
    while rest.len() > 0
        invariant
            rest@ == all.take(rest@.len() as int),
            rest@.len() + out@.len() == all.len(),
            forall|k: int| 0 <= k < out@.len() ==> #[trigger] out@[k] == all[all.len() - 1 - k],
        decreases rest@.len(),
    {
        let x: T = rest.pop().unwrap();
        out.push(x);
        assert(rest@ =~= all.take(rest@.len() as int));
    }
    out
}

/// A filter keeps exactly the rows that satisfy its predicate: every kept row
/// satisfies it and comes from the input, and every input row that satisfies it is kept.
pub proof fn filter_keeps_exactly(s: Seq<Row>, p: spec_fn(Row) -> bool)
    ensures
        forall|i: int|
            0 <= i < s.filter(p).len() ==> p(#[trigger] s.filter(p)[i]) && s.contains(
                s.filter(p)[i],
            ),
        forall|i: int| 0 <= i < s.len() && p(#[trigger] s[i]) ==> s.filter(p).contains(s[i]),
{
    broadcast use vstd::seq_lib::group_filter_ensures;

    assert forall|i: int| 0 <= i < s.filter(p).len() implies p(#[trigger] s.filter(p)[i])
        && s.contains(s.filter(p)[i]) by {
        assert(s.filter(p).contains(s.filter(p)[i]));
        s.lemma_filter_contains_rev(p, s.filter(p)[i]);
    }
}

/// The rows of the regions in `user_regions`.
pub open spec fn in_regions(user_regions: Seq<Seq<char>>) -> spec_fn(Row) -> bool {
    |r: Row| user_regions.contains(r.region@)
}

/// Keeps the rows of the requested regions, in their order.
pub fn filter_region(data_set: Vec<Row>, user_regions: Vec<String>) -> (r: Vec<Row>)
    ensures
        r@ == data_set@.filter(in_regions(texts(user_regions@))),
        forall|i: int|
            0 <= i < r@.len() ==> data_set@.contains(#[trigger] r@[i]) && exists|k: int|
                0 <= k < user_regions@.len() && (#[trigger] user_regions@[k])@ == r@[i].region@,
        forall|i: int, k: int|
            0 <= i < data_set@.len() && 0 <= k < user_regions@.len() && (#[trigger] user_regions@[k])@
                == (#[trigger] data_set@[i]).region@ ==> r@.contains(data_set@[i]),
{
    let ghost all = data_set@;
    let ghost keep = in_regions(texts(user_regions@));
    let mut out: Vec<Row> = Vec::new();
    let mut taken: Vec<Row> = reversed(data_set);
    let ghost n: int = all.len() as int;
    while taken.len() > 0
        invariant
            all.len() == n,
            taken@.len() <= n,
            forall|k: int| 0 <= k < taken@.len() ==> #[trigger] taken@[k] == all[n - 1 - k],
            out@ == all.take(n - taken@.len()).filter(keep),
            keep == in_regions(texts(user_regions@)),
        decreases taken@.len(),
    {
        let row: Row = taken.pop().unwrap();
        let ghost i = n - taken@.len() - 1;
        proof {
            assert(all[i] == row);
            assert(all.take(i + 1) =~= all.take(i).push(row));
            all.take(i).lemma_filter_push(row, keep);
        }
        if contains_text(&user_regions, &row.region) {
            out.push(row);
        }
    }
    assert(all.take(n) =~= all);
    proof {
        let u = texts(user_regions@);
        filter_keeps_exactly(all, keep);
        assert forall|i: int| 0 <= i < out@.len() implies all.contains(#[trigger] out@[i]) && exists|k: int|
            0 <= k < user_regions@.len() && (#[trigger] user_regions@[k])@ == out@[i].region@ by {
            assert(keep(out@[i]));
            let k = choose|k: int| 0 <= k < u.len() && u[k] == out@[i].region@;
            assert(user_regions@[k]@ == u[k]);
        }
        assert forall|i: int, k: int|
            0 <= i < all.len() && 0 <= k < user_regions@.len() && (#[trigger] user_regions@[k])@
                == (#[trigger] all[i]).region@ implies out@.contains(all[i]) by {
            assert(u[k] == user_regions@[k]@);
            assert(u.contains(all[i].region@));
            assert(keep(all[i]));
        }
    }
    out
}

/// The rows from year `start_year` to year `end_year`, both included.
pub open spec fn in_years(start_year: i32, end_year: i32) -> spec_fn(Row) -> bool {
    |r: Row| start_year <= r.year && r.year <= end_year
}

/// Asking for every year from the earliest to the latest keeps every row.
pub proof fn full_year_range_keeps_all(rows: Seq<Row>, start_year: i32, end_year: i32)
    requires
        forall|i: int| 0 <= i < rows.len() ==> start_year <= #[trigger] rows[i].year <= end_year,
    ensures
        rows.filter(in_years(start_year, end_year)) == rows,
    decreases rows.len(),
{
    reveal(Seq::filter);
    if rows.len() > 0 {
        let init = rows.drop_last();
        assert forall|i: int| 0 <= i < init.len() implies start_year <= #[trigger] init[i].year
            <= end_year by {
            assert(init[i] == rows[i]);
        }
        full_year_range_keeps_all(init, start_year, end_year);
        assert(rows[rows.len() - 1] == rows.last());
        assert(init.push(rows.last()) =~= rows);
    }
}

/// Keeps the rows of the requested years, in their order.
pub fn filter_years(data_set: Vec<Row>, start_year: i32, end_year: i32) -> (r: Vec<Row>)
    ensures
        r@ == data_set@.filter(in_years(start_year, end_year)),
        forall|i: int|
            0 <= i < r@.len() ==> start_year <= (#[trigger] r@[i]).year <= end_year
                && data_set@.contains(r@[i]),
        forall|i: int|
            0 <= i < data_set@.len() && start_year <= (#[trigger] data_set@[i]).year <= end_year
                ==> r@.contains(data_set@[i]),
{
    let ghost all = data_set@;
    let ghost keep = in_years(start_year, end_year);
    let mut out: Vec<Row> = Vec::new();
    let mut taken: Vec<Row> = reversed(data_set);
    let ghost n: int = all.len() as int;
    while taken.len() > 0
        invariant
            all.len() == n,
            taken@.len() <= n,
            forall|k: int| 0 <= k < taken@.len() ==> #[trigger] taken@[k] == all[n - 1 - k],
            out@ == all.take(n - taken@.len()).filter(keep),
            keep == in_years(start_year, end_year),
        decreases taken@.len(),
    {
        let row: Row = taken.pop().unwrap();
        let ghost i = n - taken@.len() - 1;
        proof {
            assert(all[i] == row);
            assert(all.take(i + 1) =~= all.take(i).push(row));
            all.take(i).lemma_filter_push(row, keep);
        }
        if start_year <= row.year && row.year <= end_year {
            out.push(row);
        }
    }
    assert(all.take(n) =~= all);
    proof {
        filter_keeps_exactly(all, keep);
        assert forall|i: int| 0 <= i < out@.len() implies start_year <= (#[trigger] out@[i]).year
            <= end_year && all.contains(out@[i]) by {
            assert(keep(out@[i]));
        }
        assert forall|i: int|
            0 <= i < all.len() && start_year <= (#[trigger] all[i]).year <= end_year implies out@.contains(
            all[i],
        ) by {
            assert(keep(all[i]));
        }
    }
    out
}

/// A row of a delta query together with the life expectancy that the table holds
/// for the same region `year_delta` years later.
pub struct DeltaMatch {
    pub row: Row,
    pub later_life_expectancy: i64,
}

/// What a delta query makes of a row: the row with the life expectancy of its
/// region `year_delta` years later, when the table has a record for that year.
pub open spec fn later_match(
    table: Map<Seq<char>, (Seq<char>, i64)>,
    year_delta: i32,
) -> spec_fn(Row) -> Option<DeltaMatch> {
    |r: Row|
        match table.get(life_key_text(r.region@, r.year + year_delta)) {
            Some(e) => Some(DeltaMatch { row: r, later_life_expectancy: e.1 }),
            None => None,
        }
}

/// Pairs each row whose region has a record `year_delta` years later with that
/// record's life expectancy, in the order of the rows; rows without such a
/// record are left out.
pub fn delta_query(data_set: Vec<Row>, life_dict: &LifeTable, year_delta: i32) -> (r: Vec<
    DeltaMatch,
>)
    requires
        forall|i: int|
            0 <= i < data_set@.len() ==> i32::MIN <= #[trigger] data_set@[i].year + year_delta
                <= i32::MAX,
    ensures
        r@ == data_set@.filter_map(later_match(life_dict@, year_delta)),
{
    let ghost all = data_set@;
    let ghost f = later_match(life_dict@, year_delta);
    let mut out: Vec<DeltaMatch> = Vec::new();
    let mut taken: Vec<Row> = reversed(data_set);
    let ghost n: int = all.len() as int;
    assert(all.take(0) =~= Seq::<Row>::empty());
    while taken.len() > 0
        invariant
            all.len() == n,
            taken@.len() <= n,
            forall|k: int| 0 <= k < taken@.len() ==> #[trigger] taken@[k] == all[n - 1 - k],
            forall|i: int|
                0 <= i < all.len() ==> i32::MIN <= #[trigger] all[i].year + year_delta
                    <= i32::MAX,
            out@ == all.take(n - taken@.len()).filter_map(f),
            f == later_match(life_dict@, year_delta),
        decreases taken@.len(),
    {
        let row: Row = taken.pop().unwrap();
        let ghost i = n - taken@.len() - 1;
        proof {
            assert(all[i] == row);
            all.lemma_filter_map_take_succ(f, i);
        }
        let year: i32 = row.year + year_delta;
        let found: Option<i64> = life_dict.life_expectancy_at(row.region.as_str(), year);
        match found {
            Some(later) => {
                let ghost before = out@;
                out.push(DeltaMatch { row, later_life_expectancy: later });
                assert(out@ =~= before + seq![DeltaMatch { row: all[i], later_life_expectancy: later }]);
            },
            None => {},
        }
    }
    assert(all.take(n) =~= all);
    out
}

/// The earliest and the latest year of the rows, or `None` when there are no rows.
pub fn year_range(rows: &Vec<Row>) -> (r: Option<(i32, i32)>)
    ensures
        r is None <==> rows@.len() == 0,
        r matches Some((lo, hi)) ==> {
            &&& forall|i: int| 0 <= i < rows@.len() ==> lo <= #[trigger] rows@[i].year <= hi
            &&& exists|i: int| 0 <= i < rows@.len() && #[trigger] rows@[i].year == lo
            &&& exists|j: int| 0 <= j < rows@.len() && #[trigger] rows@[j].year == hi
        },
{
    if rows.len() == 0 {
        return None;
    }
    let mut lo: i32 = rows[0].year;
    let mut hi: i32 = rows[0].year;
    let ghost mut lo_at: int = 0;
    let ghost mut hi_at: int = 0;
    let mut i: usize = 1;
    while i < rows.len()
        invariant
            1 <= i <= rows@.len(),
            forall|k: int| 0 <= k < i ==> lo <= #[trigger] rows@[k].year <= hi,
            0 <= lo_at < rows@.len(),
            rows@[lo_at].year == lo,
            0 <= hi_at < rows@.len(),
            rows@[hi_at].year == hi,
        decreases rows@.len() - i,
    {
        let y: i32 = rows[i].year;
        if y < lo {
            lo = y;
            proof {
                lo_at = i as int;
            }
        }
        if y > hi {
            hi = y;
            proof {
                hi_at = i as int;
            }
        }
        i = i + 1;
    }
    Some((lo, hi))
}

/// The first `count` rows, or all of them when there are fewer.
pub fn first_rows(data_set: Vec<Row>, count: i32) -> (r: Vec<Row>)
    requires
        count >= 0,
    ensures
        r@ == data_set@.take(if count < data_set@.len() { count as int } else { data_set@.len() as int }),
{
    let mut rows: Vec<Row> = data_set;
    let n: usize = count as usize;
    rows.truncate(n);
    proof {
        if count >= data_set@.len() {
            assert(data_set@.take(data_set@.len() as int) =~= data_set@);
        }
    }
    rows
}

/// The number of bytes of a text in UTF-8.
pub open spec fn byte_len(s: Seq<char>) -> nat {
    encode_utf8(s).len()
}

/// The width of the region column when the result is printed: two more than the
/// longest region name in bytes, or `None` when there are no rows.
pub fn region_column_width(rows: &Vec<Row>) -> (r: Option<usize>)
    requires
        forall|i: int| 0 <= i < rows@.len() ==> byte_len(#[trigger] rows@[i].region@) + 2 <= usize::MAX,
    ensures
        r is None <==> rows@.len() == 0,
        r matches Some(w) ==> {
            &&& forall|i: int| 0 <= i < rows@.len() ==> byte_len(#[trigger] rows@[i].region@) + 2 <= w
            &&& exists|i: int| 0 <= i < rows@.len() && byte_len(#[trigger] rows@[i].region@) + 2 == w
        },
{
    if rows.len() == 0 {
        return None;
    }
    let mut widest: usize = rows[0].region.as_str().len();
    let ghost mut at: int = 0;
    let mut i: usize = 1;
    while i < rows.len()
        invariant
            1 <= i <= rows@.len(),
            forall|i: int|
                0 <= i < rows@.len() ==> byte_len(#[trigger] rows@[i].region@) + 2 <= usize::MAX,
            forall|k: int| 0 <= k < i ==> byte_len(#[trigger] rows@[k].region@) <= widest,
            0 <= at < rows@.len(),
            byte_len(rows@[at].region@) == widest,
        decreases rows@.len() - i,
    {
        let width: usize = rows[i].region.as_str().len();
        if width > widest {
            widest = width;
            proof {
                at = i as int;
            }
        }
        i = i + 1;
    }
    Some(widest + 2)
}

/// The column that a menu choice orders by, if any.
pub open spec fn choice_key(choice: i32) -> Option<SortKey> {
    if choice == ORDER_LIFE_DES || choice == ORDER_LIFE_ASC {
        Some(SortKey::LifeExpectancy)
    } else if choice == ORDER_DATE_ASC || choice == ORDER_DATE_DES {
        Some(SortKey::Year)
    } else if choice == ORDER_REGION_DES {
        Some(SortKey::Region)
    } else if choice == ORDER_DELTA_ASC || choice == ORDER_DELTA_DES {
        Some(SortKey::Delta)
    } else {
        None
    }
}

/// Whether a menu choice orders from small to large. In a general query the
/// choices of lowest life expectancy and oldest year do; a delta query adds the
/// choice of smallest change. Regions are always in alphabetical order.
pub open spec fn choice_ascending(query_type: i32, choice: i32) -> bool {
    if choice == ORDER_REGION_DES {
        true
    } else if query_type == QUERY_TYPE_GENERAL {
        choice == ORDER_DATE_ASC || choice == ORDER_LIFE_ASC
    } else {
        choice == ORDER_DATE_ASC || choice == ORDER_LIFE_ASC || choice == ORDER_DELTA_DES
    }
}

/// The direction of each menu choice, in both kinds of query: lowest life
/// expectancy first, oldest year first and alphabetical regions go up; highest
/// life expectancy first and newest year first go down; in a delta query,
/// largest change first goes down and smallest change first goes up.
pub proof fn menu_directions(query_type: i32)
    requires
        query_type == QUERY_TYPE_GENERAL || query_type == QUERY_TYPE_DELTA,
    ensures
        choice_key(ORDER_LIFE_ASC) == Some(SortKey::LifeExpectancy),
        choice_key(ORDER_LIFE_DES) == Some(SortKey::LifeExpectancy),
        choice_key(ORDER_DATE_ASC) == Some(SortKey::Year),
        choice_key(ORDER_DATE_DES) == Some(SortKey::Year),
        choice_key(ORDER_REGION_DES) == Some(SortKey::Region),
        choice_key(ORDER_DELTA_ASC) == Some(SortKey::Delta),
        choice_key(ORDER_DELTA_DES) == Some(SortKey::Delta),
        choice_ascending(query_type, ORDER_LIFE_ASC),
        !choice_ascending(query_type, ORDER_LIFE_DES),
        choice_ascending(query_type, ORDER_DATE_ASC),
        !choice_ascending(query_type, ORDER_DATE_DES),
        choice_ascending(query_type, ORDER_REGION_DES),
        !choice_ascending(QUERY_TYPE_DELTA, ORDER_DELTA_ASC),
        choice_ascending(QUERY_TYPE_DELTA, ORDER_DELTA_DES),
{
}

/// Orders the rows as a menu choice asks; a choice outside the menu leaves them
/// as they are.
pub fn order_rows(data_set: Vec<Row>, query_type: i32, choice: i32) -> (r: Vec<Row>)
    ensures
        choice == ORDER_LIFE_ASC ==> forall|i: int, j: int|
            #![trigger r@[i], r@[j]]
            0 <= i < j < r@.len() ==> r@[i].life_expectancy <= r@[j].life_expectancy,
        choice == ORDER_LIFE_DES ==> forall|i: int, j: int|
            #![trigger r@[i], r@[j]]
            0 <= i < j < r@.len() ==> r@[i].life_expectancy >= r@[j].life_expectancy,
        choice == ORDER_DATE_ASC ==> forall|i: int, j: int|
            #![trigger r@[i], r@[j]]
            0 <= i < j < r@.len() ==> r@[i].year <= r@[j].year,
        choice == ORDER_DATE_DES ==> forall|i: int, j: int|
            #![trigger r@[i], r@[j]]
            0 <= i < j < r@.len() ==> r@[i].year >= r@[j].year,
        choice == ORDER_REGION_DES ==> forall|i: int, j: int|
            #![trigger r@[i], r@[j]]
            0 <= i < j < r@.len() ==> lex_order(r@[i].region@, r@[j].region@) <= 0,
        query_type == QUERY_TYPE_DELTA && choice == ORDER_DELTA_ASC ==> forall|i: int, j: int|
            #![trigger r@[i], r@[j]]
            0 <= i < j < r@.len() ==> r@[i].delta >= r@[j].delta,
        query_type == QUERY_TYPE_DELTA && choice == ORDER_DELTA_DES ==> forall|i: int, j: int|
            #![trigger r@[i], r@[j]]
            0 <= i < j < r@.len() ==> r@[i].delta <= r@[j].delta,
        match choice_key(choice) {
            Some(key) => {
                &&& r@.len() == data_set@.len()
                &&& sorted_by(r@, key, choice_ascending(query_type, choice))
                &&& stable_rearrangement(data_set@, r@, key)
            },
            None => r@ == data_set@,
        },
{
    let ascending: bool = if query_type == QUERY_TYPE_GENERAL {
        choice == ORDER_DATE_ASC || choice == ORDER_LIFE_ASC
    } else {
        choice == ORDER_DATE_ASC || choice == ORDER_LIFE_ASC || choice == ORDER_DELTA_DES
    };
    if choice == ORDER_LIFE_DES || choice == ORDER_LIFE_ASC {
        sort_by_life_expectancy(data_set, ascending)
    } else if choice == ORDER_DATE_ASC || choice == ORDER_DATE_DES {
        sort_by_year(data_set, ascending)
    } else if choice == ORDER_REGION_DES {
        sort_by_region(data_set)
    } else if choice == ORDER_DELTA_ASC || choice == ORDER_DELTA_DES {
        sort_by_delta(data_set, ascending)
    } else {
        data_set
    }
}

/// Whether the rows hold a row of the region for the year.
pub open spec fn region_has_year(data: Seq<Row>, region: Seq<char>, year: i32) -> bool {
    exists|i: int| 0 <= i < data.len() && (#[trigger] data[i]).region@ == region && data[i].year == year
}

/// Whether every chosen region has a row of the year.
pub open spec fn year_in_common(data: Seq<Row>, regions: Seq<Seq<char>>, year: i32) -> bool {
    forall|k: int| 0 <= k < regions.len() ==> region_has_year(data, #[trigger] regions[k], year)
}

/// The rows of the years that every chosen region has.
pub open spec fn in_common_years(data: Seq<Row>, regions: Seq<Seq<char>>) -> spec_fn(Row) -> bool {
    |r: Row| year_in_common(data, regions, r.year)
}

fn has_year(years: &Vec<i32>, year: i32) -> (r: bool)
    ensures
        r == years@.contains(year),
{
    let mut i: usize = 0;
    while i < years.len()
        invariant
            i <= years.len(),
            forall|k: int| 0 <= k < i ==> years@[k] != year,
        decreases years.len() - i,
    {
        if years[i] == year {
            assert(years@[i as int] == year);
            return true;
        }
        i = i + 1;
    }
    false
}

/// The years of the rows of one region.
fn years_of(data: &Vec<Row>, region: &String) -> (r: Vec<i32>)
    ensures
        forall|y: i32| #[trigger] r@.contains(y) <==> region_has_year(data@, region@, y),
{
    let mut years: Vec<i32> = Vec::new();
    let mut i: usize = 0;
    while i < data.len()
        invariant
            i <= data.len(),
            forall|y: i32| #[trigger] years@.contains(y) <==> region_has_year(
                data@.take(i as int),
                region@,
                y,
            ),
        decreases data.len() - i,
    {
        let ghost before = years@;
        let ghost seen = data@.take(i as int);
        let ghost more = data@.take(i + 1);
        if data[i].region == *region {
            years.push(data[i].year);
        }
        proof {
            assert forall|y: i32| #[trigger] years@.contains(y) <==> region_has_year(more, region@, y) by {
                if years@.contains(y) {
                    let k = choose|k: int| 0 <= k < years@.len() && years@[k] == y;
                    if k < before.len() {
                        assert(before[k] == y);
                        assert(before.contains(y));
                        let j = choose|j: int| 0 <= j < seen.len() && (#[trigger] seen[j]).region@ == region@ && seen[j].year == y;
                        assert(more[j] == seen[j]);
                    } else {
                        assert(more[i as int] == data@[i as int]);
                    }
                }
                if region_has_year(more, region@, y) {
                    let j = choose|j: int| 0 <= j < more.len() && (#[trigger] more[j]).region@ == region@ && more[j].year == y;
                    if j < i {
                        assert(seen[j] == more[j]);
                        assert(region_has_year(seen, region@, y));
                        assert(before.contains(y));
                        let k = choose|k: int| 0 <= k < before.len() && before[k] == y;
                        assert(years@[k] == y);
                    } else {
                        assert(more[j] == data@[i as int]);
                        assert(years@[years@.len() - 1] == y);
                    }
                }
            }
        }
        i = i + 1;
    }
    assert(data@.take(data.len() as int) =~= data@);
    years
}

/// The years in both lists.
fn years_in_both(a: &Vec<i32>, b: &Vec<i32>) -> (r: Vec<i32>)
    ensures
        forall|y: i32| #[trigger] r@.contains(y) <==> a@.contains(y) && b@.contains(y),
{
    let mut both: Vec<i32> = Vec::new();
    let mut i: usize = 0;
    while i < a.len()
        invariant
            i <= a.len(),
            forall|y: i32| #[trigger] both@.contains(y) <==> a@.take(i as int).contains(y) && b@.contains(y),
        decreases a.len() - i,
    {
        let ghost before = both@;
        let y0: i32 = a[i];
        let inside: bool = has_year(b, y0);
        if inside {
            both.push(y0);
        }
        proof {
            assert(a@.take(i + 1) =~= a@.take(i as int).push(y0));
            assert forall|y: i32| #[trigger] both@.contains(y) <==> a@.take(i + 1).contains(y) && b@.contains(y) by {
                if both@.contains(y) && y != y0 {
                    let k = choose|k: int| 0 <= k < both@.len() && both@[k] == y;
                    assert(before[k] == y);
                    assert(before.contains(y));
                    let j = choose|j: int| 0 <= j < i && #[trigger] a@.take(i as int)[j] == y;
                    assert(a@.take(i + 1)[j] == y);
                }
                if both@.contains(y) && y == y0 {
                    assert(a@.take(i + 1)[i as int] == y);
                    if !inside {
                        let k = choose|k: int| 0 <= k < both@.len() && both@[k] == y;
                        assert(before[k] == y);
                        assert(before.contains(y));
                    }
                }
                if a@.take(i + 1).contains(y) && b@.contains(y) {
                    let j = choose|j: int| 0 <= j < i + 1 && #[trigger] a@.take(i + 1)[j] == y;
                    if j < i {
                        assert(a@.take(i as int)[j] == y);
                        assert(a@.take(i as int).contains(y));
                        assert(before.contains(y));
                        let k = choose|k: int| 0 <= k < before.len() && before[k] == y;
                        assert(both@[k] == y);
                    } else {
                        assert(both@[both@.len() - 1] == y);
                    }
                }
            }
        }
        i = i + 1;
    }
    assert(a@.take(a.len() as int) =~= a@);
    both
}

/// Keeps the rows of the years that every chosen region has, in their order.
pub fn filter_common_years(data_set: Vec<Row>, user_regions: &Vec<String>) -> (r: Vec<Row>)
    ensures
        r@ == data_set@.filter(in_common_years(data_set@, texts(user_regions@))),
        forall|i: int, k: int|
            0 <= i < r@.len() && 0 <= k < user_regions@.len() ==> data_set@.contains(
                #[trigger] r@[i],
            ) && exists|j: int|
                0 <= j < data_set@.len() && (#[trigger] data_set@[j]).region@ == (
                #[trigger] user_regions@[k])@ && data_set@[j].year == r@[i].year,
        forall|i: int| 0 <= i < r@.len() ==> data_set@.contains(#[trigger] r@[i]),
        forall|i: int|
            0 <= i < data_set@.len() && (forall|k: int|
                0 <= k < user_regions@.len() ==> exists|j: int|
                    0 <= j < data_set@.len() && (#[trigger] data_set@[j]).region@ == (
                    #[trigger] user_regions@[k])@ && data_set@[j].year == data_set@[i].year) ==> r@.contains(
                #[trigger] data_set@[i],
            ),
{
    let ghost all = data_set@;
    let ghost regions = texts(user_regions@);
    let ghost keep = in_common_years(all, regions);
    let mut common: Vec<i32> = Vec::new();
    if user_regions.len() > 0 {
        common = years_of(&data_set, &user_regions[0]);
        proof {
            assert(regions[0] == user_regions@[0]@);
            assert forall|y: i32| #[trigger] common@.contains(y) <==> forall|m: int|
                0 <= m < 1 ==> region_has_year(all, #[trigger] regions[m], y) by {
                if common@.contains(y) {
                    assert forall|m: int| 0 <= m < 1 implies region_has_year(all, #[trigger] regions[m], y) by {
                        assert(m == 0);
                    }
                }
            }
        }
        let mut k: usize = 1;
        while k < user_regions.len()
            invariant
                1 <= k <= user_regions.len(),
                all == data_set@,
                regions == texts(user_regions@),
                forall|y: i32| #[trigger] common@.contains(y) <==> forall|m: int|
                    0 <= m < k ==> region_has_year(all, #[trigger] regions[m], y),
            decreases user_regions.len() - k,
        {
            let other: Vec<i32> = years_of(&data_set, &user_regions[k]);
            let ghost old_common = common@;
            common = years_in_both(&common, &other);
            proof {
                assert(regions[k as int] == user_regions@[k as int]@);
                assert forall|y: i32| #[trigger] common@.contains(y) <==> forall|m: int|
                    0 <= m < k + 1 ==> region_has_year(all, #[trigger] regions[m], y) by {
                    if common@.contains(y) {
                        assert(old_common.contains(y));
                        assert(other@.contains(y));
                    }
                    if forall|m: int| 0 <= m < k + 1 ==> region_has_year(all, #[trigger] regions[m], y) {
                        assert(region_has_year(all, regions[k as int], y));
                        assert(other@.contains(y));
                        assert(old_common.contains(y));
                    }
                }
            }
            k = k + 1;
        }
        proof {
            assert forall|y: i32| #[trigger] common@.contains(y) <==> year_in_common(all, regions, y) by {
                if common@.contains(y) {
                    assert forall|m: int| 0 <= m < regions.len() implies region_has_year(all, #[trigger] regions[m], y) by {
                    }
                }
            }
        }
    }
    let everything: bool = user_regions.len() == 0;
    let mut out: Vec<Row> = Vec::new();
    let mut taken: Vec<Row> = reversed(data_set);
    let ghost n: int = all.len() as int;
    while taken.len() > 0
        invariant
            all.len() == n,
            taken@.len() <= n,
            forall|k: int| 0 <= k < taken@.len() ==> #[trigger] taken@[k] == all[n - 1 - k],
            out@ == all.take(n - taken@.len()).filter(keep),
            keep == in_common_years(all, regions),
            everything == (regions.len() == 0),
            !everything ==> forall|y: i32| #[trigger] common@.contains(y) <==> year_in_common(all, regions, y),
        decreases taken@.len(),
    {
        let row: Row = taken.pop().unwrap();
        let ghost i = n - taken@.len() - 1;
        proof {
            assert(all[i] == row);
            assert(all.take(i + 1) =~= all.take(i).push(row));
            all.take(i).lemma_filter_push(row, keep);
        }
        let kept: bool = everything || has_year(&common, row.year);
        if kept {
            out.push(row);
        }
    }
    assert(all.take(n) =~= all);
    proof {
        filter_keeps_exactly(all, keep);
        assert forall|i: int, k: int|
            0 <= i < out@.len() && 0 <= k < user_regions@.len() implies all.contains(
                #[trigger] out@[i],
            ) && exists|j: int|
                0 <= j < all.len() && (#[trigger] all[j]).region@ == (
                #[trigger] user_regions@[k])@ && all[j].year == out@[i].year by {
            assert(keep(out@[i]));
            assert(regions[k] == user_regions@[k]@);
            assert(region_has_year(all, regions[k], out@[i].year));
        }
        assert forall|i: int|
            0 <= i < all.len() && (forall|k: int|
                0 <= k < user_regions@.len() ==> exists|j: int|
                    0 <= j < all.len() && (#[trigger] all[j]).region@ == (
                    #[trigger] user_regions@[k])@ && all[j].year == all[i].year) implies out@.contains(
            #[trigger] all[i],
        ) by {
            assert forall|k: int| 0 <= k < regions.len() implies region_has_year(
                all,
                #[trigger] regions[k],
                all[i].year,
            ) by {
                assert(regions[k] == user_regions@[k]@);
                assert(user_regions@[k]@ == regions[k]);
            }
            assert(keep(all[i]));
        }
    }
    out
}

/// The latest year that a query may start or end in: the last year with data,
/// less the number of years that a delta query looks ahead.
pub fn latest_query_year(max_year: i32, year_delta: i32) -> (r: i32)
    requires
        i32::MIN <= max_year - year_delta <= i32::MAX,
    ensures
        r == max_year - year_delta,
{
    max_year - year_delta
}

/// The most years that a delta query can look ahead: from the first to the last
/// year with data.
pub fn year_span(min_year: i32, max_year: i32) -> (r: i32)
    requires
        i32::MIN <= max_year - min_year <= i32::MAX,
    ensures
        r == max_year - min_year,
{
    max_year - min_year
}

/// Rows that pass two filters.
pub open spec fn both(p: spec_fn(Row) -> bool, q: spec_fn(Row) -> bool) -> spec_fn(Row) -> bool {
    |x: Row| p(x) && q(x)
}

proof fn lemma_filter_filter(s: Seq<Row>, p: spec_fn(Row) -> bool, q: spec_fn(Row) -> bool)
    ensures
        s.filter(p).filter(q) == s.filter(both(p, q)),
    decreases s.len(),
{
    reveal(Seq::filter);
    if s.len() > 0 {
        let init = s.drop_last();
        let last = s.last();
        lemma_filter_filter(init, p, q);
        init.filter(p).lemma_filter_push(last, q);
    }
}

/// Filtering by the requested regions twice is filtering once; filtering by
/// regions and by years gives the same rows in either order; no requested region
/// keeps no row.
pub proof fn filter_region_laws(d: Seq<Row>, u: Seq<Seq<char>>, start_year: i32, end_year: i32)
    ensures
        d.filter(in_regions(u)).filter(in_regions(u)) == d.filter(in_regions(u)),
        d.filter(in_years(start_year, end_year)).filter(in_regions(u)) == d.filter(in_regions(u)).filter(
            in_years(start_year, end_year),
        ),
        d.filter(in_regions(Seq::empty())) == Seq::<Row>::empty(),
{
    let r = in_regions(u);
    let y = in_years(start_year, end_year);
    lemma_filter_filter(d, r, r);
    assert(both(r, r) =~= r);
    lemma_filter_filter(d, y, r);
    lemma_filter_filter(d, r, y);
    assert(both(y, r) =~= both(r, y));
    d.lemma_all_neg_filter_empty(in_regions(Seq::empty()));
    assert(d.filter(in_regions(Seq::empty())) =~= Seq::<Row>::empty());
}

/// Two year filters make one: the later start and the earlier end.
pub proof fn year_filters_compose(d: Seq<Row>, a: i32, b: i32, c: i32, e: i32)
    ensures
        d.filter(in_years(a, b)).filter(in_years(c, e)) == d.filter(
            in_years(
                if a < c {
                    c
                } else {
                    a
                },
                if b < e {
                    b
                } else {
                    e
                },
            ),
        ),
{
    lemma_filter_filter(d, in_years(a, b), in_years(c, e));
    let lo = if a < c {
        c
    } else {
        a
    };
    let hi = if b < e {
        b
    } else {
        e
    };
    assert(both(in_years(a, b), in_years(c, e)) =~= in_years(lo, hi));
}

proof fn lemma_filter_map_add<B>(a: Seq<Row>, b: Seq<Row>, f: spec_fn(Row) -> Option<B>)
    ensures
        (a + b).filter_map(f) == a.filter_map(f) + b.filter_map(f),
    decreases b.len(),
{
    if b.len() == 0 {
        assert(a + b =~= a);
        assert(a.filter_map(f) + b.filter_map(f) =~= a.filter_map(f));
    } else {
        lemma_filter_map_add(a, b.drop_last(), f);
        assert((a + b).drop_last() =~= a + b.drop_last());
        assert((a + b).last() == b.last());
        match f(b.last()) {
            Some(x) => {
                assert(a.filter_map(f) + (b.drop_last().filter_map(f) + seq![x]) =~= (a.filter_map(f)
                    + b.drop_last().filter_map(f)) + seq![x]);
            },
            None => {},
        }
    }
}

/// A delta query over two lists of rows is the delta query over the first
/// followed by the delta query over the second.
pub proof fn delta_query_over_concatenation(
    a: Seq<Row>,
    b: Seq<Row>,
    table: Map<Seq<char>, (Seq<char>, i64)>,
    year_delta: i32,
)
    ensures
        (a + b).filter_map(later_match(table, year_delta)) == a.filter_map(
            later_match(table, year_delta),
        ) + b.filter_map(later_match(table, year_delta)),
{
    lemma_filter_map_add(a, b, later_match(table, year_delta));
}

proof fn lemma_filter_map_all_some<B>(s: Seq<Row>, f: spec_fn(Row) -> Option<B>, g: spec_fn(Row) -> B)
    requires
        forall|i: int| 0 <= i < s.len() ==> f(#[trigger] s[i]) == Some(g(s[i])),
    ensures
        s.filter_map(f) == s.map_values(g),
    decreases s.len(),
{
    if s.len() > 0 {
        let init = s.drop_last();
        assert forall|i: int| 0 <= i < init.len() implies f(#[trigger] init[i]) == Some(g(init[i])) by {
            assert(init[i] == s[i]);
        }
        lemma_filter_map_all_some(init, f, g);
        assert(f(s[s.len() - 1]) == Some(g(s[s.len() - 1])));
        assert(s.map_values(g) =~= init.map_values(g) + seq![g(s.last())]);
    } else {
        assert(s.map_values(g) =~= Seq::<B>::empty());
    }
}

/// A row paired with its own life expectancy.
pub open spec fn paired_with_itself() -> spec_fn(Row) -> DeltaMatch {
    |r: Row| DeltaMatch { row: r, later_life_expectancy: r.life_expectancy }
}

/// A delta query over zero years keeps every loaded row and pairs it with its own
/// life expectancy, so every change is zero, when no two records share a region
/// and a year.
pub proof fn delta_of_zero_years_keeps_rows(records: Seq<SourceRecord>, rows: Seq<Row>)
    requires
        rows.len() == records.len(),
        forall|i: int| 0 <= i < records.len() ==> loaded_row(records[i], #[trigger] rows[i]),
        forall|i: int, j: int|
            0 <= i < j < records.len() ==> record_key(#[trigger] records[i]) != record_key(
                #[trigger] records[j],
            ),
    ensures
        rows.filter_map(later_match(life_table_of(records), 0)) == rows.map_values(
            paired_with_itself(),
        ),
{
    let table = life_table_of(records);
    let f = later_match(table, 0);
    let g = paired_with_itself();
    assert forall|i: int| 0 <= i < rows.len() implies f(#[trigger] rows[i]) == Some(g(rows[i])) by {
        let key = record_key(records[i]);
        assert(loaded_row(records[i], rows[i]));
        assert(life_key_text(rows[i].region@, rows[i].year + 0) == key);
        life_table_holds_last_record(records, key);
        assert forall|j: int| i < j < records.len() implies record_key(#[trigger] records[j]) != key by {
        }
        assert(table.contains_key(key));
    }
    lemma_filter_map_all_some(rows, f, g);
}

/// The year filter keeps exactly the rows from the start year to the end year,
/// both included.
pub proof fn filter_years_law(d: Seq<Row>, start_year: i32, end_year: i32)
    ensures
        forall|i: int|
            0 <= i < d.filter(in_years(start_year, end_year)).len() ==> start_year <= (
            #[trigger] d.filter(in_years(start_year, end_year))[i]).year <= end_year,
        forall|i: int|
            0 <= i < d.len() && start_year <= (#[trigger] d[i]).year <= end_year ==> d.filter(
                in_years(start_year, end_year),
            ).contains(d[i]),
{
    filter_keeps_exactly(d, in_years(start_year, end_year));
}

/// The region filter keeps exactly the rows whose region equals one of the
/// requested regions.
pub proof fn filter_region_law(d: Seq<Row>, u: Seq<Seq<char>>)
    ensures
        forall|i: int|
            0 <= i < d.filter(in_regions(u)).len() ==> u.contains(
                (#[trigger] d.filter(in_regions(u))[i]).region@,
            ),
        forall|i: int, k: int|
            0 <= i < d.len() && 0 <= k < u.len() && #[trigger] u[k] == (#[trigger] d[i]).region@
                ==> d.filter(in_regions(u)).contains(d[i]),
{
    filter_keeps_exactly(d, in_regions(u));
    assert forall|i: int| 0 <= i < d.filter(in_regions(u)).len() implies u.contains(
        (#[trigger] d.filter(in_regions(u))[i]).region@,
    ) by {
        assert(in_regions(u)(d.filter(in_regions(u))[i]));
    }
    assert forall|i: int, k: int|
        0 <= i < d.len() && 0 <= k < u.len() && #[trigger] u[k] == (#[trigger] d[i]).region@
            implies d.filter(in_regions(u)).contains(d[i]) by {
        assert(u.contains(d[i].region@));
    }
}

/// The common-years filter keeps a row exactly when every chosen region, the
/// first one included, has a row of that row's year: a chosen region that lacks
/// a year removes that year.
pub proof fn common_years_law(d: Seq<Row>, u: Seq<Seq<char>>, kept: Seq<Row>)
    requires
        kept == d.filter(in_common_years(d, u)),
    ensures
        forall|i: int, k: int|
            0 <= i < kept.len() && 0 <= k < u.len() ==> d.contains(#[trigger] kept[i]) && exists|j: int|
                0 <= j < d.len() && (#[trigger] d[j]).region@ == #[trigger] u[k] && d[j].year == kept[i].year,
        forall|i: int| 0 <= i < kept.len() ==> d.contains(#[trigger] kept[i]),
        forall|i: int|
            0 <= i < d.len() && (forall|k: int|
                0 <= k < u.len() ==> exists|j: int|
                    0 <= j < d.len() && (#[trigger] d[j]).region@ == #[trigger] u[k] && d[j].year
                        == d[i].year) ==> kept.contains(#[trigger] d[i]),
{
    let keep = in_common_years(d, u);
    filter_keeps_exactly(d, keep);
    assert forall|i: int, k: int|
        0 <= i < kept.len() && 0 <= k < u.len() implies d.contains(#[trigger] kept[i]) && exists|j: int|
            0 <= j < d.len() && (#[trigger] d[j]).region@ == #[trigger] u[k] && d[j].year == kept[i].year by {
        assert(keep(kept[i]));
        assert(region_has_year(d, u[k], kept[i].year));
    }
    assert forall|i: int|
        0 <= i < d.len() && (forall|k: int|
            0 <= k < u.len() ==> exists|j: int|
                0 <= j < d.len() && (#[trigger] d[j]).region@ == #[trigger] u[k] && d[j].year
                    == d[i].year) implies kept.contains(#[trigger] d[i]) by {
        assert forall|k: int| 0 <= k < u.len() implies region_has_year(d, #[trigger] u[k], d[i].year) by {
        }
        assert(keep(d[i]));
    }
}

proof fn lemma_filter_map_keeps<B>(s: Seq<Row>, f: spec_fn(Row) -> Option<B>, i: int)
    requires
        0 <= i < s.len(),
        f(s[i]) is Some,
    ensures
        s.filter_map(f).contains(f(s[i])->0),
    decreases s.len(),
{
    let init = s.drop_last();
    let y = f(s[i])->0;
    if i == s.len() - 1 {
        assert(s.filter_map(f) == init.filter_map(f) + seq![y]);
        assert(s.filter_map(f)[init.filter_map(f).len() as int] == y);
    } else {
        assert(init[i] == s[i]);
        lemma_filter_map_keeps(init, f, i);
        let j = choose|j: int| 0 <= j < init.filter_map(f).len() && init.filter_map(f)[j] == y;
        match f(s.last()) {
            Some(z) => {
                assert(s.filter_map(f) == init.filter_map(f) + seq![z]);
                assert(s.filter_map(f)[j] == y);
            },
            None => {
                assert(s.filter_map(f) == init.filter_map(f));
            },
        }
    }
}

/// A delta query pairs a row with the life expectancy that the table holds for
/// the row's region `year_delta` years after the row's year: every pair comes
/// from a row that has such a record and carries that record's life expectancy,
/// and every row that has such a record is paired with it.
pub proof fn delta_query_law(
    d: Seq<Row>,
    table: Map<Seq<char>, (Seq<char>, i64)>,
    year_delta: i32,
    matches: Seq<DeltaMatch>,
)
    requires
        matches == d.filter_map(later_match(table, year_delta)),
    ensures
        forall|m: DeltaMatch|
            #[trigger] matches.contains(m) ==> d.contains(m.row) && table.contains_key(
                life_key_text(m.row.region@, m.row.year + year_delta),
            ) && m.later_life_expectancy == table[life_key_text(
                m.row.region@,
                m.row.year + year_delta,
            )].1,
        forall|i: int|
            0 <= i < d.len() && table.contains_key(
                life_key_text((#[trigger] d[i]).region@, d[i].year + year_delta),
            ) ==> matches.contains(
                (DeltaMatch {
                    row: d[i],
                    later_life_expectancy: table[life_key_text(d[i].region@, d[i].year + year_delta)].1,
                }),
            ),
{
    let f = later_match(table, year_delta);
    assert forall|m: DeltaMatch| #[trigger] matches.contains(m) implies d.contains(m.row)
        && table.contains_key(life_key_text(m.row.region@, m.row.year + year_delta))
        && m.later_life_expectancy == table[life_key_text(m.row.region@, m.row.year + year_delta)].1 by {
        d.lemma_filter_map_contains(f, m);
        let t = choose|t: Row| #[trigger] d.contains(t) && f(t) == Some(m);
        assert(t == m.row);
    }
    assert forall|i: int|
        0 <= i < d.len() && table.contains_key(
            life_key_text((#[trigger] d[i]).region@, d[i].year + year_delta),
        ) implies matches.contains(
            (DeltaMatch {
                row: d[i],
                later_life_expectancy: table[life_key_text(d[i].region@, d[i].year + year_delta)].1,
            }),
        ) by {
        lemma_filter_map_keeps(d, f, i);
    }
}

} // verus!
