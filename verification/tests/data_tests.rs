use life_expectancy::query::{
    delta_query, filter_common_years, filter_region, filter_years, first_rows,
    latest_query_year, order_rows, region_column_width, year_range, year_span, ORDER_DATE_ASC, ORDER_DATE_DES, ORDER_DELTA_ASC, ORDER_DELTA_DES,
    ORDER_LIFE_ASC, ORDER_LIFE_DES, ORDER_REGION_DES, QUERY_TYPE_DELTA, QUERY_TYPE_GENERAL,
};
use life_expectancy::record::{life_key, load_records, Row, SourceRecord};
use life_expectancy::sort::{sort_by_delta, sort_by_life_expectancy, sort_by_region, sort_by_year};

fn record(region: &str, code: &str, year: i32, life: i64) -> SourceRecord {
    SourceRecord {
        region: region.to_string(),
        code: code.to_string(),
        year,
        life_expectancy: life,
    }
}

fn row(region: &str, year: i32, life: i64, delta: i64) -> Row {
    Row {
        region: region.to_string(),
        code: String::new(),
        year,
        life_expectancy: life,
        delta,
    }
}

fn summary(rows: &[Row]) -> Vec<(String, i32, i64, i64)> {
    rows.iter()
        .map(|r| (r.region.clone(), r.year, r.life_expectancy, r.delta))
        .collect()
}

#[test]
fn life_key_joins_region_and_year() {
    assert_eq!(life_key("afghanistan", 1950), "afghanistan:1950");
    assert_eq!(life_key("x", -5), "x:-5");
}

#[test]
fn load_records_lower_cases_and_files_records() {
    let records = vec![
        record("FRANCE", "FRA", 1950, 66),
        record("Spain", "ESP", 1950, 62),
        record("France", "fra", 1951, 67),
    ];
    let (table, rows) = load_records(&records);
    assert_eq!(rows.len(), 3);
    assert_eq!(rows[0].region, "france");
    assert_eq!(rows[0].code, "fra");
    assert_eq!(rows[1].region, "spain");
    assert_eq!(rows[1].code, "esp");
    assert_eq!(rows[2].year, 1951);
    assert_eq!(rows[2].life_expectancy, 67);
    assert_eq!(rows[2].delta, 0);
    assert_eq!(table.life_expectancy_at("france", 1950), Some(66));
    assert_eq!(table.life_expectancy_at("france", 1951), Some(67));
    assert_eq!(table.life_expectancy_at("spain", 1950), Some(62));
    assert_eq!(table.life_expectancy_at("spain", 1951), None);
    assert_eq!(table.life_expectancy_at("FRANCE", 1950), None);
}

#[test]
fn the_last_record_of_a_region_and_year_wins() {
    let records = vec![record("a", "a", 2000, 10), record("A", "a", 2000, 20)];
    let (table, rows) = load_records(&records);
    assert_eq!(rows.len(), 2);
    assert_eq!(table.life_expectancy_at("a", 2000), Some(20));
}

#[test]
fn filter_region_keeps_requested_regions_in_order() {
    let rows = vec![row("a", 1, 0, 0), row("b", 2, 0, 0), row("c", 3, 0, 0), row("a", 4, 0, 0)];
    let kept = filter_region(rows, vec!["a".to_string(), "c".to_string()]);
    assert_eq!(
        summary(&kept),
        vec![("a".to_string(), 1, 0, 0), ("c".to_string(), 3, 0, 0), ("a".to_string(), 4, 0, 0)]
    );
    let none = filter_region(vec![row("a", 1, 0, 0)], vec![]);
    assert!(none.is_empty());
}

#[test]
fn filter_years_keeps_both_ends() {
    let rows = vec![row("a", 1949, 0, 0), row("a", 1950, 0, 0), row("a", 1960, 0, 0), row("a", 1961, 0, 0)];
    let kept = filter_years(rows, 1950, 1960);
    assert_eq!(kept.iter().map(|r| r.year).collect::<Vec<_>>(), vec![1950, 1960]);
    let empty = filter_years(vec![row("a", 1955, 0, 0)], 1960, 1950);
    assert!(empty.is_empty());
}

#[test]
fn full_year_range_keeps_every_row() {
    let rows = vec![row("a", 1955, 0, 0), row("b", 1950, 0, 0), row("c", 1970, 0, 0)];
    let (lo, hi) = year_range(&rows).unwrap();
    assert_eq!((lo, hi), (1950, 1970));
    assert_eq!(filter_years(rows, lo, hi).len(), 3);
}

#[test]
fn delta_query_pairs_rows_with_later_records() {
    let records = vec![
        record("a", "a", 2000, 70),
        record("a", "a", 2005, 75),
        record("b", "b", 2000, 60),
        record("a", "a", 2010, 79),
    ];
    let (table, rows) = load_records(&records);
    let matches = delta_query(rows, &table, 5);
    let found: Vec<(String, i32, i64)> = matches
        .iter()
        .map(|m| (m.row.region.clone(), m.row.year, m.later_life_expectancy))
        .collect();
    assert_eq!(found, vec![("a".to_string(), 2000, 75), ("a".to_string(), 2005, 79)]);
}

#[test]
fn year_range_of_no_rows_is_none() {
    assert_eq!(year_range(&vec![]), None);
    assert_eq!(year_range(&vec![row("a", 7, 0, 0)]), Some((7, 7)));
}

#[test]
fn first_rows_cuts_the_result_short() {
    let rows = vec![row("a", 1, 0, 0), row("b", 2, 0, 0), row("c", 3, 0, 0)];
    assert_eq!(first_rows(rows.clone(), 2).len(), 2);
    assert_eq!(first_rows(rows.clone(), 20000).len(), 3);
    assert_eq!(first_rows(rows, 0).len(), 0);
}

#[test]
fn region_column_width_counts_bytes() {
    let rows = vec![row("chad", 1, 0, 0), row("côte d'ivoire", 1, 0, 0)];
    assert_eq!(region_column_width(&rows), Some(16));
    assert_eq!(region_column_width(&vec![]), None);
}

#[test]
fn sorts_are_stable() {
    let rows = vec![row("b", 2000, 5, 0), row("a", 1990, 5, 0), row("c", 2000, 3, 0), row("d", 1990, 3, 0)];
    let by_year = sort_by_year(rows.clone(), true);
    assert_eq!(by_year.iter().map(|r| r.region.as_str()).collect::<Vec<_>>(), vec!["a", "d", "b", "c"]);
    let by_year_desc = sort_by_year(rows.clone(), false);
    assert_eq!(by_year_desc.iter().map(|r| r.region.as_str()).collect::<Vec<_>>(), vec!["b", "c", "a", "d"]);
    let by_life = sort_by_life_expectancy(rows.clone(), true);
    assert_eq!(by_life.iter().map(|r| r.region.as_str()).collect::<Vec<_>>(), vec!["c", "d", "b", "a"]);
    let by_life_desc = sort_by_life_expectancy(rows, false);
    assert_eq!(by_life_desc.iter().map(|r| r.region.as_str()).collect::<Vec<_>>(), vec!["b", "a", "c", "d"]);
}

#[test]
fn sort_by_region_is_alphabetical_by_code_point() {
    let rows = vec![row("zambia", 1, 0, 0), row("Zambia", 2, 0, 0), row("chad", 3, 0, 0), row("côte", 4, 0, 0), row("chad", 0, 0, 0)];
    let sorted = sort_by_region(rows);
    assert_eq!(
        sorted.iter().map(|r| (r.region.as_str(), r.year)).collect::<Vec<_>>(),
        vec![("Zambia", 2), ("chad", 3), ("chad", 0), ("côte", 4), ("zambia", 1)]
    );
}

#[test]
fn sort_by_delta_handles_negative_changes() {
    let rows = vec![row("a", 1, 0, 4), row("b", 1, 0, -3), row("c", 1, 0, 0)];
    let up = sort_by_delta(rows.clone(), true);
    assert_eq!(up.iter().map(|r| r.delta).collect::<Vec<_>>(), vec![-3, 0, 4]);
    let down = sort_by_delta(rows, false);
    assert_eq!(down.iter().map(|r| r.delta).collect::<Vec<_>>(), vec![4, 0, -3]);
}

#[test]
fn sorting_a_large_set_keeps_every_row() {
    let mut rows = Vec::new();
    for i in 0..5000i32 {
        rows.push(row("r", (i * 7919) % 101, (i % 13) as i64, 0));
    }
    let sorted = sort_by_year(rows.clone(), true);
    assert_eq!(sorted.len(), rows.len());
    for w in sorted.windows(2) {
        assert!(w[0].year <= w[1].year);
    }
    let mut expected = rows.clone();
    expected.sort_by(|a, b| a.year.cmp(&b.year));
    assert_eq!(summary(&sorted), summary(&expected));
}

#[test]
fn order_rows_follows_the_menu() {
    let rows = vec![row("b", 2000, 5, 2), row("a", 1990, 7, -1), row("c", 1995, 3, 9)];
    let names = |v: Vec<Row>| v.iter().map(|r| r.region.clone()).collect::<Vec<_>>();
    assert_eq!(names(order_rows(rows.clone(), QUERY_TYPE_GENERAL, ORDER_LIFE_ASC)), vec!["c", "b", "a"]);
    assert_eq!(names(order_rows(rows.clone(), QUERY_TYPE_GENERAL, ORDER_LIFE_DES)), vec!["a", "b", "c"]);
    assert_eq!(names(order_rows(rows.clone(), QUERY_TYPE_GENERAL, ORDER_DATE_ASC)), vec!["a", "c", "b"]);
    assert_eq!(names(order_rows(rows.clone(), QUERY_TYPE_GENERAL, ORDER_DATE_DES)), vec!["b", "c", "a"]);
    assert_eq!(names(order_rows(rows.clone(), QUERY_TYPE_GENERAL, ORDER_REGION_DES)), vec!["a", "b", "c"]);
    assert_eq!(names(order_rows(rows.clone(), QUERY_TYPE_DELTA, ORDER_DELTA_ASC)), vec!["c", "b", "a"]);
    assert_eq!(names(order_rows(rows.clone(), QUERY_TYPE_DELTA, ORDER_DELTA_DES)), vec!["a", "b", "c"]);
    assert_eq!(names(order_rows(rows.clone(), QUERY_TYPE_DELTA, ORDER_LIFE_ASC)), vec!["c", "b", "a"]);
    assert_eq!(names(order_rows(rows, QUERY_TYPE_GENERAL, 9)), vec!["b", "a", "c"]);
}

#[test]
fn sorting_sorted_rows_changes_nothing() {
    let rows = vec![row("b", 2000, 5, 0), row("a", 1990, 5, 0), row("c", 2000, 3, 0)];
    let once = sort_by_year(rows, false);
    let twice = sort_by_year(once.clone(), false);
    assert_eq!(summary(&once), summary(&twice));
    let by_region = sort_by_region(once.clone());
    assert_eq!(summary(&sort_by_region(by_region.clone())), summary(&by_region));
}

#[test]
fn common_years_keeps_years_every_region_has() {
    let rows = vec![
        row("a", 2000, 1, 0),
        row("a", 2001, 2, 0),
        row("b", 2001, 3, 0),
        row("b", 2002, 4, 0),
        row("a", 2002, 5, 0),
        row("c", 2002, 6, 0),
    ];
    let regions = vec!["a".to_string(), "b".to_string()];
    let kept = filter_common_years(rows.clone(), &regions);
    assert_eq!(
        kept.iter().map(|r| (r.region.as_str(), r.year)).collect::<Vec<_>>(),
        vec![("a", 2001), ("b", 2001), ("b", 2002), ("a", 2002), ("c", 2002)]
    );
    let three = vec!["a".to_string(), "b".to_string(), "c".to_string()];
    assert_eq!(filter_common_years(rows.clone(), &three).len(), 3);
    assert_eq!(filter_common_years(rows.clone(), &vec![]).len(), 6);
    let missing = vec!["a".to_string(), "z".to_string()];
    assert!(filter_common_years(rows, &missing).is_empty());
}

#[test]
fn year_bounds_for_prompts() {
    assert_eq!(year_span(1950, 2019), 69);
    assert_eq!(latest_query_year(2019, 10), 2009);
    assert_eq!(latest_query_year(2019, 0), 2019);
}
