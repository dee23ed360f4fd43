use life_expectancy::input::{answer_is_yes, first_int_value, int_input_step, IntInput};
use life_expectancy::record::Row;
use life_expectancy::region::{create_region_dict, region_listing, region_tokens, resolve_region_tokens, RegionDict};

fn row(region: &str, code: &str) -> Row {
    Row {
        region: region.to_string(),
        code: code.to_string(),
        year: 2000,
        life_expectancy: 0,
        delta: 0,
    }
}

fn dict() -> RegionDict {
    create_region_dict(vec![
        row("spain", "esp"),
        row("world", "owid_wrl"),
        row("france", "fra"),
        row("asia", ""),
        row("france", "xxx"),
        row("spain", "esp"),
    ])
}

fn pick(d: &RegionDict, line: &str) -> Result<Vec<String>, Vec<String>> {
    resolve_region_tokens(d, region_tokens(line))
}

#[test]
fn create_region_dict_keeps_the_first_code() {
    let d = dict();
    assert_eq!(d.len(), 4);
    let entries: Vec<(String, String)> =
        d.entries().iter().map(|e| (e.region.clone(), e.code.clone())).collect();
    assert_eq!(
        entries,
        vec![
            ("spain".to_string(), "esp".to_string()),
            ("world".to_string(), "owid_wrl".to_string()),
            ("france".to_string(), "fra".to_string()),
            ("asia".to_string(), "".to_string()),
        ]
    );
}

#[test]
fn region_listing_is_sorted_with_codes() {
    let listing = region_listing(&dict());
    let pairs: Vec<(String, String)> =
        listing.iter().map(|e| (e.region.clone(), e.code.clone())).collect();
    assert_eq!(
        pairs,
        vec![
            ("asia".to_string(), "".to_string()),
            ("france".to_string(), "fra".to_string()),
            ("spain".to_string(), "esp".to_string()),
            ("world".to_string(), "owid_wrl".to_string()),
        ]
    );
}

#[test]
fn region_tokens_clean_the_answer() {
    assert_eq!(region_tokens(" France , FRA,fra\n"), vec!["fra", "france"]);
    assert_eq!(region_tokens("a,b,a"), vec!["a", "b"]);
    assert_eq!(region_tokens("b, a ,c"), vec!["a", "b", "c"]);
    assert_eq!(region_tokens("\n"), vec![""]);
}

#[test]
fn regions_are_chosen_by_name_or_code() {
    let d = dict();
    assert_eq!(pick(&d, "FRA\n"), Ok(vec!["france".to_string()]));
    assert_eq!(pick(&d, "Spain, world"), Ok(vec!["spain".to_string(), "world".to_string()]));
    assert_eq!(pick(&d, "esp,esp"), Ok(vec!["spain".to_string()]));
}

#[test]
fn a_region_named_twice_is_chosen_once() {
    let d = create_region_dict(vec![row("france", "fra"), row("germany", "deu")]);
    assert_eq!(pick(&d, "france, germany, france\n"), Ok(vec!["france".to_string(), "germany".to_string()]));
    assert_eq!(pick(&d, "germany, france"), Ok(vec!["france".to_string(), "germany".to_string()]));
}

#[test]
fn unknown_regions_are_reported() {
    let d = dict();
    assert_eq!(pick(&d, "nowhere\n"), Err(vec!["nowhere".to_string()]));
    assert_eq!(pick(&d, "fra, nowhere, elsewhere"), Err(vec!["elsewhere".to_string(), "nowhere".to_string()]));
}

#[test]
fn an_empty_token_finds_a_region_with_an_empty_code() {
    let d = dict();
    assert_eq!(pick(&d, "fra,,"), Ok(vec!["asia".to_string(), "france".to_string()]));
}

#[test]
fn all_chooses_every_region() {
    let d = dict();
    assert_eq!(
        pick(&d, "ALL\n"),
        Ok(vec!["spain".to_string(), "world".to_string(), "france".to_string(), "asia".to_string()])
    );
}

#[test]
fn countries_leaves_out_continents() {
    let d = dict();
    assert_eq!(pick(&d, "countries\n"), Ok(vec!["spain".to_string(), "france".to_string()]));
    let only_groups = create_region_dict(vec![row("world", "owid_wrl")]);
    assert_eq!(pick(&only_groups, "countries"), Err(vec![]));
}

#[test]
fn a_region_named_like_a_code_resolves_through_the_code() {
    let d = create_region_dict(vec![row("abc", "x"), row("x", "y")]);
    assert_eq!(pick(&d, "x"), Ok(vec!["abc".to_string()]));
    assert_eq!(pick(&d, "abc"), Ok(vec!["abc".to_string()]));
}

#[test]
fn int_input_accepts_only_numbers_in_range() {
    let start = first_int_value(5);
    assert_eq!(start, 6);
    assert_eq!(int_input_step("3\n", start, 1, 5), IntInput::Accepted(3));
    assert_eq!(int_input_step(" 2 ", start, 1, 5), IntInput::Accepted(2));
    assert_eq!(int_input_step("9\n", start, 1, 5), IntInput::Rejected(9));
    assert_eq!(int_input_step("abc\n", start, 1, 5), IntInput::Rejected(6));
    assert_eq!(int_input_step("abc\n", 4, 1, 5), IntInput::Accepted(4));
    assert_eq!(int_input_step("-1\n", start, -1, 5), IntInput::Accepted(-1));
}

#[test]
fn yes_answers_start_with_y() {
    assert_eq!(answer_is_yes("Yes\n"), Some(true));
    assert_eq!(answer_is_yes("y"), Some(true));
    assert_eq!(answer_is_yes("no\n"), Some(false));
    assert_eq!(answer_is_yes("\n"), Some(false));
    assert_eq!(answer_is_yes(""), None);
}
