use edpi::query::{convert_for_page, convert_request, convert_sensitivity, find_named};
use edpi::query::find_similar;
use edpi::query::{read_optional_i32, read_optional_millionths, search, SIMILAR_LIMIT};
use edpi::record::PlayerRecord;
use edpi::store::Store;

fn player(name: &str, sens: i64, dpi: i32) -> PlayerRecord {
    PlayerRecord::new(name.to_string(), "Team".to_string(), sens, dpi)
}

fn names(players: &Vec<PlayerRecord>) -> Vec<String> {
    players.iter().map(|p| p.name.clone()).collect()
}

fn store_of(batch: Vec<PlayerRecord>) -> Store {
    let mut store = Store::new();
    store.replace_all(&batch, 1);
    store
}

#[test]
fn search_without_a_query_gives_all() {
    let store = store_of(vec![player("Bob", 350_000, 800), player("amy", 350_000, 800), player("Bea", 350_000, 800)]);
    assert_eq!(names(&search(&store, None)), vec!["Bea", "Bob", "amy"]);
    assert_eq!(names(&search(&store, Some("b"))), vec!["Bea", "Bob"]);
    assert_eq!(names(&search(&store, Some(""))), vec!["Bea", "Bob", "amy"]);
    assert_eq!(names(&search(&store, Some("x"))), Vec::<String>::new());
}

#[test]
fn similar_players_are_ranked_by_edpi() {
    let store = store_of(vec![
        player("a", 275_000_000, 1),
        player("b", 280_000_000, 1),
        player("c", 300_000_000, 1),
        player("d", 1_000_000_000, 1),
    ]);
    let found = find_similar(&store, 800, 350_000);
    let edpis: Vec<i128> = found.iter().map(|p| p.edpi).collect();
    assert_eq!(edpis, vec![280_000_000, 275_000_000, 300_000_000, 1_000_000_000]);
}

#[test]
fn similar_players_are_ten_at_most() {
    let mut batch = Vec::new();
    for i in 0..25 {
        batch.push(player(&format!("n{:02}", i), 100_000 + i * 10_000, 800));
    }
    let store = store_of(batch);
    let found = find_similar(&store, 800, 200_000);
    assert_eq!(SIMILAR_LIMIT, 10);
    assert_eq!(found.len(), 10);
    assert_eq!(found[0].name, "n10");
    assert_eq!(names(&found)[1..3], ["n09".to_string(), "n11".to_string()]);
}

#[test]
fn conversion_to_a_target_dpi() {
    assert_eq!(convert_sensitivity(&Vec::new(), Some(800), Some(400_000), Some(400), None), Some(800));
    assert_eq!(convert_sensitivity(&Vec::new(), Some(400), Some(800_000), Some(800), None), Some(400));
    assert_eq!(convert_sensitivity(&Vec::new(), Some(800), Some(350_000), Some(1600), None), Some(175));
    assert_eq!(convert_sensitivity(&Vec::new(), Some(800), Some(350_000), Some(3), None), Some(93_333));
    assert_eq!(convert_sensitivity(&Vec::new(), Some(1), Some(1), Some(1), None), Some(0));
}

#[test]
fn conversion_rounds_halves_up() {
    // 0.0005 exactly: a half goes away from zero
    assert_eq!(convert_sensitivity(&Vec::new(), Some(1), Some(500), Some(1), None), Some(1));
    assert_eq!(convert_sensitivity(&Vec::new(), Some(1), Some(499), Some(1), None), Some(0));
    // 800 * 0.35 / 1280 = 0.21875
    assert_eq!(convert_sensitivity(&Vec::new(), Some(800), Some(350_000), Some(1280), None), Some(219));
    // 3 * 0.0005 / 2 = 0.00075
    assert_eq!(convert_sensitivity(&Vec::new(), Some(3), Some(500), Some(2), None), Some(1));
}

#[test]
fn conversion_to_ones_own_dpi_gives_the_sensitivity_back() {
    for dpi in [1, 400, 800, 1600, 3200, i32::MAX] {
        for sens in [1i64, 499, 500, 350_000, 351_499, 351_500, 1_000_000, 12_345_678, i64::MAX] {
            let out = convert_sensitivity(&Vec::new(), Some(dpi), Some(sens), Some(dpi), None).unwrap();
            assert!((out * 1000 - sens as i128).abs() <= 500, "dpi {} sens {}", dpi, sens);
        }
    }
}

#[test]
fn conversion_to_a_selected_player() {
    let players = vec![player("Amy", 350_000, 800), player("Bob", 800_000, 400), player("Amy", 1_000_000, 400)];
    assert_eq!(convert_sensitivity(&players, Some(400), Some(500_000), None, Some("Amy")), Some(700));
    assert_eq!(convert_sensitivity(&players, Some(1600), Some(500_000), None, Some("Bob")), Some(200));
    assert_eq!(convert_sensitivity(&players, Some(1600), Some(500_000), None, Some("amy")), None);
    assert_eq!(convert_sensitivity(&players, Some(1600), Some(500_000), None, Some("Am")), None);
    assert_eq!(convert_sensitivity(&players, Some(1600), Some(500_000), None, Some("")), None);
    assert_eq!(convert_sensitivity(&players, Some(1600), Some(500_000), None, None), None);
}

#[test]
fn a_target_dpi_goes_before_a_selected_player() {
    let players = vec![player("Amy", 350_000, 800)];
    assert_eq!(convert_sensitivity(&players, Some(800), Some(400_000), Some(400), Some("Amy")), Some(800));
    // a target that is not positive counts as none given
    assert_eq!(convert_sensitivity(&players, Some(400), Some(400_000), Some(0), Some("Amy")), Some(700));
    assert_eq!(convert_sensitivity(&players, Some(400), Some(400_000), Some(-400), Some("Amy")), Some(700));
    assert_eq!(convert_sensitivity(&players, Some(400), Some(400_000), Some(0), None), None);
}

#[test]
fn no_conversion_without_ones_own_settings() {
    let players = vec![player("Amy", 350_000, 800)];
    assert_eq!(convert_sensitivity(&players, None, Some(400_000), Some(400), Some("Amy")), None);
    assert_eq!(convert_sensitivity(&players, Some(800), None, Some(400), Some("Amy")), None);
    assert_eq!(convert_sensitivity(&players, None, None, Some(400), Some("Amy")), None);
    assert_eq!(convert_sensitivity(&players, Some(0), Some(400_000), Some(400), Some("Amy")), None);
    assert_eq!(convert_sensitivity(&players, Some(-800), Some(400_000), Some(400), Some("Amy")), None);
    assert_eq!(convert_sensitivity(&players, Some(800), Some(0), Some(400), Some("Amy")), None);
    assert_eq!(convert_sensitivity(&players, Some(800), Some(-1), Some(400), Some("Amy")), None);
}

#[test]
fn a_name_finds_its_first_record() {
    let players = vec![player("Amy", 350_000, 800), player("Bob", 800_000, 400), player("Amy", 1_000_000, 400)];
    assert_eq!(find_named(&players, "Amy").unwrap().dpi, 800);
    assert_eq!(find_named(&players, "Bob").unwrap().dpi, 400);
    assert!(find_named(&players, "Cid").is_none());
    assert!(find_named(&Vec::new(), "Amy").is_none());
}

#[test]
fn a_request_is_read_and_converted() {
    let players = vec![player("Amy", 350_000, 800)];
    let out = convert_request(&players, Some("800"), Some("0.4"), Some("400"), None);
    assert_eq!(out.your_dpi, Some(800));
    assert_eq!(out.your_sens, Some(400_000));
    assert_eq!(out.target_dpi, Some(400));
    assert_eq!(out.converted, Some(800));
    let out = convert_request(&players, Some("400"), Some("0.5"), None, Some("Amy"));
    assert_eq!(out.target_dpi, None);
    assert_eq!(out.converted, Some(700));
}

#[test]
fn settings_that_cannot_be_read_count_as_absent() {
    let players = vec![player("Amy", 350_000, 800)];
    let out = convert_request(&players, Some("fast"), Some("0.4"), Some("400"), Some("Amy"));
    assert_eq!(out.your_dpi, None);
    assert_eq!(out.your_sens, Some(400_000));
    assert_eq!(out.converted, None);
    let out = convert_request(&players, Some("400"), Some("0.5"), Some("many"), Some("Amy"));
    assert_eq!(out.target_dpi, None);
    assert_eq!(out.converted, Some(700));
    let out = convert_request(&players, Some("400"), Some(""), Some("800"), None);
    assert_eq!(out.your_sens, None);
    assert_eq!(out.converted, None);
    let out = convert_request(&players, None, None, None, None);
    assert_eq!((out.your_dpi, out.your_sens, out.target_dpi, out.converted), (None, None, None, None));
    assert_eq!(read_optional_i32(Some("12")), Some(12));
    assert_eq!(read_optional_i32(Some("1.2")), None);
    assert_eq!(read_optional_i32(None), None);
    assert_eq!(read_optional_millionths(Some("1.2")), Some(1_200_000));
    assert_eq!(read_optional_millionths(Some("x")), None);
    assert_eq!(read_optional_millionths(None), None);
}

#[test]
fn a_selected_player_is_sought_in_the_whole_store() {
    let store = store_of(vec![player("A", 500_000, 800), player("B", 1_000_000, 400)]);
    let (listed, conversion) =
        convert_for_page(&store, Some("B"), Some("1600"), Some("1.0"), None, Some("A"));
    assert_eq!(names(&listed), vec!["B"]);
    assert_eq!(conversion.your_dpi, Some(1600));
    assert_eq!(conversion.your_sens, Some(1_000_000));
    assert_eq!(conversion.target_dpi, None);
    assert_eq!(conversion.converted, Some(250));
}

#[test]
fn the_page_lists_what_the_search_text_finds() {
    let store = store_of(vec![player("Amy", 350_000, 800), player("Bob", 800_000, 400)]);
    let (listed, conversion) = convert_for_page(&store, None, None, None, None, None);
    assert_eq!(names(&listed), vec!["Amy", "Bob"]);
    assert_eq!(conversion.converted, None);
    let (listed, conversion) =
        convert_for_page(&store, Some("a"), Some("800"), Some("0.4"), Some("400"), Some("Bob"));
    assert_eq!(names(&listed), vec!["Amy"]);
    assert_eq!(conversion.converted, Some(800));
    let (listed, conversion) =
        convert_for_page(&store, Some("zz"), Some("400"), Some("0.5"), None, Some("Cid"));
    assert!(listed.is_empty());
    assert_eq!(conversion.converted, None);
}
