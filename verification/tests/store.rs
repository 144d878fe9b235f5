use edpi::record::PlayerRecord;
use edpi::store::Store;

fn player(name: &str, team: &str, sens: i64, dpi: i32) -> PlayerRecord {
    PlayerRecord::new(name.to_string(), team.to_string(), sens, dpi)
}

fn names(players: &Vec<PlayerRecord>) -> Vec<String> {
    players.iter().map(|p| p.name.clone()).collect()
}

fn sample() -> Store {
    let mut store = Store::new();
    store.replace_all(
        &vec![
            player("zeta", "T1", 350_000, 800),
            player("Alpha", "T2", 800_000, 400),
            player("alpine", "T3", 200_000, 1600),
            player("Bravo", "T4", 500_000, 800),
            player("ALbert", "T5", 1_000_000, 400),
        ],
        1_700_000_000,
    );
    store
}

#[test]
fn a_new_store_is_empty_and_never_refreshed() {
    let store = Store::new();
    assert_eq!(store.len(), 0);
    assert!(store.get_all().is_empty());
    assert_eq!(store.last_refresh_timestamp(), None);
    assert!(store.search_by_prefix("a").is_empty());
    assert!(store.nearest_by_metric(280_000_000, 10).is_empty());
}

#[test]
fn get_all_is_in_name_order() {
    let store = sample();
    assert_eq!(store.len(), 5);
    assert_eq!(names(&store.get_all()), vec!["ALbert", "Alpha", "Bravo", "alpine", "zeta"]);
    assert_eq!(store.last_refresh_timestamp(), Some(1_700_000_000));
}

#[test]
fn replace_all_leaves_nothing_of_the_old_table() {
    let mut store = sample();
    store.replace_all(&vec![player("Nova", "T9", 400_000, 800)], 1_700_086_400);
    assert_eq!(names(&store.get_all()), vec!["Nova"]);
    assert_eq!(store.last_refresh_timestamp(), Some(1_700_086_400));
    store.replace_all(&Vec::new(), 1_700_172_800);
    assert!(store.get_all().is_empty());
    assert_eq!(store.last_refresh_timestamp(), Some(1_700_172_800));
}

#[test]
fn of_two_records_with_one_name_the_last_stays() {
    let mut store = Store::new();
    store.replace_all(
        &vec![
            player("Twin", "Old", 350_000, 800),
            player("Other", "T", 350_000, 800),
            player("Twin", "New", 400_000, 800),
        ],
        5,
    );
    let all = store.get_all();
    assert_eq!(names(&all), vec!["Other", "Twin"]);
    assert_eq!(all[1].team, "New");
    assert_eq!(all[1].edpi, 320_000_000);
}

#[test]
fn records_that_may_not_be_persisted_are_left_out() {
    let mut store = Store::new();
    let mut forged = player("Forged", "T", 350_000, 800);
    forged.edpi = 1;
    store.replace_all(
        &vec![
            player("", "NoName", 350_000, 800),
            player("Zero", "T", 0, 800),
            player("Minus", "T", -350_000, 800),
            player("BothMinus", "T", -350_000, -800),
            forged,
            player("Good", "T", 350_000, 800),
            player("Twin", "Kept", 350_000, 800),
            player("Twin", "Invalid", 0, 800),
        ],
        5,
    );
    let all = store.get_all();
    assert_eq!(names(&all), vec!["Good", "Twin"]);
    assert_eq!(all[1].team, "Kept");
}

#[test]
fn prefix_search_sets_case_aside() {
    let store = sample();
    assert_eq!(names(&store.search_by_prefix("al")), vec!["ALbert", "Alpha", "alpine"]);
    assert_eq!(names(&store.search_by_prefix("AL")), vec!["ALbert", "Alpha", "alpine"]);
    assert_eq!(names(&store.search_by_prefix("alp")), vec!["Alpha", "alpine"]);
    assert_eq!(names(&store.search_by_prefix("ZETA")), vec!["zeta"]);
    assert_eq!(names(&store.search_by_prefix("zetas")), Vec::<String>::new());
    assert_eq!(names(&store.search_by_prefix("lp")), Vec::<String>::new());
}

#[test]
fn the_empty_prefix_finds_every_record() {
    let store = sample();
    assert_eq!(names(&store.search_by_prefix("")), names(&store.get_all()));
}

#[test]
fn prefix_search_takes_the_query_literally() {
    let mut store = Store::new();
    store.replace_all(
        &vec![player("a_c", "T", 350_000, 800), player("abc", "T", 350_000, 800), player("a%", "T", 350_000, 800)],
        5,
    );
    assert_eq!(names(&store.search_by_prefix("a_")), vec!["a_c"]);
    assert_eq!(names(&store.search_by_prefix("a%")), vec!["a%"]);
    assert_eq!(names(&store.search_by_prefix("%")), Vec::<String>::new());
}

#[test]
fn nearest_come_nearest_first() {
    let mut store = Store::new();
    store.replace_all(
        &vec![
            player("a", "T", 275_000_000, 1),
            player("b", "T", 280_000_000, 1),
            player("c", "T", 300_000_000, 1),
            player("d", "T", 1_000_000_000, 1),
        ],
        5,
    );
    let found = store.nearest_by_metric(280_000_000, 10);
    let edpis: Vec<i128> = found.iter().map(|p| p.edpi).collect();
    assert_eq!(edpis, vec![280_000_000, 275_000_000, 300_000_000, 1_000_000_000]);
}

#[test]
fn nearest_are_at_most_the_limit_and_the_table() {
    let store = sample();
    assert_eq!(store.nearest_by_metric(0, 0).len(), 0);
    assert_eq!(store.nearest_by_metric(0, 3).len(), 3);
    assert_eq!(store.nearest_by_metric(0, 5).len(), 5);
    assert_eq!(store.nearest_by_metric(0, 10).len(), 5);
    assert_eq!(store.nearest_by_metric(0, usize::MAX).len(), 5);
    let three = store.nearest_by_metric(400_000_000, 3);
    let gaps: Vec<i128> = three.iter().map(|p| (p.edpi - 400_000_000).abs()).collect();
    assert_eq!(gaps, vec![0, 0, 80_000_000]);
}

#[test]
fn equally_near_records_come_in_name_order() {
    let mut store = Store::new();
    store.replace_all(
        &vec![
            player("d", "T", 290_000_000, 1),
            player("c", "T", 270_000_000, 1),
            player("b", "T", 290_000_000, 1),
            player("a", "T", 270_000_000, 1),
            player("e", "T", 281_000_000, 1),
        ],
        5,
    );
    assert_eq!(names(&store.nearest_by_metric(280_000_000, 10)), vec!["e", "a", "b", "c", "d"]);
    assert_eq!(names(&store.nearest_by_metric(280_000_000, 3)), vec!["e", "a", "b"]);
    assert_eq!(names(&store.nearest_by_metric(i128::MIN, 2)), vec!["a", "c"]);
    assert_eq!(names(&store.nearest_by_metric(i128::MAX, 2)), vec!["b", "d"]);
}

#[test]
fn a_large_table_is_ranked_like_a_stable_sort() {
    let mut batch = Vec::new();
    let mut seed: u64 = 12345;
    for i in 0..200 {
        seed = seed.wrapping_mul(6364136223846793005).wrapping_add(1442695040888963407);
        let sens = 100_000 + ((seed >> 33) % 50) as i64 * 10_000;
        batch.push(player(&format!("n{:03}", (i * 37) % 200), "T", sens, 800));
    }
    let mut store = Store::new();
    store.replace_all(&batch, 5);
    let all = store.get_all();
    assert_eq!(all.len(), 200);
    let mut sorted = names(&all);
    sorted.sort();
    assert_eq!(names(&all), sorted);
    let target: i128 = 280_000_000;
    let mut expected = all.clone();
    expected.sort_by_key(|p| (p.edpi - target).abs());
    expected.truncate(10);
    let found = store.nearest_by_metric(target, 10);
    assert_eq!(names(&found), names(&expected));
}
