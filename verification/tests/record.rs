use edpi::record::PlayerRecord;

#[test]
fn a_new_record_has_its_edpi() {
    let r = PlayerRecord::new("PlayerX".to_string(), "TeamA".to_string(), 350_000, 800);
    assert_eq!(r.name, "PlayerX");
    assert_eq!(r.team, "TeamA");
    assert_eq!(r.sens, 350_000);
    assert_eq!(r.dpi, 800);
    assert_eq!(r.edpi, 280_000_000);
    let extreme = PlayerRecord::new(String::new(), String::new(), i64::MIN, i32::MIN);
    assert_eq!(extreme.edpi, 1i128 << 94);
}

#[test]
fn a_clone_is_the_same_record() {
    let r = PlayerRecord::new("PlayerX".to_string(), "TeamA".to_string(), 350_000, 800);
    let c = r.clone();
    assert_eq!((c.name, c.team, c.sens, c.dpi, c.edpi), (r.name, r.team, r.sens, r.dpi, r.edpi));
}

#[test]
fn valid_means_named_with_positive_sensitivity_and_derived_edpi() {
    let good = PlayerRecord::new("N".to_string(), "T".to_string(), 350_000, 800);
    assert!(good.is_valid());
    assert!(PlayerRecord::new("N".to_string(), String::new(), 1, 1).is_valid());
    assert!(!PlayerRecord::new("N".to_string(), "T".to_string(), -1, -1).is_valid());
    assert!(!PlayerRecord::new("N".to_string(), "T".to_string(), -350_000, -800).is_valid());
    assert!(!PlayerRecord::new(String::new(), "T".to_string(), 350_000, 800).is_valid());
    assert!(!PlayerRecord::new("N".to_string(), "T".to_string(), 0, 800).is_valid());
    assert!(!PlayerRecord::new("N".to_string(), "T".to_string(), 350_000, 0).is_valid());
    assert!(!PlayerRecord::new("N".to_string(), "T".to_string(), -350_000, 800).is_valid());
    let mut forged = PlayerRecord::new("N".to_string(), "T".to_string(), 350_000, 800);
    forged.edpi += 1;
    assert!(!forged.is_valid());
}
