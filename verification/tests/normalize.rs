use edpi::normalize::{normalize_row, normalize_rows, read_dpi, read_sens};

fn row(cells: &[&str]) -> Vec<String> {
    cells.iter().map(|c| c.to_string()).collect()
}

#[test]
fn a_row_gives_its_record() {
    let r = normalize_row(&row(&["", "TeamA", "PlayerX", "", "", "800", "0.35", ""])).unwrap();
    assert_eq!(r.name, "PlayerX");
    assert_eq!(r.team, "TeamA");
    assert_eq!(r.dpi, 800);
    assert_eq!(r.sens, 350_000);
    assert_eq!(r.edpi, 280_000_000);
    assert!(r.is_valid());
}

#[test]
fn edpi_is_dpi_times_sens() {
    for (dpi, sens) in [("400", "0.8"), ("1600", "0.175"), ("800", "1"), ("3200", "0.05"), ("1", "0.000001"), ("2147483647", "9223372036854.775807")] {
        let r = normalize_row(&row(&["1", "T", "N", "", "", dpi, sens, ""])).unwrap();
        assert!(r.dpi > 0 && r.sens > 0);
        assert_eq!(r.edpi, (r.dpi as i128) * (r.sens as i128));
    }
}

#[test]
fn a_short_row_is_skipped() {
    assert!(normalize_row(&row(&[])).is_none());
    assert!(normalize_row(&row(&["", "TeamA", "PlayerX", "", "", "800", "0.35"])).is_none());
}

#[test]
fn a_longer_row_is_read_by_the_same_columns() {
    let r = normalize_row(&row(&["", "TeamA", "PlayerX", "", "", "800", "0.35", "", "extra", "more"])).unwrap();
    assert_eq!(r.name, "PlayerX");
    assert_eq!(r.edpi, 280_000_000);
}

#[test]
fn a_row_without_a_name_is_skipped() {
    assert!(normalize_row(&row(&["", "TeamA", "", "", "", "800", "0.35", ""])).is_none());
}

#[test]
fn a_row_whose_edpi_is_not_positive_is_skipped() {
    for (dpi, sens) in [("0", "0.35"), ("800", "0"), ("800", "0.0"), ("-800", "0.35"), ("800", "-0.35"), ("800", "0.0000001")] {
        assert!(normalize_row(&row(&["", "T", "N", "", "", dpi, sens, ""])).is_none(), "{} {}", dpi, sens);
    }
}

#[test]
fn what_cannot_be_read_counts_as_zero() {
    assert_eq!(read_dpi("800"), 800);
    assert_eq!(read_dpi("eight hundred"), 0);
    assert_eq!(read_dpi(""), 0);
    assert_eq!(read_dpi("800.0"), 0);
    assert_eq!(read_dpi("99999999999"), 0);
    assert_eq!(read_sens("0.35"), 350_000);
    assert_eq!(read_sens("n/a"), 0);
    assert_eq!(read_sens(""), 0);
    assert_eq!(read_sens("0,35"), 0);
    assert_eq!(read_sens("3.5e-1"), 350_000);
    assert_eq!(read_sens("inf"), 0);
    assert_eq!(read_sens("1e13"), 0);
    for (dpi, sens) in [("n/a", "0.35"), ("800", "n/a"), ("", ""), ("800dpi", "0.35")] {
        assert!(normalize_row(&row(&["", "T", "N", "", "", dpi, sens, ""])).is_none());
    }
}

#[test]
fn a_row_with_a_negative_sensitivity_is_skipped() {
    assert!(normalize_row(&row(&["", "T", "X", "", "", "-800", "-0.35", ""])).is_none());
    assert!(normalize_row(&row(&["", "T", "X", "", "", "-1", "-0.000001", ""])).is_none());
    assert!(normalize_rows(&vec![row(&["", "T", "X", "", "", "-800", "-0.35", ""])]).is_empty());
}

#[test]
fn a_batch_keeps_the_valid_rows_in_order() {
    let rows = vec![
        row(&["1", "TeamA", "Zed", "", "", "800", "0.35", ""]),
        row(&["2", "TeamB", "", "", "", "800", "0.35", ""]),
        row(&["3", "TeamC"]),
        row(&["4", "TeamD", "Amy", "", "", "400", "0.8", ""]),
        row(&["5", "TeamE", "Bob", "", "", "x", "0.8", ""]),
        row(&["6", "TeamF", "Zed", "", "", "1600", "0.2", ""]),
    ];
    let batch = normalize_rows(&rows);
    let names: Vec<&str> = batch.iter().map(|r| r.name.as_str()).collect();
    assert_eq!(names, vec!["Zed", "Amy", "Zed"]);
    assert_eq!(batch[0].edpi, 280_000_000);
    assert_eq!(batch[1].edpi, 320_000_000);
    assert_eq!(batch[2].edpi, 320_000_000);
    assert!(normalize_rows(&Vec::new()).is_empty());
}

#[test]
fn the_smallest_sensitivity_kept_is_a_millionth() {
    let r = normalize_row(&row(&["", "T", "N", "", "", "800", "0.000001", ""])).unwrap();
    assert_eq!(r.sens, 1);
    assert_eq!(r.edpi, 800);
    let r = normalize_row(&row(&["", "T", "N", "", "", "800", "1e-6", ""])).unwrap();
    assert_eq!(r.sens, 1);
    assert!(normalize_row(&row(&["", "T", "N", "", "", "800", "0.0000009", ""])).is_none());
    assert!(normalize_row(&row(&["", "T", "N", "", "", "800", "9e-7", ""])).is_none());
    let r = normalize_row(&row(&["", "T", "N", "", "", "1", "9223372036854.775807", ""])).unwrap();
    assert_eq!(r.sens, i64::MAX);
    assert!(normalize_row(&row(&["", "T", "N", "", "", "1", "9223372036854.775808", ""])).is_none());
}

#[test]
fn a_sensitivity_with_an_exponent_is_read() {
    let r = normalize_row(&row(&["", "TeamA", "PlayerX", "", "", "800", "3.5e-1", ""])).unwrap();
    assert_eq!(r.sens, 350_000);
    assert_eq!(r.edpi, 280_000_000);
}
