use edpi::name::{rank, starts_with, Rank};

#[test]
fn rank_is_the_order_of_the_bytes() {
    let names = ["", "A", "B", "a", "aa", "ab", "b", "Zed", "zed", "é", "日本", "a\u{0}", "TenZ", "tenz"];
    for a in names {
        for b in names {
            let expected = match a.as_bytes().cmp(b.as_bytes()) {
                std::cmp::Ordering::Less => Rank::Before,
                std::cmp::Ordering::Equal => Rank::Same,
                std::cmp::Ordering::Greater => Rank::After,
            };
            assert_eq!(rank(a.as_bytes(), b.as_bytes()), expected, "{:?} and {:?}", a, b);
        }
    }
}

#[test]
fn prefix_sets_ascii_case_aside() {
    assert!(starts_with(b"TenZ", b"ten"));
    assert!(starts_with(b"tenz", b"TEN"));
    assert!(starts_with(b"TenZ", b""));
    assert!(starts_with(b"TenZ", b"TenZ"));
    assert!(!starts_with(b"TenZ", b"TenZz"));
    assert!(!starts_with(b"TenZ", b"en"));
    assert!(!starts_with("Émile".as_bytes(), "émile".as_bytes()));
    assert!(starts_with("Émile".as_bytes(), "Ém".as_bytes()));
    assert!(!starts_with(b"[x", b"{x"));
    assert!(!starts_with(b"@x", b"`x"));
}
