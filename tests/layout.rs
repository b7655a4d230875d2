use kvs::layout::{parse_decimal, segment_id_of, segment_ids};

#[test]
fn segment_names() {
    assert_eq!(segment_id_of("1.db"), Some(1));
    assert_eq!(segment_id_of("42.db"), Some(42));
    assert_eq!(segment_id_of("18446744073709551615.db"), Some(u64::MAX));
    assert_eq!(segment_id_of("18446744073709551616.db"), None);
    assert_eq!(segment_id_of("1_2.db"), None);
    assert_eq!(segment_id_of("a.db"), None);
    assert_eq!(segment_id_of(".db"), None);
    assert_eq!(segment_id_of("7.txt"), None);
    assert_eq!(segment_id_of("last_engine.txt"), None);
}

#[test]
fn segment_listing_sorted_and_unique() {
    let names: Vec<String> = ["10.db", "2.db", "x.db", "last_engine.txt", "02.db", "1.db"]
        .iter()
        .map(|s| s.to_string())
        .collect();
    assert_eq!(segment_ids(&names), vec![1, 2, 10]);
    assert_eq!(segment_ids(&Vec::new()), Vec::<u64>::new());
}

#[test]
fn decimal_parsing() {
    assert_eq!(parse_decimal("x123y", 1, 4), Some(123));
    assert_eq!(parse_decimal("0", 0, 1), Some(0));
    assert_eq!(parse_decimal("", 0, 0), None);
    assert_eq!(parse_decimal("+5", 0, 2), None);
}
