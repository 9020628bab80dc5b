use iron_pi::format::format_with_commas;

#[test]
fn commas_small_numbers() {
    assert_eq!(format_with_commas(0), "0");
    assert_eq!(format_with_commas(7), "7");
    assert_eq!(format_with_commas(42), "42");
    assert_eq!(format_with_commas(999), "999");
}

#[test]
fn commas_groups_of_three() {
    assert_eq!(format_with_commas(1000), "1,000");
    assert_eq!(format_with_commas(1_000_001), "1,000,001");
    assert_eq!(format_with_commas(1_234_567), "1,234,567");
    assert_eq!(format_with_commas(12_345), "12,345");
    assert_eq!(format_with_commas(100_200_300), "100,200,300");
}

#[test]
fn commas_largest_value() {
    assert_eq!(format_with_commas(u64::MAX), "18,446,744,073,709,551,615");
}
