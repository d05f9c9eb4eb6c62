use reduce_target::util::{commaize, fix_display_path, humanize, pad_left, to_decimal};

#[test]
fn humanize_values() {
    assert_eq!(humanize(0), "0.00 B");
    assert_eq!(humanize(1024), "1.00 K");
    assert_eq!(humanize(1536), "1.50 K");
    assert_eq!(humanize(1048576), "1.00 M");
}

#[test]
fn humanize_edges() {
    assert_eq!(humanize(1), "1.00 B");
    assert_eq!(humanize(1023), "1023.00 B");
    assert_eq!(humanize(1025), "1.00 K");
    assert_eq!(humanize(1024 * 1024 * 1024), "1.00 G");
    assert_eq!(humanize(5 * 1024 * 1024 * 1024 + 512 * 1024 * 1024), "5.50 G");
    // The fraction truncates: one byte short of 16 EiB shows as 15.99 E.
    assert_eq!(humanize(u64::MAX), "15.99 E");
}

#[test]
fn commaize_values() {
    assert_eq!(commaize(0), "0");
    assert_eq!(commaize(999), "999");
    assert_eq!(commaize(1000), "1,000");
    assert_eq!(commaize(1234567), "1,234,567");
}

#[test]
fn commaize_keeps_group_zeros() {
    assert_eq!(commaize(1000000), "1,000,000");
    assert_eq!(commaize(1002003), "1,002,003");
    assert_eq!(commaize(u64::MAX), "18,446,744,073,709,551,615");
}

#[test]
fn decimal_values() {
    assert_eq!(to_decimal(0), "0");
    assert_eq!(to_decimal(42), "42");
    assert_eq!(to_decimal(90210), "90210");
}

#[test]
fn display_path_joins_components() {
    assert_eq!(
        fix_display_path(&vec!["proj".to_string(), "target".to_string()]),
        "proj/target"
    );
    assert_eq!(fix_display_path(&vec!["target".to_string()]), "target");
    assert_eq!(fix_display_path(&Vec::new()), "");
}

#[test]
fn pad_left_widths() {
    assert_eq!(pad_left("abc", 5), "  abc");
    assert_eq!(pad_left("abcdef", 5), "abcdef");
    assert_eq!(pad_left("", 3), "   ");
}
