use crimson::text::{append_decimal, append_digits, str_equal, str_less};

#[test]
fn strings_are_ordered_like_in_a_dictionary() {
    let ascending = ["", "A", "AA", "AB", "B", "U1", "U10", "U2", "a", "\u{e9}", "\u{1F36A}"];
    for (i, a) in ascending.iter().enumerate() {
        for (j, b) in ascending.iter().enumerate() {
            assert_eq!(str_less(a, b), i < j, "{a:?} before {b:?}");
            assert_eq!(str_less(a, b), a < b);
            assert_eq!(str_equal(a, b), i == j);
        }
    }
}

#[test]
fn numbers_are_written_in_decimal() {
    let mut out = String::from("n=");
    append_digits(&mut out, 0);
    append_digits(&mut out, 905);
    append_digits(&mut out, u64::MAX);
    assert_eq!(out, "n=090518446744073709551615");
    let mut signed = String::new();
    append_decimal(&mut signed, -1);
    append_decimal(&mut signed, 20);
    append_decimal(&mut signed, i64::MIN);
    assert_eq!(signed, "-120-9223372036854775808");
    for n in [0i64, 9, 10, 99, 100, 101, -9, -10, 4_000_000_000, i64::MAX] {
        let mut text = String::new();
        append_decimal(&mut text, n);
        assert_eq!(text, n.to_string());
    }
}
