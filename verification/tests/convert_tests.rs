use spreadsheet::convert::int_to_cell_ref;
use spreadsheet::convert::{alpha_to_num, num_to_alpha};

#[test]
fn test_num_to_alpha_basic() {
    assert_eq!(num_to_alpha(1), "A");
    assert_eq!(num_to_alpha(26), "Z");
    assert_eq!(num_to_alpha(27), "AA");
    assert_eq!(num_to_alpha(28), "AB");
    assert_eq!(num_to_alpha(52), "AZ");
    assert_eq!(num_to_alpha(53), "BA");
    assert_eq!(num_to_alpha(702), "ZZ");
    assert_eq!(num_to_alpha(703), "AAA");
}

#[test]
fn test_num_to_alpha_edge_cases() {
    assert_eq!(num_to_alpha(0), "");
    assert_eq!(num_to_alpha(16384), "XFD");
    assert_eq!(num_to_alpha(1353), "AZA");
}

#[test]
fn test_alpha_to_num_valid() {
    assert_eq!(alpha_to_num("A"), Some(1));
    assert_eq!(alpha_to_num("Z"), Some(26));
    assert_eq!(alpha_to_num("AA"), Some(27));
    assert_eq!(alpha_to_num("AB"), Some(28));
    assert_eq!(alpha_to_num("AZ"), Some(52));
    assert_eq!(alpha_to_num("BA"), Some(53));
    assert_eq!(alpha_to_num("ZZ"), Some(702));
    assert_eq!(alpha_to_num("AAA"), Some(703));
    assert_eq!(alpha_to_num("XFD"), Some(16384));
}

#[test]
fn test_alpha_to_num_invalid() {
    assert_eq!(alpha_to_num(""), None);
    assert_eq!(alpha_to_num("a"), None);
    assert_eq!(alpha_to_num("aA"), None);
    assert_eq!(alpha_to_num("A1"), None);
    assert_eq!(alpha_to_num("A!"), None);
    assert_eq!(alpha_to_num(" "), None);
    assert_eq!(alpha_to_num("Ä"), None);
    assert_eq!(alpha_to_num("AB CD"), None);
}

#[test]
fn test_round_trip_conversion() {
    for n in 1..=1000 {
        let alpha = num_to_alpha(n);
        let converted = alpha_to_num(&alpha).unwrap();
        assert_eq!(n, converted as u32);
    }

    let test_values = vec![16384, 12345, 9999, 703, 702];
    for &n in &test_values {
        let alpha = num_to_alpha(n);
        let converted = alpha_to_num(&alpha).unwrap();
        assert_eq!(n, converted as u32);
    }
}

#[test]
fn test_round_trip_names() {
    for name in ["A", "Z", "AA", "AZ", "ZZ", "AAA", "XFD", "ZZZ"] {
        let n = alpha_to_num(name).unwrap();
        assert_eq!(num_to_alpha(n as u32), name);
    }
}

#[test]
fn test_alpha_to_num_long_name_wraps() {
    // 14 letters exceed 64 bits: the value wraps around instead of failing.
    assert!(alpha_to_num("ZZZZZZZZZZZZZZ").is_some());
}

#[test]
fn test_int_to_cell_ref_names() {
    assert_eq!(int_to_cell_ref(0, 5), "A1");
    assert_eq!(int_to_cell_ref(7, 5), "C2");
    assert_eq!(int_to_cell_ref(30, 26), "E2");
    assert_eq!(int_to_cell_ref(29, 30), "AD1");
    assert_eq!(int_to_cell_ref(18277 + 18278 * 998, 18278), "ZZZ999");
}
