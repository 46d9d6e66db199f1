use spreadsheet::basic::{max, min, swap_char, swap_int};

#[test]
fn test_min_macro() {
    // a < b
    assert_eq!(min(3, 5), 3);
    // a > b
    assert_eq!(min(5, 3), 3);
    // equal values
    assert_eq!(min(4, 4), 4);
    // negative numbers
    assert_eq!(min(-5, 3), -5);
    // same type different values
    assert_eq!(min(10u32 as i64, 5u32 as i64), 5u32 as i64);
}

#[test]
fn test_max_macro() {
    assert_eq!(max(5, 3), 5);
    assert_eq!(max(3, 5), 5);
    assert_eq!(max(4, 4), 4);
    assert_eq!(max(-5, -3), -3);
    assert_eq!(max(10u32 as i64, 5u32 as i64), 10u32 as i64);
}

#[test]
fn test_swap_char() {
    let mut a = b'a';
    let mut b = b'b';
    swap_char(&mut a, &mut b);
    assert_eq!(a, b'b');
    assert_eq!(b, b'a');

    let mut c = b'x';
    let mut d = b'x';
    swap_char(&mut c, &mut d);
    assert_eq!(c, b'x');
    assert_eq!(d, b'x');

    let mut e = u8::MIN;
    let mut f = u8::MAX;
    swap_char(&mut e, &mut f);
    assert_eq!(e, u8::MAX);
    assert_eq!(f, u8::MIN);
}

#[test]
fn test_swap_int() {
    let mut a = 10;
    let mut b = 20;
    swap_int(&mut a, &mut b);
    assert_eq!(a, 20);
    assert_eq!(b, 10);

    let mut c = -5;
    let mut d = -3;
    swap_int(&mut c, &mut d);
    assert_eq!(c, -3);
    assert_eq!(d, -5);

    let mut e = 0;
    let mut f = 15;
    swap_int(&mut e, &mut f);
    assert_eq!(e, 15);
    assert_eq!(f, 0);

    let mut g = i32::MIN;
    let mut h = i32::MAX;
    swap_int(&mut g, &mut h);
    assert_eq!(g, i32::MAX);
    assert_eq!(h, i32::MIN);
}

#[test]
fn test_macro_expression_safety() {
    assert_eq!(min(2 + 3 * 2, 10 - 1), 8);
    assert_eq!(max(2 + 3 * 2, 10 - 1), 9);

    let mut x = 5;
    let result = min(
        {
            x += 1;
            x
        },
        7,
    );
    assert_eq!(result, 6);
    assert_eq!(x, 6);
}
