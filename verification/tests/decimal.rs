use missing_files::decimal::{to_decimal, to_decimal_concat};

#[test]
fn decimal_of_single_digits() {
    assert_eq!(to_decimal(0), "0");
    assert_eq!(to_decimal(7), "7");
    assert_eq!(to_decimal(9), "9");
}

#[test]
fn decimal_of_larger_numbers() {
    assert_eq!(to_decimal(10), "10");
    assert_eq!(to_decimal(100), "100");
    assert_eq!(to_decimal(1234567890), "1234567890");
    assert_eq!(to_decimal(4294967295), "4294967295");
}

#[test]
fn decimal_agrees_with_the_standard_notation() {
    let mut n: u32 = 1;
    for _ in 0..40 {
        assert_eq!(to_decimal(n), n.to_string());
        assert_eq!(to_decimal(n - 1), (n - 1).to_string());
        n = n.wrapping_mul(7).wrapping_add(13);
    }
}

#[test]
fn decimal_concat_runs_the_bytes_together() {
    assert_eq!(to_decimal_concat(&[]), "");
    assert_eq!(to_decimal_concat(&[0]), "0");
    assert_eq!(to_decimal_concat(&[10, 255]), "10255");
    assert_eq!(to_decimal_concat(&[1, 2, 3]), "123");
    assert_eq!(to_decimal_concat(&[12, 3]), "123");
    assert_eq!(to_decimal_concat(&[0, 0, 200]), "00200");
}
