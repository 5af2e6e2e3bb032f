use nano_vault::ui::{format_amount, format_entry_count, format_position, format_unsigned};
use nano_vault::utils::{nv_format_amount_cents, nv_format_unsigned};

fn amount(cents: i64) -> String {
    let mut buffer = [0u8; 32];
    format_amount(cents, &mut buffer).to_string()
}

#[test]
fn amount_zero() {
    assert_eq!(amount(0), "$0.00");
}

#[test]
fn amount_small_cents() {
    assert_eq!(amount(5), "$0.05");
    assert_eq!(amount(10), "$0.10");
    assert_eq!(amount(99), "$0.99");
}

#[test]
fn amount_dollars_and_cents() {
    assert_eq!(amount(123456), "$1234.56");
    assert_eq!(amount(50_000), "$500.00");
}

#[test]
fn amount_negative() {
    assert_eq!(amount(-123456), "-$1234.56");
    assert_eq!(amount(-1), "-$0.01");
}

#[test]
fn amount_extremes() {
    assert_eq!(amount(i64::MAX), "$92233720368547758.07");
    assert_eq!(amount(i64::MIN), "-$92233720368547758.08");
}

#[test]
fn amount_into_short_buffer_writes_nothing() {
    let mut out = [7u8; 4];
    assert_eq!(nv_format_amount_cents(12345, &mut out), 0);
    assert_eq!(out, [7u8; 4]);
}

#[test]
fn amount_into_exact_buffer() {
    let mut out = [7u8; 5];
    assert_eq!(nv_format_amount_cents(-5, &mut out[..]), 0);
    assert_eq!(out, [7u8; 5]);
    let mut out = [7u8; 6];
    assert_eq!(nv_format_amount_cents(-5, &mut out[..]), 6);
    assert_eq!(&out, b"-$0.05");
}

#[test]
fn amount_leaves_rest_of_buffer() {
    let mut out = [9u8; 10];
    assert_eq!(nv_format_amount_cents(250, &mut out), 5);
    assert_eq!(&out[..5], b"$2.50");
    assert_eq!(&out[5..], &[9u8; 5]);
}

#[test]
fn distinct_amounts_give_distinct_text() {
    let amounts = [0i64, 1, -1, 10, 100, -100, 1000, 10_000, 99_999, -99_999, i64::MAX, i64::MIN];
    for (i, a) in amounts.iter().enumerate() {
        for (j, b) in amounts.iter().enumerate() {
            if i != j {
                assert_ne!(amount(*a), amount(*b));
            }
        }
    }
}

#[test]
fn unsigned_zero_and_max() {
    let mut out = [0u8; 20];
    assert_eq!(nv_format_unsigned(0, &mut out), 1);
    assert_eq!(out[0], b'0');
    let mut out = [0u8; 20];
    assert_eq!(nv_format_unsigned(u64::MAX, &mut out), 20);
    assert_eq!(&out, b"18446744073709551615");
}

#[test]
fn unsigned_digits_read_back() {
    for value in [1u64, 9, 10, 11, 99, 100, 101, 4096, 1_000_000_007, u64::MAX - 1] {
        let mut out = [b'x'; 20];
        let len = nv_format_unsigned(value, &mut out);
        let text = std::str::from_utf8(&out[..len]).unwrap();
        assert_eq!(text.parse::<u64>().unwrap(), value);
        assert!(text == "0" || !text.starts_with('0'));
        assert!(out[len..].iter().all(|b| *b == b'x'));
    }
}

#[test]
fn format_unsigned_into_slice() {
    let mut out = [b'x'; 6];
    assert_eq!(format_unsigned(4321, &mut out), 4);
    assert_eq!(&out, b"4321xx");
    let mut out = [b'x'; 1];
    assert_eq!(format_unsigned(0, &mut out), 1);
    assert_eq!(&out, b"0");
}

#[test]
fn position_text() {
    let mut buffer = [0u8; 8];
    assert_eq!(format_position(1, 8, &mut buffer), "1/8");
    let mut buffer = [0u8; 8];
    assert_eq!(format_position(12, 345, &mut buffer), "12/345");
}

#[test]
fn entry_count_text() {
    let mut buffer = [0u8; 16];
    assert_eq!(format_entry_count(1, &mut buffer), "1 ENTRY");
    let mut buffer = [0u8; 16];
    assert_eq!(format_entry_count(0, &mut buffer), "0 ENTRIES");
    let mut buffer = [0u8; 16];
    assert_eq!(format_entry_count(8, &mut buffer), "8 ENTRIES");
    let mut buffer = [0u8; 16];
    assert_eq!(format_entry_count(12_345_678, &mut buffer), "12345678 ENTRIES");
}
