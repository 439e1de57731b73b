use pico_webserver::digits::{write_hex08, write_u64};
use pico_webserver::text::{StackText, WriteError};

#[test]
fn new_text_is_empty() {
    let t = StackText::<8>::new();
    assert_eq!(t.as_bytes(), b"");
    assert_eq!(t.len(), 0);
}

#[test]
fn write_str_appends_when_it_fits() {
    let mut t = StackText::<8>::new();
    assert_eq!(t.write_str("abc"), Ok(()));
    assert_eq!(t.write_str("defgh"), Ok(()));
    assert_eq!(t.as_bytes(), b"abcdefgh");
    assert_eq!(t.len(), 8);
}

#[test]
fn write_str_that_does_not_fit_changes_nothing() {
    let mut t = StackText::<5>::new();
    assert_eq!(t.write_str("abc"), Ok(()));
    assert_eq!(t.write_str("def"), Err(WriteError));
    assert_eq!(t.as_bytes(), b"abc");
    assert_eq!(t.write_str("de"), Ok(()));
    assert_eq!(t.as_bytes(), b"abcde");
    assert_eq!(t.write_byte(b'x'), Err(WriteError));
    assert_eq!(t.write_str(""), Ok(()));
}

#[test]
fn empty_write_into_a_full_text() {
    let mut t = StackText::<3>::new();
    assert_eq!(t.write_str("abc"), Ok(()));
    assert_eq!(t.write_str(""), Ok(()));
    assert_eq!(t.as_bytes(), b"abc");
}

#[test]
fn two_writes_and_one_joined_write_agree() {
    let mut x = StackText::<16>::new();
    let mut y = StackText::<16>::new();
    assert_eq!(x.write_str("ab"), Ok(()));
    assert_eq!(x.write_str("cde"), Ok(()));
    assert_eq!(y.write_str("abcde"), Ok(()));
    assert_eq!(x.as_bytes(), y.as_bytes());
}

#[test]
fn write_bytes_and_byte() {
    let mut t = StackText::<4>::new();
    assert_eq!(t.write_bytes(&[1, 2]), Ok(()));
    assert_eq!(t.write_byte(3), Ok(()));
    assert_eq!(t.as_bytes(), &[1, 2, 3]);
}

#[test]
fn zero_capacity_text_refuses_everything_but_nothing() {
    let mut t = StackText::<0>::new();
    assert_eq!(t.write_str(""), Ok(()));
    assert_eq!(t.write_byte(b'a'), Err(WriteError));
    assert_eq!(t.as_bytes(), b"");
}

#[test]
fn decimal_numbers() {
    let mut t = StackText::<64>::new();
    for v in [0u64, 7, 10, 99, 100, 4095, 1234567890, u64::MAX] {
        t = StackText::<64>::new();
        assert_eq!(write_u64(&mut t, v), Ok(()));
        assert_eq!(t.as_bytes(), v.to_string().as_bytes());
    }
    let _ = t;
}

#[test]
fn decimal_that_does_not_fit_changes_nothing() {
    let mut t = StackText::<4>::new();
    assert_eq!(t.write_str("a"), Ok(()));
    assert_eq!(write_u64(&mut t, 1234), Err(WriteError));
    assert_eq!(t.as_bytes(), b"a");
    assert_eq!(write_u64(&mut t, 123), Ok(()));
    assert_eq!(t.as_bytes(), b"a123");
}

#[test]
fn hex_numbers_are_padded_to_eight_digits() {
    let cases: [(u64, &str); 5] = [
        (0, "00000000"),
        (0x1234, "00001234"),
        (0x2007_f000, "2007f000"),
        (0xdead_beef_cafe, "deadbeefcafe"),
        (u64::MAX, "ffffffffffffffff"),
    ];
    for (v, expected) in cases {
        let mut t = StackText::<32>::new();
        assert_eq!(write_hex08(&mut t, v), Ok(()));
        assert_eq!(t.as_bytes(), expected.as_bytes());
        assert_eq!(format!("{:08x}", v), expected);
    }
}

#[test]
fn hex_that_does_not_fit_stops_at_the_first_piece_that_does_not() {
    let mut t = StackText::<7>::new();
    assert_eq!(write_hex08(&mut t, 1), Err(WriteError));
    assert_eq!(t.as_bytes(), b"0000000");
    let mut t = StackText::<3>::new();
    assert_eq!(write_hex08(&mut t, 0x1234), Err(WriteError));
    assert_eq!(t.as_bytes(), b"000");
    let mut t = StackText::<9>::new();
    assert_eq!(write_hex08(&mut t, 0xdead_beef_ca), Err(WriteError));
    assert_eq!(t.as_bytes(), b"");
}
