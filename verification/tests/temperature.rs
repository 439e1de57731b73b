use pico_webserver::temperature::{adc_to_milli_c, write_decimal1};
use pico_webserver::text::{StackText, WriteError};

#[test]
fn adc_conversion_values() {
    assert_eq!(adc_to_milli_c(0), 437226);
    assert_eq!(adc_to_milli_c(1), 436758);
    assert_eq!(adc_to_milli_c(650), 132863);
    assert_eq!(adc_to_milli_c(876), 27038);
    assert_eq!(adc_to_milli_c(1000), -31024);
    assert_eq!(adc_to_milli_c(4095), -1480263);
    assert_eq!(adc_to_milli_c(65535), -30249633);
}

#[test]
fn adc_conversion_never_rises_with_the_sample() {
    let mut last = adc_to_milli_c(0);
    for raw in 1..=4095u16 {
        let t = adc_to_milli_c(raw);
        assert!(t <= last);
        last = t;
    }
}

fn decimal1(milli: i32) -> String {
    let mut t = StackText::<32>::new();
    assert_eq!(write_decimal1(&mut t, milli), Ok(()));
    String::from_utf8(t.as_bytes().to_vec()).unwrap()
}

#[test]
fn one_decimal_cuts_toward_zero() {
    assert_eq!(decimal1(27038), "27.0");
    assert_eq!(decimal1(27999), "27.9");
    assert_eq!(decimal1(0), "0.0");
    assert_eq!(decimal1(99), "0.0");
    assert_eq!(decimal1(-500), "-0.5");
    assert_eq!(decimal1(-1250), "-1.2");
    assert_eq!(decimal1(-31024), "-31.0");
    assert_eq!(decimal1(i32::MAX), "2147483.6");
    assert_eq!(decimal1(i32::MIN + 1), "-2147483.6");
}

#[test]
fn one_decimal_stops_at_the_first_part_that_does_not_fit() {
    let mut t = StackText::<3>::new();
    assert_eq!(write_decimal1(&mut t, -12345), Err(WriteError));
    assert_eq!(t.as_bytes(), b"-12");
    let mut t = StackText::<4>::new();
    assert_eq!(write_decimal1(&mut t, 12345), Ok(()));
    assert_eq!(t.as_bytes(), b"12.3");
}
