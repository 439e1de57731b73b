use pico_webserver::stats::{write_ipv4, Readings, Stats};

use pico_webserver::text::{StackText, WriteError};

fn readings() -> Readings {
    Readings {
        uptime_ms: 12345,
        requests: 3,
        last_request_ms: 12000,
        adc_sample: Some(876),
        ipv4: Some(([192, 168, 50, 232], 24)),
        sys_hz: 150_000_000,
        peri_hz: 150_000_000,
        adc_hz: 48_000_000,
        rosc_hz: 11_000_000,
        heap_end: 0x2000_4000,
        stack_pointer: 0x2007_f000,
    }
}

#[test]
fn stats_from_readings() {
    let s = Stats::read(&readings());
    assert_eq!(s.uptime_s, 12);
    assert_eq!(s.uptime_ms, 12345);
    assert_eq!(s.adc_raw, 876);
    assert_eq!(s.temperature_milli_c, 27038);
    assert_eq!(s.static_ram_bytes, 0x4000);
    assert_eq!(s.stack_headroom_bytes, 0x7f000 - 0x4000);
    assert_eq!(s.static_ram_bytes + s.stack_headroom_bytes, 0x2007_f000 - 0x2000_0000);
}

#[test]
fn failed_adc_read_and_odd_memory_layout() {
    let mut r = readings();
    r.adc_sample = None;
    r.heap_end = 0x1000;
    r.stack_pointer = 0x800;
    let s = Stats::read(&r);
    assert_eq!(s.adc_raw, 0);
    assert_eq!(s.temperature_milli_c, 437226);
    assert_eq!(s.static_ram_bytes, 0);
    assert_eq!(s.stack_headroom_bytes, 0);
}

const EXPECTED: &str = "{\"device\":\"Pico 2 W\",\"uptime_s\":12,\"uptime_ms\":12345,\"requests\":3,\"last_request_ms\":12000,\"temperature_c\":27.0,\"adc_raw\":876,\"adc_reference_mv\":3300,\"ipv4\":\"192.168.50.232/24\",\"clocks\":{\"sys_hz\":150000000,\"peri_hz\":150000000,\"adc_hz\":48000000,\"rosc_hz\":11000000},\"memory\":{\"ram_total_bytes\":524288,\"static_ram_bytes\":16384,\"stack_reserved_bytes\":2048,\"stack_pointer\":\"0x2007f000\",\"stack_headroom_bytes\":503808,\"heap_bytes\":0},\"cpu\":{\"utilization\":\"not instrumented\",\"note\":\"single-core async firmware; no idle-time sampler yet\"}}";

#[test]
fn json_report_text() {
    let s = Stats::read(&readings());
    let mut body = StackText::<1400>::new();
    assert_eq!(s.write_json(&mut body), Ok(()));
    assert_eq!(std::str::from_utf8(body.as_bytes()).unwrap(), EXPECTED);
}

#[test]
fn json_report_without_address_and_below_zero() {
    let mut r = readings();
    r.ipv4 = None;
    r.adc_sample = Some(1000);
    r.stack_pointer = 0x2000_5000;
    let s = Stats::read(&r);
    let mut body = StackText::<1400>::new();
    assert_eq!(s.write_json(&mut body), Ok(()));
    let text = std::str::from_utf8(body.as_bytes()).unwrap();
    assert!(text.contains("\"temperature_c\":-31.0,"));
    assert!(text.contains("\"ipv4\":\"unconfigured\","));
    assert!(text.contains("\"stack_pointer\":\"0x20005000\",\"stack_headroom_bytes\":4096,"));
}

#[test]
fn json_report_that_does_not_fit_keeps_a_prefix() {
    let s = Stats::read(&readings());
    let mut body = StackText::<100>::new();
    assert_eq!(s.write_json(&mut body), Err(WriteError));
    let written = std::str::from_utf8(body.as_bytes()).unwrap();
    assert!(EXPECTED.starts_with(written));
    assert!(written.len() <= 100);
    let mut exact = StackText::<529>::new();
    assert_eq!(EXPECTED.len(), 529);
    assert_eq!(s.write_json(&mut exact), Ok(()));
    let mut short = StackText::<528>::new();
    assert_eq!(s.write_json(&mut short), Err(WriteError));
}

#[test]
fn ipv4_texts() {
    let mut t = StackText::<32>::new();
    assert_eq!(write_ipv4(&mut t, Some(([10, 0, 0, 1], 8))), Ok(()));
    assert_eq!(t.as_bytes(), b"10.0.0.1/8");
    let mut t = StackText::<32>::new();
    assert_eq!(write_ipv4(&mut t, None), Ok(()));
    assert_eq!(t.as_bytes(), b"unconfigured");
    let mut t = StackText::<5>::new();
    assert_eq!(write_ipv4(&mut t, Some(([255, 255, 255, 255], 32))), Err(WriteError));
    assert_eq!(t.as_bytes(), b"255.");
    let mut t = StackText::<11>::new();
    assert_eq!(write_ipv4(&mut t, None), Err(WriteError));
    assert_eq!(t.as_bytes(), b"");
}

fn zero_stats() -> Stats {
    Stats {
        uptime_s: 0,
        uptime_ms: 0,
        requests: 0,
        last_request_ms: 0,
        adc_raw: 0,
        temperature_milli_c: 0,
        ipv4: None,
        sys_hz: 0,
        peri_hz: 0,
        adc_hz: 0,
        rosc_hz: 0,
        static_ram_bytes: 0,
        stack_pointer: 0,
        stack_headroom_bytes: 0,
    }
}

#[test]
fn json_report_stops_before_the_first_piece_that_does_not_fit() {
    let s = zero_stats();
    let mut whole = StackText::<1400>::new();
    assert_eq!(s.write_json(&mut whole), Ok(()));
    assert_eq!(whole.len(), 473);
    let mut body = StackText::<472>::new();
    assert_eq!(s.write_json(&mut body), Err(WriteError));
    assert_eq!(body.len(), 370);
    assert!(body.as_bytes().ends_with(b"\"stack_headroom_bytes\":0,\"heap_bytes\":0},"));
    assert!(whole.as_bytes().starts_with(body.as_bytes()));
}

#[test]
fn stack_pointer_padding_goes_in_one_zero_at_a_time() {
    let s = zero_stats();
    let mut whole = StackText::<1400>::new();
    assert_eq!(s.write_json(&mut whole), Ok(()));
    let text = std::str::from_utf8(whole.as_bytes()).unwrap();
    let at = text.find("\"stack_pointer\":\"0x").unwrap() + "\"stack_pointer\":\"0x".len();
    for room in at..at + 8 {
        let mut body = StackText::<1400>::new();
        assert_eq!(body.write_bytes(&vec![b' '; 1400 - room]), Ok(()));
        assert_eq!(s.write_json(&mut body), Err(WriteError));
        assert_eq!(&body.as_bytes()[1400 - room..], &whole.as_bytes()[..room]);
    }
}
