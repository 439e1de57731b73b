use pico_webserver::irq::{dispatch_external_irq, machine_external_step, xh3_next_irq_no, IrqHandler, IrqLines};
use pico_webserver::led::Blink;
use pico_webserver::routing::{route, Route};

#[test]
fn dashboard_requests() {
    assert_eq!(route(b"GET / HTTP/1.1\r\nHost: x\r\n\r\n"), Route::Dashboard);
    assert_eq!(route(b"GET /HTTP/1.0\r\n"), Route::Dashboard);
    assert_eq!(route(b"GET / "), Route::Dashboard);
}

#[test]
fn json_requests() {
    assert_eq!(route(b"GET /json HTTP/1.1\r\n"), Route::Json);
    assert_eq!(route(b"GET /json?x=1 HTTP/1.1\r\n"), Route::Json);
}

#[test]
fn other_requests_are_not_found() {
    assert_eq!(route(b""), Route::NotFound);
    assert_eq!(route(b"GET /"), Route::NotFound);
    assert_eq!(route(b"GET /json"), Route::NotFound);
    assert_eq!(route(b"GET /jsonx HTTP/1.1"), Route::NotFound);
    assert_eq!(route(b"POST / HTTP/1.1"), Route::NotFound);
    assert_eq!(route(b"get / HTTP/1.1"), Route::NotFound);
    assert_eq!(route(b"GET /favicon.ico HTTP/1.1"), Route::NotFound);
}

#[test]
fn meinext_decoding() {
    assert_eq!(xh3_next_irq_no(0x8000_0000), None);
    assert_eq!(xh3_next_irq_no(0xffff_ffff), None);
    assert_eq!(xh3_next_irq_no(0), Some(0));
    assert_eq!(xh3_next_irq_no(15 << 2), Some(15));
    assert_eq!(xh3_next_irq_no((10 << 2) | 3), Some(10));
    assert_eq!(xh3_next_irq_no(0x7fff_fffc), Some(0xffff));
}

const LINES: IrqLines = IrqLines { timer0: 0, dma0: 10, pio0: 15 };

#[test]
fn dispatch_by_line() {
    assert_eq!(dispatch_external_irq(0, &LINES), Some(IrqHandler::Timer0));
    assert_eq!(dispatch_external_irq(10, &LINES), Some(IrqHandler::Dma0));
    assert_eq!(dispatch_external_irq(15, &LINES), Some(IrqHandler::Pio0));
    assert_eq!(dispatch_external_irq(3, &LINES), None);
    let same = IrqLines { timer0: 5, dma0: 5, pio0: 5 };
    assert_eq!(dispatch_external_irq(5, &same), Some(IrqHandler::Timer0));
}

#[test]
fn interrupt_loop_step() {
    assert_eq!(machine_external_step(10 << 2, &LINES), Some(IrqHandler::Dma0));
    assert_eq!(machine_external_step(0x8000_0000 | (10 << 2), &LINES), None);
    assert_eq!(machine_external_step(11 << 2, &LINES), None);
}

#[test]
fn blink_twice() {
    let mut b = Blink::new(2);
    let mut states = Vec::new();
    while let Some(on) = b.next() {
        states.push(on);
    }
    assert_eq!(states, vec![true, false, true, false]);
    assert_eq!(b.next(), None);
}

#[test]
fn blink_never() {
    let mut b = Blink::new(0);
    assert_eq!(b.next(), None);
}
