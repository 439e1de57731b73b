use vstd::prelude::*;
use vstd::string::StringSliceAdditionalSpecFns;
use crate::digits::{decimal, hex08, hex08_pieces, is_digit_in, lemma_decimal_reads_as, lemma_hex08_roundtrip, reads_as, write_hex08, write_u64};
use crate::temperature::{adc_to_milli_c, decimal1_pieces, decimal1_text, milli_celsius, write_decimal1};
use crate::text::{StackText, WriteError, lemma_wrote_fits, lemma_wrote_step, wrote};

verus! {

/// First address of the main RAM.
pub const RAM_START: usize = 0x2000_0000;

/// Size of the main RAM in bytes.
pub const RAM_BYTES: usize = 512 * 1024;

/// Bytes set aside for the stack.
pub const STACK_BYTES: usize = 2 * 1024;

/// `a - b`, or zero when `b` is larger.
pub open spec fn saturating_diff(a: int, b: int) -> int {
    if a >= b {
        a - b
    } else {
        0
    }
}

/// When the heap end lies between the start of RAM and the stack pointer, the static RAM
/// and the stack headroom of a report add up to all the RAM below the stack pointer.
pub proof fn lemma_ram_split(readings: Readings, stats: Stats)
    requires
        RAM_START <= readings.heap_end <= readings.stack_pointer,
        stats.static_ram_bytes == saturating_diff(readings.heap_end as int, RAM_START as int),
        stats.stack_headroom_bytes == saturating_diff(readings.stack_pointer as int, readings.heap_end as int),
    ensures
        stats.static_ram_bytes + stats.stack_headroom_bytes == readings.stack_pointer - RAM_START,
{
}

/// What the firmware reads off the hardware and the network stack for one report.
#[derive(Debug, Clone, Copy)]
pub struct Readings {
    /// Milliseconds since start-up.
    pub uptime_ms: u64,
    /// Requests served so far.
    pub requests: u64,
    /// Time of the latest request, in milliseconds.
    pub last_request_ms: u64,
    /// The temperature sensor sample, or `None` when the ADC read failed.
    pub adc_sample: Option<u16>,
    /// The IPv4 address and prefix length, when DHCP has configured one.
    pub ipv4: Option<([u8; 4], u8)>,
    pub sys_hz: u32,
    pub peri_hz: u32,
    pub adc_hz: u32,
    pub rosc_hz: u32,
    /// The end of the statically used RAM (the `_eheap` symbol).
    pub heap_end: usize,
    /// The current stack pointer.
    pub stack_pointer: usize,
}

/// One report of the live statistics.
#[derive(Debug, Clone, Copy)]
pub struct Stats {
    pub uptime_s: u64,
    pub uptime_ms: u64,
    pub requests: u64,
    pub last_request_ms: u64,
    pub adc_raw: u16,
    pub temperature_milli_c: i32,
    pub ipv4: Option<([u8; 4], u8)>,
    pub sys_hz: u32,
    pub peri_hz: u32,
    pub adc_hz: u32,
    pub rosc_hz: u32,
    pub static_ram_bytes: usize,
    pub stack_pointer: usize,
    pub stack_headroom_bytes: usize,
}

impl Stats {
    /// Builds the report from the readings: the uptime in whole seconds is the whole
    /// seconds of the uptime in milliseconds, a failed ADC read counts as a zero sample,
    /// the temperature is converted from the sample, the static RAM is what lies between
    /// the start of RAM and the heap end, and the stack headroom what lies between the
    /// heap end and the stack pointer (each zero when the order is reversed).
    pub fn read(readings: &Readings) -> (r: Stats)
        ensures
            r.uptime_s == readings.uptime_ms / 1000,
            r.uptime_ms == readings.uptime_ms,
            r.requests == readings.requests,
            r.last_request_ms == readings.last_request_ms,
            r.adc_raw == match readings.adc_sample {
                Some(v) => v,
                None => 0u16,
            },
            r.temperature_milli_c == milli_celsius(r.adc_raw as int),
            r.ipv4 == readings.ipv4,
            r.sys_hz == readings.sys_hz,
            r.peri_hz == readings.peri_hz,
            r.adc_hz == readings.adc_hz,
            r.rosc_hz == readings.rosc_hz,
            r.static_ram_bytes == saturating_diff(readings.heap_end as int, RAM_START as int),
            r.stack_pointer == readings.stack_pointer,
            r.stack_headroom_bytes == saturating_diff(readings.stack_pointer as int, readings.heap_end as int),
    {
        let adc_raw: u16 = match readings.adc_sample {
            Some(v) => v,
            None => 0,
        };
        let temperature_milli_c = adc_to_milli_c(adc_raw);
        let static_ram_bytes: usize = if readings.heap_end >= RAM_START {
            readings.heap_end - RAM_START
        } else {
            0
        };
        let stack_headroom_bytes: usize = if readings.stack_pointer >= readings.heap_end {
            readings.stack_pointer - readings.heap_end
        } else {
            0
        };
        Stats {
            uptime_s: readings.uptime_ms / 1000,
            uptime_ms: readings.uptime_ms,
            requests: readings.requests,
            last_request_ms: readings.last_request_ms,
            adc_raw,
            temperature_milli_c,
            ipv4: readings.ipv4,
            sys_hz: readings.sys_hz,
            peri_hz: readings.peri_hz,
            adc_hz: readings.adc_hz,
            rosc_hz: readings.rosc_hz,
            static_ram_bytes,
            stack_pointer: readings.stack_pointer,
            stack_headroom_bytes,
        }
    }
}

/// `text` is `before`, then `key`, then `value`, then `after`.
pub open spec fn split_around(text: Seq<u8>, before: Seq<u8>, key: Seq<u8>, value: Seq<u8>, after: Seq<u8>) -> bool {
    text == before + key + value + after
}

/// In `text`, `key` is followed by a run of digits of `base` that reads as `v` and
/// stops at a byte that is not such a digit.
pub open spec fn number_after(text: Seq<u8>, key: Seq<u8>, base: nat, v: nat) -> bool {
    exists|before: Seq<u8>, value: Seq<u8>, after: Seq<u8>|
        #[trigger] split_around(text, before, key, value, after) && reads_as(value, base, v)
            && after.len() > 0 && !is_digit_in(after[0], base)
}

/// In `text`, `key` is followed directly by `value`.
pub open spec fn text_after(text: Seq<u8>, key: Seq<u8>, value: Seq<u8>) -> bool {
    exists|before: Seq<u8>, after: Seq<u8>| #[trigger] split_around(text, before, key, value, after)
}

/// The text of a list of pieces around the pieces `k` to `m - 1`.
proof fn lemma_pieces_split(pieces: Seq<Seq<u8>>, k: int, m: int)
    requires
        0 <= k < m <= pieces.len(),
    ensures
        pieces.flatten() == pieces.take(k).flatten() + pieces[k] + pieces.subrange(k + 1, m).flatten()
            + pieces.skip(m).flatten(),
{
    let tail = seq![pieces[k]] + (pieces.subrange(k + 1, m) + pieces.skip(m));
    assert(pieces =~= pieces.take(k) + tail);
    vstd::seq_lib::lemma_flatten_concat(pieces.take(k), tail);
    assert(tail.drop_first() =~= pieces.subrange(k + 1, m) + pieces.skip(m));
    assert(tail[0] == pieces[k]);
    vstd::seq_lib::lemma_flatten_concat(pieces.subrange(k + 1, m), pieces.skip(m));
    assert(pieces.flatten() =~= pieces.take(k).flatten() + pieces[k] + pieces.subrange(k + 1, m).flatten()
        + pieces.skip(m).flatten());
}

/// In the text of a list of pieces, piece `k` is followed by the pieces up to `m`, and
/// when those read as a number and piece `m` starts with a non-digit, by that number.
proof fn lemma_number_in_pieces(pieces: Seq<Seq<u8>>, k: int, m: int, base: nat, v: nat)
    requires
        0 <= k < m < pieces.len(),
        reads_as(pieces.subrange(k + 1, m).flatten(), base, v),
        pieces[m].len() > 0,
        !is_digit_in(pieces[m][0], base),
    ensures
        number_after(pieces.flatten(), pieces[k], base, v),
{
    lemma_pieces_split(pieces, k, m);
    let after = pieces.skip(m).flatten();
    assert(pieces.skip(m)[0] == pieces[m]);
    assert(after[0] == pieces[m][0]);
    assert(split_around(pieces.flatten(), pieces.take(k).flatten(), pieces[k], pieces.subrange(k + 1, m).flatten(), after));
}

/// In the text of a list of pieces, piece `k` is followed by the text of the pieces up
/// to `m`.
proof fn lemma_text_in_pieces(pieces: Seq<Seq<u8>>, k: int, m: int)
    requires
        0 <= k < m <= pieces.len(),
    ensures
        text_after(pieces.flatten(), pieces[k], pieces.subrange(k + 1, m).flatten()),
{
    lemma_pieces_split(pieces, k, m);
    assert(split_around(pieces.flatten(), pieces.take(k).flatten(), pieces[k], pieces.subrange(k + 1, m).flatten(), pieces.skip(m).flatten()));
}

/// A piece followed by one number piece and then a piece that starts with a non-digit.
proof fn lemma_number_piece(pieces: Seq<Seq<u8>>, k: int, base: nat, v: nat)
    requires
        0 <= k,
        k + 2 < pieces.len(),
        reads_as(pieces[k + 1], base, v),
        pieces[k + 2].len() > 0,
        !is_digit_in(pieces[k + 2][0], base),
    ensures
        number_after(pieces.flatten(), pieces[k], base, v),
{
    pieces.subrange(k + 1, k + 2).lemma_flatten_singleton();
    assert(pieces.subrange(k + 1, k + 2)[0] == pieces[k + 1]);
    lemma_number_in_pieces(pieces, k, k + 2, base, v);
}

/// What follows a key inside a text still follows it inside a longer text.
proof fn lemma_number_after_within(text: Seq<u8>, a: Seq<u8>, t: Seq<u8>, b: Seq<u8>, key: Seq<u8>, base: nat, v: nat)
    requires
        number_after(t, key, base, v),
        text == a + t + b,
    ensures
        number_after(text, key, base, v),
{
    let (x, d, y) = choose|x: Seq<u8>, d: Seq<u8>, y: Seq<u8>|
        #[trigger] split_around(t, x, key, d, y) && reads_as(d, base, v) && y.len() > 0 && !is_digit_in(y[0], base);
    assert(text =~= (a + x) + key + d + (y + b));
    assert((y + b)[0] == y[0]);
    assert(split_around(text, a + x, key, d, y + b));
}

/// What follows a key inside a text still follows it inside a longer text.
proof fn lemma_text_after_within(text: Seq<u8>, a: Seq<u8>, t: Seq<u8>, b: Seq<u8>, key: Seq<u8>, value: Seq<u8>)
    requires
        text_after(t, key, value),
        text == a + t + b,
    ensures
        text_after(text, key, value),
{
    let (x, y) = choose|x: Seq<u8>, y: Seq<u8>| #[trigger] split_around(t, x, key, value, y);
    assert(text =~= (a + x) + key + value + (y + b));
    assert(split_around(text, a + x, key, value, y + b));
}

/// The first byte of a text whose first character is ASCII.
proof fn lemma_first_byte(s: &str)
    requires
        s@.len() > 0,
        (s@[0] as u32) < 128,
    ensures
        s.spec_bytes().len() > 0,
        s.spec_bytes()[0] as int == s@[0] as u32 as int,
{
    let c = s@[0] as u32;
    assert(s.spec_bytes() == vstd::utf8::encode_scalar(c) + vstd::utf8::encode_utf8(s@.drop_first()));
    assert(c <= 0x7f ==> (c & 0x7f) == c) by (bit_vector);
}

/// The pieces of an IPv4 address in CIDR form, `a.b.c.d/p`, or of `unconfigured`.
pub open spec fn ipv4_pieces(ipv4: Option<([u8; 4], u8)>) -> Seq<Seq<u8>> {
    match ipv4 {
        Some((octets, prefix)) => seq![
            decimal(octets@[0] as nat),
            seq![46u8],
            decimal(octets@[1] as nat),
            seq![46u8],
            decimal(octets@[2] as nat),
            seq![46u8],
            decimal(octets@[3] as nat),
            seq![47u8],
            decimal(prefix as nat),
        ],
        None => seq!["unconfigured".spec_bytes()],
    }
}

/// The text of an IPv4 address in CIDR form, `a.b.c.d/p`, or `unconfigured`.
pub open spec fn ipv4_text(ipv4: Option<([u8; 4], u8)>) -> Seq<u8> {
    ipv4_pieces(ipv4).flatten()
}

/// `text` is five parts joined by three points and then a slash: `a.b.c.d/e`.
pub open spec fn cidr_parts(text: Seq<u8>, a: Seq<u8>, b: Seq<u8>, c: Seq<u8>, d: Seq<u8>, e: Seq<u8>) -> bool {
    text == a + seq![46u8] + b + seq![46u8] + c + seq![46u8] + d + seq![47u8] + e
}

/// The address text reads back as the address: four decimal octets joined by points, then
/// a slash and the decimal prefix length; with no address, `unconfigured`.
pub proof fn lemma_ipv4_shape(ipv4: Option<([u8; 4], u8)>)
    ensures
        match ipv4 {
            Some((octets, prefix)) => exists|a: Seq<u8>, b: Seq<u8>, c: Seq<u8>, d: Seq<u8>, e: Seq<u8>|
                #[trigger] cidr_parts(ipv4_text(ipv4), a, b, c, d, e)
                    && reads_as(a, 10, octets@[0] as nat) && reads_as(b, 10, octets@[1] as nat)
                    && reads_as(c, 10, octets@[2] as nat) && reads_as(d, 10, octets@[3] as nat)
                    && reads_as(e, 10, prefix as nat),
            None => ipv4_text(ipv4) == "unconfigured".spec_bytes(),
        },
{
    match ipv4 {
        Some((octets, prefix)) => {
            let a = decimal(octets@[0] as nat);
            let b = decimal(octets@[1] as nat);
            let c = decimal(octets@[2] as nat);
            let d = decimal(octets@[3] as nat);
            let e = decimal(prefix as nat);
            let dot = seq![46u8];
            let slash = seq![47u8];
            let p1 = seq![a];
            let p2 = p1.push(dot);
            let p3 = p2.push(b);
            let p4 = p3.push(dot);
            let p5 = p4.push(c);
            let p6 = p5.push(dot);
            let p7 = p6.push(d);
            let p8 = p7.push(slash);
            let p9 = p8.push(e);
            p1.lemma_flatten_singleton();
            p1.lemma_flatten_push(dot);
            p2.lemma_flatten_push(b);
            p3.lemma_flatten_push(dot);
            p4.lemma_flatten_push(c);
            p5.lemma_flatten_push(dot);
            p6.lemma_flatten_push(d);
            p7.lemma_flatten_push(slash);
            p8.lemma_flatten_push(e);
            assert(ipv4_pieces(ipv4) =~= p9);
            lemma_decimal_reads_as(octets@[0] as nat);
            lemma_decimal_reads_as(octets@[1] as nat);
            lemma_decimal_reads_as(octets@[2] as nat);
            lemma_decimal_reads_as(octets@[3] as nat);
            lemma_decimal_reads_as(prefix as nat);
            assert(cidr_parts(ipv4_text(ipv4), a, b, c, d, e));
        },
        None => {
            seq!["unconfigured".spec_bytes()].lemma_flatten_singleton();
        },
    }
}

/// Writes the address in CIDR form, or `unconfigured` when there is none. The numbers,
/// points and slash go in one after the other, each whole or not at all, and writing stops
/// at the first that does not fit.
pub fn write_ipv4<const N: usize>(out: &mut StackText<N>, ipv4: Option<([u8; 4], u8)>) -> (r: Result<(), WriteError>)
    ensures
        wrote(*old(out), *final(out), ipv4_pieces(ipv4), r is Ok),
        r is Ok <==> old(out)@.len() + ipv4_text(ipv4).len() <= N,
        final(out)@.len() <= N,
{
    let ghost o = *out;
    let ghost full = ipv4_pieces(ipv4);
    let ghost mut prev = *out;
    let ghost mut k: int = 0;
    match ipv4 {
        Some((octets, prefix)) => {
            let r = write_u64(out, octets[0] as u64);
            proof {
                lemma_wrote_step(o, prev, *out, full, k, seq![decimal(octets@[0] as nat)], r is Ok);
                k = k + 1;
                prev = *out;
            }
            if r.is_err() {
                proof {
                    lemma_wrote_fits(o, *out, full, false);
                }
                return r;
            }
            let r = out.write_byte(46u8);
            proof {
                lemma_wrote_step(o, prev, *out, full, k, seq![seq![46u8]], r is Ok);
                k = k + 1;
                prev = *out;
            }
            if r.is_err() {
                proof {
                    lemma_wrote_fits(o, *out, full, false);
                }
                return r;
            }
            let r = write_u64(out, octets[1] as u64);
            proof {
                lemma_wrote_step(o, prev, *out, full, k, seq![decimal(octets@[1] as nat)], r is Ok);
                k = k + 1;
                prev = *out;
            }
            if r.is_err() {
                proof {
                    lemma_wrote_fits(o, *out, full, false);
                }
                return r;
            }
            let r = out.write_byte(46u8);
            proof {
                lemma_wrote_step(o, prev, *out, full, k, seq![seq![46u8]], r is Ok);
                k = k + 1;
                prev = *out;
            }
            if r.is_err() {
                proof {
                    lemma_wrote_fits(o, *out, full, false);
                }
                return r;
            }
            let r = write_u64(out, octets[2] as u64);
            proof {
                lemma_wrote_step(o, prev, *out, full, k, seq![decimal(octets@[2] as nat)], r is Ok);
                k = k + 1;
                prev = *out;
            }
            if r.is_err() {
                proof {
                    lemma_wrote_fits(o, *out, full, false);
                }
                return r;
            }
            let r = out.write_byte(46u8);
            proof {
                lemma_wrote_step(o, prev, *out, full, k, seq![seq![46u8]], r is Ok);
                k = k + 1;
                prev = *out;
            }
            if r.is_err() {
                proof {
                    lemma_wrote_fits(o, *out, full, false);
                }
                return r;
            }
            let r = write_u64(out, octets[3] as u64);
            proof {
                lemma_wrote_step(o, prev, *out, full, k, seq![decimal(octets@[3] as nat)], r is Ok);
                k = k + 1;
                prev = *out;
            }
            if r.is_err() {
                proof {
                    lemma_wrote_fits(o, *out, full, false);
                }
                return r;
            }
            let r = out.write_byte(47u8);
            proof {
                lemma_wrote_step(o, prev, *out, full, k, seq![seq![47u8]], r is Ok);
                k = k + 1;
                prev = *out;
            }
            if r.is_err() {
                proof {
                    lemma_wrote_fits(o, *out, full, false);
                }
                return r;
            }
            let r = write_u64(out, prefix as u64);
            proof {
                lemma_wrote_step(o, prev, *out, full, k, seq![decimal(prefix as nat)], r is Ok);
                lemma_wrote_fits(o, *out, full, r is Ok);
            }
            r
        },
        None => {
            let r = out.write_str("unconfigured");
            proof {
                lemma_wrote_step(o, prev, *out, full, k, seq!["unconfigured".spec_bytes()], r is Ok);
                lemma_wrote_fits(o, *out, full, r is Ok);
            }
            r
        },
    }
}

impl Stats {
    /// The pieces of the opening of the report: device, uptime and request counters.
    pub open spec fn head_pieces(self) -> Seq<Seq<u8>> {
        seq![
            "{\"device\":\"Pico 2 W\",\"uptime_s\":".spec_bytes(),
            decimal(self.uptime_s as nat),
            ",\"uptime_ms\":".spec_bytes(),
            decimal(self.uptime_ms as nat),
            ",\"requests\":".spec_bytes(),
            decimal(self.requests as nat),
            ",\"last_request_ms\":".spec_bytes(),
            decimal(self.last_request_ms as nat),
            ",".spec_bytes(),
        ]
    }

    /// The pieces of the ADC part of the report, up to the opening quote of the address.
    pub open spec fn adc_pieces(self) -> Seq<Seq<u8>> {
        seq![
            ",\"adc_raw\":".spec_bytes(),
            decimal(self.adc_raw as nat),
            ",\"adc_reference_mv\":3300,\"ipv4\":\"".spec_bytes(),
        ]
    }

    /// The pieces of the clock part of the report.
    pub open spec fn clock_pieces(self) -> Seq<Seq<u8>> {
        seq![
            "\",\"clocks\":{\"sys_hz\":".spec_bytes(),
            decimal(self.sys_hz as nat),
            ",\"peri_hz\":".spec_bytes(),
            decimal(self.peri_hz as nat),
            ",\"adc_hz\":".spec_bytes(),
            decimal(self.adc_hz as nat),
            ",\"rosc_hz\":".spec_bytes(),
            decimal(self.rosc_hz as nat),
            "},".spec_bytes(),
        ]
    }

    /// The pieces of the memory part of the report; the stack pointer is written as
    /// `{:08x}` writes it.
    pub open spec fn memory_pieces(self) -> Seq<Seq<u8>> {
        seq![
            "\"memory\":{\"ram_total_bytes\":".spec_bytes(),
            decimal(RAM_BYTES as nat),
            ",\"static_ram_bytes\":".spec_bytes(),
            decimal(self.static_ram_bytes as nat),
            ",\"stack_reserved_bytes\":".spec_bytes(),
            decimal(STACK_BYTES as nat),
            ",\"stack_pointer\":\"0x".spec_bytes(),
        ] + hex08_pieces(self.stack_pointer as nat) + seq![
            "\",\"stack_headroom_bytes\":".spec_bytes(),
            decimal(self.stack_headroom_bytes as nat),
            ",\"heap_bytes\":0},".spec_bytes(),
        ]
    }

    /// The pieces of the whole report, in the order in which they are written.
    pub open spec fn json_pieces(self) -> Seq<Seq<u8>> {
        self.head_pieces() + seq!["\"temperature_c\":".spec_bytes()] + decimal1_pieces(
            self.temperature_milli_c as int,
        ) + self.adc_pieces() + ipv4_pieces(self.ipv4) + self.clock_pieces() + self.memory_pieces()
            + seq!["\"cpu\":{\"utilization\":\"not instrumented\",\"note\":\"single-core async firmware; no idle-time sampler yet\"}}".spec_bytes()]
    }

    /// The report as one JSON object.
    pub open spec fn json_text(self) -> Seq<u8> {
        self.json_pieces().flatten()
    }

    /// In the opening of the report each key is followed by the number of its own field.
    pub proof fn lemma_head_numbers(self)
        ensures
            number_after(self.head_pieces().flatten(), "{\"device\":\"Pico 2 W\",\"uptime_s\":".spec_bytes(), 10, self.uptime_s as nat),
            number_after(self.head_pieces().flatten(), ",\"uptime_ms\":".spec_bytes(), 10, self.uptime_ms as nat),
            number_after(self.head_pieces().flatten(), ",\"requests\":".spec_bytes(), 10, self.requests as nat),
            number_after(self.head_pieces().flatten(), ",\"last_request_ms\":".spec_bytes(), 10, self.last_request_ms as nat),
    {
        lemma_decimal_reads_as(self.uptime_s as nat);
        reveal_strlit(",\"uptime_ms\":");
        lemma_first_byte(",\"uptime_ms\":");
        lemma_number_piece(self.head_pieces(), 0, 10, self.uptime_s as nat);
        lemma_decimal_reads_as(self.uptime_ms as nat);
        reveal_strlit(",\"requests\":");
        lemma_first_byte(",\"requests\":");
        lemma_number_piece(self.head_pieces(), 2, 10, self.uptime_ms as nat);
        lemma_decimal_reads_as(self.requests as nat);
        reveal_strlit(",\"last_request_ms\":");
        lemma_first_byte(",\"last_request_ms\":");
        lemma_number_piece(self.head_pieces(), 4, 10, self.requests as nat);
        lemma_decimal_reads_as(self.last_request_ms as nat);
        reveal_strlit(",");
        lemma_first_byte(",");
        lemma_number_piece(self.head_pieces(), 6, 10, self.last_request_ms as nat);
    }

    /// In the ADC part of the report the key is followed by the raw sample.
    pub proof fn lemma_adc_number(self)
        ensures
            number_after(self.adc_pieces().flatten(), ",\"adc_raw\":".spec_bytes(), 10, self.adc_raw as nat),
    {
        lemma_decimal_reads_as(self.adc_raw as nat);
        reveal_strlit(",\"adc_reference_mv\":3300,\"ipv4\":\"");
        lemma_first_byte(",\"adc_reference_mv\":3300,\"ipv4\":\"");
        lemma_number_piece(self.adc_pieces(), 0, 10, self.adc_raw as nat);
    }

    /// In the clock part of the report each key is followed by the frequency of its own clock.
    pub proof fn lemma_clock_numbers(self)
        ensures
            number_after(self.clock_pieces().flatten(), "\",\"clocks\":{\"sys_hz\":".spec_bytes(), 10, self.sys_hz as nat),
            number_after(self.clock_pieces().flatten(), ",\"peri_hz\":".spec_bytes(), 10, self.peri_hz as nat),
            number_after(self.clock_pieces().flatten(), ",\"adc_hz\":".spec_bytes(), 10, self.adc_hz as nat),
            number_after(self.clock_pieces().flatten(), ",\"rosc_hz\":".spec_bytes(), 10, self.rosc_hz as nat),
    {
        lemma_decimal_reads_as(self.sys_hz as nat);
        reveal_strlit(",\"peri_hz\":");
        lemma_first_byte(",\"peri_hz\":");
        lemma_number_piece(self.clock_pieces(), 0, 10, self.sys_hz as nat);
        lemma_decimal_reads_as(self.peri_hz as nat);
        reveal_strlit(",\"adc_hz\":");
        lemma_first_byte(",\"adc_hz\":");
        lemma_number_piece(self.clock_pieces(), 2, 10, self.peri_hz as nat);
        lemma_decimal_reads_as(self.adc_hz as nat);
        reveal_strlit(",\"rosc_hz\":");
        lemma_first_byte(",\"rosc_hz\":");
        lemma_number_piece(self.clock_pieces(), 4, 10, self.adc_hz as nat);
        lemma_decimal_reads_as(self.rosc_hz as nat);
        reveal_strlit("},");
        lemma_first_byte("},");
        lemma_number_piece(self.clock_pieces(), 6, 10, self.rosc_hz as nat);
    }

    /// In the memory part of the report each key is followed by the number of its own
    /// field; the stack pointer in hexadecimal.
    pub proof fn lemma_memory_numbers(self)
        ensures
            number_after(self.memory_pieces().flatten(), "\"memory\":{\"ram_total_bytes\":".spec_bytes(), 10, RAM_BYTES as nat),
            number_after(self.memory_pieces().flatten(), ",\"static_ram_bytes\":".spec_bytes(), 10, self.static_ram_bytes as nat),
            number_after(self.memory_pieces().flatten(), ",\"stack_reserved_bytes\":".spec_bytes(), 10, STACK_BYTES as nat),
            number_after(self.memory_pieces().flatten(), ",\"stack_pointer\":\"0x".spec_bytes(), 16, self.stack_pointer as nat),
            number_after(self.memory_pieces().flatten(), "\",\"stack_headroom_bytes\":".spec_bytes(), 10, self.stack_headroom_bytes as nat),
    {
        let ps = self.memory_pieces();
        lemma_decimal_reads_as(RAM_BYTES as nat);
        reveal_strlit(",\"static_ram_bytes\":");
        lemma_first_byte(",\"static_ram_bytes\":");
        lemma_number_piece(ps, 0, 10, RAM_BYTES as nat);
        lemma_decimal_reads_as(self.static_ram_bytes as nat);
        reveal_strlit(",\"stack_reserved_bytes\":");
        lemma_first_byte(",\"stack_reserved_bytes\":");
        lemma_number_piece(ps, 2, 10, self.static_ram_bytes as nat);
        lemma_decimal_reads_as(STACK_BYTES as nat);
        reveal_strlit(",\"stack_pointer\":\"0x");
        lemma_first_byte(",\"stack_pointer\":\"0x");
        lemma_number_piece(ps, 4, 10, STACK_BYTES as nat);
        let h = hex08_pieces(self.stack_pointer as nat);
        let m: int = 7 + h.len() as int;
        lemma_hex08_roundtrip(self.stack_pointer as nat);
        assert(ps.subrange(7, m) =~= h);
        reveal_strlit("\",\"stack_headroom_bytes\":");
        lemma_first_byte("\",\"stack_headroom_bytes\":");
        assert(ps[m] == "\",\"stack_headroom_bytes\":".spec_bytes());
        lemma_number_in_pieces(ps, 6, m, 16, self.stack_pointer as nat);
        lemma_decimal_reads_as(self.stack_headroom_bytes as nat);
        reveal_strlit(",\"heap_bytes\":0},");
        lemma_first_byte(",\"heap_bytes\":0},");
        assert(ps[m + 1] == decimal(self.stack_headroom_bytes as nat));
        assert(ps[m + 2] == ",\"heap_bytes\":0},".spec_bytes());
        lemma_number_piece(ps, m, 10, self.stack_headroom_bytes as nat);
    }


    /// The report is the text of its parts one after the other.
    proof fn lemma_json_parts(self)
        ensures
            self.json_text() == self.head_pieces().flatten() + "\"temperature_c\":".spec_bytes()
                + decimal1_text(self.temperature_milli_c as int) + self.adc_pieces().flatten()
                + ipv4_text(self.ipv4) + self.clock_pieces().flatten() + self.memory_pieces().flatten()
                + "\"cpu\":{\"utilization\":\"not instrumented\",\"note\":\"single-core async firmware; no idle-time sampler yet\"}}".spec_bytes(),
    {
        let t = seq!["\"temperature_c\":".spec_bytes()];
        let d = decimal1_pieces(self.temperature_milli_c as int);
        let c = seq!["\"cpu\":{\"utilization\":\"not instrumented\",\"note\":\"single-core async firmware; no idle-time sampler yet\"}}".spec_bytes()];
        let p1 = self.head_pieces() + t;
        let p2 = p1 + d;
        let p3 = p2 + self.adc_pieces();
        let p4 = p3 + ipv4_pieces(self.ipv4);
        let p5 = p4 + self.clock_pieces();
        let p6 = p5 + self.memory_pieces();
        assert(self.json_pieces() == p6 + c);
        vstd::seq_lib::lemma_flatten_concat(self.head_pieces(), t);
        t.lemma_flatten_singleton();
        vstd::seq_lib::lemma_flatten_concat(p1, d);
        vstd::seq_lib::lemma_flatten_concat(p2, self.adc_pieces());
        vstd::seq_lib::lemma_flatten_concat(p3, ipv4_pieces(self.ipv4));
        vstd::seq_lib::lemma_flatten_concat(p4, self.clock_pieces());
        vstd::seq_lib::lemma_flatten_concat(p5, self.memory_pieces());
        vstd::seq_lib::lemma_flatten_concat(p6, c);
        c.lemma_flatten_singleton();
    }

    /// Each key of the report is followed by its own field: the digits after a numeric key
    /// read back, in decimal (the stack pointer in hexadecimal), as the field of that name,
    /// the temperature key by the temperature in degrees with one decimal, and the opening
    /// quote of the address by the address.
    #[verifier::rlimit(40)]
    pub proof fn lemma_json_fields(self)
        ensures
            number_after(self.json_text(), "{\"device\":\"Pico 2 W\",\"uptime_s\":".spec_bytes(), 10, self.uptime_s as nat),
            number_after(self.json_text(), ",\"uptime_ms\":".spec_bytes(), 10, self.uptime_ms as nat),
            number_after(self.json_text(), ",\"requests\":".spec_bytes(), 10, self.requests as nat),
            number_after(self.json_text(), ",\"last_request_ms\":".spec_bytes(), 10, self.last_request_ms as nat),
            text_after(self.json_text(), "\"temperature_c\":".spec_bytes(), decimal1_text(self.temperature_milli_c as int)),
            number_after(self.json_text(), ",\"adc_raw\":".spec_bytes(), 10, self.adc_raw as nat),
            text_after(self.json_text(), ",\"adc_reference_mv\":3300,\"ipv4\":\"".spec_bytes(), ipv4_text(self.ipv4)),
            number_after(self.json_text(), "\",\"clocks\":{\"sys_hz\":".spec_bytes(), 10, self.sys_hz as nat),
            number_after(self.json_text(), ",\"peri_hz\":".spec_bytes(), 10, self.peri_hz as nat),
            number_after(self.json_text(), ",\"adc_hz\":".spec_bytes(), 10, self.adc_hz as nat),
            number_after(self.json_text(), ",\"rosc_hz\":".spec_bytes(), 10, self.rosc_hz as nat),
            number_after(self.json_text(), "\"memory\":{\"ram_total_bytes\":".spec_bytes(), 10, RAM_BYTES as nat),
            number_after(self.json_text(), ",\"static_ram_bytes\":".spec_bytes(), 10, self.static_ram_bytes as nat),
            number_after(self.json_text(), ",\"stack_reserved_bytes\":".spec_bytes(), 10, STACK_BYTES as nat),
            number_after(self.json_text(), ",\"stack_pointer\":\"0x".spec_bytes(), 16, self.stack_pointer as nat),
            number_after(self.json_text(), "\",\"stack_headroom_bytes\":".spec_bytes(), 10, self.stack_headroom_bytes as nat),
    {
        let text = self.json_text();
        let h = self.head_pieces().flatten();
        let t = "\"temperature_c\":".spec_bytes();
        let d = decimal1_text(self.temperature_milli_c as int);
        let a = self.adc_pieces().flatten();
        let i = ipv4_text(self.ipv4);
        let c = self.clock_pieces().flatten();
        let m = self.memory_pieces().flatten();
        let p = "\"cpu\":{\"utilization\":\"not instrumented\",\"note\":\"single-core async firmware; no idle-time sampler yet\"}}".spec_bytes();
        let e = Seq::<u8>::empty();
        self.lemma_json_parts();
        assert(text == h + t + d + a + i + c + m + p);
        assert(text =~= e + h + (t + d + a + i + c + m + p));
        self.lemma_head_fields(text, e, t + d + a + i + c + m + p);
        assert(text =~= h + t + d + (a + i + c + m + p));
        assert(split_around(text, h, t, d, a + i + c + m + p));
        assert(text =~= (h + t + d) + a + (i + c + m + p));
        assert((i + c + m + p).subrange(0, i.len() as int) =~= i);
        self.lemma_adc_fields(text, h + t + d, i + c + m + p);
        assert(text =~= (h + t + d + a + i) + c + (m + p));
        self.lemma_clock_fields(text, h + t + d + a + i, m + p);
        assert(text =~= (h + t + d + a + i + c) + m + p);
        self.lemma_memory_fields(text, h + t + d + a + i + c, p);
    }

    /// The opening of the report keeps its fields inside any longer text.
    proof fn lemma_head_fields(self, text: Seq<u8>, before: Seq<u8>, after: Seq<u8>)
        requires
            text == before + self.head_pieces().flatten() + after,
        ensures
            number_after(text, "{\"device\":\"Pico 2 W\",\"uptime_s\":".spec_bytes(), 10, self.uptime_s as nat),
            number_after(text, ",\"uptime_ms\":".spec_bytes(), 10, self.uptime_ms as nat),
            number_after(text, ",\"requests\":".spec_bytes(), 10, self.requests as nat),
            number_after(text, ",\"last_request_ms\":".spec_bytes(), 10, self.last_request_ms as nat),
    {
        let h = self.head_pieces().flatten();
        self.lemma_head_numbers();
        lemma_number_after_within(text, before, h, after, "{\"device\":\"Pico 2 W\",\"uptime_s\":".spec_bytes(), 10, self.uptime_s as nat);
        lemma_number_after_within(text, before, h, after, ",\"uptime_ms\":".spec_bytes(), 10, self.uptime_ms as nat);
        lemma_number_after_within(text, before, h, after, ",\"requests\":".spec_bytes(), 10, self.requests as nat);
        lemma_number_after_within(text, before, h, after, ",\"last_request_ms\":".spec_bytes(), 10, self.last_request_ms as nat);
    }

    /// The ADC part of the report keeps its sample, and its last key is followed by
    /// the address, inside any longer text.
    proof fn lemma_adc_fields(self, text: Seq<u8>, before: Seq<u8>, after: Seq<u8>)
        requires
            text == before + self.adc_pieces().flatten() + after,
            after.len() >= ipv4_text(self.ipv4).len(),
            after.subrange(0, ipv4_text(self.ipv4).len() as int) == ipv4_text(self.ipv4),
        ensures
            number_after(text, ",\"adc_raw\":".spec_bytes(), 10, self.adc_raw as nat),
            text_after(text, ",\"adc_reference_mv\":3300,\"ipv4\":\"".spec_bytes(), ipv4_text(self.ipv4)),
    {
        let a = self.adc_pieces().flatten();
        let i = ipv4_text(self.ipv4);
        self.lemma_adc_number();
        lemma_number_after_within(text, before, a, after, ",\"adc_raw\":".spec_bytes(), 10, self.adc_raw as nat);
        let k = ",\"adc_reference_mv\":3300,\"ipv4\":\"".spec_bytes();
        let ap = self.adc_pieces();
        assert(ap.take(2).push(k) =~= ap);
        ap.take(2).lemma_flatten_push(k);
        let rest = after.subrange(i.len() as int, after.len() as int);
        assert(after =~= i + rest);
        assert(text =~= (before + ap.take(2).flatten()) + k + i + rest);
        assert(split_around(text, before + ap.take(2).flatten(), k, i, rest));
    }

    /// The clock part of the report keeps its frequencies inside any longer text.
    proof fn lemma_clock_fields(self, text: Seq<u8>, before: Seq<u8>, after: Seq<u8>)
        requires
            text == before + self.clock_pieces().flatten() + after,
        ensures
            number_after(text, "\",\"clocks\":{\"sys_hz\":".spec_bytes(), 10, self.sys_hz as nat),
            number_after(text, ",\"peri_hz\":".spec_bytes(), 10, self.peri_hz as nat),
            number_after(text, ",\"adc_hz\":".spec_bytes(), 10, self.adc_hz as nat),
            number_after(text, ",\"rosc_hz\":".spec_bytes(), 10, self.rosc_hz as nat),
    {
        let c = self.clock_pieces().flatten();
        self.lemma_clock_numbers();
        lemma_number_after_within(text, before, c, after, "\",\"clocks\":{\"sys_hz\":".spec_bytes(), 10, self.sys_hz as nat);
        lemma_number_after_within(text, before, c, after, ",\"peri_hz\":".spec_bytes(), 10, self.peri_hz as nat);
        lemma_number_after_within(text, before, c, after, ",\"adc_hz\":".spec_bytes(), 10, self.adc_hz as nat);
        lemma_number_after_within(text, before, c, after, ",\"rosc_hz\":".spec_bytes(), 10, self.rosc_hz as nat);
    }

    /// The memory part of the report keeps its figures inside any longer text.
    proof fn lemma_memory_fields(self, text: Seq<u8>, before: Seq<u8>, after: Seq<u8>)
        requires
            text == before + self.memory_pieces().flatten() + after,
        ensures
            number_after(text, "\"memory\":{\"ram_total_bytes\":".spec_bytes(), 10, RAM_BYTES as nat),
            number_after(text, ",\"static_ram_bytes\":".spec_bytes(), 10, self.static_ram_bytes as nat),
            number_after(text, ",\"stack_reserved_bytes\":".spec_bytes(), 10, STACK_BYTES as nat),
            number_after(text, ",\"stack_pointer\":\"0x".spec_bytes(), 16, self.stack_pointer as nat),
            number_after(text, "\",\"stack_headroom_bytes\":".spec_bytes(), 10, self.stack_headroom_bytes as nat),
    {
        let m = self.memory_pieces().flatten();
        self.lemma_memory_numbers();
        lemma_number_after_within(text, before, m, after, "\"memory\":{\"ram_total_bytes\":".spec_bytes(), 10, RAM_BYTES as nat);
        lemma_number_after_within(text, before, m, after, ",\"static_ram_bytes\":".spec_bytes(), 10, self.static_ram_bytes as nat);
        lemma_number_after_within(text, before, m, after, ",\"stack_reserved_bytes\":".spec_bytes(), 10, STACK_BYTES as nat);
        lemma_number_after_within(text, before, m, after, ",\"stack_pointer\":\"0x".spec_bytes(), 16, self.stack_pointer as nat);
        lemma_number_after_within(text, before, m, after, "\",\"stack_headroom_bytes\":".spec_bytes(), 10, self.stack_headroom_bytes as nat);
    }

    /// Writes the pieces of the opening of the report.
    fn write_head<const N: usize>(&self, out: &mut StackText<N>) -> (r: Result<(), WriteError>)
        ensures
            wrote(*old(out), *final(out), self.head_pieces(), r is Ok),
    {
        let ghost o = *out;
        let ghost full = self.head_pieces();
        let ghost mut prev = *out;
        let ghost mut k: int = 0;
        let r = out.write_str("{\"device\":\"Pico 2 W\",\"uptime_s\":");
        proof {
            lemma_wrote_step(o, prev, *out, full, k, seq!["{\"device\":\"Pico 2 W\",\"uptime_s\":".spec_bytes()], r is Ok);
            k = k + 1;
            prev = *out;
        }
        if r.is_err() {
            proof {
                lemma_wrote_fits(o, *out, full, false);
            }
            return r;
        }
        let r = write_u64(out, self.uptime_s);
        proof {
            lemma_wrote_step(o, prev, *out, full, k, seq![decimal(self.uptime_s as nat)], r is Ok);
            k = k + 1;
            prev = *out;
        }
        if r.is_err() {
            proof {
                lemma_wrote_fits(o, *out, full, false);
            }
            return r;
        }
        let r = out.write_str(",\"uptime_ms\":");
        proof {
            lemma_wrote_step(o, prev, *out, full, k, seq![",\"uptime_ms\":".spec_bytes()], r is Ok);
            k = k + 1;
            prev = *out;
        }
        if r.is_err() {
            proof {
                lemma_wrote_fits(o, *out, full, false);
            }
            return r;
        }
        let r = write_u64(out, self.uptime_ms);
        proof {
            lemma_wrote_step(o, prev, *out, full, k, seq![decimal(self.uptime_ms as nat)], r is Ok);
            k = k + 1;
            prev = *out;
        }
        if r.is_err() {
            proof {
                lemma_wrote_fits(o, *out, full, false);
            }
            return r;
        }
        let r = out.write_str(",\"requests\":");
        proof {
            lemma_wrote_step(o, prev, *out, full, k, seq![",\"requests\":".spec_bytes()], r is Ok);
            k = k + 1;
            prev = *out;
        }
        if r.is_err() {
            proof {
                lemma_wrote_fits(o, *out, full, false);
            }
            return r;
        }
        let r = write_u64(out, self.requests);
        proof {
            lemma_wrote_step(o, prev, *out, full, k, seq![decimal(self.requests as nat)], r is Ok);
            k = k + 1;
            prev = *out;
        }
        if r.is_err() {
            proof {
                lemma_wrote_fits(o, *out, full, false);
            }
            return r;
        }
        let r = out.write_str(",\"last_request_ms\":");
        proof {
            lemma_wrote_step(o, prev, *out, full, k, seq![",\"last_request_ms\":".spec_bytes()], r is Ok);
            k = k + 1;
            prev = *out;
        }
        if r.is_err() {
            proof {
                lemma_wrote_fits(o, *out, full, false);
            }
            return r;
        }
        let r = write_u64(out, self.last_request_ms);
        proof {
            lemma_wrote_step(o, prev, *out, full, k, seq![decimal(self.last_request_ms as nat)], r is Ok);
            k = k + 1;
            prev = *out;
        }
        if r.is_err() {
            proof {
                lemma_wrote_fits(o, *out, full, false);
            }
            return r;
        }
        let r = out.write_str(",");
        proof {
            lemma_wrote_step(o, prev, *out, full, k, seq![",".spec_bytes()], r is Ok);
            lemma_wrote_fits(o, *out, full, r is Ok);
        }
        r
    }

    /// Writes the pieces of the ADC part of the report.
    fn write_adc<const N: usize>(&self, out: &mut StackText<N>) -> (r: Result<(), WriteError>)
        ensures
            wrote(*old(out), *final(out), self.adc_pieces(), r is Ok),
    {
        let ghost o = *out;
        let ghost full = self.adc_pieces();
        let ghost mut prev = *out;
        let ghost mut k: int = 0;
        let r = out.write_str(",\"adc_raw\":");
        proof {
            lemma_wrote_step(o, prev, *out, full, k, seq![",\"adc_raw\":".spec_bytes()], r is Ok);
            k = k + 1;
            prev = *out;
        }
        if r.is_err() {
            proof {
                lemma_wrote_fits(o, *out, full, false);
            }
            return r;
        }
        let r = write_u64(out, self.adc_raw as u64);
        proof {
            lemma_wrote_step(o, prev, *out, full, k, seq![decimal(self.adc_raw as nat)], r is Ok);
            k = k + 1;
            prev = *out;
        }
        if r.is_err() {
            proof {
                lemma_wrote_fits(o, *out, full, false);
            }
            return r;
        }
        let r = out.write_str(",\"adc_reference_mv\":3300,\"ipv4\":\"");
        proof {
            lemma_wrote_step(o, prev, *out, full, k, seq![",\"adc_reference_mv\":3300,\"ipv4\":\"".spec_bytes()], r is Ok);
            lemma_wrote_fits(o, *out, full, r is Ok);
        }
        r
    }

    /// Writes the pieces of the clock part of the report.
    fn write_clocks<const N: usize>(&self, out: &mut StackText<N>) -> (r: Result<(), WriteError>)
        ensures
            wrote(*old(out), *final(out), self.clock_pieces(), r is Ok),
    {
        let ghost o = *out;
        let ghost full = self.clock_pieces();
        let ghost mut prev = *out;
        let ghost mut k: int = 0;
        let r = out.write_str("\",\"clocks\":{\"sys_hz\":");
        proof {
            lemma_wrote_step(o, prev, *out, full, k, seq!["\",\"clocks\":{\"sys_hz\":".spec_bytes()], r is Ok);
            k = k + 1;
            prev = *out;
        }
        if r.is_err() {
            proof {
                lemma_wrote_fits(o, *out, full, false);
            }
            return r;
        }
        let r = write_u64(out, self.sys_hz as u64);
        proof {
            lemma_wrote_step(o, prev, *out, full, k, seq![decimal(self.sys_hz as nat)], r is Ok);
            k = k + 1;
            prev = *out;
        }
        if r.is_err() {
            proof {
                lemma_wrote_fits(o, *out, full, false);
            }
            return r;
        }
        let r = out.write_str(",\"peri_hz\":");
        proof {
            lemma_wrote_step(o, prev, *out, full, k, seq![",\"peri_hz\":".spec_bytes()], r is Ok);
            k = k + 1;
            prev = *out;
        }
        if r.is_err() {
            proof {
                lemma_wrote_fits(o, *out, full, false);
            }
            return r;
        }
        let r = write_u64(out, self.peri_hz as u64);
        proof {
            lemma_wrote_step(o, prev, *out, full, k, seq![decimal(self.peri_hz as nat)], r is Ok);
            k = k + 1;
            prev = *out;
        }
        if r.is_err() {
            proof {
                lemma_wrote_fits(o, *out, full, false);
            }
            return r;
        }
        let r = out.write_str(",\"adc_hz\":");
        proof {
            lemma_wrote_step(o, prev, *out, full, k, seq![",\"adc_hz\":".spec_bytes()], r is Ok);
            k = k + 1;
            prev = *out;
        }
        if r.is_err() {
            proof {
                lemma_wrote_fits(o, *out, full, false);
            }
            return r;
        }
        let r = write_u64(out, self.adc_hz as u64);
        proof {
            lemma_wrote_step(o, prev, *out, full, k, seq![decimal(self.adc_hz as nat)], r is Ok);
            k = k + 1;
            prev = *out;
        }
        if r.is_err() {
            proof {
                lemma_wrote_fits(o, *out, full, false);
            }
            return r;
        }
        let r = out.write_str(",\"rosc_hz\":");
        proof {
            lemma_wrote_step(o, prev, *out, full, k, seq![",\"rosc_hz\":".spec_bytes()], r is Ok);
            k = k + 1;
            prev = *out;
        }
        if r.is_err() {
            proof {
                lemma_wrote_fits(o, *out, full, false);
            }
            return r;
        }
        let r = write_u64(out, self.rosc_hz as u64);
        proof {
            lemma_wrote_step(o, prev, *out, full, k, seq![decimal(self.rosc_hz as nat)], r is Ok);
            k = k + 1;
            prev = *out;
        }
        if r.is_err() {
            proof {
                lemma_wrote_fits(o, *out, full, false);
            }
            return r;
        }
        let r = out.write_str("},");
        proof {
            lemma_wrote_step(o, prev, *out, full, k, seq!["},".spec_bytes()], r is Ok);
            lemma_wrote_fits(o, *out, full, r is Ok);
        }
        r
    }

    /// Writes the pieces of the memory part of the report.
    fn write_memory<const N: usize>(&self, out: &mut StackText<N>) -> (r: Result<(), WriteError>)
        ensures
            wrote(*old(out), *final(out), self.memory_pieces(), r is Ok),
    {
        let ghost o = *out;
        let ghost full = self.memory_pieces();
        let ghost mut prev = *out;
        let ghost mut k: int = 0;
        let r = out.write_str("\"memory\":{\"ram_total_bytes\":");
        proof {
            lemma_wrote_step(o, prev, *out, full, k, seq!["\"memory\":{\"ram_total_bytes\":".spec_bytes()], r is Ok);
            k = k + 1;
            prev = *out;
        }
        if r.is_err() {
            proof {
                lemma_wrote_fits(o, *out, full, false);
            }
            return r;
        }
        let r = write_u64(out, RAM_BYTES as u64);
        proof {
            lemma_wrote_step(o, prev, *out, full, k, seq![decimal(RAM_BYTES as nat)], r is Ok);
            k = k + 1;
            prev = *out;
        }
        if r.is_err() {
            proof {
                lemma_wrote_fits(o, *out, full, false);
            }
            return r;
        }
        let r = out.write_str(",\"static_ram_bytes\":");
        proof {
            lemma_wrote_step(o, prev, *out, full, k, seq![",\"static_ram_bytes\":".spec_bytes()], r is Ok);
            k = k + 1;
            prev = *out;
        }
        if r.is_err() {
            proof {
                lemma_wrote_fits(o, *out, full, false);
            }
            return r;
        }
        let r = write_u64(out, self.static_ram_bytes as u64);
        proof {
            lemma_wrote_step(o, prev, *out, full, k, seq![decimal(self.static_ram_bytes as nat)], r is Ok);
            k = k + 1;
            prev = *out;
        }
        if r.is_err() {
            proof {
                lemma_wrote_fits(o, *out, full, false);
            }
            return r;
        }
        let r = out.write_str(",\"stack_reserved_bytes\":");
        proof {
            lemma_wrote_step(o, prev, *out, full, k, seq![",\"stack_reserved_bytes\":".spec_bytes()], r is Ok);
            k = k + 1;
            prev = *out;
        }
        if r.is_err() {
            proof {
                lemma_wrote_fits(o, *out, full, false);
            }
            return r;
        }
        let r = write_u64(out, STACK_BYTES as u64);
        proof {
            lemma_wrote_step(o, prev, *out, full, k, seq![decimal(STACK_BYTES as nat)], r is Ok);
            k = k + 1;
            prev = *out;
        }
        if r.is_err() {
            proof {
                lemma_wrote_fits(o, *out, full, false);
            }
            return r;
        }
        let r = out.write_str(",\"stack_pointer\":\"0x");
        proof {
            lemma_wrote_step(o, prev, *out, full, k, seq![",\"stack_pointer\":\"0x".spec_bytes()], r is Ok);
            k = k + 1;
            prev = *out;
        }
        if r.is_err() {
            proof {
                lemma_wrote_fits(o, *out, full, false);
            }
            return r;
        }
        let r = write_hex08(out, self.stack_pointer as u64);
        proof {
            lemma_wrote_step(o, prev, *out, full, k, hex08_pieces(self.stack_pointer as nat), r is Ok);
            k = k + hex08_pieces(self.stack_pointer as nat).len();
            prev = *out;
        }
        if r.is_err() {
            proof {
                lemma_wrote_fits(o, *out, full, false);
            }
            return r;
        }
        let r = out.write_str("\",\"stack_headroom_bytes\":");
        proof {
            lemma_wrote_step(o, prev, *out, full, k, seq!["\",\"stack_headroom_bytes\":".spec_bytes()], r is Ok);
            k = k + 1;
            prev = *out;
        }
        if r.is_err() {
            proof {
                lemma_wrote_fits(o, *out, full, false);
            }
            return r;
        }
        let r = write_u64(out, self.stack_headroom_bytes as u64);
        proof {
            lemma_wrote_step(o, prev, *out, full, k, seq![decimal(self.stack_headroom_bytes as nat)], r is Ok);
            k = k + 1;
            prev = *out;
        }
        if r.is_err() {
            proof {
                lemma_wrote_fits(o, *out, full, false);
            }
            return r;
        }
        let r = out.write_str(",\"heap_bytes\":0},");
        proof {
            lemma_wrote_step(o, prev, *out, full, k, seq![",\"heap_bytes\":0},".spec_bytes()], r is Ok);
            lemma_wrote_fits(o, *out, full, r is Ok);
        }
        r
    }

    /// Writes the report as one JSON object. Its pieces go in one after the other, each
    /// whole or not at all, and writing stops at the first piece that does not fit; it
    /// succeeds exactly when the whole object fits in the room left.
    pub fn write_json<const N: usize>(&self, out: &mut StackText<N>) -> (r: Result<(), WriteError>)
        requires
            self.temperature_milli_c > i32::MIN,
        ensures
            wrote(*old(out), *final(out), self.json_pieces(), r is Ok),
            r is Ok <==> old(out)@.len() + self.json_text().len() <= N,
            final(out)@.len() <= N,
    {
        let ghost o = *out;
        let ghost full = self.json_pieces();
        let ghost mut prev = *out;
        let ghost mut k: int = 0;
        let r = self.write_head(out);
        proof {
            lemma_wrote_step(o, prev, *out, full, k, self.head_pieces(), r is Ok);
            k = k + self.head_pieces().len();
            prev = *out;
        }
        if r.is_err() {
            proof {
                lemma_wrote_fits(o, *out, full, false);
            }
            return r;
        }
        let r = out.write_str("\"temperature_c\":");
        proof {
            lemma_wrote_step(o, prev, *out, full, k, seq!["\"temperature_c\":".spec_bytes()], r is Ok);
            k = k + 1;
            prev = *out;
        }
        if r.is_err() {
            proof {
                lemma_wrote_fits(o, *out, full, false);
            }
            return r;
        }
        let r = write_decimal1(out, self.temperature_milli_c);
        proof {
            lemma_wrote_step(o, prev, *out, full, k, decimal1_pieces(self.temperature_milli_c as int), r is Ok);
            k = k + decimal1_pieces(self.temperature_milli_c as int).len();
            prev = *out;
        }
        if r.is_err() {
            proof {
                lemma_wrote_fits(o, *out, full, false);
            }
            return r;
        }
        let r = self.write_adc(out);
        proof {
            lemma_wrote_step(o, prev, *out, full, k, self.adc_pieces(), r is Ok);
            k = k + self.adc_pieces().len();
            prev = *out;
        }
        if r.is_err() {
            proof {
                lemma_wrote_fits(o, *out, full, false);
            }
            return r;
        }
        let r = write_ipv4(out, self.ipv4);
        proof {
            lemma_wrote_step(o, prev, *out, full, k, ipv4_pieces(self.ipv4), r is Ok);
            k = k + ipv4_pieces(self.ipv4).len();
            prev = *out;
        }
        if r.is_err() {
            proof {
                lemma_wrote_fits(o, *out, full, false);
            }
            return r;
        }
        let r = self.write_clocks(out);
        proof {
            lemma_wrote_step(o, prev, *out, full, k, self.clock_pieces(), r is Ok);
            k = k + self.clock_pieces().len();
            prev = *out;
        }
        if r.is_err() {
            proof {
                lemma_wrote_fits(o, *out, full, false);
            }
            return r;
        }
        let r = self.write_memory(out);
        proof {
            lemma_wrote_step(o, prev, *out, full, k, self.memory_pieces(), r is Ok);
            k = k + self.memory_pieces().len();
            prev = *out;
        }
        if r.is_err() {
            proof {
                lemma_wrote_fits(o, *out, full, false);
            }
            return r;
        }
        let r = out.write_str("\"cpu\":{\"utilization\":\"not instrumented\",\"note\":\"single-core async firmware; no idle-time sampler yet\"}}");
        proof {
            lemma_wrote_step(o, prev, *out, full, k, seq!["\"cpu\":{\"utilization\":\"not instrumented\",\"note\":\"single-core async firmware; no idle-time sampler yet\"}}".spec_bytes()], r is Ok);
            lemma_wrote_fits(o, *out, full, r is Ok);
        }
        r
    }
}

} // verus!
