use vstd::prelude::*;
use vstd::arithmetic::div_mod::lemma_div_is_ordered;
use crate::digits::{decimal, lemma_decimal_reads_as, reads_as, write_u64};
use crate::text::{StackText, WriteError, lemma_wrote_fits, lemma_wrote_step, wrote};

verus! {

/// Full scale of the 12-bit ADC.
pub const ADC_MAX: i32 = 4095;

/// ADC reference voltage in microvolts.
pub const ADC_REF_UV: i32 = 3_300_000;

/// Sensor voltage at 27 degrees Celsius, in microvolts.
pub const TEMP_27C_UV: i32 = 706_000;

/// Sensor slope, in microvolts per degree Celsius.
pub const TEMP_SLOPE_UV_PER_C: i32 = 1_721;

/// Integer division that rounds toward zero, for a positive divisor.
pub open spec fn div_toward_zero(a: int, b: int) -> int {
    if a >= 0 {
        a / b
    } else {
        -((-a) / b)
    }
}

/// The sensor voltage, in microvolts, that an ADC sample stands for.
pub open spec fn sample_microvolts(raw: int) -> int {
    raw * (ADC_REF_UV as int) / (ADC_MAX as int)
}

/// The die temperature in thousandths of a degree Celsius for an ADC sample:
/// `27 - (V - 0.706) / 0.001721`, computed in whole microvolts with divisions that
/// round toward zero.
pub open spec fn milli_celsius(raw: int) -> int {
    27_000 - div_toward_zero((sample_microvolts(raw) - TEMP_27C_UV as int) * 1000, TEMP_SLOPE_UV_PER_C as int)
}

/// Converts a raw sample of the temperature sensor to thousandths of a degree Celsius.
pub fn adc_to_milli_c(raw: u16) -> (r: i32)
    ensures
        r == milli_celsius(raw as int),
{
    assert(raw as u64 * 3_300_000 <= 65535 * 3_300_000) by (nonlinear_arith)
        requires
            raw <= 65535,
    ;
    let voltage_uv: u64 = (raw as u64 * 3_300_000) / 4095;
    assert(voltage_uv <= 52_812_380) by (nonlinear_arith)
        requires
            voltage_uv == (raw as u64 * 3_300_000) / 4095,
            raw as u64 * 3_300_000 <= 65535 * 3_300_000,
    ;
    if voltage_uv >= 706_000 {
        let q: u64 = ((voltage_uv - 706_000) * 1000) / 1721;
        assert(q <= 30_277_000) by (nonlinear_arith)
            requires
                q == ((voltage_uv - 706_000) * 1000) / 1721,
                voltage_uv <= 52_812_380,
                voltage_uv >= 706_000,
        ;
        (27_000 - q as i64) as i32
    } else {
        let q: u64 = ((706_000 - voltage_uv) * 1000) / 1721;
        assert(q <= 706_000 * 1000 / 1721) by (nonlinear_arith)
            requires
                q == ((706_000 - voltage_uv) * 1000) / 1721,
        ;
        proof {
            assert((sample_microvolts(raw as int) - TEMP_27C_UV) * 1000 == -((706_000 - voltage_uv) * 1000));
        }
        (27_000 + q as i64) as i32
    }
}

/// A larger sample never gives a higher temperature.
pub proof fn lemma_milli_celsius_antitone(raw1: int, raw2: int)
    requires
        0 <= raw1 <= raw2,
    ensures
        milli_celsius(raw2) <= milli_celsius(raw1),
{
    assert(raw1 * ADC_REF_UV <= raw2 * ADC_REF_UV) by (nonlinear_arith)
        requires
            raw1 <= raw2,
    ;
    lemma_div_is_ordered(raw1 * ADC_REF_UV, raw2 * ADC_REF_UV, ADC_MAX as int);
    let a = (sample_microvolts(raw1) - TEMP_27C_UV) * 1000;
    let b = (sample_microvolts(raw2) - TEMP_27C_UV) * 1000;
    assert(a <= b);
    if a >= 0 {
        lemma_div_is_ordered(a, b, 1721);
    } else if b >= 0 {
        assert(0 <= b / 1721) by (nonlinear_arith)
            requires
                b >= 0,
        ;
        assert(0 <= (-a) / 1721) by (nonlinear_arith)
            requires
                a < 0,
        ;
    } else {
        lemma_div_is_ordered(-b, -a, 1721);
    }
}

/// The temperature of a sample is the sensor formula `27 - (V - 0.706) / 0.001721` in
/// thousandths of a degree, with `V` the sample in whole microvolts: `V` is the sample
/// scaled by 3.3 V over 4095 and cut down, and the drop below 27000 is
/// `(V - 706000) * 1000 / 1721` cut toward zero.
pub proof fn lemma_temperature_formula(raw: int)
    requires
        0 <= raw,
    ensures
        sample_microvolts(raw) * 4095 <= raw * 3_300_000 < sample_microvolts(raw) * 4095 + 4095,
        ({
            let d = (sample_microvolts(raw) - 706_000) * 1000;
            let q = 27_000 - milli_celsius(raw);
            &&& d >= 0 ==> 0 <= q * 1721 <= d < q * 1721 + 1721
            &&& d < 0 ==> q * 1721 - 1721 < d <= q * 1721 <= 0
        }),
{
    let p = raw * 3_300_000;
    assert(p >= 0) by (nonlinear_arith)
        requires
            raw >= 0,
            p == raw * 3_300_000,
    ;
    vstd::arithmetic::div_mod::lemma_fundamental_div_mod(p, 4095);
    vstd::arithmetic::div_mod::lemma_mod_bound(p, 4095);
    let d = (sample_microvolts(raw) - 706_000) * 1000;
    if d >= 0 {
        vstd::arithmetic::div_mod::lemma_fundamental_div_mod(d, 1721);
        vstd::arithmetic::div_mod::lemma_mod_bound(d, 1721);
        vstd::arithmetic::div_mod::lemma_div_pos_is_pos(d, 1721);
    } else {
        vstd::arithmetic::div_mod::lemma_fundamental_div_mod(-d, 1721);
        vstd::arithmetic::div_mod::lemma_mod_bound(-d, 1721);
        vstd::arithmetic::div_mod::lemma_div_pos_is_pos(-d, 1721);
    }
}

/// When the sample voltage rises by at least one slope step (1721 microvolts), the
/// temperature drops.
pub proof fn lemma_temperature_drops(raw1: int, raw2: int)
    requires
        0 <= raw1,
        0 <= raw2,
        sample_microvolts(raw2) - sample_microvolts(raw1) >= 1721,
    ensures
        milli_celsius(raw2) < milli_celsius(raw1),
{
    lemma_temperature_formula(raw1);
    lemma_temperature_formula(raw2);
}

/// The pieces of the text of a temperature given in thousandths of a degree: a minus
/// sign when it is below zero, the whole degrees, a point and the tenths, cut toward zero.
pub open spec fn decimal1_pieces(milli: int) -> Seq<Seq<u8>> {
    let abs = if milli < 0 {
        -milli
    } else {
        milli
    };
    let sign = if milli < 0 {
        seq![seq![45u8]]
    } else {
        Seq::<Seq<u8>>::empty()
    };
    sign + seq![decimal((abs / 1000) as nat), seq![46u8], decimal(((abs % 1000) / 100) as nat)]
}

/// The text of a temperature given in thousandths of a degree, such as `-1.2` for -1250.
pub open spec fn decimal1_text(milli: int) -> Seq<u8> {
    decimal1_pieces(milli).flatten()
}

/// The whole part and the single decimal that `decimal1_text` shows are the magnitude cut
/// to tenths: `whole * 10 + tenths == |milli| / 100`, with `tenths` one digit.
pub proof fn lemma_decimal1_parts(milli: int)
    ensures
        ({
            let abs = if milli < 0 {
                -milli
            } else {
                milli
            };
            &&& (abs / 1000) * 10 + (abs % 1000) / 100 == abs / 100
            &&& 0 <= (abs % 1000) / 100 < 10
        }),
{
    let abs = if milli < 0 {
        -milli
    } else {
        milli
    };
    assert((abs / 1000) * 10 + (abs % 1000) / 100 == abs / 100 && 0 <= (abs % 1000) / 100 < 10)
        by (nonlinear_arith)
        requires
            abs >= 0,
    {
        vstd::arithmetic::div_mod::lemma_fundamental_div_mod(abs, 1000);
        vstd::arithmetic::div_mod::lemma_fundamental_div_mod(abs % 1000, 100);
        vstd::arithmetic::div_mod::lemma_mod_bound(abs, 1000);
        vstd::arithmetic::div_mod::lemma_fundamental_div_mod_converse(
            abs,
            100,
            (abs / 1000) * 10 + (abs % 1000) / 100,
            (abs % 1000) % 100,
        );
    }
}

/// `text` is `sign`, then `whole`, a point and `tenths`.
pub open spec fn signed_tenths(text: Seq<u8>, sign: Seq<u8>, whole: Seq<u8>, tenths: Seq<u8>) -> bool {
    text == sign + whole + seq![46u8] + tenths
}

/// A minus sign for a temperature below zero, nothing otherwise.
pub open spec fn minus_sign(milli: int) -> Seq<u8> {
    if milli < 0 {
        seq![45u8]
    } else {
        Seq::<u8>::empty()
    }
}

/// The magnitude of a temperature.
pub open spec fn magnitude(milli: int) -> int {
    if milli < 0 {
        -milli
    } else {
        milli
    }
}

/// The text of a temperature is a minus sign exactly when it is below zero, then the
/// digits of the whole degrees of its magnitude, a point, and one digit of tenths.
pub proof fn lemma_decimal1_shape(milli: int)
    ensures
        exists|whole: Seq<u8>, tenths: Seq<u8>|
            #[trigger] signed_tenths(decimal1_text(milli), minus_sign(milli), whole, tenths)
                && reads_as(whole, 10, (magnitude(milli) / 1000) as nat)
                && reads_as(tenths, 10, ((magnitude(milli) % 1000) / 100) as nat)
                && tenths.len() == 1,
{
    let abs = if milli < 0 {
        -milli
    } else {
        milli
    };
    let sign = if milli < 0 {
        seq![45u8]
    } else {
        Seq::<u8>::empty()
    };
    let signp = if milli < 0 {
        seq![seq![45u8]]
    } else {
        Seq::<Seq<u8>>::empty()
    };
    let w = decimal((abs / 1000) as nat);
    let t = decimal(((abs % 1000) / 100) as nat);
    lemma_decimal1_parts(milli);
    lemma_decimal_reads_as((abs / 1000) as nat);
    lemma_decimal_reads_as(((abs % 1000) / 100) as nat);
    let rest = seq![w, seq![46u8], t];
    vstd::seq_lib::lemma_flatten_concat(signp, rest);
    reveal_with_fuel(Seq::flatten, 4);
    assert(rest.flatten() =~= w + seq![46u8] + t);
    assert(signp.flatten() =~= sign);
    assert(decimal1_pieces(milli) =~= signp + rest);
    assert(t.len() == 1);
    assert(decimal1_text(milli) == (signp + rest).flatten());
    assert(decimal1_text(milli) =~= sign + w + seq![46u8] + t);
    assert(signed_tenths(decimal1_text(milli), minus_sign(milli), w, t));
}

/// Writes `milli` thousandths with one decimal, cut toward zero (`-1.2` for -1250).
/// The sign, the whole part, the point and the tenth go in one after the other, each whole
/// or not at all, and writing stops at the first that does not fit.
pub fn write_decimal1<const N: usize>(out: &mut StackText<N>, milli: i32) -> (r: Result<(), WriteError>)
    requires
        milli > i32::MIN,
    ensures
        wrote(*old(out), *final(out), decimal1_pieces(milli as int), r is Ok),
        r is Ok <==> old(out)@.len() + decimal1_text(milli as int).len() <= N,
        final(out)@.len() <= N,
{
    let ghost full = decimal1_pieces(milli as int);
    let ghost o = *out;
    let abs: u64 = if milli < 0 {
        (-(milli as i64)) as u64
    } else {
        milli as u64
    };
    let ghost s: int = if milli < 0 {
        1
    } else {
        0
    };
    assert(full.len() == s + 3);
    if milli < 0 {
        let r = out.write_byte(45u8);
        proof {
            lemma_wrote_step(o, o, *out, full, 0, seq![seq![45u8]], r is Ok);
        }
        if r.is_err() {
            proof {
                lemma_wrote_fits(o, *out, full, false);
            }
            return r;
        }
    }
    let ghost prev = *out;
    let r = write_u64(out, abs / 1000);
    proof {
        lemma_wrote_step(o, prev, *out, full, s, seq![decimal((abs / 1000) as nat)], r is Ok);
    }
    if r.is_err() {
        proof {
            lemma_wrote_fits(o, *out, full, false);
        }
        return r;
    }
    let ghost prev = *out;
    let r = out.write_byte(46u8);
    proof {
        lemma_wrote_step(o, prev, *out, full, s + 1, seq![seq![46u8]], r is Ok);
    }
    if r.is_err() {
        proof {
            lemma_wrote_fits(o, *out, full, false);
        }
        return r;
    }
    let ghost prev = *out;
    let r = write_u64(out, (abs % 1000) / 100);
    proof {
        lemma_wrote_step(o, prev, *out, full, s + 2, seq![decimal(((abs % 1000) / 100) as nat)], r is Ok);
        lemma_wrote_fits(o, *out, full, r is Ok);
    }
    r
}

} // verus!
