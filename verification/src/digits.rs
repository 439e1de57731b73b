use vstd::prelude::*;
use vstd::arithmetic::div_mod::{lemma_div_decreases, lemma_div_non_zero, lemma_fundamental_div_mod, lemma_small_mod};
use crate::text::{StackText, WriteError, lemma_one_piece, lemma_wrote_fits, lemma_wrote_step, wrote};

verus! {

/// The ASCII byte of one digit: `0` to `9`, then lower-case `a` to `f`.
pub open spec fn digit_byte(d: nat) -> u8 {
    if d < 10 {
        (48 + d) as u8
    } else {
        (87 + d) as u8
    }
}

/// True when `b` is the byte of a digit smaller than `base`.
pub open spec fn is_digit_in(b: u8, base: nat) -> bool {
    ||| 48 <= b <= 57 && b - 48 < base
    ||| 97 <= b <= 102 && b - 87 < base
}

/// The value of a digit byte.
pub open spec fn digit_value(b: u8) -> nat {
    if b <= 57 {
        (b - 48) as nat
    } else {
        (b - 87) as nat
    }
}

/// `n` written in `base` (2 to 16), most significant digit first, with no leading zeros.
pub open spec fn digits_in(n: nat, base: nat) -> Seq<u8>
    decreases n,
{
    if base < 2 || n < base {
        seq![digit_byte(n)]
    } else {
        proof {
            lemma_div_decreases(n as int, base as int);
        }
        digits_in(n / base, base).push(digit_byte(n % base))
    }
}

/// `n` in decimal, as `{}` prints an unsigned integer.
pub open spec fn decimal(n: nat) -> Seq<u8> {
    digits_in(n, 10)
}

/// The pieces that `{:08x}` writes for `n`: one `0` for each digit short of eight, one
/// piece at a time, then the hexadecimal digits of `n` in lower case.
pub open spec fn hex08_pieces(n: nat) -> Seq<Seq<u8>> {
    let h = digits_in(n, 16);
    let z: nat = if h.len() < 8 {
        (8 - h.len()) as nat
    } else {
        0
    };
    Seq::new(z, |i: int| seq![48u8]).push(h)
}

/// `n` in lower-case hexadecimal padded with zeros to at least eight digits, as `{:08x}`
/// prints it.
pub open spec fn hex08(n: nat) -> Seq<u8> {
    hex08_pieces(n).flatten()
}

/// The number that the digits `s` denote in `base`.
pub open spec fn parse_digits(s: Seq<u8>, base: nat) -> nat
    decreases s.len(),
{
    if s.len() == 0 {
        0
    } else {
        parse_digits(s.drop_last(), base) * base + digit_value(s.last())
    }
}

/// `s` is a non-empty run of digits of `base` that reads as the number `v`.
pub open spec fn reads_as(s: Seq<u8>, base: nat, v: nat) -> bool {
    &&& s.len() > 0
    &&& forall|i: int| 0 <= i < s.len() ==> is_digit_in(#[trigger] s[i], base)
    &&& parse_digits(s, base) == v
}

/// The decimal text of `n` is a run of decimal digits that reads as `n`, with no leading
/// zero but for zero itself.
pub proof fn lemma_decimal_reads_as(n: nat)
    ensures
        reads_as(decimal(n), 10, n),
        decimal(n)[0] == 48u8 ==> n == 0 && decimal(n) == seq![48u8],
{
    lemma_digits_roundtrip(n, 10);
    lemma_digits_no_leading_zero(n, 10);
}

/// Reading back the digits of `n` gives `n`; every byte is a digit of the base, and
/// there is no leading zero.
pub proof fn lemma_digits_roundtrip(n: nat, base: nat)
    requires
        2 <= base <= 16,
    ensures
        parse_digits(digits_in(n, base), base) == n,
        digits_in(n, base).len() >= 1,
        forall|i: int| 0 <= i < digits_in(n, base).len() ==> is_digit_in(#[trigger] digits_in(n, base)[i], base),
        digits_in(n, base).len() > 1 ==> digits_in(n, base)[0] != 48u8,
    decreases n,
{
    let s = digits_in(n, base);
    assert(parse_digits(Seq::<u8>::empty(), base) == 0);
    if n < base {
        assert(s.drop_last() =~= Seq::<u8>::empty());
        assert(s.last() == digit_byte(n));
    } else {
        lemma_div_decreases(n as int, base as int);
        lemma_digits_roundtrip(n / base, base);
        if n / base >= base {
            lemma_digits_roundtrip(n / base / base, base);
        }
        let p = digits_in(n / base, base);
        assert(s.drop_last() =~= p);
        lemma_fundamental_div_mod(n as int, base as int);
        assert(parse_digits(s, base) == (n / base) * base + n % base) by (nonlinear_arith)
            requires
                parse_digits(s, base) == parse_digits(p, base) * base + digit_value(s.last()),
                parse_digits(p, base) == n / base,
                digit_value(s.last()) == n % base,
        ;
        assert((n / base) * base == base * (n / base)) by (nonlinear_arith);
        assert forall|i: int| 0 <= i < s.len() implies is_digit_in(#[trigger] s[i], base) by {
            if i < p.len() {
                assert(s[i] == p[i]);
            }
        }
        assert(s[0] == p[0]);
        if n / base < base {
            assert(p[0] == digit_byte(n / base));
            lemma_div_non_zero(n as int, base as int);
        } else {
            assert(p.len() >= 2);
        }
    }
}

/// Leading zeros do not change the number that digits denote.
pub proof fn lemma_parse_leading_zeros(z: nat, s: Seq<u8>, base: nat)
    ensures
        parse_digits(Seq::new(z, |i: int| 48u8) + s, base) == parse_digits(s, base),
    decreases s.len(), z,
{
    let zs = Seq::new(z, |i: int| 48u8);
    assert(parse_digits(Seq::<u8>::empty(), base) == 0);
    if s.len() == 0 {
        assert(zs + s =~= zs);
        if z > 0 {
            let zs1 = Seq::new((z - 1) as nat, |i: int| 48u8);
            assert(zs.drop_last() =~= zs1);
            lemma_parse_leading_zeros((z - 1) as nat, s, base);
            assert(zs1 + s =~= zs1);
            assert(parse_digits(zs1, base) == 0);
            assert(zs.last() == 48u8);
            assert(digit_value(zs.last()) == 0);
            assert(parse_digits(zs, base) == parse_digits(zs1, base) * base + 0);
            assert(0 * base == 0);
        }
    } else {
        assert((zs + s).drop_last() =~= zs + s.drop_last());
        assert((zs + s).last() == s.last());
        lemma_parse_leading_zeros(z, s.drop_last(), base);
    }
}

/// A run of one-zero pieces flattens to a run of zeros.
proof fn lemma_zero_pieces(z: nat)
    ensures
        Seq::new(z, |i: int| seq![48u8]).flatten() == Seq::new(z, |i: int| 48u8),
    decreases z,
{
    if z == 0 {
        assert(Seq::new(z, |i: int| seq![48u8]) =~= Seq::<Seq<u8>>::empty());
        assert(Seq::new(z, |i: int| 48u8) =~= Seq::<u8>::empty());
    } else {
        let zs = Seq::new((z - 1) as nat, |i: int| seq![48u8]);
        lemma_zero_pieces((z - 1) as nat);
        zs.lemma_flatten_push(seq![48u8]);
        assert(Seq::new(z, |i: int| seq![48u8]) =~= zs.push(seq![48u8]));
        assert(Seq::new((z - 1) as nat, |i: int| 48u8) + seq![48u8] =~= Seq::new(z, |i: int| 48u8));
    }
}

/// The digits of `n` have no leading zero: they start with `0` only for zero itself, which
/// is the single digit `0`.
pub proof fn lemma_digits_no_leading_zero(n: nat, base: nat)
    requires
        2 <= base <= 16,
    ensures
        digits_in(n, base).len() >= 1,
        digits_in(n, base)[0] == 48u8 ==> n == 0 && digits_in(n, base) == seq![48u8],
    decreases n,
{
    if n >= base {
        lemma_div_decreases(n as int, base as int);
        assert(n / base >= 1) by (nonlinear_arith)
            requires
                n >= base,
                base >= 2,
        ;
        lemma_digits_no_leading_zero(n / base, base);
        assert(digits_in(n, base)[0] == digits_in(n / base, base)[0]);
    }
}

/// `{:08x}` gives exactly eight digits for a number that fits in them, and for a larger one
/// its digits with no leading zero.
pub proof fn lemma_hex08_width(n: nat)
    ensures
        hex08(n).len() == 8 || hex08(n)[0] != 48u8,
        n < 0x1_0000_0000 ==> hex08(n).len() == 8,
{
    lemma_hex08_roundtrip(n);
    lemma_digits_no_leading_zero(n, 16);
    let h = digits_in(n, 16);
    let z: nat = if h.len() < 8 {
        (8 - h.len()) as nat
    } else {
        0
    };
    let zs = Seq::new(z, |i: int| seq![48u8]);
    zs.lemma_flatten_push(h);
    lemma_zero_pieces(z);
    assert(hex08(n) == Seq::new(z, |i: int| 48u8) + h);
    if h.len() >= 8 {
        assert(hex08(n)[0] == h[0]);
        if n < 0x1_0000_0000 {
            assert(vstd::arithmetic::power::pow(16, 8) == 0x1_0000_0000) by {
                reveal_with_fuel(vstd::arithmetic::power::pow, 9);
            }
            lemma_digits_len_below(n, 16, 8);
        }
    }
}

/// A number below `base^k` has at most `k` digits in `base`.
proof fn lemma_digits_len_below(n: nat, base: nat, k: nat)
    requires
        2 <= base <= 16,
        1 <= k,
        n < vstd::arithmetic::power::pow(base as int, k),
    ensures
        digits_in(n, base).len() <= k,
    decreases k,
{
    reveal(vstd::arithmetic::power::pow);
    if n >= base {
        let p = vstd::arithmetic::power::pow(base as int, (k - 1) as nat);
        assert(n / base < p) by (nonlinear_arith)
            requires
                n < base * p,
                base >= 2,
        ;
        assert(n / base >= 1) by (nonlinear_arith)
            requires
                n >= base,
                base >= 2,
        ;
        assert(k >= 2);
        lemma_div_decreases(n as int, base as int);
        lemma_digits_len_below(n / base, base, (k - 1) as nat);
    }
}

/// The eight-digit hexadecimal text of `n` is a run of hexadecimal digits that reads
/// as `n`, at least eight long.
pub proof fn lemma_hex08_roundtrip(n: nat)
    ensures
        reads_as(hex08(n), 16, n),
        hex08(n).len() >= 8,
{
    lemma_digits_roundtrip(n, 16);
    let h = digits_in(n, 16);
    let z: nat = if h.len() < 8 {
        (8 - h.len()) as nat
    } else {
        0
    };
    let zs = Seq::new(z, |i: int| seq![48u8]);
    zs.lemma_flatten_push(h);
    lemma_zero_pieces(z);
    assert(hex08(n) == Seq::new(z, |i: int| 48u8) + h);
    lemma_parse_leading_zeros(z, h, 16);
    assert forall|i: int| 0 <= i < hex08(n).len() implies is_digit_in(#[trigger] hex08(n)[i], 16) by {
        if i >= z {
            assert(hex08(n)[i] == h[i - z]);
        }
    }
}

fn digit_byte_exec(d: u64) -> (r: u8)
    requires
        d < 16,
    ensures
        r == digit_byte(d as nat),
{
    if d < 10 {
        48 + d as u8
    } else {
        87 + d as u8
    }
}

/// The number of digits of `v` in `base`.
fn digit_count(v: u64, base: u64) -> (r: u64)
    requires
        2 <= base <= 16,
    ensures
        r == digits_in(v as nat, base as nat).len(),
        1 <= r,
        v >= 1 ==> r <= v,
    decreases v,
{
    if v < base {
        1
    } else {
        proof {
            lemma_div_decreases(v as int, base as int);
            lemma_fundamental_div_mod(v as int, base as int);
            assert(base * (v / base) >= 2 * (v / base)) by (nonlinear_arith)
                requires
                    base >= 2,
            ;
        }
        let c = digit_count(v / base, base);
        c + 1
    }
}

/// Appends the digits of `v`; the caller has checked that they fit.
fn push_digits<const N: usize>(out: &mut StackText<N>, v: u64, base: u64)
    requires
        2 <= base <= 16,
        old(out)@.len() + digits_in(v as nat, base as nat).len() <= N,
        old(out).spare().len() == N - old(out)@.len(),
    ensures
        final(out)@ == old(out)@ + digits_in(v as nat, base as nat),
        final(out).spare() == old(out).spare().skip(digits_in(v as nat, base as nat).len() as int),
        final(out).spare().len() == N - final(out)@.len(),
    decreases v,
{
    let ghost ds = digits_in(v as nat, base as nat);
    if v >= base {
        proof {
            lemma_div_decreases(v as int, base as int);
        }
        push_digits(out, v / base, base);
    }
    out.push_byte(digit_byte_exec(v % base));
    if v < base {
        proof {
            lemma_small_mod(v as nat, base as nat);
        }
        assert(ds =~= seq![digit_byte(v as nat)]);
    } else {
        assert(ds =~= digits_in((v / base) as nat, base as nat).push(digit_byte((v % base) as nat)));
    }
    assert(out@ =~= old(out)@ + ds);
    assert(out.spare() =~= old(out).spare().skip(ds.len() as int));
}

/// Appends the digits of `v` in `base` as one piece when they fit; otherwise leaves
/// `out` unchanged and fails.
fn write_digits<const N: usize>(out: &mut StackText<N>, v: u64, base: u64) -> (r: Result<(), WriteError>)
    requires
        2 <= base <= 16,
    ensures
        wrote(*old(out), *final(out), seq![digits_in(v as nat, base as nat)], r is Ok),
        r is Err ==> *final(out) == *old(out),
{
    let ghost ds = digits_in(v as nat, base as nat);
    let count = digit_count(v, base);
    let room = N - out.len();
    proof {
        lemma_one_piece(N - old(out)@.len(), ds);
    }
    if count > room as u64 {
        assert(old(out).spare().skip(0) =~= old(out).spare());
        assert(old(out)@ + Seq::<u8>::empty() =~= old(out)@);
        return Err(WriteError);
    }
    push_digits(out, v, base);
    Ok(())
}

/// Appends `v` in decimal, as one piece, when it fits; otherwise leaves `out` unchanged
/// and fails.
pub fn write_u64<const N: usize>(out: &mut StackText<N>, v: u64) -> (r: Result<(), WriteError>)
    ensures
        wrote(*old(out), *final(out), seq![decimal(v as nat)], r is Ok),
        r is Ok <==> old(out)@.len() + decimal(v as nat).len() <= N,
        final(out)@.len() <= N,
        r is Err ==> *final(out) == *old(out),
{
    let r = write_digits(out, v, 10);
    proof {
        lemma_wrote_fits(*old(out), *out, seq![decimal(v as nat)], r is Ok);
        lemma_one_piece(0, decimal(v as nat));
        assert(seq![decimal(v as nat)] =~= seq![decimal(v as nat)].take(1));
    }
    r
}

/// Appends `v` as `{:08x}` does: first one `0` at a time for each digit short of eight,
/// then the digits as one piece, each whole or not at all, stopping at the first piece
/// that does not fit.
pub fn write_hex08<const N: usize>(out: &mut StackText<N>, v: u64) -> (r: Result<(), WriteError>)
    ensures
        wrote(*old(out), *final(out), hex08_pieces(v as nat), r is Ok),
        r is Ok <==> old(out)@.len() + hex08(v as nat).len() <= N,
        final(out)@.len() <= N,
{
    let ghost o = *out;
    let ghost full = hex08_pieces(v as nat);
    let count = digit_count(v, 16);
    let zeros: u64 = if count < 8 {
        8 - count
    } else {
        0
    };
    let mut k: u64 = 0;
    while k < zeros
        invariant
            o == *old(out),
            full == hex08_pieces(v as nat),
            zeros + 1 == full.len(),
            k <= zeros,
            forall|i: int| 0 <= i < zeros ==> #[trigger] full[i] == seq![48u8],
            k == 0 ==> *out == o,
            k > 0 ==> wrote(o, *out, full.take(k as int), true),
        decreases zeros - k,
    {
        let ghost before = *out;
        let r = out.write_byte(48u8);
        proof {
            assert(full[k as int] == seq![48u8]);
            lemma_wrote_step(o, before, *out, full, k as int, seq![seq![48u8]], r is Ok);
        }
        if r.is_err() {
            proof {
                lemma_wrote_fits(o, *out, full, false);
            }
            return r;
        }
        k = k + 1;
    }
    let ghost before = *out;
    let r = write_digits(out, v, 16);
    proof {
        lemma_wrote_step(o, before, *out, full, zeros as int, seq![digits_in(v as nat, 16)], r is Ok);
        lemma_wrote_fits(o, *out, full, r is Ok);
    }
    r
}

} // verus!
