//! Rendering of numbers the way Go's `strconv` writes them with the `%x`
//! verb: `NaN`, signed infinities, `0` for zeroes, and otherwise a hex
//! mantissa with the trailing zero nibbles elided and a signed power-of-two
//! exponent. Prometheus clients that parse with Go's hex-float mode read the
//! exact bit pattern back. Floating-point values are handled as their IEEE
//! bit patterns, so everything here is integer arithmetic.

use vstd::prelude::*;

verus! {

/// The character for one hex digit.
pub open spec fn hex_digit(d: int) -> char {
    if d == 0 {
        '0'
    } else if d == 1 {
        '1'
    } else if d == 2 {
        '2'
    } else if d == 3 {
        '3'
    } else if d == 4 {
        '4'
    } else if d == 5 {
        '5'
    } else if d == 6 {
        '6'
    } else if d == 7 {
        '7'
    } else if d == 8 {
        '8'
    } else if d == 9 {
        '9'
    } else if d == 10 {
        'a'
    } else if d == 11 {
        'b'
    } else if d == 12 {
        'c'
    } else if d == 13 {
        'd'
    } else if d == 14 {
        'e'
    } else {
        'f'
    }
}

/// The decimal digits of a non-negative number, most significant first.
pub open spec fn dec_seq(n: int) -> Seq<char>
    decreases n,
{
    if n < 10 {
        seq![hex_digit(n)]
    } else {
        dec_seq(n / 10) + seq![hex_digit(n % 10)]
    }
}

/// A signed decimal: a minus sign for negative numbers, no sign otherwise.
pub open spec fn signed_dec_seq(e: int) -> Seq<char> {
    if e < 0 {
        seq!['-'] + dec_seq(-e)
    } else {
        dec_seq(e)
    }
}

/// Sixteen to the `k`.
pub open spec fn pow16(k: nat) -> nat
    decreases k,
{
    if k == 0 {
        1
    } else {
        16 * pow16((k - 1) as nat)
    }
}

/// The hex digits of a fraction of `k` nibbles, most significant first,
/// with trailing zero nibbles elided.
pub open spec fn frac_seq(f: nat, k: nat) -> Seq<char>
    decreases k,
{
    if k == 0 || f == 0 {
        Seq::<char>::empty()
    } else {
        seq![hex_digit(f as int / pow16((k - 1) as nat) as int)] + frac_seq(
            f % pow16((k - 1) as nat),
            (k - 1) as nat,
        )
    }
}

/// The rendering of an IEEE double given by its bits: `NaN`, `+Inf`, `-Inf`,
/// `0` for both zeroes, else `<sign>0x<leading>.<frac>p<exponent>` where the
/// leading digit is `0` only for subnormals and the exponent carries the
/// normal bias even then.
pub open spec fn go_f64_seq(bits: u64) -> Seq<char> {
    let sign = bits / 0x8000000000000000;
    let exp = (bits / 0x10000000000000) % 0x800;
    let frac = bits % 0x10000000000000;
    if exp == 0x7ff {
        if frac != 0 {
            seq!['N', 'a', 'N']
        } else if sign == 0 {
            seq!['+', 'I', 'n', 'f']
        } else {
            seq!['-', 'I', 'n', 'f']
        }
    } else if exp == 0 && frac == 0 {
        seq!['0']
    } else {
        seq![if sign == 0 { '+' } else { '-' }, '0', 'x', if exp == 0 { '0' } else { '1' }, '.']
            + frac_seq(frac as nat, 13) + seq!['p'] + signed_dec_seq(exp - 1023)
    }
}

/// The rendering of an IEEE single given by its bits; the 23 mantissa bits
/// are left-aligned into six nibbles.
pub open spec fn go_f32_seq(bits: u32) -> Seq<char> {
    let sign = bits / 0x80000000;
    let exp = (bits / 0x800000) % 0x100;
    let frac = bits % 0x800000;
    if exp == 0xff {
        if frac != 0 {
            seq!['N', 'a', 'N']
        } else if sign == 0 {
            seq!['+', 'I', 'n', 'f']
        } else {
            seq!['-', 'I', 'n', 'f']
        }
    } else if exp == 0 && frac == 0 {
        seq!['0']
    } else {
        seq![if sign == 0 { '+' } else { '-' }, '0', 'x', if exp == 0 { '0' } else { '1' }, '.']
            + frac_seq((frac * 2) as nat, 6) + seq!['p'] + signed_dec_seq(exp - 127)
    }
}

/// The character for one hex digit.
pub(crate) fn hex_char(d: u64) -> (c: char)
    requires
        d < 16,
    ensures
        c == hex_digit(d as int),
{
    if d == 0 {
        '0'
    } else if d == 1 {
        '1'
    } else if d == 2 {
        '2'
    } else if d == 3 {
        '3'
    } else if d == 4 {
        '4'
    } else if d == 5 {
        '5'
    } else if d == 6 {
        '6'
    } else if d == 7 {
        '7'
    } else if d == 8 {
        '8'
    } else if d == 9 {
        '9'
    } else if d == 10 {
        'a'
    } else if d == 11 {
        'b'
    } else if d == 12 {
        'c'
    } else if d == 13 {
        'd'
    } else if d == 14 {
        'e'
    } else {
        'f'
    }
}

/// Appends the decimal digits of `n`.
pub(crate) fn push_dec(out: &mut Vec<char>, n: u64)
    ensures
        final(out)@ == old(out)@ + dec_seq(n as int),
    decreases n,
{
    if n < 10 {
        out.push(hex_char(n));
    } else {
        assert(n / 10 < n) by (nonlinear_arith)
            requires
                n >= 10,
        ;
        push_dec(out, n / 10);
        let d = n % 10;
        out.push(hex_char(d));
        proof {
            assert(old(out)@ + dec_seq(n as int / 10) + seq![hex_digit(n as int % 10)] =~= old(
                out,
            )@ + (dec_seq(n as int / 10) + seq![hex_digit(n as int % 10)]));
        }
    }
}

/// Sixteen to the `k`, for exponents small enough to fit.
pub(crate) fn pow16_exec(k: usize) -> (r: u64)
    requires
        k <= 14,
    ensures
        r == pow16(k as nat),
{
    proof {
        reveal_with_fuel(pow16, 15);
    }
    let mut acc: u64 = 1;
    let mut i: usize = 0;
    while i < k
        invariant
            i <= k <= 14,
            acc == pow16(i as nat),
        decreases k - i,
    {
        proof {
            lemma_pow16_bound(i as nat);
        }
        acc = acc * 16;
        i += 1;
    }
    acc
}

/// `pow16` grows but stays within a `u64` up to the widths used here.
proof fn lemma_pow16_bound(k: nat)
    requires
        k <= 13,
    ensures
        0 < pow16(k) <= 0x10000000000000,
    decreases k,
{
    if k == 0 {
    } else {
        lemma_pow16_bound((k - 1) as nat);
        reveal_with_fuel(pow16, 15);
        assert(pow16(k) == 16 * pow16((k - 1) as nat));
        lemma_pow16_mono((k - 1) as nat, 13);
    }
}

/// `pow16` is monotone in the exponent.
proof fn lemma_pow16_mono(a: nat, b: nat)
    requires
        a <= b,
    ensures
        pow16(a) <= pow16(b),
        pow16(a) > 0,
    decreases b,
{
    if a == b {
        lemma_pow16_pos(a);
    } else {
        lemma_pow16_mono(a, (b - 1) as nat);
        lemma_pow16_pos((b - 1) as nat);
        assert(pow16(b) == 16 * pow16((b - 1) as nat));
    }
}

/// `pow16` is positive.
proof fn lemma_pow16_pos(k: nat)
    ensures
        pow16(k) > 0,
    decreases k,
{
    if k > 0 {
        lemma_pow16_pos((k - 1) as nat);
    }
}

/// Appends the fraction digits of `f`, a value of `k` nibbles, eliding
/// trailing zero nibbles.
pub(crate) fn push_frac(out: &mut Vec<char>, f: u64, k: usize)
    requires
        k <= 13,
        f < pow16(k as nat),
    ensures
        final(out)@ == old(out)@ + frac_seq(f as nat, k as nat),
    decreases k,
{
    if f == 0 || k == 0 {
        proof {
            assert(old(out)@ + frac_seq(f as nat, k as nat) =~= old(out)@);
        }
        return ;
    }
    let p = pow16_exec(k - 1);
    proof {
        lemma_pow16_pos((k - 1) as nat);
        assert(pow16(k as nat) == 16 * pow16((k - 1) as nat));
    }
    let d = f / p;
    assert(d < 16) by (nonlinear_arith)
        requires
            f < 16 * p,
            p > 0,
            d == f / p,
    ;
    out.push(hex_char(d));
    let rest = f % p;
    assert(rest < p) by (nonlinear_arith)
        requires
            p > 0,
            rest == f % p,
    ;
    push_frac(out, rest, k - 1);
    proof {
        assert(old(out)@ + seq![hex_digit(d as int)] + frac_seq(rest as nat, (k - 1) as nat)
            =~= old(out)@ + frac_seq(f as nat, k as nat));
    }
}

/// Appends a signed decimal exponent.
pub(crate) fn push_signed_dec(out: &mut Vec<char>, e: i32)
    requires
        -0x10000 <= e < 0x10000,
    ensures
        final(out)@ == old(out)@ + signed_dec_seq(e as int),
{
    if e < 0 {
        out.push('-');
        push_dec(out, (-e) as u64);
        proof {
            assert(old(out)@ + seq!['-'] + dec_seq(-(e as int)) =~= old(out)@ + (seq!['-']
                + dec_seq(-(e as int))));
        }
    } else {
        push_dec(out, e as u64);
    }
}

/// Appends the Go hex rendering of the double with the given bits.
pub(crate) fn push_go_f64(out: &mut Vec<char>, bits: u64)
    ensures
        final(out)@ == old(out)@ + go_f64_seq(bits),
{
    let sign: u64 = bits / 0x8000000000000000;
    let exp: u64 = (bits / 0x10000000000000) % 0x800;
    let frac: u64 = bits % 0x10000000000000;
    if exp == 0x7ff {
        if frac != 0 {
            out.push('N');
            out.push('a');
            out.push('N');
            proof {
                assert(final(out)@ =~= old(out)@ + go_f64_seq(bits));
            }
        } else {
            out.push(if sign == 0 { '+' } else { '-' });
            out.push('I');
            out.push('n');
            out.push('f');
            proof {
                assert(final(out)@ =~= old(out)@ + go_f64_seq(bits));
            }
        }
    } else if exp == 0 && frac == 0 {
        out.push('0');
        proof {
            assert(final(out)@ =~= old(out)@ + go_f64_seq(bits));
        }
    } else {
        out.push(if sign == 0 { '+' } else { '-' });
        out.push('0');
        out.push('x');
        out.push(if exp == 0 { '0' } else { '1' });
        out.push('.');
        proof {
            reveal_with_fuel(pow16, 15);
        }
        push_frac(out, frac, 13);
        out.push('p');
        push_signed_dec(out, (exp as i32) - 1023);
        proof {
            assert(final(out)@ =~= old(out)@ + go_f64_seq(bits));
        }
    }
}

/// Appends the Go hex rendering of the single with the given bits.
pub(crate) fn push_go_f32(out: &mut Vec<char>, bits: u32)
    ensures
        final(out)@ == old(out)@ + go_f32_seq(bits),
{
    let sign: u32 = bits / 0x80000000;
    let exp: u32 = (bits / 0x800000) % 0x100;
    let frac: u32 = bits % 0x800000;
    if exp == 0xff {
        if frac != 0 {
            out.push('N');
            out.push('a');
            out.push('N');
            proof {
                assert(final(out)@ =~= old(out)@ + go_f32_seq(bits));
            }
        } else {
            out.push(if sign == 0 { '+' } else { '-' });
            out.push('I');
            out.push('n');
            out.push('f');
            proof {
                assert(final(out)@ =~= old(out)@ + go_f32_seq(bits));
            }
        }
    } else if exp == 0 && frac == 0 {
        out.push('0');
        proof {
            assert(final(out)@ =~= old(out)@ + go_f32_seq(bits));
        }
    } else {
        out.push(if sign == 0 { '+' } else { '-' });
        out.push('0');
        out.push('x');
        out.push(if exp == 0 { '0' } else { '1' });
        out.push('.');
        proof {
            reveal_with_fuel(pow16, 15);
        }
        push_frac(out, (frac as u64) * 2, 6);
        out.push('p');
        push_signed_dec(out, (exp as i32) - 127);
        proof {
            assert(final(out)@ =~= old(out)@ + go_f32_seq(bits));
        }
    }
}

/// The Go hex rendering of the double with the given bits.
pub fn f64_bits_to_go_string(bits: u64) -> (r: String)
    ensures
        r@ == go_f64_seq(bits),
{
    let mut out: Vec<char> = Vec::new();
    push_go_f64(&mut out, bits);
    crate::strings::chars_to_string(&out)
}

/// The Go hex rendering of the single with the given bits.
pub fn f32_bits_to_go_string(bits: u32) -> (r: String)
    ensures
        r@ == go_f32_seq(bits),
{
    let mut out: Vec<char> = Vec::new();
    push_go_f32(&mut out, bits);
    crate::strings::chars_to_string(&out)
}

/// Whether a character is a decimal digit.
pub open spec fn is_dec_char(c: char) -> bool {
    '0' <= c && c <= '9'
}

/// The value of a decimal digit.
pub open spec fn dec_val(c: char) -> int {
    c as u32 - 48
}

/// Whether a character is a lowercase hex digit.
pub open spec fn is_hex_char(c: char) -> bool {
    ('0' <= c && c <= '9') || ('a' <= c && c <= 'f')
}

/// The value of a lowercase hex digit.
pub open spec fn hex_val(c: char) -> int {
    if '0' <= c && c <= '9' {
        c as u32 - 48
    } else {
        c as u32 - 87
    }
}

/// Every character is a decimal digit.
pub open spec fn all_dec(s: Seq<char>) -> bool {
    forall|i: int| 0 <= i < s.len() ==> is_dec_char(#[trigger] s[i])
}

/// Every character is a hex digit.
pub open spec fn all_hex(s: Seq<char>) -> bool {
    forall|i: int| 0 <= i < s.len() ==> is_hex_char(#[trigger] s[i])
}

/// The number read from decimal digits, most significant first.
pub open spec fn dec_fold(s: Seq<char>) -> int
    decreases s.len(),
{
    if s.len() == 0 {
        0
    } else {
        dec_fold(s.drop_last()) * 10 + dec_val(s.last())
    }
}

/// The number read from hex digits, most significant first.
pub open spec fn hex_fold(s: Seq<char>) -> int
    decreases s.len(),
{
    if s.len() == 0 {
        0
    } else {
        hex_val(s[0]) * pow16((s.len() - 1) as nat) + hex_fold(s.skip(1))
    }
}

/// The number read from an unsigned decimal; nothing unless the text is one
/// or more digits.
pub open spec fn parse_dec(s: Seq<char>) -> Option<int> {
    if s.len() >= 1 && all_dec(s) {
        Option::Some(dec_fold(s))
    } else {
        Option::None
    }
}

/// The number read from an optionally minus-signed decimal.
pub open spec fn parse_signed_dec(s: Seq<char>) -> Option<int> {
    if s.len() >= 1 && s[0] == '-' {
        match parse_dec(s.skip(1)) {
            Option::Some(v) => Option::Some(-v),
            Option::None => Option::None,
        }
    } else {
        parse_dec(s)
    }
}

/// The first position of `c`, or a negative number when it does not occur.
pub open spec fn find_char(s: Seq<char>, c: char) -> int
    decreases s.len(),
{
    if s.len() == 0 {
        -1
    } else if s[0] == c {
        0
    } else {
        let r = find_char(s.skip(1), c);
        if r < 0 {
            -1
        } else {
            r + 1
        }
    }
}

/// The bits read back from a Go hex rendering of a double. `NaN` reads as
/// the canonical quiet NaN and `0` as positive zero; otherwise the sign, the
/// leading digit, the fraction nibbles and the exponent rebuild the bit
/// pattern exactly.
pub open spec fn parse_go_f64(s: Seq<char>) -> Option<u64> {
    if s == seq!['N', 'a', 'N'] {
        Option::Some(0x7ff8000000000000u64)
    } else if s == seq!['+', 'I', 'n', 'f'] {
        Option::Some(0x7ff0000000000000u64)
    } else if s == seq!['-', 'I', 'n', 'f'] {
        Option::Some(0xfff0000000000000u64)
    } else if s == seq!['0'] {
        Option::Some(0u64)
    } else if s.len() >= 6 && (s[0] == '+' || s[0] == '-') && s[1] == '0' && s[2] == 'x' && (s[3]
        == '0' || s[3] == '1') && s[4] == '.' {
        let body = s.skip(5);
        let pi = find_char(body, 'p');
        if pi < 0 {
            Option::None
        } else {
            let frac_digits = body.take(pi);
            let exp_text = body.skip(pi + 1);
            if !all_hex(frac_digits) || frac_digits.len() > 13 {
                Option::None
            } else {
                match parse_signed_dec(exp_text) {
                    Option::Some(e) => {
                        let sign: int = if s[0] == '-' {
                            1
                        } else {
                            0
                        };
                        let raw: int = if s[3] == '0' {
                            0
                        } else {
                            e + 1023
                        };
                        let f = hex_fold(frac_digits) * pow16((13 - frac_digits.len()) as nat);
                        if (s[3] == '0' && e != -1023) || !(0 <= raw < 0x7ff) || !(0 <= f
                            < 0x10000000000000) {
                            Option::None
                        } else {
                            Option::Some(
                                (sign * 0x8000000000000000 + raw * 0x10000000000000 + f) as u64,
                            )
                        }
                    },
                    Option::None => Option::None,
                }
            }
        }
    } else {
        Option::None
    }
}

/// The bits read back from a Go hex rendering of a single: as for doubles,
/// but with six fraction nibbles holding twice the 23-bit mantissa.
pub open spec fn parse_go_f32(s: Seq<char>) -> Option<u32> {
    if s == seq!['N', 'a', 'N'] {
        Option::Some(0x7fc00000u32)
    } else if s == seq!['+', 'I', 'n', 'f'] {
        Option::Some(0x7f800000u32)
    } else if s == seq!['-', 'I', 'n', 'f'] {
        Option::Some(0xff800000u32)
    } else if s == seq!['0'] {
        Option::Some(0u32)
    } else if s.len() >= 6 && (s[0] == '+' || s[0] == '-') && s[1] == '0' && s[2] == 'x' && (s[3]
        == '0' || s[3] == '1') && s[4] == '.' {
        let body = s.skip(5);
        let pi = find_char(body, 'p');
        if pi < 0 {
            Option::None
        } else {
            let frac_digits = body.take(pi);
            let exp_text = body.skip(pi + 1);
            if !all_hex(frac_digits) || frac_digits.len() > 6 {
                Option::None
            } else {
                match parse_signed_dec(exp_text) {
                    Option::Some(e) => {
                        let sign: int = if s[0] == '-' {
                            1
                        } else {
                            0
                        };
                        let raw: int = if s[3] == '0' {
                            0
                        } else {
                            e + 127
                        };
                        let doubled = hex_fold(frac_digits) * pow16((6 - frac_digits.len()) as nat);
                        if (s[3] == '0' && e != -127) || !(0 <= raw < 0xff) || !(0 <= doubled
                            < 0x1000000) || doubled % 2 != 0 {
                            Option::None
                        } else {
                            Option::Some((sign * 0x80000000 + raw * 0x800000 + doubled / 2) as u32)
                        }
                    },
                    Option::None => Option::None,
                }
            }
        }
    } else {
        Option::None
    }
}

/// Powers of sixteen multiply by adding exponents.
proof fn lemma_pow16_add(a: nat, b: nat)
    ensures
        pow16(a + b) == pow16(a) * pow16(b),
    decreases a,
{
    if a == 0 {
        assert(pow16(b) == 1 * pow16(b)) by (nonlinear_arith);
    } else {
        lemma_pow16_add((a - 1) as nat, b);
        assert(pow16(a + b) == 16 * pow16((a - 1) as nat + b));
        assert(16 * (pow16((a - 1) as nat) * pow16(b)) == (16 * pow16((a - 1) as nat)) * pow16(b))
            by (nonlinear_arith);
    }
}

/// A hex digit's character reads back as its value, is never `p`, never a
/// minus sign, and below ten is a decimal digit of the same value.
proof fn lemma_hex_digit_props(d: int)
    requires
        0 <= d < 16,
    ensures
        is_hex_char(hex_digit(d)),
        hex_val(hex_digit(d)) == d,
        hex_digit(d) != 'p',
        hex_digit(d) != '-',
        d < 10 ==> is_dec_char(hex_digit(d)) && dec_val(hex_digit(d)) == d,
{
}

/// A decimal rendering reads back as the number it renders.
proof fn lemma_dec_seq_round(n: int)
    requires
        n >= 0,
    ensures
        dec_seq(n).len() >= 1,
        all_dec(dec_seq(n)),
        dec_fold(dec_seq(n)) == n,
    decreases n,
{
    if n < 10 {
        lemma_hex_digit_props(n);
        let s = dec_seq(n);
        assert(s =~= seq![hex_digit(n)]);
        assert(s.drop_last() =~= Seq::<char>::empty());
        assert(dec_fold(s) == dec_fold(Seq::<char>::empty()) * 10 + dec_val(hex_digit(n)));
    } else {
        lemma_dec_seq_round(n / 10);
        lemma_hex_digit_props(n % 10);
        let a = dec_seq(n / 10);
        let s = dec_seq(n);
        assert(s == a + seq![hex_digit(n % 10)]);
        assert(s.drop_last() =~= a);
        assert(s.last() == hex_digit(n % 10));
        assert(all_dec(s)) by {
            assert forall|i: int| 0 <= i < s.len() implies is_dec_char(#[trigger] s[i]) by {
                if i < a.len() {
                    assert(s[i] == a[i]);
                } else {
                    assert(s[i] == hex_digit(n % 10));
                }
            }
        }
    }
}

/// A signed decimal rendering reads back as the number it renders.
proof fn lemma_signed_dec_round(e: int)
    ensures
        signed_dec_seq(e).len() >= 1,
        parse_signed_dec(signed_dec_seq(e)) == Option::Some(e),
        forall|i: int| 0 <= i < signed_dec_seq(e).len() ==> #[trigger] signed_dec_seq(e)[i] != 'p',
{
    if e < 0 {
        lemma_dec_seq_round(-e);
        let s = signed_dec_seq(e);
        assert(s == seq!['-'] + dec_seq(-e));
        assert(s[0] == '-');
        assert(s.skip(1) =~= dec_seq(-e));
        assert forall|i: int| 0 <= i < s.len() implies #[trigger] s[i] != 'p' by {
            if i >= 1 {
                assert(s[i] == dec_seq(-e)[i - 1]);
                assert(is_dec_char(dec_seq(-e)[i - 1]));
            }
        }
    } else {
        lemma_dec_seq_round(e);
        let s = signed_dec_seq(e);
        assert(s == dec_seq(e));
        assert(is_dec_char(s[0]));
        assert(s[0] != '-');
        assert(forall|i: int| 0 <= i < s.len() ==> is_dec_char(#[trigger] s[i]));
    }
}

/// A fraction rendering reads back, padded with the elided trailing zero
/// nibbles, as the fraction it renders.
proof fn lemma_frac_seq_round(f: nat, k: nat)
    requires
        f < pow16(k),
    ensures
        all_hex(frac_seq(f, k)),
        frac_seq(f, k).len() <= k,
        hex_fold(frac_seq(f, k)) * pow16((k - frac_seq(f, k).len()) as nat) == f,
        forall|i: int| 0 <= i < frac_seq(f, k).len() ==> #[trigger] frac_seq(f, k)[i] != 'p',
    decreases k,
{
    if k == 0 || f == 0 {
        assert(frac_seq(f, k) =~= Seq::<char>::empty());
        if k == 0 {
            assert(pow16(0) == 1);
        }
        assert(hex_fold(Seq::<char>::empty()) == 0);
        assert(0 * pow16((k - 0) as nat) == 0) by (nonlinear_arith);
    } else {
        let p = pow16((k - 1) as nat);
        lemma_pow16_pos((k - 1) as nat);
        let d = f as int / p as int;
        let r = f % p;
        assert(pow16(k) == 16 * p);
        assert(d < 16 && d >= 0) by (nonlinear_arith)
            requires
                f < 16 * p,
                p > 0,
                d == f as int / p as int,
                f >= 0,
        ;
        assert(r < p) by (nonlinear_arith)
            requires
                p > 0,
                r == f % p,
        ;
        lemma_frac_seq_round(r, (k - 1) as nat);
        lemma_hex_digit_props(d);
        let rest = frac_seq(r, (k - 1) as nat);
        let s = frac_seq(f, k);
        assert(s == seq![hex_digit(d)] + rest);
        let ll = rest.len();
        assert(s.len() == ll + 1);
        assert(s[0] == hex_digit(d));
        assert(s.skip(1) =~= rest);
        assert(all_hex(s)) by {
            assert forall|i: int| 0 <= i < s.len() implies is_hex_char(#[trigger] s[i]) by {
                if i >= 1 {
                    assert(s[i] == rest[i - 1]);
                }
            }
        }
        assert forall|i: int| 0 <= i < s.len() implies #[trigger] s[i] != 'p' by {
            if i >= 1 {
                assert(s[i] == rest[i - 1]);
            }
        }
        // hex_fold(s) = d·16^ll + hex_fold(rest); padding by 16^(k-1-ll)
        // rebuilds d·16^(k-1) + r = f.
        assert(hex_fold(s) == d * pow16(ll as nat) + hex_fold(rest));
        let pad = pow16((k - 1 - ll) as nat);
        assert(hex_fold(rest) * pad == r);
        lemma_pow16_add(ll as nat, (k - 1 - ll) as nat);
        assert(pow16((k - 1) as nat) == pow16(ll as nat) * pad);
        assert((d * pow16(ll as nat) + hex_fold(rest)) * pad == d * (pow16(ll as nat) * pad)
            + hex_fold(rest) * pad) by (nonlinear_arith);
        vstd::arithmetic::div_mod::lemma_fundamental_div_mod(f as int, p as int);
        assert((k - (ll + 1)) as nat == (k - 1 - ll) as nat);
    }
}

/// The first `c` of a text that starts with a `c`-free block is right after
/// the block.
proof fn lemma_find_char_concat(a: Seq<char>, c: char, b: Seq<char>)
    requires
        forall|i: int| 0 <= i < a.len() ==> #[trigger] a[i] != c,
    ensures
        find_char(a + seq![c] + b, c) == a.len(),
    decreases a.len(),
{
    let s = a + seq![c] + b;
    if a.len() == 0 {
        assert(s[0] == c);
    } else {
        assert(s[0] == a[0]);
        assert(s.skip(1) =~= a.skip(1) + seq![c] + b);
        assert(forall|i: int| 0 <= i < a.skip(1).len() ==> #[trigger] a.skip(1)[i] != c);
        lemma_find_char_concat(a.skip(1), c, b);
    }
}

/// A 64-bit pattern is its sign, exponent and fraction fields reassembled.
proof fn lemma_f64_decompose(bits: u64)
    ensures
        bits == (bits / 0x8000000000000000) * 0x8000000000000000 + ((bits / 0x10000000000000)
            % 0x800) * 0x10000000000000 + bits % 0x10000000000000,
{
    vstd::arithmetic::div_mod::lemma_fundamental_div_mod(bits as int, 0x10000000000000);
    vstd::arithmetic::div_mod::lemma_fundamental_div_mod(
        bits as int / 0x10000000000000,
        0x800,
    );
    vstd::arithmetic::div_mod::lemma_div_denominator(bits as int, 0x10000000000000, 0x800);
}

/// A 32-bit pattern is its sign, exponent and fraction fields reassembled.
proof fn lemma_f32_decompose(bits: u32)
    ensures
        bits == (bits / 0x80000000) * 0x80000000 + ((bits / 0x800000) % 0x100) * 0x800000 + bits
            % 0x800000,
{
    vstd::arithmetic::div_mod::lemma_fundamental_div_mod(bits as int, 0x800000);
    vstd::arithmetic::div_mod::lemma_fundamental_div_mod(bits as int / 0x800000, 0x100);
    vstd::arithmetic::div_mod::lemma_div_denominator(bits as int, 0x800000, 0x100);
}

/// Rendering a double and reading it back yields the bits that were
/// rendered. Excluded: NaN, which reads back as the canonical quiet NaN
/// whatever its payload was, and negative zero, which renders as `0` and
/// reads back positive.
#[verifier::rlimit(100)]
pub proof fn lemma_go_f64_round_trip(bits: u64)
    requires
        !((bits / 0x10000000000000) % 0x800 == 0x7ff && bits % 0x10000000000000 != 0),
        bits != 0x8000000000000000,
    ensures
        parse_go_f64(go_f64_seq(bits)) == Option::Some(bits),
{
    let sign = bits / 0x8000000000000000;
    let exp = (bits / 0x10000000000000) % 0x800;
    let frac = bits % 0x10000000000000;
    lemma_f64_decompose(bits);
    let s = go_f64_seq(bits);
    if exp == 0x7ff {
        // Infinities: the literal text reads back as the exact bit pattern.
        assert(frac == 0);
        if sign == 0 {
            assert(s == seq!['+', 'I', 'n', 'f']);
            assert(s != seq!['N', 'a', 'N']) by {
                assert(s.len() == 4);
            }
            assert(bits == 0x7ff0000000000000);
        } else {
            assert(s == seq!['-', 'I', 'n', 'f']);
            assert(s != seq!['N', 'a', 'N']) by {
                assert(s.len() == 4);
            }
            assert(s != seq!['+', 'I', 'n', 'f']) by {
                assert(s[0] == '-');
            }
            assert(sign == 1);
            assert(bits == 0xfff0000000000000);
        }
    } else if exp == 0 && frac == 0 {
        assert(sign == 0);
        assert(bits == 0);
        assert(s == seq!['0']);
        assert(s != seq!['N', 'a', 'N'] && s != seq!['+', 'I', 'n', 'f'] && s != seq!['-', 'I',
            'n', 'f']) by {
            assert(s.len() == 1);
        }
    } else {
        reveal_with_fuel(pow16, 15);
        lemma_frac_seq_round(frac as nat, 13);
        let e = exp - 1023;
        lemma_signed_dec_round(e);
        let head = seq![
            if sign == 0 {
                '+'
            } else {
                '-'
            },
            '0',
            'x',
            if exp == 0 {
                '0'
            } else {
                '1'
            },
            '.',
        ];
        let fr = frac_seq(frac as nat, 13);
        let et = signed_dec_seq(e);
        assert(s == head + fr + seq!['p'] + et);
        assert(s.len() == 5 + fr.len() + 1 + et.len());
        assert(s.len() >= 7);
        assert(s != seq!['N', 'a', 'N'] && s != seq!['+', 'I', 'n', 'f'] && s != seq!['-', 'I',
            'n', 'f'] && s != seq!['0']) by {
            assert(s.len() >= 7);
        }
        assert(s[0] == head[0] && s[1] == head[1] && s[2] == head[2] && s[3] == head[3] && s[4]
            == head[4]);
        let body = s.skip(5);
        assert(body =~= fr + seq!['p'] + et);
        lemma_find_char_concat(fr, 'p', et);
        assert(find_char(body, 'p') == fr.len());
        assert(body.take(fr.len() as int) =~= fr);
        assert(body.skip(fr.len() as int + 1) =~= et);
        assert(parse_signed_dec(et) == Option::Some(e));
        let pad = pow16((13 - fr.len()) as nat);
        assert(hex_fold(fr) * pad == frac);
        if exp == 0 {
            assert(s[3] == '0');
            assert(e == -1023);
        } else {
            assert(s[3] == '1');
            assert(0 <= e + 1023 < 0x7ff);
        }
        assert(parse_go_f64(s) == Option::Some(
            (sign * 0x8000000000000000 + exp * 0x10000000000000 + frac) as u64,
        ));
    }
}

/// Rendering a single and reading it back yields the bits that were
/// rendered, NaN and negative zero excluded as for doubles.
#[verifier::rlimit(100)]
pub proof fn lemma_go_f32_round_trip(bits: u32)
    requires
        !((bits / 0x800000) % 0x100 == 0xff && bits % 0x800000 != 0),
        bits != 0x80000000,
    ensures
        parse_go_f32(go_f32_seq(bits)) == Option::Some(bits),
{
    let sign = bits / 0x80000000;
    let exp = (bits / 0x800000) % 0x100;
    let frac = bits % 0x800000;
    lemma_f32_decompose(bits);
    let s = go_f32_seq(bits);
    if exp == 0xff {
        assert(frac == 0);
        if sign == 0 {
            assert(s == seq!['+', 'I', 'n', 'f']);
            assert(s != seq!['N', 'a', 'N']) by {
                assert(s.len() == 4);
            }
            assert(bits == 0x7f800000);
        } else {
            assert(s == seq!['-', 'I', 'n', 'f']);
            assert(s != seq!['N', 'a', 'N']) by {
                assert(s.len() == 4);
            }
            assert(s != seq!['+', 'I', 'n', 'f']) by {
                assert(s[0] == '-');
            }
            assert(bits == 0xff800000);
        }
    } else if exp == 0 && frac == 0 {
        assert(bits == 0);
        assert(s == seq!['0']);
        assert(s != seq!['N', 'a', 'N'] && s != seq!['+', 'I', 'n', 'f'] && s != seq!['-', 'I',
            'n', 'f']) by {
            assert(s.len() == 1);
        }
    } else {
        reveal_with_fuel(pow16, 15);
        let doubled = (frac * 2) as nat;
        assert(doubled < pow16(6));
        lemma_frac_seq_round(doubled, 6);
        let e = exp - 127;
        lemma_signed_dec_round(e);
        let head = seq![
            if sign == 0 {
                '+'
            } else {
                '-'
            },
            '0',
            'x',
            if exp == 0 {
                '0'
            } else {
                '1'
            },
            '.',
        ];
        let fr = frac_seq(doubled, 6);
        let et = signed_dec_seq(e);
        assert(s == head + fr + seq!['p'] + et);
        assert(s.len() == 5 + fr.len() + 1 + et.len());
        assert(s.len() >= 7);
        assert(s != seq!['N', 'a', 'N'] && s != seq!['+', 'I', 'n', 'f'] && s != seq!['-', 'I',
            'n', 'f'] && s != seq!['0']) by {
            assert(s.len() >= 7);
        }
        assert(s[0] == head[0] && s[1] == head[1] && s[2] == head[2] && s[3] == head[3] && s[4]
            == head[4]);
        let body = s.skip(5);
        assert(body =~= fr + seq!['p'] + et);
        lemma_find_char_concat(fr, 'p', et);
        assert(find_char(body, 'p') == fr.len());
        assert(body.take(fr.len() as int) =~= fr);
        assert(body.skip(fr.len() as int + 1) =~= et);
        assert(parse_signed_dec(et) == Option::Some(e));
        let pad = pow16((6 - fr.len()) as nat);
        assert(hex_fold(fr) * pad == doubled);
        assert(doubled % 2 == 0 && doubled / 2 == frac);
        if exp == 0 {
            assert(s[3] == '0');
            assert(e == -127);
        } else {
            assert(s[3] == '1');
            assert(0 <= e + 127 < 0xff);
        }
        assert(parse_go_f32(s) == Option::Some(
            (sign * 0x80000000 + exp * 0x800000 + frac) as u32,
        ));
    }
}

/// An IEEE single carried as its bit pattern.
#[derive(Clone, Copy, Debug, PartialEq, Eq, Structural)]
pub struct F32Bits {
    pub bits: u32,
}

/// An IEEE double carried as its bit pattern.
#[derive(Clone, Copy, Debug, PartialEq, Eq, Structural)]
pub struct F64Bits {
    pub bits: u64,
}

/// A value that renders itself the way Go's `%v`/`%x` formatting writes
/// sample values in the exposition text: integers in decimal, booleans as
/// `1`/`0`, floating-point bit patterns in hex-float form.
pub trait SerializeGoFloat {
    /// The rendered text.
    spec fn go_view(&self) -> Seq<char>;

    /// Appends the rendered text to `out`.
    fn push_go_float(&self, out: &mut Vec<char>)
        ensures
            final(out)@ == old(out)@ + self.go_view(),
    ;
}

impl SerializeGoFloat for u64 {
    open spec fn go_view(&self) -> Seq<char> {
        dec_seq(*self as int)
    }

    fn push_go_float(&self, out: &mut Vec<char>)
        ensures
            final(out)@ == old(out)@ + self.go_view(),
    {
        push_dec(out, *self);
    }
}

impl SerializeGoFloat for usize {
    open spec fn go_view(&self) -> Seq<char> {
        dec_seq(*self as int)
    }

    fn push_go_float(&self, out: &mut Vec<char>)
        ensures
            final(out)@ == old(out)@ + self.go_view(),
    {
        push_dec(out, *self as u64);
    }
}

impl SerializeGoFloat for u32 {
    open spec fn go_view(&self) -> Seq<char> {
        dec_seq(*self as int)
    }

    fn push_go_float(&self, out: &mut Vec<char>)
        ensures
            final(out)@ == old(out)@ + self.go_view(),
    {
        push_dec(out, *self as u64);
    }
}

impl SerializeGoFloat for bool {
    open spec fn go_view(&self) -> Seq<char> {
        if *self {
            seq!['1']
        } else {
            seq!['0']
        }
    }

    fn push_go_float(&self, out: &mut Vec<char>)
        ensures
            final(out)@ == old(out)@ + self.go_view(),
    {
        if *self {
            out.push('1');
        } else {
            out.push('0');
        }
        proof {
            assert(final(out)@ =~= old(out)@ + self.go_view());
        }
    }
}

impl SerializeGoFloat for F32Bits {
    open spec fn go_view(&self) -> Seq<char> {
        go_f32_seq(self.bits)
    }

    fn push_go_float(&self, out: &mut Vec<char>)
        ensures
            final(out)@ == old(out)@ + self.go_view(),
    {
        push_go_f32(out, self.bits);
    }
}

impl SerializeGoFloat for F64Bits {
    open spec fn go_view(&self) -> Seq<char> {
        go_f64_seq(self.bits)
    }

    fn push_go_float(&self, out: &mut Vec<char>)
        ensures
            final(out)@ == old(out)@ + self.go_view(),
    {
        push_go_f64(out, self.bits);
    }
}

} // verus!
