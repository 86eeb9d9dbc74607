//! A fixed-point number written as `integer.decimals` reads back as the same text.
use vstd::prelude::*;
use vstd::utf8::encode_utf8;
use vstd::utf8::is_ascii_chars;
use vstd::utf8::is_ascii_chars_encode_utf8;
use vstd::arithmetic::div_mod::lemma_fundamental_div_mod_converse;
use crate::utils::convert::pow10;
use crate::utils::convert::numeric_text;
use crate::utils::convert::spec_numeric_to_str;
use crate::utils::convert::spec_str_to_numeric;
use crate::utils::convert::zeros;
use crate::utils::dates::ascii_bytes;
use crate::utils::dates::lemma_decimal;
use crate::utils::dates::lemma_split_extend;
use crate::utils::dates::lemma_split_sep;
use crate::utils::text::all_digits;
use crate::utils::text::decimal_chars;
use crate::utils::text::digit_char;
use crate::utils::text::digits_value;
use crate::utils::text::int_chars;
use crate::utils::text::is_digit;
use crate::utils::text::parse_i64_dec;
use crate::utils::text::split_bytes;

verus! {

/// The characters are decimal digits.
pub open spec fn digit_chars(f: Seq<char>) -> bool {
    forall|i: int| 0 <= i < f.len() ==> '0' <= #[trigger] f[i] <= '9'
}

/// The value of a string of decimal digit characters.
pub open spec fn chars_value(f: Seq<char>) -> nat {
    digits_value(ascii_bytes(f))
}

proof fn lemma_digit_bytes(f: Seq<char>)
    requires
        digit_chars(f),
    ensures
        is_ascii_chars(f),
        all_digits(ascii_bytes(f)),
        ascii_bytes(f).len() == f.len(),
{
    assert forall|i: int| 0 <= i < f.len() implies '\0' <= #[trigger] f[i] <= '\u{7f}' by {
        assert('0' <= f[i] <= '9');
    }
    assert forall|i: int| 0 <= i < ascii_bytes(f).len() implies is_digit(#[trigger] ascii_bytes(f)[i]) by {
        assert('0' <= f[i] <= '9');
        assert(ascii_bytes(f)[i] == f[i] as u8);
    }
}

/// The value of two digit strings one after the other.
proof fn lemma_digits_concat(a: Seq<u8>, b: Seq<u8>)
    ensures
        digits_value(a + b) == digits_value(a) * pow10(b.len()) + digits_value(b),
    decreases b.len(),
{
    if b.len() == 0 {
        assert(a + b =~= a);
        assert(digits_value(b) == 0);
        assert(pow10(0) == 1);
        assert(digits_value(a) * 1 == digits_value(a));
    } else {
        let b0 = b.drop_last();
        lemma_digits_concat(a, b0);
        assert((a + b).drop_last() =~= a + b0);
        assert((a + b).last() == b.last());
        let x = digits_value(a);
        let y = digits_value(b0);
        let p = pow10(b0.len());
        assert(pow10(b.len()) == 10 * p);
        let l = (b.last() - 48) as nat;
        assert(digits_value(a + b) == digits_value(a + b0) * 10 + ((a + b).last() - 48) as nat);
        assert(digits_value(b) == y * 10 + l);
        assert((x * p + y) * 10 == x * (10 * p) + y * 10) by (nonlinear_arith);
    }
}

/// A digit string is below ten to its length, and at least ten to one less where it does
/// not start with zero.
proof fn lemma_digits_bound(b: Seq<u8>)
    requires
        all_digits(b),
    ensures
        digits_value(b) < pow10(b.len()),
        b.len() >= 1 && b[0] != 48u8 ==> digits_value(b) >= pow10((b.len() - 1) as nat),
    decreases b.len(),
{
    if b.len() > 0 {
        let b0 = b.drop_last();
        assert(all_digits(b0)) by {
            assert forall|i: int| 0 <= i < b0.len() implies is_digit(#[trigger] b0[i]) by {
                assert(b0[i] == b[i]);
            }
        }
        lemma_digits_bound(b0);
        assert(is_digit(b.last()));
        assert(pow10(b.len()) == 10 * pow10(b0.len()));
        if b.len() >= 2 && b[0] != 48u8 {
            assert(b0[0] == b[0]);
            assert(pow10((b.len() - 1) as nat) == 10 * pow10((b0.len() - 1) as nat));
        }
        if b.len() == 1 && b[0] != 48u8 {
            assert(b0 =~= Seq::<u8>::empty());
            assert(b.last() == b[0]);
        }
    }
}

/// A digit string without a leading zero (or a single digit) is the decimal writing of its
/// value.
proof fn lemma_decimal_of_digits(f: Seq<char>)
    requires
        digit_chars(f),
        f.len() >= 1,
        f[0] != '0' || f.len() == 1,
    ensures
        decimal_chars(chars_value(f)) == f,
    decreases f.len(),
{
    lemma_digit_bytes(f);
    let b = ascii_bytes(f);
    let n = digits_value(b);
    let f0 = f.drop_last();
    let b0 = b.drop_last();
    assert(b0 =~= ascii_bytes(f0));
    let d = (b.last() - 48) as nat;
    assert(b.last() == f.last() as u8);
    assert(d < 10);
    assert(digit_char(d) == f.last()) by {
        assert('0' <= f.last() <= '9');
    }
    if f.len() == 1 {
        assert(b0 =~= Seq::<u8>::empty());
        assert(digits_value(b0) == 0);
        assert(n == digits_value(b0) * 10 + (b.last() - 48) as nat);
        assert(n == d);
        assert(decimal_chars(n) =~= f);
    } else {
        lemma_digits_bound(b);
        assert(b[0] == f[0] as u8);
        assert(b[0] != 48u8) by {
            assert('0' <= f[0] <= '9');
        }
        assert(pow10((b.len() - 1) as nat) >= 10) by {
            crate::utils::convert::lemma_pow10_bound(1, (b.len() - 1) as nat);
        }
        assert(digit_chars(f0));
        assert(f0[0] == f[0]);
        lemma_decimal_of_digits(f0);
        lemma_fundamental_div_mod_converse(n as int, 10, digits_value(b0) as int, d as int);
        assert(decimal_chars(n) == decimal_chars(n / 10).push(digit_char(n % 10)));
        assert(f0.push(f.last()) =~= f);
    }
}

/// The text of a fixed-point number: an integer part without leading zeros, a point and the
/// decimals.
pub open spec fn numeric_written(i: nat, f: Seq<char>) -> Seq<char> {
    decimal_chars(i) + seq!['.'] + f
}

/// A number written as `integer.decimals`, with `precision - 1` decimals of which the first
/// is not 0 (unless there is one decimal only), and whose digits fit in `i64`, is read by
/// `str_to_numeric` into the value that `numeric_to_str` writes back as the same text. (Where
/// the decimals start with 0, they are written back without those zeros.)
pub proof fn lemma_numeric_round_trip(i: nat, f: Seq<char>, precision: u8)
    requires
        2 <= precision <= 19,
        f.len() == precision - 1,
        digit_chars(f),
        f[0] != '0' || f.len() == 1,
        i * pow10(f.len()) + chars_value(f) <= i64::MAX,
    ensures
        spec_numeric_to_str(spec_str_to_numeric(encode_utf8(numeric_written(i, f)), precision), precision)
            == numeric_written(i, f),
{
    let ic = decimal_chars(i);
    let t = numeric_written(i, f);
    lemma_decimal(i);
    lemma_digit_bytes(f);
    let ib = ascii_bytes(ic);
    let fb = ascii_bytes(f);
    assert(is_ascii_chars(t)) by {
        assert forall|x: int| 0 <= x < t.len() implies '\0' <= #[trigger] t[x] <= '\u{7f}' by {
            if x < ic.len() {
                assert(t[x] == ic[x]);
            } else if x > ic.len() {
                assert(t[x] == f[x - ic.len() - 1]);
            }
        }
    }
    is_ascii_chars_encode_utf8(t);
    let e = encode_utf8(t);
    assert(e =~= ib.push(46u8) + fb) by {
        assert forall|x: int| 0 <= x < t.len() implies e[x] == (ib.push(46u8) + fb)[x] by {
            assert(t[x] as u8 == e[x]);
            if x < ic.len() {
                assert(t[x] == ic[x]);
            } else if x > ic.len() {
                assert(t[x] == f[x - ic.len() - 1]);
            }
        }
    }
    assert(forall|x: int| 0 <= x < fb.len() ==> is_digit(#[trigger] fb[x]));
    assert(forall|x: int| 0 <= x < ib.len() ==> is_digit(#[trigger] ib[x]));
    let em = Seq::<u8>::empty();
    lemma_split_extend(em, ib, 46u8);
    assert(em + ib =~= ib);
    assert(seq![em].update(0, em + ib) =~= seq![ib]);
    lemma_split_sep(ib, 46u8);
    lemma_split_extend(ib.push(46u8), fb, 46u8);
    assert(seq![ib, em].update(1, em + fb) =~= seq![ib, fb]);
    assert(split_bytes(e, 46u8) == seq![ib, fb]);
    assert(zeros(0) =~= Seq::<u8>::empty());
    let txt = ib + fb;
    assert(ib + fb + zeros(0) =~= txt);
    assert(numeric_text(e, precision) == Some(txt));
    lemma_digits_concat(ib, fb);
    let fv = chars_value(f);
    let num = i * pow10(f.len()) + fv;
    assert(digits_value(txt) == num);
    assert(is_digit(txt[0])) by {
        assert(txt[0] == ib[0]);
    }
    assert(txt[0] != 45u8 && txt[0] != 43u8);
    assert(crate::utils::text::strip_leading(txt, 43u8) == txt);
    assert(all_digits(txt)) by {
        assert forall|x: int| 0 <= x < txt.len() implies is_digit(#[trigger] txt[x]) by {
            if x < ib.len() { assert(txt[x] == ib[x]); } else { assert(txt[x] == fb[x - ib.len()]); }
        }
    }
    assert(parse_i64_dec(txt) == Some(num as i64));
    let v = spec_str_to_numeric(e, precision);
    assert(v == num);
    lemma_digits_bound(fb);
    let k = (precision - 1) as nat;
    assert(k == f.len());
    lemma_fundamental_div_mod_converse(num as int, pow10(k) as int, i as int, fv as int);
    assert(crate::utils::convert::numeric_integer(v, precision) == i);
    assert(crate::utils::convert::numeric_decimal(v, precision) == fv);
    lemma_decimal_of_digits(f);
    assert(int_chars(i as int) == ic);
    assert(int_chars(fv as int) == f);
}


proof fn lemma_pow10_add(a: nat, b: nat)
    ensures
        pow10(a + b) == pow10(a) * pow10(b),
    decreases b,
{
    if b == 0 {
        assert(pow10(0) == 1);
        assert(a + b == a);
        assert(pow10(a) * 1 == pow10(a));
    } else {
        lemma_pow10_add(a, (b - 1) as nat);
        assert(a + (b - 1) as nat == (a + b - 1) as nat);
        assert(pow10(a + b) == 10 * pow10((a + b - 1) as nat));
        assert(pow10(b) == 10 * pow10((b - 1) as nat));
        let x = pow10(a);
        let y = pow10((b - 1) as nat);
        assert(10 * (x * y) == x * (10 * y)) by (nonlinear_arith);
    }
}

proof fn lemma_zeros_value(z: nat)
    ensures
        all_digits(zeros(z)),
        digits_value(zeros(z)) == 0,
    decreases z,
{
    if z > 0 {
        lemma_zeros_value((z - 1) as nat);
        assert(zeros(z).drop_last() =~= zeros((z - 1) as nat));
    }
}

/// The text of a literal fixed-point number: an optional minus sign, the integer part, a
/// point and the decimals.
pub open spec fn signed_numeric_text(neg: bool, i: nat, f: Seq<char>) -> Seq<char> {
    (if neg { seq!['-'] } else { Seq::<char>::empty() }) + decimal_chars(i) + seq!['.'] + f
}

/// A literal `[-]integer.decimals` with at most `precision - 1` decimals reads as the number
/// it writes, scaled by ten to the `precision - 1`: the integer part times that power plus the
/// decimals padded to `precision - 1` places, negated where the literal has a minus sign.
pub proof fn lemma_numeric_value(neg: bool, i: nat, f: Seq<char>, precision: u8)
    requires
        1 <= precision,
        f.len() <= precision - 1,
        digit_chars(f),
        i * pow10((precision - 1) as nat) + chars_value(f) * pow10((precision - 1 - f.len()) as nat) <= i64::MAX,
    ensures
        spec_str_to_numeric(encode_utf8(signed_numeric_text(neg, i, f)), precision) == (if neg {
            0 - (i * pow10((precision - 1) as nat) + chars_value(f) * pow10((precision - 1 - f.len()) as nat))
        } else {
            (i * pow10((precision - 1) as nat) + chars_value(f) * pow10((precision - 1 - f.len()) as nat)) as int
        }),
{
    let k = (precision - 1) as nat;
    let z = (k - f.len()) as nat;
    let sg = if neg { seq!['-'] } else { Seq::<char>::empty() };
    let ic = decimal_chars(i);
    let t = signed_numeric_text(neg, i, f);
    lemma_decimal(i);
    lemma_digit_bytes(f);
    let sb = ascii_bytes(sg);
    let ib = ascii_bytes(ic);
    let fb = ascii_bytes(f);
    assert(sb =~= (if neg { seq![45u8] } else { Seq::<u8>::empty() }));
    let head = sg + ic;
    assert(is_ascii_chars(t)) by {
        assert forall|x: int| 0 <= x < t.len() implies '\0' <= #[trigger] t[x] <= '\u{7f}' by {
            if x < sg.len() {
                assert(t[x] == sg[x]);
            } else if x < head.len() {
                assert(t[x] == ic[x - sg.len()]);
            } else if x > head.len() {
                assert(t[x] == f[x - head.len() - 1]);
            }
        }
    }
    is_ascii_chars_encode_utf8(t);
    let e = encode_utf8(t);
    let hb = sb + ib;
    assert(e =~= hb.push(46u8) + fb) by {
        assert forall|x: int| 0 <= x < t.len() implies e[x] == (hb.push(46u8) + fb)[x] by {
            assert(t[x] as u8 == e[x]);
            if x < sg.len() {
                assert(t[x] == sg[x]);
            } else if x < head.len() {
                assert(t[x] == ic[x - sg.len()]);
            } else if x > head.len() {
                assert(t[x] == f[x - head.len() - 1]);
            }
        }
    }
    assert(forall|x: int| 0 <= x < fb.len() ==> is_digit(#[trigger] fb[x]));
    assert(forall|x: int| 0 <= x < ib.len() ==> is_digit(#[trigger] ib[x]));
    assert forall|x: int| 0 <= x < hb.len() implies #[trigger] hb[x] != 46u8 by {
        if x < sb.len() { assert(hb[x] == 45u8); } else { assert(hb[x] == ib[x - sb.len()]); }
    }
    let em = Seq::<u8>::empty();
    lemma_split_extend(em, hb, 46u8);
    assert(em + hb =~= hb);
    assert(seq![em].update(0, em + hb) =~= seq![hb]);
    lemma_split_sep(hb, 46u8);
    lemma_split_extend(hb.push(46u8), fb, 46u8);
    assert(seq![hb, em].update(1, em + fb) =~= seq![hb, fb]);
    assert(split_bytes(e, 46u8) == seq![hb, fb]);
    let digits = ib + fb + zeros(z);
    assert(numeric_text(e, precision) == Some(hb + fb + zeros(z)));
    // the value of the digits
    lemma_zeros_value(z);
    lemma_digits_concat(ib + fb, zeros(z));
    lemma_digits_concat(ib, fb);
    lemma_pow10_add(f.len(), z);
    assert(f.len() + z == k);
    let iv = digits_value(ib);
    let fv = chars_value(f);
    let p1 = pow10(f.len());
    let p2 = pow10(z);
    assert((iv * p1 + fv) * p2 == iv * (p1 * p2) + fv * p2) by (nonlinear_arith);
    let m = i * pow10(k) + fv * pow10(z);
    assert(digits_value(digits) == m);
    assert(all_digits(digits)) by {
        assert forall|x: int| 0 <= x < digits.len() implies is_digit(#[trigger] digits[x]) by {
            if x < ib.len() {
                assert(digits[x] == ib[x]);
            } else if x < ib.len() + fb.len() {
                assert(digits[x] == fb[x - ib.len()]);
            } else {
                assert(digits[x] == zeros(z)[x - ib.len() - fb.len()]);
            }
        }
    }
    assert(digits[0] == ib[0]);
    if neg {
        let s2 = hb + fb + zeros(z);
        assert(s2[0] == 45u8);
        assert(s2.subrange(1, s2.len() as int) =~= digits);
        assert(parse_i64_dec(s2) == Some((0 - m) as i64));
    } else {
        let s2 = hb + fb + zeros(z);
        assert(hb =~= ib);
        assert(s2 =~= digits);
        assert(is_digit(s2[0]));
        assert(crate::utils::text::strip_leading(s2, 43u8) == s2);
        assert(parse_i64_dec(s2) == Some(m as i64));
    }
}

proof fn lemma_int_chars_nat(x: nat)
    ensures
        int_chars(x as int) == decimal_chars(x),
{
    let i = x as int;
    assert(!(i < 0));
    assert(i as nat == x);
}

/// A fixed-point number with `precision - 1` decimals is written as its whole part, a point,
/// and its remainder below ten to the `precision - 1`: a number `n` at least 0 as the decimal
/// writings of `n / 10^k` and `n % 10^k`; its negation with a minus sign on each part that is
/// not 0 (as `{}` prints negative parts).
pub proof fn lemma_numeric_text(n: i64, precision: u8)
    requires
        2 <= precision <= 19,
        0 <= n,
    ensures
        spec_numeric_to_str(n, precision) == decimal_chars((n as nat) / pow10((precision - 1) as nat)) + seq!['.']
            + decimal_chars((n as nat) % pow10((precision - 1) as nat)),
        n > 0 ==> spec_numeric_to_str((0 - n) as i64, precision) == int_chars(
            0 - (n as nat) / pow10((precision - 1) as nat),
        ) + seq!['.'] + int_chars(0 - (n as nat) % pow10((precision - 1) as nat)),
{
    let k = (precision - 1) as nat;
    let q = (n as nat) / pow10(k);
    let m = (n as nat) % pow10(k);
    assert(crate::utils::convert::numeric_integer(n, precision) == q as int);
    assert(crate::utils::convert::numeric_decimal(n, precision) == m as int);
    assert((q as int) as nat == q);
    assert((m as int) as nat == m);
    lemma_int_chars_nat(q);
    lemma_int_chars_nat(m);
}

/// A literal `[-]integer.decimals` with more decimals than `precision - 1` reads as 0.
pub proof fn lemma_numeric_too_long(neg: bool, i: nat, f: Seq<char>, precision: u8)
    requires
        1 <= precision,
        f.len() > precision - 1,
        digit_chars(f),
    ensures
        spec_str_to_numeric(encode_utf8(signed_numeric_text(neg, i, f)), precision) == 0,
{
    let sg = if neg { seq!['-'] } else { Seq::<char>::empty() };
    let ic = decimal_chars(i);
    let t = signed_numeric_text(neg, i, f);
    lemma_decimal(i);
    lemma_digit_bytes(f);
    let sb = ascii_bytes(sg);
    let ib = ascii_bytes(ic);
    let fb = ascii_bytes(f);
    assert(sb =~= (if neg { seq![45u8] } else { Seq::<u8>::empty() }));
    let head = sg + ic;
    assert(is_ascii_chars(t)) by {
        assert forall|x: int| 0 <= x < t.len() implies '\0' <= #[trigger] t[x] <= '\u{7f}' by {
            if x < sg.len() {
                assert(t[x] == sg[x]);
            } else if x < head.len() {
                assert(t[x] == ic[x - sg.len()]);
            } else if x > head.len() {
                assert(t[x] == f[x - head.len() - 1]);
            }
        }
    }
    is_ascii_chars_encode_utf8(t);
    let e = encode_utf8(t);
    let hb = sb + ib;
    assert(e =~= hb.push(46u8) + fb) by {
        assert forall|x: int| 0 <= x < t.len() implies e[x] == (hb.push(46u8) + fb)[x] by {
            assert(t[x] as u8 == e[x]);
            if x < sg.len() {
                assert(t[x] == sg[x]);
            } else if x < head.len() {
                assert(t[x] == ic[x - sg.len()]);
            } else if x > head.len() {
                assert(t[x] == f[x - head.len() - 1]);
            }
        }
    }
    assert(forall|x: int| 0 <= x < fb.len() ==> is_digit(#[trigger] fb[x]));
    assert(forall|x: int| 0 <= x < ib.len() ==> is_digit(#[trigger] ib[x]));
    assert forall|x: int| 0 <= x < hb.len() implies #[trigger] hb[x] != 46u8 by {
        if x < sb.len() { assert(hb[x] == 45u8); } else { assert(hb[x] == ib[x - sb.len()]); }
    }
    let em = Seq::<u8>::empty();
    lemma_split_extend(em, hb, 46u8);
    assert(em + hb =~= hb);
    assert(seq![em].update(0, em + hb) =~= seq![hb]);
    lemma_split_sep(hb, 46u8);
    lemma_split_extend(hb.push(46u8), fb, 46u8);
    assert(seq![hb, em].update(1, em + fb) =~= seq![hb, fb]);
    assert(split_bytes(e, 46u8) == seq![hb, fb]);
    assert(numeric_text(e, precision) is None);
}

/// A text without a point (an integer written alone) reads as 0; a number with no decimals
/// (`precision` 1) is written as its integer alone.
pub proof fn lemma_numeric_without_point(i: nat, precision: u8, n: i64)
    requires
        1 <= precision,
    ensures
        spec_str_to_numeric(encode_utf8(decimal_chars(i)), precision) == 0,
        spec_numeric_to_str(n, 1) == int_chars(n as int),
{
    let ic = decimal_chars(i);
    lemma_decimal(i);
    let ib = ascii_bytes(ic);
    is_ascii_chars_encode_utf8(ic);
    let e = encode_utf8(ic);
    assert(e =~= ib) by {
        assert forall|x: int| 0 <= x < ic.len() implies e[x] == ib[x] by {
            assert(ic[x] as u8 == e[x]);
        }
    }
    assert forall|x: int| 0 <= x < ib.len() implies #[trigger] ib[x] != 46u8 by {
        assert(is_digit(ib[x]));
    }
    let em = Seq::<u8>::empty();
    lemma_split_extend(em, ib, 46u8);
    assert(em + ib =~= ib);
    assert(seq![em].update(0, em + ib) =~= seq![ib]);
    assert(split_bytes(e, 46u8).len() == 1);
    assert(pow10(0) == 1);
    if n < 0 {
        assert(((0 - n) as nat) / 1 == (0 - n) as nat);
    } else {
        assert((n as nat) / 1 == n as nat);
    }
    assert(crate::utils::convert::numeric_integer(n, 1) == n as int);
}
} // verus!
