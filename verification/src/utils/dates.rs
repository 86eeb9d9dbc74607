//! A date written as `year-mm-dd` reads back as the same text.
use vstd::prelude::*;
use vstd::utf8::encode_utf8;
use vstd::utf8::is_ascii_chars;
use vstd::utf8::is_ascii_chars_encode_utf8;
use crate::utils::convert::spec_date_to_str;
use crate::utils::convert::spec_str_to_date;
use crate::utils::text::all_digits;
use crate::utils::text::decimal_chars;
use crate::utils::text::digit_char;
use crate::utils::text::digits_value;
use crate::utils::text::pad2_chars;
use crate::utils::text::parse_u64_dec;
use crate::utils::text::split_bytes;
use crate::utils::text::lemma_split_bytes_nonempty;

verus! {

/// The text of a date: the year in decimal, then the month and the day in two digits each.
pub open spec fn date_text(y: nat, m: nat, d: nat) -> Seq<char> {
    decimal_chars(y) + seq!['-'] + pad2_chars(m) + seq!['-'] + pad2_chars(d)
}

/// The bytes of a text of ASCII characters.
pub open spec fn ascii_bytes(c: Seq<char>) -> Seq<u8> {
    c.map_values(|x: char| x as u8)
}

/// Decimal digits of `n`, as ASCII bytes, read back as `n`.
pub(crate) proof fn lemma_decimal(n: nat)
    ensures
        is_ascii_chars(decimal_chars(n)),
        ascii_bytes(decimal_chars(n)).len() > 0,
        all_digits(ascii_bytes(decimal_chars(n))),
        digits_value(ascii_bytes(decimal_chars(n))) == n,
    decreases n,
{
    let b = ascii_bytes(decimal_chars(n));
    if n < 10 {
        assert(digit_char(n) as u8 == n + 48);
        assert(b =~= seq![(n + 48) as u8]);
        assert(b.drop_last() =~= Seq::<u8>::empty());
        assert(digits_value(b.drop_last()) == 0);
        assert(b.last() == (n + 48) as u8);
        assert(digits_value(b) == digits_value(b.drop_last()) * 10 + (b.last() - 48) as nat);
    } else {
        lemma_decimal(n / 10);
        let p = decimal_chars(n / 10);
        assert(digit_char(n % 10) as u8 == n % 10 + 48);
        assert(b.drop_last() =~= ascii_bytes(p));
        assert(b.last() == (n % 10 + 48) as u8);
        assert(digits_value(b) == digits_value(b.drop_last()) * 10 + (b.last() - 48) as nat);
        assert((n / 10) * 10 + n % 10 == n);
        assert(is_ascii_chars(decimal_chars(n))) by {
            assert forall|i: int| 0 <= i < decimal_chars(n).len() implies '\0' <= #[trigger] decimal_chars(n)[i] <= '\u{7f}' by {
                if i < p.len() {
                    assert(decimal_chars(n)[i] == p[i]);
                }
            }
        }
        assert(all_digits(b)) by {
            assert forall|i: int| 0 <= i < b.len() implies crate::utils::text::is_digit(#[trigger] b[i]) by {
                if i < p.len() {
                    assert(b[i] == ascii_bytes(p)[i]);
                }
            }
        }
    }
}

/// Two digits of `n`, as ASCII bytes, read back as `n`.
proof fn lemma_pad2(n: nat)
    requires
        n < 100,
    ensures
        is_ascii_chars(pad2_chars(n)),
        ascii_bytes(pad2_chars(n)).len() > 0,
        all_digits(ascii_bytes(pad2_chars(n))),
        digits_value(ascii_bytes(pad2_chars(n))) == n,
{
    if n < 10 {
        let b = ascii_bytes(pad2_chars(n));
        assert(digit_char(n) as u8 == n + 48);
        assert(b =~= seq![48u8, (n + 48) as u8]);
        assert(b.drop_last() =~= seq![48u8]);
        assert(b.drop_last().drop_last() =~= Seq::<u8>::empty());
        assert(digits_value(b.drop_last().drop_last()) == 0);
        assert(b.drop_last().last() == 48u8);
        assert(digits_value(b.drop_last()) == digits_value(b.drop_last().drop_last()) * 10 + (b.drop_last().last() - 48) as nat);
        assert(digits_value(b.drop_last()) == 0);
        assert(b.last() == (n + 48) as u8);
        assert(digits_value(b) == digits_value(b.drop_last()) * 10 + (b.last() - 48) as nat);
    } else {
        lemma_decimal(n);
    }
}

/// Bytes without the separator extend the last part of a split.
pub(crate) proof fn lemma_split_extend(p: Seq<u8>, c: Seq<u8>, sep: u8)
    requires
        forall|i: int| 0 <= i < c.len() ==> c[i] != sep,
    ensures
        split_bytes(p + c, sep) == split_bytes(p, sep).update(
            split_bytes(p, sep).len() - 1,
            split_bytes(p, sep).last() + c,
        ),
    decreases c.len(),
{
    lemma_split_bytes_nonempty(p, sep);
    let sp = split_bytes(p, sep);
    if c.len() == 0 {
        assert(p + c =~= p);
        assert(sp.last() + c =~= sp.last());
        assert(sp.update(sp.len() - 1, sp.last()) =~= sp);
    } else {
        let c0 = c.drop_last();
        lemma_split_extend(p, c0, sep);
        assert((p + c).drop_last() =~= p + c0);
        assert((p + c).last() == c.last());
        assert((sp.last() + c0).push(c.last()) =~= sp.last() + c);
        assert(split_bytes(p + c, sep) =~= sp.update(sp.len() - 1, sp.last() + c));
    }
}

/// A separator starts a new, empty part.
pub(crate) proof fn lemma_split_sep(p: Seq<u8>, sep: u8)
    ensures
        split_bytes(p.push(sep), sep) == split_bytes(p, sep).push(Seq::<u8>::empty()),
{
    assert(p.push(sep).drop_last() =~= p);
}

/// The parts of `a-b-c` where none of them holds `-`.
proof fn lemma_split_three(a: Seq<u8>, b: Seq<u8>, c: Seq<u8>)
    requires
        forall|i: int| 0 <= i < a.len() ==> a[i] != 45u8,
        forall|i: int| 0 <= i < b.len() ==> b[i] != 45u8,
        forall|i: int| 0 <= i < c.len() ==> c[i] != 45u8,
    ensures
        split_bytes(a.push(45u8) + b.push(45u8) + c, 45u8) == seq![a, b, c],
{
    let e = Seq::<u8>::empty();
    lemma_split_extend(e, a, 45u8);
    assert(e + a =~= a);
    assert(seq![e].update(0, e + a) =~= seq![a]);
    lemma_split_sep(a, 45u8);
    lemma_split_extend(a.push(45u8), b, 45u8);
    assert(seq![a, e].update(1, e + b) =~= seq![a, b]);
    let ab = a.push(45u8) + b;
    lemma_split_sep(ab, 45u8);
    assert(ab.push(45u8) =~= a.push(45u8) + b.push(45u8));
    lemma_split_extend(ab.push(45u8), c, 45u8);
    assert(seq![a, b, e].update(2, e + c) =~= seq![a, b, c]);
}

/// A packed date unpacks to its parts.
proof fn lemma_unpack(y: u64, m: u64, d: u64)
    requires
        y <= 9999,
        m <= 15,
        d <= 31,
    ensures
        (y * 512 + m * 32 + d) as u64 >> 9u64 == y,
        ((y * 512 + m * 32 + d) as u64 >> 5u64) & 15 == m,
        (y * 512 + m * 32 + d) as u64 & 31 == d,
{
    assert((y * 512 + m * 32 + d) as u64 >> 9u64 == y) by (bit_vector)
        requires y <= 9999, m <= 15, d <= 31;
    assert(((y * 512 + m * 32 + d) as u64 >> 5u64) & 15 == m) by (bit_vector)
        requires y <= 9999, m <= 15, d <= 31;
    assert((y * 512 + m * 32 + d) as u64 & 31 == d) by (bit_vector)
        requires y <= 9999, m <= 15, d <= 31;
}

/// A date of a four-digit year, a month up to 12 and a day up to 31, written as
/// `year-mm-dd`, is read by `str_to_date` into the number that `date_to_str` writes back as
/// the same text.
pub proof fn lemma_date_round_trip(y: nat, m: nat, d: nat)
    requires
        1000 <= y <= 9999,
        m <= 12,
        d <= 31,
    ensures
        spec_date_to_str(spec_str_to_date(encode_utf8(date_text(y, m, d)))) == date_text(y, m, d),
{
    lemma_decimal(y);
    lemma_pad2(m);
    lemma_pad2(d);
    let yc = decimal_chars(y);
    let mc = pad2_chars(m);
    let dc = pad2_chars(d);
    let t = date_text(y, m, d);
    let (yb, mb, db) = (ascii_bytes(yc), ascii_bytes(mc), ascii_bytes(dc));
    assert(is_ascii_chars(t)) by {
        assert forall|i: int| 0 <= i < t.len() implies '\0' <= #[trigger] t[i] <= '\u{7f}' by {
            if i < yc.len() {
                assert(t[i] == yc[i]);
            } else if i == yc.len() {
            } else if i < yc.len() + 1 + mc.len() {
                assert(t[i] == mc[i - yc.len() - 1]);
            } else if i == yc.len() + 1 + mc.len() {
            } else {
                assert(t[i] == dc[i - yc.len() - 2 - mc.len()]);
            }
        }
    }
    is_ascii_chars_encode_utf8(t);
    assert(encode_utf8(t) =~= yb.push(45u8) + mb.push(45u8) + db) by {
        assert forall|i: int| 0 <= i < t.len() implies encode_utf8(t)[i] == (yb.push(45u8) + mb.push(45u8) + db)[i] by {
            assert(t[i] as u8 == encode_utf8(t)[i]);
            if i < yc.len() {
                assert(t[i] == yc[i]);
            } else if i == yc.len() {
            } else if i < yc.len() + 1 + mc.len() {
                assert(t[i] == mc[i - yc.len() - 1]);
            } else if i == yc.len() + 1 + mc.len() {
            } else {
                assert(t[i] == dc[i - yc.len() - 2 - mc.len()]);
            }
        }
    }
    assert(forall|i: int| 0 <= i < yb.len() ==> yb[i] != 45u8) by {
        assert forall|i: int| 0 <= i < yb.len() implies yb[i] != 45u8 by {
            assert(crate::utils::text::is_digit(yb[i]));
        }
    }
    assert(forall|i: int| 0 <= i < mb.len() ==> mb[i] != 45u8) by {
        assert forall|i: int| 0 <= i < mb.len() implies mb[i] != 45u8 by {
            assert(crate::utils::text::is_digit(mb[i]));
        }
    }
    assert(forall|i: int| 0 <= i < db.len() ==> db[i] != 45u8) by {
        assert forall|i: int| 0 <= i < db.len() implies db[i] != 45u8 by {
            assert(crate::utils::text::is_digit(db[i]));
        }
    }
    lemma_split_three(yb, mb, db);
    let parts = split_bytes(encode_utf8(t), 45u8);
    assert(parts == seq![yb, mb, db]);
    assert(yb.len() == 0 || yb[0] != 43u8) by {
        if yb.len() > 0 {
            assert(crate::utils::text::is_digit(yb[0]));
        }
    }
    assert(mb[0] != 43u8) by {
        assert(crate::utils::text::is_digit(mb[0]));
    }
    assert(db[0] != 43u8) by {
        assert(crate::utils::text::is_digit(db[0]));
    }
    assert(parse_u64_dec(yb) == Some(y as u64));
    assert(parse_u64_dec(mb) == Some(m as u64));
    assert(parse_u64_dec(db) == Some(d as u64));
    let date = spec_str_to_date(encode_utf8(t));
    assert(date == (y * 512 + m * 32 + d) as u64);
    lemma_unpack(y as u64, m as u64, d as u64);
}

} // verus!
