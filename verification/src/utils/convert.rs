use vstd::prelude::*;
use vstd::bytes::*;
use vstd::slice::{slice_subrange, slice_to_vec};
use vstd::string::StringSliceAdditionalSpecFns;
use crate::utils::text::{split_bytes, split_at_byte, lemma_split_bytes_nonempty, parse_u64_dec, parse_u64, parse_i64_dec, parse_i64, decimal_chars, int_chars, pad2_chars, push_char, push_decimal, push_int, push_pad2};

verus! {

/// The little-endian bytes of a 64-bit word.
pub fn u64_to_vec_u8(data: u64) -> (r: Vec<u8>)
    ensures
        r@ == spec_u64_to_le_bytes(data),
{
    u64_to_le_bytes(data)
}

/// A copy of a byte string.
pub fn vec_u8_to_string(data: &Vec<u8>) -> (r: Vec<u8>)
    ensures
        r@ == data@,
{
    slice_to_vec(data.as_slice())
}

/// A byte string, as a byte vector.
pub fn string_to_vec_u8(data: &Vec<u8>) -> (r: Vec<u8>)
    ensures
        r@ == data@,
{
    slice_to_vec(data.as_slice())
}

/// The concatenated little-endian encodings of a sequence of 16-bit words.
pub open spec fn u16_seq_to_bytes(s: Seq<u16>) -> Seq<u8>
    decreases s.len(),
{
    if s.len() == 0 {
        Seq::empty()
    } else {
        u16_seq_to_bytes(s.drop_last()) + spec_u16_to_le_bytes(s.last())
    }
}

/// The 16-bit words whose little-endian encodings make up `b`, read from the start.
pub open spec fn bytes_to_u16_seq(b: Seq<u8>) -> Seq<u16>
    decreases b.len(),
{
    if b.len() < 2 {
        Seq::empty()
    } else {
        let k = ((b.len() - 2) / 2 * 2) as int;
        bytes_to_u16_seq(b.subrange(0, k)).push(spec_u16_from_le_bytes(b.subrange(k, k + 2)))
    }
}

pub proof fn lemma_u16_seq_to_bytes_len(s: Seq<u16>)
    ensures
        u16_seq_to_bytes(s).len() == s.len() * 2,
    decreases s.len(),
{
    lemma_auto_spec_u16_to_from_le_bytes();
    if s.len() > 0 {
        lemma_u16_seq_to_bytes_len(s.drop_last());
    }
}

pub proof fn lemma_bytes_to_u16_seq_push(b: Seq<u8>, w: Seq<u8>)
    requires
        b.len() % 2 == 0,
        w.len() == 2,
    ensures
        bytes_to_u16_seq(b + w) == bytes_to_u16_seq(b).push(spec_u16_from_le_bytes(w)),
{
    let c = b + w;
    let k = ((c.len() - 2) / 2 * 2) as int;
    assert(k == b.len()) by (nonlinear_arith)
        requires k == (c.len() - 2) / 2 * 2, c.len() == b.len() + 2, b.len() % 2 == 0;
    assert(c.subrange(0, k) =~= b);
    assert(c.subrange(k, k + 2) =~= w);
}

/// Decoding an encoded word sequence gives the sequence back.
pub proof fn lemma_u16_roundtrip(s: Seq<u16>)
    ensures
        bytes_to_u16_seq(u16_seq_to_bytes(s)) == s,
    decreases s.len(),
{
    lemma_auto_spec_u16_to_from_le_bytes();
    if s.len() > 0 {
        lemma_u16_roundtrip(s.drop_last());
        lemma_u16_seq_to_bytes_len(s.drop_last());
        lemma_bytes_to_u16_seq_push(u16_seq_to_bytes(s.drop_last()), spec_u16_to_le_bytes(s.last()));
        assert(s.drop_last().push(s.last()) =~= s);
    } else {
        assert(s =~= Seq::<u16>::empty());
    }
}

/// Encoding the words decoded from a whole number of words gives the bytes back.
pub proof fn lemma_bytes_u16_roundtrip(b: Seq<u8>)
    requires
        b.len() % 2 == 0,
    ensures
        u16_seq_to_bytes(bytes_to_u16_seq(b)) == b,
    decreases b.len(),
{
    lemma_auto_spec_u16_to_from_le_bytes();
    if b.len() >= 2 {
        let k = ((b.len() - 2) / 2 * 2) as int;
        assert(k == b.len() - 2) by (nonlinear_arith)
            requires k == (b.len() - 2) / 2 * 2, b.len() % 2 == 0, b.len() >= 2;
        lemma_bytes_u16_roundtrip(b.subrange(0, k));
        let s = bytes_to_u16_seq(b);
        assert(s.drop_last() == bytes_to_u16_seq(b.subrange(0, k)));
        assert(b.subrange(0, k) + b.subrange(k, k + 2) =~= b);
    } else {
        assert(b =~= Seq::<u8>::empty());
    }
}

/// The concatenated little-endian encodings of `data`.
pub fn vec_u16_to_string(data: &Vec<u16>) -> (r: Vec<u8>)
    ensures
        r@ == u16_seq_to_bytes(data@),
{
    let mut r: Vec<u8> = Vec::new();
    let mut i: usize = 0;
    while i < data.len()
        invariant
            i <= data@.len(),
            r@ == u16_seq_to_bytes(data@.take(i as int)),
        decreases data@.len() - i,
    {
        let mut b = u16_to_le_bytes(data[i]);
        r.append(&mut b);
        assert(data@.take(i as int + 1).drop_last() =~= data@.take(i as int));
        i = i + 1;
    }
    assert(data@.take(data@.len() as int) =~= data@);
    r
}

/// The 16-bit words whose little-endian encodings make up `data`.
pub fn string_to_vec_u16(data: &Vec<u8>) -> (r: Vec<u16>)
    requires
        data@.len() % 2 == 0,
    ensures
        r@ == bytes_to_u16_seq(data@),
{
    let mut r: Vec<u16> = Vec::new();
    let mut i: usize = 0;
    let len = data.len();
    while i < len
        invariant
            len == data@.len(),
            len % 2 == 0,
            i <= len,
            i % 2 == 0,
            r@ == bytes_to_u16_seq(data@.take(i as int)),
        decreases len - i,
    {
        let w = slice_subrange(data.as_slice(), i, i + 2);
        let x = u16_from_le_bytes(w);
        proof {
            lemma_bytes_to_u16_seq_push(data@.take(i as int), w@);
            assert(data@.take(i as int) + w@ =~= data@.take(i + 2));
        }
        r.push(x);
        i = i + 2;
    }
    assert(data@.take(len as int) =~= data@);
    r
}

/// The concatenated little-endian encodings of a sequence of 32-bit words.
pub open spec fn u32_seq_to_bytes(s: Seq<u32>) -> Seq<u8>
    decreases s.len(),
{
    if s.len() == 0 {
        Seq::empty()
    } else {
        u32_seq_to_bytes(s.drop_last()) + spec_u32_to_le_bytes(s.last())
    }
}

/// The 32-bit words whose little-endian encodings make up `b`, read from the start.
pub open spec fn bytes_to_u32_seq(b: Seq<u8>) -> Seq<u32>
    decreases b.len(),
{
    if b.len() < 4 {
        Seq::empty()
    } else {
        let k = ((b.len() - 4) / 4 * 4) as int;
        bytes_to_u32_seq(b.subrange(0, k)).push(spec_u32_from_le_bytes(b.subrange(k, k + 4)))
    }
}

pub proof fn lemma_u32_seq_to_bytes_len(s: Seq<u32>)
    ensures
        u32_seq_to_bytes(s).len() == s.len() * 4,
    decreases s.len(),
{
    lemma_auto_spec_u32_to_from_le_bytes();
    if s.len() > 0 {
        lemma_u32_seq_to_bytes_len(s.drop_last());
    }
}

pub proof fn lemma_bytes_to_u32_seq_push(b: Seq<u8>, w: Seq<u8>)
    requires
        b.len() % 4 == 0,
        w.len() == 4,
    ensures
        bytes_to_u32_seq(b + w) == bytes_to_u32_seq(b).push(spec_u32_from_le_bytes(w)),
{
    let c = b + w;
    let k = ((c.len() - 4) / 4 * 4) as int;
    assert(k == b.len()) by (nonlinear_arith)
        requires k == (c.len() - 4) / 4 * 4, c.len() == b.len() + 4, b.len() % 4 == 0;
    assert(c.subrange(0, k) =~= b);
    assert(c.subrange(k, k + 4) =~= w);
}

/// Decoding an encoded word sequence gives the sequence back.
pub proof fn lemma_u32_roundtrip(s: Seq<u32>)
    ensures
        bytes_to_u32_seq(u32_seq_to_bytes(s)) == s,
    decreases s.len(),
{
    lemma_auto_spec_u32_to_from_le_bytes();
    if s.len() > 0 {
        lemma_u32_roundtrip(s.drop_last());
        lemma_u32_seq_to_bytes_len(s.drop_last());
        lemma_bytes_to_u32_seq_push(u32_seq_to_bytes(s.drop_last()), spec_u32_to_le_bytes(s.last()));
        assert(s.drop_last().push(s.last()) =~= s);
    } else {
        assert(s =~= Seq::<u32>::empty());
    }
}

/// Encoding the words decoded from a whole number of words gives the bytes back.
pub proof fn lemma_bytes_u32_roundtrip(b: Seq<u8>)
    requires
        b.len() % 4 == 0,
    ensures
        u32_seq_to_bytes(bytes_to_u32_seq(b)) == b,
    decreases b.len(),
{
    lemma_auto_spec_u32_to_from_le_bytes();
    if b.len() >= 4 {
        let k = ((b.len() - 4) / 4 * 4) as int;
        assert(k == b.len() - 4) by (nonlinear_arith)
            requires k == (b.len() - 4) / 4 * 4, b.len() % 4 == 0, b.len() >= 4;
        lemma_bytes_u32_roundtrip(b.subrange(0, k));
        let s = bytes_to_u32_seq(b);
        assert(s.drop_last() == bytes_to_u32_seq(b.subrange(0, k)));
        assert(b.subrange(0, k) + b.subrange(k, k + 4) =~= b);
    } else {
        assert(b =~= Seq::<u8>::empty());
    }
}

/// The concatenated little-endian encodings of `data`.
pub fn vec_u32_to_string(data: &Vec<u32>) -> (r: Vec<u8>)
    ensures
        r@ == u32_seq_to_bytes(data@),
{
    let mut r: Vec<u8> = Vec::new();
    let mut i: usize = 0;
    while i < data.len()
        invariant
            i <= data@.len(),
            r@ == u32_seq_to_bytes(data@.take(i as int)),
        decreases data@.len() - i,
    {
        let mut b = u32_to_le_bytes(data[i]);
        r.append(&mut b);
        assert(data@.take(i as int + 1).drop_last() =~= data@.take(i as int));
        i = i + 1;
    }
    assert(data@.take(data@.len() as int) =~= data@);
    r
}

/// The 32-bit words whose little-endian encodings make up `data`.
pub fn string_to_vec_u32(data: &Vec<u8>) -> (r: Vec<u32>)
    requires
        data@.len() % 4 == 0,
    ensures
        r@ == bytes_to_u32_seq(data@),
{
    let mut r: Vec<u32> = Vec::new();
    let mut i: usize = 0;
    let len = data.len();
    while i < len
        invariant
            len == data@.len(),
            len % 4 == 0,
            i <= len,
            i % 4 == 0,
            r@ == bytes_to_u32_seq(data@.take(i as int)),
        decreases len - i,
    {
        let w = slice_subrange(data.as_slice(), i, i + 4);
        let x = u32_from_le_bytes(w);
        proof {
            lemma_bytes_to_u32_seq_push(data@.take(i as int), w@);
            assert(data@.take(i as int) + w@ =~= data@.take(i + 4));
        }
        r.push(x);
        i = i + 4;
    }
    assert(data@.take(len as int) =~= data@);
    r
}

/// The concatenated little-endian encodings of a sequence of 64-bit words.
pub open spec fn u64_seq_to_bytes(s: Seq<u64>) -> Seq<u8>
    decreases s.len(),
{
    if s.len() == 0 {
        Seq::empty()
    } else {
        u64_seq_to_bytes(s.drop_last()) + spec_u64_to_le_bytes(s.last())
    }
}

/// The 64-bit words whose little-endian encodings make up `b`, read from the start.
pub open spec fn bytes_to_u64_seq(b: Seq<u8>) -> Seq<u64>
    decreases b.len(),
{
    if b.len() < 8 {
        Seq::empty()
    } else {
        let k = ((b.len() - 8) / 8 * 8) as int;
        bytes_to_u64_seq(b.subrange(0, k)).push(spec_u64_from_le_bytes(b.subrange(k, k + 8)))
    }
}

pub proof fn lemma_u64_seq_to_bytes_len(s: Seq<u64>)
    ensures
        u64_seq_to_bytes(s).len() == s.len() * 8,
    decreases s.len(),
{
    lemma_auto_spec_u64_to_from_le_bytes();
    if s.len() > 0 {
        lemma_u64_seq_to_bytes_len(s.drop_last());
    }
}

pub proof fn lemma_bytes_to_u64_seq_push(b: Seq<u8>, w: Seq<u8>)
    requires
        b.len() % 8 == 0,
        w.len() == 8,
    ensures
        bytes_to_u64_seq(b + w) == bytes_to_u64_seq(b).push(spec_u64_from_le_bytes(w)),
{
    let c = b + w;
    let k = ((c.len() - 8) / 8 * 8) as int;
    assert(k == b.len()) by (nonlinear_arith)
        requires k == (c.len() - 8) / 8 * 8, c.len() == b.len() + 8, b.len() % 8 == 0;
    assert(c.subrange(0, k) =~= b);
    assert(c.subrange(k, k + 8) =~= w);
}

/// Decoding an encoded word sequence gives the sequence back.
pub proof fn lemma_u64_roundtrip(s: Seq<u64>)
    ensures
        bytes_to_u64_seq(u64_seq_to_bytes(s)) == s,
    decreases s.len(),
{
    lemma_auto_spec_u64_to_from_le_bytes();
    if s.len() > 0 {
        lemma_u64_roundtrip(s.drop_last());
        lemma_u64_seq_to_bytes_len(s.drop_last());
        lemma_bytes_to_u64_seq_push(u64_seq_to_bytes(s.drop_last()), spec_u64_to_le_bytes(s.last()));
        assert(s.drop_last().push(s.last()) =~= s);
    } else {
        assert(s =~= Seq::<u64>::empty());
    }
}

/// Encoding the words decoded from a whole number of words gives the bytes back.
pub proof fn lemma_bytes_u64_roundtrip(b: Seq<u8>)
    requires
        b.len() % 8 == 0,
    ensures
        u64_seq_to_bytes(bytes_to_u64_seq(b)) == b,
    decreases b.len(),
{
    lemma_auto_spec_u64_to_from_le_bytes();
    if b.len() >= 8 {
        let k = ((b.len() - 8) / 8 * 8) as int;
        assert(k == b.len() - 8) by (nonlinear_arith)
            requires k == (b.len() - 8) / 8 * 8, b.len() % 8 == 0, b.len() >= 8;
        lemma_bytes_u64_roundtrip(b.subrange(0, k));
        let s = bytes_to_u64_seq(b);
        assert(s.drop_last() == bytes_to_u64_seq(b.subrange(0, k)));
        assert(b.subrange(0, k) + b.subrange(k, k + 8) =~= b);
    } else {
        assert(b =~= Seq::<u8>::empty());
    }
}

/// The concatenated little-endian encodings of `data`.
pub fn vec_u64_to_string(data: &Vec<u64>) -> (r: Vec<u8>)
    ensures
        r@ == u64_seq_to_bytes(data@),
{
    let mut r: Vec<u8> = Vec::new();
    let mut i: usize = 0;
    while i < data.len()
        invariant
            i <= data@.len(),
            r@ == u64_seq_to_bytes(data@.take(i as int)),
        decreases data@.len() - i,
    {
        let mut b = u64_to_le_bytes(data[i]);
        r.append(&mut b);
        assert(data@.take(i as int + 1).drop_last() =~= data@.take(i as int));
        i = i + 1;
    }
    assert(data@.take(data@.len() as int) =~= data@);
    r
}

/// The 64-bit words whose little-endian encodings make up `data`.
pub fn string_to_vec_u64(data: &Vec<u8>) -> (r: Vec<u64>)
    requires
        data@.len() % 8 == 0,
    ensures
        r@ == bytes_to_u64_seq(data@),
{
    let mut r: Vec<u64> = Vec::new();
    let mut i: usize = 0;
    let len = data.len();
    while i < len
        invariant
            len == data@.len(),
            len % 8 == 0,
            i <= len,
            i % 8 == 0,
            r@ == bytes_to_u64_seq(data@.take(i as int)),
        decreases len - i,
    {
        let w = slice_subrange(data.as_slice(), i, i + 8);
        let x = u64_from_le_bytes(w);
        proof {
            lemma_bytes_to_u64_seq_push(data@.take(i as int), w@);
            assert(data@.take(i as int) + w@ =~= data@.take(i + 8));
        }
        r.push(x);
        i = i + 8;
    }
    assert(data@.take(len as int) =~= data@);
    r
}


/// The date that `s` (bytes) denotes as `year-month-day`, packed as `year << 9 | month << 5 | day`;
/// 0 when `s` is not three `-`-separated numbers or a part is out of range.
pub open spec fn spec_str_to_date(s: Seq<u8>) -> u64 {
    let parts = split_bytes(s, 45u8);
    if parts.len() != 3 {
        0
    } else {
        match (parse_u64_dec(parts[0]), parse_u64_dec(parts[1]), parse_u64_dec(parts[2])) {
            (Some(y), Some(m), Some(d)) => {
                if y < 1000 || y > 9999 || m > 12 || d > 31 {
                    0
                } else {
                    (y * 512 + m * 32 + d) as u64
                }
            },
            _ => 0,
        }
    }
}

/// Packs a `year-month-day` date into a number.
pub fn str_to_date(s: &str) -> (r: u64)
    ensures
        r == spec_str_to_date(s.spec_bytes()),
{
    let parts = split_at_byte(s.as_bytes(), 45u8);
    proof { lemma_split_bytes_nonempty(s.spec_bytes(), 45u8); }
    if parts.len() != 3 {
        return 0;
    }
    let year = parse_u64(parts[0].as_slice());
    let month = parse_u64(parts[1].as_slice());
    let day = parse_u64(parts[2].as_slice());
    assert(parts@.map_values(|v: Vec<u8>| v@)[0] == parts@[0]@);
    assert(parts@.map_values(|v: Vec<u8>| v@)[1] == parts@[1]@);
    assert(parts@.map_values(|v: Vec<u8>| v@)[2] == parts@[2]@);
    match (year, month, day) {
        (Some(y), Some(m), Some(d)) => {
            if y < 1000 || y > 9999 || m > 12 || d > 31 {
                0
            } else {
                let r = (y << 9) | (m << 5) | d;
                assert(r == y * 512 + m * 32 + d) by (bit_vector)
                    requires
                        r == (y << 9) | (m << 5) | d,
                        y <= 9999,
                        m <= 12,
                        d <= 31;
                r
            }
        },
        _ => 0,
    }
}

/// `year-mm-dd` for a packed date.
pub open spec fn spec_date_to_str(date: u64) -> Seq<char> {
    decimal_chars((date >> 9u64) as nat) + seq!['-'] + pad2_chars(((date >> 5u64) & 15) as nat) + seq!['-']
        + pad2_chars((date & 31) as nat)
}

/// Renders a packed date as `year-mm-dd`.
pub fn date_to_str(date: u64) -> (r: String)
    ensures
        r@ == spec_date_to_str(date),
{
    let y = date >> 9;
    let m = (date >> 5) & 15;
    let d = date & 31;
    assert(m < 16 && d < 32) by (bit_vector)
        requires m == (date >> 5) & 15, d == date & 31;
    let mut r = String::new();
    push_decimal(&mut r, y);
    push_char(&mut r, '-');
    push_pad2(&mut r, m);
    push_char(&mut r, '-');
    push_pad2(&mut r, d);
    assert(r@ =~= spec_date_to_str(date));
    r
}

/// `n` copies of the digit `0`.
pub open spec fn zeros(n: nat) -> Seq<u8> {
    Seq::new(n, |i: int| 48u8)
}

/// The digit string that `str_to_numeric` reads: the integer part, the decimal part and
/// enough zeros to fill `precision - 1` decimals; `None` when `s` is not `int.dec` with at
/// most `precision - 1` decimals.
pub open spec fn numeric_text(s: Seq<u8>, precision: u8) -> Option<Seq<u8>> {
    let parts = split_bytes(s, 46u8);
    if parts.len() != 2 {
        None
    } else if parts[1].len() > precision - 1 {
        None
    } else {
        Some(parts[0] + parts[1] + zeros((precision - 1 - parts[1].len()) as nat))
    }
}

/// Whether `str_to_numeric(s, precision)` can read its digit string.
pub open spec fn numeric_readable(s: Seq<u8>, precision: u8) -> bool {
    numeric_text(s, precision) matches Some(t) ==> parse_i64_dec(t) is Some
}

/// The fixed-point value `str_to_numeric` reads.
pub open spec fn spec_str_to_numeric(s: Seq<u8>, precision: u8) -> i64 {
    match numeric_text(s, precision) {
        None => 0,
        Some(t) => parse_i64_dec(t).unwrap(),
    }
}

/// Reads `int.dec` as a fixed-point number with `precision - 1` decimals; 0 when the text has
/// another shape or too many decimals.
pub fn str_to_numeric(s: &str, precision: u8) -> (r: i64)
    requires
        precision > 0,
        numeric_readable(s.spec_bytes(), precision),
    ensures
        r == spec_str_to_numeric(s.spec_bytes(), precision),
{
    let precision = precision - 1;
    let parts = split_at_byte(s.as_bytes(), 46u8);
    if parts.len() != 2 {
        return 0;
    }
    assert(parts@.map_values(|v: Vec<u8>| v@)[0] == parts@[0]@);
    assert(parts@.map_values(|v: Vec<u8>| v@)[1] == parts@[1]@);
    let integer = &parts[0];
    let decimal = &parts[1];
    if decimal.len() > precision as usize {
        return 0;
    }
    let mut text: Vec<u8> = Vec::new();
    let mut i: usize = 0;
    while i < integer.len()
        invariant
            i <= integer@.len(),
            text@ == integer@.take(i as int),
        decreases integer@.len() - i,
    {
        text.push(integer[i]);
        i = i + 1;
        assert(text@ =~= integer@.take(i as int));
    }
    let mut j: usize = 0;
    while j < decimal.len()
        invariant
            i == integer@.len(),
            j <= decimal@.len(),
            text@ == integer@ + decimal@.take(j as int),
        decreases decimal@.len() - j,
    {
        text.push(decimal[j]);
        j = j + 1;
        assert(text@ =~= integer@ + decimal@.take(j as int));
    }
    let pad = precision as usize - decimal.len();
    let mut k: usize = 0;
    while k < pad
        invariant
            k <= pad,
            text@ == integer@ + decimal@ + zeros(k as nat),
        decreases pad - k,
    {
        text.push(48u8);
        k = k + 1;
        assert(text@ =~= integer@ + decimal@ + zeros(k as nat));
    }
    assert(integer@.take(integer@.len() as int) =~= integer@);
    assert(decimal@.take(decimal@.len() as int) =~= decimal@);
    match parse_i64(text.as_slice()) {
        Some(v) => v,
        None => 0,
    }
}

/// 10 to the power `k`.
pub open spec fn pow10(k: nat) -> nat
    decreases k,
{
    if k == 0 { 1 } else { 10 * pow10((k - 1) as nat) }
}

/// The integer part of `num` with `precision - 1` decimals (rounded toward zero).
pub open spec fn numeric_integer(num: i64, precision: u8) -> int {
    let k = (precision - 1) as nat;
    if num < 0 { 0 - ((0 - num) as nat / pow10(k)) } else { (num as nat / pow10(k)) as int }
}

/// The decimal part of `num` with `precision - 1` decimals (with the sign of `num`).
pub open spec fn numeric_decimal(num: i64, precision: u8) -> int {
    let k = (precision - 1) as nat;
    if num < 0 { 0 - ((0 - num) as nat % pow10(k)) } else { (num as nat % pow10(k)) as int }
}

/// How `numeric_to_str` prints: `integer.decimal`, or the integer part alone without decimals.
pub open spec fn spec_numeric_to_str(num: i64, precision: u8) -> Seq<char> {
    if precision == 1 {
        int_chars(numeric_integer(num, precision))
    } else {
        int_chars(numeric_integer(num, precision)) + seq!['.'] + int_chars(numeric_decimal(num, precision))
    }
}

/// Prints a fixed-point number with `precision - 1` decimals.
pub fn numeric_to_str(num: i64, precision: u8) -> (r: String)
    requires
        1 <= precision <= 19,
    ensures
        r@ == spec_numeric_to_str(num, precision),
{
    let k = precision - 1;
    let mut exp10: u64 = 1;
    let mut i: u8 = 0;
    while i < k
        invariant
            i <= k <= 18,
            exp10 == pow10(i as nat),
            1 <= exp10 <= 1_000_000_000_000_000_000u64,
        decreases k - i,
    {
        proof {
            assert(pow10(i as nat + 1) == 10 * pow10(i as nat));
            lemma_pow10_bound(i as nat + 1, 18);
            lemma_pow10_18();
        }
        exp10 = exp10 * 10;
        i = i + 1;
    }
    let neg = num < 0;
    let mag: u64 = if num == i64::MIN { 0x8000_0000_0000_0000u64 } else if neg { (0i64 - num) as u64 } else { num as u64 };
    let q = mag / exp10;
    let rem = mag % exp10;
    assert(q <= mag);
    assert(rem < exp10);
    let integer: i64 = if neg {
        if q == 0x8000_0000_0000_0000u64 { i64::MIN } else { 0i64 - (q as i64) }
    } else {
        q as i64
    };
    let decimal: i64 = if neg { 0i64 - (rem as i64) } else { rem as i64 };
    assert(integer == numeric_integer(num, precision));
    assert(decimal == numeric_decimal(num, precision));
    let mut r = String::new();
    push_int(&mut r, integer);
    if k != 0 {
        push_char(&mut r, '.');
        push_int(&mut r, decimal);
    }
    assert(r@ =~= spec_numeric_to_str(num, precision));
    r
}

pub proof fn lemma_pow10_bound(i: nat, n: nat)
    requires
        i <= n,
    ensures
        pow10(i) <= pow10(n),
        pow10(i) >= 1,
    decreases n,
{
    if n > 0 {
        if i < n {
            lemma_pow10_bound(i, (n - 1) as nat);
        } else {
            lemma_pow10_bound((i - 1) as nat, (n - 1) as nat);
        }
    }
}

pub proof fn lemma_pow10_18()
    ensures
        pow10(18) == 1_000_000_000_000_000_000,
{
    reveal_with_fuel(pow10, 19);
}


/// The encodings of `data` followed by zero bytes up to `len` words.
pub fn vec_u64_to_string_len(data: &Vec<u64>, len: usize) -> (r: Vec<u8>)
    requires
        data@.len() <= len,
        len <= usize::MAX / 8,
    ensures
        r@ == u64_seq_to_bytes(data@) + Seq::new(((len - data@.len()) * 8) as nat, |i: int| 0u8),
{
    let mut r = vec_u64_to_string(data);
    let pad = (len - data.len()) * 8;
    let mut i: usize = 0;
    while i < pad
        invariant
            i <= pad,
            r@ == u64_seq_to_bytes(data@) + Seq::new(i as nat, |k: int| 0u8),
        decreases pad - i,
    {
        r.push(0u8);
        i = i + 1;
        assert(r@ =~= u64_seq_to_bytes(data@) + Seq::new(i as nat, |k: int| 0u8));
    }
    r
}

/// The words of `data` up to (not including) the first zero word.
pub fn string_to_vec_u64_with_break(data: &Vec<u8>) -> (r: Vec<u64>)
    requires
        data@.len() % 8 == 0,
    ensures
        r@.len() <= bytes_to_u64_seq(data@).len(),
        r@ == bytes_to_u64_seq(data@).take(r@.len() as int),
        forall|i: int| 0 <= i < r@.len() ==> r@[i] != 0,
        r@.len() < bytes_to_u64_seq(data@).len() ==> bytes_to_u64_seq(data@)[r@.len() as int] == 0,
{
    let words = string_to_vec_u64(data);
    let mut r: Vec<u64> = Vec::new();
    let mut i: usize = 0;
    while i < words.len()
        invariant
            i <= words@.len(),
            words@ == bytes_to_u64_seq(data@),
            r@ == words@.take(i as int),
            forall|j: int| 0 <= j < r@.len() ==> r@[j] != 0,
        decreases words@.len() - i,
    {
        let val = words[i];
        if val == 0 {
            return r;
        }
        r.push(val);
        i = i + 1;
        assert(r@ =~= words@.take(i as int));
    }
    r
}
} // verus!
