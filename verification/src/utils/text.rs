use vstd::prelude::*;
use vstd::string::StrSliceExecFns;

verus! {

/// The pieces of `s` between occurrences of the byte `sep` (there is always at least one).
pub open spec fn split_bytes(s: Seq<u8>, sep: u8) -> Seq<Seq<u8>>
    decreases s.len(),
{
    if s.len() == 0 {
        seq![Seq::<u8>::empty()]
    } else {
        let prev = split_bytes(s.drop_last(), sep);
        if s.last() == sep {
            prev.push(Seq::<u8>::empty())
        } else {
            prev.update(prev.len() - 1, prev.last().push(s.last()))
        }
    }
}

pub proof fn lemma_split_bytes_nonempty(s: Seq<u8>, sep: u8)
    ensures
        split_bytes(s, sep).len() >= 1,
    decreases s.len(),
{
    if s.len() > 0 {
        lemma_split_bytes_nonempty(s.drop_last(), sep);
    }
}

/// Splits `s` at every occurrence of the byte `sep`.
pub fn split_at_byte(s: &[u8], sep: u8) -> (r: Vec<Vec<u8>>)
    ensures
        r@.map_values(|v: Vec<u8>| v@) == split_bytes(s@, sep),
{
    let mut done: Vec<Vec<u8>> = Vec::new();
    let mut cur: Vec<u8> = Vec::new();
    let mut i: usize = 0;
    while i < s.len()
        invariant
            i <= s@.len(),
            split_bytes(s@.take(i as int), sep) == done@.map_values(|v: Vec<u8>| v@).push(cur@),
        decreases s@.len() - i,
    {
        let b = s[i];
        assert(s@.take(i as int + 1).drop_last() =~= s@.take(i as int));
        if b == sep {
            let ghost before = done@.map_values(|v: Vec<u8>| v@);
            let finished = cur;
            done.push(finished);
            cur = Vec::new();
            assert(done@.map_values(|v: Vec<u8>| v@) =~= before.push(finished@));
        } else {
            let ghost before = done@.map_values(|v: Vec<u8>| v@);
            cur.push(b);
            assert(done@.map_values(|v: Vec<u8>| v@).push(cur@) =~= before.push(cur@));
        }
        i = i + 1;
    }
    assert(s@.take(s@.len() as int) =~= s@);
    let ghost before = done@.map_values(|v: Vec<u8>| v@);
    let last = cur;
    done.push(last);
    assert(done@.map_values(|v: Vec<u8>| v@) =~= before.push(last@));
    done
}

pub open spec fn is_digit(b: u8) -> bool {
    48 <= b <= 57
}

pub open spec fn all_digits(s: Seq<u8>) -> bool {
    forall|i: int| 0 <= i < s.len() ==> is_digit(#[trigger] s[i])
}

/// The value of a string of decimal digits.
pub open spec fn digits_value(s: Seq<u8>) -> nat
    decreases s.len(),
{
    if s.len() == 0 {
        0
    } else {
        digits_value(s.drop_last()) * 10 + (s.last() - 48) as nat
    }
}

/// `s` without one leading byte `c`, if it starts with one.
pub open spec fn strip_leading(s: Seq<u8>, c: u8) -> Seq<u8> {
    if s.len() > 0 && s[0] == c { s.subrange(1, s.len() as int) } else { s }
}

/// Base-10 reading of an unsigned 64-bit number, as `u64::from_str_radix(_, 10)` reads it:
/// an optional `+` followed by at least one digit, with no overflow.
pub open spec fn parse_u64_dec(s: Seq<u8>) -> Option<u64> {
    let t = strip_leading(s, 43u8);
    if t.len() > 0 && all_digits(t) && digits_value(t) <= u64::MAX {
        Some(digits_value(t) as u64)
    } else {
        None
    }
}

/// Base-10 reading of a signed 64-bit number, as `i64::from_str_radix(_, 10)` reads it:
/// an optional `+` or `-` followed by at least one digit, within range.
pub open spec fn parse_i64_dec(s: Seq<u8>) -> Option<i64> {
    if s.len() > 0 && s[0] == 45u8 {
        let t = s.subrange(1, s.len() as int);
        if t.len() > 0 && all_digits(t) && digits_value(t) <= 0x8000_0000_0000_0000 {
            Some((0 - digits_value(t)) as i64)
        } else {
            None
        }
    } else {
        let t = strip_leading(s, 43u8);
        if t.len() > 0 && all_digits(t) && digits_value(t) <= i64::MAX {
            Some(digits_value(t) as i64)
        } else {
            None
        }
    }
}

/// Reads a string of digits; `None` when a byte is not a digit or the value exceeds `u64::MAX`.
fn digits_to_u64(t: &[u8]) -> (r: Option<u64>)
    ensures
        r is Some <==> (all_digits(t@) && digits_value(t@) <= u64::MAX),
        r matches Some(v) ==> v == digits_value(t@),
{
    let mut v: u64 = 0;
    let mut i: usize = 0;
    while i < t.len()
        invariant
            i <= t@.len(),
            all_digits(t@.take(i as int)),
            v == digits_value(t@.take(i as int)),
        decreases t@.len() - i,
    {
        let b = t[i];
        assert(t@.take(i as int + 1).drop_last() =~= t@.take(i as int));
        if b < 48 || b > 57 {
            assert(!all_digits(t@)) by {
                assert(!is_digit(t@[i as int]));
            }
            return None;
        }
        let d = (b - 48) as u64;
        match v.checked_mul(10) {
            None => {
                proof { lemma_digits_value_prefix_le(t@, i as int + 1); }
                return None;
            },
            Some(v10) => {
                match v10.checked_add(d) {
                    None => {
                        proof { lemma_digits_value_prefix_le(t@, i as int + 1); }
                        return None;
                    },
                    Some(w) => {
                        v = w;
                    },
                }
            },
        }
        i = i + 1;
    }
    assert(t@.take(t@.len() as int) =~= t@);
    Some(v)
}

/// Digits never lower the value: a longer all-digit prefix has at least the value of a shorter one.
pub proof fn lemma_digits_value_prefix_le(t: Seq<u8>, k: int)
    requires
        0 <= k <= t.len(),
    ensures
        all_digits(t) ==> digits_value(t.take(k)) <= digits_value(t),
    decreases t.len() - k,
{
    if k == t.len() {
        assert(t.take(k) =~= t);
    } else if all_digits(t) {
        lemma_digits_value_prefix_le(t, k + 1);
        assert(t.take(k + 1).drop_last() =~= t.take(k));
        assert(is_digit(t[k]));
    }
}

/// Reads an unsigned decimal number as `u64::from_str_radix(_, 10)` does.
pub fn parse_u64(s: &[u8]) -> (r: Option<u64>)
    ensures
        r == parse_u64_dec(s@),
{
    let t = if s.len() > 0 && s[0] == 43u8 { slice_rest(s) } else { s };
    assert(t@ == strip_leading(s@, 43u8));
    if t.len() == 0 {
        return None;
    }
    digits_to_u64(t)
}

fn slice_rest(s: &[u8]) -> (r: &[u8])
    requires
        s@.len() > 0,
    ensures
        r@ == s@.subrange(1, s@.len() as int),
{
    vstd::slice::slice_subrange(s, 1, s.len())
}

/// Reads a signed decimal number as `i64::from_str_radix(_, 10)` does.
pub fn parse_i64(s: &[u8]) -> (r: Option<i64>)
    ensures
        r == parse_i64_dec(s@),
{
    if s.len() > 0 && s[0] == 45u8 {
        let t = slice_rest(s);
        if t.len() == 0 {
            return None;
        }
        match digits_to_u64(t) {
            None => None,
            Some(v) => {
                if v <= 0x8000_0000_0000_0000u64 {
                    if v == 0x8000_0000_0000_0000u64 {
                        Some(i64::MIN)
                    } else {
                        Some(0i64 - (v as i64))
                    }
                } else {
                    None
                }
            },
        }
    } else {
        let t = if s.len() > 0 && s[0] == 43u8 { slice_rest(s) } else { s };
        if t.len() == 0 {
            return None;
        }
        match digits_to_u64(t) {
            None => None,
            Some(v) => {
                if v <= 0x7fff_ffff_ffff_ffffu64 {
                    Some(v as i64)
                } else {
                    None
                }
            },
        }
    }
}

/// The character of a decimal digit.
pub open spec fn digit_char(d: nat) -> char {
    ((d + 48) as u8) as char
}

/// The decimal rendering of a natural number, without leading zeros.
pub open spec fn decimal_chars(n: nat) -> Seq<char>
    decreases n,
{
    if n < 10 {
        seq![digit_char(n)]
    } else {
        decimal_chars(n / 10).push(digit_char(n % 10))
    }
}

/// The decimal rendering of an integer, with a leading `-` when it is negative (as `{}` prints it).
pub open spec fn int_chars(i: int) -> Seq<char> {
    if i < 0 {
        seq!['-'] + decimal_chars((0 - i) as nat)
    } else {
        decimal_chars(i as nat)
    }
}

/// A number below 100 in at least two digits (as `{:02}` prints it).
pub open spec fn pad2_chars(n: nat) -> Seq<char> {
    if n < 10 {
        seq!['0', digit_char(n)]
    } else {
        decimal_chars(n)
    }
}

/// `String::push`: appends one character.
#[verifier::external_body]
pub(crate) fn push_char(s: &mut String, c: char)
    ensures
        final(s)@ == old(s)@.push(c),
{
    s.push(c);
}

/// Appends the decimal rendering of `n`.
pub fn push_decimal(s: &mut String, n: u64)
    ensures
        final(s)@ == old(s)@ + decimal_chars(n as nat),
    decreases n,
{
    if n >= 10 {
        push_decimal(s, n / 10);
    }
    let d = (n % 10) as u8;
    push_char(s, (d + 48u8) as char);
    assert(s@ =~= old(s)@ + decimal_chars(n as nat));
}

/// Appends the decimal rendering of `i`, signed.
pub fn push_int(s: &mut String, i: i64)
    ensures
        final(s)@ == old(s)@ + int_chars(i as int),
{
    if i < 0 {
        push_char(s, '-');
        let m: u64 = if i == i64::MIN { 0x8000_0000_0000_0000u64 } else { (0i64 - i) as u64 };
        push_decimal(s, m);
        assert(s@ =~= old(s)@ + int_chars(i as int));
    } else {
        push_decimal(s, i as u64);
    }
}

/// Appends `n` in at least two digits.
pub fn push_pad2(s: &mut String, n: u64)
    requires
        n < 100,
    ensures
        final(s)@ == old(s)@ + pad2_chars(n as nat),
{
    if n < 10 {
        push_char(s, '0');
        push_decimal(s, n);
        assert(s@ =~= old(s)@ + pad2_chars(n as nat));
    } else {
        push_decimal(s, n);
    }
}

/// Appends the characters of `t`.
pub(crate) fn push_str(s: &mut String, t: &str)
    ensures
        final(s)@ == old(s)@ + t@,
{
    let len = t.unicode_len();
    let mut i: usize = 0;
    while i < len
        invariant
            len == t@.len(),
            i <= len,
            s@ == old(s)@ + t@.take(i as int),
        decreases len - i,
    {
        let c = t.get_char(i);
        crate::utils::text::push_char(s, c);
        i = i + 1;
        assert(s@ =~= old(s)@ + t@.take(i as int));
    }
    assert(t@.take(len as int) =~= t@);
}

} // verus!
