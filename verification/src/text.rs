//! Text helpers for the canonical key form and for file names: decimal and
//! hexadecimal rendering, decimal parsing, and lossy UTF-8 decoding.
use vstd::prelude::*;
use vstd::string::StringExecFns;
use vstd::string::StrSliceExecFns;
use crate::RdbError;

verus! {

// ---------------------------------------------------------------------------
// Lossy UTF-8 decoding (the one outside call of the text layer).
// ---------------------------------------------------------------------------

/// The character sequence that lossy UTF-8 decoding yields for `bytes`:
/// its decoding, with each invalid sequence replaced.
pub uninterp spec fn lossy_of(bytes: Seq<u8>) -> Seq<char>;

/// Relies on `String::from_utf8_lossy`: the result is a function of the input
/// bytes alone, and valid UTF-8 input decodes to exactly its own characters,
/// with no replacement.
#[verifier::external_body]
pub fn utf8_lossy(v: &Vec<u8>) -> (r: String)
    ensures
        r@ == lossy_of(v@),
        vstd::utf8::valid_utf8(v@) ==> r@ == vstd::utf8::decode_utf8(v@),
{
    String::from_utf8_lossy(v).into_owned()
}

// ---------------------------------------------------------------------------
// Decimal rendering.
// ---------------------------------------------------------------------------

/// The decimal digit character for `d`.
pub open spec fn dec_digit_char(d: int) -> char
    recommends
        0 <= d <= 9,
{
    if d == 0 {
        '0'
    } else if d == 1 {
        '1'
    } else if d == 2 {
        '2'
    } else if d == 3 {
        '3'
    } else if d == 4 {
        '4'
    } else if d == 5 {
        '5'
    } else if d == 6 {
        '6'
    } else if d == 7 {
        '7'
    } else if d == 8 {
        '8'
    } else {
        '9'
    }
}

/// The decimal rendering of `n`, most significant digit first.
pub open spec fn dec_chars(n: nat) -> Seq<char>
    decreases n,
{
    if n < 10 {
        seq![dec_digit_char(n as int)]
    } else {
        dec_chars(n / 10).push(dec_digit_char((n % 10) as int))
    }
}

/// The value `u` reread as a 32-bit two's-complement integer.
pub open spec fn to_signed32(u: u32) -> int {
    if u < 0x80000000 {
        u as int
    } else {
        u - 0x100000000
    }
}

/// The decimal rendering of `v`, with a leading minus sign when negative.
pub open spec fn int_chars(v: int) -> Seq<char>
    recommends
        -0x80000000 <= v < 0x80000000,
{
    if v < 0 {
        seq!['-'] + dec_chars((-v) as nat)
    } else {
        dec_chars(v as nat)
    }
}

/// Append the digit character for `d`.
fn append_dec_digit(s: &mut String, d: u32)
    requires
        d <= 9,
    ensures
        final(s)@ == old(s)@.push(dec_digit_char(d as int)),
{
    proof {
        reveal_strlit("0");
        reveal_strlit("1");
        reveal_strlit("2");
        reveal_strlit("3");
        reveal_strlit("4");
        reveal_strlit("5");
        reveal_strlit("6");
        reveal_strlit("7");
        reveal_strlit("8");
        reveal_strlit("9");
    }
    if d == 0 {
        s.append("0");
    } else if d == 1 {
        s.append("1");
    } else if d == 2 {
        s.append("2");
    } else if d == 3 {
        s.append("3");
    } else if d == 4 {
        s.append("4");
    } else if d == 5 {
        s.append("5");
    } else if d == 6 {
        s.append("6");
    } else if d == 7 {
        s.append("7");
    } else if d == 8 {
        s.append("8");
    } else {
        s.append("9");
    }
    assert(final(s)@ =~= old(s)@.push(dec_digit_char(d as int)));
}

/// Append the decimal rendering of `n`.
fn append_dec_u32(s: &mut String, n: u32)
    ensures
        final(s)@ == old(s)@ + dec_chars(n as nat),
    decreases n,
{
    if n < 10 {
        append_dec_digit(s, n);
        assert(final(s)@ =~= old(s)@ + dec_chars(n as nat));
    } else {
        append_dec_u32(s, n / 10);
        append_dec_digit(s, n % 10);
        assert(final(s)@ =~= old(s)@ + dec_chars(n as nat));
    }
}

/// The decimal rendering of `v` as a fresh string.
pub fn i32_decimal(v: i32) -> (r: String)
    ensures
        r@ == int_chars(v as int),
{
    let mut s = String::new();
    if v < 0 {
        proof {
            reveal_strlit("-");
        }
        s.append("-");
        let mag = (-(v as i64)) as u32;
        append_dec_u32(&mut s, mag);
        assert(s@ =~= int_chars(v as int));
    } else {
        append_dec_u32(&mut s, v as u32);
    }
    s
}

// ---------------------------------------------------------------------------
// Hexadecimal rendering.
// ---------------------------------------------------------------------------

/// The lower-case hexadecimal digit character for `d`.
pub open spec fn hex_digit_char(d: int) -> char
    recommends
        0 <= d <= 15,
{
    if d <= 9 {
        dec_digit_char(d)
    } else if d == 10 {
        'a'
    } else if d == 11 {
        'b'
    } else if d == 12 {
        'c'
    } else if d == 13 {
        'd'
    } else if d == 14 {
        'e'
    } else {
        'f'
    }
}

/// The hexadecimal rendering of `n` in exactly `width` digits, most
/// significant first, truncated to the low `width` digits.
pub open spec fn hex_chars(n: nat, width: nat) -> Seq<char>
    decreases width,
{
    if width == 0 {
        Seq::empty()
    } else {
        hex_chars(n / 16, (width - 1) as nat).push(hex_digit_char((n % 16) as int))
    }
}

/// Append the hexadecimal digit character for `d`.
fn append_hex_digit(s: &mut String, d: u32)
    requires
        d <= 15,
    ensures
        final(s)@ == old(s)@.push(hex_digit_char(d as int)),
{
    if d <= 9 {
        append_dec_digit(s, d);
    } else {
        proof {
            reveal_strlit("a");
            reveal_strlit("b");
            reveal_strlit("c");
            reveal_strlit("d");
            reveal_strlit("e");
            reveal_strlit("f");
        }
        if d == 10 {
            s.append("a");
        } else if d == 11 {
            s.append("b");
        } else if d == 12 {
            s.append("c");
        } else if d == 13 {
            s.append("d");
        } else if d == 14 {
            s.append("e");
        } else {
            s.append("f");
        }
        assert(final(s)@ =~= old(s)@.push(hex_digit_char(d as int)));
    }
}

/// Append the hexadecimal rendering of `n` in exactly `width` digits.
pub fn append_hex_u32(s: &mut String, n: u32, width: u32)
    ensures
        final(s)@ == old(s)@ + hex_chars(n as nat, width as nat),
    decreases width,
{
    if width == 0 {
        assert(final(s)@ =~= old(s)@ + hex_chars(n as nat, 0));
    } else {
        append_hex_u32(s, n / 16, width - 1);
        append_hex_digit(s, n % 16);
        assert(final(s)@ =~= old(s)@ + hex_chars(n as nat, width as nat));
    }
}

// ---------------------------------------------------------------------------
// Decimal parsing.
// ---------------------------------------------------------------------------

/// Whether `c` is a decimal digit character.
pub open spec fn is_dec_digit(c: char) -> bool {
    48 <= c as int <= 57
}

pub open spec fn all_dec_digits(s: Seq<char>) -> bool {
    forall|k: int| 0 <= k < s.len() ==> is_dec_digit(#[trigger] s[k])
}

/// The value of a run of decimal digit characters.
pub open spec fn digits_val(s: Seq<char>) -> int
    decreases s.len(),
{
    if s.len() == 0 {
        0
    } else {
        digits_val(s.drop_last()) * 10 + (s.last() as int - 48)
    }
}

/// The digit characters of `s` after an optional leading plus sign.
pub open spec fn after_sign(s: Seq<char>) -> Seq<char> {
    if s.len() > 0 && s[0] == '+' {
        s.drop_first()
    } else {
        s
    }
}

/// Whether `s` is a decimal rendering of a 32-bit unsigned integer: an
/// optional plus sign, then one or more digits, with a value in range.
pub open spec fn parse_u32_ok(s: Seq<char>) -> bool {
    let d = after_sign(s);
    d.len() > 0 && all_dec_digits(d) && digits_val(d) <= u32::MAX
}

pub proof fn lemma_digits_val_nonneg(s: Seq<char>)
    requires
        all_dec_digits(s),
    ensures
        digits_val(s) >= 0,
    decreases s.len(),
{
    if s.len() > 0 {
        assert(all_dec_digits(s.drop_last())) by {
            assert(forall|k: int| 0 <= k < s.len() - 1 ==> s.drop_last()[k] == s[k]);
        }
        lemma_digits_val_nonneg(s.drop_last());
    }
}

pub proof fn lemma_digits_val_prefix(s: Seq<char>, m: int)
    requires
        all_dec_digits(s),
        0 <= m <= s.len(),
    ensures
        digits_val(s) >= digits_val(s.take(m)),
    decreases s.len() - m,
{
    if m < s.len() {
        assert(all_dec_digits(s.take(m))) by {
            assert(forall|k: int| 0 <= k < m ==> s.take(m)[k] == s[k]);
        }
        lemma_digits_val_nonneg(s.take(m));
        assert(s.take(m + 1).drop_last() =~= s.take(m));
        assert(s.take(m + 1).last() == s[m]);
        assert(digits_val(s.take(m + 1)) >= digits_val(s.take(m)));
        lemma_digits_val_prefix(s, m + 1);
    } else {
        assert(s.take(m) =~= s);
    }
}

/// Parse `s` as a decimal 32-bit unsigned integer; fails exactly on text that
/// is not an in-range decimal rendering.
pub fn parse_u32(s: &String) -> (r: Result<u32, RdbError>)
    ensures
        r is Ok <==> parse_u32_ok(s@),
        r matches Ok(v) ==> v == digits_val(after_sign(s@)),
        r matches Err(e) ==> e == RdbError::ParseError,
{
    let len = s.as_str().unicode_len();
    let mut i: usize = 0;
    if len > 0 {
        let c0 = s.as_str().get_char(0);
        if c0 as u32 == 43 {
            assert(c0 == '+');
            i = 1;
        } else {
            assert(c0 != '+');
        }
    }
    let ghost d = after_sign(s@);
    assert(d =~= s@.subrange(i as int, len as int));
    if i >= len {
        return Err(RdbError::ParseError);
    }
    let start = i;
    let mut acc: u64 = 0;
    while i < len
        invariant
            start <= i <= len,
            len == s@.len(),
            d == after_sign(s@),
            d == s@.subrange(start as int, len as int),
            d.len() > 0,
            all_dec_digits(d.take((i - start) as int)),
            acc == digits_val(d.take((i - start) as int)),
            acc <= u32::MAX,
        decreases len - i,
    {
        let c = s.as_str().get_char(i);
        let cv = c as u32;
        if !(48 <= cv && cv <= 57) {
            assert(!is_dec_digit(d[i - start]));
            return Err(RdbError::ParseError);
        }
        acc = acc * 10 + (cv - 48) as u64;
        proof {
            assert(d.take((i - start) + 1).drop_last() =~= d.take((i - start) as int));
            assert(d.take((i - start) + 1).last() == d[i - start]);
        }
        if acc > 0xffff_ffff {
            proof {
                if all_dec_digits(d) {
                    lemma_digits_val_prefix(d, (i - start) + 1);
                }
            }
            return Err(RdbError::ParseError);
        }
        i = i + 1;
    }
    assert(d.take((i - start) as int) =~= d);
    Ok(acc as u32)
}

} // verus!
