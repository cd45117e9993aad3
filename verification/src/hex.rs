//! Lenient hexadecimal codec.
//!
//! Encoding renders each byte as two lowercase hex digits, high nibble first.
//! Decoding ignores every character that is not a hex digit and silently
//! drops a trailing unpaired nibble; it never fails.

use vstd::prelude::*;
use vstd::string::StringSliceAdditionalSpecFns;

verus! {

// ---------------------------------------------------------------------------
// Specification model
// ---------------------------------------------------------------------------

/// ASCII code of the lowercase hex digit for a nibble value.
pub open spec fn hex_digit(n: int) -> u8
    recommends
        0 <= n < 16,
{
    if n < 10 {
        (48 + n) as u8
    } else {
        (87 + n) as u8
    }
}

/// True of the ASCII codes of hex digits: `0-9`, `A-F`, `a-f`.
pub open spec fn is_hex_byte(c: u8) -> bool {
    (48 <= c && c <= 57) || (65 <= c && c <= 70) || (97 <= c && c <= 102)
}

/// Nibble value denoted by a hex digit's ASCII code.
pub open spec fn hex_value(c: u8) -> u8
    recommends
        is_hex_byte(c),
{
    if c <= 57 {
        (c - 48) as u8
    } else if c <= 70 {
        (c - 55) as u8
    } else {
        (c - 87) as u8
    }
}

/// The hex encoding of a byte sequence: two lowercase digits per byte,
/// high nibble first.
pub open spec fn hex_bytes(b: Seq<u8>) -> Seq<u8>
    decreases b.len(),
{
    if b.len() == 0 {
        Seq::empty()
    } else {
        hex_bytes(b.drop_last()) + seq![
            hex_digit(b.last() as int / 16),
            hex_digit(b.last() as int % 16),
        ]
    }
}

/// A byte sequence read as characters, one character per byte.
pub open spec fn chars_of(b: Seq<u8>) -> Seq<char> {
    Seq::new(b.len(), |i: int| b[i] as char)
}

/// The subsequence of hex digit codes of a text's bytes, in order.
pub open spec fn hex_digits_of(s: Seq<u8>) -> Seq<u8>
    decreases s.len(),
{
    if s.len() == 0 {
        Seq::empty()
    } else if is_hex_byte(s.last()) {
        hex_digits_of(s.drop_last()).push(s.last())
    } else {
        hex_digits_of(s.drop_last())
    }
}

/// Pairs consecutive hex digit codes into bytes, high nibble first;
/// a trailing unpaired digit is dropped.
pub open spec fn nibbles_to_bytes(d: Seq<u8>) -> Seq<u8>
    decreases d.len(),
{
    if d.len() < 2 {
        Seq::empty()
    } else {
        seq![(hex_value(d[0]) * 16 + hex_value(d[1])) as u8] + nibbles_to_bytes(d.skip(2))
    }
}

/// Lenient hex decoding of arbitrary text bytes.
pub open spec fn hex_decode(s: Seq<u8>) -> Seq<u8> {
    nibbles_to_bytes(hex_digits_of(s))
}

/// Fold one decoded byte into a 64-bit accumulator: shift the accumulator
/// left one byte, discarding overflow, and or the new byte in.
pub open spec fn fold_byte(n: u64, b: u8) -> u64 {
    (n << 8) | (b as u64)
}

/// The 64-bit value obtained by folding every byte of a sequence in order,
/// starting from zero; only the last eight bytes influence the result.
pub open spec fn fold_bytes(bs: Seq<u8>) -> u64
    decreases bs.len(),
{
    if bs.len() == 0 {
        0u64
    } else {
        fold_byte(fold_bytes(bs.drop_last()), bs.last())
    }
}

/// Lenient hex parse of arbitrary text bytes to a 64-bit value.
pub open spec fn hex_to_u64(s: Seq<u8>) -> u64 {
    fold_bytes(hex_decode(s))
}

/// Nibble `j` of a 64-bit value, counting from the most significant
/// (`j == 0`) to the least significant (`j == 15`).
pub open spec fn nibble_of(v: u64, j: int) -> u64
    recommends
        0 <= j < 16,
{
    (v >> (((15 - j) * 4) as u64)) & 0xf
}

/// All 16 hex digits of a 64-bit value, most significant nibble first.
pub open spec fn u64_hex_digits(v: u64) -> Seq<u8> {
    Seq::new(16, |j: int| hex_digit(nibble_of(v, j) as int))
}

/// A digit sequence with its leading `0` digits removed; all of a sequence
/// of nothing but `0` digits.
pub open spec fn strip_leading_zero_digits(d: Seq<u8>) -> Seq<u8>
    decreases d.len(),
{
    if d.len() == 0 {
        d
    } else if d[0] == 48 {
        strip_leading_zero_digits(d.skip(1))
    } else {
        d
    }
}

/// The hex rendering of a 64-bit value: its 16 digits, without the leading
/// zeroes when `skip_leading_zeroes` is set (so zero renders as nothing).
pub open spec fn u64_hex(v: u64, skip_leading_zeroes: bool) -> Seq<u8> {
    if skip_leading_zeroes {
        strip_leading_zero_digits(u64_hex_digits(v))
    } else {
        u64_hex_digits(v)
    }
}

// ---------------------------------------------------------------------------
// Trusted specifications for std string building
// ---------------------------------------------------------------------------

/// Relies on `String::with_capacity`: it returns a new, empty string.
pub assume_specification[ String::with_capacity ](capacity: usize) -> (s: String)
    ensures
        s@ == Seq::<char>::empty(),
;

/// Relies on `String::push`: it appends the given character to the end of
/// the string.
pub assume_specification[ String::push ](s: &mut String, ch: char)
    ensures
        final(s)@ == old(s)@.push(ch),
;

// ---------------------------------------------------------------------------
// Lemmas about the model
// ---------------------------------------------------------------------------

/// Length law: the hex encoding has exactly two digits per input byte.
pub proof fn lemma_hex_bytes_len(b: Seq<u8>)
    ensures
        hex_bytes(b).len() == b.len() * 2,
    decreases b.len(),
{
    if b.len() > 0 {
        lemma_hex_bytes_len(b.drop_last());
    }
}

/// Every byte of a hex encoding is the ASCII code of a hex digit.
proof fn lemma_hex_bytes_are_digits(b: Seq<u8>)
    ensures
        forall|i: int| 0 <= i < hex_bytes(b).len() ==> is_hex_byte(#[trigger] hex_bytes(b)[i]),
    decreases b.len(),
{
    if b.len() > 0 {
        lemma_hex_bytes_are_digits(b.drop_last());
        let x = hex_bytes(b.drop_last());
        let hi = hex_digit(b.last() as int / 16);
        let lo = hex_digit(b.last() as int % 16);
        assert(hex_bytes(b) == x + seq![hi, lo]);
        assert forall|i: int| 0 <= i < hex_bytes(b).len() implies is_hex_byte(
            #[trigger] hex_bytes(b)[i],
        ) by {
            if i < x.len() {
                assert(hex_bytes(b)[i] == x[i]);
            } else {
                assert(hex_bytes(b)[i] == seq![hi, lo][i - x.len()]);
            }
        }
    }
}

/// Pairing up digits gives half as many bytes, rounding down.
proof fn lemma_nibbles_to_bytes_len(d: Seq<u8>)
    ensures
        nibbles_to_bytes(d).len() == d.len() / 2,
    decreases d.len(),
{
    if d.len() >= 2 {
        lemma_nibbles_to_bytes_len(d.skip(2));
    }
}

/// Appending one digit to an even-length digit sequence changes nothing yet;
/// appending it to an odd-length one completes one more byte.
proof fn lemma_nibbles_to_bytes_push(d: Seq<u8>, c: u8)
    ensures
        d.len() % 2 == 0 ==> nibbles_to_bytes(d.push(c)) == nibbles_to_bytes(d),
        d.len() % 2 == 1 ==> nibbles_to_bytes(d.push(c)) == nibbles_to_bytes(d).push(
            (hex_value(d.last()) * 16 + hex_value(c)) as u8,
        ),
    decreases d.len(),
{
    if d.len() == 0 {
        assert(nibbles_to_bytes(d.push(c)) =~= nibbles_to_bytes(d));
    } else if d.len() == 1 {
        let b = (hex_value(d[0]) * 16 + hex_value(c)) as u8;
        assert(d.push(c).skip(2) =~= Seq::<u8>::empty());
        assert(nibbles_to_bytes(Seq::<u8>::empty()) =~= Seq::<u8>::empty());
        assert(nibbles_to_bytes(d.push(c)) =~= nibbles_to_bytes(d).push(b));
    } else {
        lemma_nibbles_to_bytes_push(d.skip(2), c);
        assert(d.push(c).skip(2) =~= d.skip(2).push(c));
        if d.len() % 2 == 0 {
            assert(nibbles_to_bytes(d.push(c)) =~= nibbles_to_bytes(d));
        } else {
            let b = (hex_value(d.last()) * 16 + hex_value(c)) as u8;
            assert(d.skip(2).last() == d.last());
            assert(nibbles_to_bytes(d.push(c)) =~= nibbles_to_bytes(d).push(b));
        }
    }
}

/// Filtering a hex encoding for hex digits keeps all of it.
proof fn lemma_hex_digits_of_hex_bytes(b: Seq<u8>)
    ensures
        hex_digits_of(hex_bytes(b)) == hex_bytes(b),
    decreases b.len(),
{
    if b.len() == 0 {
        assert(hex_digits_of(hex_bytes(b)) =~= hex_bytes(b));
    } else {
        lemma_hex_digits_of_hex_bytes(b.drop_last());
        let x = hex_bytes(b.drop_last());
        let hi = hex_digit(b.last() as int / 16);
        let lo = hex_digit(b.last() as int % 16);
        assert(hex_bytes(b) =~= x.push(hi).push(lo));
        assert(x.push(hi).push(lo).drop_last() =~= x.push(hi));
        assert(x.push(hi).drop_last() =~= x);
        assert(is_hex_byte(hi) && is_hex_byte(lo));
        assert(hex_digits_of(x.push(hi)) == hex_digits_of(x).push(hi));
        assert(hex_digits_of(x.push(hi).push(lo)) == hex_digits_of(x.push(hi)).push(lo));
        assert(hex_digits_of(hex_bytes(b)) =~= hex_bytes(b));
    }
}

/// Pairing up the digits of a hex encoding gives the encoded bytes back.
proof fn lemma_nibbles_of_hex_bytes(b: Seq<u8>)
    ensures
        nibbles_to_bytes(hex_bytes(b)) == b,
    decreases b.len(),
{
    if b.len() == 0 {
        assert(nibbles_to_bytes(hex_bytes(b)) =~= b);
    } else {
        lemma_nibbles_of_hex_bytes(b.drop_last());
        let x = hex_bytes(b.drop_last());
        let q = b.last();
        let hi = hex_digit(q as int / 16);
        let lo = hex_digit(q as int % 16);
        lemma_hex_bytes_len(b.drop_last());
        assert(hex_bytes(b) =~= x.push(hi).push(lo));
        lemma_nibbles_to_bytes_push(x, hi);
        lemma_nibbles_to_bytes_push(x.push(hi), lo);
        assert(hex_value(hi) == q as int / 16 && hex_value(lo) == q as int % 16);
        assert((hex_value(hi) * 16 + hex_value(lo)) as u8 == q);
        assert(nibbles_to_bytes(hex_bytes(b)) =~= b.drop_last().push(q));
        assert(b.drop_last().push(q) =~= b);
    }
}

/// Round trip: decoding the hex encoding of any byte sequence gives the
/// sequence back.
pub proof fn lemma_hex_round_trip(b: Seq<u8>)
    ensures
        hex_decode(hex_bytes(b)) == b,
{
    lemma_hex_digits_of_hex_bytes(b);
    lemma_nibbles_of_hex_bytes(b);
}

/// Round trip through text: the UTF-8 bytes of the encoded string decode
/// back to the original byte sequence.
pub proof fn lemma_hex_string_round_trip(b: Seq<u8>)
    ensures
        hex_decode(vstd::utf8::encode_utf8(chars_of(hex_bytes(b)))) == b,
{
    let hx = hex_bytes(b);
    let cs = chars_of(hx);
    lemma_hex_bytes_are_digits(b);
    assert(vstd::utf8::is_ascii_chars(cs));
    vstd::utf8::is_ascii_chars_encode_utf8(cs);
    assert(vstd::utf8::encode_utf8(cs) =~= hx);
    lemma_hex_round_trip(b);
}

/// Leniency: decoding depends only on the hex digits of the input, so text
/// with the same hex digits in the same order decodes to the same bytes.
pub proof fn lemma_hex_decode_ignores_non_hex(s1: Seq<u8>, s2: Seq<u8>)
    requires
        hex_digits_of(s1) == hex_digits_of(s2),
    ensures
        hex_decode(s1) == hex_decode(s2),
{
}

/// Odd-digit drop: the decoded length is half the number of hex digits of
/// the input, rounding down; a trailing unpaired digit yields no byte.
pub proof fn lemma_hex_decode_len(s: Seq<u8>)
    ensures
        hex_decode(s).len() == hex_digits_of(s).len() / 2,
{
    lemma_nibbles_to_bytes_len(hex_digits_of(s));
}

/// Appending one digit to a digit sequence strips to: nothing if everything
/// so far stripped away and the digit is `0`; the digit alone if everything
/// so far stripped away; otherwise the stripped sequence plus the digit.
proof fn lemma_strip_push(d: Seq<u8>, c: u8)
    ensures
        strip_leading_zero_digits(d).len() == 0 && c == 48 ==> strip_leading_zero_digits(
            d.push(c),
        ) =~= Seq::<u8>::empty(),
        strip_leading_zero_digits(d).len() == 0 && c != 48 ==> strip_leading_zero_digits(
            d.push(c),
        ) =~= seq![c],
        strip_leading_zero_digits(d).len() > 0 ==> strip_leading_zero_digits(d.push(c))
            =~= strip_leading_zero_digits(d).push(c),
    decreases d.len(),
{
    if d.len() == 0 {
        assert(d.push(c).skip(1) =~= Seq::<u8>::empty());
        assert(strip_leading_zero_digits(Seq::<u8>::empty()) =~= Seq::<u8>::empty());
    } else if d[0] == 48 {
        assert(d.push(c).skip(1) =~= d.skip(1).push(c));
        lemma_strip_push(d.skip(1), c);
    } else {
        assert(strip_leading_zero_digits(d) == d);
    }
}

// ---------------------------------------------------------------------------
// Executable digit helpers
// ---------------------------------------------------------------------------

/// The lowercase hex digit for a nibble value.
fn hex_digit_of(n: u8) -> (c: u8)
    requires
        n < 16,
    ensures
        c == hex_digit(n as int),
{
    if n < 10 {
        48 + n
    } else {
        87 + n
    }
}

/// The nibble value of a hex digit, or `None` for any other byte.
fn hex_nibble(c: u8) -> (r: Option<u8>)
    ensures
        r is Some <==> is_hex_byte(c),
        r is Some ==> r == Some(hex_value(c)),
{
    if 48 <= c && c <= 57 {
        Some(c - 48)
    } else if 65 <= c && c <= 70 {
        Some(c - 55)
    } else if 97 <= c && c <= 102 {
        Some(c - 87)
    } else {
        None
    }
}

// ---------------------------------------------------------------------------
// Encoding into a caller-provided buffer
// ---------------------------------------------------------------------------

/// Encode the bytes of `b` as hex digit codes into `dest` and return the
/// number of bytes written, always exactly twice the length of `b`.
/// The destination must have room for all of them; bytes past the written
/// prefix are left unchanged.
pub fn to_hex_bytes(b: &[u8], dest: &mut [u8]) -> (n: usize)
    requires
        old(dest)@.len() >= b@.len() * 2,
    ensures
        n == b@.len() * 2,
        final(dest)@.len() == old(dest)@.len(),
        final(dest)@.take(n as int) == hex_bytes(b@),
        final(dest)@.skip(n as int) == old(dest)@.skip(n as int),
{
    let mut j: usize = 0;
    for k in 0..b.len()
        invariant
            j == k * 2,
            b@.len() * 2 <= dest@.len(),
            dest@.len() == old(dest)@.len(),
            dest@.take(j as int) =~= hex_bytes(b@.take(k as int)),
            dest@.skip(j as int) =~= old(dest)@.skip(j as int),
    {
        let x = b[k];
        assert(x >> 4 < 16 && (x >> 4) as int == x as int / 16) by (bit_vector);
        assert(x & 0xf < 16 && (x & 0xf) as int == x as int % 16) by (bit_vector);
        let ghost prior = dest@;
        dest[j] = hex_digit_of(x >> 4);
        dest[j + 1] = hex_digit_of(x & 0xf);
        proof {
            assert(b@.take(k + 1).drop_last() =~= b@.take(k as int));
            assert(dest@.take(j as int + 2) =~= prior.take(j as int) + seq![
                hex_digit(x as int / 16),
                hex_digit(x as int % 16),
            ]);
            assert(dest@.skip(j as int + 2) =~= prior.skip(j as int).skip(2));
            assert(prior.skip(j as int).skip(2) =~= old(dest)@.skip(j as int + 2));
        }
        j = j + 2;
    }
    proof {
        assert(b@.take(b@.len() as int) =~= b@);
    }
    j
}

// ---------------------------------------------------------------------------
// Decoding
// ---------------------------------------------------------------------------

/// Decode a hex string, ignoring all non-hexadecimal characters; a trailing
/// unpaired hex digit is dropped. Never fails.
pub fn from_string(s: &str) -> (r: Vec<u8>)
    ensures
        r@ == hex_decode(s.spec_bytes()),
{
    let bytes = s.as_bytes();
    let mut b: Vec<u8> = Vec::with_capacity(bytes.len() / 2);
    let mut pending: u8 = 0;
    let mut have_high: bool = false;
    for i in 0..bytes.len()
        invariant
            bytes@ == s.spec_bytes(),
            b@ == nibbles_to_bytes(hex_digits_of(bytes@.take(i as int))),
            have_high == (hex_digits_of(bytes@.take(i as int)).len() % 2 == 1),
            have_high ==> pending == hex_value(hex_digits_of(bytes@.take(i as int)).last())
                && pending < 16,
    {
        let c = bytes[i];
        proof {
            assert(bytes@.take(i + 1).drop_last() =~= bytes@.take(i as int));
            lemma_nibbles_to_bytes_push(hex_digits_of(bytes@.take(i as int)), c);
        }
        if let Some(v) = hex_nibble(c) {
            if have_high {
                b.push(pending * 16 + v);
                have_high = false;
            } else {
                pending = v;
                have_high = true;
            }
        }
    }
    proof {
        assert(bytes@.take(bytes@.len() as int) =~= bytes@);
    }
    b
}

/// Parse a hex string to a 64-bit value, ignoring all non-hexadecimal
/// characters (a leading `0x` among them); a trailing unpaired hex digit is
/// dropped, and input beyond 16 hex digits shifts the high bytes out.
pub fn from_string_u64(s: &str) -> (n: u64)
    ensures
        n == hex_to_u64(s.spec_bytes()),
{
    let bytes = s.as_bytes();
    let mut n: u64 = 0;
    let mut pending: u8 = 0;
    let mut have_high: bool = false;
    for i in 0..bytes.len()
        invariant
            bytes@ == s.spec_bytes(),
            n == fold_bytes(nibbles_to_bytes(hex_digits_of(bytes@.take(i as int)))),
            have_high == (hex_digits_of(bytes@.take(i as int)).len() % 2 == 1),
            have_high ==> pending == hex_value(hex_digits_of(bytes@.take(i as int)).last())
                && pending < 16,
    {
        let c = bytes[i];
        proof {
            assert(bytes@.take(i + 1).drop_last() =~= bytes@.take(i as int));
            lemma_nibbles_to_bytes_push(hex_digits_of(bytes@.take(i as int)), c);
        }
        if let Some(v) = hex_nibble(c) {
            if have_high {
                let b = pending * 16 + v;
                proof {
                    let done = nibbles_to_bytes(hex_digits_of(bytes@.take(i + 1)));
                    assert(done.drop_last() =~= nibbles_to_bytes(
                        hex_digits_of(bytes@.take(i as int)),
                    ));
                }
                n = (n << 8) | (b as u64);
                have_high = false;
            } else {
                pending = v;
                have_high = true;
            }
        }
    }
    proof {
        assert(bytes@.take(bytes@.len() as int) =~= bytes@);
    }
    n
}

// ---------------------------------------------------------------------------
// 64-bit encoding
// ---------------------------------------------------------------------------

/// Encode an unsigned 64-bit value as hex digit codes, most significant
/// nibble first: all 16 digits, or, when `skip_leading_zeroes` is set, only
/// the digits from the first non-zero one on (none at all for zero).
pub fn to_vec_u64(i: u64, skip_leading_zeroes: bool) -> (r: Vec<u8>)
    ensures
        r@ == u64_hex(i, skip_leading_zeroes),
{
    let mut s: Vec<u8> = Vec::with_capacity(16);
    for j in 0..16usize
        invariant
            skip_leading_zeroes ==> s@ == strip_leading_zero_digits(
                u64_hex_digits(i).take(j as int),
            ),
            !skip_leading_zeroes ==> s@ == u64_hex_digits(i).take(j as int),
    {
        let sh: u64 = ((15 - j) * 4) as u64;
        let nib: u64 = (i >> sh) & 0xf;
        assert((i >> sh) & 0xf < 16) by (bit_vector);
        let d = hex_digit_of(nib as u8);
        proof {
            assert(sh == ((15 - (j as int)) * 4) as u64);
            assert(u64_hex_digits(i).take(j + 1) =~= u64_hex_digits(i).take(j as int).push(
                hex_digit(nibble_of(i, j as int) as int),
            ));
            lemma_strip_push(u64_hex_digits(i).take(j as int), d);
        }
        if nib != 0 || s.len() > 0 || !skip_leading_zeroes {
            s.push(d);
        }
    }
    proof {
        assert(u64_hex_digits(i).take(16) =~= u64_hex_digits(i));
    }
    s
}

// ---------------------------------------------------------------------------
// String building
// ---------------------------------------------------------------------------

/// Build a string from a sequence of byte codes, one character per byte.
fn string_of_bytes(v: &Vec<u8>) -> (r: String)
    ensures
        r@ == chars_of(v@),
{
    let mut s = String::with_capacity(v.len());
    for k in 0..v.len()
        invariant
            s@ == chars_of(v@.take(k as int)),
    {
        s.push(v[k] as char);
        proof {
            assert(chars_of(v@.take(k + 1)) =~= chars_of(v@.take(k as int)).push(
                v@[k as int] as char,
            ));
        }
    }
    proof {
        assert(v@.take(v@.len() as int) =~= v@);
    }
    s
}

/// Encode a byte slice to a hexadecimal string: two lowercase digits per
/// byte, most significant nibble first.
pub fn to_string(b: &[u8]) -> (r: String)
    requires
        b@.len() * 2 <= usize::MAX,
    ensures
        r@ == chars_of(hex_bytes(b@)),
        r@.len() == b@.len() * 2,
{
    let mut v: Vec<u8> = Vec::with_capacity(b.len() * 2);
    for k in 0..b.len()
        invariant
            v@ == hex_bytes(b@.take(k as int)),
    {
        let x = b[k];
        assert(x >> 4 < 16 && (x >> 4) as int == x as int / 16) by (bit_vector);
        assert(x & 0xf < 16 && (x & 0xf) as int == x as int % 16) by (bit_vector);
        let ghost prior = v@;
        v.push(hex_digit_of(x >> 4));
        v.push(hex_digit_of(x & 0xf));
        proof {
            assert(b@.take(k + 1).drop_last() =~= b@.take(k as int));
            assert(prior + seq![hex_digit(x as int / 16), hex_digit(x as int % 16)] =~= v@);
        }
    }
    proof {
        assert(b@.take(b@.len() as int) =~= b@);
        lemma_hex_bytes_len(b@);
    }
    string_of_bytes(&v)
}

/// Encode an unsigned 64-bit value as a hexadecimal string: all 16 digits,
/// or, when `skip_leading_zeroes` is set, only the digits from the first
/// non-zero one on (the empty string for zero).
pub fn to_string_u64(i: u64, skip_leading_zeroes: bool) -> (r: String)
    ensures
        r@ == chars_of(u64_hex(i, skip_leading_zeroes)),
{
    let v = to_vec_u64(i, skip_leading_zeroes);
    string_of_bytes(&v)
}

} // verus!
