//! Byte-string utilities: hexadecimal encoding and little-endian framing.
use vstd::prelude::*;
use vstd::string::StringSliceAdditionalSpecFns;
use vstd::utf8::{encode_utf8, is_ascii_chars, is_ascii_chars_encode_utf8};

verus! {

// ---------------------------------------------------------------------------
// Hexadecimal encoding
// ---------------------------------------------------------------------------

/// The lowercase hexadecimal digit for a nibble.
pub open spec fn nibble_char(n: u8) -> char {
    if n == 0 { '0' }
    else if n == 1 { '1' }
    else if n == 2 { '2' }
    else if n == 3 { '3' }
    else if n == 4 { '4' }
    else if n == 5 { '5' }
    else if n == 6 { '6' }
    else if n == 7 { '7' }
    else if n == 8 { '8' }
    else if n == 9 { '9' }
    else if n == 10 { 'a' }
    else if n == 11 { 'b' }
    else if n == 12 { 'c' }
    else if n == 13 { 'd' }
    else if n == 14 { 'e' }
    else { 'f' }
}

/// Two lowercase hexadecimal digits per byte, most significant nibble first.
pub open spec fn hex_digits(data: Seq<u8>) -> Seq<char>
    decreases data.len(),
{
    if data.len() == 0 {
        seq![]
    } else {
        hex_digits(data.drop_last()) + seq![
            nibble_char(data.last() / 16),
            nibble_char(data.last() % 16),
        ]
    }
}

/// The hexadecimal representation of a byte string: `"0x"` followed by its digits.
pub open spec fn hex_spec(data: Seq<u8>) -> Seq<char> {
    seq!['0', 'x'] + hex_digits(data)
}

/// The value of a hexadecimal digit byte, in either case.
pub open spec fn hex_value(b: u8) -> Option<u8> {
    if 48 <= b <= 57 {
        Some((b - 48) as u8)
    } else if 97 <= b <= 102 {
        Some((b - 87) as u8)
    } else if 65 <= b <= 70 {
        Some((b - 55) as u8)
    } else {
        None
    }
}

/// Decodes consecutive pairs of hexadecimal digits (an odd trailing digit is ignored).
pub open spec fn decode_hex_pairs(s: Seq<u8>) -> Option<Seq<u8>>
    decreases s.len(),
{
    if s.len() < 2 {
        Some(seq![])
    } else {
        let n = 2 * (s.len() / 2);
        match (decode_hex_pairs(s.take(n - 2)), hex_value(s[n - 2]), hex_value(s[n - 1])) {
            (Some(prefix), Some(high), Some(low)) => Some(prefix.push((16 * high + low) as u8)),
            _ => None,
        }
    }
}

/// Removes an optional `"0x"` or `"0X"` prefix.
pub open spec fn strip_hex_prefix(s: Seq<u8>) -> Seq<u8> {
    if s.len() >= 2 && s[0] == 48 && (s[1] == 120 || s[1] == 88) {
        s.skip(2)
    } else {
        s
    }
}

/// The bytes decoded from a hexadecimal representation, or `None` when it is malformed.
pub open spec fn unhex_spec(s: Seq<u8>) -> Option<Seq<u8>> {
    if s.len() % 2 != 0 {
        None
    } else {
        decode_hex_pairs(strip_hex_prefix(s))
    }
}

/// Calls `String::push`, which appends one character to a string.
#[verifier::external_body]
pub(crate) fn string_push(s: &mut String, c: char)
    ensures
        final(s)@ == old(s)@.push(c),
{
    s.push(c)
}

fn nibble_to_char(n: u8) -> (c: char)
    requires
        n < 16,
    ensures
        c == nibble_char(n),
{
    match n {
        0 => '0',
        1 => '1',
        2 => '2',
        3 => '3',
        4 => '4',
        5 => '5',
        6 => '6',
        7 => '7',
        8 => '8',
        9 => '9',
        10 => 'a',
        11 => 'b',
        12 => 'c',
        13 => 'd',
        14 => 'e',
        _ => 'f',
    }
}

/// Encodes a byte string to its hexadecimal representation.
///
/// The representation begins with `"0x"` followed by decimal digits and lowercase `'a'` to `'f'`,
/// two per byte, most significant nibble first.
pub fn hex(data: &[u8]) -> (s: String)
    ensures
        s@ == hex_spec(data@),
{
    let mut s = String::new();
    string_push(&mut s, '0');
    string_push(&mut s, 'x');
    let mut i: usize = 0;
    while i < data.len()
        invariant
            i <= data@.len(),
            s@ == hex_spec(data@.take(i as int)),
        decreases data@.len() - i,
    {
        let byte = data[i];
        string_push(&mut s, nibble_to_char(byte / 16));
        string_push(&mut s, nibble_to_char(byte % 16));
        proof {
            assert(data@.take(i + 1).drop_last() =~= data@.take(i as int));
            assert(data@.take(i + 1).last() == byte);
        }
        i = i + 1;
    }
    proof {
        assert(data@.take(data@.len() as int) =~= data@);
    }
    s
}

fn hex_digit_value(b: u8) -> (r: Option<u8>)
    ensures
        r == hex_value(b),
{
    if 48 <= b && b <= 57 {
        Some(b - 48)
    } else if 97 <= b && b <= 102 {
        Some(b - 87)
    } else if 65 <= b && b <= 70 {
        Some(b - 55)
    } else {
        None
    }
}

proof fn lemma_decode_hex_pairs_step(s: Seq<u8>, k: int)
    requires
        0 <= k,
        2 * k + 2 <= s.len(),
    ensures
        decode_hex_pairs(s.take(2 * k + 2)) == (match (
            decode_hex_pairs(s.take(2 * k)),
            hex_value(s[2 * k]),
            hex_value(s[2 * k + 1]),
        ) {
            (Some(prefix), Some(high), Some(low)) => Some(prefix.push((16 * high + low) as u8)),
            _ => None,
        }),
{
    let t = s.take(2 * k + 2);
    assert(t.len() == 2 * k + 2);
    assert(2 * (t.len() / 2) == 2 * k + 2);
    assert(t.take(2 * k) =~= s.take(2 * k));
}

/// Decodes the hexadecimal representation of a byte string.
///
/// `hex` may begin with an optional `"0x"` or `"0X"` prefix and must have even length.
/// Aside from the prefix it must consist only of decimal digits and `'a'` to `'f'` in either
/// case, each byte encoded most significant nibble first.
#[verifier::spinoff_prover]
pub fn unhex(hex: &str) -> (r: Result<Vec<u8>, String>)
    ensures
        match r {
            Ok(data) => unhex_spec(hex.spec_bytes()) == Some(data@),
            Err(_) => unhex_spec(hex.spec_bytes()) is None,
        },
{
    let bytes = hex.as_bytes();
    if bytes.len() % 2 != 0 {
        return Err("hex.len() % 2 != 0".to_owned());
    }
    let start: usize = if bytes.len() >= 2 && bytes[0] == 48 && (bytes[1] == 120 || bytes[1] == 88) {
        2
    } else {
        0
    };
    let ghost digits = strip_hex_prefix(bytes@);
    assert(digits =~= bytes@.subrange(start as int, bytes@.len() as int));
    let count = (bytes.len() - start) / 2;
    let mut data: Vec<u8> = Vec::new();
    let mut k: usize = 0;
    let len = bytes.len();
    while k < count
        invariant
            len == bytes@.len(),
            start <= bytes@.len(),
            start == 0 || start == 2,
            bytes@.len() % 2 == 0,
            start + 2 * count <= bytes@.len(),
            digits.len() == 2 * count,
            digits == strip_hex_prefix(bytes@),
            bytes@ == hex.spec_bytes(),
            digits == bytes@.subrange(start as int, bytes@.len() as int),
            count == (bytes@.len() - start) / 2,
            k <= count,
            decode_hex_pairs(digits.take(2 * k)) == Some(data@),
        decreases count - k,
    {
        assert(start + 2 * k + 2 <= start + 2 * count);
        assert(start + 2 * k + 1 < bytes@.len());
        let high = hex_digit_value(bytes[start + 2 * k]);
        let low = hex_digit_value(bytes[start + 2 * k + 1]);
        proof {
            lemma_decode_hex_pairs_step(digits, k as int);
        }
        match (high, low) {
            (Some(h), Some(l)) => {
                data.push(16 * h + l);
            },
            _ => {
                proof {
                    lemma_decode_hex_pairs_prefix_fails(digits, k as int + 1);
                    assert(unhex_spec(bytes@) is None);
                }
                return Err("invalid hexadecimal digit".to_owned());
            },
        }
        k = k + 1;
    }
    proof {
        assert(digits.len() % 2 == 0);
        assert(digits.take(2 * k as int) =~= digits);
    }
    Ok(data)
}

proof fn lemma_decode_hex_pairs_prefix_fails(s: Seq<u8>, k: int)
    requires
        0 <= k,
        2 * k <= s.len(),
        s.len() % 2 == 0,
        decode_hex_pairs(s.take(2 * k)) is None,
    ensures
        decode_hex_pairs(s) is None,
    decreases s.len() - 2 * k,
{
    if 2 * k == s.len() {
        assert(s.take(2 * k) =~= s);
    } else {
        lemma_decode_hex_pairs_step(s, k);
        lemma_decode_hex_pairs_prefix_fails(s, k + 1);
    }
}

/// The byte values of a sequence of ASCII characters.
pub open spec fn ascii_bytes(chars: Seq<char>) -> Seq<u8> {
    chars.map_values(|c: char| c as u8)
}

proof fn lemma_nibble_char(n: u8)
    requires
        n < 16,
    ensures
        (nibble_char(n) as u32) < 128,
        hex_value(nibble_char(n) as u8) == Some(n),
{
}

proof fn lemma_hex_digits_ascii(data: Seq<u8>)
    ensures
        hex_digits(data).len() == 2 * data.len(),
        is_ascii_chars(hex_digits(data)),
        decode_hex_pairs(ascii_bytes(hex_digits(data))) == Some(data),
    decreases data.len(),
{
    if data.len() > 0 {
        let prev = data.drop_last();
        lemma_hex_digits_ascii(prev);
        let hi = (data.last() / 16) as u8;
        let lo = (data.last() % 16) as u8;
        lemma_nibble_char(hi);
        lemma_nibble_char(lo);
        let digits = hex_digits(data);
        let bytes = ascii_bytes(digits);
        let n = 2 * data.len();
        assert(digits == hex_digits(prev) + seq![nibble_char(hi), nibble_char(lo)]);
        assert(bytes.take(n - 2) =~= ascii_bytes(hex_digits(prev)));
        assert(bytes[n - 2] == nibble_char(hi) as u8);
        assert(bytes[n - 1] == nibble_char(lo) as u8);
        assert(2 * (bytes.len() / 2) == n);
        assert((16 * hi + lo) as u8 == data.last());
        assert(prev.push(data.last()) =~= data);
        assert forall|i: int| 0 <= i < digits.len() implies (#[trigger] digits[i] as u32) < 128 by {
            if i < n - 2 {
                assert(digits[i] == hex_digits(prev)[i]);
            }
        }
    }
}

/// Decoding the hexadecimal representation of a byte string gives back that byte string.
pub proof fn lemma_unhex_of_hex(data: Seq<u8>)
    ensures
        unhex_spec(encode_utf8(hex_spec(data))) == Some(data),
{
    lemma_hex_digits_ascii(data);
    let chars = hex_spec(data);
    let digits = hex_digits(data);
    assert forall|i: int| 0 <= i < chars.len() implies (#[trigger] chars[i] as u32) < 128 by {
        if i >= 2 {
            assert(chars[i] == digits[i - 2]);
        }
    }
    assert(is_ascii_chars(chars));
    is_ascii_chars_encode_utf8(chars);
    let bytes = encode_utf8(chars);
    assert(bytes[0] == 48);
    assert(bytes[1] == 120);
    assert(strip_hex_prefix(bytes) =~= ascii_bytes(digits));
}

// ---------------------------------------------------------------------------
// Little-endian framing
// ---------------------------------------------------------------------------

/// The value of four little-endian bytes.
pub open spec fn le_u32_value(b: Seq<u8>) -> int {
    b[0] + 256 * b[1] + 65536 * b[2] + 16777216 * b[3]
}

/// The four little-endian bytes of a 32-bit value.
pub open spec fn le_u32_bytes(v: int) -> Seq<u8> {
    seq![
        (v % 256) as u8,
        ((v / 256) % 256) as u8,
        ((v / 65536) % 256) as u8,
        ((v / 16777216) % 256) as u8,
    ]
}

/// A byte string preceded by its length as four little-endian bytes.
pub open spec fn framed(b: Seq<u8>) -> Seq<u8> {
    le_u32_bytes(b.len() as int) + b
}

/// Reading back the four bytes that encode a 32-bit value gives that value.
pub proof fn lemma_le_u32_roundtrip(v: int)
    requires
        0 <= v <= u32::MAX,
    ensures
        le_u32_bytes(v).len() == 4,
        le_u32_value(le_u32_bytes(v)) == v,
{
    let b = le_u32_bytes(v);
    assert(b[0] == v % 256);
    assert(b[1] == (v / 256) % 256);
    assert(b[2] == (v / 65536) % 256);
    assert(b[3] == (v / 16777216) % 256);
    assert(v / 16777216 < 256);
    assert((v / 256) == 256 * (v / 65536) + (v / 256) % 256) by (nonlinear_arith)
        requires 0 <= v;
    assert((v / 65536) == 256 * (v / 16777216) + (v / 65536) % 256) by (nonlinear_arith)
        requires 0 <= v;
    assert(v == 256 * (v / 256) + v % 256) by (nonlinear_arith)
        requires 0 <= v;
}

/// Consumes a 32-bit little-endian length from the front of `data`.
pub fn read_u32_usize(data: &mut &[u8]) -> (r: Result<usize, String>)
    ensures
        old(data)@.len() < 4 <==> r is Err,
        r is Err ==> final(data)@ == old(data)@,
        r matches Ok(v) ==> v as int == le_u32_value(old(data)@) && v <= u32::MAX
            && final(data)@ == old(data)@.skip(4),
{
    if data.len() < 4 {
        return Err("data.len() < size_of::<u32>()".to_owned());
    }
    let value: u32 = data[0] as u32 + 256 * (data[1] as u32) + 65536 * (data[2] as u32)
        + 16777216 * (data[3] as u32);
    let (_, rest) = data.split_at(4);
    *data = rest;
    Ok(value as usize)
}

/// Appends `value` as four little-endian bytes; fails when it exceeds 32 bits.
pub fn write_u32_usize(data: &mut Vec<u8>, value: usize) -> (r: Result<(), String>)
    ensures
        r is Err <==> value > u32::MAX,
        r is Err ==> final(data)@ == old(data)@,
        r is Ok ==> final(data)@ == old(data)@ + le_u32_bytes(value as int),
{
    if value > 0xffff_ffff {
        return Err("value > u32::MAX".to_owned());
    }
    data.push((value % 256) as u8);
    data.push(((value / 256) % 256) as u8);
    data.push(((value / 65536) % 256) as u8);
    data.push(((value / 16777216) % 256) as u8);
    proof {
        assert(final(data)@ =~= old(data)@ + le_u32_bytes(value as int));
    }
    Ok(())
}

/// Consumes one byte from the front of `data`.
pub fn read_u8(data: &mut &[u8]) -> (r: Result<u8, String>)
    ensures
        old(data)@.len() == 0 <==> r is Err,
        r is Err ==> final(data)@ == old(data)@,
        r matches Ok(b) ==> b == old(data)@[0] && final(data)@ == old(data)@.drop_first(),
{
    if data.len() == 0 {
        return Err("data.is_empty()".to_owned());
    }
    let byte = data[0];
    let (_, rest) = data.split_at(1);
    *data = rest;
    Ok(byte)
}

/// Appends one byte.
pub fn write_u8(data: &mut Vec<u8>, value: u8)
    ensures
        final(data)@ == old(data)@.push(value),
{
    data.push(value);
}

/// Consumes a boolean byte (`0` or `1`) from the front of `data`.
pub fn read_u8_bool(data: &mut &[u8]) -> (r: Result<bool, String>)
    ensures
        (old(data)@.len() == 0 || (old(data)@[0] != 0 && old(data)@[0] != 1)) <==> r is Err,
        r is Err ==> final(data)@ == old(data)@,
        r matches Ok(b) ==> b == (old(data)@[0] == 1) && final(data)@ == old(data)@.drop_first(),
{
    if data.len() == 0 {
        return Err("data.is_empty()".to_owned());
    }
    let byte = data[0];
    if byte != 0 && byte != 1 {
        return Err("byte != 0 && byte != 1".to_owned());
    }
    let (_, rest) = data.split_at(1);
    *data = rest;
    Ok(byte != 0)
}

/// Appends a boolean as one byte (`0` or `1`).
pub fn write_u8_bool(data: &mut Vec<u8>, value: bool)
    ensures
        final(data)@ == old(data)@.push(if value { 1u8 } else { 0u8 }),
{
    write_u8(data, if value { 1 } else { 0 });
}

// ---------------------------------------------------------------------------
// Framed sequences
// ---------------------------------------------------------------------------

/// Byte strings, each preceded by its length.
pub open spec fn concat_framed(items: Seq<Seq<u8>>) -> Seq<u8>
    decreases items.len(),
{
    if items.len() == 0 {
        seq![]
    } else {
        framed(items[0]) + concat_framed(items.drop_first())
    }
}

/// Byte strings, one after the other.
pub open spec fn concat_all(items: Seq<Seq<u8>>) -> Seq<u8>
    decreases items.len(),
{
    if items.len() == 0 {
        seq![]
    } else {
        items[0] + concat_all(items.drop_first())
    }
}

/// Appending one more byte string to a framed sequence appends its frame.
pub proof fn lemma_concat_framed_push(items: Seq<Seq<u8>>, x: Seq<u8>)
    ensures
        concat_framed(items.push(x)) == concat_framed(items) + framed(x),
    decreases items.len(),
{
    let ix = items.push(x);
    if items.len() == 0 {
        assert(ix.drop_first() =~= seq![]);
        assert(concat_framed(ix) == framed(x) + concat_framed(ix.drop_first()));
        assert(concat_framed(ix) =~= concat_framed(items) + framed(x));
    } else {
        assert(ix.drop_first() =~= items.drop_first().push(x));
        lemma_concat_framed_push(items.drop_first(), x);
        assert(concat_framed(ix) == framed(items[0]) + concat_framed(ix.drop_first()));
        assert(concat_framed(ix) =~= concat_framed(items) + framed(x));
    }
}

/// Appending one more byte string appends its bytes.
pub proof fn lemma_concat_all_push(items: Seq<Seq<u8>>, x: Seq<u8>)
    ensures
        concat_all(items.push(x)) == concat_all(items) + x,
    decreases items.len(),
{
    let ix = items.push(x);
    if items.len() == 0 {
        assert(ix.drop_first() =~= seq![]);
        assert(concat_all(ix) == x + concat_all(ix.drop_first()));
        assert(concat_all(ix) =~= concat_all(items) + x);
    } else {
        assert(ix.drop_first() =~= items.drop_first().push(x));
        lemma_concat_all_push(items.drop_first(), x);
        assert(concat_all(ix) == items[0] + concat_all(ix.drop_first()));
        assert(concat_all(ix) =~= concat_all(items) + x);
    }
}

/// The first framed byte string of `data` and the bytes after it, if `data` starts with one.
pub open spec fn parse_one(data: Seq<u8>) -> Option<(Seq<u8>, Seq<u8>)> {
    if data.len() < 4 {
        None
    } else {
        let size = le_u32_value(data);
        let rest = data.skip(4);
        if rest.len() < size {
            None
        } else {
            Some((rest.take(size), rest.skip(size)))
        }
    }
}

/// The first `count` framed byte strings of `data` and the bytes after them.
pub open spec fn parse_framed(data: Seq<u8>, count: nat) -> Option<(Seq<Seq<u8>>, Seq<u8>)>
    decreases count,
{
    if count == 0 {
        Some((seq![], data))
    } else {
        match parse_one(data) {
            None => None,
            Some((x, rest)) => match parse_framed(rest, (count - 1) as nat) {
                None => None,
                Some((xs, tail)) => Some((seq![x] + xs, tail)),
            },
        }
    }
}

/// Parsing a framed sequence gives back its byte strings and whatever follows.
#[verifier::spinoff_prover]
#[verifier::rlimit(30)]
pub proof fn lemma_parse_framed_roundtrip(items: Seq<Seq<u8>>, rest: Seq<u8>)
    requires
        forall|i: int| 0 <= i < items.len() ==> (#[trigger] items[i]).len() <= u32::MAX,
    ensures
        parse_framed(concat_framed(items) + rest, items.len()) == Some((items, rest)),
    decreases items.len(),
{
    if items.len() == 0 {
        assert(concat_framed(items) + rest =~= rest);
        assert(items =~= seq![]);
    } else {
        let x = items[0];
        let tail = items.drop_first();
        let data = concat_framed(items) + rest;
        lemma_le_u32_roundtrip(x.len() as int);
        let after = concat_framed(tail) + rest;
        assert(data =~= le_u32_bytes(x.len() as int) + (x + after));
        assert(data.skip(4) =~= x + after);
        assert((x + after).take(x.len() as int) =~= x);
        assert((x + after).skip(x.len() as int) =~= after);
        assert(le_u32_value(data) == le_u32_value(le_u32_bytes(x.len() as int)));
        assert forall|i: int| 0 <= i < tail.len() implies (#[trigger] tail[i]).len() <= u32::MAX by {
            assert(tail[i] == items[i + 1]);
        }
        lemma_parse_framed_roundtrip(tail, rest);
        assert(seq![x] + tail =~= items);
    }
}

/// Appends `item` preceded by its length; fails when the length exceeds 32 bits.
pub fn write_framed(data: &mut Vec<u8>, item: &[u8]) -> (r: Result<(), String>)
    ensures
        r is Err <==> item@.len() > u32::MAX,
        r is Err ==> final(data)@ == old(data)@,
        r is Ok ==> final(data)@ == old(data)@ + framed(item@),
{
    write_u32_usize(data, item.len())?;
    let ghost mid = data@;
    data.extend_from_slice(item);
    assert(data@ =~= old(data)@ + framed(item@));
    Ok(())
}

/// Consumes a byte string preceded by its length from the front of `data`.
pub fn read_framed<'a>(data: &mut &'a [u8]) -> (r: Result<&'a [u8], String>)
    ensures
        match r {
            Ok(item) => parse_one(old(data)@) == Some((item@, final(data)@)),
            Err(_) => parse_one(old(data)@) is None,
        },
{
    let size = read_u32_usize(data)?;
    if data.len() < size {
        return Err("data.len() < size".to_owned());
    }
    let (item, rest) = data.split_at(size);
    *data = rest;
    Ok(item)
}

// ---------------------------------------------------------------------------
// Little-endian integers
// ---------------------------------------------------------------------------

/// `256` to the power `n`.
pub open spec fn pow256(n: nat) -> nat
    decreases n,
{
    if n == 0 { 1 } else { 256 * pow256((n - 1) as nat) }
}

/// The value of a little-endian byte string.
pub open spec fn le_value(s: Seq<u8>) -> nat
    decreases s.len(),
{
    if s.len() == 0 { 0 } else { (s[0] + 256 * le_value(s.drop_first())) as nat }
}

/// The `n` low-order bytes of `v`, least significant first.
pub open spec fn le_bytes(v: nat, n: nat) -> Seq<u8>
    decreases n,
{
    if n == 0 { seq![] } else { seq![(v % 256) as u8] + le_bytes(v / 256, (n - 1) as nat) }
}

pub(crate) proof fn lemma_le_bytes_len(v: nat, n: nat)
    ensures
        le_bytes(v, n).len() == n,
    decreases n,
{
    if n > 0 {
        lemma_le_bytes_len(v / 256, (n - 1) as nat);
    }
}

pub(crate) proof fn lemma_le_value_bound(s: Seq<u8>)
    ensures
        le_value(s) < pow256(s.len()),
    decreases s.len(),
{
    if s.len() > 0 {
        lemma_le_value_bound(s.drop_first());
    }
}

pub(crate) proof fn lemma_le_bytes_of_value(s: Seq<u8>)
    ensures
        le_bytes(le_value(s), s.len()) == s,
    decreases s.len(),
{
    if s.len() > 0 {
        let rest = s.drop_first();
        lemma_le_bytes_of_value(rest);
        let v = le_value(s);
        assert(v % 256 == s[0]) by (nonlinear_arith)
            requires v == s[0] + 256 * le_value(rest), s[0] < 256;
        assert(v / 256 == le_value(rest)) by (nonlinear_arith)
            requires v == s[0] + 256 * le_value(rest), s[0] < 256;
        assert(le_bytes(v, s.len()) =~= seq![s[0]] + rest);
        assert(seq![s[0]] + rest =~= s);
    }
}

pub(crate) proof fn lemma_le_value_of_bytes(v: nat, n: nat)
    requires
        v < pow256(n),
    ensures
        le_value(le_bytes(v, n)) == v,
        le_bytes(v, n).len() == n,
    decreases n,
{
    lemma_le_bytes_len(v, n);
    if n > 0 {
        let b = le_bytes(v, n);
        assert(v / 256 < pow256((n - 1) as nat)) by (nonlinear_arith)
            requires v < 256 * pow256((n - 1) as nat);
        lemma_le_value_of_bytes(v / 256, (n - 1) as nat);
        assert(b.drop_first() =~= le_bytes(v / 256, (n - 1) as nat));
        assert(v == v % 256 + 256 * (v / 256)) by (nonlinear_arith);
    }
}

pub(crate) fn le_bytes_vec(v: u64, n: usize) -> (r: Vec<u8>)
    requires
        n <= 8,
    ensures
        r@ == le_bytes(v as nat, n as nat),
{
    let mut r: Vec<u8> = Vec::new();
    let mut x = v;
    let mut i: usize = 0;
    while i < n
        invariant
            i <= n,
            r@ + le_bytes(x as nat, (n - i) as nat) == le_bytes(v as nat, n as nat),
        decreases n - i,
    {
        let ghost before = r@;
        r.push((x % 256) as u8);
        proof {
            assert(le_bytes(x as nat, (n - i) as nat) == seq![(x % 256) as u8] + le_bytes(
                (x / 256) as nat,
                (n - i - 1) as nat,
            ));
            assert(r@ + le_bytes((x / 256) as nat, (n - i - 1) as nat) =~= before + le_bytes(
                x as nat,
                (n - i) as nat,
            ));
        }
        x = x / 256;
        i = i + 1;
    }
    assert(r@ =~= r@ + le_bytes(x as nat, 0));
    r
}

pub(crate) fn le_value_of(data: &[u8]) -> (r: u64)
    requires
        data@.len() <= 8,
    ensures
        r as nat == le_value(data@),
{
    let mut acc: u64 = 0;
    let mut i: usize = data.len();
    while i > 0
        invariant
            i <= data@.len() <= 8,
            acc as nat == le_value(data@.skip(i as int)),
            acc < pow256((data@.len() - i) as nat),
        decreases i,
    {
        i = i - 1;
        proof {
            let t = data@.skip(i as int);
            assert(t.drop_first() =~= data@.skip(i + 1));
            assert(pow256((data@.len() - i - 1) as nat) <= pow256(7)) by {
                lemma_pow256_mono((data@.len() - i - 1) as nat, 7);
            }
            reveal_with_fuel(pow256, 8);
            assert(pow256(7) == 72057594037927936);
            assert(acc * 256 + data[i as int] < pow256((data@.len() - i) as nat)) by (nonlinear_arith)
                requires
                    acc < pow256((data@.len() - i - 1) as nat),
                    data[i as int] < 256,
                    pow256((data@.len() - i) as nat) == 256 * pow256((data@.len() - i - 1) as nat);
        }
        acc = data[i] as u64 + 256 * acc;
    }
    assert(data@.skip(0) =~= data@);
    acc
}

pub(crate) proof fn lemma_pow256_mono(a: nat, b: nat)
    requires
        a <= b,
    ensures
        pow256(a) <= pow256(b),
    decreases b,
{
    if a < b {
        lemma_pow256_mono(a, (b - 1) as nat);
    }
}


// ---------------------------------------------------------------------------
// Fixed-size byte arrays
// ---------------------------------------------------------------------------

/// Copies twenty bytes into an array.
pub(crate) fn copy20(data: &[u8]) -> (a: [u8; 20])
    requires
        data@.len() == 20,
    ensures
        a@ == data@,
{
    let mut a = [0u8; 20];
    let mut i: usize = 0;
    while i < 20
        invariant
            i <= 20,
            data@.len() == 20,
            forall|j: int| 0 <= j < i ==> a@[j] == data@[j],
        decreases 20 - i,
    {
        a[i] = data[i];
        i = i + 1;
    }
    assert(a@ =~= data@);
    a
}

/// Copies thirty-two bytes into an array.
pub(crate) fn copy32(data: &[u8]) -> (a: [u8; 32])
    requires
        data@.len() == 32,
    ensures
        a@ == data@,
{
    let mut a = [0u8; 32];
    let mut i: usize = 0;
    while i < 32
        invariant
            i <= 32,
            data@.len() == 32,
            forall|j: int| 0 <= j < i ==> a@[j] == data@[j],
        decreases 32 - i,
    {
        a[i] = data[i];
        i = i + 1;
    }
    assert(a@ =~= data@);
    a
}

/// Copies sixty-five bytes into an array.
pub(crate) fn copy65(data: &[u8]) -> (a: [u8; 65])
    requires
        data@.len() == 65,
    ensures
        a@ == data@,
{
    let mut a = [0u8; 65];
    let mut i: usize = 0;
    while i < 65
        invariant
            i <= 65,
            data@.len() == 65,
            forall|j: int| 0 <= j < i ==> a@[j] == data@[j],
        decreases 65 - i,
    {
        a[i] = data[i];
        i = i + 1;
    }
    assert(a@ =~= data@);
    a
}

/// `count` consecutive chunks of `size` bytes of `data`.
pub open spec fn chunks(data: Seq<u8>, count: int, size: int) -> Seq<Seq<u8>> {
    Seq::new(count as nat, |i: int| data.subrange(i * size, (i + 1) * size))
}

/// Byte strings of one size, concatenated, split back into the same byte strings.
pub proof fn lemma_concat_uniform(s: Seq<Seq<u8>>, size: int)
    requires
        size >= 0,
        forall|i: int| 0 <= i < s.len() ==> (#[trigger] s[i]).len() == size,
    ensures
        concat_all(s).len() == s.len() * size,
        chunks(concat_all(s), s.len() as int, size) == s,
    decreases s.len(),
{
    let c = concat_all(s);
    if s.len() == 0 {
        assert(chunks(c, 0, size) =~= s);
    } else {
        let tail = s.drop_first();
        assert forall|i: int| 0 <= i < tail.len() implies (#[trigger] tail[i]).len() == size by {
            assert(tail[i] == s[i + 1]);
        }
        lemma_concat_uniform(tail, size);
        let ct = concat_all(tail);
        assert(c == s[0] + ct);
        assert(s.len() * size == size + tail.len() * size) by (nonlinear_arith)
            requires s.len() == tail.len() + 1;
        assert forall|i: int| 0 <= i < s.len() implies #[trigger] chunks(c, s.len() as int, size)[i] == s[i] by {
            if i == 0 {
                assert(c.subrange(0, size) =~= s[0]);
                assert(0 * size == 0 && 1 * size == size) by (nonlinear_arith);
            } else {
                assert(i * size == size + (i - 1) * size) by (nonlinear_arith);
                assert((i + 1) * size == size + i * size) by (nonlinear_arith);
                assert((i - 1) * size >= 0 && i * size <= tail.len() * size) by (nonlinear_arith)
                    requires 1 <= i <= tail.len(), size >= 0;
                assert(chunks(ct, tail.len() as int, size)[i - 1] == tail[i - 1]);
                assert(c.subrange(i * size, (i + 1) * size) =~= ct.subrange((i - 1) * size, i * size));
            }
        }
        assert(chunks(c, s.len() as int, size) =~= s);
    }
}

/// Prepends `done` to the byte strings of a parse result.
pub open spec fn prepend(done: Seq<Seq<u8>>, parsed: Option<(Seq<Seq<u8>>, Seq<u8>)>) -> Option<(Seq<Seq<u8>>, Seq<u8>)> {
    match parsed {
        None => None,
        Some((xs, rest)) => Some((done + xs, rest)),
    }
}

/// When no framed byte string starts `data`, no sequence of them does.
pub proof fn lemma_parse_framed_split(data: Seq<u8>, n: nat)
    requires
        n >= 1,
        parse_one(data) is None,
    ensures
        parse_framed(data, n) is None,
{
}

} // verus!
