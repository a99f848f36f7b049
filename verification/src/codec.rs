//! Byte-level encodings shared by the whole node: lowercase hex, decimal
//! numbers and the compact JSON text that block and transaction hashes are
//! computed over.

use vstd::prelude::*;
use vstd::utf8::*;
use vstd::string::*;

verus! {

broadcast use vstd::seq::group_seq_axioms;

// ── hex ────────────────────────────────────────────────────────────────────

/// The lowercase hex digit for a nibble `n < 16`, as an ASCII byte.
pub open spec fn hex_nibble_byte(n: int) -> u8 {
    if n < 10 {
        (48 + n) as u8
    } else {
        (87 + n) as u8
    }
}

/// The lowercase hex digit for a nibble `n < 16`.
pub open spec fn hex_nibble_char(n: int) -> char {
    hex_nibble_byte(n) as char
}

/// Lowercase hex text of a byte string: two digits per byte, high nibble first.
pub open spec fn hex_lower(bytes: Seq<u8>) -> Seq<char>
    decreases bytes.len(),
{
    if bytes.len() == 0 {
        Seq::empty()
    } else {
        let b = bytes.last();
        hex_lower(bytes.drop_last()) + seq![hex_nibble_char((b / 16) as int), hex_nibble_char((b % 16) as int)]
    }
}

/// A character that a hex decoder accepts (either case).
pub open spec fn is_hex_char(c: char) -> bool {
    ('0' <= c && c <= '9') || ('a' <= c && c <= 'f') || ('A' <= c && c <= 'F')
}

/// The value of a hex digit.
pub open spec fn hex_char_value(c: char) -> int {
    if '0' <= c && c <= '9' {
        c as int - 48
    } else if 'a' <= c && c <= 'f' {
        c as int - 87
    } else {
        c as int - 55
    }
}

/// Text that decodes as hex: an even number of hex digits.
pub open spec fn hex_decodable(s: Seq<char>) -> bool {
    &&& s.len() % 2 == 0
    &&& forall|i: int| 0 <= i < s.len() ==> is_hex_char(#[trigger] s[i])
}

/// The bytes that hex text decodes to, two digits per byte.
pub open spec fn hex_decoded(s: Seq<char>) -> Seq<u8>
    decreases s.len(),
{
    if s.len() < 2 {
        Seq::empty()
    } else {
        let n = s.len() as int;
        hex_decoded(s.subrange(0, n - 2)).push(
            (hex_char_value(s[n - 2]) * 16 + hex_char_value(s[n - 1])) as u8,
        )
    }
}

pub proof fn lemma_hex_lower_len(bytes: Seq<u8>)
    ensures
        hex_lower(bytes).len() == 2 * bytes.len(),
    decreases bytes.len(),
{
    if bytes.len() > 0 {
        lemma_hex_lower_len(bytes.drop_last());
    }
}


pub proof fn lemma_hex_nibble(n: int)
    requires
        0 <= n < 16,
    ensures
        is_hex_char(hex_nibble_char(n)),
        hex_char_value(hex_nibble_char(n)) == n,
{
    let c = hex_nibble_char(n);
    if n < 10 {
        assert(c as int == 48 + n);
    } else {
        assert(c as int == 87 + n);
    }
}

/// Decoding the hex text of a byte string gives the bytes back.
pub proof fn lemma_hex_roundtrip(bytes: Seq<u8>)
    ensures
        hex_decodable(hex_lower(bytes)),
        hex_decoded(hex_lower(bytes)) == bytes,
        hex_lower(bytes).len() == 2 * bytes.len(),
    decreases bytes.len(),
{
    if bytes.len() > 0 {
        let prev = bytes.drop_last();
        let b = bytes.last();
        lemma_hex_roundtrip(prev);
        let h = hex_lower(bytes);
        let hp = hex_lower(prev);
        let n = h.len() as int;
        lemma_hex_nibble((b / 16) as int);
        lemma_hex_nibble((b % 16) as int);
        assert(h.subrange(0, n - 2) =~= hp);
        assert forall|i: int| 0 <= i < h.len() implies is_hex_char(#[trigger] h[i]) by {
            if i < n - 2 {
                assert(h[i] == hp[i]);
            }
        }
        assert(hex_decoded(h) =~= bytes);
    }
}

// ── decimal ────────────────────────────────────────────────────────────────

/// ASCII decimal digits of `n`, without leading zeros (`0` is written `0`).
pub open spec fn decimal(n: nat) -> Seq<u8>
    decreases n,
{
    if n < 10 {
        seq![(48 + n) as u8]
    } else {
        decimal(n / 10).push((48 + n % 10) as u8)
    }
}

/// Appends the decimal digits of `n`.
pub fn push_decimal(buf: &mut Vec<u8>, n: u64)
    ensures
        final(buf)@ == old(buf)@ + decimal(n as nat),
    decreases n,
{
    if n >= 10 {
        push_decimal(buf, n / 10);
    }
    let d: u8 = (n % 10) as u8;
    buf.push(48u8 + d);
    assert(final(buf)@ =~= old(buf)@ + decimal(n as nat)) by {
        if n >= 10 {
            assert(old(buf)@ + decimal((n / 10) as nat) + seq![(48 + n % 10) as u8] =~= old(buf)@
                + decimal((n / 10) as nat).push((48 + n % 10) as u8));
        }
    }
}

// ── JSON text ──────────────────────────────────────────────────────────────

/// How one byte of a string's UTF-8 text is written inside a JSON string:
/// the quote, the backslash and the control bytes are escaped, every other
/// byte (non-ASCII ones included) is written as it is.
pub open spec fn json_escape_byte(b: u8) -> Seq<u8> {
    if b == 34 {
        seq![92u8, 34u8]
    } else if b == 92 {
        seq![92u8, 92u8]
    } else if b == 8 {
        seq![92u8, 98u8]
    } else if b == 9 {
        seq![92u8, 116u8]
    } else if b == 10 {
        seq![92u8, 110u8]
    } else if b == 12 {
        seq![92u8, 102u8]
    } else if b == 13 {
        seq![92u8, 114u8]
    } else if b < 32 {
        seq![92u8, 117u8, 48u8, 48u8, hex_nibble_byte((b / 16) as int), hex_nibble_byte((b % 16) as int)]
    } else {
        seq![b]
    }
}

/// The escaped form of a byte string.
pub open spec fn json_escaped(bytes: Seq<u8>) -> Seq<u8>
    decreases bytes.len(),
{
    if bytes.len() == 0 {
        Seq::empty()
    } else {
        json_escaped(bytes.drop_last()) + json_escape_byte(bytes.last())
    }
}

/// A JSON string literal holding `s`.
pub open spec fn json_str(s: Seq<char>) -> Seq<u8> {
    seq![34u8] + json_escaped(encode_utf8(s)) + seq![34u8]
}

/// Elements separated by commas.
pub open spec fn json_join(items: Seq<Seq<u8>>) -> Seq<u8>
    decreases items.len(),
{
    if items.len() == 0 {
        Seq::empty()
    } else if items.len() == 1 {
        items[0]
    } else {
        json_join(items.drop_last()) + seq![44u8] + items.last()
    }
}

/// A JSON array of already encoded elements.
pub open spec fn json_array(items: Seq<Seq<u8>>) -> Seq<u8> {
    seq![91u8] + json_join(items) + seq![93u8]
}

/// A byte string written as a JSON array of numbers.
pub open spec fn json_u8_array(bytes: Seq<u8>) -> Seq<u8> {
    json_array(bytes.map_values(|b: u8| decimal(b as nat)))
}

/// The comma that goes before element `i` of an array.
pub open spec fn comma_before(i: int) -> Seq<u8> {
    if i == 0 {
        Seq::empty()
    } else {
        seq![44u8]
    }
}

pub proof fn lemma_json_join_step(items: Seq<Seq<u8>>, i: int)
    requires
        0 <= i < items.len(),
    ensures
        json_join(items.take(i + 1)) == json_join(items.take(i)) + comma_before(i) + items[i],
{
    let t = items.take(i + 1);
    assert(t.drop_last() =~= items.take(i));
    if i == 0 {
        assert(json_join(items.take(0)) =~= Seq::<u8>::empty());
        assert(json_join(t) == t[0]);
        assert(json_join(t) =~= json_join(items.take(i)) + comma_before(i) + items[i]);
    }
}

fn push_escaped_byte(buf: &mut Vec<u8>, b: u8)
    ensures
        final(buf)@ == old(buf)@ + json_escape_byte(b),
{
    if b == 34 || b == 92 {
        buf.push(92u8);
        buf.push(b);
    } else if b == 8 {
        buf.push(92u8);
        buf.push(98u8);
    } else if b == 9 {
        buf.push(92u8);
        buf.push(116u8);
    } else if b == 10 {
        buf.push(92u8);
        buf.push(110u8);
    } else if b == 12 {
        buf.push(92u8);
        buf.push(102u8);
    } else if b == 13 {
        buf.push(92u8);
        buf.push(114u8);
    } else if b < 32 {
        buf.push(92u8);
        buf.push(117u8);
        buf.push(48u8);
        buf.push(48u8);
        let hi: u8 = b / 16;
        let lo: u8 = b % 16;
        buf.push(if hi < 10 { 48 + hi } else { 87 + hi });
        buf.push(if lo < 10 { 48 + lo } else { 87 + lo });
    } else {
        buf.push(b);
    }
    assert(final(buf)@ =~= old(buf)@ + json_escape_byte(b));
}

/// Appends `s` as a JSON string literal.
pub fn push_json_str(buf: &mut Vec<u8>, s: &str)
    ensures
        final(buf)@ == old(buf)@ + json_str(s@),
{
    let bytes = s.as_bytes();
    let ghost start = buf@;
    buf.push(34u8);
    let n = bytes.len();
    for i in 0..n
        invariant
            n == bytes@.len(),
            bytes@ == encode_utf8(s@),
            buf@ == start + seq![34u8] + json_escaped(bytes@.take(i as int)),
    {
        push_escaped_byte(buf, bytes[i]);
        assert(bytes@.take(i + 1).drop_last() =~= bytes@.take(i as int));
        assert(buf@ =~= start + seq![34u8] + json_escaped(bytes@.take(i + 1)));
    }
    assert(bytes@.take(n as int) =~= bytes@);
    buf.push(34u8);
    assert(buf@ =~= start + json_str(s@));
}

/// Appends a byte string as a JSON array of numbers.
pub fn push_json_u8_array(buf: &mut Vec<u8>, bytes: &[u8])
    ensures
        final(buf)@ == old(buf)@ + json_u8_array(bytes@),
{
    let ghost start = buf@;
    let ghost items = bytes@.map_values(|b: u8| decimal(b as nat));
    buf.push(91u8);
    let n = bytes.len();
    for i in 0..n
        invariant
            n == bytes@.len(),
            items == bytes@.map_values(|b: u8| decimal(b as nat)),
            buf@ == start + seq![91u8] + json_join(items.take(i as int)),
    {
        proof {
            lemma_json_join_step(items, i as int);
        }
        if i > 0 {
            buf.push(44u8);
        }
        push_decimal(buf, bytes[i] as u64);
        assert(buf@ =~= start + seq![91u8] + json_join(items.take(i + 1)));
    }
    assert(items.take(n as int) =~= items);
    buf.push(93u8);
    assert(buf@ =~= start + json_u8_array(bytes@));
}

/// Appends `"key":`.
pub fn push_json_key(buf: &mut Vec<u8>, key: &str)
    ensures
        final(buf)@ == old(buf)@ + json_str(key@) + seq![58u8],
{
    push_json_str(buf, key);
    buf.push(58u8);
}

/// `"key":` as bytes.
pub open spec fn json_key(key: Seq<char>) -> Seq<u8> {
    json_str(key) + seq![58u8]
}

/// Byte-wise equality of two byte strings.
pub fn bytes_eq(a: &[u8], b: &[u8]) -> (r: bool)
    ensures
        r == (a@ == b@),
{
    if a.len() != b.len() {
        return false;
    }
    let n = a.len();
    for i in 0..n
        invariant
            n == a@.len(),
            n == b@.len(),
            forall|j: int| 0 <= j < i ==> a@[j] == b@[j],
    {
        if a[i] != b[i] {
            return false;
        }
    }
    assert(a@ =~= b@);
    true
}

/// Equality of the text of two strings.
pub fn str_eq(a: &str, b: &str) -> (r: bool)
    ensures
        r == (a@ == b@),
{
    let r = bytes_eq(a.as_bytes(), b.as_bytes());
    proof {
        encode_utf8_decode_utf8(a@);
        encode_utf8_decode_utf8(b@);
    }
    r
}

/// Copies a string.
pub fn copy_string(s: &String) -> (r: String)
    ensures
        r@ == s@,
{
    s.clone()
}

/// Copies a byte vector.
pub fn copy_bytes(v: &Vec<u8>) -> (r: Vec<u8>)
    ensures
        r@ == v@,
{
    let mut out: Vec<u8> = Vec::new();
    let n = v.len();
    for i in 0..n
        invariant
            n == v@.len(),
            out@ == v@.take(i as int),
    {
        out.push(v[i]);
        assert(out@ =~= v@.take(i + 1));
    }
    assert(v@.take(n as int) =~= v@);
    out
}

// ── text ───────────────────────────────────────────────────────────────────

/// The decimal digits of `n` as text.
pub open spec fn decimal_text(n: nat) -> Seq<char> {
    decimal(n).map_values(|b: u8| b as char)
}

proof fn lemma_decimal_digits(n: nat)
    ensures
        forall|i: int| 0 <= i < decimal(n).len() ==> 48 <= #[trigger] decimal(n)[i] <= 57,
    decreases n,
{
    if n >= 10 {
        lemma_decimal_digits(n / 10);
        let d = decimal(n);
        let p = decimal(n / 10);
        assert(d == p.push((48 + n % 10) as u8));
        assert forall|i: int| 0 <= i < d.len() implies 48 <= #[trigger] d[i] <= 57 by {
            if i < p.len() {
                assert(d[i] == p[i]);
            } else {
                assert(d[i] == (48 + n % 10) as u8);
            }
        }
    } else {
        assert(decimal(n) == seq![(48 + n) as u8]);
    }
}

/// The UTF-8 text of a concatenation is the concatenation of the texts.
pub proof fn lemma_encode_utf8_concat(a: Seq<char>, b: Seq<char>)
    ensures
        encode_utf8(a + b) == encode_utf8(a) + encode_utf8(b),
    decreases a.len(),
{
    if a.len() == 0 {
        assert(a + b =~= b);
    } else {
        lemma_encode_utf8_concat(a.drop_first(), b);
        assert((a + b).drop_first() =~= a.drop_first() + b);
        assert((a + b)[0] == a[0]);
    }
}

/// Decimal digits are their own UTF-8 text.
pub proof fn lemma_decimal_text_utf8(n: nat)
    ensures
        encode_utf8(decimal_text(n)) == decimal(n),
{
    lemma_decimal_digits(n);
    let t = decimal_text(n);
    assert(is_ascii_chars(t)) by {
        assert forall|i: int| 0 <= i < t.len() implies '\0' <= #[trigger] t[i] <= '\u{7f}' by {
            assert(48 <= decimal(n)[i] <= 57);
        }
    }
    is_ascii_chars_encode_utf8(t);
    assert forall|i: int| 0 <= i < t.len() implies encode_utf8(t)[i] == decimal(n)[i] by {
        assert(t[i] as u8 == encode_utf8(t)[i]);
        assert(48 <= decimal(n)[i] <= 57);
        let b = decimal(n)[i];
        assert(((b as char) as u8) == b);
    }
    assert(encode_utf8(t) =~= decimal(n));
}

/// Appends the UTF-8 text of `s`.
pub fn push_text(buf: &mut Vec<u8>, s: &str)
    ensures
        final(buf)@ == old(buf)@ + encode_utf8(s@),
{
    let bytes = s.as_bytes();
    let n = bytes.len();
    let ghost start = buf@;
    for i in 0..n
        invariant
            n == bytes@.len(),
            bytes@ == encode_utf8(s@),
            buf@ == start + bytes@.take(i as int),
    {
        buf.push(bytes[i]);
        assert(buf@ =~= start + bytes@.take(i + 1));
    }
    assert(bytes@.take(n as int) =~= bytes@);
}

/// The text whose UTF-8 encoding `bytes` is.
pub fn text_of_utf8(bytes: Vec<u8>, Ghost(text): Ghost<Seq<char>>) -> (r: String)
    requires
        bytes@ == encode_utf8(text),
    ensures
        r@ == text,
{
    proof {
        encode_utf8_valid_utf8(text);
        encode_utf8_decode_utf8(text);
    }
    match crate::crypto::utf8_to_string(bytes) {
        Some(s) => s,
        None => {
            assert(false);
            String::new()
        },
    }
}

} // verus!
