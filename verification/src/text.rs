//! Text helpers: lower-case hexadecimal of bytes and back, lower-casing,
//! and byte comparison.

use vstd::prelude::*;
use vstd::utf8::is_ascii_chars;

verus! {

/// The lower-case hexadecimal character of a nibble.
pub open spec fn hex_digit(n: int) -> char {
    if n < 10 {
        (48 + n) as char
    } else {
        (87 + n) as char
    }
}

/// Lower-case hexadecimal text of bytes, two characters per byte, high
/// nibble first, without a prefix.
pub open spec fn lower_hex(b: Seq<u8>) -> Seq<char>
    decreases b.len(),
{
    if b.len() == 0 {
        Seq::empty()
    } else {
        lower_hex(b.drop_last()) + seq![hex_digit((b.last() / 16) as int), hex_digit((b.last() % 16) as int)]
    }
}

/// Value of a hexadecimal digit of either case.
pub open spec fn hex_value(c: char) -> Option<int> {
    if '0' <= c && c <= '9' {
        Some(c as int - 48)
    } else if 'a' <= c && c <= 'f' {
        Some(c as int - 87)
    } else if 'A' <= c && c <= 'F' {
        Some(c as int - 55)
    } else {
        None
    }
}

/// Bytes of a run of hexadecimal digit pairs; `None` for an odd length or a
/// character that is not a hexadecimal digit.
pub open spec fn hex_pairs(s: Seq<char>) -> Option<Seq<u8>>
    decreases s.len(),
{
    if s.len() == 0 {
        Some(Seq::empty())
    } else if s.len() == 1 {
        None
    } else {
        match (
            hex_pairs(s.subrange(0, s.len() - 2)),
            hex_value(s[s.len() - 2]),
            hex_value(s[s.len() - 1]),
        ) {
            (Some(p), Some(h), Some(l)) => Some(p.push((h * 16 + l) as u8)),
            _ => None,
        }
    }
}

/// Bytes of a hexadecimal text with an optional "0x" prefix.
pub open spec fn hex_decode_text(s: Seq<char>) -> Option<Seq<u8>> {
    if s.len() >= 2 && s[0] == '0' && s[1] == 'x' {
        hex_pairs(s.subrange(2, s.len() as int))
    } else {
        hex_pairs(s)
    }
}

/// ASCII lower-casing of one character.
pub open spec fn ascii_lower_char(c: char) -> char {
    if 'A' <= c && c <= 'Z' {
        (c as int + 32) as char
    } else {
        c
    }
}

/// What `str::to_lowercase` gives for a text that is not all ASCII.
pub uninterp spec fn unicode_lowercase(s: Seq<char>) -> Seq<char>;

/// Lower-casing of a text: character by character for ASCII text.
pub open spec fn lowercase(s: Seq<char>) -> Seq<char> {
    if is_ascii_chars(s) {
        s.map_values(|c: char| ascii_lower_char(c))
    } else {
        unicode_lowercase(s)
    }
}

/// `substreams::Hex::encode`: the claim is that it writes each byte as two
/// lower-case hexadecimal digits, high nibble first.
#[verifier::external_body]
fn hex_encode_bytes(b: &[u8]) -> (r: String)
    ensures
        r@ == lower_hex(b@),
{
    substreams::Hex::encode(b)
}

/// Texts on which `substreams::Hex::decode` panics: it reads the first
/// byte, and the second where the first is '0'.
pub open spec fn hex_decode_panics(s: Seq<char>) -> bool {
    s.len() == 0 || s =~= seq!['0']
}

/// `substreams::Hex::decode`: the claim is that it strips one "0x" prefix
/// and decodes digit pairs of either case, failing on an odd length or a
/// character that is no hexadecimal digit. The texts on which it panics are
/// left out.
#[verifier::external_body]
fn hex_decode_str(s: &str) -> (r: Option<Vec<u8>>)
    requires
        !hex_decode_panics(s@),
    ensures
        match hex_decode_text(s@) {
            Some(b) => r is Some && r->0@ == b,
            None => r is None,
        },
{
    substreams::Hex::decode(s).ok()
}

/// `str::to_lowercase`: the claim is that ASCII text is lower-cased
/// character by character; of other text only that the result is
/// determined by the text is stated.
#[verifier::external_body]
fn str_to_lowercase(s: &str) -> (r: String)
    ensures
        r@ == (if is_ascii_chars(s@) {
            s@.map_values(|c: char| ascii_lower_char(c))
        } else {
            unicode_lowercase(s@)
        }),
{
    s.to_lowercase()
}

/// Lower-case hexadecimal text of bytes.
pub fn hex_encode(b: &[u8]) -> (r: String)
    ensures
        r@ == lower_hex(b@),
{
    hex_encode_bytes(b)
}

/// Decodes a hexadecimal text with an optional "0x" prefix.
pub fn hex_decode(s: &str) -> (r: Option<Vec<u8>>)
    requires
        !hex_decode_panics(s@),
    ensures
        match hex_decode_text(s@) {
            Some(b) => r is Some && r->0@ == b,
            None => r is None,
        },
{
    hex_decode_str(s)
}

/// The lower-cased text.
pub fn to_lowercase(s: &str) -> (r: String)
    ensures
        r@ == lowercase(s@),
{
    str_to_lowercase(s)
}

/// Whether two byte strings are equal.
pub fn bytes_equal(a: &[u8], b: &[u8]) -> (r: bool)
    ensures
        r == (a@ == b@),
{
    if a.len() != b.len() {
        return false;
    }
    let mut i: usize = 0;
    while i < a.len()
        invariant
            a@.len() == b@.len(),
            i <= a@.len(),
            forall|j: int| 0 <= j < i ==> a@[j] == b@[j],
        decreases a@.len() - i,
    {
        if a[i] != b[i] {
            return false;
        }
        i = i + 1;
    }
    assert(a@ =~= b@);
    true
}

/// Lower-case hexadecimal text is ASCII and free of upper-case letters, so
/// lower-casing leaves it as it is.
pub proof fn lemma_lowercase_of_hex(b: Seq<u8>)
    ensures
        is_ascii_chars(lower_hex(b)),
        lowercase(lower_hex(b)) == lower_hex(b),
        lower_hex(b).len() == 2 * b.len(),
    decreases b.len(),
{
    if b.len() > 0 {
        lemma_lowercase_of_hex(b.drop_last());
        let h = lower_hex(b);
        let p = lower_hex(b.drop_last());
        let x = b.last() as int;
        assert(h =~= p + seq![hex_digit(x / 16), hex_digit(x % 16)]);
        assert(hex_digit(x / 16) as int == (if x / 16 < 10 { 48 + x / 16 } else { 87 + x / 16 }));
        assert(hex_digit(x % 16) as int == (if x % 16 < 10 { 48 + x % 16 } else { 87 + x % 16 }));
        assert forall|i: int| 0 <= i < h.len() implies '\0' <= #[trigger] h[i] <= '\u{7f}'
            && ascii_lower_char(h[i]) == h[i] by {
            if i < p.len() {
                assert(h[i] == p[i]);
                assert(p.map_values(|c: char| ascii_lower_char(c))[i] == p[i]);
            }
        }
    }
    let h = lower_hex(b);
    assert(h.map_values(|c: char| ascii_lower_char(c)) =~= h);
}

/// A lower-case hexadecimal digit.
pub open spec fn is_lower_hex_char(c: char) -> bool {
    ('0' <= c && c <= '9') || ('a' <= c && c <= 'f')
}

/// Lower-case hexadecimal text of `n` bytes: `2 * n` lower-case
/// hexadecimal digits, without a prefix.
pub open spec fn is_lower_hex_of_bytes(s: Seq<char>, n: nat) -> bool {
    s.len() == 2 * n && forall|i: int| 0 <= i < s.len() ==> is_lower_hex_char(#[trigger] s[i])
}

/// `lower_hex` writes two lower-case hexadecimal digits per byte.
pub proof fn lemma_lower_hex_shape(b: Seq<u8>)
    ensures
        is_lower_hex_of_bytes(lower_hex(b), b.len()),
    decreases b.len(),
{
    if b.len() > 0 {
        lemma_lower_hex_shape(b.drop_last());
        let h = lower_hex(b);
        let p = lower_hex(b.drop_last());
        let x = b.last() as int;
        assert(hex_digit(x / 16) as int == (if x / 16 < 10 { 48 + x / 16 } else { 87 + x / 16 }));
        assert(hex_digit(x % 16) as int == (if x % 16 < 10 { 48 + x % 16 } else { 87 + x % 16 }));
        assert forall|i: int| 0 <= i < h.len() implies is_lower_hex_char(#[trigger] h[i]) by {
            if i < p.len() {
                assert(h[i] == p[i]);
            }
        }
    }
}

} // verus!
