//! Bytes and text: the conversions between a byte buffer and a string, and
//! the reasons why the pieces that the grammar cuts out of UTF-8 text are
//! UTF-8 text again. Every delimiter of the grammar is a single ASCII byte,
//! so no cut falls inside the encoding of a character.

use crate::parser::{
    content_token, is_identifier, is_identifier_part, lemma_content_run, lemma_next_token_span,
    next_token, TokenView, DOLLAR,
};
use vstd::prelude::*;
use vstd::string::*;
use vstd::utf8::*;

verus! {

/// Every byte of `s` is an ASCII byte.
pub open spec fn is_ascii_bytes(s: Seq<u8>) -> bool {
    forall|i: int| 0 <= i < s.len() ==> #[trigger] s[i] <= 0x7f
}

/// The text that ASCII bytes spell: each byte is one character.
pub open spec fn ascii_text(s: Seq<u8>) -> Seq<char> {
    Seq::new(s.len(), |i: int| s[i] as char)
}

/// `std::str::from_utf8`: succeeds on every valid UTF-8 byte sequence, and
/// the string slice it gives has exactly the bytes it was given.
#[verifier::external_body]
pub(crate) fn str_from_utf8<'a>(bytes: &'a [u8]) -> (r: Option<&'a str>)
    ensures
        valid_utf8(bytes@) ==> r is Some,
        r matches Some(s) ==> s.spec_bytes() == bytes@,
{
    std::str::from_utf8(bytes).ok()
}

/// `String::from_utf8`: succeeds on every valid UTF-8 byte vector, and the
/// string it gives has exactly the bytes it was given.
#[verifier::external_body]
pub(crate) fn string_from_utf8(bytes: Vec<u8>) -> (r: Option<String>)
    ensures
        valid_utf8(bytes@) ==> r is Some,
        r matches Some(s) ==> encode_utf8(s@) == bytes@,
{
    String::from_utf8(bytes).ok()
}

/// An ASCII byte at the start of a byte sequence is the encoding of one
/// character, and the rest of the sequence follows it.
pub proof fn lemma_ascii_first(s: Seq<u8>)
    requires
        s.len() > 0,
        s[0] <= 0x7f,
    ensures
        valid_first_scalar(s),
        pop_first_scalar(s) == s.skip(1),
{
}

/// A sequence of ASCII bytes is valid UTF-8.
pub proof fn lemma_ascii_is_utf8(s: Seq<u8>)
    requires
        is_ascii_bytes(s),
    ensures
        valid_utf8(s),
    decreases s.len(),
{
    if s.len() > 0 {
        lemma_ascii_first(s);
        assert(is_ascii_bytes(s.skip(1)));
        lemma_ascii_is_utf8(s.skip(1));
    }
}

/// ASCII bytes decode to the text that they spell.
pub proof fn lemma_ascii_decodes_to_its_text(s: Seq<u8>)
    requires
        is_ascii_bytes(s),
    ensures
        decode_utf8(s) == ascii_text(s),
{
    let text = ascii_text(s);
    assert(is_ascii_chars(text));
    is_ascii_chars_encode_utf8(text);
    assert(encode_utf8(text) =~= s);
    encode_utf8_decode_utf8(text);
}

/// What follows `n` leading ASCII bytes of valid UTF-8 is valid UTF-8.
pub proof fn lemma_utf8_after_ascii(s: Seq<u8>, n: int)
    requires
        valid_utf8(s),
        0 <= n <= s.len(),
        forall|i: int| 0 <= i < n ==> #[trigger] s[i] <= 0x7f,
    ensures
        valid_utf8(s.skip(n)),
    decreases n,
{
    if n == 0 {
        assert(s.skip(0) =~= s);
    } else {
        lemma_ascii_first(s);
        let rest = s.skip(1);
        assert forall|i: int| 0 <= i < n - 1 implies #[trigger] rest[i] <= 0x7f by {
            assert(rest[i] == s[i + 1]);
        }
        lemma_utf8_after_ascii(rest, n - 1);
        assert(rest.skip(n - 1) =~= s.skip(n));
    }
}

/// Valid UTF-8 cut in front of an ASCII byte gives two pieces of valid UTF-8.
pub proof fn lemma_utf8_cut_at_ascii(s: Seq<u8>, n: int)
    requires
        valid_utf8(s),
        0 <= n < s.len(),
        s[n] <= 0x7f,
    ensures
        valid_utf8(s.take(n)),
        valid_utf8(s.skip(n)),
{
    is_char_boundary_iff_not_is_continuation_byte(s, n);
    valid_utf8_split(s, n);
}

/// The encoding of a character holds the byte `$` only where the character
/// is `$`: the bytes of a longer encoding are all above the ASCII range.
pub proof fn lemma_dollar_in_scalar(c: char)
    ensures
        encode_scalar(c as u32).contains(DOLLAR) <==> c == '$',
{
    let s = c as u32;
    let bytes = encode_scalar(s);
    char_is_scalar(c);
    assert(s <= 0x7f ==> (s & 0x7f) as u8 == s) by (bit_vector);
    assert(0xC0u8 | ((s >> 6) & 0x1F) as u8 >= 0x80) by (bit_vector);
    assert(0xE0u8 | ((s >> 12) & 0x0F) as u8 >= 0x80) by (bit_vector);
    assert(0xF0u8 | ((s >> 18) & 0x7) as u8 >= 0x80) by (bit_vector);
    assert(0x80u8 | (s & 0x3F) as u8 >= 0x80) by (bit_vector);
    assert(0x80u8 | ((s >> 6) & 0x3F) as u8 >= 0x80) by (bit_vector);
    assert(0x80u8 | ((s >> 12) & 0x3F) as u8 >= 0x80) by (bit_vector);
    if has_width_1_encoding(s) {
        assert(bytes[0] == s);
    } else {
        assert forall|i: int| 0 <= i < bytes.len() implies #[trigger] bytes[i] >= 0x80 by {}
    }
}

/// Text holds the character `$` exactly where its UTF-8 encoding holds the
/// byte `$`.
pub proof fn lemma_dollar_in_text(chars: Seq<char>)
    ensures
        encode_utf8(chars).contains(DOLLAR) <==> chars.contains('$'),
    decreases chars.len(),
{
    if chars.len() > 0 {
        let head = encode_scalar(chars[0] as u32);
        let tail = encode_utf8(chars.drop_first());
        lemma_dollar_in_scalar(chars[0]);
        lemma_dollar_in_text(chars.drop_first());
        if chars.contains('$') {
            let i = choose|i: int| 0 <= i < chars.len() && chars[i] == '$';
            if i == 0 {
                let j = choose|j: int| 0 <= j < head.len() && head[j] == DOLLAR;
                assert((head + tail)[j] == DOLLAR);
            } else {
                assert(chars.drop_first()[i - 1] == '$');
                let j = choose|j: int| 0 <= j < tail.len() && tail[j] == DOLLAR;
                assert((head + tail)[head.len() + j] == DOLLAR);
            }
        }
        if (head + tail).contains(DOLLAR) {
            let j = choose|j: int| 0 <= j < (head + tail).len() && (head + tail)[j] == DOLLAR;
            if j < head.len() {
                assert(head[j] == DOLLAR);
            } else {
                assert(tail[j - head.len()] == DOLLAR);
                let i = choose|i: int|
                    0 <= i < chars.drop_first().len() && chars.drop_first()[i] == '$';
                assert(chars[i + 1] == '$');
            }
        }
    }
}

/// The bytes of an identifier are ASCII bytes.
pub proof fn lemma_identifier_is_ascii(id: Seq<u8>)
    requires
        is_identifier(id),
    ensures
        is_ascii_bytes(id),
        valid_utf8(id),
{
    assert forall|i: int| 0 <= i < id.len() implies #[trigger] id[i] <= 0x7f by {
        if i > 0 {
            assert(is_identifier_part(id[i]));
        }
    }
    lemma_ascii_is_utf8(id);
}

/// A token read from valid UTF-8 spans valid UTF-8 and leaves valid UTF-8
/// behind it.
pub proof fn lemma_token_utf8(s: Seq<u8>)
    requires
        valid_utf8(s),
    ensures
        next_token(s) matches Some((token, n)) ==> {
            &&& valid_utf8(s.take(n as int))
            &&& valid_utf8(s.skip(n as int))
        },
{
    lemma_next_token_span(s);
    lemma_content_run(s);
    if let Some((token, n)) = next_token(s) {
        if content_token(s) is Some {
            if n < s.len() {
                lemma_utf8_cut_at_ascii(s, n as int);
            } else {
                assert(s.take(n as int) =~= s);
            }
        } else {
            let surface = s.take(n as int);
            match token {
                TokenView::SimplePlaceholder(id) => {
                    lemma_identifier_is_ascii(id);
                },
                TokenView::BracketPlaceholder(id) => {
                    lemma_identifier_is_ascii(id);
                },
                _ => {},
            }
            lemma_ascii_is_utf8(surface);
            assert forall|i: int| 0 <= i < n implies #[trigger] s[i] <= 0x7f by {
                assert(s[i] == surface[i]);
            }
            lemma_utf8_after_ascii(s, n as int);
        }
    }
}

} // verus!
