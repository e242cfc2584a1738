//! Rendering: what a template text becomes under a mapping, and the two
//! operations that compute it.
//!
//! The text is read token by token in a single pass. Literal runs are copied,
//! `$$` gives one `$`, and a placeholder gives the replacement that the
//! mapping holds for its identifier. The two policies differ only where the
//! mapping holds none: strict rendering stops with an error, permissive
//! rendering copies the placeholder as it stands in the text.

use crate::error::TemplateError;
use crate::mapping::Mapping;
use crate::parser::{
    lemma_next_token_span, next_token, token, Token, TokenView, CLOSE_BRACE, DOLLAR, OPEN_BRACE,
};
use crate::text::{
    is_ascii_bytes, lemma_ascii_is_utf8, lemma_identifier_is_ascii, lemma_token_utf8,
    str_from_utf8, string_from_utf8,
};
use vstd::prelude::*;
use vstd::string::*;
use vstd::utf8::*;

verus! {

/// What to do with a placeholder whose identifier the mapping does not hold.
#[derive(Debug, Clone, Copy, PartialEq, Eq)]
pub enum Policy {
    /// Stop, and report the identifier.
    Strict,
    /// Copy the placeholder as it stands in the text.
    Permissive,
}

/// The outcome of rendering, over bytes.
pub ghost enum Rendering {
    /// The whole text was rendered; holds the output.
    Text(Seq<u8>),
    /// No form of the grammar begins at this byte offset of the text.
    Malformed(nat),
    /// The mapping holds nothing for this identifier.
    MissingKey(Seq<u8>),
}

impl Rendering {
    /// This outcome of rendering the rest of a text, seen from the start of
    /// the text: `output` was written for the `consumed` bytes before the rest.
    pub open spec fn after(self, output: Seq<u8>, consumed: nat) -> Rendering {
        match self {
            Rendering::Text(rest) => Rendering::Text(output + rest),
            Rendering::Malformed(position) => Rendering::Malformed(consumed + position),
            Rendering::MissingKey(id) => Rendering::MissingKey(id),
        }
    }

    /// Seen from where it is, an outcome is itself.
    pub proof fn lemma_after_nothing(self)
        ensures
            self.after(Seq::empty(), 0) == self,
    {
        if let Rendering::Text(rest) = self {
            assert(Seq::<u8>::empty() + rest =~= rest);
        }
    }

    /// Two steps back to the start of the text are one step.
    pub proof fn lemma_after_after(self, inner: Seq<u8>, m: nat, outer: Seq<u8>, n: nat)
        ensures
            self.after(inner, m).after(outer, n) == self.after(outer + inner, n + m),
    {
        if let Rendering::Text(rest) = self {
            assert(outer + (inner + rest) =~= (outer + inner) + rest);
        }
    }
}

/// The replacement that `map` holds for the identifier `id`, as bytes.
pub open spec fn lookup(map: Map<Seq<char>, Seq<char>>, id: Seq<u8>) -> Option<Seq<u8>> {
    if map.contains_key(decode_utf8(id)) {
        Some(encode_utf8(map[decode_utf8(id)]))
    } else {
        None
    }
}

/// The bytes that one token contributes to the output, or the identifier
/// that strict rendering misses.
pub open spec fn emit(token: TokenView, map: Map<Seq<char>, Seq<char>>, policy: Policy) -> Result<
    Seq<u8>,
    Seq<u8>,
> {
    match token {
        TokenView::Content(bytes) => Ok(bytes),
        TokenView::Escape => Ok(seq![DOLLAR]),
        TokenView::SimplePlaceholder(id) | TokenView::BracketPlaceholder(id) => match lookup(
            map,
            id,
        ) {
            Some(value) => Ok(value),
            None => match policy {
                Policy::Strict => Err(id),
                Policy::Permissive => Ok(token.surface()),
            },
        },
    }
}

/// The outcome of rendering `text` under `map`: the outputs of its tokens
/// in order, up to the first token that cannot be read or resolved.
pub open spec fn render(text: Seq<u8>, map: Map<Seq<char>, Seq<char>>, policy: Policy) -> Rendering
    decreases text.len(),
    via render_decreases
{
    if text.len() == 0 {
        Rendering::Text(Seq::empty())
    } else {
        match next_token(text) {
            None => Rendering::Malformed(0),
            Some((token, n)) => match emit(token, map, policy) {
                Err(id) => Rendering::MissingKey(id),
                Ok(output) => render(text.skip(n as int), map, policy).after(output, n),
            },
        }
    }
}

#[via_fn]
proof fn render_decreases(text: Seq<u8>, map: Map<Seq<char>, Seq<char>>, policy: Policy) {
    lemma_next_token_span(text);
}

/// `result` is the outcome `rendering` as a caller receives it: the output
/// as a string, the offset of the malformed place, or the missing key.
pub open spec fn delivers<'a>(
    result: Result<String, TemplateError<'a>>,
    rendering: Rendering,
) -> bool {
    match rendering {
        Rendering::Text(output) => result matches Ok(text) && encode_utf8(text@) == output,
        Rendering::Malformed(offset) => result matches Err(
            TemplateError::ParserError { position },
        ) && position == offset,
        Rendering::MissingKey(id) => result matches Err(TemplateError::KeyError(key))
            && key.spec_bytes() == id,
    }
}

/// `result` and the buffer after the call are what writing `emitted` gives:
/// the bytes appended, or the missing key and the buffer left alone.
spec fn written<'a>(
    emitted: Result<Seq<u8>, Seq<u8>>,
    before: Seq<u8>,
    after: Seq<u8>,
    result: Result<(), TemplateError<'a>>,
) -> bool {
    match emitted {
        Ok(output) => result is Ok && after == before + output,
        Err(id) => result matches Err(TemplateError::KeyError(key)) && key.spec_bytes() == id
            && after == before,
    }
}

/// Text that can be rendered against a mapping.
pub trait Template {
    /// The template text, as the bytes of its UTF-8 encoding.
    spec fn source(&self) -> Seq<u8>;

    /// Renders the text strictly: every placeholder is replaced from `map`,
    /// and the first one that `map` cannot resolve ends the rendering with a
    /// `KeyError`. Malformed text ends it with a `ParserError`.
    fn substitute<'input>(&'input self, map: &Mapping) -> (result: Result<
        String,
        TemplateError<'input>,
    >)
        ensures
            delivers(result, render(self.source(), map@, Policy::Strict)),
    ;

    /// Renders the text permissively: a placeholder that `map` cannot
    /// resolve is copied to the output as it stands. Only malformed text
    /// ends the rendering, with a `ParserError`.
    fn safe_substitute<'input>(&'input self, map: &Mapping) -> (result: Result<
        String,
        TemplateError<'input>,
    >)
        ensures
            delivers(result, render(self.source(), map@, Policy::Permissive)),
            !(result matches Err(TemplateError::KeyError(_))),
    ;
}

impl Template for str {
    open spec fn source(&self) -> Seq<u8> {
        self.spec_bytes()
    }

    fn substitute<'input>(&'input self, map: &Mapping) -> (result: Result<
        String,
        TemplateError<'input>,
    >) {
        render_text(self, map, Policy::Strict)
    }

    fn safe_substitute<'input>(&'input self, map: &Mapping) -> (result: Result<
        String,
        TemplateError<'input>,
    >) {
        proof {
            lemma_permissive_finds_every_key(self.spec_bytes(), map@);
        }
        render_text(self, map, Policy::Permissive)
    }
}

/// Permissive rendering never misses a key.
pub proof fn lemma_permissive_finds_every_key(text: Seq<u8>, map: Map<Seq<char>, Seq<char>>)
    ensures
        !(render(text, map, Policy::Permissive) is MissingKey),
    decreases text.len(),
{
    if text.len() > 0 {
        lemma_next_token_span(text);
        if let Some((token, n)) = next_token(text) {
            lemma_permissive_finds_every_key(text.skip(n as int), map);
        }
    }
}

/// What a token gives when it was read from valid UTF-8 is valid UTF-8.
pub proof fn lemma_emit_utf8(token: TokenView, map: Map<Seq<char>, Seq<char>>, policy: Policy)
    requires
        token.wf(),
        token matches TokenView::Content(bytes) ==> valid_utf8(bytes),
    ensures
        emit(token, map, policy) matches Ok(output) ==> valid_utf8(output),
{
    match token {
        TokenView::Content(bytes) => {},
        TokenView::Escape => {
            lemma_ascii_is_utf8(seq![DOLLAR]);
        },
        TokenView::SimplePlaceholder(id) => {
            lemma_identifier_is_ascii(id);
            encode_utf8_valid_utf8(map[decode_utf8(id)]);
            lemma_ascii_is_utf8(token.surface());
        },
        TokenView::BracketPlaceholder(id) => {
            lemma_identifier_is_ascii(id);
            encode_utf8_valid_utf8(map[decode_utf8(id)]);
            lemma_ascii_is_utf8(token.surface());
        },
    }
}

/// The identifier of a placeholder as text.
fn identifier_text<'input>(identifier: &'input [u8]) -> (key: &'input str)
    requires
        valid_utf8(identifier@),
    ensures
        key.spec_bytes() == identifier@,
        key@ == decode_utf8(identifier@),
{
    let key = str_from_utf8(identifier).unwrap();
    proof {
        encode_utf8_decode_utf8(key@);
    }
    key
}

/// Appends to `buff` what `token` gives under strict rendering.
fn write_token<'input>(token: Token<'input>, map: &Mapping, buff: &mut Vec<u8>) -> (result: Result<
    (),
    TemplateError<'input>,
>)
    requires
        token@.wf(),
    ensures
        written(emit(token@, map@, Policy::Strict), old(buff)@, final(buff)@, result),
{
    match token {
        Token::Escape => {
            buff.push(DOLLAR);
            assert(buff@ =~= old(buff)@ + seq![DOLLAR]);
        },
        Token::SimplePlaceholder(identifier) | Token::BracketPlaceholder(identifier) => {
            proof {
                lemma_identifier_is_ascii(identifier@);
            }
            let key = identifier_text(identifier);
            let Some(value) = map.get(key) else {
                return Err(TemplateError::KeyError(key));
            };
            let value = value.as_bytes();
            buff.extend_from_slice(value);
            assert(buff@ =~= old(buff)@ + value@);
        },
        Token::Content(content) => {
            buff.extend_from_slice(content);
            assert(buff@ =~= old(buff)@ + content@);
        },
    };
    Ok(())
}

/// Appends to `buff` what `token` gives under permissive rendering.
fn safe_write_token<'input>(token: Token<'input>, map: &Mapping, buff: &mut Vec<u8>) -> (result:
    Result<(), TemplateError<'input>>)
    requires
        token@.wf(),
    ensures
        written(emit(token@, map@, Policy::Permissive), old(buff)@, final(buff)@, result),
        result is Ok,
{
    match token {
        Token::Escape => {
            buff.push(DOLLAR);
            assert(buff@ =~= old(buff)@ + seq![DOLLAR]);
        },
        Token::SimplePlaceholder(identifier) => {
            proof {
                lemma_identifier_is_ascii(identifier@);
            }
            let identifier_str = identifier_text(identifier);
            if let Some(value) = map.get(identifier_str) {
                let value = value.as_bytes();
                buff.extend_from_slice(value);
                assert(buff@ =~= old(buff)@ + value@);
            } else {
                buff.push(DOLLAR);
                buff.extend_from_slice(identifier);
                assert(buff@ =~= old(buff)@ + token@.surface());
            }
        },
        Token::BracketPlaceholder(identifier) => {
            proof {
                lemma_identifier_is_ascii(identifier@);
            }
            let identifier_str = identifier_text(identifier);
            if let Some(value) = map.get(identifier_str) {
                let value = value.as_bytes();
                buff.extend_from_slice(value);
                assert(buff@ =~= old(buff)@ + value@);
            } else {
                buff.push(DOLLAR);
                buff.push(OPEN_BRACE);
                buff.extend_from_slice(identifier);
                buff.push(CLOSE_BRACE);
                assert(buff@ =~= old(buff)@ + token@.surface());
            }
        },
        Token::Content(content) => {
            buff.extend_from_slice(content);
            assert(buff@ =~= old(buff)@ + content@);
        },
    };
    Ok(())
}

/// The capacity that the output buffer starts with: twice the length of the
/// text, as replacements tend to be about as long as placeholders; the
/// length itself for a text so long that twice its length is more than a
/// buffer can hold.
fn initial_capacity(len: usize) -> (capacity: usize)
    ensures
        capacity == if len <= usize::MAX / 4 {
            2 * len
        } else {
            len as int
        },
{
    if len <= usize::MAX / 4 {
        2 * len
    } else {
        len
    }
}

/// Renders `text` under `map` in one pass over its tokens.
fn render_text<'input>(text: &'input str, map: &Mapping, policy: Policy) -> (result: Result<
    String,
    TemplateError<'input>,
>)
    ensures
        delivers(result, render(text.spec_bytes(), map@, policy)),
{
    let source: &'input [u8] = text.as_bytes();
    let mut input: &'input [u8] = source;
    let mut buff: Vec<u8> = Vec::with_capacity(initial_capacity(source.len()));
    proof {
        encode_utf8_valid_utf8(text@);
    }
    while input.len() > 0
        invariant
            source@ == text.spec_bytes(),
            input@.len() <= source@.len(),
            input@ == source@.skip(source@.len() - input@.len()),
            valid_utf8(input@),
            valid_utf8(buff@),
            render(source@, map@, policy) == render(input@, map@, policy).after(
                buff@,
                (source@.len() - input@.len()) as nat,
            ),
        decreases input@.len(),
    {
        let ghost before = input@;
        let ghost consumed = (source@.len() - before.len()) as nat;
        let ghost output = buff@;
        proof {
            lemma_next_token_span(before);
            lemma_token_utf8(before);
        }
        let Some(token) = token(&mut input) else {
            let position = source.len() - input.len();
            return Err(TemplateError::ParserError { position });
        };
        let ghost n = next_token(before).unwrap().1;
        proof {
            lemma_emit_utf8(token@, map@, policy);
        }
        let written = match policy {
            Policy::Strict => write_token(token, map, &mut buff),
            Policy::Permissive => safe_write_token(token, map, &mut buff),
        };
        if let Err(error) = written {
            return Err(error);
        }
        proof {
            let emitted = emit(token@, map@, policy)->Ok_0;
            valid_utf8_concat(output, emitted);
            render(input@, map@, policy).lemma_after_after(emitted, n, output, consumed);
        }
    }
    Ok(string_from_utf8(buff).unwrap())
}

} // verus!
