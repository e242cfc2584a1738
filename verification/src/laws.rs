//! What holds of rendering for every text and every mapping.
//!
//! The statements are about [`render`], the function by which the contracts
//! of `substitute` and `safe_substitute` say what they return, and about
//! [`delivers`], which ties its outcomes to the results that callers see.

use crate::error::TemplateError;
use crate::parser::{
    is_identifier, lemma_content_len, lemma_next_token_advances, lemma_next_token_extends,
    lemma_next_token_span, lemma_next_token_truncates, next_token, TokenView, DOLLAR,
};
use crate::template::{delivers, emit, lemma_emit_utf8, lookup, render, Policy, Rendering};
use crate::text::{
    ascii_text, lemma_ascii_decodes_to_its_text, lemma_dollar_in_text, lemma_identifier_is_ascii,
    lemma_token_utf8,
};
use vstd::prelude::*;
use vstd::string::*;
use vstd::utf8::*;

verus! {

/// The identifiers of the placeholders of `text`, in the order in which
/// rendering meets them, as far as `text` can be read.
pub open spec fn identifiers(text: Seq<u8>) -> Seq<Seq<u8>>
    decreases text.len(),
    via identifiers_decreases
{
    if text.len() == 0 {
        Seq::empty()
    } else {
        match next_token(text) {
            None => Seq::empty(),
            Some((token, n)) => match token {
                TokenView::SimplePlaceholder(id) | TokenView::BracketPlaceholder(id) => seq![id]
                    + identifiers(text.skip(n as int)),
                _ => identifiers(text.skip(n as int)),
            },
        }
    }
}

#[via_fn]
proof fn identifiers_decreases(text: Seq<u8>) {
    lemma_next_token_span(text);
}

/// `map` holds a replacement for every identifier that a placeholder of
/// `text` names.
pub open spec fn resolves(map: Map<Seq<char>, Seq<char>>, text: Seq<u8>) -> bool {
    forall|i: int|
        0 <= i < identifiers(text).len() ==> lookup(map, #[trigger] identifiers(text)[i]) is Some
}

/// `token` is a placeholder, and `map` holds nothing for its identifier.
pub open spec fn is_unresolved(token: TokenView, map: Map<Seq<char>, Seq<char>>) -> bool {
    match token {
        TokenView::SimplePlaceholder(id) | TokenView::BracketPlaceholder(id) => lookup(map, id)
            is None,
        _ => false,
    }
}

/// Two results say the same: the same text, the same position, or the same
/// missing key.
pub open spec fn same_result<'a, 'b>(
    first: Result<String, TemplateError<'a>>,
    second: Result<String, TemplateError<'b>>,
) -> bool {
    match (first, second) {
        (Ok(a), Ok(b)) => a@ == b@,
        (
            Err(TemplateError::ParserError { position: p }),
            Err(TemplateError::ParserError { position: q }),
        ) => p == q,
        (Err(TemplateError::KeyError(a)), Err(TemplateError::KeyError(b))) => a@ == b@,
        _ => false,
    }
}

/// The mapping is asked for the text that the identifier spells: the key of
/// a placeholder is its identifier, byte for character.
pub proof fn lemma_lookup_is_by_identifier_text(map: Map<Seq<char>, Seq<char>>, id: Seq<u8>)
    requires
        is_identifier(id),
    ensures
        lookup(map, id) == if map.contains_key(ascii_text(id)) {
            Some(encode_utf8(map[ascii_text(id)]))
        } else {
            None
        },
{
    lemma_identifier_is_ascii(id);
    lemma_ascii_decodes_to_its_text(id);
}

/// Rendering goes token by token: where `a` can be read to its end, and `b`
/// begins with `$` or is empty, `a + b` renders as `a` and then `b`. A key
/// that is missing in `a` is missing in `a + b`.
pub proof fn lemma_render_concat(
    a: Seq<u8>,
    b: Seq<u8>,
    map: Map<Seq<char>, Seq<char>>,
    policy: Policy,
)
    requires
        !(render(a, map, policy) is Malformed),
        b.len() == 0 || b[0] == DOLLAR,
    ensures
        render(a + b, map, policy) == match render(a, map, policy) {
            Rendering::Text(output) => render(b, map, policy).after(output, a.len()),
            other => other,
        },
    decreases a.len(),
{
    if a.len() == 0 {
        assert(a + b =~= b);
        render(b, map, policy).lemma_after_nothing();
    } else {
        lemma_next_token_span(a);
        lemma_next_token_extends(a, b);
        let (token, n) = next_token(a).unwrap();
        if let Ok(output) = emit(token, map, policy) {
            let rest = a.skip(n as int);
            assert((a + b).skip(n as int) =~= rest + b);
            lemma_render_concat(rest, b, map, policy);
            if let Rendering::Text(tail) = render(rest, map, policy) {
                render(b, map, policy).lemma_after_after(tail, rest.len(), output, n);
            }
        }
    }
}

/// Text without `$` renders to itself, under both policies and whatever the
/// mapping holds.
pub proof fn lemma_plain_text_is_unchanged(
    text: Seq<u8>,
    map: Map<Seq<char>, Seq<char>>,
    policy: Policy,
)
    requires
        !text.contains(DOLLAR),
    ensures
        render(text, map, policy) == Rendering::Text(text),
{
    if text.len() > 0 {
        assert forall|j: int| 0 <= j < text.len() implies #[trigger] text[j] != DOLLAR by {
            assert(text.contains(text[j]));
        }
        lemma_content_len(text, text.len() as int);
        assert(text.take(text.len() as int) =~= text);
        assert(render(text.skip(text.len() as int), map, policy) == Rendering::Text(Seq::empty()));
        assert(text + Seq::<u8>::empty() =~= text);
    } else {
        assert(text =~= Seq::<u8>::empty());
    }
}

/// A string without the character `$` is returned as it is: a result that
/// delivers the outcome of rendering it is `Ok` with the same characters.
pub proof fn lemma_plain_string_is_returned<'a>(
    source: &str,
    map: Map<Seq<char>, Seq<char>>,
    policy: Policy,
    result: Result<String, TemplateError<'a>>,
)
    requires
        !source@.contains('$'),
        delivers(result, render(source.spec_bytes(), map, policy)),
    ensures
        result matches Ok(text) && text@ == source@,
{
    lemma_dollar_in_text(source@);
    lemma_plain_text_is_unchanged(source.spec_bytes(), map, policy);
    encode_utf8_decode_utf8(result->Ok_0@);
    encode_utf8_decode_utf8(source@);
}

/// The escape `$$` renders to one `$`, whatever the mapping holds and under
/// both policies: where `prefix` can be read to its end with the output
/// `before`, the text `prefix`, `$$`, `suffix` renders to `before`, one `$`,
/// and what `suffix` renders to.
pub proof fn lemma_escape_renders_one_dollar(
    prefix: Seq<u8>,
    suffix: Seq<u8>,
    map: Map<Seq<char>, Seq<char>>,
    policy: Policy,
)
    requires
        render(prefix, map, policy) is Text,
    ensures
        ({
            let before = render(prefix, map, policy)->Text_0;
            render(prefix + seq![DOLLAR, DOLLAR] + suffix, map, policy) == render(
                suffix,
                map,
                policy,
            ).after(before + seq![DOLLAR], prefix.len() + 2)
        }),
{
    let before = render(prefix, map, policy)->Text_0;
    let rest = seq![DOLLAR, DOLLAR] + suffix;
    assert(rest.skip(2) =~= suffix);
    assert(render(rest, map, policy) == render(suffix, map, policy).after(seq![DOLLAR], 2));
    assert(prefix + seq![DOLLAR, DOLLAR] + suffix =~= prefix + rest);
    lemma_render_concat(prefix, rest, map, policy);
    render(suffix, map, policy).lemma_after_after(seq![DOLLAR], 2, before, prefix.len());
}

/// Where the mapping holds every identifier that the placeholders of the
/// text name, strict and permissive rendering have the same outcome.
pub proof fn lemma_policies_agree_on_resolved_text(text: Seq<u8>, map: Map<Seq<char>, Seq<char>>)
    requires
        resolves(map, text),
    ensures
        render(text, map, Policy::Strict) == render(text, map, Policy::Permissive),
    decreases text.len(),
{
    if text.len() > 0 {
        lemma_next_token_span(text);
        if let Some((token, n)) = next_token(text) {
            let rest = text.skip(n as int);
            let ids = identifiers(text);
            match token {
                TokenView::SimplePlaceholder(id) | TokenView::BracketPlaceholder(id) => {
                    assert(ids[0] == id);
                    assert forall|i: int| 0 <= i < identifiers(rest).len() implies lookup(
                        map,
                        #[trigger] identifiers(rest)[i],
                    ) is Some by {
                        assert(identifiers(rest)[i] == ids[i + 1]);
                    }
                },
                _ => {},
            }
            lemma_policies_agree_on_resolved_text(rest, map);
        }
    }
}

/// Permissive rendering copies a placeholder that the mapping cannot
/// resolve as it stands: where such a placeholder begins `text`, the output
/// begins with the very bytes of the placeholder, and goes on with what the
/// rest of the text renders to.
pub proof fn lemma_permissive_copies_unresolved(text: Seq<u8>, map: Map<Seq<char>, Seq<char>>)
    requires
        next_token(text) matches Some((token, _)) && is_unresolved(token, map),
    ensures
        ({
            let (token, n) = next_token(text).unwrap();
            let placeholder = text.take(n as int);
            let rest = text.skip(n as int);
            &&& emit(token, map, Policy::Permissive) == Ok::<Seq<u8>, Seq<u8>>(placeholder)
            &&& render(text, map, Policy::Permissive) == render(
                rest,
                map,
                Policy::Permissive,
            ).after(placeholder, n)
        }),
{
    lemma_next_token_span(text);
}

/// The same at any place of a text: after a `prefix` that can be read to
/// its end with the output `before`, an unresolved placeholder at the start
/// of `rest` appears in the output right after `before`, byte for byte.
pub proof fn lemma_permissive_copies_unresolved_in_place(
    prefix: Seq<u8>,
    rest: Seq<u8>,
    map: Map<Seq<char>, Seq<char>>,
)
    requires
        render(prefix, map, Policy::Permissive) is Text,
        next_token(rest) matches Some((token, _)) && is_unresolved(token, map),
    ensures
        ({
            let n = next_token(rest).unwrap().1;
            let before = render(prefix, map, Policy::Permissive)->Text_0;
            render(prefix + rest, map, Policy::Permissive) == render(
                rest.skip(n as int),
                map,
                Policy::Permissive,
            ).after(before + rest.take(n as int), prefix.len() + n)
        }),
{
    let n = next_token(rest).unwrap().1;
    let before = render(prefix, map, Policy::Permissive)->Text_0;
    lemma_next_token_span(rest);
    lemma_permissive_copies_unresolved(rest, map);
    lemma_render_concat(prefix, rest, map, Policy::Permissive);
    render(rest.skip(n as int), map, Policy::Permissive).lemma_after_after(
        rest.take(n as int),
        n,
        before,
        prefix.len(),
    );
}

/// Strict rendering fails on the first identifier that the mapping does not
/// hold, with that identifier as the missing key, and with no other error:
/// whatever follows the placeholder in the text is not looked at.
pub proof fn lemma_strict_reports_first_missing(
    text: Seq<u8>,
    map: Map<Seq<char>, Seq<char>>,
    first: int,
)
    requires
        0 <= first < identifiers(text).len(),
        lookup(map, identifiers(text)[first]) is None,
        forall|i: int| 0 <= i < first ==> lookup(map, #[trigger] identifiers(text)[i]) is Some,
    ensures
        render(text, map, Policy::Strict) == Rendering::MissingKey(identifiers(text)[first]),
    decreases text.len(),
{
    lemma_next_token_span(text);
    let (token, n) = next_token(text).unwrap();
    let rest = text.skip(n as int);
    let ids = identifiers(text);
    match token {
        TokenView::SimplePlaceholder(id) | TokenView::BracketPlaceholder(id) => {
            assert(ids[0] == id);
            if first > 0 {
                assert(lookup(map, ids[0]) is Some);
                assert(identifiers(rest) =~= ids.skip(1));
                assert forall|i: int| 0 <= i < first - 1 implies lookup(
                    map,
                    #[trigger] identifiers(rest)[i],
                ) is Some by {
                    assert(identifiers(rest)[i] == ids[i + 1]);
                }
                lemma_strict_reports_first_missing(rest, map, first - 1);
            }
        },
        _ => {
            lemma_strict_reports_first_missing(rest, map, first);
        },
    }
}

/// The first index, up to `upto`, of an identifier that the mapping does not
/// hold.
proof fn first_missing(ids: Seq<Seq<u8>>, map: Map<Seq<char>, Seq<char>>, upto: int) -> (first:
    int)
    requires
        0 <= upto < ids.len(),
        lookup(map, ids[upto]) is None,
    ensures
        0 <= first <= upto,
        lookup(map, ids[first]) is None,
        forall|i: int| 0 <= i < first ==> lookup(map, #[trigger] ids[i]) is Some,
    decreases upto,
{
    if exists|i: int| 0 <= i < upto && lookup(map, #[trigger] ids[i]) is None {
        let i = choose|i: int| 0 <= i < upto && lookup(map, #[trigger] ids[i]) is None;
        first_missing(ids, map, i)
    } else {
        upto
    }
}

/// Strict rendering fails with a missing key, and in no other way, as soon
/// as the mapping lacks an identifier that a placeholder of the text names.
pub proof fn lemma_strict_fails_on_missing(
    text: Seq<u8>,
    map: Map<Seq<char>, Seq<char>>,
    missing: int,
)
    requires
        0 <= missing < identifiers(text).len(),
        lookup(map, identifiers(text)[missing]) is None,
    ensures
        render(text, map, Policy::Strict) is MissingKey,
{
    let first = first_missing(identifiers(text), map, missing);
    lemma_strict_reports_first_missing(text, map, first);
}

/// A key that strict rendering reports as missing is the identifier of a
/// placeholder of the text, and the mapping does not hold it.
pub proof fn lemma_missing_key_is_referenced(text: Seq<u8>, map: Map<Seq<char>, Seq<char>>)
    requires
        render(text, map, Policy::Strict) is MissingKey,
    ensures
        ({
            let key = render(text, map, Policy::Strict)->MissingKey_0;
            identifiers(text).contains(key) && lookup(map, key) is None
        }),
    decreases text.len(),
{
    lemma_next_token_span(text);
    let (token, n) = next_token(text).unwrap();
    let rest = text.skip(n as int);
    let ids = identifiers(text);
    let key = render(text, map, Policy::Strict)->MissingKey_0;
    if emit(token, map, Policy::Strict) is Ok {
        lemma_missing_key_is_referenced(rest, map);
        let i = choose|i: int| 0 <= i < identifiers(rest).len() && identifiers(rest)[i] == key;
        match token {
            TokenView::SimplePlaceholder(id) | TokenView::BracketPlaceholder(id) => {
                assert(ids[i + 1] == key);
            },
            _ => {
                assert(ids[i] == key);
            },
        }
    } else {
        assert(ids[0] == key);
    }
}

/// Strict rendering succeeds exactly where permissive rendering succeeds
/// and the mapping holds every identifier that a placeholder of the text
/// names.
pub proof fn lemma_strict_succeeds_iff(text: Seq<u8>, map: Map<Seq<char>, Seq<char>>)
    ensures
        render(text, map, Policy::Strict) is Text <==> render(text, map, Policy::Permissive)
            is Text && resolves(map, text),
{
    let ids = identifiers(text);
    if resolves(map, text) {
        lemma_policies_agree_on_resolved_text(text, map);
    } else {
        let missing = choose|i: int| 0 <= i < ids.len() && lookup(map, #[trigger] ids[i]) is None;
        lemma_strict_fails_on_missing(text, map, missing);
    }
}

/// `position` is the first place where `text` cannot be read: a `$` at
/// which no form of the grammar begins, behind text that can be read to its
/// end.
pub open spec fn is_first_failure(
    text: Seq<u8>,
    position: int,
    map: Map<Seq<char>, Seq<char>>,
    policy: Policy,
) -> bool {
    &&& 0 <= position < text.len()
    &&& text[position] == DOLLAR
    &&& next_token(text.skip(position)) is None
    &&& render(text.take(position), map, policy) is Text
}

/// A text at whose start no token can be read fails there.
proof fn lemma_failure_at_start(text: Seq<u8>, map: Map<Seq<char>, Seq<char>>, policy: Policy)
    requires
        text.len() > 0,
        next_token(text) is None,
    ensures
        is_first_failure(text, 0, map, policy),
{
    assert(text.skip(0) =~= text);
    assert(text.take(0) =~= Seq::<u8>::empty());
}

/// A first failure of the text behind the first token is a first failure
/// of the text, as many bytes further as the token is long.
proof fn lemma_failure_behind_token(
    text: Seq<u8>,
    position: int,
    map: Map<Seq<char>, Seq<char>>,
    policy: Policy,
)
    requires
        text.len() > 0,
        next_token(text) matches Some((token, n)) && emit(token, map, policy) is Ok
            && is_first_failure(text.skip(n as int), position - n, map, policy),
    ensures
        is_first_failure(text, position, map, policy),
{
    let n = next_token(text).unwrap().1;
    let a = text.take(position);
    let b = text.skip(position);
    lemma_next_token_advances(text);
    assert(b =~= text.skip(n as int).skip(position - n));
    assert(text =~= a + b);
    lemma_next_token_truncates(a, b);
    assert(a.skip(n as int) =~= text.skip(n as int).take(position - n));
}

/// A parse failure is reported at the first place where the text cannot be
/// read: the position is that of a `$` at which no form of the grammar
/// begins, and all the text before it can be read to its end.
pub proof fn lemma_parse_failure_is_first(
    text: Seq<u8>,
    map: Map<Seq<char>, Seq<char>>,
    policy: Policy,
)
    requires
        render(text, map, policy) is Malformed,
    ensures
        is_first_failure(text, render(text, map, policy)->Malformed_0 as int, map, policy),
    decreases text.len(),
{
    let position = render(text, map, policy)->Malformed_0 as int;
    match next_token(text) {
        None => {
            lemma_failure_at_start(text, map, policy);
        },
        Some((token, n)) => {
            lemma_next_token_advances(text);
            lemma_parse_failure_is_first(text.skip(n as int), map, policy);
            lemma_failure_behind_token(text, position, map, policy);
        },
    }
}

/// Two renderings of one text that both end in a parse failure report the
/// same position, whatever the mappings and the policies.
pub proof fn lemma_parse_failure_is_unique(
    text: Seq<u8>,
    first_map: Map<Seq<char>, Seq<char>>,
    first_policy: Policy,
    second_map: Map<Seq<char>, Seq<char>>,
    second_policy: Policy,
)
    requires
        render(text, first_map, first_policy) is Malformed,
        render(text, second_map, second_policy) is Malformed,
    ensures
        render(text, first_map, first_policy) == render(text, second_map, second_policy),
    decreases text.len(),
{
    lemma_next_token_span(text);
    if let Some((token, n)) = next_token(text) {
        lemma_parse_failure_is_unique(
            text.skip(n as int),
            first_map,
            first_policy,
            second_map,
            second_policy,
        );
    }
}

/// Whether and where permissive rendering fails is a matter of the text
/// alone: a parse failure under one mapping is the same parse failure under
/// every mapping.
pub proof fn lemma_permissive_failure_ignores_mapping(
    text: Seq<u8>,
    map: Map<Seq<char>, Seq<char>>,
    other: Map<Seq<char>, Seq<char>>,
)
    requires
        render(text, map, Policy::Permissive) is Malformed,
    ensures
        render(text, other, Policy::Permissive) == render(text, map, Policy::Permissive),
    decreases text.len(),
{
    lemma_next_token_span(text);
    if let Some((token, n)) = next_token(text) {
        lemma_permissive_failure_ignores_mapping(text.skip(n as int), map, other);
    }
}

/// Rendering text gives text: the output for valid UTF-8 is valid UTF-8,
/// whatever the mapping holds, as no token begins or ends within the
/// encoding of a character.
pub proof fn lemma_rendering_is_utf8(
    text: Seq<u8>,
    map: Map<Seq<char>, Seq<char>>,
    policy: Policy,
)
    requires
        valid_utf8(text),
    ensures
        render(text, map, policy) matches Rendering::Text(output) ==> valid_utf8(output),
    decreases text.len(),
{
    if text.len() > 0 {
        lemma_next_token_span(text);
        lemma_token_utf8(text);
        if let Some((token, n)) = next_token(text) {
            lemma_emit_utf8(token, map, policy);
            lemma_rendering_is_utf8(text.skip(n as int), map, policy);
            if let Ok(output) = emit(token, map, policy) {
                if let Rendering::Text(tail) = render(text.skip(n as int), map, policy) {
                    valid_utf8_concat(output, tail);
                }
            }
        }
    }
}

/// Rendering has no hidden state: two results that deliver the rendering of
/// the same text under the same mapping and policy say the same.
pub proof fn lemma_rendering_is_repeatable<'a, 'b>(
    text: Seq<u8>,
    map: Map<Seq<char>, Seq<char>>,
    policy: Policy,
    first: Result<String, TemplateError<'a>>,
    second: Result<String, TemplateError<'b>>,
)
    requires
        delivers(first, render(text, map, policy)),
        delivers(second, render(text, map, policy)),
    ensures
        same_result(first, second),
{
    match render(text, map, policy) {
        Rendering::Text(_) => {
            encode_utf8_decode_utf8(first->Ok_0@);
            encode_utf8_decode_utf8(second->Ok_0@);
        },
        Rendering::Malformed(_) => {},
        Rendering::MissingKey(_) => {
            encode_utf8_decode_utf8(first->Err_0->KeyError_0@);
            encode_utf8_decode_utf8(second->Err_0->KeyError_0@);
        },
    }
}

} // verus!
