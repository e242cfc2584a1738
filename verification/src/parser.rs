//! The placeholder grammar: tokens, the rules that recognise them on a byte
//! cursor, and the mathematical description of what each rule accepts.
//!
//! At every position the alternatives are tried in a fixed order: a literal
//! run, the escape `$$`, a bracket placeholder `${identifier}`, a simple
//! placeholder `$identifier`.

use vstd::prelude::*;
use vstd::slice::slice_subrange;
use winnow::stream::AsChar;

verus! {

/// The byte `$`, which introduces every form that is not literal content.
pub const DOLLAR: u8 = 0x24;

/// The byte `{`, which opens a bracket placeholder.
pub const OPEN_BRACE: u8 = 0x7B;

/// The byte `}`, which closes a bracket placeholder.
pub const CLOSE_BRACE: u8 = 0x7D;

/// The byte `_`, the one identifier byte that is neither a letter nor a digit.
pub const UNDERSCORE: u8 = 0x5F;

/// One grammatical unit of a template. The bytes it carries are slices of the
/// input it was read from.
#[derive(Debug, Clone, Copy, PartialEq, Eq)]
pub enum Token<'slice> {
    /// The escape sequence `$$`.
    Escape,
    /// A simple placeholder `$identifier`; holds the identifier.
    SimplePlaceholder(&'slice [u8]),
    /// A bracket placeholder `${identifier}`; holds the identifier.
    BracketPlaceholder(&'slice [u8]),
    /// A maximal run of literal bytes.
    Content(&'slice [u8]),
}

/// What a [`Token`] stands for: the same variants over byte sequences.
pub ghost enum TokenView {
    Escape,
    SimplePlaceholder(Seq<u8>),
    BracketPlaceholder(Seq<u8>),
    Content(Seq<u8>),
}

impl<'slice> View for Token<'slice> {
    type V = TokenView;

    open spec fn view(&self) -> TokenView {
        match *self {
            Token::Escape => TokenView::Escape,
            Token::SimplePlaceholder(id) => TokenView::SimplePlaceholder(id@),
            Token::BracketPlaceholder(id) => TokenView::BracketPlaceholder(id@),
            Token::Content(bytes) => TokenView::Content(bytes@),
        }
    }
}

impl TokenView {
    /// A placeholder carries an identifier; the other tokens carry any bytes.
    pub open spec fn wf(self) -> bool {
        match self {
            TokenView::SimplePlaceholder(id) => is_identifier(id),
            TokenView::BracketPlaceholder(id) => is_identifier(id),
            _ => true,
        }
    }

    /// The bytes of the template text that this token was read from.
    pub open spec fn surface(self) -> Seq<u8> {
        match self {
            TokenView::Escape => seq![DOLLAR, DOLLAR],
            TokenView::SimplePlaceholder(id) => seq![DOLLAR] + id,
            TokenView::BracketPlaceholder(id) => seq![DOLLAR, OPEN_BRACE] + id + seq![CLOSE_BRACE],
            TokenView::Content(bytes) => bytes,
        }
    }
}

/// An ASCII letter, upper or lower case.
pub open spec fn is_ascii_letter(b: u8) -> bool {
    (0x41 <= b <= 0x5A) || (0x61 <= b <= 0x7A)
}

/// An ASCII decimal digit.
pub open spec fn is_ascii_digit(b: u8) -> bool {
    0x30 <= b <= 0x39
}

/// A byte that may begin an identifier: a letter or the underscore.
pub open spec fn is_identifier_start(b: u8) -> bool {
    is_ascii_letter(b) || b == UNDERSCORE
}

/// A byte that may continue an identifier: a letter, a digit or the underscore.
pub open spec fn is_identifier_part(b: u8) -> bool {
    is_ascii_letter(b) || is_ascii_digit(b) || b == UNDERSCORE
}

/// A non-empty run that begins with a start byte and goes on with part bytes.
pub open spec fn is_identifier(id: Seq<u8>) -> bool {
    &&& id.len() > 0
    &&& is_identifier_start(id[0])
    &&& forall|i: int| 0 < i < id.len() ==> is_identifier_part(#[trigger] id[i])
}

/// The number of bytes at the start of `s` that may continue an identifier.
pub open spec fn identifier_tail_len(s: Seq<u8>) -> nat
    decreases s.len(),
{
    if s.len() > 0 && is_identifier_part(s[0]) {
        1 + identifier_tail_len(s.skip(1))
    } else {
        0
    }
}

/// The length of the identifier at the start of `s`; zero where none begins there.
pub open spec fn identifier_len(s: Seq<u8>) -> nat {
    if s.len() > 0 && is_identifier_start(s[0]) {
        1 + identifier_tail_len(s.skip(1))
    } else {
        0
    }
}

/// The number of bytes at the start of `s` that come before its first `$`:
/// the whole length where `s` holds none.
pub open spec fn content_len(s: Seq<u8>) -> nat
    decreases s.len(),
{
    if s.len() > 0 && s[0] != DOLLAR {
        1 + content_len(s.skip(1))
    } else {
        0
    }
}

/// The literal run at the start of `s`, with its length. It is all of `s`
/// where `s` holds no `$`, and is refused only where `s` begins with `$`.
pub open spec fn content_token(s: Seq<u8>) -> Option<(TokenView, nat)> {
    if s.len() > 0 && s[0] == DOLLAR {
        None
    } else {
        Some((TokenView::Content(s.take(content_len(s) as int)), content_len(s)))
    }
}

/// The escape at the start of `s`: exactly the two bytes `$$`.
pub open spec fn escape_token(s: Seq<u8>) -> Option<(TokenView, nat)> {
    if s.len() >= 2 && s[0] == DOLLAR && s[1] == DOLLAR {
        Some((TokenView::Escape, 2))
    } else {
        None
    }
}

/// The bracket placeholder at the start of `s`: `$`, `{`, an identifier, `}`.
pub open spec fn bracket_token(s: Seq<u8>) -> Option<(TokenView, nat)> {
    if s.len() >= 2 && s[0] == DOLLAR && s[1] == OPEN_BRACE {
        let n = identifier_len(s.skip(2)) as int;
        if n > 0 && 2 + n < s.len() && s[2 + n] == CLOSE_BRACE {
            Some((TokenView::BracketPlaceholder(s.subrange(2, 2 + n)), (n + 3) as nat))
        } else {
            None
        }
    } else {
        None
    }
}

/// The simple placeholder at the start of `s`: `$`, then an identifier.
pub open spec fn simple_token(s: Seq<u8>) -> Option<(TokenView, nat)> {
    if s.len() >= 1 && s[0] == DOLLAR {
        let n = identifier_len(s.skip(1)) as int;
        if n > 0 {
            Some((TokenView::SimplePlaceholder(s.subrange(1, 1 + n)), (n + 1) as nat))
        } else {
            None
        }
    } else {
        None
    }
}

/// The token at the start of `s` and the number of bytes it spans: the first
/// alternative that accepts, in the order content, escape, bracket
/// placeholder, simple placeholder. `None` where no alternative accepts.
pub open spec fn next_token(s: Seq<u8>) -> Option<(TokenView, nat)> {
    if content_token(s) is Some {
        content_token(s)
    } else if escape_token(s) is Some {
        escape_token(s)
    } else if bracket_token(s) is Some {
        bracket_token(s)
    } else {
        simple_token(s)
    }
}

/// What a rule does to the cursor: on a match `found` is the matched token's
/// payload and the cursor has moved past the token; otherwise nothing is
/// found and the cursor stays where it was.
pub open spec fn recognised(
    rule: Option<(TokenView, nat)>,
    before: Seq<u8>,
    after: Seq<u8>,
    found: Option<TokenView>,
) -> bool {
    match rule {
        Some((token, n)) => found == Some(token) && after == before.skip(n as int),
        None => found is None && after == before,
    }
}

/// A count `n` of leading part bytes that stops at the end of `s` or at a
/// byte that cannot continue an identifier is the tail length of `s`.
pub proof fn lemma_identifier_tail_len(s: Seq<u8>, n: int)
    requires
        0 <= n <= s.len(),
        forall|j: int| 0 <= j < n ==> is_identifier_part(#[trigger] s[j]),
        n < s.len() ==> !is_identifier_part(s[n]),
    ensures
        identifier_tail_len(s) == n,
    decreases n,
{
    if n > 0 {
        let rest = s.skip(1);
        assert forall|j: int| 0 <= j < n - 1 implies is_identifier_part(#[trigger] rest[j]) by {
            assert(rest[j] == s[j + 1]);
        }
        lemma_identifier_tail_len(rest, n - 1);
    }
}

/// The tail length stays within `s`, covers part bytes only, and stops at
/// the end of `s` or at a byte that cannot continue an identifier.
pub proof fn lemma_identifier_tail_run(s: Seq<u8>)
    ensures
        identifier_tail_len(s) <= s.len(),
        forall|j: int| 0 <= j < identifier_tail_len(s) ==> is_identifier_part(#[trigger] s[j]),
        identifier_tail_len(s) < s.len() ==> !is_identifier_part(s[identifier_tail_len(s) as int]),
    decreases s.len(),
{
    if s.len() > 0 && is_identifier_part(s[0]) {
        let rest = s.skip(1);
        lemma_identifier_tail_run(rest);
        assert forall|j: int| 0 <= j < identifier_tail_len(s) implies is_identifier_part(
            #[trigger] s[j],
        ) by {
            if j > 0 {
                assert(s[j] == rest[j - 1]);
            }
        }
    }
}

/// Where an identifier begins `s`, its bytes form an identifier and the byte
/// after it, if any, cannot continue one.
pub proof fn lemma_identifier_run(s: Seq<u8>)
    ensures
        identifier_len(s) <= s.len(),
        identifier_len(s) > 0 ==> is_identifier(s.take(identifier_len(s) as int)),
        0 < identifier_len(s) < s.len() ==> !is_identifier_part(s[identifier_len(s) as int]),
{
    if s.len() > 0 && is_identifier_start(s[0]) {
        let rest = s.skip(1);
        let n = identifier_len(s);
        lemma_identifier_tail_run(rest);
        let id = s.take(n as int);
        assert forall|i: int| 0 < i < id.len() implies is_identifier_part(#[trigger] id[i]) by {
            assert(id[i] == rest[i - 1]);
        }
    }
}

/// A count `n` of leading bytes other than `$` that stops at the end of `s`
/// or at a `$` is the content length of `s`.
pub proof fn lemma_content_len(s: Seq<u8>, n: int)
    requires
        0 <= n <= s.len(),
        forall|j: int| 0 <= j < n ==> #[trigger] s[j] != DOLLAR,
        n < s.len() ==> s[n] == DOLLAR,
    ensures
        content_len(s) == n,
    decreases n,
{
    if n > 0 {
        let rest = s.skip(1);
        assert forall|j: int| 0 <= j < n - 1 implies #[trigger] rest[j] != DOLLAR by {
            assert(rest[j] == s[j + 1]);
        }
        lemma_content_len(rest, n - 1);
    }
}

/// The content length stays within `s`, covers no `$`, and stops at the end
/// of `s` or at a `$`.
pub proof fn lemma_content_run(s: Seq<u8>)
    ensures
        content_len(s) <= s.len(),
        forall|j: int| 0 <= j < content_len(s) ==> #[trigger] s[j] != DOLLAR,
        content_len(s) < s.len() ==> s[content_len(s) as int] == DOLLAR,
    decreases s.len(),
{
    if s.len() > 0 && s[0] != DOLLAR {
        let rest = s.skip(1);
        lemma_content_run(rest);
        assert forall|j: int| 0 <= j < content_len(s) implies #[trigger] s[j] != DOLLAR by {
            if j > 0 {
                assert(s[j] == rest[j - 1]);
            }
        }
    }
}

/// A token that is found spans at least one byte of a non-empty `s`, never
/// more than `s` holds, is well formed, and has the bytes it spans as its
/// surface form.
pub proof fn lemma_next_token_span(s: Seq<u8>)
    ensures
        next_token(s) matches Some((token, n)) ==> {
            &&& n <= s.len()
            &&& (s.len() > 0 ==> n > 0)
            &&& token.wf()
            &&& token.surface() == s.take(n as int)
        },
{
    if content_token(s) is Some {
        lemma_content_run(s);
    } else if escape_token(s) is Some {
        assert(seq![DOLLAR, DOLLAR] =~= s.take(2));
    } else if bracket_token(s) is Some {
        let n = identifier_len(s.skip(2)) as int;
        lemma_identifier_run(s.skip(2));
        assert(s.skip(2).take(n) =~= s.subrange(2, 2 + n));
        assert(seq![DOLLAR, OPEN_BRACE] + s.subrange(2, 2 + n) + seq![CLOSE_BRACE] =~= s.take(
            n + 3,
        ));
    } else if simple_token(s) is Some {
        let n = identifier_len(s.skip(1)) as int;
        lemma_identifier_run(s.skip(1));
        assert(s.skip(1).take(n) =~= s.subrange(1, 1 + n));
        assert(seq![DOLLAR] + s.subrange(1, 1 + n) =~= s.take(n + 1));
    }
}

/// A token that is found takes at least one byte of a non-empty `s`, and
/// never more than `s` holds.
pub proof fn lemma_next_token_advances(s: Seq<u8>)
    ensures
        next_token(s) matches Some((_, n)) ==> n <= s.len() && (s.len() > 0 ==> n > 0),
{
    lemma_next_token_span(s);
}

/// Bytes appended to `a` leave its content length as it is, where they begin
/// with `$` or are none at all.
pub proof fn lemma_content_len_extends(a: Seq<u8>, b: Seq<u8>)
    requires
        b.len() == 0 || b[0] == DOLLAR,
    ensures
        content_len(a + b) == content_len(a),
{
    lemma_content_run(a);
    lemma_content_len(a + b, content_len(a) as int);
}

/// Bytes appended to `a` leave the length of its identifier as it is, where
/// they begin with a byte that cannot continue an identifier or are none at
/// all.
pub proof fn lemma_identifier_len_extends(a: Seq<u8>, b: Seq<u8>)
    requires
        b.len() == 0 || !is_identifier_part(b[0]),
    ensures
        identifier_len(a + b) == identifier_len(a),
{
    if a.len() > 0 {
        let rest = a.skip(1);
        lemma_identifier_tail_run(rest);
        assert((a + b).skip(1) =~= rest + b);
        lemma_identifier_tail_len(rest + b, identifier_tail_len(rest) as int);
    } else {
        assert(a + b =~= b);
    }
}

/// The token at the start of `a` is the token at the start of `a + b`, where
/// `b` begins with `$` or is empty: no token reaches past a `$` that it did
/// not begin with, nor past the end.
pub proof fn lemma_next_token_extends(a: Seq<u8>, b: Seq<u8>)
    requires
        a.len() > 0,
        next_token(a) is Some,
        b.len() == 0 || b[0] == DOLLAR,
    ensures
        next_token(a + b) == next_token(a),
{
    let ab = a + b;
    lemma_next_token_span(a);
    lemma_content_len_extends(a, b);
    if content_token(a) is Some {
        assert(ab.take(content_len(a) as int) =~= a.take(content_len(a) as int));
    } else {
        assert(a.len() >= 2) by {
            lemma_identifier_run(a.skip(1));
        }
        assert(ab.skip(1) =~= a.skip(1) + b);
        assert(ab.skip(2) =~= a.skip(2) + b);
        lemma_identifier_len_extends(a.skip(1), b);
        lemma_identifier_len_extends(a.skip(2), b);
        if bracket_token(a) is Some {
            let n = identifier_len(a.skip(2)) as int;
            assert(ab.subrange(2, 2 + n) =~= a.subrange(2, 2 + n));
        } else if escape_token(a) is None {
            let n = identifier_len(a.skip(1)) as int;
            assert(ab.subrange(1, 1 + n) =~= a.subrange(1, 1 + n));
        }
    }
}

/// A token at the start of `a + b` that ends within `a` is the token at the
/// start of `a`, where `b` begins with `$` or is empty.
pub proof fn lemma_next_token_truncates(a: Seq<u8>, b: Seq<u8>)
    requires
        a.len() > 0,
        b.len() == 0 || b[0] == DOLLAR,
        next_token(a + b) matches Some((_, n)) && n <= a.len(),
    ensures
        next_token(a) == next_token(a + b),
{
    let ab = a + b;
    assert(ab[0] == a[0]);
    if content_token(ab) is None {
        assert(a.len() >= 2) by {
            lemma_next_token_span(ab);
        }
        assert(ab[1] == a[1]);
        assert(ab.skip(1) =~= a.skip(1) + b);
        assert(ab.skip(2) =~= a.skip(2) + b);
        lemma_identifier_len_extends(a.skip(1), b);
        lemma_identifier_len_extends(a.skip(2), b);
    }
    lemma_next_token_extends(a, b);
}

/// `winnow::stream::AsChar::is_alpha` on a byte: true exactly for the ASCII
/// letters `A` to `Z` and `a` to `z`.
#[verifier::external_body]
fn is_alpha(b: u8) -> (r: bool)
    ensures
        r == is_ascii_letter(b),
{
    AsChar::is_alpha(b)
}

/// `winnow::stream::AsChar::is_alphanum` on a byte: true exactly for the
/// ASCII letters and the decimal digits `0` to `9`.
#[verifier::external_body]
fn is_alphanum(b: u8) -> (r: bool)
    ensures
        r == (is_ascii_letter(b) || is_ascii_digit(b)),
{
    AsChar::is_alphanum(b)
}

/// Takes one byte that may begin an identifier.
fn identifier_first<'i>(input: &mut &'i [u8]) -> (r: Option<u8>)
    ensures
        match r {
            Some(b) => {
                &&& old(input)@.len() > 0
                &&& b == old(input)@[0]
                &&& is_identifier_start(b)
                &&& final(input)@ == old(input)@.skip(1)
            },
            None => {
                &&& !(old(input)@.len() > 0 && is_identifier_start(old(input)@[0]))
                &&& final(input)@ == old(input)@
            },
        },
{
    let s: &'i [u8] = *input;
    if s.len() > 0 && (is_alpha(s[0]) || s[0] == UNDERSCORE) {
        *input = slice_subrange(s, 1, s.len());
        Some(s[0])
    } else {
        None
    }
}

/// Takes the longest run, possibly empty, of bytes that may continue an
/// identifier.
fn identifier_rest<'i>(input: &mut &'i [u8]) -> (r: &'i [u8])
    ensures
        r@ == old(input)@.take(identifier_tail_len(old(input)@) as int),
        final(input)@ == old(input)@.skip(identifier_tail_len(old(input)@) as int),
{
    let s: &'i [u8] = *input;
    let mut n: usize = 0;
    while n < s.len() && (is_alphanum(s[n]) || s[n] == UNDERSCORE)
        invariant
            n <= s.len(),
            forall|j: int| 0 <= j < n ==> is_identifier_part(#[trigger] s@[j]),
        decreases s.len() - n,
    {
        n += 1;
    }
    proof {
        lemma_identifier_tail_len(s@, n as int);
    }
    *input = slice_subrange(s, n, s.len());
    slice_subrange(s, 0, n)
}

/// Takes an identifier: one start byte and the part bytes that follow it.
fn identifier<'i>(input: &mut &'i [u8]) -> (r: Option<&'i [u8]>)
    ensures
        match r {
            Some(id) => {
                &&& identifier_len(old(input)@) > 0
                &&& id@ == old(input)@.take(identifier_len(old(input)@) as int)
                &&& final(input)@ == old(input)@.skip(identifier_len(old(input)@) as int)
            },
            None => identifier_len(old(input)@) == 0 && final(input)@ == old(input)@,
        },
{
    let start: &'i [u8] = *input;
    match identifier_first(input) {
        None => None,
        Some(_) => {
            let _ = identifier_rest(input);
            proof {
                lemma_identifier_tail_run(start@.skip(1));
            }
            Some(slice_subrange(start, 0, start.len() - input.len()))
        },
    }
}

/// Recognises a simple placeholder and returns its identifier.
pub fn simple_placeholder<'i>(input: &mut &'i [u8]) -> (r: Option<&'i [u8]>)
    ensures
        recognised(
            simple_token(old(input)@),
            old(input)@,
            final(input)@,
            match r {
                Some(id) => Some(TokenView::SimplePlaceholder(id@)),
                None => None,
            },
        ),
{
    let start: &'i [u8] = *input;
    if start.len() == 0 || start[0] != DOLLAR {
        return None;
    }
    let mut cursor: &'i [u8] = slice_subrange(start, 1, start.len());
    proof {
        lemma_identifier_run(start@.skip(1));
    }
    match identifier(&mut cursor) {
        None => None,
        Some(id) => {
            let ghost n = identifier_len(start@.skip(1)) as int;
            assert(id@ =~= start@.subrange(1, 1 + n));
            assert(cursor@ =~= start@.skip(n + 1));
            *input = cursor;
            Some(id)
        },
    }
}

/// Recognises a bracket placeholder and returns its identifier.
pub fn bracket_placeholder<'i>(input: &mut &'i [u8]) -> (r: Option<&'i [u8]>)
    ensures
        recognised(
            bracket_token(old(input)@),
            old(input)@,
            final(input)@,
            match r {
                Some(id) => Some(TokenView::BracketPlaceholder(id@)),
                None => None,
            },
        ),
{
    let start: &'i [u8] = *input;
    if start.len() < 2 || start[0] != DOLLAR || start[1] != OPEN_BRACE {
        return None;
    }
    let mut cursor: &'i [u8] = slice_subrange(start, 2, start.len());
    proof {
        lemma_identifier_run(start@.skip(2));
    }
    match identifier(&mut cursor) {
        None => None,
        Some(id) => {
            let ghost n = identifier_len(start@.skip(2)) as int;
            assert(id@ =~= start@.subrange(2, 2 + n));
            if cursor.len() > 0 && cursor[0] == CLOSE_BRACE {
                *input = slice_subrange(cursor, 1, cursor.len());
                assert(input@ =~= start@.skip(n + 3));
                Some(id)
            } else {
                None
            }
        },
    }
}

/// Recognises the escape `$$`.
pub fn escape<'i>(input: &mut &'i [u8]) -> (r: Option<()>)
    ensures
        recognised(
            escape_token(old(input)@),
            old(input)@,
            final(input)@,
            match r {
                Some(_) => Some(TokenView::Escape),
                None => None,
            },
        ),
{
    let s: &'i [u8] = *input;
    if s.len() >= 2 && s[0] == DOLLAR && s[1] == DOLLAR {
        *input = slice_subrange(s, 2, s.len());
        Some(())
    } else {
        None
    }
}

/// Recognises a literal run: everything up to the next `$`, or all that is
/// left where no `$` follows. Refuses only an input that begins with `$`.
pub fn content<'i>(input: &mut &'i [u8]) -> (r: Option<&'i [u8]>)
    ensures
        recognised(
            content_token(old(input)@),
            old(input)@,
            final(input)@,
            match r {
                Some(bytes) => Some(TokenView::Content(bytes@)),
                None => None,
            },
        ),
{
    let s: &'i [u8] = *input;
    let mut n: usize = 0;
    while n < s.len() && s[n] != DOLLAR
        invariant
            n <= s.len(),
            forall|j: int| 0 <= j < n ==> #[trigger] s@[j] != DOLLAR,
        decreases s.len() - n,
    {
        n += 1;
    }
    proof {
        lemma_content_len(s@, n as int);
    }
    if n == 0 && s.len() > 0 {
        return None;
    }
    *input = slice_subrange(s, n, s.len());
    Some(slice_subrange(s, 0, n))
}

/// Reads the next token at the cursor and moves the cursor past it. Where no
/// alternative of the grammar accepts, returns `None` and leaves the cursor
/// at the `$` that could not be read.
pub fn token<'i>(input: &mut &'i [u8]) -> (r: Option<Token<'i>>)
    ensures
        recognised(
            next_token(old(input)@),
            old(input)@,
            final(input)@,
            match r {
                Some(t) => Some(t@),
                None => None,
            },
        ),
        r matches Some(t) ==> t@.wf(),
{
    proof {
        lemma_next_token_span(input@);
    }
    if let Some(bytes) = content(input) {
        return Some(Token::Content(bytes));
    }
    if let Some(_) = escape(input) {
        return Some(Token::Escape);
    }
    if let Some(id) = bracket_placeholder(input) {
        return Some(Token::BracketPlaceholder(id));
    }
    if let Some(id) = simple_placeholder(input) {
        return Some(Token::SimplePlaceholder(id));
    }
    None
}

} // verus!
