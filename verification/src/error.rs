//! The two ways in which rendering a template fails.

use vstd::prelude::*;
use vstd::string::*;

verus! {

/// Why a template could not be rendered.
#[derive(Debug, Clone, Copy, PartialEq, Eq)]
pub enum TemplateError<'input> {
    /// The text is not a valid template.
    ParserError {
        /// The byte offset of the `$` at which no form of the grammar begins.
        position: usize,
    },
    /// A placeholder names an identifier that the mapping does not hold.
    KeyError(&'input str),
}

/// The character that stands for the digit `d`.
pub open spec fn digit_char(d: nat) -> char
    recommends
        d < 10,
{
    if d == 0 {
        '0'
    } else if d == 1 {
        '1'
    } else if d == 2 {
        '2'
    } else if d == 3 {
        '3'
    } else if d == 4 {
        '4'
    } else if d == 5 {
        '5'
    } else if d == 6 {
        '6'
    } else if d == 7 {
        '7'
    } else if d == 8 {
        '8'
    } else {
        '9'
    }
}

/// The decimal numeral of `n`, without leading zeros.
pub open spec fn decimal(n: nat) -> Seq<char>
    decreases n,
{
    if n < 10 {
        seq![digit_char(n)]
    } else {
        decimal(n / 10).push(digit_char(n % 10))
    }
}

/// The numeral of one digit.
fn digit(d: usize) -> (numeral: &'static str)
    requires
        d < 10,
    ensures
        numeral@ == seq![digit_char(d as nat)],
{
    proof {
        reveal_strlit("0");
        reveal_strlit("1");
        reveal_strlit("2");
        reveal_strlit("3");
        reveal_strlit("4");
        reveal_strlit("5");
        reveal_strlit("6");
        reveal_strlit("7");
        reveal_strlit("8");
        reveal_strlit("9");
    }
    if d == 0 {
        "0"
    } else if d == 1 {
        "1"
    } else if d == 2 {
        "2"
    } else if d == 3 {
        "3"
    } else if d == 4 {
        "4"
    } else if d == 5 {
        "5"
    } else if d == 6 {
        "6"
    } else if d == 7 {
        "7"
    } else if d == 8 {
        "8"
    } else {
        "9"
    }
}

/// Writes `n` in decimal.
fn decimal_string(n: usize) -> (numeral: String)
    ensures
        numeral@ == decimal(n as nat),
    decreases n,
{
    if n < 10 {
        digit(n).to_owned()
    } else {
        let mut numeral = decimal_string(n / 10);
        numeral.append(digit(n % 10));
        numeral
    }
}

impl<'input> TemplateError<'input> {
    /// The text of [`TemplateError::message`].
    pub open spec fn message_text(self) -> Seq<char> {
        match self {
            TemplateError::ParserError { position } => {
                "Invalid placeholder on input at position "@ + decimal(position as nat)
            },
            TemplateError::KeyError(key) => "Missing key \""@ + key@ + "\""@,
        }
    }

    /// A sentence that describes the error: where the text is malformed, or
    /// which key is missing.
    pub fn message(&self) -> (message: String)
        ensures
            message@ == self.message_text(),
    {
        match *self {
            TemplateError::ParserError { position } => {
                let mut message = "Invalid placeholder on input at position ".to_owned();
                let numeral = decimal_string(position);
                message.append(numeral.as_str());
                message
            },
            TemplateError::KeyError(key) => {
                let mut message = "Missing key \"".to_owned();
                message.append(key);
                message.append("\"");
                message
            },
        }
    }
}

} // verus!
