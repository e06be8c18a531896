//! Positional errors: what went wrong, and at which character of the input.

use vstd::prelude::*;
use crate::scanner::{TokenKind, char_kind};

verus! {

/// The kinds of failure.
#[derive(Debug, PartialEq, Eq, Clone, Copy, Structural)]
pub enum ErrorKind {
    /// A character that is neither blank nor part of any token.
    InvalidCharacter,
    /// A token stands where an operand is required, and it is no number.
    ExpectedNumber,
    /// The input ends where an operand is required.
    UnexpectedEndOfInput,
}

/// A failure and the position it points at, counted in characters.
#[derive(Debug, PartialEq, Eq, Clone, Copy, Structural)]
pub struct Diagnostic {
    pub kind: ErrorKind,
    pub index: usize,
}

/// A failure as a plain value.
pub struct DiagnosticView {
    pub kind: ErrorKind,
    pub index: int,
}

impl View for Diagnostic {
    type V = DiagnosticView;

    open spec fn view(&self) -> DiagnosticView {
        DiagnosticView { kind: self.kind, index: self.index as int }
    }
}

/// Blank space: it separates tokens and is otherwise passed over.
pub open spec fn is_blank(c: char) -> bool {
    c == ' ' || c == '\t' || c == '\n' || c == '\r'
}

/// A character that may not occur in an expression.
pub open spec fn is_invalid(c: char) -> bool {
    char_kind(c) == TokenKind::Ignore && !is_blank(c)
}

/// The position of the first invalid character from position `i` on.
pub open spec fn first_invalid_from(s: Seq<char>, i: int) -> Option<int>
    decreases s.len() - i,
{
    if i < 0 || i >= s.len() {
        None
    } else if is_invalid(s[i]) {
        Some(i)
    } else {
        first_invalid_from(s, i + 1)
    }
}

/// The position of the first invalid character.
pub open spec fn first_invalid(s: Seq<char>) -> Option<int> {
    first_invalid_from(s, 0)
}

/// The words that describe a kind of failure.
pub open spec fn message_text(kind: ErrorKind) -> Seq<char> {
    match kind {
        ErrorKind::InvalidCharacter => "invalid token"@,
        ErrorKind::ExpectedNumber => "expected a number"@,
        ErrorKind::UnexpectedEndOfInput => "expected a number"@,
    }
}

/// The two lines shown for a failure: the input, and below it a caret under
/// the position pointed at, followed by the message.
pub open spec fn rendered(input: Seq<char>, diagnostic: DiagnosticView) -> Seq<char> {
    input + seq!['\n'] + Seq::new(diagnostic.index as nat, |i: int| ' ') + "^ "@ + message_text(
        diagnostic.kind,
    )
}

/// `first_invalid_from` finds an invalid character exactly when there is one
/// from `i` on, and then the first of them.
pub proof fn lemma_first_invalid(s: Seq<char>, i: int)
    requires
        0 <= i <= s.len(),
    ensures
        match first_invalid_from(s, i) {
            Some(j) => {
                &&& i <= j < s.len()
                &&& is_invalid(s[j])
                &&& forall|k: int| i <= k < j ==> !is_invalid(#[trigger] s[k])
            },
            None => forall|k: int| i <= k < s.len() ==> !is_invalid(#[trigger] s[k]),
        },
    decreases s.len() - i,
{
    if i < s.len() && !is_invalid(s[i]) {
        lemma_first_invalid(s, i + 1);
    }
}

/// Looks for a character that may not occur in an expression.
pub fn find_invalid(input: &str) -> (found: Option<usize>)
    ensures
        match found {
            Some(i) => first_invalid(input@) == Some(i as int),
            None => first_invalid(input@) is None,
        },
{
    let count = input.unicode_len();
    let mut index: usize = 0;
    for ch in iter: input.chars()
        invariant
            iter.seq() == input@,
            count == input@.len(),
            index == iter.index(),
            first_invalid(input@) == first_invalid_from(input@, index as int),
    {
        assert(index < count);
        assert(ch == input@[index as int]);
        let blank = ch == ' ' || ch == '\t' || ch == '\n' || ch == '\r';
        let digit = '0' <= ch && ch <= '9';
        let punctuation = ch == '+' || ch == '-' || ch == '*' || ch == '/' || ch == '(' || ch
            == ')';
        if !blank && !digit && !punctuation {
            return Some(index);
        }
        index = index + 1;
    }
    None
}

impl Diagnostic {
    /// The words that describe the failure.
    pub fn message(&self) -> (words: &'static str)
        ensures
            words@ == message_text(self.kind),
    {
        match self.kind {
            ErrorKind::InvalidCharacter => "invalid token",
            ErrorKind::ExpectedNumber => "expected a number",
            ErrorKind::UnexpectedEndOfInput => "expected a number",
        }
    }

    /// The failure as shown to a reader: the input, and below it a caret
    /// under the position pointed at, followed by the message.
    pub fn render(&self, input: &str) -> (text: String)
        ensures
            text@ == rendered(input@, self@),
    {
        let mut text = input.to_owned();
        text.push('\n');
        let mut column: usize = 0;
        while column < self.index
            invariant
                column <= self.index,
                text@ == input@ + seq!['\n'] + Seq::new(column as nat, |i: int| ' '),
            decreases self.index - column,
        {
            text.push(' ');
            column = column + 1;
            assert(text@ =~= input@ + seq!['\n'] + Seq::new(column as nat, |i: int| ' '));
        }
        text.append("^ ");
        text.append(self.message());
        text
    }
}

} // verus!
