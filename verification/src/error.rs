//! Errors of the regex compiler and their messages.
use vstd::prelude::*;
use crate::support::string_push;

verus! {

/// What went wrong while compiling a pattern.
#[derive(Debug, Clone, Copy, PartialEq, Eq, Structural)]
pub enum ErrorKind {
    UnexpectedChar { c: char, pos: usize },
    ExpectedChar { expected: char, got: char, pos: usize },
    ExpectedCharAtEnd { expected: char },
    LiteralBrace,
    UnexpectedEnd,
    NothingToRepeatAt { pos: usize },
    NothingToRepeat,
    TrailingBackslash,
    InvalidHexEscape,
    InvalidUnicodeEscape,
    InvalidUnicodeCodepoint,
    IncompleteUnicodeProperty,
    UnterminatedClass,
    TrailingBackslashInClass,
    InvalidHexEscapeInClass,
    UnexpectedEscapeInClass,
    InvalidGroupSyntax { pos: usize },
    EmptyGroupName,
    InvalidGroupNameChar { c: char },
    UnterminatedGroupName,
    TooManyCaptures,
    PatternTooLarge,
    InvalidBackReference { index: u32 },
    InvalidClassRange,
    ClassTooLarge,
    QuantifierOutOfOrder,
    DuplicateModifier { c: char },
    TooManyRanges,
    Other,
}

/// A regex compiler error: its kind and a human-readable message.
#[derive(Debug)]
pub struct CompilerError {
    kind: ErrorKind,
    message: String,
}

impl View for CompilerError {
    type V = (ErrorKind, Seq<char>);

    closed spec fn view(&self) -> (ErrorKind, Seq<char>) {
        (self.kind, self.message@)
    }
}

/// The decimal digits of `n`.
pub open spec fn decimal(n: nat) -> Seq<char>
    decreases n,
{
    if n < 10 {
        seq![(n + 48) as char]
    } else {
        decimal(n / 10).push(((n % 10) + 48) as char)
    }
}

/// The message text of an error kind.
pub open spec fn kind_text(k: ErrorKind) -> Seq<char> {
    match k {
        ErrorKind::UnexpectedChar { c, pos } => "unexpected character '"@ + seq![c]
            + "' at position "@ + decimal(pos as nat),
        ErrorKind::ExpectedChar { expected, got, pos } => "expected '"@ + seq![expected]
            + "', got '"@ + seq![got] + "' at position "@ + decimal(pos as nat),
        ErrorKind::ExpectedCharAtEnd { expected } => "expected '"@ + seq![expected]
            + "', got end of pattern"@,
        ErrorKind::LiteralBrace => "literal_brace"@,
        ErrorKind::UnexpectedEnd => "unexpected end of pattern"@,
        ErrorKind::NothingToRepeatAt { pos } => "nothing to repeat at position "@ + decimal(
            pos as nat,
        ),
        ErrorKind::NothingToRepeat => "nothing to repeat"@,
        ErrorKind::TrailingBackslash => "trailing backslash"@,
        ErrorKind::InvalidHexEscape => "invalid hex escape"@,
        ErrorKind::InvalidUnicodeEscape => "invalid unicode escape"@,
        ErrorKind::InvalidUnicodeCodepoint => "invalid unicode codepoint"@,
        ErrorKind::IncompleteUnicodeProperty => "incomplete unicode property"@,
        ErrorKind::UnterminatedClass => "unterminated character class"@,
        ErrorKind::TrailingBackslashInClass => "trailing backslash in class"@,
        ErrorKind::InvalidHexEscapeInClass => "invalid hex escape in class"@,
        ErrorKind::UnexpectedEscapeInClass => "unexpected escape in class"@,
        ErrorKind::InvalidGroupSyntax { pos } => "invalid group syntax at position "@ + decimal(
            pos as nat,
        ),
        ErrorKind::EmptyGroupName => "empty group name"@,
        ErrorKind::InvalidGroupNameChar { c } => "invalid character in group name: '"@ + seq![c]
            + "'"@,
        ErrorKind::UnterminatedGroupName => "unterminated group name"@,
        ErrorKind::TooManyCaptures => "too many capture groups"@,
        ErrorKind::PatternTooLarge => "compiled pattern too large"@,
        ErrorKind::InvalidBackReference { index } => "back reference to a missing group "@
            + decimal(index as nat),
        ErrorKind::InvalidClassRange => "range out of order in character class"@,
        ErrorKind::ClassTooLarge => "character class too large"@,
        ErrorKind::QuantifierOutOfOrder => "numbers out of order in {} quantifier"@,
        ErrorKind::DuplicateModifier { c } => "duplicate modifier: '"@ + seq![c] + "'"@,
        ErrorKind::TooManyRanges => "too many ranges"@,
        ErrorKind::Other => "regex compiler error"@,
    }
}

/// Append the decimal digits of `n`.
fn push_decimal(s: &mut String, n: usize)
    ensures
        final(s)@ == old(s)@ + decimal(n as nat),
    decreases n,
{
    if n < 10 {
        let c = char_digit(n);
        string_push(s, c);
        assert(final(s)@ =~= old(s)@ + decimal(n as nat));
    } else {
        push_decimal(s, n / 10);
        let c = char_digit(n % 10);
        string_push(s, c);
        assert(final(s)@ =~= old(s)@ + decimal(n as nat));
    }
}

/// The ASCII digit for `d < 10`.
fn char_digit(d: usize) -> (c: char)
    requires
        d < 10,
    ensures
        c == (d + 48) as char,
{
    match d {
        0 => '0',
        1 => '1',
        2 => '2',
        3 => '3',
        4 => '4',
        5 => '5',
        6 => '6',
        7 => '7',
        8 => '8',
        _ => '9',
    }
}

/// The message of an error kind.
pub fn kind_message(k: ErrorKind) -> (s: String)
    ensures
        s@ == kind_text(k),
{
    let mut s = String::new();
    match k {
        ErrorKind::UnexpectedChar { c, pos } => {
            s.append("unexpected character '");
            string_push(&mut s, c);
            s.append("' at position ");
            push_decimal(&mut s, pos);
        },
        ErrorKind::ExpectedChar { expected, got, pos } => {
            s.append("expected '");
            string_push(&mut s, expected);
            s.append("', got '");
            string_push(&mut s, got);
            s.append("' at position ");
            push_decimal(&mut s, pos);
        },
        ErrorKind::ExpectedCharAtEnd { expected } => {
            s.append("expected '");
            string_push(&mut s, expected);
            s.append("', got end of pattern");
        },
        ErrorKind::LiteralBrace => s.append("literal_brace"),
        ErrorKind::UnexpectedEnd => s.append("unexpected end of pattern"),
        ErrorKind::NothingToRepeatAt { pos } => {
            s.append("nothing to repeat at position ");
            push_decimal(&mut s, pos);
        },
        ErrorKind::NothingToRepeat => s.append("nothing to repeat"),
        ErrorKind::TrailingBackslash => s.append("trailing backslash"),
        ErrorKind::InvalidHexEscape => s.append("invalid hex escape"),
        ErrorKind::InvalidUnicodeEscape => s.append("invalid unicode escape"),
        ErrorKind::InvalidUnicodeCodepoint => s.append("invalid unicode codepoint"),
        ErrorKind::IncompleteUnicodeProperty => s.append("incomplete unicode property"),
        ErrorKind::UnterminatedClass => s.append("unterminated character class"),
        ErrorKind::TrailingBackslashInClass => s.append("trailing backslash in class"),
        ErrorKind::InvalidHexEscapeInClass => s.append("invalid hex escape in class"),
        ErrorKind::UnexpectedEscapeInClass => s.append("unexpected escape in class"),
        ErrorKind::InvalidGroupSyntax { pos } => {
            s.append("invalid group syntax at position ");
            push_decimal(&mut s, pos);
        },
        ErrorKind::EmptyGroupName => s.append("empty group name"),
        ErrorKind::InvalidGroupNameChar { c } => {
            s.append("invalid character in group name: '");
            string_push(&mut s, c);
            s.append("'");
        },
        ErrorKind::UnterminatedGroupName => s.append("unterminated group name"),
        ErrorKind::TooManyCaptures => s.append("too many capture groups"),
        ErrorKind::PatternTooLarge => s.append("compiled pattern too large"),
        ErrorKind::InvalidBackReference { index } => {
            s.append("back reference to a missing group ");
            push_decimal(&mut s, index as usize);
        },
        ErrorKind::InvalidClassRange => s.append("range out of order in character class"),
        ErrorKind::ClassTooLarge => s.append("character class too large"),
        ErrorKind::QuantifierOutOfOrder => s.append("numbers out of order in {} quantifier"),
        ErrorKind::DuplicateModifier { c } => {
            s.append("duplicate modifier: '");
            string_push(&mut s, c);
            s.append("'");
        },
        ErrorKind::TooManyRanges => s.append("too many ranges"),
        ErrorKind::Other => s.append("regex compiler error"),
    }
    s
}

impl CompilerError {
    /// An error of kind `Other` with the given message.
    pub fn new(message: &str) -> (e: Self)
        ensures
            e@.0 == ErrorKind::Other,
            e@.1 == message@,
    {
        CompilerError { kind: ErrorKind::Other, message: message.to_owned() }
    }

    /// An error of the given kind, with that kind's message.
    pub fn from_kind(kind: ErrorKind) -> (e: Self)
        ensures
            e@.0 == kind,
            e@.1 == kind_text(kind),
    {
        CompilerError { kind, message: kind_message(kind) }
    }

    /// The kind of error.
    pub fn kind(&self) -> (k: ErrorKind)
        ensures
            k == self@.0,
    {
        self.kind
    }

    /// The message, as `Display` would print it after its prefix.
    pub fn message(&self) -> (s: &str)
        ensures
            s@ == self@.1,
    {
        self.message.as_str()
    }

    /// The full text: "Regex compiler error: " followed by the message.
    pub fn to_string(&self) -> (s: String)
        ensures
            s@ == "Regex compiler error: "@ + self@.1,
    {
        let mut s = String::new();
        s.append("Regex compiler error: ");
        s.append(self.message.as_str());
        s
    }
}

} // verus!
