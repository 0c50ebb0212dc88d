use vstd::prelude::*;

verus! {

/// `std::io::Error`, the reason why a source could not be read. Nothing is said of what it
/// holds.
#[verifier::external_type_specification]
#[verifier::external_body]
pub struct ExIoError(std::io::Error);

/// `std::str::Utf8Error`, the reason why bytes are no UTF-8 text. Nothing is said of what
/// it holds.
#[verifier::external_type_specification]
#[verifier::external_body]
pub struct ExUtf8Error(std::str::Utf8Error);

/// Errors the parser can encounter.
#[derive(Debug)]
pub enum DznParseError {
    /// Reading from the source failed. The parser works on bytes that have been read, so
    /// this is an error of whoever reads them.
    Io(std::io::Error),
    /// The source is no UTF-8 text.
    InvalidEncoding(std::str::Utf8Error),
    /// A statement could not be matched: `expected` names the element that was looked for,
    /// and `actual` is the input that was left at that point.
    InvalidSyntax { expected: SyntaxElement, actual: String },
}

/// Components of a parameter definition.
#[derive(Clone, Copy, Debug, Hash, PartialEq, Eq, Structural)]
pub enum SyntaxElement {
    /// The name of the parameter.
    Identifier,
    /// The value or array to bind to the parameter.
    Value,
    /// The equality between identifier and value.
    Equals,
    /// The semicolon terminating the definition.
    SemiColon,
}

impl SyntaxElement {
    /// The element as it is written in a message.
    pub open spec fn spec_name(self) -> Seq<char> {
        match self {
            SyntaxElement::Identifier => "identifier"@,
            SyntaxElement::Value => "value"@,
            SyntaxElement::Equals => "="@,
            SyntaxElement::SemiColon => ";"@,
        }
    }

    /// The element as it is written in a message.
    pub fn name(&self) -> (text: &'static str)
        ensures
            text@ == self.spec_name(),
    {
        match self {
            SyntaxElement::Identifier => "identifier",
            SyntaxElement::Value => "value",
            SyntaxElement::Equals => "=",
            SyntaxElement::SemiColon => ";",
        }
    }
}

} // verus!
