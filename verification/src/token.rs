//! The tokens that a lexer hands out, and the stream that collects them.
//!
//! A token records its shape, the number of characters it covers and the
//! number of spaces that follow it. The constructors compute the length from
//! the parts of the token, so that a token built here always spans exactly the
//! source text it stands for.

use vstd::prelude::*;
use vstd::string::*;

verus! {

// =================
// === BlockType ===
// =================

/// The kind of a block token.
#[derive(Copy, Clone, Debug, PartialEq, Eq)]
pub enum BlockType {
    /// A block made up of arguments to a function.
    Continuous,
    /// A block made up of separate lines.
    Discontinuous,
}

// ==================
// === LineEnding ===
// ==================

/// The kind of newline that ends a line.
#[derive(Copy, Clone, Debug, PartialEq, Eq)]
pub enum LineEnding {
    /// There is no newline.
    Absent,
    /// The unix-style line feed (`'\n'`).
    LF,
    /// The windows-style carriage return and line feed (`"\r\n"`).
    CRLF,
}

impl LineEnding {
    /// The number of characters that the newline takes up.
    pub open spec fn spec_size(self) -> nat {
        match self {
            LineEnding::Absent => 0,
            LineEnding::LF => 1,
            LineEnding::CRLF => 2,
        }
    }

    /// Get the number of characters that the newline takes up.
    pub fn size(self) -> (n: usize)
        ensures
            n == self.spec_size(),
    {
        match self {
            LineEnding::Absent => 0,
            LineEnding::LF => 1,
            LineEnding::CRLF => 2,
        }
    }
}

impl LineEnding {
    /// The name of the kind of newline.
    pub open spec fn spec_name(self) -> Seq<char> {
        match self {
            LineEnding::Absent => "None"@,
            LineEnding::LF => "LF"@,
            LineEnding::CRLF => "CRLF"@,
        }
    }

    /// Get the name of the kind of newline.
    pub fn name(self) -> (name: String)
        ensures
            name@ == self.spec_name(),
    {
        match self {
            LineEnding::Absent => "None".to_owned(),
            LineEnding::LF => "LF".to_owned(),
            LineEnding::CRLF => "CRLF".to_owned(),
        }
    }
}

impl Default for LineEnding {
    fn default() -> (ending: Self)
        ensures
            ending == LineEnding::Absent,
    {
        LineEnding::Absent
    }
}

// =================
// === TextStyle ===
// =================

/// The style of a text literal.
#[derive(Copy, Clone, Debug, PartialEq, Eq)]
pub enum TextStyle {
    /// An interpolated text line literal.
    InterpolatedLine,
    /// A raw text line literal.
    RawLine,
    /// An unclosed text line literal.
    UnclosedLine,
    /// An interpolated text block literal.
    InterpolatedBlock,
    /// A raw text block literal.
    RawBlock,
}

impl TextStyle {
    /// The number of characters that the delimiters of the style take up.
    pub open spec fn spec_length(self) -> nat {
        match self {
            TextStyle::InterpolatedLine => 2,
            TextStyle::RawLine => 2,
            TextStyle::UnclosedLine => 1,
            TextStyle::InterpolatedBlock => 3,
            TextStyle::RawBlock => 3,
        }
    }

    /// Calculate the length of the delimiters for a style of text literal.
    pub fn length(&self) -> (n: usize)
        ensures
            n == self.spec_length(),
    {
        match self {
            TextStyle::InterpolatedLine => 2,
            TextStyle::RawLine => 2,
            TextStyle::UnclosedLine => 1,
            TextStyle::InterpolatedBlock => 3,
            TextStyle::RawBlock => 3,
        }
    }
}

// =============
// === Token ===
// =============

/// A lexer token.
#[derive(Debug, PartialEq, Eq)]
pub struct Token {
    /// The shape of the token.
    pub shape: Shape,
    /// The length (in characters) of this token.
    pub length: usize,
    /// The number of trailing spaces after this token before the next.
    pub offset: usize,
}

/// The characters that `token` and the spaces after it take up, together with
/// the indentation that stands before it: `blank_indent` where the token is a
/// blank line, `line_indent` where it is anything else.
pub open spec fn indented_length(token: Token, line_indent: nat, blank_indent: nat) -> nat {
    let indent = if token.shape is BlankLine {
        blank_indent
    } else {
        line_indent
    };
    indent + token.length as nat + token.offset as nat
}

/// The sum of `indented_length` over `tokens`.
pub open spec fn total_indented_length(
    tokens: Seq<Token>,
    line_indent: nat,
    blank_indent: nat,
) -> nat
    decreases tokens.len(),
{
    if tokens.len() == 0 {
        0
    } else {
        total_indented_length(tokens.drop_last(), line_indent, blank_indent) + indented_length(
            tokens.last(),
            line_indent,
            blank_indent,
        )
    }
}

/// The characters that a run of tokens takes up: the length of each token and
/// the spaces after it, added up.
pub open spec fn tokens_length(tokens: Seq<Token>) -> nat {
    total_indented_length(tokens, 0, 0)
}

/// The characters that the lines of a text block take up, each line indented
/// by `indent`, blank or not.
pub open spec fn text_block_length(lines: Seq<Token>, indent: nat) -> nat {
    total_indented_length(lines, indent, indent)
}

/// The characters that the lines of a block take up. A line of tokens is
/// indented by `indent`; a blank line counts its own offset from the leftmost
/// column and no indentation.
pub open spec fn block_length(lines: Seq<Token>, indent: nat) -> nat {
    total_indented_length(lines, indent, 0)
}

/// Every token of `lines` is a line of tokens or a blank line.
pub open spec fn all_lines(lines: Seq<Token>) -> bool {
    forall|i: int| 0 <= i < lines.len() ==> (#[trigger] lines[i]).is_line()
}

/// The sum over a prefix never exceeds the sum over the whole run.
proof fn lemma_prefix_length(tokens: Seq<Token>, line_indent: nat, blank_indent: nat, n: int)
    requires
        0 <= n <= tokens.len(),
    ensures
        total_indented_length(tokens.take(n), line_indent, blank_indent) <= total_indented_length(
            tokens,
            line_indent,
            blank_indent,
        ),
    decreases tokens.len(),
{
    if n == tokens.len() {
        assert(tokens.take(n) =~= tokens);
    } else {
        lemma_prefix_length(tokens.drop_last(), line_indent, blank_indent, n);
        assert(tokens.drop_last().take(n) =~= tokens.take(n));
    }
}

/// Add up the indented lengths of `tokens`.
fn sum_indented_lengths(tokens: &Vec<Token>, line_indent: usize, blank_indent: usize) -> (total:
    usize)
    requires
        total_indented_length(tokens@, line_indent as nat, blank_indent as nat) <= usize::MAX,
    ensures
        total == total_indented_length(tokens@, line_indent as nat, blank_indent as nat),
{
    let mut total: usize = 0;
    let mut i: usize = 0;
    while i < tokens.len()
        invariant
            0 <= i <= tokens.len(),
            total == total_indented_length(
                tokens@.take(i as int),
                line_indent as nat,
                blank_indent as nat,
            ),
            total_indented_length(tokens@, line_indent as nat, blank_indent as nat) <= usize::MAX,
        decreases tokens.len() - i,
    {
        proof {
            lemma_prefix_length(tokens@, line_indent as nat, blank_indent as nat, i + 1);
            assert(tokens@.take(i + 1).drop_last() =~= tokens@.take(i as int));
        }
        let token = &tokens[i];
        let indent: usize = match &token.shape {
            Shape::BlankLine(_) => blank_indent,
            _ => line_indent,
        };
        total = total + (indent + token.length + token.offset);
        i = i + 1;
    }
    proof {
        assert(tokens@.take(i as int) =~= tokens@);
    }
    total
}

impl Token {
    /// The characters that the token takes up in the source: its own, and the
    /// spaces that follow it.
    pub open spec fn spec_source_length(&self) -> nat {
        self.length as nat + self.offset as nat
    }

    /// The token is a line of tokens or a blank line.
    pub open spec fn is_line(&self) -> bool {
        self.shape is Line || self.shape is BlankLine
    }

    /// Get the length that the token takes up in the program source.
    pub fn source_length(&self) -> (n: usize)
        requires
            self.spec_source_length() <= usize::MAX,
        ensures
            n == self.spec_source_length(),
    {
        self.length + self.offset
    }
}

/// Constructors for the various forms of token.
#[allow(non_snake_case)]
impl Token {
    /// Construct a token representing a referent identifier.
    pub fn Referent(name: &str, offset: usize) -> (token: Token)
        ensures
            token.shape matches Shape::Referent(s) && s@ == name@,
            token.length == name@.len(),
            token.offset == offset,
    {
        let length: usize = name.unicode_len();
        let shape = Shape::Referent(name.to_owned());
        Token { shape, length, offset }
    }

    /// Construct a token representing a variable identifier.
    pub fn Variable(name: &str, offset: usize) -> (token: Token)
        ensures
            token.shape matches Shape::Variable(s) && s@ == name@,
            token.length == name@.len(),
            token.offset == offset,
    {
        let length: usize = name.unicode_len();
        let shape = Shape::Variable(name.to_owned());
        Token { shape, length, offset }
    }

    /// Construct a token representing an external identifier.
    pub fn External(name: &str, offset: usize) -> (token: Token)
        ensures
            token.shape matches Shape::External(s) && s@ == name@,
            token.length == name@.len(),
            token.offset == offset,
    {
        let length: usize = name.unicode_len();
        let shape = Shape::External(name.to_owned());
        Token { shape, length, offset }
    }

    /// Construct a token representing a blank identifier.
    pub fn Blank(offset: usize) -> (token: Token)
        ensures
            token == (Token { shape: Shape::Blank, length: 1, offset }),
    {
        let shape = Shape::Blank;
        let length: usize = 1;
        Token { shape, length, offset }
    }

    /// Construct a token representing an operator.
    pub fn Operator(name: &str, offset: usize) -> (token: Token)
        ensures
            token.shape matches Shape::Operator(s) && s@ == name@,
            token.length == name@.len(),
            token.offset == offset,
    {
        let length: usize = name.unicode_len();
        let shape = Shape::Operator(name.to_owned());
        Token { shape, length, offset }
    }

    /// Construct a token representing a modifier operator.
    ///
    /// The length counts the `=` that follows the operator.
    pub fn Modifier(name: &str, offset: usize) -> (token: Token)
        requires
            name@.len() + 1 <= usize::MAX,
        ensures
            token.shape matches Shape::Modifier(s) && s@ == name@,
            token.length == name@.len() + 1,
            token.offset == offset,
    {
        let length: usize = name.unicode_len() + 1;
        let shape = Shape::Modifier(name.to_owned());
        Token { shape, length, offset }
    }

    /// The length of a number literal: the digits alone where there is no
    /// base, else the base, the separator and the digits.
    pub open spec fn number_length(base: Seq<char>, num: Seq<char>) -> nat {
        if base.len() == 0 {
            num.len()
        } else {
            base.len() + 1 + num.len()
        }
    }

    /// Construct a token representing a number literal.
    pub fn Number(base: &str, num: &str, offset: usize) -> (token: Token)
        requires
            Self::number_length(base@, num@) <= usize::MAX,
        ensures
            token.shape matches Shape::Number { base: b, number: n } && b@ == base@ && n@ == num@,
            token.length == Self::number_length(base@, num@),
            token.offset == offset,
    {
        let length: usize = if base.is_empty() {
            num.unicode_len()
        } else {
            base.unicode_len() + 1 + num.unicode_len()
        };
        let shape = Shape::Number { base: base.to_owned(), number: num.to_owned() };
        Token { shape, length, offset }
    }

    /// Construct a token representing a dangling number base.
    ///
    /// The length counts the separator that follows the base.
    pub fn DanglingBase(base: &str, offset: usize) -> (token: Token)
        requires
            base@.len() + 1 <= usize::MAX,
        ensures
            token.shape matches Shape::DanglingBase(s) && s@ == base@,
            token.length == base@.len() + 1,
            token.offset == offset,
    {
        let length: usize = base.unicode_len() + 1;
        let shape = Shape::DanglingBase(base.to_owned());
        Token { shape, length, offset }
    }

    /// Construct a token representing a line of text.
    pub fn TextLine(style: TextStyle, segments: Vec<Token>, offset: usize) -> (token: Token)
        requires
            style.spec_length() + tokens_length(segments@) <= usize::MAX,
        ensures
            token.shape == (Shape::TextLine { style, segments }),
            token.length == style.spec_length() + tokens_length(segments@),
            token.offset == offset,
    {
        let length: usize = style.length() + sum_indented_lengths(&segments, 0, 0);
        let shape = Shape::TextLine { style, segments };
        Token { shape, length, offset }
    }

    /// Construct a token representing a block of text, whose lines are each
    /// indented by `indent`.
    pub fn TextBlock(style: TextStyle, lines: Vec<Token>, indent: usize, offset: usize) -> (token:
        Token)
        requires
            all_lines(lines@),
            style.spec_length() + text_block_length(lines@, indent as nat) <= usize::MAX,
        ensures
            token.shape == (Shape::TextBlock { style, lines }),
            token.length == style.spec_length() + text_block_length(lines@, indent as nat),
            token.offset == offset,
    {
        let length: usize = style.length() + sum_indented_lengths(&lines, indent, indent);
        let shape = Shape::TextBlock { style, lines };
        Token { shape, length, offset }
    }

    /// Construct a token representing a raw text segment, whose length is
    /// that of its text in bytes.
    pub fn TextSegmentRaw(text: &str, offset: usize) -> (token: Token)
        ensures
            token.shape matches Shape::TextSegmentRaw(s) && s@ == text@,
            token.length == text.spec_bytes().len(),
            token.offset == offset,
    {
        let length: usize = text.as_bytes().len();
        let shape = Shape::TextSegmentRaw(text.to_owned());
        Token { shape, length, offset }
    }

    /// Construct a token representing an escape sequence, whose length is
    /// that of its text in bytes.
    pub fn TextSegmentEscape(repr: &str, offset: usize) -> (token: Token)
        ensures
            token.shape matches Shape::TextSegmentEscape(s) && s@ == repr@,
            token.length == repr.spec_bytes().len(),
            token.offset == offset,
    {
        let length: usize = repr.as_bytes().len();
        let shape = Shape::TextSegmentEscape(repr.to_owned());
        Token { shape, length, offset }
    }

    /// Construct a token representing an interpolated text segment.
    ///
    /// The length counts the two ticks that enclose the interpolation.
    pub fn TextSegmentInterpolate(tokens: Vec<Token>, offset: usize) -> (token: Token)
        requires
            2 + tokens_length(tokens@) <= usize::MAX,
        ensures
            token.shape == (Shape::TextSegmentInterpolate { tokens }),
            token.length == 2 + tokens_length(tokens@),
            token.offset == offset,
    {
        let length_of_interpolation_ticks: usize = 2;
        let length: usize = length_of_interpolation_ticks + sum_indented_lengths(&tokens, 0, 0);
        let shape = Shape::TextSegmentInterpolate { tokens };
        Token { shape, length, offset }
    }

    /// Construct a token representing an invalid text segment of the given
    /// length.
    pub fn TextSegmentInvalid(text: &str, length: usize, offset: usize) -> (token: Token)
        ensures
            token.shape matches Shape::TextSegmentInvalid(s) && s@ == text@,
            token.length == length,
            token.offset == offset,
    {
        let shape = Shape::TextSegmentInvalid(text.to_owned());
        Token { shape, length, offset }
    }

    /// Construct a token representing a line of tokens.
    pub fn Line(tokens: Vec<Token>, offset: usize, trailing_line_ending: LineEnding) -> (token:
        Token)
        requires
            trailing_line_ending.spec_size() + tokens_length(tokens@) <= usize::MAX,
        ensures
            token.shape == (Shape::Line { tokens, trailing_line_ending }),
            token.length == trailing_line_ending.spec_size() + tokens_length(tokens@),
            token.offset == offset,
    {
        let line_ending_len: usize = trailing_line_ending.size();
        let length: usize = line_ending_len + sum_indented_lengths(&tokens, 0, 0);
        let shape = Shape::Line { tokens, trailing_line_ending };
        Token { shape, length, offset }
    }

    /// Construct a token representing a blank line.
    ///
    /// The `offset` for blank lines is from the leftmost column, not from the
    /// parent block's indentation.
    pub fn BlankLine(offset: usize, trailing_line_ending: LineEnding) -> (token: Token)
        ensures
            token == (Token {
                shape: Shape::BlankLine(trailing_line_ending),
                length: trailing_line_ending.spec_size() as usize,
                offset,
            }),
    {
        let length: usize = trailing_line_ending.size();
        let shape = Shape::BlankLine(trailing_line_ending);
        Token { shape, length, offset }
    }

    /// Construct a token representing a block.
    pub fn Block(block_type: BlockType, indent: usize, lines: Vec<Token>, offset: usize) -> (token:
        Token)
        requires
            all_lines(lines@),
            block_length(lines@, indent as nat) <= usize::MAX,
        ensures
            token.shape == (Shape::Block { block_type, indent, lines }),
            token.length == block_length(lines@, indent as nat),
            token.offset == offset,
    {
        let length: usize = sum_indented_lengths(&lines, indent, 0);
        let shape = Shape::Block { block_type, indent, lines };
        Token { shape, length, offset }
    }

    /// Construct a token representing an invalid suffix.
    pub fn InvalidSuffix(text: &str, offset: usize) -> (token: Token)
        ensures
            token.shape matches Shape::InvalidSuffix(s) && s@ == text@,
            token.length == text@.len(),
            token.offset == offset,
    {
        let length: usize = text.unicode_len();
        let shape = Shape::InvalidSuffix(text.to_owned());
        Token { shape, length, offset }
    }

    /// Construct a token representing an unrecognised lexeme.
    pub fn Unrecognized(text: &str, offset: usize) -> (token: Token)
        ensures
            token.shape matches Shape::Unrecognized(s) && s@ == text@,
            token.length == text@.len(),
            token.offset == offset,
    {
        let length: usize = text.unicode_len();
        let shape = Shape::Unrecognized(text.to_owned());
        Token { shape, length, offset }
    }
}

// =============
// === Shape ===
// =============

/// The shapes of the tokens.
#[derive(Debug, PartialEq, Eq)]
pub enum Shape {
    /// An identifier in referent form.
    Referent(String),
    /// An identifier in variable form.
    Variable(String),
    /// An identifier that follows the rules of another language.
    External(String),
    /// A blank identifier (`_`).
    Blank,
    /// An operator identifier.
    Operator(String),
    /// A modifier identifier.
    Modifier(String),
    /// A literal number.
    Number { base: String, number: String },
    /// A dangling base from a number literal.
    DanglingBase(String),
    /// A text line literal.
    TextLine {
        /// The style of the literal.
        style: TextStyle,
        /// The segments that make up the line of text.
        segments: Vec<Token>,
    },
    /// A text block literal.
    TextBlock {
        /// The style of the literal.
        style: TextStyle,
        /// The lines in the text block literal.
        lines: Vec<Token>,
    },
    /// A segment of a line of text that holds only literal text.
    TextSegmentRaw(String),
    /// A segment of a line of text that holds an escape sequence.
    TextSegmentEscape(String),
    /// A segment of a line of text that holds an interpolated expression.
    TextSegmentInterpolate {
        /// The tokens that make up the interpolated expression.
        tokens: Vec<Token>,
    },
    /// An invalid text segment, such as an unclosed interpolation.
    TextSegmentInvalid(String),
    /// A line of tokens.
    Line {
        /// The tokens on the line.
        tokens: Vec<Token>,
        /// The line ending that ends the line.
        trailing_line_ending: LineEnding,
    },
    /// A blank line.
    BlankLine(LineEnding),
    /// A block of tokens.
    Block {
        /// The kind of the block.
        block_type: BlockType,
        /// The leading indentation of the block.
        indent: usize,
        /// The lines in the block.
        lines: Vec<Token>,
    },
    /// An invalid suffix.
    InvalidSuffix(String),
    /// An unrecognized token.
    Unrecognized(String),
}

impl Shape {
    /// Construct an identifier in referent form.
    pub fn referent(name: &str) -> (shape: Shape)
        ensures
            shape matches Shape::Referent(s) && s@ == name@,
    {
        Shape::Referent(name.to_owned())
    }

    /// Construct an identifier in variable form.
    pub fn variable(name: &str) -> (shape: Shape)
        ensures
            shape matches Shape::Variable(s) && s@ == name@,
    {
        Shape::Variable(name.to_owned())
    }

    /// Construct an identifier in external form.
    pub fn external(name: &str) -> (shape: Shape)
        ensures
            shape matches Shape::External(s) && s@ == name@,
    {
        Shape::External(name.to_owned())
    }

    /// Construct a blank identifier.
    pub fn blank() -> (shape: Shape)
        ensures
            shape == Shape::Blank,
    {
        Shape::Blank
    }

    /// Construct an operator identifier.
    pub fn operator(opr: &str) -> (shape: Shape)
        ensures
            shape matches Shape::Operator(s) && s@ == opr@,
    {
        Shape::Operator(opr.to_owned())
    }

    /// Construct a modifier identifier.
    pub fn modifier(opr: &str) -> (shape: Shape)
        ensures
            shape matches Shape::Modifier(s) && s@ == opr@,
    {
        Shape::Modifier(opr.to_owned())
    }

    /// Construct a number literal.
    pub fn number(base: &str, num: &str) -> (shape: Shape)
        ensures
            shape matches Shape::Number { base: b, number: n } && b@ == base@ && n@ == num@,
    {
        Shape::Number { base: base.to_owned(), number: num.to_owned() }
    }

    /// Construct a dangling base literal.
    pub fn dangling_base(base: &str) -> (shape: Shape)
        ensures
            shape matches Shape::DanglingBase(s) && s@ == base@,
    {
        Shape::DanglingBase(base.to_owned())
    }

    /// Construct a text line literal.
    pub fn text_line(style: TextStyle, segments: Vec<Token>) -> (shape: Shape)
        ensures
            shape == (Shape::TextLine { style, segments }),
    {
        Shape::TextLine { style, segments }
    }

    /// Construct a text block literal.
    pub fn text_block(style: TextStyle, lines: Vec<Token>) -> (shape: Shape)
        ensures
            shape == (Shape::TextBlock { style, lines }),
    {
        Shape::TextBlock { style, lines }
    }

    /// Construct a raw text segment.
    pub fn text_segment_raw(text: &str) -> (shape: Shape)
        ensures
            shape matches Shape::TextSegmentRaw(s) && s@ == text@,
    {
        Shape::TextSegmentRaw(text.to_owned())
    }

    /// Construct a text segment that holds an escape sequence.
    pub fn text_segment_escape(repr: &str) -> (shape: Shape)
        ensures
            shape matches Shape::TextSegmentEscape(s) && s@ == repr@,
    {
        Shape::TextSegmentEscape(repr.to_owned())
    }

    /// Construct a text segment that holds an interpolated expression.
    pub fn text_segment_interpolate(tokens: Vec<Token>) -> (shape: Shape)
        ensures
            shape == (Shape::TextSegmentInterpolate { tokens }),
    {
        Shape::TextSegmentInterpolate { tokens }
    }

    /// Construct an invalid text segment.
    pub fn text_segment_invalid(text: &str) -> (shape: Shape)
        ensures
            shape matches Shape::TextSegmentInvalid(s) && s@ == text@,
    {
        Shape::TextSegmentInvalid(text.to_owned())
    }

    /// Construct a line that holds tokens.
    pub fn line(tokens: Vec<Token>, trailing_line_ending: LineEnding) -> (shape: Shape)
        ensures
            shape == (Shape::Line { tokens, trailing_line_ending }),
    {
        Shape::Line { tokens, trailing_line_ending }
    }

    /// Construct a line that is blank.
    pub fn blank_line(trailing_line_ending: LineEnding) -> (shape: Shape)
        ensures
            shape == Shape::BlankLine(trailing_line_ending),
    {
        Shape::BlankLine(trailing_line_ending)
    }

    /// Construct a block that holds lines.
    pub fn block(block_type: BlockType, indent: usize, lines: Vec<Token>) -> (shape: Shape)
        ensures
            shape == (Shape::Block { block_type, indent, lines }),
    {
        Shape::Block { block_type, indent, lines }
    }

    /// Construct an invalid suffix.
    pub fn invalid_suffix(text: &str) -> (shape: Shape)
        ensures
            shape matches Shape::InvalidSuffix(s) && s@ == text@,
    {
        Shape::InvalidSuffix(text.to_owned())
    }

    /// Construct an unrecognized token.
    pub fn unrecognized(text: &str) -> (shape: Shape)
        ensures
            shape matches Shape::Unrecognized(s) && s@ == text@,
    {
        Shape::Unrecognized(text.to_owned())
    }
}

// ==============
// === Stream ===
// ==============

/// A stream of tokens, in the order in which the lexer produced them.
#[derive(Debug, PartialEq)]
pub struct Stream {
    /// The tokens in the token stream.
    tokens: Vec<Token>,
}

impl View for Stream {
    type V = Seq<Token>;

    closed spec fn view(&self) -> Seq<Token> {
        self.tokens@
    }
}

impl Stream {
    /// Append the provided `token` to the token stream.
    pub fn append(&mut self, token: Token)
        ensures
            final(self)@ == old(self)@.push(token),
    {
        self.tokens.push(token)
    }

    /// Get a reference to the tokens in the stream.
    pub fn tokens(&self) -> (tokens: &Vec<Token>)
        ensures
            tokens@ == self@,
    {
        &self.tokens
    }

    /// Get the length of the elements in the token stream.
    pub fn tokens_len(&self) -> (n: usize)
        requires
            tokens_length(self@) <= usize::MAX,
        ensures
            n == tokens_length(self@),
    {
        sum_indented_lengths(&self.tokens, 0, 0)
    }
}

impl Default for Stream {
    fn default() -> (stream: Self)
        ensures
            stream@ == Seq::<Token>::empty(),
    {
        Stream { tokens: Vec::new() }
    }
}

impl From<Vec<Token>> for Stream {
    fn from(tokens: Vec<Token>) -> (stream: Self) {
        Stream { tokens }
    }
}

impl vstd::std_specs::convert::FromSpecImpl<Vec<Token>> for Stream {
    open spec fn obeys_from_spec() -> bool {
        true
    }

    closed spec fn from_spec(tokens: Vec<Token>) -> Self {
        Stream { tokens }
    }
}

/// The stream made from a run of tokens holds those tokens.
pub broadcast proof fn lemma_stream_from_tokens(tokens: Vec<Token>)
    ensures
        (#[trigger] <Stream as vstd::std_specs::convert::FromSpec<Vec<Token>>>::from_spec(tokens))@
            == tokens@,
{
}

impl From<Stream> for Vec<Token> {
    fn from(stream: Stream) -> (tokens: Self) {
        stream.tokens
    }
}

impl vstd::std_specs::convert::FromSpecImpl<Stream> for Vec<Token> {
    open spec fn obeys_from_spec() -> bool {
        true
    }

    closed spec fn from_spec(stream: Stream) -> Self {
        stream.tokens
    }
}

/// The tokens taken out of a stream are the tokens that it held.
pub broadcast proof fn lemma_tokens_from_stream(stream: Stream)
    ensures
        (#[trigger] <Vec<Token> as vstd::std_specs::convert::FromSpec<Stream>>::from_spec(stream))@
            == stream@,
{
}

impl core::ops::DerefMut for Stream {
    fn deref_mut(&mut self) -> (tokens: &mut Vec<Token>)
        ensures
            tokens@ == old(self)@,
            final(self)@ == final(tokens)@,
    {
        &mut self.tokens
    }
}

impl core::ops::Deref for Stream {
    type Target = Vec<Token>;

    fn deref(&self) -> (tokens: &Vec<Token>)
        ensures
            tokens@ == self@,
    {
        &self.tokens
    }
}

// ==============
// === Copies ===
// ==============

/// `b` has the length, the offset and the shape of `a`, the tokens inside the
/// shape compared in the same way.
pub open spec fn alike(a: Token, b: Token) -> bool
    decreases a,
{
    a.length == b.length && a.offset == b.offset && shapes_alike(a.shape, b.shape)
}

/// `b` is the variant that `a` is, with the same fields, the tokens among them
/// compared by `alike`.
pub open spec fn shapes_alike(a: Shape, b: Shape) -> bool
    decreases a,
{
    match a {
        Shape::Referent(x) => b matches Shape::Referent(y) && x == y,
        Shape::Variable(x) => b matches Shape::Variable(y) && x == y,
        Shape::External(x) => b matches Shape::External(y) && x == y,
        Shape::Blank => b is Blank,
        Shape::Operator(x) => b matches Shape::Operator(y) && x == y,
        Shape::Modifier(x) => b matches Shape::Modifier(y) && x == y,
        Shape::Number { base, number } => b matches Shape::Number { base: base2, number: number2 }
            && base == base2 && number == number2,
        Shape::DanglingBase(x) => b matches Shape::DanglingBase(y) && x == y,
        Shape::TextLine { style, segments } => b matches Shape::TextLine {
            style: style2,
            segments: segments2,
        } && style == style2 && runs_alike(segments@, segments2@),
        Shape::TextBlock { style, lines } => b matches Shape::TextBlock {
            style: style2,
            lines: lines2,
        } && style == style2 && runs_alike(lines@, lines2@),
        Shape::TextSegmentRaw(x) => b matches Shape::TextSegmentRaw(y) && x == y,
        Shape::TextSegmentEscape(x) => b matches Shape::TextSegmentEscape(y) && x == y,
        Shape::TextSegmentInterpolate { tokens } => b matches Shape::TextSegmentInterpolate {
            tokens: tokens2,
        } && runs_alike(tokens@, tokens2@),
        Shape::TextSegmentInvalid(x) => b matches Shape::TextSegmentInvalid(y) && x == y,
        Shape::Line { tokens, trailing_line_ending } => b matches Shape::Line {
            tokens: tokens2,
            trailing_line_ending: ending2,
        } && trailing_line_ending == ending2 && runs_alike(tokens@, tokens2@),
        Shape::BlankLine(x) => b matches Shape::BlankLine(y) && x == y,
        Shape::Block { block_type, indent, lines } => b matches Shape::Block {
            block_type: block_type2,
            indent: indent2,
            lines: lines2,
        } && block_type == block_type2 && indent == indent2 && runs_alike(lines@, lines2@),
        Shape::InvalidSuffix(x) => b matches Shape::InvalidSuffix(y) && x == y,
        Shape::Unrecognized(x) => b matches Shape::Unrecognized(y) && x == y,
    }
}

/// `b` is as long as `a`, and holds at each place a token like the one of `a`.
pub open spec fn runs_alike(a: Seq<Token>, b: Seq<Token>) -> bool
    decreases a,
{
    a.len() == b.len() && forall|i: int| 0 <= i < a.len() ==> alike(#[trigger] a[i], b[i])
}

/// Copy a run of tokens, one by one.
fn copy_of_run(tokens: &Vec<Token>) -> (copy: Vec<Token>)
    ensures
        runs_alike(tokens@, copy@),
    decreases tokens,
{
    let mut copy: Vec<Token> = Vec::new();
    let mut i: usize = 0;
    while i < tokens.len()
        invariant
            0 <= i <= tokens.len(),
            copy.len() == i,
            forall|j: int| 0 <= j < i ==> alike(#[trigger] tokens@[j], copy@[j]),
        decreases tokens.len() - i,
    {
        let token = copy_of_token(&tokens[i]);
        copy.push(token);
        i = i + 1;
    }
    copy
}

/// Copy a shape, with the tokens inside it.
fn copy_of_shape(shape: &Shape) -> (copy: Shape)
    ensures
        shapes_alike(*shape, copy),
    decreases shape,
{
    match shape {
        Shape::Referent(x) => Shape::Referent(x.clone()),
        Shape::Variable(x) => Shape::Variable(x.clone()),
        Shape::External(x) => Shape::External(x.clone()),
        Shape::Blank => Shape::Blank,
        Shape::Operator(x) => Shape::Operator(x.clone()),
        Shape::Modifier(x) => Shape::Modifier(x.clone()),
        Shape::Number { base, number } => Shape::Number {
            base: base.clone(),
            number: number.clone(),
        },
        Shape::DanglingBase(x) => Shape::DanglingBase(x.clone()),
        Shape::TextLine { style, segments } => Shape::TextLine {
            style: *style,
            segments: copy_of_run(segments),
        },
        Shape::TextBlock { style, lines } => Shape::TextBlock {
            style: *style,
            lines: copy_of_run(lines),
        },
        Shape::TextSegmentRaw(x) => Shape::TextSegmentRaw(x.clone()),
        Shape::TextSegmentEscape(x) => Shape::TextSegmentEscape(x.clone()),
        Shape::TextSegmentInterpolate { tokens } => Shape::TextSegmentInterpolate {
            tokens: copy_of_run(tokens),
        },
        Shape::TextSegmentInvalid(x) => Shape::TextSegmentInvalid(x.clone()),
        Shape::Line { tokens, trailing_line_ending } => Shape::Line {
            tokens: copy_of_run(tokens),
            trailing_line_ending: *trailing_line_ending,
        },
        Shape::BlankLine(x) => Shape::BlankLine(*x),
        Shape::Block { block_type, indent, lines } => Shape::Block {
            block_type: *block_type,
            indent: *indent,
            lines: copy_of_run(lines),
        },
        Shape::InvalidSuffix(x) => Shape::InvalidSuffix(x.clone()),
        Shape::Unrecognized(x) => Shape::Unrecognized(x.clone()),
    }
}

/// Copy a token, with the tokens inside its shape.
fn copy_of_token(token: &Token) -> (copy: Token)
    ensures
        alike(*token, copy),
    decreases token,
{
    Token { shape: copy_of_shape(&token.shape), length: token.length, offset: token.offset }
}

impl Clone for Token {
    fn clone(&self) -> (copy: Self)
        ensures
            alike(*self, copy),
    {
        copy_of_token(self)
    }
}

impl Clone for Shape {
    fn clone(&self) -> (copy: Self)
        ensures
            shapes_alike(*self, copy),
    {
        copy_of_shape(self)
    }
}

impl Clone for Stream {
    fn clone(&self) -> (copy: Self)
        ensures
            runs_alike(self@, copy@),
    {
        Stream { tokens: copy_of_run(&self.tokens) }
    }
}

} // verus!
