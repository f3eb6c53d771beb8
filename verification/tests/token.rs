use flexer::token::BlockType;
use flexer::token::LineEnding;
use flexer::token::Shape;
use flexer::token::Stream;
use flexer::token::TextStyle;
use flexer::token::Token;

// === Testing Utilities ===

/// Asserts that the `token` has the provided `shape`.
fn assert_shape(token: &Token, shape: Shape) {
    assert_eq!(token.shape, shape);
}

/// Asserts that the `token` has the provided `length`.
fn assert_length(token: &Token, length: usize) {
    assert_eq!(token.length, length)
}

// === Tests for Token Construction ===

#[test]
fn construct_referent_token() {
    let token = Token::Referent("Some_Ref_Name", 0);
    assert_shape(&token, Shape::referent("Some_Ref_Name"));
    assert_length(&token, 13);
}

#[test]
fn construct_variable_token() {
    let token = Token::Variable("some_variable_name", 0);
    assert_shape(&token, Shape::variable("some_variable_name"));
    assert_length(&token, 18);
}

#[test]
fn construct_external_name_token() {
    let token = Token::External("camelCase", 0);
    assert_shape(&token, Shape::external("camelCase"));
    assert_length(&token, 9);
}

#[test]
fn construct_blank_token() {
    let token = Token::Blank(0);
    assert_shape(&token, Shape::blank());
    assert_length(&token, 1);
}

#[test]
fn construct_operator_token() {
    let token = Token::Operator("==>", 0);
    assert_shape(&token, Shape::operator("==>"));
    assert_length(&token, 3);
}

#[test]
fn construct_modifier_token() {
    let token = Token::Modifier("+", 0);
    assert_shape(&token, Shape::modifier("+"));
    assert_length(&token, 2);
}

#[test]
fn construct_number_token() {
    let token = Token::Number("", "1231", 0);
    assert_shape(&token, Shape::number("", "1231"));
    assert_length(&token, 4);
}

#[test]
fn construct_dangling_base_token() {
    let token = Token::DanglingBase("15", 0);
    assert_shape(&token, Shape::dangling_base("15"));
    assert_length(&token, 3);
}

#[test]
fn construct_text_line_token() {
    let token = Token::TextLine(TextStyle::RawLine, vec![], 0);
    assert_shape(&token, Shape::text_line(TextStyle::RawLine, vec![]));
    assert_length(&token, 2);
}

#[test]
fn construct_text_block_token() {
    let lines = vec![
        Token::Line(vec![Token::TextSegmentRaw("foo", 0)], 0, LineEnding::LF),
        Token::Line(vec![Token::TextSegmentInterpolate(vec![], 0)], 0, LineEnding::LF),
    ];
    let token = Token::TextBlock(TextStyle::InterpolatedBlock, lines.clone(), 2, 0);
    assert_shape(&token, Shape::text_block(TextStyle::InterpolatedBlock, lines.clone()));
    assert_length(&token, 14);
}

#[test]
fn construct_text_segment_raw_token() {
    let token = Token::TextSegmentRaw("FooBar Baz Bam", 0);
    assert_shape(&token, Shape::text_segment_raw("FooBar Baz Bam"));
    assert_length(&token, 14);
}

#[test]
fn construct_text_segment_escape() {
    let token = Token::TextSegmentEscape("\\t", 0);
    assert_shape(&token, Shape::text_segment_escape("\\t"));
    assert_length(&token, 2);
}

#[test]
fn construct_text_segment_interpolate() {
    let tokens = vec![
        Token::Variable("foo", 0),
        Token::Operator("+", 1),
        Token::Number("", "1", 1),
    ];
    let token = Token::TextSegmentInterpolate(tokens.clone(), 0);
    assert_shape(&token, Shape::text_segment_interpolate(tokens.clone()));
    assert_length(&token, 9);
}

#[test]
fn construct_text_segment_invalid() {
    let token = Token::TextSegmentInvalid("scream", 12, 0);
    assert_shape(&token, Shape::text_segment_invalid("scream"));
    assert_length(&token, 12);
}

#[test]
fn construct_line_token() {
    let tokens = vec![Token::Variable("aa", 0), Token::Referent("Abc", 1)];
    let token = Token::Line(tokens.clone(), 4, LineEnding::LF);
    assert_shape(&token, Shape::line(tokens.clone(), LineEnding::LF));
    assert_length(&token, 7);
}

#[test]
fn construct_blank_line_token() {
    let token = Token::BlankLine(13, LineEnding::LF);
    assert_shape(&token, Shape::blank_line(LineEnding::LF));
    assert_length(&token, 1);
}

#[test]
fn construct_block_token_lf() {
    let lines = vec![
        Token::Line(vec![], 0, LineEnding::LF),
        Token::Line(vec![], 4, LineEnding::LF),
    ];
    let token = Token::Block(BlockType::Continuous, 4, lines.clone(), 0);
    assert_shape(&token, Shape::block(BlockType::Continuous, 4, lines.clone()));
    assert_length(&token, 14);
}

#[test]
fn construct_block_token_crlf() {
    let lines = vec![
        Token::Line(vec![], 0, LineEnding::CRLF),
        Token::Line(vec![], 4, LineEnding::CRLF),
    ];
    let token = Token::Block(BlockType::Continuous, 4, lines.clone(), 0);
    assert_shape(&token, Shape::block(BlockType::Continuous, 4, lines.clone()));
    assert_length(&token, 16);
}

#[test]
fn construct_invalid_suffix_token() {
    let token = Token::InvalidSuffix("aaa", 0);
    assert_shape(&token, Shape::invalid_suffix("aaa"));
    assert_length(&token, 3);
}

#[test]
fn construct_unrecognized_token() {
    let token = Token::Unrecognized("a", 0);
    assert_shape(&token, Shape::unrecognized("a"));
    assert_length(&token, 1);
}

// === Lengths ===

#[test]
fn source_length_adds_the_trailing_spaces() {
    let token = Token::Variable("foo", 4);
    assert_eq!(token.offset, 4);
    assert_eq!(token.source_length(), 7);
}

#[test]
fn identifier_lengths_count_characters_not_bytes() {
    assert_length(&Token::Variable("héllo", 0), 5);
    assert_length(&Token::Referent("Ünï", 0), 3);
    assert_length(&Token::Operator("→", 0), 1);
    assert_length(&Token::Unrecognized("¿?", 0), 2);
}

#[test]
fn text_segment_lengths_count_bytes() {
    assert_length(&Token::TextSegmentRaw("héllo", 0), 6);
    assert_length(&Token::TextSegmentEscape("→", 0), 3);
}

#[test]
fn number_with_base_counts_the_separator() {
    let token = Token::Number("16", "ff", 2);
    assert_shape(&token, Shape::number("16", "ff"));
    assert_length(&token, 5);
    assert_eq!(token.offset, 2);
}

#[test]
fn line_ending_sizes() {
    assert_eq!(LineEnding::Absent.size(), 0);
    assert_eq!(LineEnding::LF.size(), 1);
    assert_eq!(LineEnding::CRLF.size(), 2);
    assert_eq!(LineEnding::default(), LineEnding::Absent);
}

#[test]
fn text_style_delimiter_lengths() {
    assert_eq!(TextStyle::InterpolatedLine.length(), 2);
    assert_eq!(TextStyle::RawLine.length(), 2);
    assert_eq!(TextStyle::UnclosedLine.length(), 1);
    assert_eq!(TextStyle::InterpolatedBlock.length(), 3);
    assert_eq!(TextStyle::RawBlock.length(), 3);
}

#[test]
fn text_line_adds_segments_and_their_offsets() {
    let segments = vec![Token::TextSegmentRaw("ab", 1), Token::TextSegmentEscape("\\n", 2)];
    let token = Token::TextLine(TextStyle::UnclosedLine, segments, 0);
    assert_length(&token, 1 + 3 + 4);
}

#[test]
fn text_block_indents_blank_lines_too() {
    let lines = vec![
        Token::BlankLine(1, LineEnding::LF),
        Token::Line(vec![Token::TextSegmentRaw("x", 0)], 0, LineEnding::CRLF),
    ];
    let token = Token::TextBlock(TextStyle::RawBlock, lines, 3, 0);
    assert_length(&token, 3 + (3 + 1 + 1) + (3 + 3));
}

#[test]
fn block_does_not_indent_blank_lines() {
    let lines = vec![
        Token::BlankLine(2, LineEnding::LF),
        Token::Line(vec![Token::Variable("x", 0)], 0, LineEnding::LF),
    ];
    let token = Token::Block(BlockType::Discontinuous, 4, lines, 1);
    assert_length(&token, (2 + 1) + (4 + 2));
    assert_eq!(token.offset, 1);
}

#[test]
fn copies_compare_equal() {
    let inner = Token::Line(vec![Token::Variable("a", 1), Token::Blank(0)], 0, LineEnding::LF);
    let token = Token::Block(BlockType::Continuous, 2, vec![inner], 3);
    let copy = token.clone();
    assert_eq!(copy, token);
    assert_eq!(copy.shape.clone(), token.shape);
}

// === Stream ===

#[test]
fn stream_collects_tokens_in_order() {
    let mut stream = Stream::default();
    assert_eq!(stream.tokens().len(), 0);
    assert_eq!(stream.tokens_len(), 0);
    stream.append(Token::Variable("foo", 1));
    stream.append(Token::Operator("+", 1));
    stream.append(Token::Number("", "12", 0));
    assert_eq!(stream.tokens().len(), 3);
    assert_eq!(stream.tokens()[1], Token::Operator("+", 1));
    assert_eq!(stream.tokens_len(), 4 + 2 + 2);
    assert_eq!(stream.clone(), stream);
}

#[test]
fn stream_from_tokens_and_back() {
    let tokens = vec![Token::Blank(0), Token::Referent("A", 2)];
    let stream = Stream::from(tokens.clone());
    assert_eq!(stream.tokens(), &tokens);
    assert_eq!(stream.tokens_len(), 1 + 3);
    let back: Vec<Token> = stream.into();
    assert_eq!(back, tokens);
}

#[test]
fn stream_stands_for_its_tokens() {
    let mut stream = Stream::from(vec![Token::Blank(0)]);
    assert_eq!(stream.len(), 1);
    assert_eq!(stream[0], Token::Blank(0));
    stream.push(Token::Variable("x", 0));
    stream.append(Token::Operator("+", 0));
    assert_eq!(stream.len(), 3);
    assert_eq!(stream.tokens()[1], Token::Variable("x", 0));
    assert_eq!(stream.last(), Some(&Token::Operator("+", 0)));
    assert_eq!(stream.tokens_len(), 3);
}

#[test]
fn line_endings_have_names() {
    assert_eq!(LineEnding::Absent.name(), "None");
    assert_eq!(LineEnding::LF.name(), "LF");
    assert_eq!(LineEnding::CRLF.name(), "CRLF");
}
