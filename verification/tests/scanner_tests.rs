use miqro_lexer::Lexer;
use miqro_lexer::Token;
use miqro_lexer::TokenType;

fn first_token(src: &str) -> Token {
    let mut lexer = Lexer::new(src);
    lexer.next_token()
}

fn all_tokens(src: &str) -> Vec<Token> {
    let mut lexer = Lexer::new(src);
    let mut out = Vec::new();
    loop {
        let t = lexer.next_token();
        let done = t.ty == TokenType::Eof;
        out.push(t);
        if done {
            return out;
        }
    }
}

#[test]
fn empty_input_yields_eof() {
    let mut lexer = Lexer::new("");
    assert!(lexer.eof());
    let t = lexer.next_token();
    assert_eq!(t.ty, TokenType::Eof);
    assert_eq!(t.text, "");
}

#[test]
fn identifier_token_text_matches() {
    let t = first_token("hello");
    assert_eq!(t.ty, TokenType::Id);
    assert_eq!(t.text, "hello");
    assert_eq!(t.line, 1);
    assert_eq!(t.column, 1);
}

#[test]
fn identifier_with_continue_characters() {
    let t = first_token("a_1b");
    assert_eq!(t.ty, TokenType::Id);
    assert_eq!(t.text, "a_1b");
}

#[test]
fn identifier_beyond_ascii() {
    let t = first_token("h\u{00E9}llo");
    assert_eq!(t.ty, TokenType::Id);
    assert_eq!(t.text, "h\u{00E9}llo");
}

#[test]
fn underscore_alone_is_not_an_identifier() {
    let t = first_token("_");
    assert_eq!(t.ty, TokenType::Error);
    assert_eq!(t.text, "Invalid character");
}

#[test]
fn keywords_yield_keyword_tokens() {
    for kw in ["let", "func", "if", "else", "while", "for", "return"] {
        let t = first_token(kw);
        assert_eq!(t.ty, TokenType::Keyword);
        assert_eq!(t.text, *kw);
    }
}

#[test]
fn booleans_yield_bool_literals() {
    for b in ["true", "false"] {
        let t = first_token(b);
        assert_eq!(t.ty, TokenType::BoolLiteral);
        assert_eq!(t.text, *b);
    }
}

#[test]
fn keyword_prefix_is_still_an_identifier() {
    let t = first_token("letter");
    assert_eq!(t.ty, TokenType::Id);
    assert_eq!(t.text, "letter");
}

#[test]
fn shift_assign_is_one_token() {
    let ts = all_tokens(">>=");
    assert_eq!(ts.len(), 2);
    assert_eq!(ts[0].ty, TokenType::Op);
    assert_eq!(ts[0].text, ">>=");
    assert_eq!(ts[1].ty, TokenType::Eof);
}

#[test]
fn operators_use_longest_match() {
    let ts = all_tokens("a->b");
    assert_eq!(ts[0].text, "a");
    assert_eq!(ts[1].ty, TokenType::Op);
    assert_eq!(ts[1].text, "->");
    assert_eq!(ts[2].text, "b");
}

#[test]
fn single_operators_scan_alone() {
    for op in ["+", "-", "*", "/", "%", "^", "!", ",", ";", ".", "=", ":"] {
        let t = first_token(op);
        assert_eq!(t.ty, TokenType::Op);
        assert_eq!(t.text, *op);
    }
}

#[test]
fn double_operators_scan_together() {
    for op in [">>", "<<", "+=", "-=", "*=", "/=", "%=", "^=", "|=", "&=", "||", "&&", "==", "!=", ">=", "<=", "->", "::"] {
        let ts = all_tokens(op);
        assert_eq!(ts.len(), 2);
        assert_eq!(ts[0].ty, TokenType::Op);
        assert_eq!(ts[0].text, *op);
    }
}

#[test]
fn line_comment_is_skipped() {
    let t = first_token("// c\nx");
    assert_eq!(t.ty, TokenType::Id);
    assert_eq!(t.text, "x");
    assert_eq!(t.line, 2);
    assert_eq!(t.column, 1);
}

#[test]
fn block_comment_is_skipped() {
    let ts = all_tokens("/* hi */x");
    assert_eq!(ts[0].ty, TokenType::Id);
    assert_eq!(ts[0].text, "x");
}

#[test]
fn block_comment_close_at_end_of_input() {
    let ts = all_tokens("/**/");
    assert_eq!(ts.len(), 1);
    assert_eq!(ts[0].ty, TokenType::Eof);
}

#[test]
fn unterminated_block_comment_is_accepted() {
    let ts = all_tokens("/* abc");
    assert_eq!(ts.len(), 1);
    assert_eq!(ts[0].ty, TokenType::Eof);
}

#[test]
fn block_comment_counts_lines() {
    let t = first_token("/* a\nb */x");
    assert_eq!(t.ty, TokenType::Id);
    assert_eq!(t.text, "x");
    assert_eq!(t.line, 2);
}

#[test]
fn whitespace_is_skipped() {
    let t = first_token("  x");
    assert_eq!(t.ty, TokenType::Id);
    assert_eq!(t.text, "x");
    assert_eq!(t.column, 3);
}

#[test]
fn unicode_whitespace_is_skipped() {
    let t = first_token("\u{00A0}x");
    assert_eq!(t.ty, TokenType::Id);
    assert_eq!(t.text, "x");
    assert_eq!(t.column, 2);
}

#[test]
fn newline_resets_column() {
    let ts = all_tokens("a\nb");
    assert_eq!(ts[0].line, 1);
    assert_eq!(ts[0].column, 1);
    assert_eq!(ts[1].line, 2);
    assert_eq!(ts[1].column, 1);
}

#[test]
fn token_position_is_first_character() {
    let ts = all_tokens("ab cd");
    assert_eq!(ts[0].column, 1);
    assert_eq!(ts[1].column, 4);
}

#[test]
fn string_literal_is_decoded() {
    let ts = all_tokens("\"hi\" x");
    assert_eq!(ts[0].ty, TokenType::StringLiteral);
    assert_eq!(ts[0].text, "hi");
    assert_eq!(ts[0].column, 1);
    assert_eq!(ts[1].ty, TokenType::Id);
}

#[test]
fn string_escape_is_decoded() {
    let t = first_token("\"a\\nb\"");
    assert_eq!(t.ty, TokenType::StringLiteral);
    assert_eq!(t.text, "a\nb");
}

#[test]
fn unterminated_string_is_accepted() {
    let t = first_token("\"abc");
    assert_eq!(t.ty, TokenType::StringLiteral);
    assert_eq!(t.text, "abc");
}

#[test]
fn char_literal_is_decoded() {
    let t = first_token("'a'");
    assert_eq!(t.ty, TokenType::CharLiteral);
    assert_eq!(t.text, "a");
}

#[test]
fn char_literal_unicode_escape() {
    let t = first_token("'\\u{41}'");
    assert_eq!(t.ty, TokenType::CharLiteral);
    assert_eq!(t.text, "A");
}

#[test]
fn bad_escape_collapses_to_error_message() {
    let t = first_token("\"\\q\"");
    assert_eq!(t.ty, TokenType::Error);
    assert_eq!(t.text, "Illegal escape sequence");
    assert_eq!(t.line, 1);
    assert_eq!(t.column, 1);
}

#[test]
fn trailing_backslash_in_literal_is_an_error() {
    let t = first_token("\"ab\\");
    assert_eq!(t.ty, TokenType::Error);
    assert_eq!(t.text, "Only one slash found, expected an escape sequence");
}

#[test]
fn binary_literal_keeps_prefix() {
    let t = first_token("0b101");
    assert_eq!(t.ty, TokenType::IntLiteral);
    assert_eq!(t.text, "0b101");
}

#[test]
fn octal_literal_keeps_prefix() {
    let t = first_token("0o17");
    assert_eq!(t.ty, TokenType::IntLiteral);
    assert_eq!(t.text, "0o17");
}

#[test]
fn hex_literal_keeps_prefix() {
    let t = first_token("0xFf");
    assert_eq!(t.ty, TokenType::IntLiteral);
    assert_eq!(t.text, "0xFf");
}

#[test]
fn float_literal_keeps_dot() {
    let t = first_token("3.14");
    assert_eq!(t.ty, TokenType::FloatLiteral);
    assert_eq!(t.text, "3.14");
}

#[test]
fn zero_float_literal() {
    let t = first_token("0.5");
    assert_eq!(t.ty, TokenType::FloatLiteral);
    assert_eq!(t.text, "0.5");
}

#[test]
fn float_with_no_fraction_digits() {
    let t = first_token("0.");
    assert_eq!(t.ty, TokenType::FloatLiteral);
    assert_eq!(t.text, "0.");
}

#[test]
fn leading_zero_decimal_is_accepted() {
    let t = first_token("07");
    assert_eq!(t.ty, TokenType::IntLiteral);
    assert_eq!(t.text, "07");
}

#[test]
fn plain_decimal_integer() {
    let t = first_token("12345");
    assert_eq!(t.ty, TokenType::IntLiteral);
    assert_eq!(t.text, "12345");
}

#[test]
fn bare_zero_is_an_invalid_suffix() {
    let t = first_token("0");
    assert_eq!(t.ty, TokenType::Error);
    assert_eq!(t.text, "Invalid number literal suffix");
}

#[test]
fn zero_with_letter_is_an_invalid_suffix() {
    let ts = all_tokens("0z");
    assert_eq!(ts[0].ty, TokenType::Error);
    assert_eq!(ts[0].text, "Invalid number literal suffix");
    assert_eq!(ts[1].ty, TokenType::Id);
    assert_eq!(ts[1].text, "z");
}

#[test]
fn brackets_yield_their_kinds() {
    let ts = all_tokens("()[]{}");
    assert_eq!(ts[0].ty, TokenType::LParen);
    assert_eq!(ts[0].text, "(");
    assert_eq!(ts[1].ty, TokenType::RParen);
    assert_eq!(ts[2].ty, TokenType::LBracket);
    assert_eq!(ts[3].ty, TokenType::RBracket);
    assert_eq!(ts[4].ty, TokenType::LBrace);
    assert_eq!(ts[5].ty, TokenType::RBrace);
    assert_eq!(ts[6].ty, TokenType::Eof);
}

#[test]
fn unrecognized_character_is_an_error() {
    let t = first_token("$");
    assert_eq!(t.ty, TokenType::Error);
    assert_eq!(t.text, "Invalid character");
}

#[test]
fn scanning_continues_past_an_error() {
    let ts = all_tokens("$ x");
    assert_eq!(ts[0].ty, TokenType::Error);
    assert_eq!(ts[1].ty, TokenType::Id);
    assert_eq!(ts[1].text, "x");
}

#[test]
fn token_new_builds_the_token() {
    let t = Token::new(TokenType::Id, "abc", 3, 7);
    assert_eq!(t.ty, TokenType::Id);
    assert_eq!(t.text, "abc");
    assert_eq!(t.line, 3);
    assert_eq!(t.column, 7);
}

#[test]
fn token_kind_labels_are_fixed() {
    assert_eq!(TokenType::Id.label(), "<identifier>");
    assert_eq!(TokenType::IntLiteral.label(), "<literal: int>");
    assert_eq!(TokenType::BoolLiteral.label(), "<literal: bool>");
    assert_eq!(TokenType::StringLiteral.label(), "<literal: string>");
    assert_eq!(TokenType::CharLiteral.label(), "<literal: char>");
    assert_eq!(TokenType::FloatLiteral.label(), "<literal: float>");
    assert_eq!(TokenType::Keyword.label(), "keyword");
    assert_eq!(TokenType::Eof.label(), "EOF");
    assert_eq!(TokenType::Op.label(), "<operator>");
    assert_eq!(TokenType::LParen.label(), "<punctuation>");
    assert_eq!(TokenType::RBrace.label(), "<punctuation>");
    assert_eq!(TokenType::Error.label(), "<error msg>");
}

#[test]
fn describe_formats_the_token_line() {
    let t = Token::new(TokenType::Id, "x", 2, 5);
    assert_eq!(t.describe(), "Lexeme: (Type: <identifier>, Content: x, At: (L: 2, C, 5))");
    let t = Token::new(TokenType::IntLiteral, "107", 13, 40);
    assert_eq!(
        t.describe(),
        "Lexeme: (Type: <literal: int>, Content: 107, At: (L: 13, C, 40))"
    );
}

#[test]
fn small_program_scans_fully() {
    let ts = all_tokens("let x = 10;\nif x >= 2 { return x; } // done");
    let kinds: Vec<TokenType> = ts.iter().map(|t| t.ty).collect();
    assert_eq!(
        kinds,
        vec![
            TokenType::Keyword,
            TokenType::Id,
            TokenType::Op,
            TokenType::IntLiteral,
            TokenType::Op,
            TokenType::Keyword,
            TokenType::Id,
            TokenType::Op,
            TokenType::IntLiteral,
            TokenType::LBrace,
            TokenType::Keyword,
            TokenType::Id,
            TokenType::Op,
            TokenType::RBrace,
            TokenType::Eof,
        ]
    );
    assert_eq!(ts[0].text, "let");
    assert_eq!(ts[3].text, "10");
    assert_eq!(ts[7].text, ">=");
    assert_eq!(ts[10].line, 2);
}

#[test]
fn decimal_integer_stops_at_later_dot() {
    let ts = all_tokens("12.5");
    assert_eq!(ts[0].ty, TokenType::IntLiteral);
    assert_eq!(ts[0].text, "12");
    assert_eq!(ts[1].ty, TokenType::Op);
    assert_eq!(ts[1].text, ".");
    assert_eq!(ts[2].ty, TokenType::IntLiteral);
    assert_eq!(ts[2].text, "5");
}

#[test]
fn bare_radix_prefixes_scan_alone() {
    assert_eq!(first_token("0x").text, "0x");
    assert_eq!(first_token("0b").text, "0b");
    assert_eq!(first_token("0o").text, "0o");
}
