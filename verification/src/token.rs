//! Tokens produced by the scanner.

use vstd::prelude::*;
use vstd::string::StringExecFns;

verus! {

/// The category of a token.
#[derive(Debug, Clone, Copy, PartialEq, Eq, Structural)]
pub enum TokenType {
    Id,
    IntLiteral,
    BoolLiteral,
    StringLiteral,
    CharLiteral,
    FloatLiteral,
    Keyword,
    Op,
    LParen,
    RParen,
    LBracket,
    RBracket,
    LBrace,
    RBrace,
    Error,
    Eof,
}

/// The mathematical value of a token: its kind, its text as a character
/// sequence, and the line and column of its first consumed character.
pub ghost struct SpecToken {
    pub ty: TokenType,
    pub text: Seq<char>,
    pub line: nat,
    pub column: nat,
}

/// The fixed display label of each token kind.
pub open spec fn label_spec(ty: TokenType) -> Seq<char> {
    match ty {
        TokenType::Id => "<identifier>"@,
        TokenType::IntLiteral => "<literal: int>"@,
        TokenType::BoolLiteral => "<literal: bool>"@,
        TokenType::StringLiteral => "<literal: string>"@,
        TokenType::CharLiteral => "<literal: char>"@,
        TokenType::FloatLiteral => "<literal: float>"@,
        TokenType::Keyword => "keyword"@,
        TokenType::Eof => "EOF"@,
        TokenType::Op => "<operator>"@,
        TokenType::LParen => "<punctuation>"@,
        TokenType::RParen => "<punctuation>"@,
        TokenType::LBracket => "<punctuation>"@,
        TokenType::RBracket => "<punctuation>"@,
        TokenType::LBrace => "<punctuation>"@,
        TokenType::RBrace => "<punctuation>"@,
        TokenType::Error => "<error msg>"@,
    }
}

impl TokenType {
    /// The fixed display label for this token kind.
    pub fn label(&self) -> (m: String)
        ensures
            m@ == label_spec(*self),
    {
        match self {
            TokenType::Id => "<identifier>".to_owned(),
            TokenType::IntLiteral => "<literal: int>".to_owned(),
            TokenType::BoolLiteral => "<literal: bool>".to_owned(),
            TokenType::StringLiteral => "<literal: string>".to_owned(),
            TokenType::CharLiteral => "<literal: char>".to_owned(),
            TokenType::FloatLiteral => "<literal: float>".to_owned(),
            TokenType::Keyword => "keyword".to_owned(),
            TokenType::Eof => "EOF".to_owned(),
            TokenType::Op => "<operator>".to_owned(),
            TokenType::LParen => "<punctuation>".to_owned(),
            TokenType::RParen => "<punctuation>".to_owned(),
            TokenType::LBracket => "<punctuation>".to_owned(),
            TokenType::RBracket => "<punctuation>".to_owned(),
            TokenType::LBrace => "<punctuation>".to_owned(),
            TokenType::RBrace => "<punctuation>".to_owned(),
            TokenType::Error => "<error msg>".to_owned(),
        }
    }
}

/// The minimal lexeme of the code.
#[derive(Debug)]
pub struct Token {
    pub ty: TokenType,
    pub text: String,
    pub line: usize,
    pub column: usize,
}

impl View for Token {
    type V = SpecToken;

    open spec fn view(&self) -> SpecToken {
        SpecToken { ty: self.ty, text: self.text@, line: self.line as nat, column: self.column as nat }
    }
}

/// The character of a single decimal digit.
pub open spec fn digit_char(d: nat) -> char
    recommends
        d < 10,
{
    ((48 + d) as u8) as char
}

/// The decimal spelling of a number, most significant digit first.
pub open spec fn dec_digits(n: nat) -> Seq<char>
    decreases n,
{
    if n < 10 {
        seq![digit_char(n)]
    } else {
        dec_digits(n / 10).push(digit_char(n % 10))
    }
}

/// Appends the decimal spelling of `n` to the string.
fn push_dec(s: &mut String, n: usize)
    ensures
        final(s)@ == old(s)@ + dec_digits(n as nat),
    decreases n,
{
    if n < 10 {
        let c = ((48 + (n as u8)) as char);
        s.push(c);
        proof {
            assert(old(s)@.push(c) =~= old(s)@ + seq![c]);
        }
    } else {
        push_dec(s, n / 10);
        let c = ((48 + ((n % 10) as u8)) as char);
        s.push(c);
        proof {
            assert((old(s)@ + dec_digits((n / 10) as nat)).push(c) =~= old(s)@ + dec_digits(
                n as nat,
            ));
        }
    }
}

/// The canonical display line of a token: its kind label, its text, and its
/// line and column.
pub open spec fn describe_spec(t: SpecToken) -> Seq<char> {
    "Lexeme: (Type: "@ + label_spec(t.ty) + ", Content: "@ + t.text + ", At: (L: "@ + dec_digits(
        t.line,
    ) + ", C, "@ + dec_digits(t.column) + "))"@
}

impl Token {
    pub fn new(ty: TokenType, text: &str, line: usize, column: usize) -> (t: Token)
        ensures
            t@ == (SpecToken { ty, text: text@, line: line as nat, column: column as nat }),
    {
        Token { ty, text: text.to_owned(), line, column }
    }

    /// The canonical formatted line for the token, for diagnostics.
    pub fn describe(&self) -> (s: String)
        ensures
            s@ == describe_spec(self@),
    {
        let mut s = String::new();
        s.append("Lexeme: (Type: ");
        let lab = self.ty.label();
        s.append(lab.as_str());
        s.append(", Content: ");
        s.append(self.text.as_str());
        s.append(", At: (L: ");
        push_dec(&mut s, self.line);
        s.append(", C, ");
        push_dec(&mut s, self.column);
        s.append("))");
        proof {
            assert(s@ =~= describe_spec(self@));
        }
        s
    }
}

} // verus!
