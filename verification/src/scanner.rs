//! The scanner: a cursor over the source characters and a dispatch that
//! classifies each lexeme, producing one token per call.

use vstd::prelude::*;

use crate::ext::is_id_continue;
use crate::ext::is_id_start;
use crate::ext::is_space;
use crate::ext::chars_of;
use crate::ext::whitespace;
use crate::ext::xid_continue;
use crate::ext::xid_start;
use crate::token::SpecToken;
use crate::token::Token;
use crate::token::TokenType;
use crate::unescape::is_hex_digit;
use crate::unescape::message_spec;
use crate::unescape::unescape;
use crate::unescape::unescape_spec;

verus! {

/// A decimal digit.
pub open spec fn is_dec_digit(c: char) -> bool {
    '0' as u32 <= c as u32 && c as u32 <= '9' as u32
}

/// The classes of characters whose maximal runs the scanner consumes.
#[derive(Clone, Copy)]
pub enum CharClass {
    Space,
    NotChar(char),
    IdCont,
    BinDigit,
    OctDigit,
    DecDigit,
    HexDigit,
}

/// Whether a character belongs to a class.
pub open spec fn in_class(k: CharClass, c: char) -> bool {
    match k {
        CharClass::Space => is_space(c),
        CharClass::NotChar(q) => c != q,
        CharClass::IdCont => is_id_continue(c),
        CharClass::BinDigit => '0' as u32 <= c as u32 && c as u32 <= '1' as u32,
        CharClass::OctDigit => '0' as u32 <= c as u32 && c as u32 <= '7' as u32,
        CharClass::DecDigit => is_dec_digit(c),
        CharClass::HexDigit => is_hex_digit(c),
    }
}

/// The length of the longest prefix of `s` whose characters are all in the class.
pub open spec fn class_run_len(s: Seq<char>, k: CharClass) -> nat
    decreases s.len(),
{
    if s.len() > 0 && in_class(k, s[0]) {
        (1 + class_run_len(s.drop_first(), k)) as nat
    } else {
        0nat
    }
}

pub proof fn lemma_class_run_len_le(s: Seq<char>, k: CharClass)
    ensures
        class_run_len(s, k) <= s.len(),
    decreases s.len(),
{
    if s.len() > 0 && in_class(k, s[0]) {
        lemma_class_run_len_le(s.drop_first(), k);
    }
}

/// The run length is the position of the first character out of the class.
proof fn lemma_class_run_len_is(s: Seq<char>, k: CharClass, n: int)
    requires
        0 <= n <= s.len(),
        forall|j: int| 0 <= j < n ==> in_class(k, #[trigger] s[j]),
        n == s.len() || !in_class(k, s[n]),
    ensures
        class_run_len(s, k) == n,
    decreases n,
{
    if n == 0 {
    } else {
        assert(in_class(k, s[0]));
        let d = s.drop_first();
        assert(forall|j: int| 0 <= j < n - 1 ==> in_class(k, #[trigger] d[j]));
        assert(n - 1 == d.len() || !in_class(k, d[n - 1]));
        lemma_class_run_len_is(d, k, n - 1);
    }
}

/// How many characters a block comment body takes: through the first `*/`,
/// or everything when no close appears before the end of input.
pub open spec fn close_len(s: Seq<char>) -> nat
    decreases s.len(),
{
    if s.len() < 2 {
        s.len() as nat
    } else if s[0] == '*' && s[1] == '/' {
        2nat
    } else {
        (1 + close_len(s.drop_first())) as nat
    }
}

pub proof fn lemma_close_len_le(s: Seq<char>)
    ensures
        close_len(s) <= s.len(),
    decreases s.len(),
{
    if s.len() >= 2 && !(s[0] == '*' && s[1] == '/') {
        lemma_close_len_le(s.drop_first());
    }
}

proof fn lemma_close_len_at(s: Seq<char>, n: int)
    requires
        0 <= n,
        n + 1 < s.len(),
        s[n] == '*' && s[n + 1] == '/',
        forall|x: int| 0 <= x < n ==> !(#[trigger] s[x] == '*' && s[x + 1] == '/'),
    ensures
        close_len(s) == n + 2,
    decreases n,
{
    if n == 0 {
    } else {
        let d = s.drop_first();
        assert(forall|x: int| 0 <= x < n - 1 ==> !(#[trigger] d[x] == '*' && d[x + 1] == '/'));
        assert(d[n - 1] == '*' && d[n] == '/');
        lemma_close_len_at(d, n - 1);
    }
}

proof fn lemma_close_len_none(s: Seq<char>)
    requires
        forall|x: int| 0 <= x < s.len() - 1 ==> !(#[trigger] s[x] == '*' && s[x + 1] == '/'),
    ensures
        close_len(s) == s.len(),
    decreases s.len(),
{
    if s.len() >= 2 {
        let d = s.drop_first();
        assert(forall|x: int| 0 <= x < d.len() - 1 ==> !(#[trigger] d[x] == '*' && d[x + 1] == '/'));
        lemma_close_len_none(d);
    }
}

/// A character that can begin an operator.
pub open spec fn is_op_start(c: char) -> bool {
    c == '+' || c == '-' || c == '*' || c == '/' || c == '%' || c == '^' || c == '|' || c == '>'
        || c == '<' || c == '&' || c == '!' || c == '=' || c == ',' || c == ';' || c == '.'
        || c == ':'
}

/// The two-character entries of the fixed operator table.
pub open spec fn is_op_pair(a: char, b: char) -> bool {
    ||| (a == '>' && b == '>')
    ||| (a == '<' && b == '<')
    ||| ((a == '+' || a == '-' || a == '*' || a == '/' || a == '%' || a == '^' || a == '|'
        || a == '&' || a == '=' || a == '!' || a == '>' || a == '<') && b == '=')
    ||| (a == '|' && b == '|')
    ||| (a == '&' && b == '&')
    ||| (a == '-' && b == '>')
    ||| (a == ':' && b == ':')
}

/// The three-character entries of the fixed operator table.
pub open spec fn is_op_triple(a: char, b: char, c: char) -> bool {
    (a == '>' && b == '>' && c == '=') || (a == '<' && b == '<' && c == '=')
}

/// How many characters the greedy longest-match operator scan takes.
pub open spec fn op_len(s: Seq<char>) -> nat {
    if s.len() >= 2 && is_op_pair(s[0], s[1]) {
        if s.len() >= 3 && is_op_triple(s[0], s[1], s[2]) {
            3nat
        } else {
            2nat
        }
    } else {
        1nat
    }
}

/// The keyword set.
pub open spec fn is_keyword(w: Seq<char>) -> bool {
    ||| w == seq!['l', 'e', 't']
    ||| w == seq!['f', 'u', 'n', 'c']
    ||| w == seq!['i', 'f']
    ||| w == seq!['e', 'l', 's', 'e']
    ||| w == seq!['w', 'h', 'i', 'l', 'e']
    ||| w == seq!['f', 'o', 'r']
    ||| w == seq!['r', 'e', 't', 'u', 'r', 'n']
}

/// The boolean literal spellings.
pub open spec fn is_bool_word(w: Seq<char>) -> bool {
    w == seq!['t', 'r', 'u', 'e'] || w == seq!['f', 'a', 'l', 's', 'e']
}

/// What an identifier-shaped word is classified as.
pub open spec fn classify_word(w: Seq<char>) -> TokenType {
    if is_keyword(w) {
        TokenType::Keyword
    } else if is_bool_word(w) {
        TokenType::BoolLiteral
    } else {
        TokenType::Id
    }
}

/// The position just after consuming one character: a newline advances the
/// line and resets the column, anything else advances the column.
pub open spec fn adv1(p: (nat, nat), c: char) -> (nat, nat) {
    if c == '\n' {
        ((p.0 + 1) as nat, 0nat)
    } else {
        (p.0, (p.1 + 1) as nat)
    }
}

/// The position after consuming a sequence of characters.
pub open spec fn adv(p: (nat, nat), cs: Seq<char>) -> (nat, nat)
    decreases cs.len(),
{
    if cs.len() == 0 {
        p
    } else {
        adv(adv1(p, cs[0]), cs.drop_first())
    }
}

proof fn lemma_adv_snoc(p: (nat, nat), cs: Seq<char>, c: char)
    ensures
        adv(p, cs.push(c)) == adv1(adv(p, cs), c),
    decreases cs.len(),
{
    if cs.len() == 0 {
        assert(cs.push(c)[0] == c);
        assert(cs.push(c).drop_first() =~= Seq::<char>::empty());
        assert(adv(p, cs) == p);
        assert(adv(adv1(p, c), Seq::<char>::empty()) == adv1(p, c));
    } else {
        assert(cs.push(c)[0] == cs[0]);
        assert(cs.push(c).drop_first() =~= cs.drop_first().push(c));
        lemma_adv_snoc(adv1(p, cs[0]), cs.drop_first(), c);
        assert(adv(p, cs) == adv(adv1(p, cs[0]), cs.drop_first()));
    }
}

proof fn lemma_adv_split(p: (nat, nat), cs: Seq<char>, k: int)
    requires
        0 <= k <= cs.len(),
    ensures
        adv(p, cs) == adv(adv(p, cs.take(k)), cs.skip(k)),
    decreases k,
{
    if k == 0 {
        assert(cs.take(0) =~= Seq::<char>::empty());
        assert(cs.skip(0) =~= cs);
    } else {
        assert(cs.take(k)[0] == cs[0]);
        assert(cs.take(k).drop_first() =~= cs.drop_first().take(k - 1));
        assert(cs.skip(k) =~= cs.drop_first().skip(k - 1));
        lemma_adv_split(adv1(p, cs[0]), cs.drop_first(), k - 1);
    }
}

proof fn lemma_adv_one(p: (nat, nat), cs: Seq<char>)
    requires
        cs.len() == 1,
    ensures
        adv(p, cs) == adv1(p, cs[0]),
{
    assert(cs.drop_first() =~= Seq::<char>::empty());
    assert(adv(adv1(p, cs[0]), cs.drop_first()) == adv1(p, cs[0]));
}

/// Peels the first consumed character off a position computation.
proof fn lemma_adv_head(p: (nat, nat), s: Seq<char>, n: int)
    requires
        1 <= n <= s.len(),
    ensures
        adv(p, s.take(n)) == adv(adv1(p, s[0]), s.skip(1).take(n - 1)),
{
    lemma_adv_split(p, s.take(n), 1);
    assert(s.take(n).take(1) =~= s.take(1));
    assert(s.take(1)[0] == s[0]);
    lemma_adv_one(p, s.take(1));
    assert(s.take(n).skip(1) =~= s.skip(1).take(n - 1));
}

/// Peels the first two consumed characters off a position computation.
proof fn lemma_adv_head2(p: (nat, nat), s: Seq<char>, n: int)
    requires
        2 <= n <= s.len(),
    ensures
        adv(p, s.take(n)) == adv(adv1(adv1(p, s[0]), s[1]), s.skip(2).take(n - 2)),
{
    lemma_adv_head(p, s, n);
    lemma_adv_head(adv1(p, s[0]), s.skip(1), n - 1);
    assert(s.skip(1)[0] == s[1]);
    assert(s.skip(1).skip(1).take(n - 2) =~= s.skip(2).take(n - 2));
}

/// What one call of the scanner does to an input: the token produced, the
/// characters left, and the position reached.
pub ghost struct ScanStep {
    pub token: SpecToken,
    pub rest: Seq<char>,
    pub line: nat,
    pub column: nat,
}

/// A token of `n` characters taken from the front of `s`, positioned at the
/// first of them.
pub open spec fn run_token(s: Seq<char>, line: nat, column: nat, n: nat, ty: TokenType) -> ScanStep
    recommends
        s.len() > 0,
{
    let p1 = adv1((line, column), s[0]);
    let w = s.take(n as int);
    let p2 = adv((line, column), w);
    ScanStep {
        token: SpecToken { ty, text: w, line: p1.0, column: p1.1 },
        rest: s.skip(n as int),
        line: p2.0,
        column: p2.1,
    }
}

/// A one-character token whose text is fixed rather than taken from the input.
pub open spec fn single_token(s: Seq<char>, line: nat, column: nat, ty: TokenType, text: Seq<char>) -> ScanStep
    recommends
        s.len() > 0,
{
    let p1 = adv1((line, column), s[0]);
    ScanStep {
        token: SpecToken { ty, text, line: p1.0, column: p1.1 },
        rest: s.skip(1),
        line: p1.0,
        column: p1.1,
    }
}

/// Scanning a numeric literal: dispatch on a leading zero's follower, else a
/// plain decimal integer or float.
pub open spec fn number_token(s: Seq<char>, line: nat, column: nat) -> ScanStep
    recommends
        s.len() > 0,
        is_dec_digit(s[0]),
{
    if s[0] == '0' {
        if s.len() >= 2 && s[1] == 'b' {
            run_token(s, line, column, (2 + class_run_len(s.skip(2), CharClass::BinDigit)) as nat, TokenType::IntLiteral)
        } else if s.len() >= 2 && s[1] == 'o' {
            run_token(s, line, column, (2 + class_run_len(s.skip(2), CharClass::OctDigit)) as nat, TokenType::IntLiteral)
        } else if s.len() >= 2 && s[1] == 'x' {
            run_token(s, line, column, (2 + class_run_len(s.skip(2), CharClass::HexDigit)) as nat, TokenType::IntLiteral)
        } else if s.len() >= 2 && s[1] == '.' {
            run_token(s, line, column, (2 + class_run_len(s.skip(2), CharClass::DecDigit)) as nat, TokenType::FloatLiteral)
        } else if s.len() >= 2 && is_dec_digit(s[1]) {
            run_token(s, line, column, (2 + class_run_len(s.skip(2), CharClass::DecDigit)) as nat, TokenType::IntLiteral)
        } else {
            single_token(s, line, column, TokenType::Error, "Invalid number literal suffix"@)
        }
    } else {
        if s.len() >= 2 && s[1] == '.' {
            run_token(s, line, column, (2 + class_run_len(s.skip(2), CharClass::DecDigit)) as nat, TokenType::FloatLiteral)
        } else {
            run_token(s, line, column, (1 + class_run_len(s.skip(1), CharClass::DecDigit)) as nat, TokenType::IntLiteral)
        }
    }
}

/// Scanning a quoted literal: the raw content runs to the closing quote or
/// to the end of input, and is handed to the escape decoder; a decode
/// failure becomes an Error token carrying the message, at the literal's
/// start position.
pub open spec fn literal_token(s: Seq<char>, line: nat, column: nat) -> ScanStep
    recommends
        s.len() > 0,
        s[0] == '\'' || s[0] == '"',
{
    let c = s[0];
    let p1 = adv1((line, column), c);
    let m = class_run_len(s.skip(1), CharClass::NotChar(c));
    let n: int = if 1 + m < s.len() {
        m + 2int
    } else {
        m + 1int
    };
    let p2 = adv((line, column), s.take(n));
    let token = match unescape_spec(s.subrange(1, 1 + m as int)) {
        Ok(t) => SpecToken {
            ty: if c == '\'' {
                TokenType::CharLiteral
            } else {
                TokenType::StringLiteral
            },
            text: t,
            line: p1.0,
            column: p1.1,
        },
        Err(e) => SpecToken { ty: TokenType::Error, text: message_spec(e), line: p1.0, column: p1.1 },
    };
    ScanStep { token, rest: s.skip(n), line: p2.0, column: p2.1 }
}

/// Scanning one token from a nonempty input that does not begin with
/// whitespace or a comment.
pub open spec fn spec_token(s: Seq<char>, line: nat, column: nat) -> ScanStep
    recommends
        s.len() > 0,
{
    let c = s[0];
    if c == '\'' || c == '"' {
        literal_token(s, line, column)
    } else if is_id_start(c) {
        let n = (1 + class_run_len(s.skip(1), CharClass::IdCont)) as nat;
        run_token(s, line, column, n, classify_word(s.take(n as int)))
    } else if is_dec_digit(c) {
        number_token(s, line, column)
    } else if is_op_start(c) {
        run_token(s, line, column, op_len(s), TokenType::Op)
    } else if c == '(' {
        single_token(s, line, column, TokenType::LParen, "("@)
    } else if c == ')' {
        single_token(s, line, column, TokenType::RParen, ")"@)
    } else if c == '[' {
        single_token(s, line, column, TokenType::LBracket, "["@)
    } else if c == ']' {
        single_token(s, line, column, TokenType::RBracket, "]"@)
    } else if c == '{' {
        single_token(s, line, column, TokenType::LBrace, "{"@)
    } else if c == '}' {
        single_token(s, line, column, TokenType::RBrace, "}"@)
    } else {
        single_token(s, line, column, TokenType::Error, "Invalid character"@)
    }
}

/// What the next call of the scanner yields from the given input and
/// position: whitespace and comments are skipped, then one token is taken.
pub open spec fn spec_next_token(s: Seq<char>, line: nat, column: nat) -> ScanStep
    decreases s.len()
        via spec_next_token_decreases
{
    if s.len() == 0 {
        ScanStep {
            token: SpecToken { ty: TokenType::Eof, text: ""@, line, column },
            rest: s,
            line,
            column,
        }
    } else if is_space(s[0]) {
        let n: int = 1int + class_run_len(s.skip(1), CharClass::Space);
        let p2 = adv((line, column), s.take(n));
        spec_next_token(s.skip(n), p2.0, p2.1)
    } else if s[0] == '/' && s.len() >= 2 && s[1] == '/' {
        let n: int = 2int + class_run_len(s.skip(2), CharClass::NotChar('\n'));
        let p2 = adv((line, column), s.take(n));
        spec_next_token(s.skip(n), p2.0, p2.1)
    } else if s[0] == '/' && s.len() >= 2 && s[1] == '*' {
        let n: int = 2int + close_len(s.skip(2));
        let p2 = adv((line, column), s.take(n));
        spec_next_token(s.skip(n), p2.0, p2.1)
    } else {
        spec_token(s, line, column)
    }
}

#[via_fn]
proof fn spec_next_token_decreases(s: Seq<char>, line: nat, column: nat) {
    if s.len() > 0 {
        lemma_class_run_len_le(s.skip(1), CharClass::Space);
        if s.len() >= 2 {
            lemma_class_run_len_le(s.skip(2), CharClass::NotChar('\n'));
            lemma_close_len_le(s.skip(2));
        }
    }
}

/// A scanner over a source text. It owns the remaining characters; each
/// token is produced by consuming from the front, tracking line and column.
pub struct Lexer {
    src: Vec<char>,
    pos: usize,
    pub line: usize,
    pub column: usize,
}

impl Lexer {
    /// The characters not yet consumed.
    pub closed spec fn remaining(self) -> Seq<char> {
        self.src@.skip(self.pos as int)
    }

    /// The current position as a pair.
    pub closed spec fn cur(self) -> (nat, nat) {
        (self.line as nat, self.column as nat)
    }

    /// The cursor is inside the text and the position counters cannot
    /// overflow while consuming what remains.
    pub closed spec fn wf(self) -> bool {
        &&& self.pos <= self.src@.len()
        &&& self.src@.len() < usize::MAX
        &&& 1 <= self.line
        &&& self.line + (self.src@.len() - self.pos) <= usize::MAX
        &&& self.column + (self.src@.len() - self.pos) <= usize::MAX
    }

    pub fn new(code: &str) -> (l: Lexer)
        requires
            code@.len() < usize::MAX,
        ensures
            l.wf(),
            l.remaining() == code@,
            l.cur() == (1nat, 0nat),
    {
        let src = chars_of(code);
        proof {
            assert(src@.skip(0int) =~= src@);
        }
        Lexer { src, pos: 0, line: 1, column: 0 }
    }

    /// Whether no characters remain.
    pub fn eof(&self) -> (b: bool)
        requires
            self.wf(),
        ensures
            b == (self.remaining().len() == 0),
    {
        self.pos == self.src.len()
    }

    /// Produces the next token: skips whitespace and comments, then consumes
    /// and classifies one lexeme. What comes back, what is consumed and where
    /// the cursor lands are exactly what `spec_next_token` says of the
    /// remaining input and the current position.
    pub fn next_token(&mut self) -> (t: Token)
        requires
            old(self).wf(),
        ensures
            final(self).wf(),
            ({
                let r = spec_next_token(old(self).remaining(), old(self).cur().0, old(self).cur().1);
                &&& t@ == r.token
                &&& final(self).remaining() == r.rest
                &&& final(self).cur() == (r.line, r.column)
            }),
    {
        loop
            invariant
                self.wf(),
                spec_next_token(self.remaining(), self.cur().0, self.cur().1) == spec_next_token(
                    old(self).remaining(),
                    old(self).cur().0,
                    old(self).cur().1,
                ),
            decreases self.remaining().len(),
        {
            let ghost s0 = self.remaining();
            let ghost p0 = self.cur();
            if self.eof() {
                return self.make_token(TokenType::Eof, "");
            }
            let c = self.lookahead();
            proof {
                assert(c == s0[0]);
            }
            if whitespace(c) {
                let n: usize = self.scan_run(self.pos, CharClass::Space);
                proof {
                    assert(s0.drop_first() =~= s0.skip(1));
                    assert(n == 1 + class_run_len(s0.skip(1), CharClass::Space));
                }
                self.eat_n(n);
            } else {
                let la2 = if self.pos + 1 < self.src.len() {
                    self.src[self.pos + 1]
                } else {
                    '\0'
                };
                proof {
                    assert(s0.len() >= 2 ==> s0[1] == self.src@[self.pos as int + 1]);
                }
                if c == '/' && la2 == '/' {
                    proof {
                        assert(s0.len() >= 2 && s0[1] == '/');
                    }
                    let n: usize = self.scan_run(self.pos + 2, CharClass::NotChar('\n'));
                    proof {
                        assert(self.src@.skip(self.pos as int + 2) =~= s0.skip(2));
                    }
                    self.eat_n(2 + n);
                } else if c == '/' && la2 == '*' {
                    proof {
                        assert(s0.len() >= 2 && s0[1] == '*');
                    }
                    let n: usize = self.scan_close(self.pos + 2);
                    proof {
                        assert(self.src@.skip(self.pos as int + 2) =~= s0.skip(2));
                    }
                    self.eat_n(2 + n);
                } else {
                    proof {
                        assert(!is_space(s0[0]));
                        assert(!(s0[0] == '/' && s0.len() >= 2 && s0[1] == '/'));
                        assert(!(s0[0] == '/' && s0.len() >= 2 && s0[1] == '*'));
                        assert(spec_next_token(s0, p0.0, p0.1) == spec_token(s0, p0.0, p0.1));
                    }
                    return self.scan_token();
                }
            }
        }
    }

    /// Consumes and classifies one lexeme from a nonempty input that does
    /// not begin with whitespace or a comment.
    fn scan_token(&mut self) -> (t: Token)
        requires
            old(self).wf(),
            old(self).remaining().len() > 0,
        ensures
            final(self).wf(),
            ({
                let r = spec_token(old(self).remaining(), old(self).cur().0, old(self).cur().1);
                &&& t@ == r.token
                &&& final(self).remaining() == r.rest
                &&& final(self).cur() == (r.line, r.column)
            }),
    {
        let ghost s0 = self.remaining();
        let ghost p0 = self.cur();
        let c0 = self.lookahead();
        proof {
            assert(c0 == s0[0]);
        }
        if c0 == '\'' || c0 == '"' {
            return self.scan_literal();
        }
        if xid_start(c0) {
            let ghost start0 = self.pos as int;
            let c = self.bump();
            let ln: usize = self.line;
            let col: usize = self.column;
            let start: usize = self.pos - 1;
            proof {
                assert(s0.drop_first() =~= s0.skip(1));
                assert(s0 == self.src@.skip(start0));
            }
            let n: usize = self.scan_run(self.pos, CharClass::IdCont);
            self.eat_n(n);
            let ty = self.classify_range(start);
            let text = self.text_range(start, self.pos);
            proof {
                let n2: int = 1 + n;
                assert(n == class_run_len(s0.skip(1), CharClass::IdCont));
                assert(s0.skip(1).skip(n as int) =~= s0.skip(n2));
                assert(self.remaining() =~= s0.skip(n2));
                lemma_adv_head(p0, s0, n2);
                assert(self.cur() == adv(p0, s0.take(n2)));
                assert(text@ =~= s0.take(n2));
                assert(self.src@.subrange(start0, start0 + n2) =~= s0.take(n2));
            }
            return Token::new(ty, text.as_str(), ln, col);
        }
        if '0' as u32 <= c0 as u32 && c0 as u32 <= '9' as u32 {
            return self.scan_number();
        }
        if check_op_start(c0) {
            return self.scan_operator();
        }
        let c = self.bump();
        proof {
            assert(s0.drop_first() =~= s0.skip(1));
        }
        if c == '(' {
            self.make_token(TokenType::LParen, "(")
        } else if c == ')' {
            self.make_token(TokenType::RParen, ")")
        } else if c == '[' {
            self.make_token(TokenType::LBracket, "[")
        } else if c == ']' {
            self.make_token(TokenType::RBracket, "]")
        } else if c == '{' {
            self.make_token(TokenType::LBrace, "{")
        } else if c == '}' {
            self.make_token(TokenType::RBrace, "}")
        } else {
            self.make_token(TokenType::Error, "Invalid character")
        }
    }

    /// Consumes a quoted literal: the raw content up to the closing quote or
    /// the end of input is decoded, a failure becoming an Error token with
    /// the decoder's message, at the literal's start position.
    fn scan_literal(&mut self) -> (t: Token)
        requires
            old(self).wf(),
            old(self).remaining().len() > 0,
            old(self).remaining()[0] == '\'' || old(self).remaining()[0] == '"',
        ensures
            final(self).wf(),
            ({
                let r = literal_token(old(self).remaining(), old(self).cur().0, old(self).cur().1);
                &&& t@ == r.token
                &&& final(self).remaining() == r.rest
                &&& final(self).cur() == (r.line, r.column)
            }),
    {
        let ghost s0 = self.remaining();
        let ghost p0 = self.cur();
        let ghost st = literal_token(s0, p0.0, p0.1);
        let c = self.bump();
        let ln: usize = self.line;
        let col: usize = self.column;
        let ghost p1 = self.cur();
        proof {
            assert(s0.drop_first() =~= s0.skip(1));
        }
        let n: usize = self.scan_run(self.pos, CharClass::NotChar(c));
        let content = self.text_range(self.pos, self.pos + n);
        self.eat_n(n);
        let ghost mut n2: int = 1 + n;
        proof {
            assert(n == class_run_len(s0.skip(1), CharClass::NotChar(c)));
            assert(content@ =~= s0.subrange(1, 1 + n as int));
            assert(s0.skip(1).skip(n as int) =~= s0.skip(1 + n as int));
            assert(self.remaining() == s0.skip(1 + n as int));
        }
        if self.pos < self.src.len() {
            proof {
                assert(1 + n < s0.len());
            }
            self.eat_n(1);
            proof {
                n2 = 2 + n;
                assert(s0.skip(1 + n as int).take(1int).len() == 1);
                assert(s0.skip(1 + n as int).take(1int)[0] == s0[1 + n as int]);
                lemma_adv_one(adv(p1, s0.skip(1).take(n as int)), s0.skip(1 + n as int).take(1int));
                assert(s0.skip(1 + n as int).skip(1int) =~= s0.skip(n2));
                assert(self.remaining() =~= s0.skip(n2));
                lemma_adv_head(p0, s0, n2);
                lemma_adv_split(p1, s0.skip(1).take(n2 - 1), n as int);
                assert(s0.skip(1).take(n2 - 1).take(n as int) =~= s0.skip(1).take(n as int));
                assert(s0.skip(1).take(n2 - 1).skip(n as int) =~= s0.skip(1 + n as int).take(1int));
                assert(self.cur() == adv(p0, s0.take(n2)));
            }
        } else {
            proof {
                assert(!(1 + n < s0.len()));
                lemma_adv_head(p0, s0, n2);
                assert(self.cur() == adv(p0, s0.take(n2)));
            }
        }
        let tok = match unescape(content.as_str()) {
            Ok(txt) => {
                let ty = if c == '\'' {
                    TokenType::CharLiteral
                } else {
                    TokenType::StringLiteral
                };
                Token::new(ty, txt.as_str(), ln, col)
            },
            Err(e) => {
                let msg = e.message();
                Token::new(TokenType::Error, msg.as_str(), ln, col)
            },
        };
        proof {
            assert(st.rest == s0.skip(n2));
            assert((st.line, st.column) == adv(p0, s0.take(n2)));
        }
        tok
    }

    /// Consumes a numeric literal: a leading zero dispatches on its follower
    /// to a radix-prefixed integer, a float, a leading-zero decimal, or an
    /// error; any other digit starts a plain decimal integer or float.
    fn scan_number(&mut self) -> (t: Token)
        requires
            old(self).wf(),
            old(self).remaining().len() > 0,
            is_dec_digit(old(self).remaining()[0]),
        ensures
            final(self).wf(),
            ({
                let r = number_token(old(self).remaining(), old(self).cur().0, old(self).cur().1);
                &&& t@ == r.token
                &&& final(self).remaining() == r.rest
                &&& final(self).cur() == (r.line, r.column)
            }),
    {
        let ghost s0 = self.remaining();
        let ghost p0 = self.cur();
        let ghost st = number_token(s0, p0.0, p0.1);
        let ghost start0 = self.pos as int;
        let c = self.bump();
        let ln: usize = self.line;
        let col: usize = self.column;
        let ghost p1 = self.cur();
        let start: usize = self.pos - 1;
        proof {
            assert(s0.drop_first() =~= s0.skip(1));
            assert(s0 == self.src@.skip(start0));
        }
        let la = self.lookahead();
        proof {
            assert(s0.skip(1).len() == s0.len() - 1);
            assert(s0.len() >= 2 ==> s0.skip(1)[0] == s0[1]);
        }
        let ty: TokenType;
        let ghost mut n2: int = 0;
        if c == '0' {
            if la == 'b' || la == 'o' || la == 'x' || la == '.' || ('0' as u32 <= la as u32 && la
                as u32 <= '9' as u32) {
                proof {
                    assert(s0.len() >= 2 && s0[1] == la);
                }
                self.eat_n(1);
                proof {
                    assert(s0.skip(1).take(1int).len() == 1);
                    assert(s0.skip(1).take(1int)[0] == s0[1]);
                    lemma_adv_one(p1, s0.skip(1).take(1int));
                    assert(s0.skip(1).skip(1int) =~= s0.skip(2));
                    assert(self.remaining() =~= s0.skip(2));
                }
                let k: CharClass = if la == 'b' {
                    CharClass::BinDigit
                } else if la == 'o' {
                    CharClass::OctDigit
                } else if la == 'x' {
                    CharClass::HexDigit
                } else {
                    CharClass::DecDigit
                };
                ty = if la == '.' {
                    TokenType::FloatLiteral
                } else {
                    TokenType::IntLiteral
                };
                let n: usize = self.scan_run(self.pos, k);
                self.eat_n(n);
                proof {
                    n2 = 2 + n;
                    assert(n == class_run_len(s0.skip(2), k));
                    assert(s0.skip(2).skip(n as int) =~= s0.skip(n2));
                    assert(self.remaining() =~= s0.skip(n2));
                    lemma_adv_head2(p0, s0, n2);
                    assert(self.cur() == adv(p0, s0.take(n2)));
                    assert(st == run_token(s0, p0.0, p0.1, n2 as nat, ty));
                }
            } else {
                proof {
                    assert(s0.len() >= 2 ==> s0[1] == la);
                    assert(st == single_token(
                        s0,
                        p0.0,
                        p0.1,
                        TokenType::Error,
                        "Invalid number literal suffix"@,
                    ));
                }
                return self.make_token(TokenType::Error, "Invalid number literal suffix");
            }
        } else {
            if la == '.' {
                proof {
                    assert(s0.len() >= 2 && s0[1] == '.');
                }
                self.eat_n(1);
                proof {
                    assert(s0.skip(1).take(1int).len() == 1);
                    assert(s0.skip(1).take(1int)[0] == s0[1]);
                    lemma_adv_one(p1, s0.skip(1).take(1int));
                    assert(s0.skip(1).skip(1int) =~= s0.skip(2));
                    assert(self.remaining() =~= s0.skip(2));
                }
                let n: usize = self.scan_run(self.pos, CharClass::DecDigit);
                self.eat_n(n);
                ty = TokenType::FloatLiteral;
                proof {
                    n2 = 2 + n;
                    assert(s0.skip(2).skip(n as int) =~= s0.skip(n2));
                    assert(self.remaining() =~= s0.skip(n2));
                    lemma_adv_head2(p0, s0, n2);
                    assert(self.cur() == adv(p0, s0.take(n2)));
                    assert(st == run_token(s0, p0.0, p0.1, n2 as nat, ty));
                }
            } else {
                let n: usize = self.scan_run(self.pos, CharClass::DecDigit);
                self.eat_n(n);
                ty = TokenType::IntLiteral;
                proof {
                    n2 = 1 + n;
                    assert(s0.len() >= 2 ==> s0[1] == la);
                    assert(s0.skip(1).skip(n as int) =~= s0.skip(n2));
                    assert(self.remaining() =~= s0.skip(n2));
                    lemma_adv_head(p0, s0, n2);
                    assert(self.cur() == adv(p0, s0.take(n2)));
                    assert(st == run_token(s0, p0.0, p0.1, n2 as nat, ty));
                }
            }
        }
        let text = self.text_range(start, self.pos);
        proof {
            assert(text@ =~= s0.take(n2));
        }
        Token::new(ty, text.as_str(), ln, col)
    }

    /// Consumes an operator, growing it while the next character extends an
    /// entry of the fixed table, which yields the longest match.
    fn scan_operator(&mut self) -> (t: Token)
        requires
            old(self).wf(),
            old(self).remaining().len() > 0,
            is_op_start(old(self).remaining()[0]),
        ensures
            final(self).wf(),
            ({
                let r = run_token(
                    old(self).remaining(),
                    old(self).cur().0,
                    old(self).cur().1,
                    op_len(old(self).remaining()),
                    TokenType::Op,
                );
                &&& t@ == r.token
                &&& final(self).remaining() == r.rest
                &&& final(self).cur() == (r.line, r.column)
            }),
    {
        let ghost s0 = self.remaining();
        let ghost p0 = self.cur();
        let ghost start0 = self.pos as int;
        let c = self.bump();
        let ln: usize = self.line;
        let col: usize = self.column;
        let ghost p1 = self.cur();
        let start: usize = self.pos - 1;
        proof {
            assert(s0.drop_first() =~= s0.skip(1));
            assert(s0 == self.src@.skip(start0));
            assert(s0.skip(1).len() == s0.len() - 1);
            assert(s0.len() >= 2 ==> s0.skip(1)[0] == s0[1]);
        }
        let la = self.lookahead();
        let ghost mut n2: int = 1;
        if check_op_pair(c, la) {
            proof {
                assert(!is_op_pair(c, '\0'));
                assert(s0.len() >= 2 && s0[1] == la);
            }
            self.eat_n(1);
            proof {
                assert(s0.skip(1).take(1int).len() == 1);
                assert(s0.skip(1).take(1int)[0] == s0[1]);
                lemma_adv_one(p1, s0.skip(1).take(1int));
                assert(s0.skip(1).skip(1int) =~= s0.skip(2));
                assert(self.remaining() =~= s0.skip(2));
                assert(s0.skip(2).len() == s0.len() - 2);
                assert(s0.len() >= 3 ==> s0.skip(2)[0] == s0[2]);
            }
            let la2 = self.lookahead();
            if check_op_triple(c, la, la2) {
                proof {
                    assert(!is_op_triple(c, la, '\0'));
                    assert(s0.len() >= 3 && s0[2] == la2);
                }
                self.eat_n(1);
                proof {
                    n2 = 3;
                    assert(s0.skip(2).take(1int).len() == 1);
                    assert(s0.skip(2).take(1int)[0] == s0[2]);
                    lemma_adv_one(adv1(p1, s0[1]), s0.skip(2).take(1int));
                    assert(s0.skip(2).skip(1int) =~= s0.skip(3));
                    assert(self.remaining() =~= s0.skip(n2));
                    lemma_adv_head2(p0, s0, n2);
                    assert(self.cur() == adv(p0, s0.take(n2)));
                    assert(op_len(s0) == 3);
                }
            } else {
                proof {
                    n2 = 2;
                    lemma_adv_head(p0, s0, n2);
                    assert(s0.take(2int).skip(1int) =~= s0.skip(1).take(1int));
                    assert(self.cur() == adv(p0, s0.take(n2)));
                    assert(s0.len() >= 3 ==> s0[2] == la2);
                    assert(op_len(s0) == 2);
                }
            }
        } else {
            proof {
                n2 = 1;
                assert(s0.len() >= 2 ==> s0[1] == la);
                assert(op_len(s0) == 1);
                assert(s0.take(1int).len() == 1);
                assert(s0.take(1int)[0] == s0[0]);
                lemma_adv_one(p0, s0.take(1int));
                assert(self.cur() == adv(p0, s0.take(n2)));
            }
        }
        proof {
            assert(self.remaining() =~= s0.skip(n2));
        }
        let text = self.text_range(start, self.pos);
        proof {
            assert(text@ =~= s0.take(n2));
        }
        Token::new(TokenType::Op, text.as_str(), ln, col)
    }

    /// The next character, or a NUL sentinel at the end of input, without
    /// consuming anything.
    fn lookahead(&self) -> (c: char)
        requires
            self.wf(),
        ensures
            c == (if self.remaining().len() > 0 {
                self.remaining()[0]
            } else {
                '\0'
            }),
    {
        if self.pos < self.src.len() {
            self.src[self.pos]
        } else {
            '\0'
        }
    }

    /// Consumes one character, advancing the position counters.
    fn bump(&mut self) -> (c: char)
        requires
            old(self).wf(),
            old(self).remaining().len() > 0,
        ensures
            final(self).wf(),
            c == old(self).remaining()[0],
            final(self).remaining() == old(self).remaining().drop_first(),
            final(self).src == old(self).src,
            final(self).pos == old(self).pos + 1,
            final(self).cur() == adv1(old(self).cur(), c),
    {
        let c = self.src[self.pos];
        self.pos = self.pos + 1;
        if c == '\n' {
            self.line = self.line + 1;
            self.column = 0;
        } else {
            self.column = self.column + 1;
        }
        proof {
            assert(self.remaining() =~= old(self).remaining().drop_first());
        }
        c
    }

    /// Consumes `n` characters.
    fn eat_n(&mut self, n: usize)
        requires
            old(self).wf(),
            old(self).pos + n <= old(self).src@.len(),
        ensures
            final(self).wf(),
            final(self).src == old(self).src,
            final(self).pos == old(self).pos + n,
            final(self).remaining() == old(self).remaining().skip(n as int),
            final(self).cur() == adv(old(self).cur(), old(self).remaining().take(n as int)),
    {
        let ghost s0 = old(self).remaining();
        let mut i: usize = 0;
        proof {
            assert(s0.take(0int) =~= Seq::<char>::empty());
            assert(s0.skip(0int) =~= s0);
        }
        while i < n
            invariant
                i <= n,
                old(self).wf(),
                old(self).pos + n <= old(self).src@.len(),
                s0 == old(self).remaining(),
                self.wf(),
                self.src == old(self).src,
                self.pos == old(self).pos + i,
                self.remaining() == s0.skip(i as int),
                self.cur() == adv(old(self).cur(), s0.take(i as int)),
            decreases n - i,
        {
            let ghost i0 = i as int;
            let c = self.bump();
            i = i + 1;
            proof {
                assert(s0.skip(i0)[0] == s0[i0]);
                assert(c == s0[i0]);
                assert(s0.skip(i0).drop_first() =~= s0.skip(i0 + 1));
                assert(s0.take(i0 + 1) =~= s0.take(i0).push(s0[i0]));
                lemma_adv_snoc(old(self).cur(), s0.take(i0), s0[i0]);
            }
        }
    }

    /// The length of the run of class `k` characters beginning at `from`.
    fn scan_run(&self, from: usize, k: CharClass) -> (n: usize)
        requires
            self.wf(),
            from <= self.src@.len(),
        ensures
            n == class_run_len(self.src@.skip(from as int), k),
            from + n <= self.src@.len(),
    {
        let mut j: usize = from;
        while j < self.src.len() && check_class(k, self.src[j])
            invariant
                self.wf(),
                from <= j <= self.src@.len(),
                forall|x: int| from <= x < j ==> in_class(k, #[trigger] self.src@[x]),
            decreases self.src@.len() - j,
        {
            j = j + 1;
        }
        proof {
            let s = self.src@.skip(from as int);
            assert(forall|x: int| 0 <= x < j - from ==> in_class(k, #[trigger] s[x]));
            lemma_class_run_len_is(s, k, j - from);
        }
        j - from
    }

    /// How many characters from `from` on a block comment body takes:
    /// through the first `*/`, or everything when no close appears.
    fn scan_close(&self, from: usize) -> (n: usize)
        requires
            self.wf(),
            from <= self.src@.len(),
        ensures
            n == close_len(self.src@.skip(from as int)),
            from + n <= self.src@.len(),
    {
        let ghost s = self.src@.skip(from as int);
        let mut j: usize = from;
        while j + 1 < self.src.len() && !(self.src[j] == '*' && self.src[j + 1] == '/')
            invariant
                self.wf(),
                from <= j <= self.src@.len(),
                forall|x: int| from <= x < j ==> !(#[trigger] self.src@[x] == '*' && self.src@[x + 1] == '/'),
            decreases self.src@.len() - j,
        {
            j = j + 1;
        }
        proof {
            assert(forall|x: int| 0 <= x < s.len() ==> #[trigger] s[x] == self.src@[from + x]);
        }
        if j + 1 < self.src.len() {
            proof {
                assert(forall|x: int| 0 <= x < j - from ==> !(#[trigger] s[x] == '*' && s[x + 1] == '/'));
                assert(s[j - from] == '*' && s[j - from + 1] == '/');
                lemma_close_len_at(s, j - from);
            }
            j - from + 2
        } else {
            proof {
                assert(forall|x: int| 0 <= x < s.len() - 1 ==> !(#[trigger] s[x] == '*' && s[x + 1] == '/'));
                lemma_close_len_none(s);
            }
            self.src.len() - from
        }
    }

    /// The consumed characters from `start` to `end` as a string.
    fn text_range(&self, start: usize, end: usize) -> (t: String)
        requires
            self.wf(),
            start <= end <= self.src@.len(),
        ensures
            t@ == self.src@.subrange(start as int, end as int),
    {
        let mut t = String::new();
        let mut i: usize = start;
        proof {
            assert(self.src@.subrange(start as int, start as int) =~= Seq::<char>::empty());
        }
        while i < end
            invariant
                self.wf(),
                start <= i <= end <= self.src@.len(),
                t@ == self.src@.subrange(start as int, i as int),
            decreases end - i,
        {
            let c = self.src[i];
            t.push(c);
            i = i + 1;
            proof {
                assert(self.src@.subrange(start as int, i as int)
                    =~= self.src@.subrange(start as int, i - 1).push(self.src@[i - 1]));
            }
        }
        t
    }

    /// Classifies the word consumed since `start` as a keyword, a boolean
    /// literal, or an identifier.
    fn classify_range(&self, start: usize) -> (t: TokenType)
        requires
            self.wf(),
            start <= self.pos as int <= self.src@.len(),
        ensures
            t == classify_word(self.src@.subrange(start as int, self.pos as int)),
    {
        let ghost w = self.src@.subrange(start as int, self.pos as int);
        let n: usize = self.pos - start;
        proof {
            assert(w.len() == n);
        }
        let s = &self.src;
        if n == 3 && s[start] == 'l' && s[start + 1] == 'e' && s[start + 2] == 't' {
            proof {
                assert(w =~= seq!['l', 'e', 't']);
            }
            TokenType::Keyword
        } else if n == 4 && s[start] == 'f' && s[start + 1] == 'u' && s[start + 2] == 'n' && s[start + 3] == 'c' {
            proof {
                assert(w =~= seq!['f', 'u', 'n', 'c']);
            }
            TokenType::Keyword
        } else if n == 2 && s[start] == 'i' && s[start + 1] == 'f' {
            proof {
                assert(w =~= seq!['i', 'f']);
            }
            TokenType::Keyword
        } else if n == 4 && s[start] == 'e' && s[start + 1] == 'l' && s[start + 2] == 's' && s[start + 3] == 'e' {
            proof {
                assert(w =~= seq!['e', 'l', 's', 'e']);
            }
            TokenType::Keyword
        } else if n == 5 && s[start] == 'w' && s[start + 1] == 'h' && s[start + 2] == 'i' && s[start + 3] == 'l' && s[start + 4] == 'e' {
            proof {
                assert(w =~= seq!['w', 'h', 'i', 'l', 'e']);
            }
            TokenType::Keyword
        } else if n == 3 && s[start] == 'f' && s[start + 1] == 'o' && s[start + 2] == 'r' {
            proof {
                assert(w =~= seq!['f', 'o', 'r']);
            }
            TokenType::Keyword
        } else if n == 6 && s[start] == 'r' && s[start + 1] == 'e' && s[start + 2] == 't' && s[start + 3] == 'u' && s[start + 4] == 'r' && s[start + 5] == 'n' {
            proof {
                assert(w =~= seq!['r', 'e', 't', 'u', 'r', 'n']);
            }
            TokenType::Keyword
        } else if n == 4 && s[start] == 't' && s[start + 1] == 'r' && s[start + 2] == 'u' && s[start + 3] == 'e' {
            proof {
                assert(w =~= seq!['t', 'r', 'u', 'e']);
            }
            TokenType::BoolLiteral
        } else if n == 5 && s[start] == 'f' && s[start + 1] == 'a' && s[start + 2] == 'l' && s[start + 3] == 's' && s[start + 4] == 'e' {
            proof {
                assert(w =~= seq!['f', 'a', 'l', 's', 'e']);
            }
            TokenType::BoolLiteral
        } else {
            proof {
                assert(forall|x: int| 0 <= x < w.len() ==> #[trigger] w[x] == self.src@[start + x]);
                assert(!is_keyword(w));
                assert(!is_bool_word(w));
            }
            TokenType::Id
        }
    }

    /// A token whose position is the current one.
    fn make_token(&self, ty: TokenType, text: &str) -> (t: Token)
        ensures
            t@ == (SpecToken { ty, text: text@, line: self.line as nat, column: self.column as nat }),
    {
        Token::new(ty, text, self.line, self.column)
    }
}

/// An input that is one identifier-shaped word, an identifier-start
/// character followed by identifier-continue characters, scans to a single
/// token whose text is exactly that word, classified by the keyword and
/// boolean tables, positioned at the word's first character, with the whole
/// input consumed. The word is also assumed not to begin with a whitespace
/// character, a quote, or a comment opener, which no real identifier-start
/// character is; the dispatch tests those classes first.
pub proof fn lemma_word_scan(s: Seq<char>, line: nat, column: nat)
    requires
        s.len() > 0,
        is_id_start(s[0]),
        forall|j: int| 1 <= j < s.len() ==> is_id_continue(#[trigger] s[j]),
        !is_space(s[0]),
        s[0] != '\'' && s[0] != '"',
        !(s[0] == '/' && s.len() >= 2 && (s[1] == '/' || s[1] == '*')),
    ensures
        ({
            let r = spec_next_token(s, line, column);
            &&& r.token.ty == classify_word(s)
            &&& r.token.text == s
            &&& r.token.line == adv1((line, column), s[0]).0
            &&& r.token.column == adv1((line, column), s[0]).1
            &&& r.rest.len() == 0
        }),
{
    let d = s.skip(1);
    assert forall|j: int| 0 <= j < d.len() implies in_class(CharClass::IdCont, #[trigger] d[j]) by {
        assert(d[j] == s[j + 1]);
    }
    lemma_class_run_len_is(d, CharClass::IdCont, d.len() as int);
    assert(s.take(s.len() as int) =~= s);
    assert(s.skip(s.len() as int).len() == 0);
}

/// A word as in `lemma_word_scan` that spells neither a keyword nor a
/// boolean literal scans to a single Id token whose text equals the word.
pub proof fn lemma_identifier_scan(s: Seq<char>, line: nat, column: nat)
    requires
        s.len() > 0,
        is_id_start(s[0]),
        forall|j: int| 1 <= j < s.len() ==> is_id_continue(#[trigger] s[j]),
        !is_keyword(s),
        !is_bool_word(s),
        !is_space(s[0]),
        s[0] != '\'' && s[0] != '"',
        !(s[0] == '/' && s.len() >= 2 && (s[1] == '/' || s[1] == '*')),
    ensures
        ({
            let r = spec_next_token(s, line, column);
            &&& r.token.ty == TokenType::Id
            &&& r.token.text == s
            &&& r.token.line == adv1((line, column), s[0]).0
            &&& r.token.column == adv1((line, column), s[0]).1
            &&& r.rest.len() == 0
        }),
{
    lemma_word_scan(s, line, column);
}

/// Whether a character belongs to a class, executable form.
fn check_class(k: CharClass, c: char) -> (b: bool)
    ensures
        b == in_class(k, c),
{
    match k {
        CharClass::Space => whitespace(c),
        CharClass::NotChar(q) => c != q,
        CharClass::IdCont => xid_continue(c),
        CharClass::BinDigit => '0' as u32 <= c as u32 && c as u32 <= '1' as u32,
        CharClass::OctDigit => '0' as u32 <= c as u32 && c as u32 <= '7' as u32,
        CharClass::DecDigit => '0' as u32 <= c as u32 && c as u32 <= '9' as u32,
        CharClass::HexDigit => ('0' as u32 <= c as u32 && c as u32 <= '9' as u32) || (
        'a' as u32 <= c as u32 && c as u32 <= 'f' as u32) || ('A' as u32 <= c as u32 && c as u32
            <= 'F' as u32),
    }
}

/// Whether a character can begin an operator, executable form.
fn check_op_start(c: char) -> (b: bool)
    ensures
        b == is_op_start(c),
{
    c == '+' || c == '-' || c == '*' || c == '/' || c == '%' || c == '^' || c == '|' || c == '>'
        || c == '<' || c == '&' || c == '!' || c == '=' || c == ',' || c == ';' || c == '.'
        || c == ':'
}

/// Whether two characters form an operator-table entry, executable form.
fn check_op_pair(a: char, b: char) -> (r: bool)
    ensures
        r == is_op_pair(a, b),
{
    (a == '>' && b == '>') || (a == '<' && b == '<') || ((a == '+' || a == '-' || a == '*' || a
        == '/' || a == '%' || a == '^' || a == '|' || a == '&' || a == '=' || a == '!' || a == '>'
        || a == '<') && b == '=') || (a == '|' && b == '|') || (a == '&' && b == '&') || (a == '-'
        && b == '>') || (a == ':' && b == ':')
}

/// Whether three characters form an operator-table entry, executable form.
fn check_op_triple(a: char, b: char, c: char) -> (r: bool)
    ensures
        r == is_op_triple(a, b, c),
{
    (a == '>' && b == '>' && c == '=') || (a == '<' && b == '<' && c == '=')
}

} // verus!
