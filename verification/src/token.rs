//! Token data model: the closed set of lexical categories, and tokens as
//! immutable values carrying a category plus a 1-based source position.

use vstd::prelude::*;
use vstd::string::StringExecFns;

verus! {

/// Mathematical model of a lexical category. `Identifier` and
/// `NumericOverflow` carry the lexeme as a sequence of characters, `Int`
/// carries the parsed value, `Illegal` carries the offending character.
pub enum TokenKind {
    Illegal(char),
    Identifier(Seq<char>),
    Int(nat),
    NumericOverflow(Seq<char>),
    Assign,
    Plus,
    Minus,
    Asterisk,
    FSlash,
    Comma,
    Semicolon,
    Lparen,
    Rparen,
    Lbrace,
    Rbrace,
    LChevron,
    RChevron,
    Exclamation,
    Function,
    Let,
    True,
    False,
    If,
    Else,
    Return,
    NewLine,
    Eq,
    NotEq,
}

/// Mathematical model of a produced token: a category plus the 1-based
/// line and column of the lexeme's first character.
pub struct SpecToken {
    pub kind: TokenKind,
    pub line: nat,
    pub column: nat,
}

/// The closed set of lexical categories a token can belong to.
///
/// `Illegal` carries a character that matches no recognized lexical class;
/// `NumericOverflow` carries a digit run whose value exceeds `usize`. Both
/// are recoverable conditions: the scan continues past them.
#[derive(Debug, PartialEq)]
pub enum TokenType {
    Illegal(char),
    Identifier(String),
    Int(usize),
    NumericOverflow(String),
    Assign,
    Plus,
    Minus,
    Asterisk,
    FSlash,
    Comma,
    Semicolon,
    Lparen,
    Rparen,
    Lbrace,
    Rbrace,
    LChevron,
    RChevron,
    Exclamation,
    Function,
    Let,
    True,
    False,
    If,
    Else,
    Return,
    NewLine,
    Eq,
    NotEq,
}

impl View for TokenType {
    type V = TokenKind;

    open spec fn view(&self) -> TokenKind {
        match self {
            TokenType::Illegal(c) => TokenKind::Illegal(*c),
            TokenType::Identifier(s) => TokenKind::Identifier(s@),
            TokenType::Int(n) => TokenKind::Int(*n as nat),
            TokenType::NumericOverflow(s) => TokenKind::NumericOverflow(s@),
            TokenType::Assign => TokenKind::Assign,
            TokenType::Plus => TokenKind::Plus,
            TokenType::Minus => TokenKind::Minus,
            TokenType::Asterisk => TokenKind::Asterisk,
            TokenType::FSlash => TokenKind::FSlash,
            TokenType::Comma => TokenKind::Comma,
            TokenType::Semicolon => TokenKind::Semicolon,
            TokenType::Lparen => TokenKind::Lparen,
            TokenType::Rparen => TokenKind::Rparen,
            TokenType::Lbrace => TokenKind::Lbrace,
            TokenType::Rbrace => TokenKind::Rbrace,
            TokenType::LChevron => TokenKind::LChevron,
            TokenType::RChevron => TokenKind::RChevron,
            TokenType::Exclamation => TokenKind::Exclamation,
            TokenType::Function => TokenKind::Function,
            TokenType::Let => TokenKind::Let,
            TokenType::True => TokenKind::True,
            TokenType::False => TokenKind::False,
            TokenType::If => TokenKind::If,
            TokenType::Else => TokenKind::Else,
            TokenType::Return => TokenKind::Return,
            TokenType::NewLine => TokenKind::NewLine,
            TokenType::Eq => TokenKind::Eq,
            TokenType::NotEq => TokenKind::NotEq,
        }
    }
}

/// Relies on `String`'s `FromIterator<char>` impl: collecting an iterator
/// of characters yields a string of exactly those characters, in order.
#[verifier::external_body]
pub(crate) fn chars_to_string(chars: &Vec<char>) -> (s: String)
    ensures
        s@ == chars@,
{
    chars.iter().collect()
}

impl Clone for TokenType {
    fn clone(&self) -> (r: Self)
        ensures
            r == *self,
    {
        match self {
            TokenType::Illegal(c) => TokenType::Illegal(*c),
            TokenType::Identifier(s) => TokenType::Identifier(s.clone()),
            TokenType::Int(n) => TokenType::Int(*n),
            TokenType::NumericOverflow(s) => TokenType::NumericOverflow(s.clone()),
            TokenType::Assign => TokenType::Assign,
            TokenType::Plus => TokenType::Plus,
            TokenType::Minus => TokenType::Minus,
            TokenType::Asterisk => TokenType::Asterisk,
            TokenType::FSlash => TokenType::FSlash,
            TokenType::Comma => TokenType::Comma,
            TokenType::Semicolon => TokenType::Semicolon,
            TokenType::Lparen => TokenType::Lparen,
            TokenType::Rparen => TokenType::Rparen,
            TokenType::Lbrace => TokenType::Lbrace,
            TokenType::Rbrace => TokenType::Rbrace,
            TokenType::LChevron => TokenType::LChevron,
            TokenType::RChevron => TokenType::RChevron,
            TokenType::Exclamation => TokenType::Exclamation,
            TokenType::Function => TokenType::Function,
            TokenType::Let => TokenType::Let,
            TokenType::True => TokenType::True,
            TokenType::False => TokenType::False,
            TokenType::If => TokenType::If,
            TokenType::Else => TokenType::Else,
            TokenType::Return => TokenType::Return,
            TokenType::NewLine => TokenType::NewLine,
            TokenType::Eq => TokenType::Eq,
            TokenType::NotEq => TokenType::NotEq,
        }
    }
}

/// The character for one decimal digit.
pub open spec fn digit_char(d: nat) -> char {
    if d == 0 {
        '0'
    } else if d == 1 {
        '1'
    } else if d == 2 {
        '2'
    } else if d == 3 {
        '3'
    } else if d == 4 {
        '4'
    } else if d == 5 {
        '5'
    } else if d == 6 {
        '6'
    } else if d == 7 {
        '7'
    } else if d == 8 {
        '8'
    } else {
        '9'
    }
}

/// The base-10 numeral of `n`, most significant digit first, without
/// leading zeros (`0` itself renders as "0").
pub open spec fn decimal_digits(n: nat) -> Seq<char>
    decreases n,
{
    if n < 10 {
        seq![digit_char(n)]
    } else {
        decimal_digits(n / 10) + seq![digit_char(n % 10)]
    }
}

/// The canonical printable surface form of each category: the source
/// spelling for operators, punctuation and keywords, the lexeme for
/// identifiers and oversized numerals, the rendered value for integers.
pub open spec fn spec_literal(k: TokenKind) -> Seq<char> {
    match k {
        TokenKind::Illegal(c) => seq![c],
        TokenKind::Identifier(w) => w,
        TokenKind::Int(n) => decimal_digits(n),
        TokenKind::NumericOverflow(w) => w,
        TokenKind::Assign => "="@,
        TokenKind::Plus => "+"@,
        TokenKind::Minus => "-"@,
        TokenKind::Asterisk => "*"@,
        TokenKind::FSlash => "/"@,
        TokenKind::Comma => ","@,
        TokenKind::Semicolon => ";"@,
        TokenKind::Lparen => "("@,
        TokenKind::Rparen => ")"@,
        TokenKind::Lbrace => "{"@,
        TokenKind::Rbrace => "}"@,
        TokenKind::LChevron => "<"@,
        TokenKind::RChevron => ">"@,
        TokenKind::Exclamation => "!"@,
        TokenKind::Function => "fn"@,
        TokenKind::Let => "let"@,
        TokenKind::True => "true"@,
        TokenKind::False => "false"@,
        TokenKind::If => "if"@,
        TokenKind::Else => "else"@,
        TokenKind::Return => "return"@,
        TokenKind::NewLine => "\n"@,
        TokenKind::Eq => "=="@,
        TokenKind::NotEq => "!="@,
    }
}

fn digit_char_exec(d: usize) -> (c: char)
    requires
        d < 10,
    ensures
        c == digit_char(d as nat),
{
    if d == 0 {
        '0'
    } else if d == 1 {
        '1'
    } else if d == 2 {
        '2'
    } else if d == 3 {
        '3'
    } else if d == 4 {
        '4'
    } else if d == 5 {
        '5'
    } else if d == 6 {
        '6'
    } else if d == 7 {
        '7'
    } else if d == 8 {
        '8'
    } else {
        '9'
    }
}

/// Renders `n` as its base-10 numeral.
fn decimal_chars(n: usize) -> (v: Vec<char>)
    ensures
        v@ == decimal_digits(n as nat),
{
    let mut m = n;
    let mut rev: Vec<char> = Vec::new();
    proof {
        assert(decimal_digits(n as nat) =~= decimal_digits(n as nat) + rev@.reverse());
    }
    loop
        invariant_except_break
            decimal_digits(n as nat) == decimal_digits(m as nat) + rev@.reverse(),
        ensures
            decimal_digits(n as nat) == rev@.reverse(),
        decreases m,
    {
        let ghost rev0 = rev@;
        let ghost m0 = m as nat;
        let d = m % 10;
        rev.push(digit_char_exec(d));
        m = m / 10;
        proof {
            assert(rev@.reverse() =~= seq![digit_char(m0 % 10)] + rev0.reverse());
            if m0 < 10 {
                assert(decimal_digits(m0) == seq![digit_char(m0)]);
                assert(decimal_digits(n as nat) =~= rev@.reverse());
            } else {
                assert(decimal_digits(m0) == decimal_digits(m0 / 10) + seq![digit_char(m0 % 10)]);
                assert(decimal_digits(n as nat) =~= decimal_digits(m as nat) + rev@.reverse());
            }
        }
        if m == 0 {
            break ;
        }
    }
    let mut v: Vec<char> = Vec::new();
    let mut k = rev.len();
    while k > 0
        invariant
            k <= rev@.len(),
            v@ == rev@.subrange(k as int, rev@.len() as int).reverse(),
        decreases k,
    {
        k = k - 1;
        v.push(rev[k]);
        proof {
            assert(v@ =~= rev@.subrange(k as int, rev@.len() as int).reverse());
        }
    }
    proof {
        assert(rev@.subrange(0, rev@.len() as int) =~= rev@);
    }
    v
}

impl TokenType {
    /// The canonical-text projection of the category: its printable surface
    /// form, for diagnostics and for the driver's echo.
    pub fn literal(&self) -> (s: String)
        ensures
            s@ == spec_literal(self@),
    {
        match self {
            TokenType::Illegal(c) => {
                let mut v: Vec<char> = Vec::new();
                v.push(*c);
                proof {
                    assert(v@ =~= seq![*c]);
                }
                chars_to_string(&v)
            },
            TokenType::Identifier(r) => r.clone(),
            TokenType::Int(n) => {
                let v = decimal_chars(*n);
                chars_to_string(&v)
            },
            TokenType::NumericOverflow(r) => r.clone(),
            TokenType::Assign => String::from_str("="),
            TokenType::Plus => String::from_str("+"),
            TokenType::Minus => String::from_str("-"),
            TokenType::Asterisk => String::from_str("*"),
            TokenType::FSlash => String::from_str("/"),
            TokenType::Comma => String::from_str(","),
            TokenType::Semicolon => String::from_str(";"),
            TokenType::Lparen => String::from_str("("),
            TokenType::Rparen => String::from_str(")"),
            TokenType::Lbrace => String::from_str("{"),
            TokenType::Rbrace => String::from_str("}"),
            TokenType::LChevron => String::from_str("<"),
            TokenType::RChevron => String::from_str(">"),
            TokenType::Exclamation => String::from_str("!"),
            TokenType::Function => String::from_str("fn"),
            TokenType::Let => String::from_str("let"),
            TokenType::True => String::from_str("true"),
            TokenType::False => String::from_str("false"),
            TokenType::If => String::from_str("if"),
            TokenType::Else => String::from_str("else"),
            TokenType::Return => String::from_str("return"),
            TokenType::NewLine => String::from_str("\n"),
            TokenType::Eq => String::from_str("=="),
            TokenType::NotEq => String::from_str("!="),
        }
    }
}

/// A classified, positioned unit of lexical output, immutable once
/// constructed. `line` and `column` are 1-based.
#[derive(Debug, PartialEq)]
pub struct Token {
    pub tokentype: TokenType,
    line: usize,
    column: usize,
}

impl View for Token {
    type V = SpecToken;

    closed spec fn view(&self) -> SpecToken {
        SpecToken { kind: self.tokentype@, line: self.line as nat, column: self.column as nat }
    }
}

impl Token {
    pub fn new(tokentype: TokenType, line: usize, column: usize) -> (t: Self)
        requires
            1 <= line,
            1 <= column,
        ensures
            t@ == (SpecToken { kind: tokentype@, line: line as nat, column: column as nat }),
    {
        Token { tokentype, line, column }
    }

    /// The 1-based line on which the token's lexeme starts.
    pub fn line(&self) -> (n: usize)
        ensures
            n as nat == self@.line,
    {
        self.line
    }

    /// The 1-based column at which the token's lexeme starts within its line.
    pub fn column(&self) -> (n: usize)
        ensures
            n as nat == self@.column,
    {
        self.column
    }
}

impl Clone for Token {
    fn clone(&self) -> (r: Self)
        ensures
            r == *self,
    {
        Token { tokentype: self.tokentype.clone(), line: self.line, column: self.column }
    }
}

/// Projects a token sequence onto its categories, dropping the positions.
pub fn tokens_to_tokentypes(tokens: &Vec<Token>) -> (out: Vec<TokenType>)
    ensures
        out@.map_values(|t: TokenType| t@) == tokens@.map_values(|t: Token| t@.kind),
{
    let mut out: Vec<TokenType> = Vec::new();
    let mut k: usize = 0;
    while k < tokens.len()
        invariant
            k <= tokens.len(),
            out@.map_values(|t: TokenType| t@) == tokens@.take(k as int).map_values(
                |t: Token| t@.kind,
            ),
        decreases tokens.len() - k,
    {
        let ghost prev = out@;
        let tt = tokens[k].tokentype.clone();
        out.push(tt);
        proof {
            prev.lemma_push_map_commute(|t: TokenType| t@, tt);
            tokens@.lemma_map_take_succ(|t: Token| t@.kind, k as int);
            assert(out@.map_values(|t: TokenType| t@) =~= tokens@.take(k as int + 1).map_values(
                |t: Token| t@.kind,
            ));
        }
        k = k + 1;
    }
    proof {
        assert(tokens@.take(tokens@.len() as int) =~= tokens@);
    }
    out
}

} // verus!
