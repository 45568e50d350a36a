//! The scanning engine: a stateful cursor over one input buffer that
//! produces a forward-only sequence of tokens, together with the
//! mathematical description of the scan that its contracts refer to.

use vstd::prelude::*;
use vstd::std_specs::iter::IteratorSpec;

use crate::token::{SpecToken, Token, TokenKind, TokenType};

verus! {

/// An identifier character: an ASCII letter or an underscore. Digits are
/// excluded from identifier continuation in this grammar.
pub open spec fn is_ident_char(c: char) -> bool {
    ('a' <= c && c <= 'z') || ('A' <= c && c <= 'Z') || c == '_'
}

/// A decimal digit.
pub open spec fn is_digit_char(c: char) -> bool {
    '0' <= c && c <= '9'
}

/// End of the maximal run of identifier characters starting at `i`.
pub open spec fn ident_run_end(s: Seq<char>, i: int) -> int
    decreases s.len() - i when 0 <= i <= s.len()
{
    if i < s.len() && is_ident_char(s[i]) {
        ident_run_end(s, i + 1)
    } else {
        i
    }
}

/// End of the maximal run of decimal digits starting at `i`.
pub open spec fn digit_run_end(s: Seq<char>, i: int) -> int
    decreases s.len() - i when 0 <= i <= s.len()
{
    if i < s.len() && is_digit_char(s[i]) {
        digit_run_end(s, i + 1)
    } else {
        i
    }
}

/// The run end is in bounds, everything before it is an identifier
/// character, and the run is maximal.
pub proof fn lemma_ident_run_end(s: Seq<char>, i: int)
    requires
        0 <= i <= s.len(),
    ensures
        i <= ident_run_end(s, i) <= s.len(),
        forall|k: int| i <= k < ident_run_end(s, i) ==> is_ident_char(s[k]),
        ident_run_end(s, i) < s.len() ==> !is_ident_char(s[ident_run_end(s, i)]),
    decreases s.len() - i,
{
    if i < s.len() && is_ident_char(s[i]) {
        lemma_ident_run_end(s, i + 1);
    }
}

/// The run end is in bounds, everything before it is a digit, and the run
/// is maximal.
pub proof fn lemma_digit_run_end(s: Seq<char>, i: int)
    requires
        0 <= i <= s.len(),
    ensures
        i <= digit_run_end(s, i) <= s.len(),
        forall|k: int| i <= k < digit_run_end(s, i) ==> is_digit_char(s[k]),
        digit_run_end(s, i) < s.len() ==> !is_digit_char(s[digit_run_end(s, i)]),
    decreases s.len() - i,
{
    if i < s.len() && is_digit_char(s[i]) {
        lemma_digit_run_end(s, i + 1);
    }
}

/// Keyword resolution: a pure, case-sensitive, total function from a lexeme
/// to its category. Unreserved lexemes map to `Identifier`.
pub open spec fn keyword_kind(w: Seq<char>) -> TokenKind {
    if w == "fn"@ {
        TokenKind::Function
    } else if w == "let"@ {
        TokenKind::Let
    } else if w == "true"@ {
        TokenKind::True
    } else if w == "false"@ {
        TokenKind::False
    } else if w == "if"@ {
        TokenKind::If
    } else if w == "else"@ {
        TokenKind::Else
    } else if w == "return"@ {
        TokenKind::Return
    } else {
        TokenKind::Identifier(w)
    }
}

/// Numeric value of one decimal digit character.
pub open spec fn digit_value(c: char) -> nat {
    (c as u32 - '0' as u32) as nat
}

/// Value of a run of decimal digits read as a base-10 numeral.
pub open spec fn digits_value(w: Seq<char>) -> nat
    decreases w.len(),
{
    if w.len() == 0 {
        0
    } else {
        digits_value(w.drop_last()) * 10 + digit_value(w.last())
    }
}

/// Category of an integer lexeme: the parsed value when it is representable,
/// otherwise the recoverable overflow category carrying the lexeme.
pub open spec fn int_kind(w: Seq<char>) -> TokenKind {
    if digits_value(w) <= usize::MAX as nat {
        TokenKind::Int(digits_value(w))
    } else {
        TokenKind::NumericOverflow(w)
    }
}

/// Category of a single symbol character; characters matching no recognized
/// class resolve to `Illegal`.
pub open spec fn symbol_kind(c: char) -> TokenKind {
    if c == '=' {
        TokenKind::Assign
    } else if c == '!' {
        TokenKind::Exclamation
    } else if c == '+' {
        TokenKind::Plus
    } else if c == '-' {
        TokenKind::Minus
    } else if c == '*' {
        TokenKind::Asterisk
    } else if c == '/' {
        TokenKind::FSlash
    } else if c == ',' {
        TokenKind::Comma
    } else if c == ';' {
        TokenKind::Semicolon
    } else if c == '(' {
        TokenKind::Lparen
    } else if c == ')' {
        TokenKind::Rparen
    } else if c == '{' {
        TokenKind::Lbrace
    } else if c == '}' {
        TokenKind::Rbrace
    } else if c == '<' {
        TokenKind::LChevron
    } else if c == '>' {
        TokenKind::RChevron
    } else if c == '\n' {
        TokenKind::NewLine
    } else {
        TokenKind::Illegal(c)
    }
}

/// First position after the token whose lexeme starts at `i`
/// (meaningful for `0 <= i < s.len()` and `s[i] != ' '`).
pub open spec fn token_end(s: Seq<char>, i: int) -> int {
    let c = s[i];
    if is_ident_char(c) {
        ident_run_end(s, i)
    } else if is_digit_char(c) {
        digit_run_end(s, i)
    } else if (c == '=' || c == '!') && i + 1 < s.len() && s[i + 1] == '=' {
        i + 2
    } else {
        i + 1
    }
}

/// Category of the token whose lexeme starts at `i`
/// (meaningful for `0 <= i < s.len()` and `s[i] != ' '`).
pub open spec fn token_kind_at(s: Seq<char>, i: int) -> TokenKind {
    let c = s[i];
    if is_ident_char(c) {
        keyword_kind(s.subrange(i, ident_run_end(s, i)))
    } else if is_digit_char(c) {
        int_kind(s.subrange(i, digit_run_end(s, i)))
    } else if (c == '=' || c == '!') && i + 1 < s.len() && s[i + 1] == '=' {
        if c == '=' {
            TokenKind::Eq
        } else {
            TokenKind::NotEq
        }
    } else {
        symbol_kind(c)
    }
}

/// Every token consumes at least one character and stays in bounds.
pub proof fn lemma_token_end(s: Seq<char>, i: int)
    requires
        0 <= i < s.len(),
    ensures
        i < token_end(s, i) <= s.len(),
{
    let c = s[i];
    if is_ident_char(c) {
        lemma_ident_run_end(s, i);
        assert(ident_run_end(s, i) == ident_run_end(s, i + 1));
        lemma_ident_run_end(s, i + 1);
    } else if is_digit_char(c) {
        lemma_digit_run_end(s, i);
        assert(digit_run_end(s, i) == digit_run_end(s, i + 1));
        lemma_digit_run_end(s, i + 1);
    }
}

/// The token sequence produced by scanning `s` from position `i`, with the
/// cursor at 1-based `line` and `col`. Spaces are skipped; every other
/// character starts exactly one token.
pub open spec fn scan_at(s: Seq<char>, i: int, line: nat, col: nat) -> Seq<SpecToken>
    decreases s.len() - i when 0 <= i <= s.len() via scan_at_decreases
{
    if i >= s.len() {
        Seq::empty()
    } else if s[i] == ' ' {
        scan_at(s, i + 1, line, col + 1)
    } else {
        let j = token_end(s, i);
        let t = SpecToken { kind: token_kind_at(s, i), line: line, column: col };
        if s[i] == '\n' {
            seq![t] + scan_at(s, j, line + 1, 1)
        } else {
            seq![t] + scan_at(s, j, line, col + (j - i) as nat)
        }
    }
}

#[via_fn]
proof fn scan_at_decreases(s: Seq<char>, i: int, line: nat, col: nat) {
    if 0 <= i && i < s.len() && s[i] != ' ' {
        lemma_token_end(s, i);
    }
}

/// The full token sequence of an input text: one forward pass from its
/// start, with positions counted from line 1, column 1.
pub open spec fn scan(s: Seq<char>) -> Seq<SpecToken> {
    scan_at(s, 0, 1, 1)
}

/// Width, in characters, of each token of `scan_at(s, i, _, _)`: the length
/// of the extent consumed for it, lexeme and lookahead included. Skipped
/// spaces contribute no entry.
pub open spec fn scan_widths(s: Seq<char>, i: int) -> Seq<int>
    decreases s.len() - i when 0 <= i <= s.len() via scan_widths_decreases
{
    if i >= s.len() {
        Seq::empty()
    } else if s[i] == ' ' {
        scan_widths(s, i + 1)
    } else {
        seq![token_end(s, i) - i] + scan_widths(s, token_end(s, i))
    }
}

#[via_fn]
proof fn scan_widths_decreases(s: Seq<char>, i: int) {
    if 0 <= i && i < s.len() && s[i] != ' ' {
        lemma_token_end(s, i);
    }
}

/// Number of space characters in `s` at or after position `i`.
pub open spec fn space_count(s: Seq<char>, i: int) -> int
    decreases s.len() - i when 0 <= i <= s.len()
{
    if i >= s.len() {
        0
    } else if s[i] == ' ' {
        1 + space_count(s, i + 1)
    } else {
        space_count(s, i + 1)
    }
}

/// Sum of a sequence of integers.
pub open spec fn sum_ints(ws: Seq<int>) -> int
    decreases ws.len(),
{
    if ws.len() == 0 {
        0
    } else {
        ws[0] + sum_ints(ws.drop_first())
    }
}

/// How a token's width relates to its category: exactly the lexeme length
/// for payload-carrying categories, the keyword's spelling length, two for
/// the lookahead operators, one for every other single character.
pub open spec fn kind_width_ok(k: TokenKind, w: int) -> bool {
    match k {
        TokenKind::Identifier(x) => w == x.len(),
        TokenKind::NumericOverflow(x) => w == x.len(),
        TokenKind::Int(_) => w >= 1,
        TokenKind::Eq => w == 2,
        TokenKind::NotEq => w == 2,
        TokenKind::Function => w == 2,
        TokenKind::Let => w == 3,
        TokenKind::True => w == 4,
        TokenKind::False => w == 5,
        TokenKind::If => w == 2,
        TokenKind::Else => w == 4,
        TokenKind::Return => w == 6,
        _ => w == 1,
    }
}

proof fn lemma_sum_cons(x: int, ws: Seq<int>)
    ensures
        sum_ints(seq![x] + ws) == x + sum_ints(ws),
{
    assert((seq![x] + ws).drop_first() =~= ws);
}

proof fn lemma_space_count_skip(s: Seq<char>, i: int, j: int)
    requires
        0 <= i <= j <= s.len(),
        forall|k: int| i <= k < j ==> s[k] != ' ',
    ensures
        space_count(s, i) == space_count(s, j),
    decreases j - i,
{
    if i < j {
        lemma_space_count_skip(s, i + 1, j);
    }
}

/// No character inside a token's extent is a space.
proof fn lemma_token_no_space(s: Seq<char>, i: int)
    requires
        0 <= i < s.len(),
        s[i] != ' ',
    ensures
        forall|k: int| i <= k < token_end(s, i) ==> s[k] != ' ',
{
    let c = s[i];
    if is_ident_char(c) {
        lemma_ident_run_end(s, i);
    } else if is_digit_char(c) {
        lemma_digit_run_end(s, i);
    }
}

proof fn lemma_accounting_at(s: Seq<char>, i: int)
    requires
        0 <= i <= s.len(),
    ensures
        sum_ints(scan_widths(s, i)) + space_count(s, i) == s.len() - i,
    decreases s.len() - i,
{
    if i >= s.len() {
    } else if s[i] == ' ' {
        lemma_accounting_at(s, i + 1);
    } else {
        lemma_token_end(s, i);
        let j = token_end(s, i);
        lemma_token_no_space(s, i);
        lemma_space_count_skip(s, i, j);
        lemma_accounting_at(s, j);
        lemma_sum_cons(j - i, scan_widths(s, j));
    }
}

proof fn lemma_widths_align(s: Seq<char>, i: int, line: nat, col: nat)
    requires
        0 <= i <= s.len(),
    ensures
        scan_widths(s, i).len() == scan_at(s, i, line, col).len(),
        forall|k: int|
            0 <= k < scan_widths(s, i).len() ==> kind_width_ok(
                scan_at(s, i, line, col)[k].kind,
                #[trigger] scan_widths(s, i)[k],
            ),
    decreases s.len() - i,
{
    if i >= s.len() {
    } else if s[i] == ' ' {
        lemma_widths_align(s, i + 1, line, col + 1);
    } else {
        lemma_token_end(s, i);
        let j = token_end(s, i);
        let nline: nat = if s[i] == '\n' {
            line + 1
        } else {
            line
        };
        let ncol: nat = if s[i] == '\n' {
            1
        } else {
            col + (j - i) as nat
        };
        lemma_widths_align(s, j, nline, ncol);
        let c = s[i];
        if is_ident_char(c) {
            lemma_ident_run_end(s, i);
            let w = s.subrange(i, j);
            assert(w.len() == j - i);
            lemma_keyword_widths(w);
        } else if is_digit_char(c) {
            lemma_digit_run_end(s, i);
        }
        assert(kind_width_ok(token_kind_at(s, i), j - i));
    }
}

/// The spelling length of each keyword category.
proof fn lemma_keyword_widths(w: Seq<char>)
    ensures
        keyword_kind(w) is Function ==> w.len() == 2,
        keyword_kind(w) is Let ==> w.len() == 3,
        keyword_kind(w) is True ==> w.len() == 4,
        keyword_kind(w) is False ==> w.len() == 5,
        keyword_kind(w) is If ==> w.len() == 2,
        keyword_kind(w) is Else ==> w.len() == 4,
        keyword_kind(w) is Return ==> w.len() == 6,
        keyword_kind(w) is Identifier ==> keyword_kind(w) == TokenKind::Identifier(w),
{
    reveal_strlit("fn");
    reveal_strlit("let");
    reveal_strlit("true");
    reveal_strlit("false");
    reveal_strlit("if");
    reveal_strlit("else");
    reveal_strlit("return");
}

/// Character accounting: every character of the input is accounted for
/// exactly once across the scanned tokens and the skipped spaces. Each
/// token's width covers the characters consumed for it — its lexeme, and
/// the character absorbed by lookahead for a two-character operator — and
/// the widths align one-to-one with the tokens of the scan.
pub proof fn lemma_character_accounting(s: Seq<char>)
    ensures
        sum_ints(scan_widths(s, 0)) + space_count(s, 0) == s.len(),
        scan_widths(s, 0).len() == scan(s).len(),
        forall|k: int|
            0 <= k < scan_widths(s, 0).len() ==> kind_width_ok(
                scan(s)[k].kind,
                #[trigger] scan_widths(s, 0)[k],
            ),
{
    lemma_accounting_at(s, 0);
    lemma_widths_align(s, 0, 1, 1);
}

/// Position bookkeeping along a scan: the first token is reported on the
/// current line, at or right of the current column; tokens on one line have
/// strictly increasing columns; a newline token is followed, if anything
/// follows, by a token on the next line; lines never decrease.
pub proof fn lemma_scan_positions(s: Seq<char>, i: int, line: nat, col: nat)
    requires
        0 <= i <= s.len(),
        1 <= line,
        1 <= col,
    ensures
        ({
            let ts = scan_at(s, i, line, col);
            &&& (forall|k: int|
                0 <= k < ts.len() ==> 1 <= #[trigger] ts[k].line && 1 <= ts[k].column)
            &&& (ts.len() > 0 ==> ts[0].line == line && ts[0].column >= col)
            &&& (forall|k: int|
                #![trigger ts[k].kind]
                0 <= k && k + 1 < ts.len() ==> if ts[k].kind is NewLine {
                    ts[k + 1].line == ts[k].line + 1
                } else {
                    ts[k + 1].line == ts[k].line && ts[k + 1].column > ts[k].column
                })
        }),
    decreases s.len() - i,
{
    let ts = scan_at(s, i, line, col);
    if i >= s.len() {
    } else if s[i] == ' ' {
        lemma_scan_positions(s, i + 1, line, col + 1);
    } else {
        lemma_token_end(s, i);
        let j = token_end(s, i);
        let t0 = SpecToken { kind: token_kind_at(s, i), line: line, column: col };
        if s[i] == '\n' {
            lemma_scan_positions(s, j, line + 1, 1);
            assert(t0.kind is NewLine);
        } else {
            lemma_scan_positions(s, j, line, col + (j - i) as nat);
            assert(!(t0.kind is NewLine));
        }
    }
}

proof fn lemma_digit_char_value(d: nat)
    requires
        d < 10,
    ensures
        digit_value(crate::token::digit_char(d)) == d,
{
}

/// The decimal rendering of an integer token's value reads back, as a
/// digit run, to exactly that value: the canonical projection of `Int(n)`
/// loses nothing.
pub proof fn lemma_int_literal_roundtrip(n: nat)
    ensures
        digits_value(crate::token::decimal_digits(n)) == n,
    decreases n,
{
    let w = crate::token::decimal_digits(n);
    if n < 10 {
        lemma_digit_char_value(n);
        assert(w =~= seq![crate::token::digit_char(n)]);
        assert(w.drop_last() =~= Seq::<char>::empty());
        assert(w.last() == crate::token::digit_char(n));
        assert(digits_value(w) == digits_value(w.drop_last()) * 10 + digit_value(w.last()));
        assert(digits_value(w) == n);
    } else {
        lemma_int_literal_roundtrip(n / 10);
        lemma_digit_char_value(n % 10);
        let p = crate::token::decimal_digits(n / 10);
        assert(w == p + seq![crate::token::digit_char(n % 10)]);
        assert(w.drop_last() =~= p);
        assert(w.last() == crate::token::digit_char(n % 10));
        vstd::arithmetic::div_mod::lemma_fundamental_div_mod(n as int, 10);
    }
}

/// Determinism: the tokens a scanner will produce are a function of its
/// input text alone, so two fresh scanners over the same text face
/// identical token sequences, no matter when either was constructed or
/// which is drained first.
pub proof fn lemma_determinism(a: &Lexer, b: &Lexer)
    requires
        a.at_start(),
        b.at_start(),
        a.input_chars() == b.input_chars(),
    ensures
        a.remaining() == b.remaining(),
{
}

/// Position monotonicity over a whole pass: for consecutive tokens on the
/// same line the column strictly increases, and crossing a newline token
/// increments the line by one; all positions are 1-based.
pub proof fn lemma_position_monotonic(s: Seq<char>)
    ensures
        ({
            let ts = scan(s);
            &&& (forall|k: int|
                0 <= k < ts.len() ==> 1 <= #[trigger] ts[k].line && 1 <= ts[k].column)
            &&& (forall|k: int|
                #![trigger ts[k].kind]
                0 <= k && k + 1 < ts.len() ==> if ts[k].kind is NewLine {
                    ts[k + 1].line == ts[k].line + 1
                } else {
                    ts[k + 1].line == ts[k].line && ts[k + 1].column > ts[k].column
                })
        }),
{
    lemma_scan_positions(s, 0, 1, 1);
}

fn is_ident_char_exec(c: char) -> (r: bool)
    ensures
        r == is_ident_char(c),
{
    ('a' <= c && c <= 'z') || ('A' <= c && c <= 'Z') || c == '_'
}

fn is_digit_char_exec(c: char) -> (r: bool)
    ensures
        r == is_digit_char(c),
{
    '0' <= c && c <= '9'
}

/// A stateful scanner owning exclusive cursor, line and column state for one
/// forward pass over one fixed input buffer.
pub struct Lexer {
    input: Vec<char>,
    pos: usize,
    line: usize,
    col: usize,
}

impl Lexer {
    /// The characters of the input buffer the scanner was constructed over.
    pub closed spec fn input_chars(&self) -> Seq<char> {
        self.input@
    }

    /// Internal bounds: the cursor stays inside the buffer, and the 1-based
    /// counters stay small enough that stepping them cannot overflow.
    pub closed spec fn wf(&self) -> bool {
        &&& self.pos <= self.input.len()
        &&& self.input.len() < usize::MAX
        &&& 1 <= self.line <= self.pos + 1
        &&& 1 <= self.col <= self.pos + 1
    }

    /// A scanner that has consumed nothing yet.
    pub closed spec fn at_start(&self) -> bool {
        self.pos == 0 && self.line == 1 && self.col == 1
    }

    /// The tokens still ahead of the cursor.
    pub closed spec fn remaining(&self) -> Seq<SpecToken> {
        scan_at(self.input@, self.pos as int, self.line as nat, self.col as nat)
    }

    /// Constructs a scanner over one fixed input, with the cursor at its
    /// start: line 1, column 1.
    pub fn new(input: &str) -> (l: Lexer)
        requires
            input@.len() < usize::MAX,
        ensures
            l.wf(),
            l.at_start(),
            l.input_chars() == input@,
            l.remaining() == scan(input@),
    {
        broadcast use vstd::string::group_string_axioms;

        let mut chars: Vec<char> = Vec::new();
        let mut it = input.chars();
        loop
            invariant
                chars@ + it.remaining() == input@,
                it.decrease() is Some,
            ensures
                chars@ == input@,
            decreases it.decrease()->0,
        {
            match it.next() {
                Some(c) => {
                    chars.push(c);
                    proof {
                        assert(chars@ + it.remaining() =~= input@);
                    }
                },
                None => {
                    proof {
                        assert(chars@ =~= input@);
                    }
                    break ;
                },
            }
        }
        Lexer { input: chars, pos: 0, line: 1, col: 1 }
    }

    /// Consumes one character of lookahead, stepping the column with it.
    fn skip_char(&mut self)
        requires
            old(self).wf(),
            old(self).pos < old(self).input@.len(),
        ensures
            final(self).wf(),
            final(self).input == old(self).input,
            final(self).line == old(self).line,
            final(self).pos == old(self).pos + 1,
            final(self).col == old(self).col + 1,
    {
        self.pos = self.pos + 1;
        self.col = self.col + 1;
    }

    /// Consumes the maximal run of identifier characters (or, with `digits`,
    /// of decimal digits) starting at the cursor and returns it as a lexeme.
    fn lex_word(&mut self, digits: bool) -> (w: Vec<char>)
        requires
            old(self).wf(),
            old(self).pos < old(self).input@.len(),
            !digits ==> is_ident_char(old(self).input@[old(self).pos as int]),
            digits ==> is_digit_char(old(self).input@[old(self).pos as int]),
        ensures
            final(self).wf(),
            final(self).input == old(self).input,
            final(self).line == old(self).line,
            final(self).pos as int == (if digits {
                digit_run_end(old(self).input@, old(self).pos as int)
            } else {
                ident_run_end(old(self).input@, old(self).pos as int)
            }),
            w@ == old(self).input@.subrange(old(self).pos as int, final(self).pos as int),
            final(self).col == old(self).col + (final(self).pos - old(self).pos),
    {
        let ghost s = self.input@;
        let ghost start = self.pos as int;
        let mut w: Vec<char> = Vec::new();
        loop
            invariant
                self.wf(),
                self.input == old(self).input,
                self.input@ == s,
                self.line == old(self).line,
                0 <= start <= self.pos as int <= s.len(),
                self.col == old(self).col + (self.pos - start),
                w@ == s.subrange(start, self.pos as int),
                !digits ==> ident_run_end(s, start) == ident_run_end(s, self.pos as int),
                digits ==> digit_run_end(s, start) == digit_run_end(s, self.pos as int),
            ensures
                self.pos as int == (if digits {
                    digit_run_end(s, start)
                } else {
                    ident_run_end(s, start)
                }),
            decreases s.len() - self.pos,
        {
            if self.pos >= self.input.len() {
                break ;
            }
            let c = self.input[self.pos];
            let cont = if digits {
                is_digit_char_exec(c)
            } else {
                is_ident_char_exec(c)
            };
            if !cont {
                break ;
            }
            w.push(c);
            self.pos = self.pos + 1;
            self.col = self.col + 1;
            proof {
                assert(w@ =~= s.subrange(start, self.pos as int));
            }
        }
        w
    }
}

/// Keyword resolution over a lexeme of identifier characters; unreserved
/// lexemes become `Identifier` carrying the lexeme.
fn lookup_ident(candidate: &Vec<char>) -> (t: TokenType)
    ensures
        t@ == keyword_kind(candidate@),
{
    proof {
        reveal_strlit("fn");
        reveal_strlit("let");
        reveal_strlit("true");
        reveal_strlit("false");
        reveal_strlit("if");
        reveal_strlit("else");
        reveal_strlit("return");
    }
    let n = candidate.len();
    if n == 2 && candidate[0] == 'f' && candidate[1] == 'n' {
        proof {
            assert(candidate@ =~= "fn"@);
        }
        TokenType::Function
    } else if n == 3 && candidate[0] == 'l' && candidate[1] == 'e' && candidate[2] == 't' {
        proof {
            assert(candidate@ =~= "let"@);
        }
        TokenType::Let
    } else if n == 4 && candidate[0] == 't' && candidate[1] == 'r' && candidate[2] == 'u'
        && candidate[3] == 'e' {
        proof {
            assert(candidate@ =~= "true"@);
        }
        TokenType::True
    } else if n == 5 && candidate[0] == 'f' && candidate[1] == 'a' && candidate[2] == 'l'
        && candidate[3] == 's' && candidate[4] == 'e' {
        proof {
            assert(candidate@ =~= "false"@);
        }
        TokenType::False
    } else if n == 2 && candidate[0] == 'i' && candidate[1] == 'f' {
        proof {
            assert(candidate@ =~= "if"@);
        }
        TokenType::If
    } else if n == 4 && candidate[0] == 'e' && candidate[1] == 'l' && candidate[2] == 's'
        && candidate[3] == 'e' {
        proof {
            assert(candidate@ =~= "else"@);
        }
        TokenType::Else
    } else if n == 6 && candidate[0] == 'r' && candidate[1] == 'e' && candidate[2] == 't'
        && candidate[3] == 'u' && candidate[4] == 'r' && candidate[5] == 'n' {
        proof {
            assert(candidate@ =~= "return"@);
        }
        TokenType::Return
    } else {
        TokenType::Identifier(crate::token::chars_to_string(candidate))
    }
}

/// Numeric value of one decimal digit character.
fn char_digit(c: char) -> (d: u32)
    requires
        is_digit_char(c),
    ensures
        d as nat == digit_value(c),
        d <= 9,
{
    (c as u32) - ('0' as u32)
}

/// Extending a numeral on the right never shrinks its value.
proof fn lemma_digits_value_step(w: Seq<char>, k: int)
    requires
        0 <= k < w.len(),
    ensures
        digits_value(w.subrange(0, k + 1)) == digits_value(w.subrange(0, k)) * 10 + digit_value(
            w[k],
        ),
{
    let p = w.subrange(0, k + 1);
    assert(p.drop_last() =~= w.subrange(0, k));
    assert(p.last() == w[k]);
}

/// Parses a run of decimal digits: the value when it fits in `usize`,
/// otherwise the recoverable overflow token carrying the lexeme.
fn parse_int(word: &Vec<char>) -> (t: TokenType)
    requires
        word@.len() > 0,
        forall|k: int| 0 <= k < word@.len() ==> is_digit_char(word@[k]),
    ensures
        t@ == int_kind(word@),
{
    let mut val: usize = 0;
    let mut k: usize = 0;
    let mut overflowed = false;
    while k < word.len()
        invariant
            k <= word.len(),
            forall|j: int| 0 <= j < word@.len() ==> is_digit_char(word@[j]),
            !overflowed ==> val as nat == digits_value(word@.subrange(0, k as int)),
            overflowed ==> digits_value(word@.subrange(0, k as int)) > usize::MAX as nat,
        decreases word.len() - k,
    {
        let c = word[k];
        let d = char_digit(c);
        proof {
            lemma_digits_value_step(word@, k as int);
        }
        if !overflowed {
            if val > usize::MAX / 10 || (val == usize::MAX / 10 && d as usize > usize::MAX % 10) {
                proof {
                    vstd::arithmetic::div_mod::lemma_fundamental_div_mod(usize::MAX as int, 10);
                }
                overflowed = true;
            } else {
                proof {
                    vstd::arithmetic::div_mod::lemma_fundamental_div_mod(usize::MAX as int, 10);
                }
                val = val * 10 + (d as usize);
            }
        } else {
            proof {
                let prev = digits_value(word@.subrange(0, k as int));
                assert(prev * 10 >= prev) by (nonlinear_arith)
                    requires
                        prev >= 0,
                ;
            }
        }
        k = k + 1;
    }
    proof {
        assert(word@.subrange(0, word@.len() as int) =~= word@);
    }
    if overflowed {
        TokenType::NumericOverflow(crate::token::chars_to_string(word))
    } else {
        TokenType::Int(val)
    }
}

impl Lexer {
    /// Produces the next token, or `None` once the input is exhausted.
    ///
    /// The head of `remaining()` is returned and consumed; exhaustion is
    /// final, so once `None` comes back every later call returns `None`.
    pub fn next(&mut self) -> (r: Option<Token>)
        requires
            old(self).wf(),
        ensures
            final(self).wf(),
            final(self).input_chars() == old(self).input_chars(),
            (match r {
                Option::None => old(self).remaining().len() == 0 && final(self).remaining().len()
                    == 0,
                Option::Some(t) => old(self).remaining().len() > 0 && t@ == old(self).remaining()[0]
                    && final(self).remaining() == old(self).remaining().drop_first(),
            }),
    {
        let ghost s = self.input@;
        while self.pos < self.input.len() && self.input[self.pos] == ' '
            invariant
                self.wf(),
                self.input == old(self).input,
                self.input@ == s,
                self.line == old(self).line,
                scan_at(s, self.pos as int, self.line as nat, self.col as nat) == old(
                    self,
                ).remaining(),
            decreases self.input.len() - self.pos,
        {
            proof {
                assert(scan_at(s, self.pos as int, self.line as nat, self.col as nat) == scan_at(
                    s,
                    self.pos as int + 1,
                    self.line as nat,
                    self.col as nat + 1,
                ));
            }
            self.pos = self.pos + 1;
            self.col = self.col + 1;
        }
        if self.pos == self.input.len() {
            proof {
                assert(scan_at(s, self.pos as int, self.line as nat, self.col as nat)
                    =~= Seq::<SpecToken>::empty());
            }
            return None;
        }
        let ghost i0 = self.pos as int;
        let ghost l0 = self.line as nat;
        let ghost c0 = self.col as nat;
        let ghost j = token_end(s, i0);
        let ghost t0 = SpecToken { kind: token_kind_at(s, i0), line: l0, column: c0 };
        proof {
            lemma_token_end(s, i0);
        }
        let start_line = self.line;
        let start_col = self.col;
        let ch = self.input[self.pos];
        let tt: TokenType;
        if is_ident_char_exec(ch) {
            let word = self.lex_word(false);
            tt = lookup_ident(&word);
        } else if is_digit_char_exec(ch) {
            let word = self.lex_word(true);
            proof {
                lemma_digit_run_end(s, i0);
            }
            tt = parse_int(&word);
        } else {
            self.pos = self.pos + 1;
            self.col = self.col + 1;
            if ch == '=' {
                if self.pos < self.input.len() && self.input[self.pos] == '=' {
                    self.skip_char();
                    tt = TokenType::Eq;
                } else {
                    tt = TokenType::Assign;
                }
            } else if ch == '!' {
                if self.pos < self.input.len() && self.input[self.pos] == '=' {
                    self.skip_char();
                    tt = TokenType::NotEq;
                } else {
                    tt = TokenType::Exclamation;
                }
            } else if ch == '\n' {
                self.line = self.line + 1;
                self.col = 1;
                tt = TokenType::NewLine;
            } else if ch == '+' {
                tt = TokenType::Plus;
            } else if ch == '-' {
                tt = TokenType::Minus;
            } else if ch == '*' {
                tt = TokenType::Asterisk;
            } else if ch == '/' {
                tt = TokenType::FSlash;
            } else if ch == ',' {
                tt = TokenType::Comma;
            } else if ch == ';' {
                tt = TokenType::Semicolon;
            } else if ch == '(' {
                tt = TokenType::Lparen;
            } else if ch == ')' {
                tt = TokenType::Rparen;
            } else if ch == '{' {
                tt = TokenType::Lbrace;
            } else if ch == '}' {
                tt = TokenType::Rbrace;
            } else if ch == '<' {
                tt = TokenType::LChevron;
            } else if ch == '>' {
                tt = TokenType::RChevron;
            } else {
                tt = TokenType::Illegal(ch);
            }
        }
        proof {
            assert(self.pos as int == j);
            assert(tt@ == token_kind_at(s, i0));
            let rest = scan_at(s, j, self.line as nat, self.col as nat);
            assert(old(self).remaining() == seq![t0] + rest);
            assert((seq![t0] + rest).drop_first() =~= rest);
        }
        Some(Token::new(tt, start_line, start_col))
    }

    /// Drains the scanner: pulls tokens until exhaustion and returns them in
    /// order. Lazy one-at-a-time pulling and eager draining yield the same
    /// sequence, since each call to `next` consumes exactly the head of
    /// `remaining()`.
    pub fn collect_tokens(&mut self) -> (out: Vec<Token>)
        requires
            old(self).wf(),
        ensures
            final(self).wf(),
            out@.map_values(|t: Token| t@) == old(self).remaining(),
            final(self).remaining().len() == 0,
    {
        let mut out: Vec<Token> = Vec::new();
        loop
            invariant
                self.wf(),
                out@.map_values(|t: Token| t@) + self.remaining() == old(self).remaining(),
            ensures
                out@.map_values(|t: Token| t@) == old(self).remaining(),
                self.remaining().len() == 0,
            decreases self.remaining().len(),
        {
            let ghost prev = out@;
            let ghost rem_before = self.remaining();
            match self.next() {
                Some(t) => {
                    out.push(t);
                    proof {
                        prev.lemma_push_map_commute(|t: Token| t@, t);
                        assert(seq![t@] + self.remaining() =~= rem_before);
                        assert(out@.map_values(|t: Token| t@) + self.remaining() =~= prev
                            .map_values(|t: Token| t@) + rem_before);
                    }
                },
                None => {
                    proof {
                        assert(out@.map_values(|t: Token| t@) + self.remaining() =~= out@
                            .map_values(|t: Token| t@));
                    }
                    break ;
                },
            }
        }
        out
    }
}

} // verus!

