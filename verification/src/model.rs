//! The mathematical model of the scan: character classes, maximal runs, the
//! keyword table, and a recursive description of the whole token stream that
//! one pass over the source produces.

use vstd::prelude::*;

use crate::token::{SpecLiteral, SpecToken, TokenType};

verus! {

/// An ASCII decimal digit.
pub open spec fn is_digit(c: char) -> bool {
    ('0' as u32) <= (c as u32) && (c as u32) <= ('9' as u32)
}

/// A character that may begin an identifier: an ASCII letter or underscore.
pub open spec fn is_ident_start(c: char) -> bool {
    (('a' as u32) <= (c as u32) && (c as u32) <= ('z' as u32))
        || (('A' as u32) <= (c as u32) && (c as u32) <= ('Z' as u32))
        || c == '_'
}

/// A character that may continue an identifier.
pub open spec fn is_ident_cont(c: char) -> bool {
    is_ident_start(c) || is_digit(c)
}

/// The end of the maximal digit run starting at `i`: the first position at
/// or after `i` holding no digit, or the end of the input.
pub open spec fn digit_end(s: Seq<char>, i: int) -> int
    decreases s.len() - i when 0 <= i <= s.len()
{
    if i >= s.len() {
        i
    } else if is_digit(s[i]) {
        digit_end(s, i + 1)
    } else {
        i
    }
}

/// The end of the maximal identifier run starting at `i`.
pub open spec fn ident_end(s: Seq<char>, i: int) -> int
    decreases s.len() - i when 0 <= i <= s.len()
{
    if i >= s.len() {
        i
    } else if is_ident_cont(s[i]) {
        ident_end(s, i + 1)
    } else {
        i
    }
}

/// The first position at or after `i` holding a double quote, or the end of
/// the input when no quote follows.
pub open spec fn string_end(s: Seq<char>, i: int) -> int
    decreases s.len() - i when 0 <= i <= s.len()
{
    if i >= s.len() {
        i
    } else if s[i] == '"' {
        i
    } else {
        string_end(s, i + 1)
    }
}

/// The number of newline characters in `s[i..j)`.
pub open spec fn newline_count(s: Seq<char>, i: int, j: int) -> nat
    decreases j - i when i <= j
{
    if i >= j {
        0
    } else {
        (if s[i] == '\n' { 1nat } else { 0nat }) + newline_count(s, i + 1, j)
    }
}

pub proof fn lemma_digit_end_bounds(s: Seq<char>, i: int)
    requires
        0 <= i <= s.len(),
    ensures
        i <= digit_end(s, i) <= s.len(),
    decreases s.len() - i,
{
    if i < s.len() && is_digit(s[i]) {
        lemma_digit_end_bounds(s, i + 1);
    }
}

pub proof fn lemma_ident_end_bounds(s: Seq<char>, i: int)
    requires
        0 <= i <= s.len(),
    ensures
        i <= ident_end(s, i) <= s.len(),
    decreases s.len() - i,
{
    if i < s.len() && is_ident_cont(s[i]) {
        lemma_ident_end_bounds(s, i + 1);
    }
}

pub proof fn lemma_string_end_bounds(s: Seq<char>, i: int)
    requires
        0 <= i <= s.len(),
    ensures
        i <= string_end(s, i) <= s.len(),
    decreases s.len() - i,
{
    if i < s.len() && s[i] != '"' {
        lemma_string_end_bounds(s, i + 1);
    }
}

/// The end of a number lexeme starting at the digit at `i`: the maximal digit
/// run, then one decimal point and a further digit run, but only when a digit
/// follows the point directly.
pub open spec fn number_end(s: Seq<char>, i: int) -> int {
    let j = digit_end(s, i);
    if j < s.len() && s[j] == '.' && j + 1 < s.len() && is_digit(s[j + 1]) {
        digit_end(s, j + 1)
    } else {
        j
    }
}

pub proof fn lemma_number_end_bounds(s: Seq<char>, i: int)
    requires
        0 <= i < s.len(),
        is_digit(s[i]),
    ensures
        i < number_end(s, i) <= s.len(),
{
    lemma_digit_end_bounds(s, i);
    assert(digit_end(s, i) == digit_end(s, i + 1));
    lemma_digit_end_bounds(s, i + 1);
    let j = digit_end(s, i);
    if j < s.len() && s[j] == '.' && j + 1 < s.len() && is_digit(s[j + 1]) {
        lemma_digit_end_bounds(s, j + 1);
        assert(digit_end(s, j + 1) == digit_end(s, j + 2));
        lemma_digit_end_bounds(s, j + 2);
    }
}

/// The reserved-word table: an identifier lexeme that matches one of the
/// reserved words exactly has that word's kind; any other is an identifier.
pub open spec fn ident_kind(lex: Seq<char>) -> TokenType {
    if lex == "and"@ {
        TokenType::And
    } else if lex == "class"@ {
        TokenType::Class
    } else if lex == "else"@ {
        TokenType::Else
    } else if lex == "false"@ {
        TokenType::False
    } else if lex == "for"@ {
        TokenType::For
    } else if lex == "fun"@ {
        TokenType::Fun
    } else if lex == "if"@ {
        TokenType::If
    } else if lex == "nil"@ {
        TokenType::Nil
    } else if lex == "or"@ {
        TokenType::Or
    } else if lex == "print"@ {
        TokenType::Print
    } else if lex == "return"@ {
        TokenType::Return
    } else if lex == "super"@ {
        TokenType::Super
    } else if lex == "this"@ {
        TokenType::This
    } else if lex == "true"@ {
        TokenType::True
    } else if lex == "var"@ {
        TokenType::Var
    } else if lex == "while"@ {
        TokenType::While
    } else {
        TokenType::Identifier
    }
}

/// A token that carries no decoded value.
pub open spec fn plain_token(kind: TokenType, lexeme: Seq<char>, line: nat) -> SpecToken {
    SpecToken { kind, lexeme, literal: SpecLiteral::Nothing, line }
}

/// The kind of a bare `!`, `=`, `<` or `>`.
pub open spec fn one_char_kind(c: char) -> TokenType {
    if c == '!' {
        TokenType::Bang
    } else if c == '=' {
        TokenType::Equal
    } else if c == '<' {
        TokenType::Less
    } else {
        TokenType::Greater
    }
}

/// The kind of `!=`, `==`, `<=` or `>=`.
pub open spec fn two_char_kind(c: char) -> TokenType {
    if c == '!' {
        TokenType::BangEqual
    } else if c == '=' {
        TokenType::EqualEqual
    } else if c == '<' {
        TokenType::LessEqual
    } else {
        TokenType::GreaterEqual
    }
}

/// The kind of a fixed single-character punctuation token.
pub open spec fn punct_kind(c: char) -> TokenType {
    if c == '(' {
        TokenType::LeftParen
    } else if c == ')' {
        TokenType::RightParen
    } else if c == '{' {
        TokenType::LeftBrace
    } else if c == '}' {
        TokenType::RightBrace
    } else if c == ',' {
        TokenType::Comma
    } else if c == '.' {
        TokenType::Dot
    } else if c == '-' {
        TokenType::Minus
    } else if c == '+' {
        TokenType::Plus
    } else if c == ';' {
        TokenType::Semicolon
    } else if c == '/' {
        TokenType::Slash
    } else {
        TokenType::Star
    }
}

/// Whether `c` is fixed single-character punctuation.
pub open spec fn is_punct(c: char) -> bool {
    c == '(' || c == ')' || c == '{' || c == '}' || c == ',' || c == '.' || c == '-' || c == '+'
        || c == ';' || c == '/' || c == '*'
}

/// The number token starting at the digit at `i`: its lexeme is the exact
/// source text, and its decoded value is that same digit text.
pub open spec fn number_token(s: Seq<char>, i: int, line: nat) -> SpecToken {
    SpecToken {
        kind: TokenType::Number,
        lexeme: s.subrange(i, number_end(s, i)),
        literal: SpecLiteral::Num(s.subrange(i, number_end(s, i))),
        line,
    }
}

/// The identifier or reserved-word token starting at `i`.
pub open spec fn ident_token(s: Seq<char>, i: int, line: nat) -> SpecToken {
    SpecToken {
        kind: ident_kind(s.subrange(i, ident_end(s, i))),
        lexeme: s.subrange(i, ident_end(s, i)),
        literal: SpecLiteral::Nothing,
        line,
    }
}

/// The string token whose opening quote stands at `i`, tagged with the line
/// where it started. When no closing quote follows, the token spans to the
/// end of the input (best effort) and its contents run to the end as well.
pub open spec fn string_token(s: Seq<char>, i: int, line: nat) -> SpecToken {
    let close = string_end(s, i + 1);
    if close < s.len() {
        SpecToken {
            kind: TokenType::StringLit,
            lexeme: s.subrange(i, close + 1),
            literal: SpecLiteral::Text(s.subrange(i + 1, close)),
            line,
        }
    } else {
        SpecToken {
            kind: TokenType::StringLit,
            lexeme: s.subrange(i, s.len() as int),
            literal: SpecLiteral::Text(s.subrange(i + 1, s.len() as int)),
            line,
        }
    }
}

/// What one full scan of the rest of the input produces: the tokens emitted
/// (without the terminal end-of-input token), the final line number, and
/// whether any lexical error was observed.
#[verifier::ext_equal]
pub struct SpecScan {
    pub tokens: Seq<SpecToken>,
    pub line: nat,
    pub err: bool,
}

/// Prepend one token to the output of the remaining scan.
pub open spec fn scan_cons(t: SpecToken, rest: SpecScan) -> SpecScan {
    SpecScan { tokens: seq![t] + rest.tokens, line: rest.line, err: rest.err }
}

/// The scan of `s` from position `i`, with `line` the current line number.
/// One step consumes at least one character, so the scan always terminates.
pub open spec fn scan_from(s: Seq<char>, i: int, line: nat) -> SpecScan
    decreases s.len() - i when 0 <= i <= s.len()
{
    if i >= s.len() {
        SpecScan { tokens: Seq::<SpecToken>::empty(), line, err: false }
    } else {
        let c = s[i];
        if is_punct(c) {
            scan_cons(plain_token(punct_kind(c), s.subrange(i, i + 1), line), scan_from(s, i + 1, line))
        } else if c == '!' || c == '=' || c == '<' || c == '>' {
            if i + 1 < s.len() && s[i + 1] == '=' {
                scan_cons(
                    plain_token(two_char_kind(c), s.subrange(i, i + 2), line),
                    scan_from(s, i + 2, line),
                )
            } else {
                scan_cons(
                    plain_token(one_char_kind(c), s.subrange(i, i + 1), line),
                    scan_from(s, i + 1, line),
                )
            }
        } else if c == ' ' || c == '\r' || c == '\t' {
            scan_from(s, i + 1, line)
        } else if c == '\n' {
            scan_from(s, i + 1, line + 1)
        } else if c == '"' {
            let close = string_end(s, i + 1);
            if close < s.len() {
                proof {
                    lemma_string_end_bounds(s, i + 1);
                }
                scan_cons(
                    string_token(s, i, line),
                    scan_from(s, close + 1, line + newline_count(s, i + 1, close)),
                )
            } else {
                SpecScan {
                    tokens: seq![string_token(s, i, line)],
                    line: line + newline_count(s, i + 1, s.len() as int),
                    err: true,
                }
            }
        } else if is_digit(c) {
            proof {
                lemma_number_end_bounds(s, i);
            }
            scan_cons(number_token(s, i, line), scan_from(s, number_end(s, i), line))
        } else if is_ident_start(c) {
            proof {
                lemma_ident_end_bounds(s, i);
                assert(ident_end(s, i) == ident_end(s, i + 1));
                lemma_ident_end_bounds(s, i + 1);
            }
            scan_cons(ident_token(s, i, line), scan_from(s, ident_end(s, i), line))
        } else {
            let rest = scan_from(s, i + 1, line);
            SpecScan { tokens: rest.tokens, line: rest.line, err: true }
        }
    }
}

/// The whole scan of a source text: from its start, on line 1.
pub open spec fn scan_spec(s: Seq<char>) -> SpecScan {
    scan_from(s, 0, 1)
}

/// Where the step that starts at `i` ends: one past the characters it
/// consumes. Every step consumes at least one character.
pub open spec fn step_end(s: Seq<char>, i: int) -> int
    recommends
        0 <= i < s.len(),
{
    let c = s[i];
    if c == '!' || c == '=' || c == '<' || c == '>' {
        if i + 1 < s.len() && s[i + 1] == '=' {
            i + 2
        } else {
            i + 1
        }
    } else if c == '"' {
        if string_end(s, i + 1) < s.len() {
            string_end(s, i + 1) + 1
        } else {
            s.len() as int
        }
    } else if is_digit(c) {
        number_end(s, i)
    } else if is_ident_start(c) {
        ident_end(s, i)
    } else {
        i + 1
    }
}

/// What the step that starts at `i` emits: exactly one token, or none for
/// whitespace, a newline, and an unexpected character.
pub open spec fn step_tokens(s: Seq<char>, i: int, line: nat) -> Seq<SpecToken>
    recommends
        0 <= i < s.len(),
{
    let c = s[i];
    if is_punct(c) {
        seq![plain_token(punct_kind(c), s.subrange(i, i + 1), line)]
    } else if c == '!' || c == '=' || c == '<' || c == '>' {
        if i + 1 < s.len() && s[i + 1] == '=' {
            seq![plain_token(two_char_kind(c), s.subrange(i, i + 2), line)]
        } else {
            seq![plain_token(one_char_kind(c), s.subrange(i, i + 1), line)]
        }
    } else if c == ' ' || c == '\r' || c == '\t' || c == '\n' {
        Seq::<SpecToken>::empty()
    } else if c == '"' {
        seq![string_token(s, i, line)]
    } else if is_digit(c) {
        seq![number_token(s, i, line)]
    } else if is_ident_start(c) {
        seq![ident_token(s, i, line)]
    } else {
        Seq::<SpecToken>::empty()
    }
}

/// The line after the step that starts at `i`: one more for a newline, raised
/// by the newlines inside a string literal, unchanged otherwise.
pub open spec fn step_line(s: Seq<char>, i: int, line: nat) -> nat
    recommends
        0 <= i < s.len(),
{
    let c = s[i];
    if c == '\n' {
        line + 1
    } else if c == '"' {
        line + newline_count(s, i + 1, string_end(s, i + 1))
    } else {
        line
    }
}

/// Whether the step that starts at `i` reports a lexical error: an
/// unterminated string, or a character that starts no token.
pub open spec fn step_error(s: Seq<char>, i: int) -> bool
    recommends
        0 <= i < s.len(),
{
    let c = s[i];
    if c == '"' {
        string_end(s, i + 1) >= s.len()
    } else {
        !is_punct(c) && !(c == '!' || c == '=' || c == '<' || c == '>') && !(c == ' ' || c == '\r'
            || c == '\t' || c == '\n') && !is_digit(c) && !is_ident_start(c)
    }
}

/// One step of the scan: the whole scan from `i` is the step's emission, the
/// step's error, and then the scan of the rest from where the step ends, on
/// the line the step leaves behind.
pub proof fn lemma_scan_step(s: Seq<char>, i: int, line: nat)
    ensures
        0 <= i < s.len() ==> i < step_end(s, i) <= s.len(),
        0 <= i < s.len() ==> scan_from(s, i, line) == (SpecScan {
            tokens: step_tokens(s, i, line) + scan_from(
                s,
                step_end(s, i),
                step_line(s, i, line),
            ).tokens,
            line: scan_from(s, step_end(s, i), step_line(s, i, line)).line,
            err: step_error(s, i) || scan_from(s, step_end(s, i), step_line(s, i, line)).err,
        }),
{
    if 0 <= i < s.len() {
        let c = s[i];
        if c == '"' {
            lemma_string_end_bounds(s, i + 1);
            let close = string_end(s, i + 1);
            if close >= s.len() {
                assert(scan_from(s, s.len() as int, step_line(s, i, line)).tokens
                    =~= Seq::<SpecToken>::empty());
                assert(scan_from(s, i, line).tokens =~= step_tokens(s, i, line) + scan_from(
                    s,
                    step_end(s, i),
                    step_line(s, i, line),
                ).tokens);
                assert(scan_from(s, i, line) =~= (SpecScan {
                    tokens: step_tokens(s, i, line) + scan_from(
                        s,
                        step_end(s, i),
                        step_line(s, i, line),
                    ).tokens,
                    line: scan_from(s, step_end(s, i), step_line(s, i, line)).line,
                    err: step_error(s, i) || scan_from(
                        s,
                        step_end(s, i),
                        step_line(s, i, line),
                    ).err,
                }));
            }
        } else if is_digit(c) {
            lemma_number_end_bounds(s, i);
        } else if is_ident_start(c) {
            lemma_ident_end_bounds(s, i);
            assert(ident_end(s, i) == ident_end(s, i + 1));
            lemma_ident_end_bounds(s, i + 1);
        }
    }
}

} // verus!
