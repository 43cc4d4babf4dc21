//! The executable scanner: one linear pass over a source text, verified to
//! produce exactly the token stream that `crate::model::scan_spec` describes.

use vstd::prelude::*;
use vstd::string::StrSliceExecFns;
use vstd::string::StringExecFns;

use crate::model::{
    digit_end, ident_end, ident_kind, ident_token, is_digit, is_ident_cont, is_ident_start,
    is_punct, lemma_digit_end_bounds, lemma_ident_end_bounds, lemma_number_end_bounds,
    lemma_scan_step, lemma_string_end_bounds, newline_count, number_end, number_token,
    one_char_kind, plain_token, punct_kind, scan_from, scan_spec, step_end, step_error, step_line,
    step_tokens, string_end, string_token, two_char_kind, SpecScan,
};
use crate::token::{eof_token, token_views, Literal, SpecToken, Token, TokenType};

verus! {

/// Whether `c` is an ASCII decimal digit.
pub fn digit_char(c: char) -> (r: bool)
    ensures
        r == is_digit(c),
{
    let u = c as u32;
    ('0' as u32) <= u && u <= ('9' as u32)
}

/// Whether `c` may begin an identifier.
pub fn ident_start_char(c: char) -> (r: bool)
    ensures
        r == is_ident_start(c),
{
    let u = c as u32;
    (('a' as u32) <= u && u <= ('z' as u32)) || (('A' as u32) <= u && u <= ('Z' as u32)) || c
        == '_'
}

/// Whether `c` may continue an identifier.
pub fn ident_cont_char(c: char) -> (r: bool)
    ensures
        r == is_ident_cont(c),
{
    ident_start_char(c) || digit_char(c)
}

/// The kind of a fixed single-character punctuation token.
pub fn punct_token_type(c: char) -> (k: TokenType)
    requires
        is_punct(c),
    ensures
        k == punct_kind(c),
{
    match c {
        '(' => TokenType::LeftParen,
        ')' => TokenType::RightParen,
        '{' => TokenType::LeftBrace,
        '}' => TokenType::RightBrace,
        ',' => TokenType::Comma,
        '.' => TokenType::Dot,
        '-' => TokenType::Minus,
        '+' => TokenType::Plus,
        ';' => TokenType::Semicolon,
        '/' => TokenType::Slash,
        _ => TokenType::Star,
    }
}

/// The reserved-word table: an exact match reclassifies an identifier lexeme.
pub fn keyword_or_identifier(text: &String) -> (k: TokenType)
    ensures
        k == ident_kind(text@),
{
    if *text == String::from_str("and") {
        TokenType::And
    } else if *text == String::from_str("class") {
        TokenType::Class
    } else if *text == String::from_str("else") {
        TokenType::Else
    } else if *text == String::from_str("false") {
        TokenType::False
    } else if *text == String::from_str("for") {
        TokenType::For
    } else if *text == String::from_str("fun") {
        TokenType::Fun
    } else if *text == String::from_str("if") {
        TokenType::If
    } else if *text == String::from_str("nil") {
        TokenType::Nil
    } else if *text == String::from_str("or") {
        TokenType::Or
    } else if *text == String::from_str("print") {
        TokenType::Print
    } else if *text == String::from_str("return") {
        TokenType::Return
    } else if *text == String::from_str("super") {
        TokenType::Super
    } else if *text == String::from_str("this") {
        TokenType::This
    } else if *text == String::from_str("true") {
        TokenType::True
    } else if *text == String::from_str("var") {
        TokenType::Var
    } else if *text == String::from_str("while") {
        TokenType::While
    } else {
        TokenType::Identifier
    }
}

proof fn lemma_views_push(ts: Seq<Token>, t: Token)
    ensures
        token_views(ts.push(t)) == token_views(ts).push(t@),
{
    assert(token_views(ts.push(t)) =~= token_views(ts).push(t@));
}

/// The scanner: the source text, the tokens produced so far, the cursor
/// window `[start, current)` of the lexeme under construction, the current
/// 1-based line, and the sticky error flag.
#[derive(Debug)]
pub struct Scanner {
    pub source: String,
    pub tokens: Vec<Token>,
    pub start: usize,
    pub current: usize,
    pub line: usize,
    pub has_error: bool,
}

impl Scanner {
    /// The source text as a sequence of characters.
    pub open spec fn src(&self) -> Seq<char> {
        self.source@
    }

    /// Internal well-formedness: the cursor window lies inside the source,
    /// and the line counter never exceeds one more than the characters
    /// consumed (each newline consumes a character).
    pub open spec fn wf(&self) -> bool {
        &&& self.start <= self.current <= self.src().len()
        &&& self.src().len() < usize::MAX
        &&& 1 <= self.line
        &&& self.line <= self.current + 1
    }

    /// A freshly constructed scanner: nothing consumed, nothing produced.
    pub open spec fn fresh(&self) -> bool {
        &&& self.wf()
        &&& self.tokens@.len() == 0
        &&& self.start == 0
        &&& self.current == 0
        &&& self.line == 1
        &&& !self.has_error
    }

    /// Builds a scanner over one complete source text. The length bound is a
    /// machine limit: the line counter must fit in `usize` even when every
    /// character is a newline.
    pub fn new(source: String) -> (r: Scanner)
        requires
            source@.len() < usize::MAX,
        ensures
            r.fresh(),
            r.src() == source@,
    {
        Scanner { source, tokens: Vec::new(), start: 0, current: 0, line: 1, has_error: false }
    }

    /// Exposes the scanner's state: source, tokens, window start, cursor,
    /// line, and the sticky error flag.
    pub fn show_self(&self) -> (r: (&String, &Vec<Token>, &usize, &usize, &usize, &bool))
        ensures
            r.0@ == self.source@,
            r.1@ == self.tokens@,
            *r.2 == self.start,
            *r.3 == self.current,
            *r.4 == self.line,
            *r.5 == self.has_error,
    {
        (&self.source, &self.tokens, &self.start, &self.current, &self.line, &self.has_error)
    }

    /// Whether the cursor has reached the end of the input.
    pub fn current_at_end(&self) -> (r: bool)
        ensures
            r == (self.current >= self.src().len()),
    {
        self.current >= self.source.as_str().unicode_len()
    }

    /// The character under the cursor.
    pub fn current_char(&self) -> (c: char)
        requires
            self.current < self.src().len(),
        ensures
            c == self.src()[self.current as int],
    {
        self.source.as_str().get_char(self.current)
    }

    /// The character one past the cursor.
    pub fn next_char(&self) -> (c: char)
        requires
            self.src().len() < usize::MAX,
            self.current + 1 < self.src().len(),
        ensures
            c == self.src()[self.current as int + 1],
    {
        self.source.as_str().get_char(self.current + 1)
    }

    /// Advances the cursor one character.
    pub fn consume_char(&mut self)
        requires
            old(self).src().len() < usize::MAX,
            old(self).current < old(self).src().len(),
        ensures
            final(self).current == old(self).current + 1,
            final(self).source == old(self).source,
            final(self).tokens == old(self).tokens,
            final(self).start == old(self).start,
            final(self).line == old(self).line,
            final(self).has_error == old(self).has_error,
    {
        self.current = self.current + 1;
    }

    /// One-character lookahead: consumes the next character exactly when it
    /// equals `expected`, and never looks past the end of the input.
    pub fn peek_if_two_char_symbol(&mut self, expected: char) -> (r: bool)
        requires
            old(self).wf(),
        ensures
            final(self).wf(),
            r == (old(self).current < old(self).src().len() && old(self).src()[old(
                self,
            ).current as int] == expected),
            final(self).current == if r {
                old(self).current + 1
            } else {
                old(self).current as int
            },
            final(self).source == old(self).source,
            final(self).tokens == old(self).tokens,
            final(self).start == old(self).start,
            final(self).line == old(self).line,
            final(self).has_error == old(self).has_error,
    {
        if self.current_at_end() {
            return false;
        }
        let match_res = self.current_char() == expected;
        if match_res {
            self.consume_char();
        }
        match_res
    }

    /// Appends one token built from the current window `[start, current)`,
    /// tagged with the current line.
    pub fn add_token(&mut self, token_type: TokenType, literal: Literal)
        requires
            old(self).wf(),
        ensures
            final(self).wf(),
            token_views(final(self).tokens@) == token_views(old(self).tokens@).push(
                (SpecToken {
                    kind: token_type,
                    lexeme: old(self).src().subrange(
                        old(self).start as int,
                        old(self).current as int,
                    ),
                    literal: literal@,
                    line: old(self).line as nat,
                }),
            ),
            final(self).source == old(self).source,
            final(self).start == old(self).start,
            final(self).current == old(self).current,
            final(self).line == old(self).line,
            final(self).has_error == old(self).has_error,
    {
        let text = self.source.as_str().substring_char(self.start, self.current).to_owned();
        let tok = Token { token_type, lexeme: text, literal, line: self.line };
        proof {
            lemma_views_push(self.tokens@, tok);
        }
        self.tokens.push(tok);
    }

    /// Scans the tail of an identifier whose first character was consumed,
    /// then emits the identifier or reserved-word token.
    #[verifier::loop_isolation(false)]
    pub fn add_identifier(&mut self)
        requires
            old(self).wf(),
            old(self).start < old(self).src().len(),
            old(self).current == old(self).start + 1,
            is_ident_start(old(self).src()[old(self).start as int]),
        ensures
            final(self).wf(),
            final(self).current == ident_end(old(self).src(), old(self).start as int),
            token_views(final(self).tokens@) == token_views(old(self).tokens@).push(
                ident_token(old(self).src(), old(self).start as int, old(self).line as nat),
            ),
            final(self).source == old(self).source,
            final(self).start == old(self).start,
            final(self).line == old(self).line,
            final(self).has_error == old(self).has_error,
    {
        let ghost s = self.src();
        let ghost st = self.start as int;
        proof {
            assert(ident_end(s, st) == ident_end(s, st + 1));
            lemma_ident_end_bounds(s, st);
        }
        while !self.current_at_end() && ident_cont_char(self.current_char())
            invariant
                self.wf(),
                *self == (Scanner { current: self.current, ..*old(self) }),
                old(self).current <= self.current,
                ident_end(s, self.current as int) == ident_end(s, st),
            decreases s.len() - self.current,
        {
            proof {
                assert(ident_end(s, self.current as int) == ident_end(s, self.current + 1));
                lemma_ident_end_bounds(s, self.current + 1);
            }
            self.consume_char();
        }
        proof {
            assert(ident_end(s, self.current as int) == self.current as int);
        }
        let text = self.source.as_str().substring_char(self.start, self.current).to_owned();
        let kind = keyword_or_identifier(&text);
        self.add_token(kind, Literal::Nothing);
    }

    /// Scans the tail of a number whose first digit was consumed: the maximal
    /// digit run, then one decimal point and a further digit run only when a
    /// digit follows the point directly. Emits the number token, whose
    /// decoded value is the exact digit text.
    #[verifier::loop_isolation(false)]
    pub fn add_number(&mut self)
        requires
            old(self).wf(),
            old(self).start < old(self).src().len(),
            old(self).current == old(self).start + 1,
            is_digit(old(self).src()[old(self).start as int]),
        ensures
            final(self).wf(),
            final(self).current == number_end(old(self).src(), old(self).start as int),
            token_views(final(self).tokens@) == token_views(old(self).tokens@).push(
                number_token(old(self).src(), old(self).start as int, old(self).line as nat),
            ),
            final(self).source == old(self).source,
            final(self).start == old(self).start,
            final(self).line == old(self).line,
            final(self).has_error == old(self).has_error,
    {
        let ghost s = self.src();
        let ghost st = self.start as int;
        proof {
            assert(digit_end(s, st) == digit_end(s, st + 1));
            lemma_digit_end_bounds(s, st);
        }
        while !self.current_at_end() && digit_char(self.current_char())
            invariant
                self.wf(),
                *self == (Scanner { current: self.current, ..*old(self) }),
                old(self).current <= self.current,
                digit_end(s, self.current as int) == digit_end(s, st),
            decreases s.len() - self.current,
        {
            proof {
                assert(digit_end(s, self.current as int) == digit_end(s, self.current + 1));
                lemma_digit_end_bounds(s, self.current + 1);
            }
            self.consume_char();
        }
        proof {
            assert(digit_end(s, self.current as int) == self.current as int);
        }
        let n = self.source.as_str().unicode_len();
        if self.current < n && self.current + 1 < n {
            let c = self.current_char();
            let d = self.next_char();
            if c == '.' && digit_char(d) {
                let ghost dot = self.current as int;
                self.consume_char();
                proof {
                    lemma_digit_end_bounds(s, dot + 1);
                }
                while !self.current_at_end() && digit_char(self.current_char())
                    invariant
                        self.wf(),
                        *self == (Scanner { current: self.current, ..*old(self) }),
                        dot + 1 <= self.current,
                        digit_end(s, self.current as int) == digit_end(s, dot + 1),
                    decreases s.len() - self.current,
                {
                    proof {
                        assert(digit_end(s, self.current as int) == digit_end(s, self.current + 1));
                        lemma_digit_end_bounds(s, self.current + 1);
                    }
                    self.consume_char();
                }
                proof {
                    assert(digit_end(s, self.current as int) == self.current as int);
                }
            }
        }
        proof {
            assert(self.current as int == number_end(s, st));
        }
        let value_text = self.source.as_str().substring_char(self.start, self.current).to_owned();
        self.add_token(TokenType::Number, Literal::Num(value_text));
    }

    /// Scans a string literal whose opening quote was consumed: characters up
    /// to the closing quote, counting the newlines inside. When the input
    /// ends before a closing quote, consumption stops at the end, the sticky
    /// error flag is set, and a best-effort token spanning to the end is
    /// still emitted. The token carries the line where it started and the
    /// decoded contents without the delimiters.
    #[verifier::loop_isolation(false)]
    pub fn add_string(&mut self)
        requires
            old(self).wf(),
            old(self).start < old(self).src().len(),
            old(self).current == old(self).start + 1,
            old(self).src()[old(self).start as int] == '"',
        ensures
            final(self).wf(),
            final(self).current == if string_end(old(self).src(), old(self).current as int) < old(
                self,
            ).src().len() {
                string_end(old(self).src(), old(self).current as int) + 1
            } else {
                old(self).src().len() as int
            },
            token_views(final(self).tokens@) == token_views(old(self).tokens@).push(
                string_token(old(self).src(), old(self).start as int, old(self).line as nat),
            ),
            final(self).line == old(self).line + newline_count(
                old(self).src(),
                old(self).current as int,
                string_end(old(self).src(), old(self).current as int),
            ),
            final(self).has_error == (old(self).has_error || string_end(
                old(self).src(),
                old(self).current as int,
            ) >= old(self).src().len()),
            final(self).source == old(self).source,
            final(self).start == old(self).start,
    {
        let ghost s = self.src();
        let ghost st = self.start as int;
        let ghost i1 = self.current as int;
        let start_line = self.line;
        let ghost line0 = self.line as nat;
        proof {
            lemma_string_end_bounds(s, i1);
        }
        while !self.current_at_end() && self.current_char() != '"'
            invariant
                self.wf(),
                *self == (Scanner { current: self.current, line: self.line, ..*old(self) }),
                i1 <= self.current,
                string_end(s, self.current as int) == string_end(s, i1),
                self.line as nat == line0 + newline_count(s, i1, self.current as int),
            decreases s.len() - self.current,
        {
            proof {
                assert(string_end(s, self.current as int) == string_end(s, self.current + 1));
                lemma_string_end_bounds(s, self.current + 1);
                lemma_newline_extend(s, i1, self.current as int);
            }
            if self.current_char() == '\n' {
                self.line = self.line + 1;
            }
            self.consume_char();
        }
        proof {
            assert(self.current >= s.len() || s[self.current as int] == '"');
            assert(string_end(s, self.current as int) == self.current as int);
        }
        let text = self.source.as_str().substring_char(self.start + 1, self.current).to_owned();
        if self.current_at_end() {
            self.has_error = true;
        } else {
            self.consume_char();
        }
        let lexeme = self.source.as_str().substring_char(self.start, self.current).to_owned();
        let tok = Token {
            token_type: TokenType::StringLit,
            lexeme,
            literal: Literal::Text(text),
            line: start_line,
        };
        proof {
            assert(tok@ == string_token(s, st, line0));
            lemma_views_push(self.tokens@, tok);
        }
        self.tokens.push(tok);
    }

    /// Scans one token: records the window start, consumes at least one
    /// character, and dispatches on the first. The step is pinned exactly:
    /// the cursor lands on the step's boundary for that character, the token
    /// sequence grows by exactly what the step emits (nothing for whitespace,
    /// a newline, or an unexpected character; one token otherwise), the line
    /// rises by exactly the newlines the step consumes, and the sticky error
    /// flag is the old flag joined with the step's own error.
    pub fn scan_token(&mut self)
        requires
            old(self).wf(),
            old(self).current < old(self).src().len(),
        ensures
            final(self).wf(),
            final(self).source == old(self).source,
            final(self).start == old(self).current,
            old(self).current < final(self).current <= old(self).src().len(),
            final(self).current == step_end(old(self).src(), old(self).current as int),
            token_views(final(self).tokens@) == token_views(old(self).tokens@) + step_tokens(
                old(self).src(),
                old(self).current as int,
                old(self).line as nat,
            ),
            final(self).line as nat == step_line(
                old(self).src(),
                old(self).current as int,
                old(self).line as nat,
            ),
            final(self).has_error == (old(self).has_error || step_error(
                old(self).src(),
                old(self).current as int,
            )),
    {
        let ghost s = self.src();
        let ghost i0 = self.current as int;
        let ghost l0 = self.line as nat;
        let ghost toks0 = token_views(self.tokens@);
        self.start = self.current;
        let c = self.current_char();
        self.consume_char();
        match c {
            '(' | ')' | '{' | '}' | ',' | '.' | '-' | '+' | ';' | '/' | '*' => {
                let kind = punct_token_type(c);
                self.add_token(kind, Literal::Nothing);
                proof {
                    let t = plain_token(punct_kind(c), s.subrange(i0, i0 + 1), l0);
                    assert(step_tokens(s, i0, l0) =~= seq![t]);
                    assert(token_views(self.tokens@) =~= toks0 + step_tokens(s, i0, l0));
                }
            },
            '!' | '=' | '<' | '>' => {
                if self.peek_if_two_char_symbol('=') {
                    let kind = match c {
                        '!' => TokenType::BangEqual,
                        '=' => TokenType::EqualEqual,
                        '<' => TokenType::LessEqual,
                        _ => TokenType::GreaterEqual,
                    };
                    self.add_token(kind, Literal::Nothing);
                    proof {
                        let t = plain_token(two_char_kind(c), s.subrange(i0, i0 + 2), l0);
                        assert(step_tokens(s, i0, l0) =~= seq![t]);
                        assert(token_views(self.tokens@) =~= toks0 + step_tokens(s, i0, l0));
                    }
                } else {
                    let kind = match c {
                        '!' => TokenType::Bang,
                        '=' => TokenType::Equal,
                        '<' => TokenType::Less,
                        _ => TokenType::Greater,
                    };
                    self.add_token(kind, Literal::Nothing);
                    proof {
                        let t = plain_token(one_char_kind(c), s.subrange(i0, i0 + 1), l0);
                        assert(step_tokens(s, i0, l0) =~= seq![t]);
                        assert(token_views(self.tokens@) =~= toks0 + step_tokens(s, i0, l0));
                    }
                }
            },
            ' ' | '\r' | '\t' => {
                proof {
                    assert(token_views(self.tokens@) =~= toks0 + step_tokens(s, i0, l0));
                }
            },
            '\n' => {
                self.line = self.line + 1;
                proof {
                    assert(token_views(self.tokens@) =~= toks0 + step_tokens(s, i0, l0));
                }
            },
            '"' => {
                self.add_string();
                proof {
                    lemma_string_end_bounds(s, i0 + 1);
                    assert(step_tokens(s, i0, l0) =~= seq![string_token(s, i0, l0)]);
                    assert(token_views(self.tokens@) =~= toks0 + step_tokens(s, i0, l0));
                }
            },
            _ => {
                if digit_char(c) {
                    self.add_number();
                    proof {
                        lemma_number_end_bounds(s, i0);
                        assert(step_tokens(s, i0, l0) =~= seq![number_token(s, i0, l0)]);
                        assert(token_views(self.tokens@) =~= toks0 + step_tokens(s, i0, l0));
                    }
                } else if ident_start_char(c) {
                    self.add_identifier();
                    proof {
                        assert(ident_end(s, i0) == ident_end(s, i0 + 1));
                        lemma_ident_end_bounds(s, i0 + 1);
                        assert(step_tokens(s, i0, l0) =~= seq![ident_token(s, i0, l0)]);
                        assert(token_views(self.tokens@) =~= toks0 + step_tokens(s, i0, l0));
                    }
                } else {
                    self.has_error = true;
                    proof {
                        assert(step_error(s, i0));
                        assert(token_views(self.tokens@) =~= toks0 + step_tokens(s, i0, l0));
                    }
                }
            },
        }
    }

    /// Scans the whole source: one token at a time until the cursor reaches
    /// the end of the input, then appends the terminal end-of-input token.
    /// The output is exactly the token stream of the model, the final line is
    /// the model's, and the sticky flag reports whether any lexical error was
    /// observed anywhere in the pass.
    #[verifier::loop_isolation(false)]
    pub fn scan_tokens(&mut self) -> (r: &Vec<Token>)
        requires
            old(self).fresh(),
        ensures
            final(self).wf(),
            final(self).source == old(self).source,
            final(self).current == old(self).src().len(),
            token_views(final(self).tokens@) == scan_spec(old(self).src()).tokens.push(
                eof_token(scan_spec(old(self).src()).line),
            ),
            final(self).has_error == scan_spec(old(self).src()).err,
            final(self).line as nat == scan_spec(old(self).src()).line,
            r == &final(self).tokens,
    {
        let ghost s = self.src();
        proof {
            assert(token_views(self.tokens@) =~= Seq::<SpecToken>::empty());
            assert(token_views(self.tokens@) + scan_from(s, 0, 1).tokens =~= scan_spec(s).tokens);
        }
        while !self.current_at_end()
            invariant
                self.wf(),
                self.source == old(self).source,
                token_views(self.tokens@) + scan_from(s, self.current as int, self.line as nat).tokens
                    == scan_spec(s).tokens,
                (self.has_error || scan_from(s, self.current as int, self.line as nat).err)
                    == scan_spec(s).err,
                scan_from(s, self.current as int, self.line as nat).line == scan_spec(s).line,
            decreases s.len() - self.current,
        {
            let ghost i0 = self.current as int;
            let ghost l0 = self.line as nat;
            let ghost toks0 = token_views(self.tokens@);
            proof {
                lemma_scan_step(s, i0, l0);
            }
            self.scan_token();
            proof {
                assert(token_views(self.tokens@) + scan_from(
                    s,
                    self.current as int,
                    self.line as nat,
                ).tokens =~= toks0 + scan_from(s, i0, l0).tokens);
            }
        }
        proof {
            assert(scan_from(s, self.current as int, self.line as nat) == (SpecScan {
                tokens: Seq::<SpecToken>::empty(),
                line: self.line as nat,
                err: false,
            }));
            assert(token_views(self.tokens@) =~= scan_spec(s).tokens);
        }
        let eof = Token {
            token_type: TokenType::Eof,
            lexeme: String::new(),
            literal: Literal::Nothing,
            line: self.line,
        };
        proof {
            assert(eof@ == eof_token(scan_spec(s).line));
            lemma_views_push(self.tokens@, eof);
        }
        self.tokens.push(eof);
        &self.tokens
    }
}

/// `newline_count` grows by the newline indicator of the next character.
proof fn lemma_newline_extend(s: Seq<char>, i: int, j: int)
    requires
        i <= j < s.len(),
    ensures
        newline_count(s, i, j + 1) == newline_count(s, i, j) + (if s[j] == '\n' {
            1nat
        } else {
            0nat
        }),
    decreases j - i,
{
    if i < j {
        lemma_newline_extend(s, i + 1, j);
    } else {
        assert(newline_count(s, i, j) == 0);
        assert(newline_count(s, j + 1, j + 1) == 0);
    }
}

} // verus!
