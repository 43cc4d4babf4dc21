//! General laws of the scan, stated over the model and proved once for all
//! inputs.

use vstd::prelude::*;

use crate::model::{
    digit_end, ident_end, ident_token, is_digit, is_ident_cont, is_ident_start, is_punct,
    lemma_digit_end_bounds, lemma_ident_end_bounds, lemma_number_end_bounds,
    lemma_string_end_bounds, newline_count, number_end, number_token, scan_from, scan_spec,
    string_end, string_token,
};

verus! {

/// Splitting the counted range splits the count.
pub proof fn lemma_newline_count_split(s: Seq<char>, i: int, j: int, k: int)
    requires
        i <= j <= k,
    ensures
        newline_count(s, i, k) == newline_count(s, i, j) + newline_count(s, j, k),
    decreases j - i,
{
    if i < j {
        lemma_newline_count_split(s, i + 1, j, k);
    }
}

/// A range without newline characters counts none.
pub proof fn lemma_newline_count_zero(s: Seq<char>, i: int, j: int)
    requires
        0 <= i <= j <= s.len(),
        forall|k: int| i <= k < j ==> s[k] != '\n',
    ensures
        newline_count(s, i, j) == 0,
    decreases j - i,
{
    if i < j {
        lemma_newline_count_zero(s, i + 1, j);
    }
}

/// Every character of a maximal digit run is a digit.
pub proof fn lemma_digit_end_chars(s: Seq<char>, i: int)
    requires
        0 <= i <= s.len(),
    ensures
        forall|k: int| i <= k < digit_end(s, i) ==> is_digit(s[k]),
    decreases s.len() - i,
{
    lemma_digit_end_bounds(s, i);
    if i < s.len() && is_digit(s[i]) {
        lemma_digit_end_chars(s, i + 1);
    }
}

/// Every character of a maximal identifier run may continue an identifier.
pub proof fn lemma_ident_end_chars(s: Seq<char>, i: int)
    requires
        0 <= i <= s.len(),
    ensures
        forall|k: int| i <= k < ident_end(s, i) ==> is_ident_cont(s[k]),
    decreases s.len() - i,
{
    lemma_ident_end_bounds(s, i);
    if i < s.len() && is_ident_cont(s[i]) {
        lemma_ident_end_chars(s, i + 1);
    }
}

/// No character before the first quote is a quote.
pub proof fn lemma_string_end_chars(s: Seq<char>, i: int)
    requires
        0 <= i <= s.len(),
    ensures
        forall|k: int| i <= k < string_end(s, i) ==> s[k] != '"',
        string_end(s, i) < s.len() ==> s[string_end(s, i)] == '"',
    decreases s.len() - i,
{
    lemma_string_end_bounds(s, i);
    if i < s.len() && s[i] != '"' {
        lemma_string_end_chars(s, i + 1);
    }
}

/// Line counting: a scan advances the line number by exactly the number of
/// newline characters in the part of the source it consumes.
pub proof fn lemma_scan_line_count(s: Seq<char>, i: int, line: nat)
    requires
        0 <= i <= s.len(),
    ensures
        scan_from(s, i, line).line == line + newline_count(s, i, s.len() as int),
    decreases s.len() - i,
{
    let n = s.len() as int;
    if i >= n {
        assert(newline_count(s, i, n) == 0);
    } else {
        let c = s[i];
        if is_punct(c) || (c == ' ' || c == '\r' || c == '\t') {
            lemma_scan_line_count(s, i + 1, line);
        } else if c == '!' || c == '=' || c == '<' || c == '>' {
            if i + 1 < n && s[i + 1] == '=' {
                lemma_scan_line_count(s, i + 2, line);
                assert(newline_count(s, i + 1, n) == newline_count(s, i + 2, n));
                assert(newline_count(s, i, n) == newline_count(s, i + 1, n));
            } else {
                lemma_scan_line_count(s, i + 1, line);
            }
        } else if c == '\n' {
            lemma_scan_line_count(s, i + 1, line + 1);
        } else if c == '"' {
            let close = string_end(s, i + 1);
            lemma_string_end_bounds(s, i + 1);
            lemma_string_end_chars(s, i + 1);
            if close < n {
                lemma_scan_line_count(s, close + 1, line + newline_count(s, i + 1, close));
                lemma_newline_count_split(s, i, i + 1, n);
                lemma_newline_count_split(s, i + 1, close, n);
                lemma_newline_count_split(s, close, close + 1, n);
            } else {
                lemma_newline_count_split(s, i, i + 1, n);
            }
        } else if is_digit(c) {
            lemma_number_end_bounds(s, i);
            let j = number_end(s, i);
            lemma_scan_line_count(s, j, line);
            lemma_digit_end_chars(s, i);
            let j0 = digit_end(s, i);
            lemma_digit_end_bounds(s, i);
            if j0 < n && s[j0] == '.' && j0 + 1 < n && is_digit(s[j0 + 1]) {
                lemma_digit_end_chars(s, j0 + 1);
                lemma_digit_end_bounds(s, j0 + 1);
                assert(forall|k: int| i <= k < j ==> s[k] != '\n') by {
                    assert(forall|k: int| i <= k < j0 ==> is_digit(#[trigger] s[k]));
                    assert(forall|k: int| j0 + 1 <= k < j ==> is_digit(#[trigger] s[k]));
                }
            } else {
                assert(forall|k: int| i <= k < j ==> s[k] != '\n');
            }
            lemma_newline_count_zero(s, i, j);
            lemma_newline_count_split(s, i, j, n);
        } else if is_ident_start(c) {
            assert(ident_end(s, i) == ident_end(s, i + 1));
            lemma_ident_end_bounds(s, i + 1);
            let j = ident_end(s, i);
            lemma_scan_line_count(s, j, line);
            lemma_ident_end_chars(s, i);
            lemma_newline_count_zero(s, i, j);
            lemma_newline_count_split(s, i, j, n);
        } else {
            lemma_scan_line_count(s, i + 1, line);
        }
    }
}

/// For a source with exactly `k` newline characters, a whole scan ends on
/// line `k + 1`; the end-of-input token that `scan_tokens` appends carries
/// exactly that line.
pub proof fn lemma_final_line(s: Seq<char>)
    ensures
        scan_spec(s).line == 1 + newline_count(s, 0, s.len() as int),
{
    lemma_scan_line_count(s, 0, 1);
}

/// One complete lexeme: fixed punctuation, a one- or two-character operator,
/// a whole number, a whole identifier, or a whole string literal.
pub open spec fn single_lexeme(s: Seq<char>) -> bool {
    ||| (s.len() == 1 && is_punct(s[0]))
    ||| (s.len() == 1 && (s[0] == '!' || s[0] == '=' || s[0] == '<' || s[0] == '>'))
    ||| (s.len() == 2 && (s[0] == '!' || s[0] == '=' || s[0] == '<' || s[0] == '>') && s[1] == '=')
    ||| (s.len() >= 1 && is_digit(s[0]) && number_end(s, 0) == s.len())
    ||| (s.len() >= 1 && is_ident_start(s[0]) && ident_end(s, 0) == s.len())
    ||| (s.len() >= 2 && s[0] == '"' && string_end(s, 1) == s.len() - 1)
}

/// An input that is exactly one valid lexeme scans to exactly one token,
/// whose lexeme is the whole input unchanged, with no error: a single valid
/// lexeme is never merged, split, or trimmed.
pub proof fn lemma_single_token(s: Seq<char>)
    requires
        single_lexeme(s),
    ensures
        scan_spec(s).tokens.len() == 1,
        scan_spec(s).tokens[0].lexeme == s,
        !scan_spec(s).err,
{
    let n = s.len() as int;
    let c = s[0];
    if s.len() == 1 && is_punct(c) {
        assert(s.subrange(0, 1) =~= s);
        assert(scan_from(s, 1, 1).tokens =~= Seq::<crate::token::SpecToken>::empty());
        assert(!scan_from(s, 1, 1).err);
    } else if s.len() == 1 && (c == '!' || c == '=' || c == '<' || c == '>') {
        assert(s.subrange(0, 1) =~= s);
        assert(scan_from(s, 1, 1).tokens =~= Seq::<crate::token::SpecToken>::empty());
        assert(!scan_from(s, 1, 1).err);
    } else if s.len() == 2 && (c == '!' || c == '=' || c == '<' || c == '>') && s[1] == '=' {
        assert(s.subrange(0, 2) =~= s);
        assert(scan_from(s, 2, 1).tokens =~= Seq::<crate::token::SpecToken>::empty());
        assert(!scan_from(s, 2, 1).err);
    } else if s.len() >= 1 && is_digit(c) && number_end(s, 0) == n {
        assert(s.subrange(0, n) =~= s);
        assert(scan_from(s, n, 1).tokens =~= Seq::<crate::token::SpecToken>::empty());
        assert(!scan_from(s, n, 1).err);
    } else if s.len() >= 1 && is_ident_start(c) && ident_end(s, 0) == n {
        assert(s.subrange(0, n) =~= s);
        assert(scan_from(s, n, 1).tokens =~= Seq::<crate::token::SpecToken>::empty());
        assert(!scan_from(s, n, 1).err);
    } else {
        let close = string_end(s, 1);
        assert(close == n - 1);
        assert(s.subrange(0, close + 1) =~= s);
        let after = 1 + newline_count(s, 1, close);
        assert(scan_from(s, n, after).tokens =~= Seq::<crate::token::SpecToken>::empty());
        assert(!scan_from(s, n, after).err);
    }
}

/// The number of double quotes in `s` at or after `i`.
pub open spec fn quote_count(s: Seq<char>, i: int) -> nat
    decreases s.len() - i when 0 <= i <= s.len()
{
    if i >= s.len() {
        0
    } else {
        (if s[i] == '"' { 1nat } else { 0nat }) + quote_count(s, i + 1)
    }
}

/// A quote follows exactly when the count of quotes is positive.
proof fn lemma_quote_count_close(s: Seq<char>, i: int)
    requires
        0 <= i <= s.len(),
    ensures
        (quote_count(s, i) > 0) == (string_end(s, i) < s.len()),
    decreases s.len() - i,
{
    if i < s.len() && s[i] != '"' {
        lemma_quote_count_close(s, i + 1);
    }
}

/// Passing the first quote takes exactly one off the count.
proof fn lemma_quote_count_at_close(s: Seq<char>, i: int)
    requires
        0 <= i <= s.len(),
        string_end(s, i) < s.len(),
    ensures
        quote_count(s, i) == 1 + quote_count(s, string_end(s, i) + 1),
    decreases s.len() - i,
{
    if s[i] != '"' {
        lemma_quote_count_at_close(s, i + 1);
    }
}

/// Skipping characters that are no quotes keeps the count.
proof fn lemma_quote_count_skip(s: Seq<char>, i: int, j: int)
    requires
        0 <= i <= j <= s.len(),
        forall|k: int| i <= k < j ==> s[k] != '"',
    ensures
        quote_count(s, i) == quote_count(s, j),
    decreases j - i,
{
    if i < j {
        lemma_quote_count_skip(s, i + 1, j);
    }
}

/// A maximal digit run in a prefix ends at the same place in the whole,
/// unless it runs to the boundary and a digit stands just past it.
proof fn lemma_digit_end_prefix(a: Seq<char>, b: Seq<char>, i: int)
    requires
        0 <= i <= a.len(),
        digit_end(a, i) < a.len() || b.len() == 0 || !is_digit(b[0]),
    ensures
        digit_end(a + b, i) == digit_end(a, i),
    decreases a.len() - i,
{
    let t = a + b;
    if i < a.len() {
        assert(t[i] == a[i]);
        if is_digit(a[i]) {
            assert(digit_end(a, i) == digit_end(a, i + 1));
            assert(digit_end(t, i) == digit_end(t, i + 1));
            lemma_digit_end_prefix(a, b, i + 1);
        } else {
            assert(digit_end(a, i) == i);
            assert(digit_end(t, i) == i);
        }
    } else {
        assert(digit_end(a, i) == i);
        if i < t.len() {
            assert(t[i] == b[0]);
            assert(digit_end(t, i) == i);
        } else {
            assert(digit_end(t, i) == i);
        }
    }
}

/// The identifier-run analogue of `lemma_digit_end_prefix`.
proof fn lemma_ident_end_prefix(a: Seq<char>, b: Seq<char>, i: int)
    requires
        0 <= i <= a.len(),
        ident_end(a, i) < a.len() || b.len() == 0 || !is_ident_cont(b[0]),
    ensures
        ident_end(a + b, i) == ident_end(a, i),
    decreases a.len() - i,
{
    let t = a + b;
    if i < a.len() {
        assert(t[i] == a[i]);
        if is_ident_cont(a[i]) {
            assert(ident_end(a, i) == ident_end(a, i + 1));
            assert(ident_end(t, i) == ident_end(t, i + 1));
            lemma_ident_end_prefix(a, b, i + 1);
        } else {
            assert(ident_end(a, i) == i);
            assert(ident_end(t, i) == i);
        }
    } else {
        assert(ident_end(a, i) == i);
        if i < t.len() {
            assert(t[i] == b[0]);
            assert(ident_end(t, i) == i);
        } else {
            assert(ident_end(t, i) == i);
        }
    }
}

/// A closing quote found inside the prefix is found at the same place in the
/// whole.
proof fn lemma_string_end_prefix(a: Seq<char>, b: Seq<char>, i: int)
    requires
        0 <= i <= a.len(),
        string_end(a, i) < a.len(),
    ensures
        string_end(a + b, i) == string_end(a, i),
    decreases a.len() - i,
{
    let t = a + b;
    assert(t[i] == a[i]);
    if a[i] != '"' {
        lemma_string_end_prefix(a, b, i + 1);
    }
}

/// Newlines counted inside the prefix are the same in the whole.
proof fn lemma_newline_count_prefix(a: Seq<char>, b: Seq<char>, i: int, j: int)
    requires
        0 <= i <= j <= a.len(),
    ensures
        newline_count(a + b, i, j) == newline_count(a, i, j),
    decreases j - i,
{
    if i < j {
        assert((a + b)[i] == a[i]);
        lemma_newline_count_prefix(a, b, i + 1, j);
    }
}

/// A digit run in the suffix `b` sits shifted in the whole `a + b`.
proof fn lemma_digit_end_shift(a: Seq<char>, b: Seq<char>, i: int)
    requires
        0 <= i <= b.len(),
    ensures
        digit_end(a + b, a.len() + i) == a.len() + digit_end(b, i),
    decreases b.len() - i,
{
    let t = a + b;
    if i < b.len() {
        assert(t[a.len() + i] == b[i]);
        if is_digit(b[i]) {
            assert(digit_end(b, i) == digit_end(b, i + 1));
            assert(digit_end(t, a.len() + i) == digit_end(t, a.len() + i + 1));
            lemma_digit_end_shift(a, b, i + 1);
        }
    }
}

/// The identifier-run analogue of `lemma_digit_end_shift`.
proof fn lemma_ident_end_shift(a: Seq<char>, b: Seq<char>, i: int)
    requires
        0 <= i <= b.len(),
    ensures
        ident_end(a + b, a.len() + i) == a.len() + ident_end(b, i),
    decreases b.len() - i,
{
    let t = a + b;
    if i < b.len() {
        assert(t[a.len() + i] == b[i]);
        if is_ident_cont(b[i]) {
            assert(ident_end(b, i) == ident_end(b, i + 1));
            assert(ident_end(t, a.len() + i) == ident_end(t, a.len() + i + 1));
            lemma_ident_end_shift(a, b, i + 1);
        }
    }
}

/// The first quote in the suffix sits shifted in the whole.
proof fn lemma_string_end_shift(a: Seq<char>, b: Seq<char>, i: int)
    requires
        0 <= i <= b.len(),
    ensures
        string_end(a + b, a.len() + i) == a.len() + string_end(b, i),
    decreases b.len() - i,
{
    let t = a + b;
    if i < b.len() {
        assert(t[a.len() + i] == b[i]);
        if b[i] != '"' {
            lemma_string_end_shift(a, b, i + 1);
        }
    }
}

/// Newlines counted in the suffix sit shifted in the whole.
proof fn lemma_newline_count_shift(a: Seq<char>, b: Seq<char>, i: int, j: int)
    requires
        0 <= i <= j <= b.len(),
    ensures
        newline_count(a + b, a.len() + i, a.len() + j) == newline_count(b, i, j),
    decreases j - i,
{
    if i < j {
        assert((a + b)[a.len() + i] == b[i]);
        lemma_newline_count_shift(a, b, i + 1, j);
    }
}

/// A scan that starts past the prefix `a` sees only the suffix `b`: every
/// token, the final line, and the error signal agree with a scan of `b`
/// alone.
proof fn lemma_scan_shift(a: Seq<char>, b: Seq<char>, i: int, line: nat)
    requires
        0 <= i <= b.len(),
    ensures
        scan_from(a + b, a.len() + i, line) == scan_from(b, i, line),
    decreases b.len() - i,
{
    let t = a + b;
    let p = a.len() + i;
    if i >= b.len() {
        assert(scan_from(t, p, line) =~= scan_from(b, i, line));
    } else {
        let c = b[i];
        assert(t[p] == c);
        if is_punct(c) {
            lemma_scan_shift(a, b, i + 1, line);
            assert(t.subrange(p, p + 1) =~= b.subrange(i, i + 1));
            assert(scan_from(t, p, line) == scan_from(b, i, line));
        } else if c == '!' || c == '=' || c == '<' || c == '>' {
            if i + 1 < b.len() && b[i + 1] == '=' {
                assert(t[p + 1] == b[i + 1]);
                lemma_scan_shift(a, b, i + 2, line);
                assert(t.subrange(p, p + 2) =~= b.subrange(i, i + 2));
                assert(scan_from(t, p, line) == scan_from(b, i, line));
            } else {
                if i + 1 < b.len() {
                    assert(t[p + 1] == b[i + 1]);
                }
                lemma_scan_shift(a, b, i + 1, line);
                assert(t.subrange(p, p + 1) =~= b.subrange(i, i + 1));
                assert(scan_from(t, p, line) == scan_from(b, i, line));
            }
        } else if c == ' ' || c == '\r' || c == '\t' {
            lemma_scan_shift(a, b, i + 1, line);
            assert(scan_from(t, p, line) == scan_from(b, i, line));
        } else if c == '\n' {
            lemma_scan_shift(a, b, i + 1, line + 1);
            assert(scan_from(t, p, line) == scan_from(b, i, line));
        } else if c == '"' {
            lemma_string_end_shift(a, b, i + 1);
            lemma_string_end_bounds(b, i + 1);
            let close = string_end(b, i + 1);
            if close < b.len() {
                lemma_newline_count_shift(a, b, i + 1, close);
                lemma_scan_shift(a, b, close + 1, line + newline_count(b, i + 1, close));
                assert(t.subrange(p, a.len() + close + 1) =~= b.subrange(i, close + 1));
                assert(t.subrange(p + 1, a.len() + close) =~= b.subrange(i + 1, close));
                assert(string_token(t, p, line) == string_token(b, i, line));
                assert(scan_from(t, p, line) == scan_from(b, i, line));
            } else {
                lemma_newline_count_shift(a, b, i + 1, b.len() as int);
                assert(t.subrange(p, t.len() as int) =~= b.subrange(i, b.len() as int));
                assert(t.subrange(p + 1, t.len() as int) =~= b.subrange(i + 1, b.len() as int));
                assert(string_token(t, p, line) == string_token(b, i, line));
                assert(scan_from(t, p, line).tokens =~= scan_from(b, i, line).tokens);
                assert(scan_from(t, p, line) =~= scan_from(b, i, line));
            }
        } else if is_digit(c) {
            lemma_digit_end_shift(a, b, i);
            lemma_digit_end_bounds(b, i);
            let j = digit_end(b, i);
            if j < b.len() {
                assert(t[a.len() + j] == b[j]);
            }
            if j < b.len() && b[j] == '.' && j + 1 < b.len() && is_digit(b[j + 1]) {
                assert(t[a.len() + j + 1] == b[j + 1]);
                lemma_digit_end_shift(a, b, j + 1);
            }
            assert(number_end(t, p) == a.len() + number_end(b, i));
            lemma_number_end_bounds(b, i);
            let m = number_end(b, i);
            lemma_scan_shift(a, b, m, line);
            assert(t.subrange(p, a.len() + m) =~= b.subrange(i, m));
            assert(number_token(t, p, line) == number_token(b, i, line));
            assert(scan_from(t, p, line) == scan_from(b, i, line));
        } else if is_ident_start(c) {
            lemma_ident_end_shift(a, b, i);
            assert(ident_end(b, i) == ident_end(b, i + 1));
            lemma_ident_end_bounds(b, i + 1);
            let m = ident_end(b, i);
            lemma_scan_shift(a, b, m, line);
            assert(t.subrange(p, a.len() + m) =~= b.subrange(i, m));
            assert(ident_token(t, p, line) == ident_token(b, i, line));
            assert(scan_from(t, p, line) == scan_from(b, i, line));
        } else {
            lemma_scan_shift(a, b, i + 1, line);
            assert(scan_from(t, p, line) == scan_from(b, i, line));
        }
    }
}

/// A subrange taken inside the prefix is the same in the whole.
proof fn lemma_subrange_prefix(a: Seq<char>, b: Seq<char>, x: int, y: int)
    requires
        0 <= x <= y <= a.len(),
    ensures
        (a + b).subrange(x, y) == a.subrange(x, y),
{
    assert((a + b).subrange(x, y) =~= a.subrange(x, y));
}

proof fn lemma_seq_add_assoc(x: Seq<crate::token::SpecToken>, y: Seq<crate::token::SpecToken>, z: Seq<crate::token::SpecToken>)
    ensures
        x + (y + z) == (x + y) + z,
{
    assert(x + (y + z) =~= (x + y) + z);
}

/// A number lexeme that starts inside the prefix ends at the same place in
/// the whole, provided the boundary characters cannot extend it.
proof fn lemma_number_end_prefix(a: Seq<char>, b: Seq<char>, i: int)
    requires
        0 <= i < a.len(),
        is_digit(a[i]),
        b.len() == 0 || !(is_digit(a[a.len() - 1]) && (is_digit(b[0]) || b[0] == '.')),
        b.len() == 0 || !(a[a.len() - 1] == '.' && is_digit(b[0])),
    ensures
        number_end(a + b, i) == number_end(a, i),
{
    let t = a + b;
    let j = digit_end(a, i);
    assert(digit_end(a, i) == digit_end(a, i + 1));
    lemma_digit_end_bounds(a, i + 1);
    lemma_digit_end_chars(a, i);
    if j == a.len() {
        assert(is_digit(a[a.len() - 1]));
        lemma_digit_end_prefix(a, b, i);
        if j < t.len() {
            assert(t[j] == b[0]);
        }
        assert(number_end(t, i) == j);
        assert(number_end(a, i) == j);
    } else {
        lemma_digit_end_prefix(a, b, i);
        assert(t[j] == a[j]);
        if a[j] == '.' {
            if j + 1 < a.len() {
                assert(t[j + 1] == a[j + 1]);
                if is_digit(a[j + 1]) {
                    lemma_digit_end_chars(a, j + 1);
                    lemma_digit_end_bounds(a, j + 1);
                    if digit_end(a, j + 1) == a.len() {
                        assert(digit_end(a, j + 1) > j + 1);
                        assert(is_digit(a[a.len() - 1]));
                    }
                    lemma_digit_end_prefix(a, b, j + 1);
                    assert(number_end(t, i) == digit_end(a, j + 1));
                    assert(number_end(a, i) == digit_end(a, j + 1));
                } else {
                    assert(number_end(a, i) == j);
                    assert(number_end(t, i) == j);
                }
            } else {
                assert(a[a.len() - 1] == '.');
                if j + 1 < t.len() {
                    assert(t[j + 1] == b[0]);
                    assert(!is_digit(b[0]));
                }
                assert(number_end(a, i) == j);
                assert(number_end(t, i) == j);
            }
        } else {
            assert(number_end(a, i) == j);
            assert(number_end(t, i) == j);
        }
    }
}

/// The last character of one source and the first of another cannot combine
/// into a longer lexeme: no two-character operator, no identifier or number
/// run, and no decimal point joins across the boundary.
pub open spec fn separable(a: Seq<char>, b: Seq<char>) -> bool {
    a.len() == 0 || b.len() == 0 || {
        let x = a[a.len() - 1];
        let y = b[0];
        &&& !((x == '!' || x == '=' || x == '<' || x == '>') && y == '=')
        &&& !(is_ident_cont(x) && is_ident_cont(y))
        &&& !(is_digit(x) && y == '.')
        &&& !(x == '.' && is_digit(y))
    }
}

/// Every string literal that opens also closes: the quotes pair up.
pub open spec fn strings_closed(s: Seq<char>) -> bool {
    quote_count(s, 0) % 2 == 0
}

proof fn lemma_scan_append_from(a: Seq<char>, b: Seq<char>, i: int, line: nat)
    requires
        0 <= i <= a.len(),
        separable(a, b),
        quote_count(a, i) % 2 == 0,
    ensures
        scan_from(a + b, i, line).tokens == scan_from(a, i, line).tokens + scan_from(
            b,
            0,
            scan_from(a, i, line).line,
        ).tokens,
        scan_from(a + b, i, line).err == (scan_from(a, i, line).err || scan_from(
            b,
            0,
            scan_from(a, i, line).line,
        ).err),
        scan_from(a + b, i, line).line == scan_from(b, 0, scan_from(a, i, line).line).line,
    decreases a.len() - i,
{
    let t = a + b;
    if i == a.len() {
        lemma_scan_shift(a, b, 0, line);
        assert(scan_from(a, i, line).tokens =~= Seq::<crate::token::SpecToken>::empty());
        assert(scan_from(t, i, line).tokens =~= scan_from(a, i, line).tokens + scan_from(
            b,
            0,
            line,
        ).tokens);
    } else {
        let c = a[i];
        assert(t[i] == a[i]);
        if is_punct(c) {
            assert(quote_count(a, i) == quote_count(a, i + 1));
            lemma_scan_append_from(a, b, i + 1, line);
            lemma_subrange_prefix(a, b, i, i + 1);
            lemma_seq_add_assoc(
                seq![crate::model::plain_token(crate::model::punct_kind(c), a.subrange(i, i + 1), line)],
                scan_from(a, i + 1, line).tokens,
                scan_from(b, 0, scan_from(a, i + 1, line).line).tokens,
            );
        } else if c == '!' || c == '=' || c == '<' || c == '>' {
            if i + 1 < a.len() && a[i + 1] == '=' {
                assert(t[i + 1] == a[i + 1]);
                assert(quote_count(a, i) == quote_count(a, i + 1));
                assert(quote_count(a, i + 1) == quote_count(a, i + 2));
                lemma_scan_append_from(a, b, i + 2, line);
                lemma_subrange_prefix(a, b, i, i + 2);
                lemma_seq_add_assoc(
                    seq![crate::model::plain_token(crate::model::two_char_kind(c), a.subrange(i, i + 2), line)],
                    scan_from(a, i + 2, line).tokens,
                    scan_from(b, 0, scan_from(a, i + 2, line).line).tokens,
                );
            } else {
                if i + 1 == a.len() && b.len() > 0 {
                    assert(t[i + 1] == b[0]);
                    assert(b[0] != '=');
                } else if i + 1 < a.len() {
                    assert(t[i + 1] == a[i + 1]);
                }
                assert(quote_count(a, i) == quote_count(a, i + 1));
                lemma_scan_append_from(a, b, i + 1, line);
                lemma_subrange_prefix(a, b, i, i + 1);
                lemma_seq_add_assoc(
                    seq![crate::model::plain_token(crate::model::one_char_kind(c), a.subrange(i, i + 1), line)],
                    scan_from(a, i + 1, line).tokens,
                    scan_from(b, 0, scan_from(a, i + 1, line).line).tokens,
                );
            }
        } else if c == ' ' || c == '\r' || c == '\t' {
            assert(quote_count(a, i) == quote_count(a, i + 1));
            lemma_scan_append_from(a, b, i + 1, line);
        } else if c == '\n' {
            assert(quote_count(a, i) == quote_count(a, i + 1));
            lemma_scan_append_from(a, b, i + 1, line + 1);
        } else if c == '"' {
            assert(quote_count(a, i) == 1 + quote_count(a, i + 1));
            lemma_quote_count_close(a, i + 1);
            let close = string_end(a, i + 1);
            assert(close < a.len());
            lemma_string_end_bounds(a, i + 1);
            lemma_string_end_prefix(a, b, i + 1);
            lemma_newline_count_prefix(a, b, i + 1, close);
            lemma_quote_count_at_close(a, i + 1);
            assert(quote_count(a, close + 1) % 2 == 0);
            lemma_scan_append_from(a, b, close + 1, line + newline_count(a, i + 1, close));
            lemma_subrange_prefix(a, b, i, close + 1);
            lemma_subrange_prefix(a, b, i + 1, close);
            assert(string_token(t, i, line) == string_token(a, i, line));
            lemma_seq_add_assoc(
                seq![string_token(a, i, line)],
                scan_from(a, close + 1, (line + newline_count(a, i + 1, close)) as nat).tokens,
                scan_from(
                    b,
                    0,
                    scan_from(a, close + 1, (line + newline_count(a, i + 1, close)) as nat).line,
                ).tokens,
            );
        } else if is_digit(c) {
            if b.len() > 0 {
                assert(!(is_digit(a[a.len() - 1]) && (is_digit(b[0]) || b[0] == '.')));
                assert(!(a[a.len() - 1] == '.' && is_digit(b[0])));
            }
            lemma_number_end_prefix(a, b, i);
            lemma_number_end_bounds(a, i);
            let m = number_end(a, i);
            lemma_digit_end_chars(a, i);
            let j0 = digit_end(a, i);
            lemma_digit_end_bounds(a, i);
            if j0 < a.len() && a[j0] == '.' && j0 + 1 < a.len() && is_digit(a[j0 + 1]) {
                lemma_digit_end_chars(a, j0 + 1);
                lemma_digit_end_bounds(a, j0 + 1);
                assert(forall|k: int| i <= k < m ==> a[k] != '"') by {
                    assert(forall|k: int| i <= k < j0 ==> is_digit(#[trigger] a[k]));
                    assert(forall|k: int| j0 + 1 <= k < m ==> is_digit(#[trigger] a[k]));
                }
            } else {
                assert(forall|k: int| i <= k < m ==> a[k] != '"');
            }
            lemma_quote_count_skip(a, i, m);
            lemma_scan_append_from(a, b, m, line);
            lemma_subrange_prefix(a, b, i, m);
            assert(number_token(t, i, line) == number_token(a, i, line));
            lemma_seq_add_assoc(
                seq![number_token(a, i, line)],
                scan_from(a, m, line).tokens,
                scan_from(b, 0, scan_from(a, m, line).line).tokens,
            );
        } else if is_ident_start(c) {
            assert(ident_end(a, i) == ident_end(a, i + 1));
            lemma_ident_end_bounds(a, i + 1);
            let m = ident_end(a, i);
            lemma_ident_end_chars(a, i);
            if m == a.len() {
                assert(is_ident_cont(a[a.len() - 1]));
            }
            lemma_ident_end_prefix(a, b, i);
            assert(forall|k: int| i <= k < m ==> a[k] != '"');
            lemma_quote_count_skip(a, i, m);
            lemma_scan_append_from(a, b, m, line);
            lemma_subrange_prefix(a, b, i, m);
            assert(ident_token(t, i, line) == ident_token(a, i, line));
            lemma_seq_add_assoc(
                seq![ident_token(a, i, line)],
                scan_from(a, m, line).tokens,
                scan_from(b, 0, scan_from(a, m, line).line).tokens,
            );
        } else {
            assert(quote_count(a, i) == quote_count(a, i + 1));
            lemma_scan_append_from(a, b, i + 1, line);
        }
    }
}

/// The start offsets of the tokens that a scan from `i` emits, in order.
pub open spec fn token_starts(s: Seq<char>, i: int) -> Seq<int>
    decreases s.len() - i when 0 <= i <= s.len()
{
    if i >= s.len() {
        Seq::<int>::empty()
    } else {
        let c = s[i];
        if is_punct(c) {
            seq![i] + token_starts(s, i + 1)
        } else if c == '!' || c == '=' || c == '<' || c == '>' {
            if i + 1 < s.len() && s[i + 1] == '=' {
                seq![i] + token_starts(s, i + 2)
            } else {
                seq![i] + token_starts(s, i + 1)
            }
        } else if c == ' ' || c == '\r' || c == '\t' || c == '\n' {
            token_starts(s, i + 1)
        } else if c == '"' {
            let close = string_end(s, i + 1);
            if close < s.len() {
                proof {
                    lemma_string_end_bounds(s, i + 1);
                }
                seq![i] + token_starts(s, close + 1)
            } else {
                seq![i]
            }
        } else if is_digit(c) {
            proof {
                lemma_number_end_bounds(s, i);
            }
            seq![i] + token_starts(s, number_end(s, i))
        } else if is_ident_start(c) {
            proof {
                lemma_ident_end_bounds(s, i);
                assert(ident_end(s, i) == ident_end(s, i + 1));
                lemma_ident_end_bounds(s, i + 1);
            }
            seq![i] + token_starts(s, ident_end(s, i))
        } else {
            token_starts(s, i + 1)
        }
    }
}

proof fn lemma_newline_count_one(s: Seq<char>, i: int)
    requires
        0 <= i < s.len(),
    ensures
        newline_count(s, i, i + 1) == (if s[i] == '\n' { 1nat } else { 0nat }),
{
    assert(newline_count(s, i + 1, i + 1) == 0);
}

proof fn lemma_token_lines_from(s: Seq<char>, i: int, line: nat)
    requires
        0 <= i <= s.len(),
        line == 1 + newline_count(s, 0, i),
    ensures
        token_starts(s, i).len() == scan_from(s, i, line).tokens.len(),
        forall|k: int|
            0 <= k < token_starts(s, i).len() ==> scan_from(s, i, line).tokens[k].line == 1
                + newline_count(s, 0, token_starts(s, i)[k]),
    decreases s.len() - i,
{
    if i >= s.len() {
    } else {
        let c = s[i];
        let toks = scan_from(s, i, line).tokens;
        let starts = token_starts(s, i);
        if c == ' ' || c == '\r' || c == '\t' {
            lemma_newline_count_one(s, i);
            lemma_newline_count_split(s, 0, i, i + 1);
            lemma_token_lines_from(s, i + 1, line);
        } else if c == '\n' {
            lemma_newline_count_one(s, i);
            lemma_newline_count_split(s, 0, i, i + 1);
            lemma_token_lines_from(s, i + 1, line + 1);
        } else if !is_punct(c) && !(c == '!' || c == '=' || c == '<' || c == '>') && c != '"'
            && !is_digit(c) && !is_ident_start(c) {
            lemma_newline_count_one(s, i);
            lemma_newline_count_split(s, 0, i, i + 1);
            lemma_token_lines_from(s, i + 1, line);
        } else {
            // a token starting at i is emitted, then the scan goes on at j
            // with the line raised by the newlines inside the token
            let j: int = if is_punct(c) {
                i + 1
            } else if c == '!' || c == '=' || c == '<' || c == '>' {
                if i + 1 < s.len() && s[i + 1] == '=' {
                    i + 2
                } else {
                    i + 1
                }
            } else if c == '"' {
                let close = string_end(s, i + 1);
                if close < s.len() {
                    close + 1
                } else {
                    s.len() as int
                }
            } else if is_digit(c) {
                number_end(s, i)
            } else {
                ident_end(s, i)
            };
            let line2: nat = if c == '"' {
                line + newline_count(s, i + 1, string_end(s, i + 1))
            } else {
                line
            };
            let rest_toks: Seq<crate::token::SpecToken> = if c == '"' && string_end(s, i + 1)
                >= s.len() {
                Seq::<crate::token::SpecToken>::empty()
            } else {
                scan_from(s, j, line2).tokens
            };
            let rest_starts: Seq<int> = if c == '"' && string_end(s, i + 1) >= s.len() {
                Seq::<int>::empty()
            } else {
                token_starts(s, j)
            };
            // span facts: no newline outside a string's inside, so the line
            // entering the rest is again determined by its offset
            if is_punct(c) || (c == '!' || c == '=' || c == '<' || c == '>') {
                assert(forall|k: int| i <= k < j ==> s[k] != '\n');
                lemma_newline_count_zero(s, i, j);
                lemma_newline_count_split(s, 0, i, j);
            } else if c == '"' {
                let close = string_end(s, i + 1);
                lemma_string_end_bounds(s, i + 1);
                lemma_string_end_chars(s, i + 1);
                if close < s.len() {
                    lemma_newline_count_one(s, i);
                    lemma_newline_count_one(s, close);
                    lemma_newline_count_split(s, 0, i, j);
                    lemma_newline_count_split(s, i, i + 1, j);
                    lemma_newline_count_split(s, i + 1, close, j);
                }
            } else if is_digit(c) {
                lemma_number_end_bounds(s, i);
                lemma_digit_end_chars(s, i);
                let j0 = digit_end(s, i);
                lemma_digit_end_bounds(s, i);
                if j0 < s.len() && s[j0] == '.' && j0 + 1 < s.len() && is_digit(s[j0 + 1]) {
                    lemma_digit_end_chars(s, j0 + 1);
                    lemma_digit_end_bounds(s, j0 + 1);
                    assert(forall|k: int| i <= k < j ==> s[k] != '\n') by {
                        assert(forall|k: int| i <= k < j0 ==> is_digit(#[trigger] s[k]));
                        assert(forall|k: int| j0 + 1 <= k < j ==> is_digit(#[trigger] s[k]));
                    }
                } else {
                    assert(forall|k: int| i <= k < j ==> s[k] != '\n');
                }
                lemma_newline_count_zero(s, i, j);
                lemma_newline_count_split(s, 0, i, j);
            } else {
                assert(ident_end(s, i) == ident_end(s, i + 1));
                lemma_ident_end_bounds(s, i + 1);
                lemma_ident_end_chars(s, i);
                assert(forall|k: int| i <= k < j ==> s[k] != '\n');
                lemma_newline_count_zero(s, i, j);
                lemma_newline_count_split(s, 0, i, j);
            }
            if !(c == '"' && string_end(s, i + 1) >= s.len()) {
                lemma_token_lines_from(s, j, line2);
            }
            assert(toks.len() == 1 + rest_toks.len());
            assert(starts =~= seq![i] + rest_starts);
            assert(toks[0].line == line);
            assert forall|k: int| 0 <= k < starts.len() implies toks[k].line == 1
                + newline_count(s, 0, starts[k]) by {
                if k == 0 {
                    assert(starts[0] == i);
                    assert(toks[0].line == 1 + newline_count(s, 0, i));
                } else {
                    assert(starts[k] == rest_starts[k - 1]);
                    assert(toks[k] == rest_toks[k - 1]);
                    assert(rest_toks[k - 1].line == 1 + newline_count(s, 0, rest_starts[k - 1]));
                }
            }
        }
    }
}

/// Each token's line is one more than the number of newline characters that
/// stand strictly before the token's start offset.
pub proof fn lemma_token_lines(s: Seq<char>)
    ensures
        token_starts(s, 0).len() == scan_spec(s).tokens.len(),
        forall|k: int|
            0 <= k < token_starts(s, 0).len() ==> scan_spec(s).tokens[k].line == 1 + newline_count(
                s,
                0,
                token_starts(s, 0)[k],
            ),
{
    assert(newline_count(s, 0, 0) == 0);
    lemma_token_lines_from(s, 0, 1);
}

/// Concatenation: when the boundary characters cannot combine into a longer
/// lexeme and every string in the first part closes, scanning the
/// concatenation of two sources yields the tokens of the first followed by
/// the tokens of the second (the second scanned starting on the line where
/// the first ended), and an error occurs in the whole exactly when one
/// occurs in either part.
pub proof fn lemma_scan_concat(a: Seq<char>, b: Seq<char>)
    requires
        separable(a, b),
        strings_closed(a),
    ensures
        scan_spec(a + b).tokens == scan_spec(a).tokens + scan_from(b, 0, scan_spec(a).line).tokens,
        scan_spec(a + b).err == (scan_spec(a).err || scan_from(b, 0, scan_spec(a).line).err),
        scan_spec(a + b).line == scan_from(b, 0, scan_spec(a).line).line,
{
    lemma_scan_append_from(a, b, 0, 1);
}

} // verus!
