//! The scanner: one left-to-right pass over the characters of the source,
//! producing the token sequence that the parser consumes.

use vstd::prelude::*;
use crate::base_literal::{
    base_val, digit_index, repr, spec_from_int, valid_digits, chars_to_string, digit_index_of,
    encode_digits, str_chars, lemma_repr_valid, lemma_repr_val,
};
use crate::token::{Token, TokenModel, TokenType, token_models};
use vstd::string::StringExecFns;

verus! {

// ---------------------------------------------------------------------------
// Character classes
// ---------------------------------------------------------------------------

/// An ASCII decimal digit.
pub open spec fn is_digit(c: char) -> bool {
    48 <= c as int <= 57
}

/// An ASCII letter.
pub open spec fn is_alpha(c: char) -> bool {
    (65 <= c as int <= 90) || (97 <= c as int <= 122)
}

/// A character that may continue an identifier: ASCII alphanumeric or `_`.
pub open spec fn is_ident_char(c: char) -> bool {
    is_digit(c) || is_alpha(c) || c == '_'
}

/// A whitespace character (the Unicode `White_Space` set).
pub open spec fn is_space_char(c: char) -> bool {
    let x = c as int;
    x == 0x09 || x == 0x0A || x == 0x0B || x == 0x0C || x == 0x0D || x == 0x20 || x == 0x85 || x
        == 0xA0 || x == 0x1680 || (0x2000 <= x <= 0x200A) || x == 0x2028 || x == 0x2029 || x
        == 0x202F || x == 0x205F || x == 0x3000
}

/// The single-character punctuation and operator tokens.
pub open spec fn punct_kind(c: char) -> Option<TokenType> {
    if c == ';' {
        Some(TokenType::Semicolon)
    } else if c == ',' {
        Some(TokenType::Comma)
    } else if c == '{' {
        Some(TokenType::LBrace)
    } else if c == '}' {
        Some(TokenType::RBrace)
    } else if c == '(' {
        Some(TokenType::LParen)
    } else if c == ')' {
        Some(TokenType::RParen)
    } else if c == '=' {
        Some(TokenType::Assign)
    } else if c == '+' {
        Some(TokenType::Plus)
    } else if c == '-' {
        Some(TokenType::Minus)
    } else if c == '*' {
        Some(TokenType::Star)
    } else if c == '/' {
        Some(TokenType::Slash)
    } else if c == '<' {
        Some(TokenType::LessThan)
    } else if c == '>' {
        Some(TokenType::GreaterThan)
    } else if c == '!' {
        Some(TokenType::Not)
    } else if c == '@' {
        Some(TokenType::At)
    } else {
        None
    }
}

/// What an escape sequence stands for: `\n` and `\t` are newline and tab;
/// any other escaped character stands for itself.
pub open spec fn esc_char(c: char) -> char {
    if c == 'n' {
        '\n'
    } else if c == 't' {
        '\t'
    } else {
        c
    }
}

/// The kind of an identifier-looking word: one of the eight reserved words,
/// or a plain identifier.
pub open spec fn keyword_kind(w: Seq<char>) -> TokenType {
    if w == "fn"@ {
        TokenType::Function
    } else if w == "ret"@ {
        TokenType::Return
    } else if w == "if"@ {
        TokenType::If
    } else if w == "else"@ {
        TokenType::Else
    } else if w == "while"@ {
        TokenType::While
    } else if w == "loop"@ {
        TokenType::Loop
    } else if w == "break"@ {
        TokenType::Break
    } else if w == "continue"@ {
        TokenType::Continue
    } else {
        TokenType::Identifier
    }
}

// ---------------------------------------------------------------------------
// Maximal runs
// ---------------------------------------------------------------------------

/// The end of the run of decimal digits starting at `i`.
pub open spec fn scan_digits(s: Seq<char>, i: int) -> int
    decreases s.len() - i,
        when 0 <= i
{
    if i < s.len() && is_digit(s[i]) {
        scan_digits(s, i + 1)
    } else {
        i
    }
}

/// The end of the run, starting at `i`, of characters that are digits of
/// radix `base`.
pub open spec fn scan_base_digits(s: Seq<char>, i: int, base: int) -> int
    decreases s.len() - i,
        when 0 <= i
{
    if i < s.len() && 0 <= digit_index(s[i]) < base {
        scan_base_digits(s, i + 1, base)
    } else {
        i
    }
}

/// The end of the run of identifier characters starting at `i`.
pub open spec fn scan_ident(s: Seq<char>, i: int) -> int
    decreases s.len() - i,
        when 0 <= i
{
    if i < s.len() && is_ident_char(s[i]) {
        scan_ident(s, i + 1)
    } else {
        i
    }
}

/// The first newline at or after `i`, or the end of the input.
pub open spec fn scan_comment(s: Seq<char>, i: int) -> int
    decreases s.len() - i,
        when 0 <= i
{
    if i < s.len() && s[i] != '\n' {
        scan_comment(s, i + 1)
    } else {
        i
    }
}

/// The body of a text literal starting at `i` (just past the opening quote):
/// the unescaped content, and the position just past the closing quote. An
/// unterminated literal consumes to the end of the input.
pub open spec fn scan_text(s: Seq<char>, i: int) -> (Seq<char>, int)
    decreases s.len() - i,
        when 0 <= i
{
    if i >= s.len() {
        (Seq::empty(), i + 1)
    } else if s[i] == '"' {
        (Seq::empty(), i + 1)
    } else if s[i] == '\\' && i + 1 < s.len() {
        let rest = scan_text(s, i + 2);
        (seq![esc_char(s[i + 1])] + rest.0, rest.1)
    } else {
        let rest = scan_text(s, i + 1);
        (seq![s[i]] + rest.0, rest.1)
    }
}

/// The range and content of a digit run: everything in `[i, r)` is a digit
/// and `r` is the end of the input or a non-digit.
pub proof fn lemma_scan_digits(s: Seq<char>, i: int)
    requires
        0 <= i <= s.len(),
    ensures
        i <= scan_digits(s, i) <= s.len(),
        forall|k: int| i <= k < scan_digits(s, i) ==> is_digit(#[trigger] s[k]),
        scan_digits(s, i) == s.len() || !is_digit(s[scan_digits(s, i)]),
    decreases s.len() - i,
{
    if i < s.len() && is_digit(s[i]) {
        lemma_scan_digits(s, i + 1);
    }
}

/// A digit run is determined by its endpoints: if everything in `[i, j)` is
/// a digit and `j` ends the run, the scan from `i` stops exactly at `j`.
pub proof fn lemma_scan_digits_exact(s: Seq<char>, i: int, j: int)
    requires
        0 <= i <= j <= s.len(),
        forall|k: int| i <= k < j ==> is_digit(#[trigger] s[k]),
        j == s.len() || !is_digit(s[j]),
    ensures
        scan_digits(s, i) == j,
{
    lemma_scan_digits(s, i);
    let r = scan_digits(s, i);
    if r < j {
        assert(is_digit(s[r]));
    }
    if j < r {
        assert(is_digit(s[j]));
    }
}

/// The range and content of a radix-digit run.
pub proof fn lemma_scan_base_digits(s: Seq<char>, i: int, base: int)
    requires
        0 <= i <= s.len(),
    ensures
        i <= scan_base_digits(s, i, base) <= s.len(),
        forall|k: int|
            i <= k < scan_base_digits(s, i, base) ==> 0 <= #[trigger] digit_index(s[k]) < base,
        scan_base_digits(s, i, base) == s.len() || !(0 <= digit_index(
            s[scan_base_digits(s, i, base)],
        ) < base),
    decreases s.len() - i,
{
    if i < s.len() && 0 <= digit_index(s[i]) < base {
        lemma_scan_base_digits(s, i + 1, base);
    }
}

/// The range and content of an identifier run.
pub proof fn lemma_scan_ident(s: Seq<char>, i: int)
    requires
        0 <= i <= s.len(),
    ensures
        i <= scan_ident(s, i) <= s.len(),
        forall|k: int| i <= k < scan_ident(s, i) ==> is_ident_char(#[trigger] s[k]),
        scan_ident(s, i) == s.len() || !is_ident_char(s[scan_ident(s, i)]),
    decreases s.len() - i,
{
    if i < s.len() && is_ident_char(s[i]) {
        lemma_scan_ident(s, i + 1);
    }
}

/// The range of a comment scan.
pub proof fn lemma_scan_comment(s: Seq<char>, i: int)
    requires
        0 <= i <= s.len(),
    ensures
        i <= scan_comment(s, i) <= s.len(),
        scan_comment(s, i) == s.len() || s[scan_comment(s, i)] == '\n',
    decreases s.len() - i,
{
    if i < s.len() && s[i] != '\n' {
        lemma_scan_comment(s, i + 1);
    }
}

/// The range of a text-literal scan: it always moves past `i`, and past the
/// end of the input by at most one.
pub proof fn lemma_scan_text(s: Seq<char>, i: int)
    requires
        0 <= i <= s.len(),
    ensures
        i + 1 <= scan_text(s, i).1 <= s.len() + 1,
    decreases s.len() - i,
{
    if i >= s.len() {
    } else if s[i] == '"' {
    } else if s[i] == '\\' && i + 1 < s.len() {
        lemma_scan_text(s, i + 2);
    } else {
        lemma_scan_text(s, i + 1);
    }
}

// ---------------------------------------------------------------------------
// The scan, one token at a time
// ---------------------------------------------------------------------------

/// A lexical failure: a base literal whose written radix is outside 2..=64
/// (or does not fit), at the character offset of its opening `b`.
#[derive(Debug, Clone, Copy, PartialEq, Eq, Structural)]
pub enum LexError {
    InvalidBase { pos: usize },
}

/// What a scan yields: the remaining tokens, or a failure at an offset.
pub ghost enum LexOut {
    Toks(Seq<TokenModel>),
    Fail(int),
}

/// Prepends one token to a scan's outcome.
pub open spec fn lex_cons(t: TokenModel, rest: LexOut) -> LexOut {
    match rest {
        LexOut::Toks(ts) => LexOut::Toks(seq![t] + ts),
        LexOut::Fail(p) => LexOut::Fail(p),
    }
}

/// Prepends finished tokens to a scan's outcome.
pub open spec fn lex_append(ts: Seq<TokenModel>, rest: LexOut) -> LexOut {
    match rest {
        LexOut::Toks(us) => LexOut::Toks(ts + us),
        LexOut::Fail(p) => LexOut::Fail(p),
    }
}

/// A token model, briefly.
pub open spec fn mk_token(kind: TokenType, text: Seq<char>, pos: int) -> TokenModel {
    TokenModel { kind, text: Some(text), pos }
}

/// Whether the run starting at the `b` at `i` has the shape of a base
/// literal: decimal digits up to an `@`.
pub open spec fn base_lit_follows(s: Seq<char>, i: int) -> bool {
    scan_digits(s, i + 1) < s.len() && s[scan_digits(s, i + 1)] == '@'
}

/// The token stream of the source `s` from offset `i` on. One step per
/// token: a `b<digits>@` run makes a base literal (its digit body is the
/// maximal run in the written radix's alphabet window) or fails when the
/// radix is outside 2..=64; `#` consumes a comment up to its newline; a
/// newline is a token of its own while other whitespace is dropped; then
/// single-character punctuation, text literals, decimal number runs and
/// identifier/keyword runs; every other character is silently skipped. A
/// final end-of-input token closes the stream.
pub open spec fn spec_tokenize_from(s: Seq<char>, i: int) -> LexOut
    decreases s.len() - i,
        when 0 <= i
{
    if i >= s.len() {
        LexOut::Toks(seq![TokenModel { kind: TokenType::Eof, text: None, pos: s.len() as int }])
    } else {
        let c = s[i];
        if c == 'b' && base_lit_follows(s, i) {
            let j = scan_digits(s, i + 1);
            let b = base_val(s.subrange(i + 1, j), 10);
            if 2 <= b <= 64 {
                let k = scan_base_digits(s, j + 1, b);
                proof {
                    lemma_scan_digits(s, i + 1);
                    lemma_scan_base_digits(s, j + 1, b);
                }
                lex_cons(
                    mk_token(
                        TokenType::BaseLiteral,
                        spec_from_int(10, b) + seq!['@'] + s.subrange(j + 1, k),
                        i,
                    ),
                    spec_tokenize_from(s, k),
                )
            } else {
                LexOut::Fail(i)
            }
        } else if c == '#' {
            proof {
                lemma_scan_comment(s, i + 1);
            }
            spec_tokenize_from(s, scan_comment(s, i + 1))
        } else if is_space_char(c) {
            if c == '\n' {
                lex_cons(mk_token(TokenType::Newline, seq!['\n'], i), spec_tokenize_from(s, i + 1))
            } else {
                spec_tokenize_from(s, i + 1)
            }
        } else if punct_kind(c) is Some {
            lex_cons(mk_token(punct_kind(c)->0, seq![c], i), spec_tokenize_from(s, i + 1))
        } else if c == '"' {
            let body = scan_text(s, i + 1);
            proof {
                lemma_scan_text(s, i + 1);
            }
            if body.1 <= s.len() {
                lex_cons(mk_token(TokenType::Text, body.0, i), spec_tokenize_from(s, body.1))
            } else {
                lex_cons(
                    mk_token(TokenType::Text, body.0, i),
                    LexOut::Toks(
                        seq![TokenModel { kind: TokenType::Eof, text: None, pos: s.len() as int }],
                    ),
                )
            }
        } else if is_digit(c) {
            let j = scan_digits(s, i);
            proof {
                lemma_scan_digits(s, i);
            }
            lex_cons(
                mk_token(TokenType::Number, s.subrange(i, j), i),
                spec_tokenize_from(s, j),
            )
        } else if is_ident_char(c) {
            let j = scan_ident(s, i);
            proof {
                lemma_scan_ident(s, i);
            }
            lex_cons(
                mk_token(keyword_kind(s.subrange(i, j)), s.subrange(i, j), i),
                spec_tokenize_from(s, j),
            )
        } else {
            spec_tokenize_from(s, i + 1)
        }
    }
}

/// What the whole scan of `s` yields.
pub open spec fn spec_tokenize(s: Seq<char>) -> LexOut {
    spec_tokenize_from(s, 0)
}

// ---------------------------------------------------------------------------
// Well-formedness of the produced stream
// ---------------------------------------------------------------------------

/// The shape of a base-literal token's text: the radix written in decimal,
/// an `@`, and a digit body valid in that radix.
pub open spec fn base_text_wf(w: Seq<char>) -> bool {
    let j = scan_digits(w, 0);
    let b = base_val(w.subrange(0, j), 10);
    &&& 0 < j < w.len()
    &&& w[j] == '@'
    &&& 2 <= b <= 64
    &&& w.subrange(0, j) == spec_from_int(10, b)
    &&& valid_digits(w.subrange(j + 1, w.len() as int), b)
}

/// What the parser relies on of a single token: the token kinds whose text
/// it reads always carry one, and number and base-literal text decodes.
pub open spec fn token_wf(t: TokenModel) -> bool {
    match t.kind {
        TokenType::Number => t.text matches Some(w) && valid_digits(w, 10),
        TokenType::BaseLiteral => t.text matches Some(w) && base_text_wf(w),
        TokenType::Identifier => t.text is Some,
        TokenType::Text => t.text is Some,
        _ => true,
    }
}

/// There is an end-of-input token at or after `i`.
pub open spec fn has_eof_from(ts: Seq<TokenModel>, i: int) -> bool {
    exists|j: int| i <= j < ts.len() && #[trigger] ts[j].kind == TokenType::Eof
}

/// What the parser relies on of a token stream: every token is well formed
/// and an end-of-input token is present.
pub open spec fn tokens_wf(ts: Seq<TokenModel>) -> bool {
    &&& has_eof_from(ts, 0)
    &&& forall|k: int| 0 <= k < ts.len() ==> token_wf(#[trigger] ts[k])
}

/// Every successful scan yields a well-formed stream.
pub proof fn lemma_tokenize_wf(s: Seq<char>, i: int)
    requires
        0 <= i,
    ensures
        spec_tokenize_from(s, i) matches LexOut::Toks(ts) ==> tokens_wf(ts) && ts.len() >= 1,
    decreases s.len() - i,
{
    if i >= s.len() {
        let ts = seq![TokenModel { kind: TokenType::Eof, text: None, pos: s.len() as int }];
        assert(ts[0].kind == TokenType::Eof);
    } else {
        let c = s[i];
        if c == 'b' && base_lit_follows(s, i) {
            let j = scan_digits(s, i + 1);
            let b = base_val(s.subrange(i + 1, j), 10);
            if 2 <= b <= 64 {
                let k = scan_base_digits(s, j + 1, b);
                lemma_scan_digits(s, i + 1);
                lemma_scan_base_digits(s, j + 1, b);
                lemma_tokenize_wf(s, k);
                let w = spec_from_int(10, b) + seq!['@'] + s.subrange(j + 1, k);
                lemma_base_text_built(s, j, k, b);
                lemma_cons_wf(
                    mk_token(TokenType::BaseLiteral, w, i),
                    spec_tokenize_from(s, k),
                );
            }
        } else if c == '#' {
            lemma_scan_comment(s, i + 1);
            lemma_tokenize_wf(s, scan_comment(s, i + 1));
        } else if is_space_char(c) {
            lemma_tokenize_wf(s, i + 1);
            if c == '\n' {
                lemma_cons_wf(
                    mk_token(TokenType::Newline, seq!['\n'], i),
                    spec_tokenize_from(s, i + 1),
                );
            }
        } else if punct_kind(c) is Some {
            lemma_tokenize_wf(s, i + 1);
            lemma_cons_wf(mk_token(punct_kind(c)->0, seq![c], i), spec_tokenize_from(s, i + 1));
        } else if c == '"' {
            let body = scan_text(s, i + 1);
            lemma_scan_text(s, i + 1);
            if body.1 <= s.len() {
                lemma_tokenize_wf(s, body.1);
                lemma_cons_wf(mk_token(TokenType::Text, body.0, i), spec_tokenize_from(s, body.1));
            } else {
                let eofs = seq![
                    TokenModel { kind: TokenType::Eof, text: None, pos: s.len() as int },
                ];
                assert(eofs[0].kind == TokenType::Eof);
                lemma_cons_wf(mk_token(TokenType::Text, body.0, i), LexOut::Toks(eofs));
            }
        } else if is_digit(c) {
            let j = scan_digits(s, i);
            lemma_scan_digits(s, i);
            lemma_tokenize_wf(s, j);
            assert forall|k: int| 0 <= k < s.subrange(i, j).len() implies 0 <= #[trigger] digit_index(
                s.subrange(i, j)[k],
            ) < 10 by {
                assert(is_digit(s[i + k]));
            }
            lemma_cons_wf(
                mk_token(TokenType::Number, s.subrange(i, j), i),
                spec_tokenize_from(s, j),
            );
        } else if is_ident_char(c) {
            let j = scan_ident(s, i);
            lemma_scan_ident(s, i);
            lemma_tokenize_wf(s, j);
            lemma_cons_wf(
                mk_token(keyword_kind(s.subrange(i, j)), s.subrange(i, j), i),
                spec_tokenize_from(s, j),
            );
        } else {
            lemma_tokenize_wf(s, i + 1);
        }
    }
}

/// Prepending a well-formed token keeps a stream well formed.
proof fn lemma_cons_wf(t: TokenModel, rest: LexOut)
    requires
        token_wf(t),
        rest matches LexOut::Toks(ts) ==> tokens_wf(ts),
    ensures
        lex_cons(t, rest) matches LexOut::Toks(us) ==> tokens_wf(us) && us.len() >= 1,
{
    if let LexOut::Toks(ts) = rest {
        let us = seq![t] + ts;
        let j = choose|j: int| 0 <= j < ts.len() && #[trigger] ts[j].kind == TokenType::Eof;
        assert(us[j + 1].kind == TokenType::Eof);
        assert forall|k: int| 0 <= k < us.len() implies token_wf(#[trigger] us[k]) by {
            if k > 0 {
                assert(us[k] == ts[k - 1]);
            }
        }
    }
}

/// The text that the scanner writes for a base literal satisfies
/// `base_text_wf`: its digit prefix is exactly the radix in decimal.
proof fn lemma_base_text_built(s: Seq<char>, j: int, k: int, b: int)
    requires
        2 <= b <= 64,
        0 <= j,
        j + 1 <= k <= s.len(),
        forall|m: int| j + 1 <= m < k ==> 0 <= #[trigger] digit_index(s[m]) < b,
    ensures
        base_text_wf(spec_from_int(10, b) + seq!['@'] + s.subrange(j + 1, k)),
{
    let p = spec_from_int(10, b);
    let w = p + seq!['@'] + s.subrange(j + 1, k);
    lemma_repr_valid(10, b);
    lemma_repr_val(10, b);
    assert(p == repr(10, b));
    assert forall|m: int| 0 <= m < p.len() implies is_digit(#[trigger] w[m]) by {
        assert(w[m] == p[m]);
        assert(0 <= digit_index(p[m]) < 10);
    }
    assert(w[p.len() as int] == '@');
    assert(!is_digit('@'));
    lemma_scan_digits_exact(w, 0, p.len() as int);
    assert(w.subrange(0, p.len() as int) =~= p);
    assert(base_val(w.subrange(0, p.len() as int), 10) == b);
    assert(w.subrange(p.len() as int + 1, w.len() as int) =~= s.subrange(j + 1, k));
    assert forall|m: int| 0 <= m < w.subrange(p.len() as int + 1, w.len() as int).len() implies 0
        <= #[trigger] digit_index(w.subrange(p.len() as int + 1, w.len() as int)[m]) < b by {
        assert(w.subrange(p.len() as int + 1, w.len() as int)[m] == s[j + 1 + m]);
    }
}


// ---------------------------------------------------------------------------
// Executable character tests and runs
// ---------------------------------------------------------------------------

/// ASCII decimal digit test.
fn is_digit_c(c: char) -> (r: bool)
    ensures
        r == is_digit(c),
{
    let x = c as u32;
    48 <= x && x <= 57
}

/// Identifier-character test.
fn is_ident_c(c: char) -> (r: bool)
    ensures
        r == is_ident_char(c),
{
    let x = c as u32;
    (48 <= x && x <= 57) || (65 <= x && x <= 90) || (97 <= x && x <= 122) || x == 95
}

/// Whitespace test (the Unicode `White_Space` set).
pub(crate) fn is_space_c(c: char) -> (r: bool)
    ensures
        r == is_space_char(c),
{
    let x = c as u32;
    x == 0x09 || x == 0x0A || x == 0x0B || x == 0x0C || x == 0x0D || x == 0x20 || x == 0x85 || x
        == 0xA0 || x == 0x1680 || (0x2000 <= x && x <= 0x200A) || x == 0x2028 || x == 0x2029 || x
        == 0x202F || x == 0x205F || x == 0x3000
}

/// Whether `c` is a digit of radix `base`.
fn in_window(c: char, base: u64) -> (r: bool)
    ensures
        r == (0 <= digit_index(c) < base),
{
    let d = digit_index_of(c);
    if d < 0 {
        false
    } else {
        (d as u64) < base
    }
}

/// The single-character token kind of `c`, if any.
fn punct_of(c: char) -> (r: Option<TokenType>)
    ensures
        r == punct_kind(c),
{
    match c {
        ';' => Some(TokenType::Semicolon),
        ',' => Some(TokenType::Comma),
        '{' => Some(TokenType::LBrace),
        '}' => Some(TokenType::RBrace),
        '(' => Some(TokenType::LParen),
        ')' => Some(TokenType::RParen),
        '=' => Some(TokenType::Assign),
        '+' => Some(TokenType::Plus),
        '-' => Some(TokenType::Minus),
        '*' => Some(TokenType::Star),
        '/' => Some(TokenType::Slash),
        '<' => Some(TokenType::LessThan),
        '>' => Some(TokenType::GreaterThan),
        '!' => Some(TokenType::Not),
        '@' => Some(TokenType::At),
        _ => None,
    }
}

/// End of the decimal-digit run starting at `i`.
pub(crate) fn scan_digits_x(s: &Vec<char>, i: usize) -> (j: usize)
    requires
        i <= s@.len(),
    ensures
        j as int == scan_digits(s@, i as int),
        i <= j <= s@.len(),
{
    let n = s.len();
    let mut j = i;
    while j < n && is_digit_c(s[j])
        invariant
            i <= j <= n,
            n == s@.len(),
            scan_digits(s@, i as int) == scan_digits(s@, j as int),
        decreases n - j,
    {
        j += 1;
    }
    j
}

/// End of the radix-digit run starting at `i`.
fn scan_base_digits_x(s: &Vec<char>, i: usize, base: u64) -> (j: usize)
    requires
        i <= s@.len(),
    ensures
        j as int == scan_base_digits(s@, i as int, base as int),
        i <= j <= s@.len(),
{
    let n = s.len();
    let mut j = i;
    while j < n && in_window(s[j], base)
        invariant
            i <= j <= n,
            n == s@.len(),
            scan_base_digits(s@, i as int, base as int) == scan_base_digits(
                s@,
                j as int,
                base as int,
            ),
        decreases n - j,
    {
        j += 1;
    }
    j
}

/// End of the identifier run starting at `i`.
fn scan_ident_x(s: &Vec<char>, i: usize) -> (j: usize)
    requires
        i <= s@.len(),
    ensures
        j as int == scan_ident(s@, i as int),
        i <= j <= s@.len(),
{
    let n = s.len();
    let mut j = i;
    while j < n && is_ident_c(s[j])
        invariant
            i <= j <= n,
            n == s@.len(),
            scan_ident(s@, i as int) == scan_ident(s@, j as int),
        decreases n - j,
    {
        j += 1;
    }
    j
}

/// First newline at or after `i`, or the end of the input.
fn scan_comment_x(s: &Vec<char>, i: usize) -> (j: usize)
    requires
        i <= s@.len(),
    ensures
        j as int == scan_comment(s@, i as int),
        i <= j <= s@.len(),
{
    let n = s.len();
    let mut j = i;
    while j < n && s[j] != '\n'
        invariant
            i <= j <= n,
            n == s@.len(),
            scan_comment(s@, i as int) == scan_comment(s@, j as int),
        decreases n - j,
    {
        j += 1;
    }
    j
}

/// The body of a text literal starting at `start` (just past the opening
/// quote): the unescaped content and the position where scanning stopped —
/// the closing quote, or the end of an unterminated literal.
fn scan_text_x(s: &Vec<char>, start: usize) -> (r: (Vec<char>, usize))
    requires
        start <= s@.len(),
    ensures
        r.0@ == scan_text(s@, start as int).0,
        r.1 as int + 1 == scan_text(s@, start as int).1,
        start <= r.1 <= s@.len(),
{
    let n = s.len();
    let mut content: Vec<char> = Vec::new();
    let mut i = start;
    while i < n && s[i] != '"'
        invariant
            start <= i <= n,
            n == s@.len(),
            scan_text(s@, start as int).0 == content@ + scan_text(s@, i as int).0,
            scan_text(s@, start as int).1 == scan_text(s@, i as int).1,
        decreases n - i,
    {
        if s[i] == '\\' && i + 1 < n {
            let e = s[i + 1];
            let v = if e == 'n' {
                '\n'
            } else if e == 't' {
                '\t'
            } else {
                e
            };
            content.push(v);
            proof {
                assert(content@ + scan_text(s@, i + 2 as int).0 =~= content@.drop_last() + (seq![
                    esc_char(s@[i as int + 1]),
                ] + scan_text(s@, i + 2 as int).0));
            }
            i += 2;
        } else {
            content.push(s[i]);
            proof {
                assert(content@ + scan_text(s@, i + 1 as int).0 =~= content@.drop_last() + (seq![
                    s@[i as int],
                ] + scan_text(s@, i + 1 as int).0));
            }
            i += 1;
        }
    }
    proof {
        assert(scan_text(s@, i as int).0 =~= Seq::<char>::empty());
        assert(content@ + Seq::<char>::empty() =~= content@);
    }
    (content, i)
}

/// A copy of `s[from..to]`.
pub(crate) fn copy_range(s: &Vec<char>, from: usize, to: usize) -> (r: Vec<char>)
    requires
        from <= to <= s@.len(),
    ensures
        r@ == s@.subrange(from as int, to as int),
{
    let mut out: Vec<char> = Vec::new();
    let mut k = from;
    while k < to
        invariant
            from <= k <= to <= s@.len(),
            out@ == s@.subrange(from as int, k as int),
        decreases to - k,
    {
        out.push(s[k]);
        proof {
            assert(out@ =~= s@.subrange(from as int, k + 1 as int));
        }
        k += 1;
    }
    out
}

/// The decimal value of the digit run `s[from..to]`, capped at 65 so that a
/// written radix too large to matter never overflows.
pub(crate) fn decimal_capped(s: &Vec<char>, from: usize, to: usize) -> (b: u64)
    requires
        from <= to <= s@.len(),
        forall|k: int| from <= k < to ==> is_digit(#[trigger] s@[k]),
    ensures
        base_val(s@.subrange(from as int, to as int), 10) <= 64 ==> b == base_val(
            s@.subrange(from as int, to as int),
            10,
        ),
        base_val(s@.subrange(from as int, to as int), 10) > 64 ==> b == 65,
{
    let mut b: u64 = 0;
    let mut k = from;
    while k < to
        invariant
            from <= k <= to <= s@.len(),
            forall|m: int| from <= m < to ==> is_digit(#[trigger] s@[m]),
            base_val(s@.subrange(from as int, k as int), 10) <= 64 ==> b == base_val(
                s@.subrange(from as int, k as int),
                10,
            ),
            base_val(s@.subrange(from as int, k as int), 10) > 64 ==> b == 65,
            b <= 65,
        decreases to - k,
    {
        let ghost pre = s@.subrange(from as int, k as int);
        let ghost post = s@.subrange(from as int, k + 1 as int);
        proof {
            assert(is_digit(s@[k as int]));
            assert(post.drop_last() =~= pre);
            assert(post.last() == s@[k as int]);
            lemma_digit_nonneg_run(pre, 10);
        }
        let d = digit_index_of(s[k]);
        let du = d as u64;
        b = if b <= 64 {
            let t = b * 10 + du;
            if t > 64 {
                65
            } else {
                t
            }
        } else {
            65
        };
        k += 1;
    }
    proof {
        lemma_digit_nonneg_run(s@.subrange(from as int, to as int), 10);
    }
    b
}

/// A digit string made of valid digits has a nonnegative value.
proof fn lemma_digit_nonneg_run(s: Seq<char>, base: int)
    requires
        forall|m: int| 0 <= m < s.len() ==> is_digit(#[trigger] s[m]),
        base >= 10,
    ensures
        base_val(s, base) >= 0,
    decreases s.len(),
{
    if s.len() > 0 {
        assert(forall|m: int|
            0 <= m < s.drop_last().len() ==> is_digit(#[trigger] s.drop_last()[m]));
        lemma_digit_nonneg_run(s.drop_last(), base);
        assert(base_val(s.drop_last(), base) * base >= 0) by (nonlinear_arith)
            requires
                base_val(s.drop_last(), base) >= 0,
                base >= 10,
        ;
    }
}

/// The reserved-word kind of a word, or `Identifier`.
fn keyword_of(w: &String) -> (k: TokenType)
    ensures
        k == keyword_kind(w@),
{
    if w.eq(&String::from_str("fn")) {
        TokenType::Function
    } else if w.eq(&String::from_str("ret")) {
        TokenType::Return
    } else if w.eq(&String::from_str("if")) {
        TokenType::If
    } else if w.eq(&String::from_str("else")) {
        TokenType::Else
    } else if w.eq(&String::from_str("while")) {
        TokenType::While
    } else if w.eq(&String::from_str("loop")) {
        TokenType::Loop
    } else if w.eq(&String::from_str("break")) {
        TokenType::Break
    } else if w.eq(&String::from_str("continue")) {
        TokenType::Continue
    } else {
        TokenType::Identifier
    }
}

/// Prepending a finished token commutes with finishing it first.
proof fn lemma_append_cons(ts: Seq<TokenModel>, t: TokenModel, rest: LexOut)
    ensures
        lex_append(ts, lex_cons(t, rest)) == lex_append(ts.push(t), rest),
{
    match rest {
        LexOut::Toks(us) => {
            assert(ts + (seq![t] + us) =~= ts.push(t) + us);
        },
        LexOut::Fail(_) => {},
    }
}

/// Token models distribute over push.
proof fn lemma_models_push(ts: Seq<Token>, t: Token)
    ensures
        token_models(ts.push(t)) == token_models(ts).push(t@),
{
    assert(token_models(ts.push(t)) =~= token_models(ts).push(t@));
}

// ---------------------------------------------------------------------------
// The scanner
// ---------------------------------------------------------------------------

/// Scans the whole source into its token stream, as `spec_tokenize` gives
/// it; fails only on a base literal whose written radix is outside 2..=64.
/// The produced stream is well formed and ends with an end-of-input token.
#[verifier::rlimit(100)]
pub fn tokenize(source: &str) -> (r: Result<Vec<Token>, LexError>)
    ensures
        match r {
            Ok(toks) => spec_tokenize(source@) == LexOut::Toks(token_models(toks@)) && tokens_wf(
                token_models(toks@),
            ),
            Err(e) => e matches LexError::InvalidBase { pos } && spec_tokenize(source@)
                == LexOut::Fail(pos as int),
        },
{
    let s = str_chars(source);
    let n = s.len();
    let mut tokens: Vec<Token> = Vec::new();
    let mut i: usize = 0;
    while i < n
        invariant
            n == s@.len(),
            s@ == source@,
            i <= n,
            spec_tokenize_from(s@, 0) == lex_append(
                token_models(tokens@),
                spec_tokenize_from(s@, i as int),
            ),
        decreases n - i,
    {
        let ghost i0 = i as int;
        let ghost toks0 = tokens@;
        let ghost pre = token_models(tokens@);
        let c = s[i];

        let mut base_j: usize = 0;
        let mut is_baselit = false;
        if c == 'b' {
            let j = scan_digits_x(&s, i + 1);
            if j < n && s[j] == '@' {
                base_j = j;
                is_baselit = true;
            }
        }
        proof {
            assert(is_baselit == (c == 'b' && base_lit_follows(s@, i0)));
        }

        if is_baselit {
            let j = base_j;
            proof {
                lemma_scan_digits(s@, i0 + 1);
            }
            let bcap = decimal_capped(&s, i + 1, j);
            let ghost bv = base_val(s@.subrange(i0 + 1, j as int), 10);
            if 2 <= bcap && bcap <= 64 {
                let k = scan_base_digits_x(&s, j + 1, bcap);
                let text0 = encode_digits(10, bcap);
                let mut text = text0;
                text.push('@');
                proof {
                    assert(bv == bcap as int);
                    assert(text@ =~= spec_from_int(10, bv) + seq!['@']);
                }
                let body = copy_range(&s, j + 1, k);
                let ghost mid = text@;
                let mut m: usize = 0;
                let bl = body.len();
                while m < bl
                    invariant
                        bl == body@.len(),
                        m <= bl,
                        text@ == mid + body@.subrange(0, m as int),
                    decreases bl - m,
                {
                    text.push(body[m]);
                    proof {
                        assert(text@ =~= mid + body@.subrange(0, m + 1 as int));
                    }
                    m += 1;
                }
                proof {
                    assert(body@.subrange(0, bl as int) =~= body@);
                }
                let value = chars_to_string(&text);
                let tok = Token::new(TokenType::BaseLiteral, Some(value), i);
                proof {
                    assert(text@ =~= spec_from_int(10, bv) + seq!['@'] + s@.subrange(
                        j as int + 1,
                        k as int,
                    ));
                    assert(tok@ == mk_token(
                        TokenType::BaseLiteral,
                        spec_from_int(10, bv) + seq!['@'] + s@.subrange(j as int + 1, k as int),
                        i0,
                    ));
                    assert(spec_tokenize_from(s@, i0) == lex_cons(
                        tok@,
                        spec_tokenize_from(s@, k as int),
                    ));
                    lemma_append_cons(pre, tok@, spec_tokenize_from(s@, k as int));
                }
                tokens.push(tok);
                proof {
                    lemma_models_push(toks0, tok);
                }
                i = k;
            } else {
                proof {
                    assert(bv < 2 || bv > 64);
                    assert(spec_tokenize_from(s@, i0) == LexOut::Fail(i0));
                }
                return Err(LexError::InvalidBase { pos: i });
            }
        } else if c == '#' {
            let j = scan_comment_x(&s, i + 1);
            proof {
                assert(spec_tokenize_from(s@, i0) == spec_tokenize_from(s@, j as int));
            }
            i = j;
        } else if is_space_c(c) {
            if c == '\n' {
                let mut nl: Vec<char> = Vec::new();
                nl.push('\n');
                let value = chars_to_string(&nl);
                let tok = Token::new(TokenType::Newline, Some(value), i);
                proof {
                    assert(nl@ =~= seq!['\n']);
                    assert(tok@ == mk_token(TokenType::Newline, seq!['\n'], i0));
                    assert(spec_tokenize_from(s@, i0) == lex_cons(
                        tok@,
                        spec_tokenize_from(s@, i0 + 1),
                    ));
                    lemma_append_cons(pre, tok@, spec_tokenize_from(s@, i0 + 1));
                }
                tokens.push(tok);
                proof {
                    lemma_models_push(toks0, tok);
                }
            }
            i = i + 1;
        } else {
            let pk = punct_of(c);
            if let Some(kind) = pk {
                let mut pv: Vec<char> = Vec::new();
                pv.push(c);
                let value = chars_to_string(&pv);
                let tok = Token::new(kind, Some(value), i);
                proof {
                    assert(pv@ =~= seq![c]);
                    assert(tok@ == mk_token(punct_kind(c)->0, seq![c], i0));
                    assert(spec_tokenize_from(s@, i0) == lex_cons(
                        tok@,
                        spec_tokenize_from(s@, i0 + 1),
                    ));
                    lemma_append_cons(pre, tok@, spec_tokenize_from(s@, i0 + 1));
                }
                tokens.push(tok);
                proof {
                    lemma_models_push(toks0, tok);
                }
                i = i + 1;
            } else if c == '"' {
                let body = scan_text_x(&s, i + 1);
                let content = body.0;
                let qpos = body.1;
                let value = chars_to_string(&content);
                let tok = Token::new(TokenType::Text, Some(value), i);
                proof {
                    assert(tok@ == mk_token(TokenType::Text, scan_text(s@, i0 + 1).0, i0));
                }
                if qpos < n {
                    proof {
                        assert(spec_tokenize_from(s@, i0) == lex_cons(
                            tok@,
                            spec_tokenize_from(s@, qpos as int + 1),
                        ));
                        lemma_append_cons(pre, tok@, spec_tokenize_from(s@, qpos as int + 1));
                    }
                    tokens.push(tok);
                    proof {
                        lemma_models_push(toks0, tok);
                    }
                    i = qpos + 1;
                } else {
                    // Unterminated literal: the scan consumed the whole input.
                    proof {
                        assert(spec_tokenize_from(s@, i0) == lex_cons(
                            tok@,
                            LexOut::Toks(
                                seq![
                                    TokenModel {
                                        kind: TokenType::Eof,
                                        text: None,
                                        pos: s@.len() as int,
                                    },
                                ],
                            ),
                        ));
                        assert(spec_tokenize_from(s@, n as int) == LexOut::Toks(
                            seq![
                                TokenModel {
                                    kind: TokenType::Eof,
                                    text: None,
                                    pos: s@.len() as int,
                                },
                            ],
                        ));
                        lemma_append_cons(pre, tok@, spec_tokenize_from(s@, n as int));
                    }
                    tokens.push(tok);
                    proof {
                        lemma_models_push(toks0, tok);
                    }
                    i = n;
                }
            } else if is_digit_c(c) {
                let j = scan_digits_x(&s, i);
                proof {
                    lemma_scan_digits(s@, i0);
                }
                let word = copy_range(&s, i, j);
                let value = chars_to_string(&word);
                let tok = Token::new(TokenType::Number, Some(value), i);
                proof {
                    assert(tok@ == mk_token(TokenType::Number, s@.subrange(i0, j as int), i0));
                    assert(spec_tokenize_from(s@, i0) == lex_cons(
                        tok@,
                        spec_tokenize_from(s@, j as int),
                    ));
                    lemma_append_cons(pre, tok@, spec_tokenize_from(s@, j as int));
                }
                tokens.push(tok);
                proof {
                    lemma_models_push(toks0, tok);
                }
                i = j;
            } else if is_ident_c(c) {
                let j = scan_ident_x(&s, i);
                proof {
                    lemma_scan_ident(s@, i0);
                }
                let word = copy_range(&s, i, j);
                let value = chars_to_string(&word);
                let kind = keyword_of(&value);
                let tok = Token::new(kind, Some(value), i);
                proof {
                    assert(tok@ == mk_token(
                        keyword_kind(s@.subrange(i0, j as int)),
                        s@.subrange(i0, j as int),
                        i0,
                    ));
                    assert(spec_tokenize_from(s@, i0) == lex_cons(
                        tok@,
                        spec_tokenize_from(s@, j as int),
                    ));
                    lemma_append_cons(pre, tok@, spec_tokenize_from(s@, j as int));
                }
                tokens.push(tok);
                proof {
                    lemma_models_push(toks0, tok);
                }
                i = j;
            } else {
                proof {
                    assert(spec_tokenize_from(s@, i0) == spec_tokenize_from(s@, i0 + 1));
                }
                i = i + 1;
            }
        }
    }
    let eof = Token::new(TokenType::Eof, None, n);
    proof {
        assert(spec_tokenize_from(s@, n as int) == LexOut::Toks(
            seq![TokenModel { kind: TokenType::Eof, text: None, pos: s@.len() as int }],
        ));
        assert(token_models(tokens@).push(eof@) =~= token_models(tokens@) + seq![
            TokenModel { kind: TokenType::Eof, text: None, pos: s@.len() as int },
        ]);
        lemma_tokenize_wf(s@, 0);
    }
    let ghost toksf = tokens@;
    tokens.push(eof);
    proof {
        lemma_models_push(toksf, eof);
    }
    Ok(tokens)
}

} // verus!
