//! The parser: recursive descent with one token of lookahead and no error
//! recovery — the first unexpected token aborts the whole parse.

use vstd::prelude::*;
use crate::ast::{Node, NodeModel, node_model, node_models, lemma_node_models_push, node_wf, nodes_wf, lemma_nodes_wf_push};
use crate::base_literal::{
    BaseLiteral, base_val, spec_lower, lemma_lower_valid, str_chars, chars_to_string,
};
use crate::token::{Token, TokenModel, TokenType, token_models};
use crate::tokenizer::{
    base_text_wf, has_eof_from, lemma_scan_digits, scan_digits, token_wf, tokens_wf, copy_range,
    decimal_capped, scan_digits_x,
};
use vstd::pervasive::unreached;

verus! {

/// A fatal parse failure: the token that could not stand where it does, and
/// its character offset.
#[derive(Debug, Clone, Copy, PartialEq, Eq, Structural)]
pub enum ParseError {
    UnexpectedToken { found: TokenType, pos: usize },
}

/// What parsing one expression yields: a node and the index of the next
/// unconsumed token, or the offending token.
pub ghost enum PResult {
    Node { n: NodeModel, next: int },
    Fail { found: TokenType, pos: int },
}

/// What parsing a call's argument list yields.
pub ghost enum ArgsOut {
    Done { args: Seq<NodeModel>, next: int },
    Fail { found: TokenType, pos: int },
}

/// What parsing a whole statement sequence yields.
pub ghost enum ParseOut {
    Nodes(Seq<NodeModel>),
    Fail { found: TokenType, pos: int },
}

/// The text a token carries.
pub open spec fn text_of(t: TokenModel) -> Seq<char> {
    match t.text {
        Some(w) => w,
        None => Seq::empty(),
    }
}

/// Failure at the token standing at `i`.
pub open spec fn fail_at(ts: Seq<TokenModel>, i: int) -> PResult {
    PResult::Fail { found: ts[i].kind, pos: ts[i].pos }
}

/// One optional statement terminator: a semicolon or newline at `j` is
/// consumed, anything else is left alone.
pub open spec fn opt_term(ts: Seq<TokenModel>, j: int) -> int {
    if 0 <= j < ts.len() && (ts[j].kind == TokenType::Semicolon || ts[j].kind
        == TokenType::Newline) {
        j + 1
    } else {
        j
    }
}

/// Prepends a finished statement to a parse's outcome.
pub open spec fn parse_cons(m: NodeModel, rest: ParseOut) -> ParseOut {
    match rest {
        ParseOut::Nodes(ns) => ParseOut::Nodes(seq![m] + ns),
        ParseOut::Fail { found, pos } => ParseOut::Fail { found, pos },
    }
}

/// Prepends finished statements to a parse's outcome.
pub open spec fn parse_append(ns: Seq<NodeModel>, rest: ParseOut) -> ParseOut {
    match rest {
        ParseOut::Nodes(ms) => ParseOut::Nodes(ns + ms),
        ParseOut::Fail { found, pos } => ParseOut::Fail { found, pos },
    }
}

/// A primary expression: a decimal number, a base literal, a variable, a
/// call, a parenthesised expression, or a text literal; anything else is the
/// offending token. Numerals are case-folded exactly as construction folds
/// them.
pub open spec fn spec_primary(ts: Seq<TokenModel>, i: int) -> PResult
    decreases ts.len() - i, 0int,
        when 0 <= i
{
    if i >= ts.len() {
        PResult::Fail { found: TokenType::Eof, pos: i }
    } else {
    let t = ts[i];
    if t.kind == TokenType::Number {
        PResult::Node {
            n: NodeModel::BaseLiteral { base: 10, digits: spec_lower(text_of(t)) },
            next: i + 1,
        }
    } else if t.kind == TokenType::BaseLiteral {
        let w = text_of(t);
        let j = scan_digits(w, 0);
        let b = base_val(w.subrange(0, j), 10);
        PResult::Node {
            n: NodeModel::BaseLiteral {
                base: b,
                digits: spec_lower(w.subrange(j + 1, w.len() as int)),
            },
            next: i + 1,
        }
    } else if t.kind == TokenType::Identifier {
        if i + 1 < ts.len() && ts[i + 1].kind == TokenType::LParen {
            if i + 2 < ts.len() && ts[i + 2].kind == TokenType::RParen {
                PResult::Node {
                    n: NodeModel::Call { name: text_of(t), args: Seq::empty() },
                    next: i + 3,
                }
            } else {
                match spec_call_args(ts, i + 2, Seq::empty()) {
                    ArgsOut::Done { args, next } => PResult::Node {
                        n: NodeModel::Call { name: text_of(t), args },
                        next,
                    },
                    ArgsOut::Fail { found, pos } => PResult::Fail { found, pos },
                }
            }
        } else {
            PResult::Node { n: NodeModel::Var { name: text_of(t) }, next: i + 1 }
        }
    } else if t.kind == TokenType::LParen {
        match spec_expression(ts, i + 1) {
            PResult::Node { n, next } => if 0 <= next < ts.len() && ts[next].kind
                == TokenType::RParen {
                PResult::Node { n, next: next + 1 }
            } else {
                fail_at(ts, next)
            },
            PResult::Fail { found, pos } => PResult::Fail { found, pos },
        }
    } else if t.kind == TokenType::Text {
        PResult::Node { n: NodeModel::Text { text: text_of(t) }, next: i + 1 }
    } else {
        fail_at(ts, i)
    }
    }
}

/// A comma-separated argument list, one expression at a time, closed by `)`.
pub open spec fn spec_call_args(ts: Seq<TokenModel>, i: int, acc: Seq<NodeModel>) -> ArgsOut
    decreases ts.len() - i, 6int,
        when 0 <= i
{
    match spec_expression(ts, i) {
        PResult::Fail { found, pos } => ArgsOut::Fail { found, pos },
        PResult::Node { n, next } => if 0 <= next < ts.len() && ts[next].kind
            == TokenType::Comma {
            if next >= i {
                spec_call_args(ts, next + 1, acc.push(n))
            } else {
                ArgsOut::Fail { found: ts[i].kind, pos: ts[i].pos }
            }
        } else if 0 <= next < ts.len() && ts[next].kind == TokenType::RParen {
            ArgsOut::Done { args: acc.push(n), next: next + 1 }
        } else {
            ArgsOut::Fail { found: ts[next].kind, pos: ts[next].pos }
        },
    }
}

/// The left-associative run of `*` and `/` continuing a factor.
pub open spec fn spec_factor_more(ts: Seq<TokenModel>, acc: NodeModel, i: int) -> PResult
    decreases ts.len() - i, 1int,
        when 0 <= i
{
    let t = ts[i];
    if i < ts.len() && (t.kind == TokenType::Star || t.kind == TokenType::Slash) {
        match spec_primary(ts, i + 1) {
            PResult::Fail { found, pos } => PResult::Fail { found, pos },
            PResult::Node { n, next } => if i < next <= ts.len() {
                spec_factor_more(
                    ts,
                    NodeModel::BinOp { op: t.kind, left: Box::new(acc), right: Box::new(n) },
                    next,
                )
            } else {
                fail_at(ts, i)
            },
        }
    } else {
        PResult::Node { n: acc, next: i }
    }
}

/// A factor: a primary followed by `*` and `/` continuations.
pub open spec fn spec_factor(ts: Seq<TokenModel>, i: int) -> PResult
    decreases ts.len() - i, 2int,
        when 0 <= i
{
    match spec_primary(ts, i) {
        PResult::Fail { found, pos } => PResult::Fail { found, pos },
        PResult::Node { n, next } => if i < next <= ts.len() {
            spec_factor_more(ts, n, next)
        } else {
            fail_at(ts, i)
        },
    }
}

/// The left-associative run of `+` and `-` continuing a term.
pub open spec fn spec_term_more(ts: Seq<TokenModel>, acc: NodeModel, i: int) -> PResult
    decreases ts.len() - i, 3int,
        when 0 <= i
{
    let t = ts[i];
    if i < ts.len() && (t.kind == TokenType::Plus || t.kind == TokenType::Minus) {
        match spec_factor(ts, i + 1) {
            PResult::Fail { found, pos } => PResult::Fail { found, pos },
            PResult::Node { n, next } => if i < next <= ts.len() {
                spec_term_more(
                    ts,
                    NodeModel::BinOp { op: t.kind, left: Box::new(acc), right: Box::new(n) },
                    next,
                )
            } else {
                fail_at(ts, i)
            },
        }
    } else {
        PResult::Node { n: acc, next: i }
    }
}

/// A term: a factor followed by `+` and `-` continuations.
pub open spec fn spec_term(ts: Seq<TokenModel>, i: int) -> PResult
    decreases ts.len() - i, 4int,
        when 0 <= i
{
    match spec_factor(ts, i) {
        PResult::Fail { found, pos } => PResult::Fail { found, pos },
        PResult::Node { n, next } => if i < next <= ts.len() {
            spec_term_more(ts, n, next)
        } else {
            fail_at(ts, i)
        },
    }
}

/// An expression is a term: the grammar has no lower-precedence level.
pub open spec fn spec_expression(ts: Seq<TokenModel>, i: int) -> PResult
    decreases ts.len() - i, 5int,
        when 0 <= i
{
    spec_term(ts, i)
}

/// The statement sequence from `i` on: newlines and semicolons between
/// statements are skipped; an identifier directly followed by `=` starts an
/// assignment; anything else is one expression statement; each statement may
/// be closed by one semicolon or newline. The sequence ends at end-of-input.
pub open spec fn spec_parse_stmts(ts: Seq<TokenModel>, i: int) -> ParseOut
    decreases ts.len() - i, 7int,
        when 0 <= i
{
    if i >= ts.len() {
        ParseOut::Nodes(Seq::empty())
    } else {
        let t = ts[i];
        if t.kind == TokenType::Eof {
            ParseOut::Nodes(Seq::empty())
        } else if t.kind == TokenType::Newline || t.kind == TokenType::Semicolon {
            spec_parse_stmts(ts, i + 1)
        } else if t.kind == TokenType::Identifier && i + 1 < ts.len() && ts[i + 1].kind
            == TokenType::Assign {
            match spec_expression(ts, i + 2) {
                PResult::Fail { found, pos } => ParseOut::Fail { found, pos },
                PResult::Node { n, next } => {
                    let after = opt_term(ts, next);
                    if i < after <= ts.len() {
                        parse_cons(
                            NodeModel::Assign { name: text_of(t), value: Box::new(n) },
                            spec_parse_stmts(ts, after),
                        )
                    } else {
                        ParseOut::Fail { found: t.kind, pos: t.pos }
                    }
                },
            }
        } else {
            match spec_expression(ts, i) {
                PResult::Fail { found, pos } => ParseOut::Fail { found, pos },
                PResult::Node { n, next } => {
                    let after = opt_term(ts, next);
                    if i < after <= ts.len() {
                        parse_cons(n, spec_parse_stmts(ts, after))
                    } else {
                        ParseOut::Fail { found: t.kind, pos: t.pos }
                    }
                },
            }
        }
    }
}

/// Prepending a finished statement commutes with finishing it first.
proof fn lemma_parse_append_cons(ns: Seq<NodeModel>, m: NodeModel, rest: ParseOut)
    ensures
        parse_append(ns, parse_cons(m, rest)) == parse_append(ns.push(m), rest),
{
    match rest {
        ParseOut::Nodes(ms) => {
            assert(ns + (seq![m] + ms) =~= ns.push(m) + ms);
        },
        ParseOut::Fail { .. } => {},
    }
}

} // verus!

verus! {

// ---------------------------------------------------------------------------
// The parser itself
// ---------------------------------------------------------------------------

/// A recursive-descent parser over a scanned token stream.
pub struct Parser {
    pub tokens: Vec<Token>,
    pub pos: usize,
}

impl Parser {
    /// The stream models.
    pub open spec fn ms(self) -> Seq<TokenModel> {
        token_models(self.tokens@)
    }

    /// What parsing relies on: a well-formed stream with an end-of-input
    /// token still ahead of the cursor.
    pub open spec fn wf(self) -> bool {
        &&& tokens_wf(token_models(self.tokens@))
        &&& has_eof_from(token_models(self.tokens@), self.pos as int)
    }

    /// Wraps a token stream, positioned at its start. The stream must be
    /// well formed, as `tokenize` produces it; without a terminating
    /// end-of-input token, parsing would run off the end of the stream.
    pub fn new(tokens: Vec<Token>) -> (r: Parser)
        requires
            tokens_wf(token_models(tokens@)),
        ensures
            r.wf(),
            r.tokens@ == tokens@,
            r.pos == 0,
    {
        Parser { tokens, pos: 0 }
    }

    /// The kind of the token under the cursor.
    fn cur_kind(&self) -> (k: TokenType)
        requires
            self.wf(),
        ensures
            k == self.ms()[self.pos as int].kind,
    {
        self.tokens[self.pos].ttype
    }

    /// The source offset of the token under the cursor.
    fn cur_pos(&self) -> (p: usize)
        requires
            self.wf(),
        ensures
            p as int == self.ms()[self.pos as int].pos,
    {
        self.tokens[self.pos].pos
    }

    /// A copy of the text of the token under the cursor, if it carries one.
    fn cur_text(&self) -> (r: Option<String>)
        requires
            self.wf(),
        ensures
            match self.ms()[self.pos as int].text {
                Some(w) => r matches Some(s) && s@ == w,
                None => r is None,
            },
    {
        match &self.tokens[self.pos].value {
            Some(s) => Some(s.clone()),
            None => None,
        }
    }

    /// Moves past the token under the cursor, which must not be the
    /// end-of-input token.
    fn advance(&mut self)
        requires
            old(self).wf(),
            old(self).ms()[old(self).pos as int].kind != TokenType::Eof,
        ensures
            final(self).wf(),
            final(self).tokens@ == old(self).tokens@,
            final(self).pos == old(self).pos + 1,
    {
        proof {
            let ms = token_models(self.tokens@);
            let j = choose|j: int|
                self.pos <= j < ms.len() && #[trigger] ms[j].kind == TokenType::Eof;
            assert(self.pos + 1 <= j < ms.len() && ms[j].kind == TokenType::Eof);
        }
        let n = self.tokens.len();
        proof {
            assert(self.pos < n);
        }
        self.pos = self.pos + 1;
    }

    /// Consumes the token under the cursor when its kind is `a` or `b`,
    /// handing back a copy; leaves the cursor alone otherwise.
    fn match_type(&mut self, a: TokenType, b: TokenType) -> (r: Option<Token>)
        requires
            old(self).wf(),
            a != TokenType::Eof,
            b != TokenType::Eof,
        ensures
            final(self).wf(),
            final(self).tokens@ == old(self).tokens@,
            ({
                let t = old(self).ms()[old(self).pos as int];
                if t.kind == a || t.kind == b {
                    r matches Some(tk) && tk@ == t && final(self).pos == old(self).pos + 1
                } else {
                    r is None && final(self).pos == old(self).pos
                }
            }),
    {
        let kind = self.cur_kind();
        if kind == a || kind == b {
            let value = self.cur_text();
            let pos = self.cur_pos();
            self.advance();
            Some(Token { ttype: kind, value, pos })
        } else {
            None
        }
    }

    /// Consumes the token under the cursor when its kind is `ttype`; any
    /// other kind is the fatal error of the unexpected token.
    fn expect(&mut self, ttype: TokenType) -> (r: Result<Token, ParseError>)
        requires
            old(self).wf(),
            ttype != TokenType::Eof,
        ensures
            final(self).wf(),
            final(self).tokens@ == old(self).tokens@,
            ({
                let t = old(self).ms()[old(self).pos as int];
                if t.kind == ttype {
                    r matches Ok(tk) && tk@ == t && final(self).pos == old(self).pos + 1
                } else {
                    r == Err::<Token, ParseError>(
                        ParseError::UnexpectedToken { found: t.kind, pos: old(self).tokens@[old(self).pos as int].pos },
                    ) && final(self).pos == old(self).pos
                }
            }),
    {
        let kind = self.cur_kind();
        if kind == ttype {
            let value = self.cur_text();
            let pos = self.cur_pos();
            self.advance();
            Ok(Token { ttype: kind, value, pos })
        } else {
            Err(ParseError::UnexpectedToken { found: kind, pos: self.tokens[self.pos].pos })
        }
    }
}

} // verus!

verus! {

impl Parser {
    /// One primary expression, as `spec_primary` gives it.
    fn parse_primary(&mut self) -> (r: Result<Node, ParseError>)
        requires
            old(self).wf(),
        ensures
            final(self).wf(),
            final(self).tokens@ == old(self).tokens@,
            match spec_primary(old(self).ms(), old(self).pos as int) {
                PResult::Node { n, next } => r matches Ok(node) && node@ == n && node_wf(n)
                    && final(self).pos as int == next && old(self).pos < final(self).pos,
                PResult::Fail { found, pos } => r matches Err(e) && e matches
                    ParseError::UnexpectedToken { found: f, pos: p } && f == found && p as int
                    == pos,
            },
        decreases self.tokens@.len() - self.pos, 0int,
    {
        let ghost ms = token_models(self.tokens@);
        let ghost i0 = self.pos as int;
        proof {
            assert(token_wf(ms[i0]));
        }
        let kind = self.cur_kind();
        if kind == TokenType::Number {
            let text = match self.cur_text() {
                Some(t) => t,
                None => unreached(),
            };
            self.advance();
            match BaseLiteral::new(10, text.as_str()) {
                Ok(b) => {
                    proof {
                        lemma_lower_valid(text_of(ms[i0]), 10);
                        assert(node_wf(node_model(Node::BaseLiteral(b))));
                    }
                    Ok(Node::BaseLiteral(b))
                },
                Err(_) => {
                    proof {
                        lemma_lower_valid(text_of(ms[i0]), 10);
                    }
                    unreached()
                },
            }
        } else if kind == TokenType::BaseLiteral {
            let text = match self.cur_text() {
                Some(t) => t,
                None => unreached(),
            };
            self.advance();
            let cs = str_chars(text.as_str());
            proof {
                assert(base_text_wf(text@));
                lemma_scan_digits(text@, 0);
            }
            let j = scan_digits_x(&cs, 0);
            let b64 = decimal_capped(&cs, 0, j);
            let ghost bv = base_val(text@.subrange(0, j as int), 10);
            proof {
                assert(2 <= bv <= 64);
                assert(b64 == bv);
            }
            let base = b64 as u32;
            let body = copy_range(&cs, j + 1, cs.len());
            let raws = chars_to_string(&body);
            match BaseLiteral::new(base, raws.as_str()) {
                Ok(bl) => {
                    proof {
                        lemma_lower_valid(text@.subrange(j as int + 1, text@.len() as int), bv);
                        assert(node_wf(node_model(Node::BaseLiteral(bl))));
                    }
                    Ok(Node::BaseLiteral(bl))
                },
                Err(_) => {
                    proof {
                        lemma_lower_valid(text@.subrange(j as int + 1, text@.len() as int), bv);
                    }
                    unreached()
                },
            }
        } else if kind == TokenType::Identifier {
            let name = match self.cur_text() {
                Some(t) => t,
                None => unreached(),
            };
            self.advance();
            if self.cur_kind() == TokenType::LParen {
                self.advance();
                if self.cur_kind() == TokenType::RParen {
                    self.advance();
                    let node = Node::Call { name, args: Vec::new() };
                    proof {
                        assert(crate::ast::node_models(Seq::<Node>::empty())
                            =~= Seq::<NodeModel>::empty());
                        assert(nodes_wf(Seq::<NodeModel>::empty()));
                        assert(node_wf(node_model(node)));
                    }
                    Ok(node)
                } else {
                    let mut args: Vec<Node> = Vec::new();
                    proof {
                        assert(crate::ast::node_models(Seq::<Node>::empty())
                            =~= Seq::<NodeModel>::empty());
                    }
                    match self.parse_call_args(&mut args) {
                        Ok(_) => {
                            let node = Node::Call { name, args };
                            proof {
                                assert(node_wf(node_model(node)));
                            }
                            Ok(node)
                        },
                        Err(e) => Err(e),
                    }
                }
            } else {
                Ok(Node::Var(name))
            }
        } else if kind == TokenType::LParen {
            self.advance();
            let e = match self.parse_expression() {
                Ok(e) => e,
                Err(er) => {
                    return Err(er);
                },
            };
            match self.expect(TokenType::RParen) {
                Ok(_) => Ok(e),
                Err(er) => Err(er),
            }
        } else if kind == TokenType::Text {
            let text = match self.cur_text() {
                Some(t) => t,
                None => unreached(),
            };
            self.advance();
            Ok(Node::Text(text))
        } else {
            Err(ParseError::UnexpectedToken { found: kind, pos: self.cur_pos() })
        }
    }

    /// The comma-separated argument expressions of a call, pushed in order
    /// onto `args`, with the closing parenthesis consumed.
    fn parse_call_args(&mut self, args: &mut Vec<Node>) -> (r: Result<(), ParseError>)
        requires
            old(self).wf(),
            nodes_wf(crate::ast::node_models(old(args)@)),
        ensures
            final(self).wf(),
            final(self).tokens@ == old(self).tokens@,
            match spec_call_args(
                old(self).ms(),
                old(self).pos as int,
                crate::ast::node_models(old(args)@),
            ) {
                ArgsOut::Done { args: a, next } => r is Ok && crate::ast::node_models(
                    final(args)@,
                ) == a && nodes_wf(a) && final(self).pos as int == next && old(self).pos < final(self).pos,
                ArgsOut::Fail { found, pos } => r matches Err(e) && e matches
                    ParseError::UnexpectedToken { found: f, pos: p } && f == found && p as int
                    == pos,
            },
        decreases self.tokens@.len() - self.pos, 6int,
    {
        let ghost ms = token_models(self.tokens@);
        let ghost i0 = self.pos as int;
        let ghost acc0 = crate::ast::node_models(args@);
        let e = match self.parse_expression() {
            Ok(e) => e,
            Err(er) => {
                return Err(er);
            },
        };
        if self.match_type(TokenType::Comma, TokenType::Comma).is_some() {
            args.push(e);
            proof {
                lemma_node_models_push(old(args)@, e);
                lemma_nodes_wf_push(crate::ast::node_models(old(args)@), e@);
            }
            self.parse_call_args(args)
        } else {
            match self.expect(TokenType::RParen) {
                Ok(_) => {
                    args.push(e);
                    proof {
                        lemma_node_models_push(old(args)@, e);
                        lemma_nodes_wf_push(crate::ast::node_models(old(args)@), e@);
                    }
                    Ok(())
                },
                Err(er) => Err(er),
            }
        }
    }

    /// One factor: a primary and its `*`/`/` continuations, as `spec_factor`
    /// gives it.
    #[verifier::loop_isolation(false)]
    fn parse_factor(&mut self) -> (r: Result<Node, ParseError>)
        requires
            old(self).wf(),
        ensures
            final(self).wf(),
            final(self).tokens@ == old(self).tokens@,
            match spec_factor(old(self).ms(), old(self).pos as int) {
                PResult::Node { n, next } => r matches Ok(node) && node@ == n && node_wf(n)
                    && final(self).pos as int == next && old(self).pos < final(self).pos,
                PResult::Fail { found, pos } => r matches Err(e) && e matches
                    ParseError::UnexpectedToken { found: f, pos: p } && f == found && p as int
                    == pos,
            },
        decreases self.tokens@.len() - self.pos, 2int,
    {
        let ghost ms = token_models(self.tokens@);
        let ghost i0 = self.pos as int;
        let ghost target = spec_factor(ms, i0);
        let mut node = match self.parse_primary() {
            Ok(n) => n,
            Err(er) => {
                return Err(er);
            },
        };
        while self.cur_kind() == TokenType::Star || self.cur_kind() == TokenType::Slash
            invariant
                self.wf(),
                self.tokens@ == old(self).tokens@,
                i0 < self.pos as int <= self.tokens@.len(),
                node_wf(node@),
                target == spec_factor_more(ms, node@, self.pos as int),
                ms == token_models(self.tokens@),
            decreases self.tokens@.len() - self.pos,
        {
            let op = self.cur_kind();
            self.advance();
            let right = match self.parse_primary() {
                Ok(r) => r,
                Err(er) => {
                    return Err(er);
                },
            };
            node = Node::BinOp { op, left: Box::new(node), right: Box::new(right) };
        }
        Ok(node)
    }

    /// One term: a factor and its `+`/`-` continuations, as `spec_term`
    /// gives it.
    #[verifier::loop_isolation(false)]
    fn parse_term(&mut self) -> (r: Result<Node, ParseError>)
        requires
            old(self).wf(),
        ensures
            final(self).wf(),
            final(self).tokens@ == old(self).tokens@,
            match spec_term(old(self).ms(), old(self).pos as int) {
                PResult::Node { n, next } => r matches Ok(node) && node@ == n && node_wf(n)
                    && final(self).pos as int == next && old(self).pos < final(self).pos,
                PResult::Fail { found, pos } => r matches Err(e) && e matches
                    ParseError::UnexpectedToken { found: f, pos: p } && f == found && p as int
                    == pos,
            },
        decreases self.tokens@.len() - self.pos, 4int,
    {
        let ghost ms = token_models(self.tokens@);
        let ghost i0 = self.pos as int;
        let ghost target = spec_term(ms, i0);
        let mut node = match self.parse_factor() {
            Ok(n) => n,
            Err(er) => {
                return Err(er);
            },
        };
        while self.cur_kind() == TokenType::Plus || self.cur_kind() == TokenType::Minus
            invariant
                self.wf(),
                self.tokens@ == old(self).tokens@,
                i0 < self.pos as int <= self.tokens@.len(),
                node_wf(node@),
                target == spec_term_more(ms, node@, self.pos as int),
                ms == token_models(self.tokens@),
            decreases self.tokens@.len() - self.pos,
        {
            let op = self.cur_kind();
            self.advance();
            let right = match self.parse_factor() {
                Ok(r) => r,
                Err(er) => {
                    return Err(er);
                },
            };
            node = Node::BinOp { op, left: Box::new(node), right: Box::new(right) };
        }
        Ok(node)
    }

    /// One expression, as `spec_expression` gives it.
    fn parse_expression(&mut self) -> (r: Result<Node, ParseError>)
        requires
            old(self).wf(),
        ensures
            final(self).wf(),
            final(self).tokens@ == old(self).tokens@,
            match spec_expression(old(self).ms(), old(self).pos as int) {
                PResult::Node { n, next } => r matches Ok(node) && node@ == n && node_wf(n)
                    && final(self).pos as int == next && old(self).pos < final(self).pos,
                PResult::Fail { found, pos } => r matches Err(e) && e matches
                    ParseError::UnexpectedToken { found: f, pos: p } && f == found && p as int
                    == pos,
            },
        decreases self.tokens@.len() - self.pos, 5int,
    {
        self.parse_term()
    }

    /// The whole statement sequence, as `spec_parse_stmts` gives it: the
    /// top-level nodes in source order, or the first unexpected token.
    #[verifier::loop_isolation(false)]
    #[verifier::rlimit(60)]
    pub fn parse(&mut self) -> (r: Result<Vec<Node>, ParseError>)
        requires
            old(self).wf(),
        ensures
            final(self).wf(),
            final(self).tokens@ == old(self).tokens@,
            match spec_parse_stmts(old(self).ms(), old(self).pos as int) {
                ParseOut::Nodes(ns) => r matches Ok(nodes) && crate::ast::node_models(nodes@)
                    == ns && nodes_wf(ns),
                ParseOut::Fail { found, pos } => r matches Err(e) && e matches
                    ParseError::UnexpectedToken { found: f, pos: p } && f == found && p as int
                    == pos,
            },
    {
        let ghost ms = token_models(self.tokens@);
        let ghost target = spec_parse_stmts(ms, self.pos as int);
        let mut results: Vec<Node> = Vec::new();
        while self.cur_kind() != TokenType::Eof
            invariant
                self.wf(),
                self.tokens@ == old(self).tokens@,
                ms == token_models(self.tokens@),
                target == parse_append(
                    crate::ast::node_models(results@),
                    spec_parse_stmts(ms, self.pos as int),
                ),
                nodes_wf(crate::ast::node_models(results@)),
            decreases self.tokens@.len() - self.pos,
        {
            let ghost i0 = self.pos as int;
            let ghost res0 = results@;
            if self.match_type(TokenType::Newline, TokenType::Semicolon).is_some() {
                proof {
                    assert(spec_parse_stmts(ms, i0) == spec_parse_stmts(ms, i0 + 1));
                }
            } else {
                let mut did = false;
                let idtok = self.match_type(TokenType::Identifier, TokenType::Identifier);
                if let Some(id) = idtok {
                    if self.cur_kind() == TokenType::Assign {
                        self.advance();
                        let e = match self.parse_expression() {
                            Ok(e) => e,
                            Err(er) => {
                                return Err(er);
                            },
                        };
                        let name = match id.value {
                            Some(v) => v,
                            None => unreached(),
                        };
                        let node = Node::Assign { name, value: Box::new(e) };
                        self.match_type(TokenType::Semicolon, TokenType::Newline);
                        results.push(node);
                        proof {
                            lemma_node_models_push(res0, node);
                            lemma_nodes_wf_push(crate::ast::node_models(res0), node@);
                            lemma_parse_append_cons(
                                crate::ast::node_models(res0),
                                node@,
                                spec_parse_stmts(ms, self.pos as int),
                            );
                        }
                        did = true;
                    } else {
                        proof {
                            let j = choose|j: int|
                                self.pos <= j < ms.len() && #[trigger] ms[j].kind
                                    == TokenType::Eof;
                            assert(self.pos - 1 <= j < ms.len());
                        }
                        self.pos = self.pos - 1;
                    }
                }
                if !did {
                    let e = match self.parse_expression() {
                        Ok(e) => e,
                        Err(er) => {
                            return Err(er);
                        },
                    };
                    self.match_type(TokenType::Semicolon, TokenType::Newline);
                    results.push(e);
                    proof {
                        lemma_node_models_push(res0, e);
                        lemma_nodes_wf_push(crate::ast::node_models(res0), e@);
                        lemma_parse_append_cons(
                            crate::ast::node_models(res0),
                            e@,
                            spec_parse_stmts(ms, self.pos as int),
                        );
                    }
                }
            }
        }
        proof {
            assert(spec_parse_stmts(ms, self.pos as int) == ParseOut::Nodes(
                Seq::<NodeModel>::empty(),
            ));
            assert(crate::ast::node_models(results@) + Seq::<NodeModel>::empty()
                =~= crate::ast::node_models(results@));
        }
        Ok(results)
    }
}

} // verus!
