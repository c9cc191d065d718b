//! The parser: tokens to a tree of S-expressions, by recursive descent.
//!
//! ```text
//! program := expr*
//! expr    := atom | '(' expr* ')'
//! atom    := Identifier | StringLit | Number
//! ```

use vstd::prelude::*;
use crate::ast::{AST, AstV, ast_views, lemma_expr_view};
use crate::error::{Error, ErrorKind};
use crate::lexer::{Lexer, Lexeme, Token, lexeme_at, lexeme_end, lexeme_of};
use crate::pos::{Pos, Range};
use crate::text::{owned, push_str, push_char};

verus! {

/// Whether a token can start an expression.
pub open spec fn starts_expr(t: Token) -> bool {
    t is Lparen || t is Identifier || t is StringLit || t is Number
}

/// Whether the node `a` is the one that an expression starting with token
/// `t` gives: the same atom with its range, or an expression for a left
/// parenthesis.
pub open spec fn node_for(t: Token, a: AST) -> bool {
    match t {
        Token::Identifier(r, s) => a matches AST::Identifier(q, x) && q == r && x@ == s@,
        Token::StringLit(r, s) => a matches AST::StringLit(q, x) && q == r && x@ == s@,
        Token::Number(r, n) => a matches AST::Number(q, m) && q == r && m == n,
        Token::Lparen(_) => a is Expr,
        _ => false,
    }
}

pub open spec fn starts_expr_lexeme(x: Lexeme) -> bool {
    x is Lparen || x is Identifier || x is StringLit || x is Number
}

/// The expression that starts with the token read at `i`, and the index
/// after its last token; `None` where it is malformed.
pub open spec fn parse_expr(cs: Seq<char>, i: nat) -> Option<(AstV, nat)>
    decreases cs.len() - i, 0nat,
{
    let j = lexeme_end(cs, i);
    match lexeme_at(cs, i) {
        Lexeme::Identifier(s) => Some((AstV::Ident(s), j)),
        Lexeme::StringLit(s) => Some((AstV::Str(s), j)),
        Lexeme::Number(n) => Some((AstV::Number(n), j)),
        Lexeme::Lparen => if j <= i || j > cs.len() {
            None
        } else {
            match parse_children(cs, j) {
                Some((kids, k)) => Some((AstV::Expr(kids), lexeme_end(cs, k))),
                None => None,
            }
        },
        _ => None,
    }
}

/// The expressions from the token read at `i` up to a right parenthesis,
/// comments skipped, and the index the right parenthesis is read from.
pub open spec fn parse_children(cs: Seq<char>, i: nat) -> Option<(Seq<AstV>, nat)>
    decreases cs.len() - i, 1nat,
{
    let x = lexeme_at(cs, i);
    let j = lexeme_end(cs, i);
    if x is Rparen {
        Some((Seq::empty(), i))
    } else if x is Comment {
        if j <= i || j > cs.len() {
            None
        } else {
            parse_children(cs, j)
        }
    } else if starts_expr_lexeme(x) {
        match parse_expr(cs, i) {
            Some((e, k)) => if k <= i || k > cs.len() {
                None
            } else {
                match parse_children(cs, k) {
                    Some((rest, m)) => Some((seq![e] + rest, m)),
                    None => None,
                }
            },
            None => None,
        }
    } else {
        None
    }
}

/// The expressions of the text from the token read at `i` to the end,
/// comments skipped.
pub open spec fn parse_program(cs: Seq<char>, i: nat) -> Option<Seq<AstV>>
    decreases cs.len() - i,
{
    let x = lexeme_at(cs, i);
    let j = lexeme_end(cs, i);
    if x is Eof {
        Some(Seq::empty())
    } else if x is Comment {
        if j <= i || j > cs.len() {
            None
        } else {
            parse_program(cs, j)
        }
    } else if starts_expr_lexeme(x) {
        match parse_expr(cs, i) {
            Some((e, k)) => if k <= i || k > cs.len() {
                None
            } else {
                match parse_program(cs, k) {
                    Some(rest) => Some(seq![e] + rest),
                    None => None,
                }
            },
            None => None,
        }
    } else {
        None
    }
}

/// Whether the place `p` holds a left parenthesis.
pub open spec fn opens_at(cs: Seq<char>, p: Pos) -> bool {
    0 <= p.src_index < cs.len() && cs[p.src_index as int] == '('
}

/// Whether a message names an expression by a range that starts at a
/// left parenthesis: `expression at R` or `expression spanning R`.
pub open spec fn names_open_paren(cs: Seq<char>, m: Seq<char>) -> bool {
    exists|rg: Range| opens_at(cs, rg.start)
        && (m == "expression at "@ + crate::pos::range_text(rg) || m == "expression spanning "@ + crate::pos::range_text(rg))
}

/// `o` with `kids` put in front of its expressions.
pub open spec fn prepend_kids(kids: Seq<AstV>, o: Option<(Seq<AstV>, nat)>) -> Option<(Seq<AstV>, nat)> {
    match o {
        Some((rest, m)) => Some((kids + rest, m)),
        None => None,
    }
}

pub open spec fn prepend_prog(kids: Seq<AstV>, o: Option<Seq<AstV>>) -> Option<Seq<AstV>> {
    match o {
        Some(rest) => Some(kids + rest),
        None => None,
    }
}

/// "`position`: `message`".
fn parse_error(pos: &Range, message: &str) -> (r: String)
    ensures
        r@ == crate::pos::range_text(*pos) + ": "@ + message@,
{
    let mut s = pos.text();
    push_str(&mut s, ": ");
    push_str(&mut s, message);
    s
}

pub struct Parser {
    pub lexer: Lexer,
    pub current_tok: Token,
    /// The index the current token was read from.
    pub tok_at: Ghost<nat>,
}

impl Parser {
    pub open spec fn wf(&self) -> bool {
        &&& self.lexer.wf()
        &&& self.tok_at@ <= self.lexer.pos
        &&& !(self.current_tok is Start) ==> {
            &&& lexeme_of(self.current_tok) == lexeme_at(self.lexer.chars@, self.tok_at@)
            &&& !(lexeme_of(self.current_tok) is Error) ==> self.lexer.pos == lexeme_end(self.lexer.chars@, self.tok_at@)
            &&& self.current_tok is Eof ==> self.lexer.pos == self.lexer.chars@.len()
            &&& !(self.current_tok is Eof) ==> self.lexer.pos > self.tok_at@
            &&& self.current_tok is Lparen ==> opens_at(self.lexer.chars@, self.current_tok->Lparen_0.start)
        }
    }

    /// What is left to read: twice the characters left, and one more while
    /// the current token is not the end.
    pub open spec fn left(&self) -> int {
        2 * (self.lexer.chars@.len() - self.lexer.pos) + if self.current_tok is Eof {
            0int
        } else {
            1int
        }
    }

    pub fn new(lexer: Lexer) -> (r: Parser)
        requires
            lexer.wf(),
        ensures
            r.wf(),
            r.lexer == lexer,
            r.current_tok is Start,
    {
        Parser { lexer, current_tok: Token::Start, tok_at: Ghost(lexer.pos as nat) }
    }

    /// Parses the whole text: a sequence of expressions up to the end.
    pub fn parse(&mut self) -> (r: Result<Vec<AST>, Error>)
        requires
            old(self).wf(),
        ensures
            final(self).wf(),
            r is Ok ==> final(self).current_tok is Eof,
            r matches Err(e) ==> e.kind == ErrorKind::Syntax,
            match parse_program(old(self).lexer.chars@, old(self).lexer.pos as nat) {
                Some(v) => r matches Ok(t) && ast_views(t@) == v,
                None => r is Err,
            },
            r matches Err(e) ==> (e.context@.len() > 0 ==> names_open_paren(old(self).lexer.chars@, e.context@.last()@)),
    {
        let ghost cs = self.lexer.chars@;
        let ghost p0 = self.lexer.pos as nat;
        self.next();
        let mut ast: Vec<AST> = Vec::new();
        proof {
            if let Some(rest) = parse_program(cs, p0) {
                assert(ast_views(ast@) + rest =~= rest);
            }
        }
        loop
            invariant
                self.wf(),
                !(self.current_tok is Start),
                cs == self.lexer.chars@,
                cs == old(self).lexer.chars@,
                p0 == old(self).lexer.pos,
                parse_program(cs, p0) == prepend_prog(ast_views(ast@), parse_program(cs, self.tok_at@)),
            ensures
                self.wf(),
                self.current_tok is Eof,
                parse_program(cs, p0) == Some(ast_views(ast@)),
            decreases self.left(),
        {
            match &self.current_tok {
                Token::Identifier(r, _) | Token::StringLit(r, _) | Token::Lparen(r) | Token::Number(r, _) => {
                    let start = r.start;
                    let ghost before = ast_views(ast@);
                    let ghost t0 = self.tok_at@;
                    let ghost was_paren = self.current_tok is Lparen;
                    match self.expr() {
                        Ok(e) => {
                            ast.push(e);
                            proof {
                                assert(ast_views(ast@) =~= before.push(e@));
                                if let Some(rest) = parse_program(cs, self.tok_at@) {
                                    assert(before + (seq![e@] + rest) =~= before.push(e@) + rest);
                                }
                            }
                        },
                        Err(e) => {
                            assert(parse_program(cs, t0) is None);
                            assert(was_paren);
                            let end = self.lexer.range.end;
                            let mut m = if start == end {
                                owned("expression at ")
                            } else {
                                owned("expression spanning ")
                            };
                            let rg = Range::new(start, end);
                            let t = rg.text();
                            push_str(&mut m, t.as_str());
                            assert(opens_at(cs, rg.start));
                            assert(names_open_paren(cs, m@));
                            return Err(e.chain(m));
                        },
                    }
                },
                Token::Comment(_, _) => {
                    self.next();
                },
                Token::Eof(_) => {
                    assert(ast_views(ast@) + Seq::<AstV>::empty() =~= ast_views(ast@));
                    break;
                },
                Token::Unknown(r, _) => {
                    assert(parse_program(cs, self.tok_at@) is None);
                    let u = self.unexpected_token("left paren, identifier, string literal, or comment");
                    return Err(Error::of(ErrorKind::Syntax, parse_error(r, u.as_str())));
                },
                Token::Error(r, s) => {
                    assert(parse_program(cs, self.tok_at@) is None);
                    let mut m = owned("lexer error: ");
                    push_str(&mut m, s.as_str());
                    return Err(Error::of(ErrorKind::Syntax, parse_error(r, m.as_str())));
                },
                t => {
                    assert(parse_program(cs, self.tok_at@) is None);
                    let u = self.unexpected_token("left paren, identifier, string literal, or comment");
                    let r = t.range();
                    return Err(Error::of(ErrorKind::Syntax, parse_error(&r, u.as_str())));
                },
            }
        }
        Ok(ast)
    }

    /// Parses one expression, starting at the current token.
    fn expr(&mut self) -> (r: Result<AST, Error>)
        requires
            old(self).wf(),
            starts_expr(old(self).current_tok),
        ensures
            final(self).wf(),
            final(self).lexer.chars == old(self).lexer.chars,
            final(self).lexer.pos >= old(self).lexer.pos,
            !(final(self).current_tok is Eof) ==> final(self).lexer.pos > old(self).lexer.pos,
            !(final(self).current_tok is Start),
            r matches Ok(a) ==> node_for(old(self).current_tok, a),
            r matches Err(e) ==> e.kind == ErrorKind::Syntax,
            match parse_expr(old(self).lexer.chars@, old(self).tok_at@) {
                Some((v, j)) => r matches Ok(a) && a@ == v && final(self).tok_at@ == j,
                None => r is Err,
            },
            r is Ok ==> final(self).tok_at@ > old(self).tok_at@,
        decreases old(self).lexer.chars@.len() - old(self).lexer.pos,
    {
        let start = self.lexer.range.start;
        let expr = match &self.current_tok {
            Token::Identifier(r, id) => AST::Identifier(*r, id.clone()),
            Token::StringLit(r, s) => AST::StringLit(*r, s.clone()),
            Token::Number(r, n) => AST::Number(*r, *n),
            _ => {
                let ghost p0 = self.lexer.pos;
                let ghost cs = self.lexer.chars@;
                let ghost j0 = self.lexer.pos as nat;
                let mut exprs: Vec<AST> = Vec::new();
                self.next();
                proof {
                    assert(ast_views(exprs@) + Seq::<AstV>::empty() =~= Seq::<AstV>::empty());
                    if let Some((rest, m)) = parse_children(cs, j0) {
                        assert(ast_views(exprs@) + rest =~= rest);
                    }
                }
                while self.is_expr_start() || self.is_comment()
                    invariant
                        self.wf(),
                        self.lexer.chars == old(self).lexer.chars,
                        cs == self.lexer.chars@,
                        self.lexer.pos >= p0,
                        p0 == old(self).lexer.pos,
                        !(self.current_tok is Eof) ==> self.lexer.pos > p0,
                        !(self.current_tok is Start),
                        self.tok_at@ >= j0,
                        j0 > old(self).tok_at@,
                        j0 == old(self).lexer.pos,
                        parse_expr(cs, old(self).tok_at@) == match parse_children(cs, j0) {
                            Some((kids, k)) => Some((AstV::Expr(kids), lexeme_end(cs, k))),
                            None => None::<(AstV, nat)>,
                        },
                        parse_children(cs, j0) == prepend_kids(ast_views(exprs@), parse_children(cs, self.tok_at@)),
                    decreases self.left(),
                {
                    if self.is_comment() {
                        let ghost t0 = self.tok_at@;
                        self.next();
                        assert(parse_children(cs, t0) == parse_children(cs, self.tok_at@));
                    } else {
                        let ghost t0 = self.tok_at@;
                        let ghost before = ast_views(exprs@);
                        match self.expr() {
                            Ok(e) => {
                                exprs.push(e);
                                proof {
                                    assert(ast_views(exprs@) =~= before.push(e@));
                                    if let Some((rest, m)) = parse_children(cs, self.tok_at@) {
                                        assert(before + (seq![e@] + rest) =~= before.push(e@) + rest);
                                    }
                                }
                            },
                            Err(e) => {
                                return Err(e.chain(owned("invalid expression")));
                            },
                        }
                    }
                }
                match &self.current_tok {
                    Token::Error(_, s) => {
                        return Err(Error::of(ErrorKind::Syntax, s.clone()));
                    },
                    Token::Unknown(r, c) => {
                        let mut m = owned("syntax error: unexpected character ");
                        push_char(&mut m, *c);
                        return Err(Error::of(ErrorKind::Syntax, parse_error(r, m.as_str())));
                    },
                    Token::Rparen(_) => {},
                    _ => {
                        let u = self.unexpected_token(
                            "left paren, identifier, string literal, number, or right paren",
                        );
                        return Err(Error::of(ErrorKind::Syntax, u));
                    },
                }
                let end = self.lexer.range.end;
                let range = Range::new(start, end);
                proof {
                    lemma_expr_view(range, exprs);
                    assert(ast_views(exprs@) + Seq::<AstV>::empty() =~= ast_views(exprs@));
                }
                AST::Expr(range, exprs)
            },
        };
        self.next();
        Ok(expr)
    }

    fn is_comment(&self) -> (r: bool)
        ensures
            r == (self.current_tok is Comment),
    {
        match self.current_tok {
            Token::Comment(_, _) => true,
            _ => false,
        }
    }

    /// Whether the current token can start an expression.
    fn is_expr_start(&self) -> (r: bool)
        ensures
            r == starts_expr(self.current_tok),
    {
        match self.current_tok {
            Token::Lparen(_) | Token::Identifier(_, _) | Token::StringLit(_, _) | Token::Number(_, _) => true,
            _ => false,
        }
    }

    /// "unexpected `token` at `range`: expected `expected`".
    fn unexpected_token(&self, expected: &str) -> (r: String)
        ensures
            r@ == "unexpected "@ + crate::lexer::token_text(self.current_tok) + " at "@
                + crate::pos::range_text(crate::lexer::token_range(self.current_tok)) + ": expected "@ + expected@,
    {
        let mut m = owned("unexpected ");
        let d = self.current_tok.describe();
        push_str(&mut m, d.as_str());
        push_str(&mut m, " at ");
        let t = self.current_tok.range().text();
        push_str(&mut m, t.as_str());
        push_str(&mut m, ": expected ");
        push_str(&mut m, expected);
        m
    }

    /// Reads the next token.
    fn next(&mut self)
        requires
            old(self).wf(),
        ensures
            final(self).tok_at@ == old(self).lexer.pos,
            lexeme_of(final(self).current_tok) == lexeme_at(old(self).lexer.chars@, old(self).lexer.pos as nat),
            final(self).wf(),
            final(self).lexer.chars == old(self).lexer.chars,
            final(self).lexer.pos >= old(self).lexer.pos,
            !(final(self).current_tok is Eof) ==> final(self).lexer.pos > old(self).lexer.pos,
            final(self).current_tok is Eof ==> final(self).lexer.pos == final(self).lexer.chars@.len(),
            !(final(self).current_tok is Start),
    {
        self.tok_at = Ghost(self.lexer.pos as nat);
        self.current_tok = self.lexer.next_token();
    }
}

} // verus!
