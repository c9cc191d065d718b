//! The lexer: characters to positioned tokens, with one character of
//! lookahead.

use vstd::prelude::*;
use crate::num::{Num, make};
use crate::pos::{Pos, Range};
use crate::text::{chars_of, push_char, owned};

verus! {

#[derive(Debug)]
pub enum Token {
    /// No token read yet.
    Start,
    Eof(Range),
    Lparen(Range),
    Rparen(Range),
    Identifier(Range, String),
    StringLit(Range, String),
    Number(Range, Num),
    Comment(Range, String),
    Unknown(Range, char),
    Error(Range, String),
}

impl Token {
    pub fn is_rparen(&self) -> (r: bool)
        ensures
            r == (self is Rparen),
    {
        match self {
            Token::Rparen(_) => true,
            _ => false,
        }
    }

    /// The range the token covers; the start of a file for `None`.
    pub fn range(&self) -> (r: Range)
        ensures
            r == token_range(*self),
    {
        match self {
            Token::Lparen(r) => *r,
            Token::Rparen(r) => *r,
            Token::Identifier(r, _) => *r,
            Token::StringLit(r, _) => *r,
            Token::Number(r, _) => *r,
            Token::Comment(r, _) => *r,
            Token::Unknown(r, _) => *r,
            Token::Error(r, _) => *r,
            Token::Eof(r) => *r,
            Token::Start => Range::new(Pos::start(), Pos::start()),
        }
    }
}

pub open spec fn start_pos() -> Pos {
    Pos { src_index: -1i64, line_index: 0i64, col_index: -1i64 }
}

pub open spec fn token_range(t: Token) -> Range {
    match t {
        Token::Lparen(r) => r,
        Token::Rparen(r) => r,
        Token::Identifier(r, _) => r,
        Token::StringLit(r, _) => r,
        Token::Number(r, _) => r,
        Token::Comment(r, _) => r,
        Token::Unknown(r, _) => r,
        Token::Error(r, _) => r,
        Token::Eof(r) => r,
        Token::Start => Range { start: start_pos(), end: start_pos() },
    }
}

pub open spec fn is_ws(c: char) -> bool {
    c == ' ' || c == '\t' || c == '\r' || c == '\n'
}

pub open spec fn is_digit(c: char) -> bool {
    '0' <= c <= '9'
}

/// Characters that may start an identifier: printable ASCII but for
/// parentheses, the double quote, digits and space.
pub open spec fn is_ident_start(c: char) -> bool {
    ('*' <= c <= '/') || (':' <= c <= '~') || c == '!' || ('#' <= c <= '\'')
}

/// Characters that may continue an identifier: as those that start one,
/// and digits.
pub open spec fn is_ident_char(c: char) -> bool {
    ('*' <= c <= '~') || c == '!' || ('#' <= c <= '\'')
}

/// Characters that may follow a number.
pub open spec fn is_terminator(c: char) -> bool {
    is_ws(c) || c == '(' || c == ')'
}

/// The index of the first character at or after `i` that is not
/// whitespace, or the length.
pub open spec fn skip_ws(cs: Seq<char>, i: nat) -> nat
    decreases cs.len() - i,
{
    if i < cs.len() && is_ws(cs[i as int]) {
        skip_ws(cs, i + 1)
    } else {
        i
    }
}

/// The end of the run of identifier characters from `i`.
pub open spec fn ident_end(cs: Seq<char>, i: nat) -> nat
    decreases cs.len() - i,
{
    if i < cs.len() && is_ident_char(cs[i as int]) {
        ident_end(cs, i + 1)
    } else {
        i
    }
}

/// The index of the first line feed at or after `i`, or the length.
pub open spec fn line_end(cs: Seq<char>, i: nat) -> nat
    decreases cs.len() - i,
{
    if i < cs.len() && cs[i as int] != '\n' {
        line_end(cs, i + 1)
    } else {
        i
    }
}

pub open spec fn escape_of(c: char) -> Option<char> {
    if c == 'r' {
        Some('\r')
    } else if c == 'n' {
        Some('\n')
    } else if c == 't' {
        Some('\t')
    } else {
        None
    }
}

/// The contents of a string literal whose body starts at `i`, up to the
/// closing quote; `None` where an escape is unknown or the text ends first.
pub open spec fn string_body(cs: Seq<char>, i: nat) -> Option<Seq<char>>
    decreases cs.len() - i,
{
    if i >= cs.len() {
        None
    } else if cs[i as int] == '"' {
        Some(Seq::empty())
    } else if cs[i as int] == '\\' {
        if i + 1 >= cs.len() {
            None
        } else {
            match escape_of(cs[i as int + 1]) {
                Some(e) => match string_body(cs, i + 2) {
                    Some(t) => Some(seq![e] + t),
                    None => None,
                },
                None => None,
            }
        }
    } else {
        match string_body(cs, i + 1) {
            Some(t) => Some(seq![cs[i as int]] + t),
            None => None,
        }
    }
}

pub open spec fn digit_value(c: char) -> int {
    c as int - '0' as int
}

pub open spec fn pow10(n: nat) -> int
    decreases n,
{
    if n == 0 {
        1
    } else {
        10 * pow10((n - 1) as nat)
    }
}

/// Reads a number whose character at `j` has been taken, with `mant` the
/// digits so far and `frac` the count of digits after the point (`-1`
/// before any point). The result is the digits as a whole number and the
/// count of digits after the point; `None` where the text is malformed or
/// the digits leave `i64`.
pub open spec fn number_body(cs: Seq<char>, j: nat, mant: int, frac: int) -> Option<(int, int)>
    decreases cs.len() - j,
{
    if j >= cs.len() {
        None
    } else if is_digit(cs[j as int]) {
        let m = mant * 10 + digit_value(cs[j as int]);
        let f = if frac >= 0 { frac + 1 } else { -1 };
        if m > i64::MAX {
            None
        } else if j + 1 >= cs.len() || is_terminator(cs[j as int + 1]) {
            Some((m, f))
        } else if is_digit(cs[j as int + 1]) || cs[j as int + 1] == '.' {
            number_body(cs, j + 1, m, f)
        } else {
            None
        }
    } else if cs[j as int] == '.' {
        if frac >= 0 {
            None
        } else if j + 1 < cs.len() && is_digit(cs[j as int + 1]) {
            number_body(cs, j + 1, mant, 0)
        } else {
            None
        }
    } else {
        None
    }
}

/// The number a numeric literal starting at `j` denotes, where it is
/// well formed and representable.
pub open spec fn number_at(cs: Seq<char>, j: nat) -> Option<Num> {
    match number_body(cs, j, 0, -1) {
        Some((m, f)) => {
            let scale = if f < 0 { 0 } else { f };
            if scale > 18 {
                None
            } else {
                make(m, pow10(scale as nat))
            }
        },
        None => None,
    }
}

/// `o` with `acc` put in front of its contents.
pub open spec fn prepend(acc: Seq<char>, o: Option<Seq<char>>) -> Option<Seq<char>> {
    match o {
        Some(t) => Some(acc + t),
        None => None,
    }
}

proof fn lemma_prepend_push(acc: Seq<char>, c: char, o: Option<Seq<char>>)
    ensures
        prepend(acc, match o { Some(t) => Some(seq![c] + t), None => None }) == prepend(acc.push(c), o),
{
    if let Some(t) = o {
        assert(acc + (seq![c] + t) =~= acc.push(c) + t);
    }
}

proof fn lemma_line_end_bounds(cs: Seq<char>, i: nat)
    requires
        i <= cs.len(),
    ensures
        i <= line_end(cs, i) <= cs.len(),
    decreases cs.len() - i,
{
    if i < cs.len() && cs[i as int] != '\n' {
        lemma_line_end_bounds(cs, i + 1);
    }
}

proof fn lemma_skip_ws_bounds(cs: Seq<char>, i: nat)
    requires
        i <= cs.len(),
    ensures
        i <= skip_ws(cs, i) <= cs.len(),
        skip_ws(cs, i) < cs.len() ==> !is_ws(cs[skip_ws(cs, i) as int]),
    decreases cs.len() - i,
{
    if i < cs.len() && is_ws(cs[i as int]) {
        lemma_skip_ws_bounds(cs, i + 1);
    }
}

fn pow10_exec(n: u32) -> (r: i64)
    requires
        n <= 18,
    ensures
        r == pow10(n as nat),
{
    let mut r: i64 = 1;
    let mut k: u32 = 0;
    while k < n
        invariant
            k <= n <= 18,
            r == pow10(k as nat),
            0 < r <= pow10(k as nat),
        decreases n - k,
    {
        proof {
            lemma_pow10_bound(k as nat);
        }
        r = r * 10;
        k = k + 1;
    }
    r
}

proof fn lemma_pow10_mono(a: nat, b: nat)
    requires
        a <= b,
    ensures
        0 < pow10(a) <= pow10(b),
    decreases b,
{
    if a < b {
        lemma_pow10_mono(a, (b - 1) as nat);
    } else if a > 0 {
        lemma_pow10_mono((a - 1) as nat, (a - 1) as nat);
    }
}

proof fn lemma_pow10_bound(n: nat)
    requires
        n <= 17,
    ensures
        0 < pow10(n) <= 100_000_000_000_000_000,
{
    lemma_pow10_mono(n, 17);
    reveal_with_fuel(pow10, 18);
    assert(pow10(17) == 100_000_000_000_000_000);
}

/// The index after the closing quote of a string literal whose body
/// starts at `i` (where [`string_body`] reads one).
pub open spec fn string_end(cs: Seq<char>, i: nat) -> nat
    decreases cs.len() - i,
{
    if i >= cs.len() {
        cs.len()
    } else if cs[i as int] == '"' {
        i + 1
    } else if cs[i as int] == '\\' {
        if i + 1 >= cs.len() {
            cs.len()
        } else if escape_of(cs[i as int + 1]) is None {
            i + 2
        } else {
            string_end(cs, i + 2)
        }
    } else {
        string_end(cs, i + 1)
    }
}

/// The index after the last character of a number whose character at `j`
/// has been taken (where [`number_body`] reads one).
pub open spec fn number_end(cs: Seq<char>, j: nat) -> nat
    decreases cs.len() - j,
{
    if j >= cs.len() {
        j
    } else if is_digit(cs[j as int]) && (j + 1 >= cs.len() || is_terminator(cs[j as int + 1])) {
        j + 1
    } else {
        number_end(cs, j + 1)
    }
}

/// The index after the lexeme that starts at the first non-blank character
/// at or after `i`; a comment takes its line feed with it.
pub open spec fn lexeme_end(cs: Seq<char>, i: nat) -> nat {
    let p = skip_ws(cs, i);
    if p >= cs.len() {
        cs.len()
    } else {
        let c = cs[p as int];
        if c == ';' {
            let q = line_end(cs, p + 1);
            if q < cs.len() {
                q + 1
            } else {
                cs.len()
            }
        } else if c == '(' || c == ')' {
            p + 1
        } else if is_ident_start(c) {
            ident_end(cs, p + 1)
        } else if c == '"' {
            string_end(cs, p + 1)
        } else if is_digit(c) {
            number_end(cs, p)
        } else {
            p + 1
        }
    }
}

/// The token read from `cs` starting at `i`, with its range left out, and
/// the index after it.
pub enum Lexeme {
    Eof,
    Lparen,
    Rparen,
    Identifier(Seq<char>),
    StringLit(Seq<char>),
    Number(Num),
    Comment(Seq<char>),
    Unknown(char),
    Error,
}

/// The lexeme that starts at the first non-blank character at or after `i`.
pub open spec fn lexeme_at(cs: Seq<char>, i: nat) -> Lexeme {
    let p = skip_ws(cs, i);
    if p >= cs.len() {
        Lexeme::Eof
    } else {
        let c = cs[p as int];
        if c == ';' {
            Lexeme::Comment(cs.subrange(p as int + 1, line_end(cs, p + 1) as int))
        } else if c == '(' {
            Lexeme::Lparen
        } else if c == ')' {
            Lexeme::Rparen
        } else if is_ident_start(c) {
            Lexeme::Identifier(cs.subrange(p as int, ident_end(cs, p + 1) as int))
        } else if c == '"' {
            match string_body(cs, p + 1) {
                Some(t) => Lexeme::StringLit(t),
                None => Lexeme::Error,
            }
        } else if is_digit(c) {
            match number_at(cs, p) {
                Some(n) => Lexeme::Number(n),
                None => Lexeme::Error,
            }
        } else {
            Lexeme::Unknown(c)
        }
    }
}

/// The lexeme a token carries.
pub open spec fn lexeme_of(t: Token) -> Lexeme {
    match t {
        Token::Eof(_) => Lexeme::Eof,
        Token::Lparen(_) => Lexeme::Lparen,
        Token::Rparen(_) => Lexeme::Rparen,
        Token::Identifier(_, s) => Lexeme::Identifier(s@),
        Token::StringLit(_, s) => Lexeme::StringLit(s@),
        Token::Number(_, n) => Lexeme::Number(n),
        Token::Comment(_, s) => Lexeme::Comment(s@),
        Token::Unknown(_, c) => Lexeme::Unknown(c),
        _ => Lexeme::Error,
    }
}

/// Turns source text into tokens, on demand.
pub struct Lexer {
    pub range: Range,
    /// The source text.
    pub chars: Vec<char>,
    /// The index of the next character to read.
    pub pos: usize,
    /// Whether a read has gone past the last character.
    pub past_end: bool,
    /// The character read last.
    pub curr: Option<char>,
}

impl Lexer {
    pub open spec fn wf(&self) -> bool {
        &&& self.chars@.len() < i64::MAX
        &&& self.pos <= self.chars@.len()
        &&& self.past_end ==> self.pos == self.chars@.len()
        &&& self.range.end.src_index == self.pos - 1 + (if self.past_end { 1int } else { 0int })
        &&& 0 <= self.range.end.line_index <= self.pos
        &&& -1 <= self.range.end.col_index <= self.range.end.src_index
    }

    pub fn new(source_text: &str) -> (r: Lexer)
        requires
            source_text@.len() < i64::MAX,
        ensures
            r.wf(),
            r.chars@ == source_text@,
            r.pos == 0,
    {
        Lexer {
            range: Range::new(Pos::start(), Pos::start()),
            chars: chars_of(source_text),
            pos: 0,
            past_end: false,
            curr: None,
        }
    }

    fn peek(&self) -> (r: Option<char>)
        requires
            self.wf(),
        ensures
            self.pos < self.chars@.len() ==> r == Some(self.chars@[self.pos as int]),
            self.pos >= self.chars@.len() ==> r is None,
    {
        if self.pos < self.chars.len() {
            Some(self.chars[self.pos])
        } else {
            None
        }
    }

    /// Reads one character into `curr`.
    fn next(&mut self)
        requires
            old(self).wf(),
        ensures
            final(self).wf(),
            final(self).chars == old(self).chars,
            old(self).pos < old(self).chars@.len() ==> final(self).pos == old(self).pos + 1
                && final(self).curr == Some(old(self).chars@[old(self).pos as int])
                && final(self).past_end == old(self).past_end,
            old(self).pos >= old(self).chars@.len() ==> final(self).pos == old(self).pos
                && final(self).curr is None,
    {
        if self.pos < self.chars.len() {
            self.range.end_advance();
            let c = self.chars[self.pos];
            self.curr = Some(c);
            self.pos = self.pos + 1;
            if c == '\n' {
                self.range.end_line();
            }
        } else {
            if !self.past_end {
                self.range.end_advance();
                self.past_end = true;
            }
            self.curr = None;
        }
    }

    /// Reads past blanks, then moves the range's start up to its end.
    pub fn skip_whitespace(&mut self)
        requires
            old(self).wf(),
        ensures
            final(self).wf(),
            final(self).chars == old(self).chars,
            final(self).pos == skip_ws(old(self).chars@, old(self).pos as nat),
            final(self).range.start == final(self).range.end,
    {
        loop
            invariant
                self.wf(),
                self.chars == old(self).chars,
                skip_ws(self.chars@, self.pos as nat) == skip_ws(old(self).chars@, old(self).pos as nat),
            ensures
                self.wf(),
                self.chars == old(self).chars,
                self.pos == skip_ws(old(self).chars@, old(self).pos as nat),
            decreases self.chars@.len() - self.pos,
        {
            match self.peek() {
                Some(c) => {
                    if c == ' ' || c == '\t' || c == '\r' || c == '\n' {
                        self.next();
                    } else {
                        break;
                    }
                },
                None => {
                    break;
                },
            }
        }
        self.range.catchup();
    }

    /// Reads the rest of a comment line; the line feed is read too.
    fn eat_comment(&mut self) -> (r: String)
        requires
            old(self).wf(),
        ensures
            final(self).wf(),
            final(self).chars == old(self).chars,
            r@ == old(self).chars@.subrange(old(self).pos as int, line_end(old(self).chars@, old(self).pos as nat) as int),
            final(self).pos > old(self).pos || old(self).pos == old(self).chars@.len(),
            final(self).pos >= old(self).pos,
            final(self).pos == (if line_end(old(self).chars@, old(self).pos as nat) < old(self).chars@.len() {
                line_end(old(self).chars@, old(self).pos as nat) + 1
            } else {
                old(self).chars@.len() as nat
            }),
    {
        let ghost cs = self.chars@;
        let ghost start = self.pos as int;
        let mut food = String::new();
        loop
            invariant_except_break
                0 <= start <= self.pos,
                line_end(cs, start as nat) == line_end(cs, self.pos as nat),
                food@ == cs.subrange(start, self.pos as int),
            invariant
                self.wf(),
                self.chars == old(self).chars,
                cs == self.chars@,
            ensures
                food@ == cs.subrange(start, line_end(cs, start as nat) as int),
                self.pos > start || start == cs.len(),
                self.pos >= start,
                self.pos == (if line_end(cs, start as nat) < cs.len() {
                    line_end(cs, start as nat) + 1
                } else {
                    cs.len() as nat
                }),
            decreases cs.len() - self.pos,
        {
            let ghost before = self.pos;
            self.next();
            match self.curr {
                Some(c) => {
                    if c == '\n' {
                        assert(food@ == cs.subrange(start, before as int));
                        proof {
                            assert(line_end(cs, before as nat) == before);
                        }
                        break;
                    }
                    push_char(&mut food, c);
                    assert(food@ =~= cs.subrange(start, self.pos as int));
                },
                None => {
                    break;
                },
            }
        }
        food
    }

    /// Reads the rest of an identifier whose first character, `first`, has
    /// been read.
    fn eat_identifier(&mut self, first: char) -> (r: String)
        requires
            old(self).wf(),
            old(self).pos >= 1,
            first == old(self).chars@[old(self).pos - 1],
        ensures
            final(self).wf(),
            final(self).chars == old(self).chars,
            final(self).pos == ident_end(old(self).chars@, old(self).pos as nat),
            r@ == old(self).chars@.subrange(old(self).pos - 1, final(self).pos as int),
            final(self).pos >= old(self).pos,
    {
        let ghost cs = self.chars@;
        let ghost p0 = self.pos as int;
        let mut identifier = String::new();
        push_char(&mut identifier, first);
        assert(identifier@ =~= cs.subrange(p0 - 1, p0));
        loop
            invariant
                self.wf(),
                self.chars == old(self).chars,
                cs == self.chars@,
                1 <= p0 <= self.pos,
                ident_end(cs, p0 as nat) == ident_end(cs, self.pos as nat),
                identifier@ == cs.subrange(p0 - 1, self.pos as int),
            ensures
                self.pos == ident_end(cs, p0 as nat),
                self.pos >= p0,
            decreases cs.len() - self.pos,
        {
            match self.peek() {
                Some(c) => {
                    if ('*' <= c && c <= '~') || c == '!' || ('#' <= c && c <= '\'') {
                        self.next();
                        push_char(&mut identifier, c);
                        assert(identifier@ =~= cs.subrange(p0 - 1, self.pos as int));
                    } else {
                        break;
                    }
                },
                None => {
                    break;
                },
            }
        }
        identifier
    }

    /// Reads the body of a string literal whose opening quote has been read.
    fn eat_string(&mut self) -> (r: Result<String, String>)
        requires
            old(self).wf(),
        ensures
            final(self).wf(),
            final(self).chars == old(self).chars,
            final(self).pos >= old(self).pos,
            match string_body(old(self).chars@, old(self).pos as nat) {
                Some(t) => r matches Ok(s) && s@ == t,
                None => r is Err,
            },
            final(self).pos == string_end(old(self).chars@, old(self).pos as nat),
    {
        let ghost cs = self.chars@;
        let ghost p0 = self.pos as nat;
        let mut string_lit = String::new();
        loop
            invariant_except_break
                string_body(cs, p0) == prepend(string_lit@, string_body(cs, self.pos as nat)),
                string_end(cs, p0) == string_end(cs, self.pos as nat),
            invariant
                self.wf(),
                self.chars == old(self).chars,
                cs == self.chars@,
                p0 <= self.pos,
                p0 == old(self).pos,
            ensures
                string_body(cs, p0) == Some(string_lit@),
                self.pos == string_end(cs, p0),
            decreases cs.len() - self.pos,
        {
            let ghost i = self.pos as nat;
            self.next();
            match self.curr {
                Some(c) => {
                    if c == '"' {
                        assert(string_lit@ + Seq::<char>::empty() =~= string_lit@);
                        assert(string_end(cs, i) == i + 1);
                        break;
                    } else if c == '\\' {
                        self.next();
                        match self.curr {
                            Some(e) => {
                                if e == 'r' {
                                    push_char(&mut string_lit, '\r');
                                } else if e == 'n' {
                                    push_char(&mut string_lit, '\n');
                                } else if e == 't' {
                                    push_char(&mut string_lit, '\t');
                                } else {
                                    let mut m = owned("unknown escape sequence: \\");
                                    push_char(&mut m, e);
                                    return Err(m);
                                }
                                proof {
                                    let t = string_body(cs, i + 2);
                                    lemma_prepend_push(string_lit@.drop_last(), string_lit@.last(), t);
                                }
                                assert(string_body(cs, p0) == prepend(string_lit@, string_body(cs, self.pos as nat)));
                            },
                            None => {
                                return Err(owned("reached EOF before end of string"));
                            },
                        }
                    } else {
                        push_char(&mut string_lit, c);
                        proof {
                            lemma_prepend_push(string_lit@.drop_last(), c, string_body(cs, i + 1));
                        }
                    }
                },
                None => {
                    return Err(owned("reached EOF before end of string"));
                },
            }
        }
        Ok(string_lit)
    }

    /// Reads the rest of a number whose first digit has been read. The
    /// result is its digits as a whole number and the count of digits after
    /// the point, `-1` where it has none.
    fn eat_number(&mut self) -> (r: Result<(i64, i64), String>)
        requires
            old(self).wf(),
            old(self).pos >= 1,
            is_digit(old(self).chars@[old(self).pos - 1]),
        ensures
            final(self).wf(),
            final(self).chars == old(self).chars,
            final(self).pos >= old(self).pos,
            match number_body(old(self).chars@, (old(self).pos - 1) as nat, 0, -1) {
                Some((m, f)) => r matches Ok((a, b)) && a == m && b == f,
                None => r is Err,
            },
            r is Ok ==> final(self).pos == number_end(old(self).chars@, (old(self).pos - 1) as nat),
    {
        let ghost cs = self.chars@;
        let ghost p0 = (self.pos - 1) as nat;
        let mut mant: i64 = 0;
        let mut frac: i64 = -1;
        loop
            invariant
                self.wf(),
                self.chars == old(self).chars,
                cs == self.chars@,
                1 <= self.pos <= cs.len(),
                p0 + 1 <= self.pos,
                p0 + 1 == old(self).pos,
                is_digit(cs[self.pos - 1]) || cs[self.pos - 1] == '.',
                0 <= mant,
                -1 <= frac < self.pos,
                number_body(cs, p0, 0, -1) == number_body(cs, (self.pos - 1) as nat, mant as int, frac as int),
                number_end(cs, p0) == number_end(cs, (self.pos - 1) as nat),
            decreases cs.len() - self.pos,
        {
            let ghost j = (self.pos - 1) as nat;
            let c = self.chars[self.pos - 1];
            if '0' <= c && c <= '9' {
                let d = (c as u32 - '0' as u32) as i128;
                let m: i128 = mant as i128 * 10 + d;
                if m > i64::MAX as i128 {
                    return Err(owned("number too large"));
                }
                mant = m as i64;
                if frac >= 0 {
                    frac = frac + 1;
                }
                match self.peek() {
                    None => {
                        return Ok((mant, frac));
                    },
                    Some(q) => {
                        if q == ' ' || q == '\t' || q == '\r' || q == '\n' || q == '(' || q == ')' {
                            return Ok((mant, frac));
                        } else if ('0' <= q && q <= '9') || q == '.' {
                            self.next();
                        } else {
                            let mut e = owned("unexpected character while parsing number: ");
                            push_char(&mut e, q);
                            return Err(e);
                        }
                    },
                }
            } else {
                if frac >= 0 {
                    return Err(owned("decimal specified twice in number"));
                }
                match self.peek() {
                    Some(q) => {
                        if '0' <= q && q <= '9' {
                            frac = 0;
                            self.next();
                        } else {
                            let mut e = owned("unexpected character while parsing number: ");
                            push_char(&mut e, q);
                            return Err(e);
                        }
                    },
                    None => {
                        return Err(owned("EOF reached before end of number"));
                    },
                }
            }
        }
    }

    /// Reads the next token. At the end of the text it gives `Eof`, again
    /// and again.
    pub fn next_token(&mut self) -> (r: Token)
        requires
            old(self).wf(),
        ensures
            final(self).wf(),
            final(self).chars == old(self).chars,
            lexeme_of(r) == lexeme_at(old(self).chars@, old(self).pos as nat),
            r is Eof <==> skip_ws(old(self).chars@, old(self).pos as nat) >= old(self).chars@.len(),
            r is Eof ==> final(self).pos == old(self).chars@.len(),
            !(r is Eof) ==> final(self).pos > old(self).pos,
            !(r is Start),
            !(lexeme_at(old(self).chars@, old(self).pos as nat) is Error)
                || !is_digit(old(self).chars@[skip_ws(old(self).chars@, old(self).pos as nat) as int])
                ==> final(self).pos == lexeme_end(old(self).chars@, old(self).pos as nat),
            token_range(r).end == final(self).range.end,
            final(self).range.start == final(self).range.end,
            r is Lparen ==> token_range(r).start == token_range(r).end && final(self).pos >= 1
                && token_range(r).start.src_index == final(self).pos - 1
                && final(self).chars@[final(self).pos - 1] == '(',
    {
        let ghost cs = self.chars@;
        let ghost i0 = self.pos as nat;
        self.skip_whitespace();
        proof {
            lemma_skip_ws_bounds(cs, i0);
        }
        let ghost p = self.pos as nat;
        self.next();
        match self.curr {
            Some(c) => {
                let tok = if c == ';' {
                    proof {
                        lemma_line_end_bounds(cs, p + 1);
                    }
                    let t = self.eat_comment();
                    Token::Comment(self.range, t)
                } else if c == '(' {
                    assert(!self.past_end);
                    assert(self.chars@[self.pos - 1] == '(');
                    self.range.catchup();
                    Token::Lparen(self.range)
                } else if c == ')' {
                    Token::Rparen(self.range)
                } else if ('*' <= c && c <= '/') || (':' <= c && c <= '~') || c == '!' || ('#' <= c && c <= '\'') {
                    let t = self.eat_identifier(c);
                    Token::Identifier(self.range, t)
                } else if c == '"' {
                    match self.eat_string() {
                        Ok(t) => Token::StringLit(self.range, t),
                        Err(e) => Token::Error(self.range, e),
                    }
                } else if '0' <= c && c <= '9' {
                    match self.eat_number() {
                        Ok((m, f)) => {
                            let scale: i64 = if f < 0 { 0 } else { f };
                            if scale > 18 {
                                Token::Error(self.range, owned("number too large"))
                            } else {
                                let den = pow10_exec(scale as u32);
                                match Num::new(m, den) {
                                    Some(n) => Token::Number(self.range, n),
                                    None => Token::Error(self.range, owned("number too large")),
                                }
                            }
                        },
                        Err(e) => Token::Error(self.range, e),
                    }
                } else {
                    Token::Unknown(self.range, c)
                };
                self.range.catchup();
                tok
            },
            None => {
                self.range.catchup();
                Token::Eof(self.range)
            },
        }
    }
}

/// Reads every token of `source_text`. The stream always ends: its last
/// token is `Eof` and no other is.
pub fn tokenize(source_text: &str) -> (r: Vec<Token>)
    requires
        source_text@.len() < i64::MAX,
    ensures
        r@.len() >= 1,
        r@.last() is Eof,
        forall|k: int| 0 <= k < r@.len() - 1 ==> !(r@[k] is Eof),
{
    let mut lexer = Lexer::new(source_text);
    let mut out: Vec<Token> = Vec::new();
    loop
        invariant_except_break
            forall|k: int| 0 <= k < out@.len() ==> !(out@[k] is Eof),
        invariant
            lexer.wf(),
        ensures
            out@.len() >= 1,
            out@.last() is Eof,
            forall|k: int| 0 <= k < out@.len() - 1 ==> !(out@[k] is Eof),
        decreases lexer.chars@.len() - lexer.pos,
    {
        let t = lexer.next_token();
        if t.is_eof() {
            out.push(t);
            assert(forall|k: int| 0 <= k < out@.len() - 1 ==> !(out@[k] is Eof));
            break;
        }
        out.push(t);
    }
    out
}

impl Token {
    pub fn is_eof(&self) -> (r: bool)
        ensures
            r == (self is Eof),
    {
        match self {
            Token::Eof(_) => true,
            _ => false,
        }
    }
}

/// How a token reads in a message.
pub open spec fn token_text(t: Token) -> Seq<char> {
    match t {
        Token::Start => "none"@,
        Token::Eof(_) => "EOF"@,
        Token::Lparen(_) => "left paren"@,
        Token::Rparen(_) => "right paren"@,
        Token::Identifier(_, s) => s@,
        Token::StringLit(_, _) => "string literal"@,
        Token::Number(_, _) => "number"@,
        Token::Comment(_, _) => "comment"@,
        Token::Unknown(_, c) => "unknown character `"@.push(c).push('\''),
        Token::Error(_, e) => "syntax error: "@ + e@,
    }
}

impl Token {
    /// How the token reads in a message.
    pub fn describe(&self) -> (r: String)
        ensures
            r@ == token_text(*self),
    {
        match self {
            Token::Start => owned("none"),
            Token::Eof(_) => owned("EOF"),
            Token::Lparen(_) => owned("left paren"),
            Token::Rparen(_) => owned("right paren"),
            Token::Identifier(_, s) => s.clone(),
            Token::StringLit(_, _) => owned("string literal"),
            Token::Number(_, _) => owned("number"),
            Token::Comment(_, _) => owned("comment"),
            Token::Unknown(_, c) => {
                let mut m = owned("unknown character `");
                push_char(&mut m, *c);
                push_char(&mut m, '\'');
                m
            },
            Token::Error(_, e) => {
                let mut m = owned("syntax error: ");
                crate::text::push_str(&mut m, e.as_str());
                m
            },
        }
    }
}

} // verus!
