//! The concrete syntax: a lexer and a recursive-descent parser.
//!
//! A module is a sequence of rules and nets:
//!
//! ```text
//! S(#x) >< A(#y, #w) => #x = A(#y, #z), #w = S(#z)
//! O >< A(#y, #w) => #y = #w
//! Main <| #r |> S(S(O)) = A(S(S(O)), #r)
//! ```
//!
//! A rule is two heads joined by `><` (or `>>`; `<<` swaps them), then `=>`
//! and equations separated by commas, or `_` for none. A net is a name, its
//! interfaces between `<|` and `|>`, then equations or `_`. An equation is
//! `l = r` or `l -> r`; `r <- l` means `l = r`. Names are `#x` (input) or
//! `@x` (output); identifiers are a letter or `_` followed by letters,
//! digits and `_`. Whitespace and `/* ... */` comments separate tokens.

use vstd::prelude::*;
use vstd::string::StrSliceExecFns;

use crate::ast::{Agent, Equation, Module, Name, Net, Rule, RuleTerm, Term};

verus! {

/// Where the text stops matching the grammar, as a character position.
#[derive(Clone, Copy, Debug, PartialEq, Eq, Structural)]
pub struct SyntaxError {
    pub position: usize,
}

/// A token with the character position where it starts.
pub enum Token {
    Ident(String),
    In(String),
    Out(String),
    LParen,
    RParen,
    Comma,
    Equals,
    Arrow,
    BackArrow,
    Interact,
    InteractBack,
    Rewrite,
    Underscore,
    NetOpen,
    NetClose,
}

/// A letter or `_`.
pub open spec fn ident_start(c: char) -> bool {
    ('a' <= c && c <= 'z') || ('A' <= c && c <= 'Z') || c == '_'
}

/// A letter, a digit or `_`.
pub open spec fn ident_char(c: char) -> bool {
    ident_start(c) || ('0' <= c && c <= '9')
}

/// A non-empty identifier that starts with a letter or `_`.
pub open spec fn is_ident(s: Seq<char>) -> bool {
    s.len() > 0 && ident_start(s[0]) && forall|i: int| 0 <= i < s.len() ==> ident_char(#[trigger] s[i])
}

/// Every identifier a token carries is well formed.
pub open spec fn token_ok(t: Token) -> bool {
    match t {
        Token::Ident(s) => is_ident(s@),
        Token::In(s) => is_ident(s@),
        Token::Out(s) => is_ident(s@),
        _ => true,
    }
}

/// Every identifier of a name is well formed.
pub open spec fn name_ok(n: Name) -> bool {
    is_ident(n.ident())
}

/// Every agent symbol and name of a term is a well-formed identifier.
pub open spec fn term_ok(t: Term) -> bool
    decreases t, 0int,
{
    match t {
        Term::Name(n) => name_ok(n),
        Term::Agent(a) => is_ident(a.name@) && args_ok(a, a.body@.len() as int),
    }
}

/// The first `k` arguments of an agent are well formed.
pub open spec fn args_ok(a: Agent, k: int) -> bool
    decreases a, k,
{
    if k <= 0 || k > a.body@.len() {
        true
    } else {
        args_ok(a, k - 1) && term_ok(a.body@[k - 1])
    }
}

/// Both sides of an equation are well formed.
pub open spec fn equation_ok(e: Equation) -> bool {
    term_ok(e.left) && term_ok(e.right)
}

/// Every identifier of a module is well formed.
pub open spec fn module_ok(m: Module) -> bool {
    &&& forall|i: int| 0 <= i < m.rules@.len() ==> rule_ok(#[trigger] m.rules@[i])
    &&& forall|i: int| 0 <= i < m.nets@.len() ==> net_ok(#[trigger] m.nets@[i])
}

/// A rule head has a well-formed symbol and names.
pub open spec fn rule_term_ok(t: RuleTerm) -> bool {
    is_ident(t.agent@) && forall|i: int| 0 <= i < t.body@.len() ==> name_ok(#[trigger] t.body@[i])
}

/// Both heads and every equation of a rule are well formed.
pub open spec fn rule_ok(r: Rule) -> bool {
    rule_term_ok(r.left) && rule_term_ok(r.right) && forall|i: int|
        0 <= i < r.equations@.len() ==> equation_ok(#[trigger] r.equations@[i])
}

/// The name, interfaces and equations of a net are well formed.
pub open spec fn net_ok(n: Net) -> bool {
    &&& is_ident(n.name@)
    &&& forall|i: int| 0 <= i < n.interfaces@.len() ==> term_ok(#[trigger] n.interfaces@[i])
    &&& forall|i: int| 0 <= i < n.equations@.len() ==> equation_ok(#[trigger] n.equations@[i])
}

proof fn lemma_args_ok(a: Agent, k: int)
    requires
        0 <= k <= a.body@.len(),
        forall|i: int| 0 <= i < k ==> term_ok(#[trigger] a.body@[i]),
    ensures
        args_ok(a, k),
    decreases k,
{
    if k > 0 {
        lemma_args_ok(a, k - 1);
    }
}

fn is_start_char(c: char) -> (r: bool)
    ensures
        r == ident_start(c),
{
    ('a' <= c && c <= 'z') || ('A' <= c && c <= 'Z') || c == '_'
}

fn is_ident_char(c: char) -> (r: bool)
    ensures
        r == ident_char(c),
{
    is_start_char(c) || ('0' <= c && c <= '9')
}

/// The end of the identifier that starts at `start`.
fn ident_end(src: &str, start: usize) -> (r: usize)
    requires
        start < src@.len(),
        ident_start(src@[start as int]),
    ensures
        start < r <= src@.len(),
        is_ident(src@.subrange(start as int, r as int)),
        r < src@.len() ==> !ident_char(src@[r as int]),
{
    let n = src.unicode_len();
    let mut i = start + 1;
    while i < n && is_ident_char(src.get_char(i))
        invariant
            start < i <= n == src@.len(),
            ident_start(src@[start as int]),
            forall|k: int| start <= k < i ==> ident_char(#[trigger] src@[k]),
        decreases n - i,
    {
        i += 1;
    }
    proof {
        let s = src@.subrange(start as int, i as int);
        assert forall|k: int| 0 <= k < s.len() implies ident_char(#[trigger] s[k]) by {
            assert(s[k] == src@[start + k]);
        }
    }
    i
}

/// The tokens of a text, each well formed and positioned within it.
pub open spec fn tokens_ok(toks: Seq<(Token, usize)>, len: nat) -> bool {
    toks.len() <= len && forall|i: int| 0 <= i < toks.len() ==> token_ok((#[trigger] toks[i]).0) && toks[i].1 < len
}

/// A token's kind as a small code, in declaration order.
pub open spec fn token_code(t: Token) -> u8 {
    match t {
        Token::Ident(_) => 0,
        Token::In(_) => 1,
        Token::Out(_) => 2,
        Token::LParen => 3,
        Token::RParen => 4,
        Token::Comma => 5,
        Token::Equals => 6,
        Token::Arrow => 7,
        Token::BackArrow => 8,
        Token::Interact => 9,
        Token::InteractBack => 10,
        Token::Rewrite => 11,
        Token::Underscore => 12,
        Token::NetOpen => 13,
        Token::NetClose => 14,
    }
}

/// The identifier a token carries; empty for punctuation.
pub open spec fn token_text(t: Token) -> Seq<char> {
    match t {
        Token::Ident(s) => s@,
        Token::In(s) => s@,
        Token::Out(s) => s@,
        _ => seq![],
    }
}

/// Tokens as kind, identifier and position.
pub open spec fn tokens_view(ts: Seq<(Token, usize)>) -> Seq<(u8, Seq<char>, int)> {
    Seq::new(ts.len(), |k: int| (token_code(ts[k].0), token_text(ts[k].0), ts[k].1 as int))
}

/// Where the run of identifier characters from `i` ends.
pub open spec fn ident_stop(src: Seq<char>, i: int) -> int
    decreases src.len() - i,
{
    if 0 <= i < src.len() && ident_char(src[i]) {
        ident_stop(src, i + 1)
    } else {
        i
    }
}

/// The position just after the first `*/` at or after `i`, if any.
pub open spec fn comment_stop(src: Seq<char>, i: int) -> Option<int>
    decreases src.len() - i,
{
    if i < 0 || i >= src.len() {
        None
    } else if src[i] == '*' && i + 1 < src.len() && src[i + 1] == '/' {
        Some(i + 2)
    } else {
        comment_stop(src, i + 1)
    }
}

/// The punctuation token at `i` and its length, given the next character
/// (a space at the end of the text); kind 0 means none.
pub open spec fn punct_at(c: char, next: char) -> (u8, int) {
    if c == '(' {
        (3, 1)
    } else if c == ')' {
        (4, 1)
    } else if c == ',' {
        (5, 1)
    } else if c == '=' && next == '>' {
        (11, 2)
    } else if c == '=' {
        (6, 1)
    } else if c == '-' && next == '>' {
        (7, 2)
    } else if c == '<' && next == '-' {
        (8, 2)
    } else if c == '>' && (next == '<' || next == '>') {
        (9, 2)
    } else if c == '<' && next == '<' {
        (10, 2)
    } else if c == '<' && next == '|' {
        (13, 2)
    } else if c == '|' && next == '>' {
        (14, 2)
    } else {
        (0, 0)
    }
}

/// Prepends a token to a lexing result.
pub open spec fn lex_cons(t: (u8, Seq<char>, int), r: Result<Seq<(u8, Seq<char>, int)>, int>) -> Result<Seq<(u8, Seq<char>, int)>, int> {
    match r {
        Ok(ts) => Ok(seq![t] + ts),
        Err(p) => Err(p),
    }
}

/// The tokens of `src` from position `i`, or the position where it stops
/// matching: whitespace and `/* */` comments are skipped, an identifier
/// (or a lone `_`) and a name (`#x`, `@x`) take the longest run of
/// identifier characters, and punctuation takes one or two characters.
pub open spec fn lex(src: Seq<char>, i: int) -> Result<Seq<(u8, Seq<char>, int)>, int>
    decreases src.len() - i,
{
    if i < 0 || i >= src.len() {
        Ok(seq![])
    } else {
        let c = src[i];
        let next = if i + 1 < src.len() { src[i + 1] } else { ' ' };
        if c == ' ' || c == '\t' || c == '\n' || c == '\r' {
            lex(src, i + 1)
        } else if c == '/' && next == '*' {
            match comment_stop(src, i + 2) {
                Some(j) => if i < j <= src.len() {
                    lex(src, j)
                } else {
                    Err(i)
                },
                None => Err(i),
            }
        } else if ident_start(c) {
            let e = ident_stop(src, i + 1);
            let t = if e == i + 1 && c == '_' {
                (12u8, Seq::<char>::empty(), i)
            } else {
                (0u8, src.subrange(i, e), i)
            };
            if i < e <= src.len() {
                lex_cons(t, lex(src, e))
            } else {
                Err(i)
            }
        } else if (c == '#' || c == '@') && i + 1 < src.len() && ident_start(next) {
            let e = ident_stop(src, i + 2);
            if i < e <= src.len() {
                lex_cons((if c == '#' { 1u8 } else { 2u8 }, src.subrange(i + 1, e), i), lex(src, e))
            } else {
                Err(i)
            }
        } else {
            let (k, len) = punct_at(c, next);
            if k == 0 || i + len > src.len() {
                Err(i)
            } else {
                lex_cons((k, Seq::<char>::empty(), i), lex(src, i + len))
            }
        }
    }
}

proof fn lemma_ident_stop(src: Seq<char>, j: int, e: int)
    requires
        0 <= j <= e <= src.len(),
        forall|k: int| j <= k < e ==> ident_char(#[trigger] src[k]),
        e < src.len() ==> !ident_char(src[e]),
    ensures
        ident_stop(src, j) == e,
    decreases e - j,
{
    if j < e {
        lemma_ident_stop(src, j + 1, e);
    }
}

proof fn lemma_comment_stop_ge(src: Seq<char>, i: int)
    requires
        0 <= i,
    ensures
        comment_stop(src, i) is Some ==> i + 2 <= comment_stop(src, i)->Some_0 <= src.len(),
    decreases src.len() - i,
{
    if i < src.len() && !(src[i] == '*' && i + 1 < src.len() && src[i + 1] == '/') {
        lemma_comment_stop_ge(src, i + 1);
    }
}

proof fn lemma_lex_after_cons(tv: Seq<(u8, Seq<char>, int)>, t: (u8, Seq<char>, int), r: Result<Seq<(u8, Seq<char>, int)>, int>)
    ensures
        lex_after(tv, lex_cons(t, r)) == lex_after(tv.push(t), r),
{
    if let Ok(ts) = r {
        assert(tv + (seq![t] + ts) =~= tv.push(t) + ts);
    }
}

proof fn lemma_tokens_view_push(ts: Seq<(Token, usize)>, x: (Token, usize))
    ensures
        tokens_view(ts.push(x)) == tokens_view(ts).push((token_code(x.0), token_text(x.0), x.1 as int)),
{
    assert(tokens_view(ts.push(x)) =~= tokens_view(ts).push((token_code(x.0), token_text(x.0), x.1 as int)));
}

/// Appends a lexing result to tokens already read.
pub open spec fn lex_after(done: Seq<(u8, Seq<char>, int)>, r: Result<Seq<(u8, Seq<char>, int)>, int>) -> Result<Seq<(u8, Seq<char>, int)>, int> {
    match r {
        Ok(ts) => Ok(done + ts),
        Err(p) => Err(p),
    }
}

/// Splits source text into tokens, skipping whitespace and comments. Each
/// token comes with the position where it starts.
pub fn tokenize(src: &str) -> (r: Result<Vec<(Token, usize)>, SyntaxError>)
    ensures
        r is Ok ==> tokens_ok(r->Ok_0@, src@.len()),
        r is Err ==> r->Err_0.position < src@.len(),
        match lex(src@, 0) {
            Ok(ts) => r is Ok && tokens_view(r->Ok_0@) == ts,
            Err(p) => r is Err && r->Err_0.position == p,
        },
{
    let n = src.unicode_len();
    let mut tokens: Vec<(Token, usize)> = Vec::new();
    let mut i: usize = 0;
    while i < n
        invariant
            i <= n == src@.len(),
            tokens@.len() <= i,
            forall|k: int| 0 <= k < tokens@.len() ==> token_ok((#[trigger] tokens@[k]).0) && tokens@[k].1 < src@.len(),
            lex(src@, 0) == lex_after(tokens_view(tokens@), lex(src@, i as int)),
        decreases n - i,
    {
        let ghost tv = tokens_view(tokens@);
        let ghost i0 = i as int;
        let c = src.get_char(i);
        let next = if i + 1 < n { src.get_char(i + 1) } else { ' ' };
        if c == ' ' || c == '\t' || c == '\n' || c == '\r' {
            i += 1;
        } else if c == '/' && next == '*' {
            let start = i;
            assert(i + 1 < n);
            i += 2;
            let mut closed = false;
            while i < n && !closed
                invariant
                    start + 2 <= i <= n,
                    n == src@.len(),
                    !closed ==> comment_stop(src@, start + 2) == comment_stop(src@, i as int),
                    closed ==> comment_stop(src@, start + 2) == Some(i as int),
                decreases n - i,
            {
                if src.get_char(i) == '*' && i + 1 < n && src.get_char(i + 1) == '/' {
                    closed = true;
                    i += 2;
                } else {
                    i += 1;
                }
            }
            proof {
                lemma_comment_stop_ge(src@, start + 2);
            }
            if !closed {
                proof {
                    assert(comment_stop(src@, start + 2) is None);
                    assert(lex(src@, start as int) == Err::<Seq<(u8, Seq<char>, int)>, int>(start as int));
                }
                return Err(SyntaxError { position: start });
            }
            proof {
                assert(lex(src@, start as int) == lex(src@, i as int));
            }
        } else if is_start_char(c) {
            let end = ident_end(src, i);
            proof {
                let sub = src@.subrange(i as int, end as int);
                assert forall|k: int| i + 1 <= k < end implies ident_char(#[trigger] src@[k]) by {
                    assert(sub[k - i] == src@[k]);
                }
                lemma_ident_stop(src@, i + 1, end as int);
            }
            let ghost tk0 = tokens@;
            if end == i + 1 && c == '_' {
                tokens.push((Token::Underscore, i));
            } else {
                let s = src.substring_char(i, end).to_owned();
                assert(is_ident(s@));
                tokens.push((Token::Ident(s), i));
            }
            proof {
                let x = tokens@.last();
                assert(tokens@ == tk0.push(x));
                lemma_tokens_view_push(tk0, x);
                let tt = (token_code(x.0), token_text(x.0), x.1 as int);
                assert(lex(src@, i0) == lex_cons(tt, lex(src@, end as int)));
                lemma_lex_after_cons(tv, tt, lex(src@, end as int));
            }
            i = end;
        } else if (c == '#' || c == '@') && i + 1 < n && is_start_char(next) {
            let end = ident_end(src, i + 1);
            proof {
                let sub = src@.subrange(i + 1, end as int);
                assert forall|k: int| i + 2 <= k < end implies ident_char(#[trigger] src@[k]) by {
                    assert(sub[k - i - 1] == src@[k]);
                }
                lemma_ident_stop(src@, i + 2, end as int);
            }
            let s = src.substring_char(i + 1, end).to_owned();
            let ghost tk0 = tokens@;
            if c == '#' {
                tokens.push((Token::In(s), i));
            } else {
                tokens.push((Token::Out(s), i));
            }
            proof {
                let x = tokens@.last();
                assert(tokens@ == tk0.push(x));
                lemma_tokens_view_push(tk0, x);
                let tt = (token_code(x.0), token_text(x.0), x.1 as int);
                assert(lex(src@, i0) == lex_cons(tt, lex(src@, end as int)));
                lemma_lex_after_cons(tv, tt, lex(src@, end as int));
            }
            i = end;
        } else {
            let (tok, len) = if c == '(' {
                (Token::LParen, 1usize)
            } else if c == ')' {
                (Token::RParen, 1)
            } else if c == ',' {
                (Token::Comma, 1)
            } else if c == '=' && next == '>' {
                (Token::Rewrite, 2)
            } else if c == '=' {
                (Token::Equals, 1)
            } else if c == '-' && next == '>' {
                (Token::Arrow, 2)
            } else if c == '<' && next == '-' {
                (Token::BackArrow, 2)
            } else if c == '>' && (next == '<' || next == '>') {
                (Token::Interact, 2)
            } else if c == '<' && next == '<' {
                (Token::InteractBack, 2)
            } else if c == '<' && next == '|' {
                (Token::NetOpen, 2)
            } else if c == '|' && next == '>' {
                (Token::NetClose, 2)
            } else {
                proof {
                    assert(punct_at(c, next).0 == 0);
                }
                return Err(SyntaxError { position: i });
            };
            let ghost tk0 = tokens@;
            tokens.push((tok, i));
            proof {
                assert(punct_at(c, next) == (token_code(tok), len as int));
                assert(len == 2 ==> i + 1 < n);
                let x = tokens@.last();
                assert(tokens@ == tk0.push(x));
                lemma_tokens_view_push(tk0, x);
                let tt = (token_code(x.0), token_text(x.0), x.1 as int);
                assert(lex(src@, i0) == lex_cons(tt, lex(src@, i + len)));
                lemma_lex_after_cons(tv, tt, lex(src@, i + len));
            }
            i = if len == 2 && i + 1 < n { i + 2 } else { i + 1 };
        }
    }
    proof {
        assert(tokens_view(tokens@) + Seq::<(u8, Seq<char>, int)>::empty() =~= tokens_view(tokens@));
    }
    Ok(tokens)
}

fn error_at(toks: &Vec<(Token, usize)>, p: usize, len: usize) -> (r: SyntaxError)
    requires
        tokens_ok(toks@, len as nat),
    ensures
        r.position <= len,
{
    if p < toks.len() {
        SyntaxError { position: toks[p].1 }
    } else {
        SyntaxError { position: len }
    }
}

/// Which punctuation token stands at `p`, by a small code; 0 when none.
fn punct(toks: &Vec<(Token, usize)>, p: usize) -> (r: u8)
    ensures
        r != 0 ==> p < toks@.len(),
{
    if p >= toks.len() {
        return 0;
    }
    match &toks[p].0 {
        Token::LParen => 1,
        Token::RParen => 2,
        Token::Comma => 3,
        Token::Equals => 4,
        Token::Arrow => 5,
        Token::BackArrow => 6,
        Token::Interact => 7,
        Token::InteractBack => 8,
        Token::Rewrite => 9,
        Token::Underscore => 10,
        Token::NetOpen => 11,
        Token::NetClose => 12,
        _ => 0,
    }
}

fn name_at(toks: &Vec<(Token, usize)>, p: usize, Ghost(len): Ghost<nat>) -> (r: Option<Name>)
    requires
        tokens_ok(toks@, len),
    ensures
        r is Some ==> p < toks@.len() && name_ok(r->Some_0),
{
    if p >= toks.len() {
        return None;
    }
    match &toks[p].0 {
        Token::In(s) => Some(Name::In(s.clone())),
        Token::Out(s) => Some(Name::Out(s.clone())),
        _ => None,
    }
}

fn ident_at(toks: &Vec<(Token, usize)>, p: usize, Ghost(len): Ghost<nat>) -> (r: Option<String>)
    requires
        tokens_ok(toks@, len),
    ensures
        r is Some ==> p < toks@.len() && is_ident(r->Some_0@),
{
    if p >= toks.len() {
        return None;
    }
    match &toks[p].0 {
        Token::Ident(s) => Some(s.clone()),
        _ => None,
    }
}

/// Parses a term at `p`: a name, or an agent with an optional
/// parenthesised argument list.
fn parse_term(toks: &Vec<(Token, usize)>, p: usize, len: usize) -> (r: Result<(Term, usize), SyntaxError>)
    requires
        tokens_ok(toks@, len as nat),
    ensures
        r is Ok ==> p < r->Ok_0.1 <= toks@.len() && term_ok(r->Ok_0.0),
        r is Err ==> r->Err_0.position <= len,
    decreases toks@.len() - p,
{
    if let Some(n) = name_at(toks, p, Ghost(len as nat)) {
        return Ok((Term::Name(n), p + 1));
    }
    let name = match ident_at(toks, p, Ghost(len as nat)) {
        Some(s) => s,
        None => return Err(error_at(toks, p, len)),
    };
    let mut q = p + 1;
    let mut body: Vec<Term> = Vec::new();
    if punct(toks, q) == 1 {
        q += 1;
        if punct(toks, q) == 2 {
            q += 1;
        } else {
            loop
                invariant
                    p < q <= toks@.len(),
                    tokens_ok(toks@, len as nat),
                    forall|i: int| 0 <= i < body@.len() ==> term_ok(#[trigger] body@[i]),
                decreases toks@.len() - q,
            {
                let (t, q2) = parse_term(toks, q, len)?;
                body.push(t);
                q = q2;
                let c = punct(toks, q);
                if c == 3 {
                    q += 1;
                    if q >= toks.len() {
                        return Err(error_at(toks, q, len));
                    }
                } else if c == 2 {
                    q += 1;
                    break;
                } else {
                    return Err(error_at(toks, q, len));
                }
            }
        }
    }
    let a = Agent { name, body };
    proof {
        lemma_args_ok(a, a.body@.len() as int);
    }
    Ok((Term::Agent(a), q))
}

/// Parses an equation: `l = r`, `l -> r`, or `r <- l`.
fn parse_equation(toks: &Vec<(Token, usize)>, p: usize, len: usize) -> (r: Result<(Equation, usize), SyntaxError>)
    requires
        tokens_ok(toks@, len as nat),
    ensures
        r is Ok ==> p < r->Ok_0.1 <= toks@.len() && equation_ok(r->Ok_0.0),
        r is Err ==> r->Err_0.position <= len,
{
    let (a, q) = parse_term(toks, p, len)?;
    let c = punct(toks, q);
    if c != 4 && c != 5 && c != 6 {
        return Err(error_at(toks, q, len));
    }
    let (b, q2) = parse_term(toks, q + 1, len)?;
    if c == 6 {
        Ok((Equation { left: b, right: a }, q2))
    } else {
        Ok((Equation { left: a, right: b }, q2))
    }
}

/// Parses `_`, or equations separated by commas.
fn parse_equations(toks: &Vec<(Token, usize)>, p: usize, len: usize) -> (r: Result<(Vec<Equation>, usize), SyntaxError>)
    requires
        tokens_ok(toks@, len as nat),
    ensures
        r is Ok ==> p < r->Ok_0.1 <= toks@.len() && forall|i: int| 0 <= i < r->Ok_0.0@.len() ==> equation_ok(#[trigger] r->Ok_0.0@[i]),
        r is Err ==> r->Err_0.position <= len,
{
    if punct(toks, p) == 10 {
        return Ok((Vec::new(), p + 1));
    }
    let mut eqs: Vec<Equation> = Vec::new();
    let mut q = p;
    loop
        invariant
            p <= q,
            eqs@.len() > 0 ==> p < q <= toks@.len(),
            tokens_ok(toks@, len as nat),
            forall|i: int| 0 <= i < eqs@.len() ==> equation_ok(#[trigger] eqs@[i]),
        decreases toks@.len() - q,
    {
        let (e, q2) = parse_equation(toks, q, len)?;
        eqs.push(e);
        q = q2;
        if punct(toks, q) == 3 {
            q += 1;
            if q >= toks.len() {
                return Err(error_at(toks, q, len));
            }
        } else {
            return Ok((eqs, q));
        }
    }
}

/// Parses a rule head: an agent symbol with optional parenthesised names.
fn parse_rule_term(toks: &Vec<(Token, usize)>, p: usize, len: usize) -> (r: Result<(RuleTerm, usize), SyntaxError>)
    requires
        tokens_ok(toks@, len as nat),
    ensures
        r is Ok ==> p < r->Ok_0.1 <= toks@.len() && rule_term_ok(r->Ok_0.0),
        r is Err ==> r->Err_0.position <= len,
{
    let agent = match ident_at(toks, p, Ghost(len as nat)) {
        Some(s) => s,
        None => return Err(error_at(toks, p, len)),
    };
    let mut q = p + 1;
    let mut body: Vec<Name> = Vec::new();
    if punct(toks, q) == 1 {
        q += 1;
        if punct(toks, q) == 2 {
            q += 1;
        } else {
            loop
                invariant
                    p < q <= toks@.len(),
                    tokens_ok(toks@, len as nat),
                    forall|i: int| 0 <= i < body@.len() ==> name_ok(#[trigger] body@[i]),
                decreases toks@.len() - q,
            {
                let n = match name_at(toks, q, Ghost(len as nat)) {
                    Some(n) => n,
                    None => return Err(error_at(toks, q, len)),
                };
                body.push(n);
                q += 1;
                let c = punct(toks, q);
                if c == 3 {
                    q += 1;
                    if q >= toks.len() {
                        return Err(error_at(toks, q, len));
                    }
                } else if c == 2 {
                    q += 1;
                    break;
                } else {
                    return Err(error_at(toks, q, len));
                }
            }
        }
    }
    Ok((RuleTerm { agent, body }, q))
}

/// Parses source text into a module. Every identifier of the result is
/// well formed; an error gives the position where the text stops
/// matching the grammar.
pub fn parse(source: &str) -> (r: Result<Module, SyntaxError>)
    ensures
        r is Ok ==> module_ok(r->Ok_0),
        r is Err ==> r->Err_0.position <= source@.len(),
        lex(source@, 0) is Err ==> r is Err && r->Err_0.position == lex(source@, 0)->Err_0,
        r is Ok ==> lex(source@, 0) is Ok,
{
    let len = source.unicode_len();
    let toks = match tokenize(source) {
        Ok(t) => t,
        Err(e) => return Err(e),
    };
    let mut rules: Vec<Rule> = Vec::new();
    let mut nets: Vec<Net> = Vec::new();
    let mut p: usize = 0;
    while p < toks.len()
        invariant
            p <= toks@.len(),
            len == source@.len(),
            tokens_ok(toks@, len as nat),
            lex(source@, 0) is Ok,
            forall|i: int| 0 <= i < rules@.len() ==> rule_ok(#[trigger] rules@[i]),
            forall|i: int| 0 <= i < nets@.len() ==> net_ok(#[trigger] nets@[i]),
        decreases toks@.len() - p,
    {
        if punct(&toks, p + 1) == 11 {
            let name = match ident_at(&toks, p, Ghost(len as nat)) {
                Some(s) => s,
                None => return Err(error_at(&toks, p, len)),
            };
            let mut q = p + 2;
            let mut interfaces: Vec<Term> = Vec::new();
            if punct(&toks, q) == 12 {
                q += 1;
            } else {
                loop
                    invariant
                        p < q <= toks@.len(),
                        len == source@.len(),
                        tokens_ok(toks@, len as nat),
                        lex(source@, 0) is Ok,
                        forall|i: int| 0 <= i < interfaces@.len() ==> term_ok(#[trigger] interfaces@[i]),
                    decreases toks@.len() - q,
                {
                    let (t, q2) = parse_term(&toks, q, len)?;
                    interfaces.push(t);
                    q = q2;
                    let c = punct(&toks, q);
                    if c == 3 {
                        q += 1;
                        if q >= toks.len() {
                            return Err(error_at(&toks, q, len));
                        }
                    } else if c == 12 {
                        q += 1;
                        break;
                    } else {
                        return Err(error_at(&toks, q, len));
                    }
                }
            }
            let (equations, q2) = parse_equations(&toks, q, len)?;
            nets.push(Net { name, interfaces, equations });
            p = q2;
        } else {
            let (a, q) = parse_rule_term(&toks, p, len)?;
            let c = punct(&toks, q);
            if c != 7 && c != 8 {
                return Err(error_at(&toks, q, len));
            }
            let (b, q2) = parse_rule_term(&toks, q + 1, len)?;
            if punct(&toks, q2) != 9 {
                return Err(error_at(&toks, q2, len));
            }
            let (equations, q3) = parse_equations(&toks, q2 + 1, len)?;
            if c == 7 {
                rules.push(Rule { left: a, right: b, equations });
            } else {
                rules.push(Rule { left: b, right: a, equations });
            }
            p = q3;
        }
    }
    Ok(Module { rules, nets })
}

} // verus!
