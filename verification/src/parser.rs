//! The query parser: compiles query source text into a statement tree.
//!
//! Grammar (whitespace separates tokens and is otherwise ignored):
//!
//! ```text
//! query     := statement?                  -- empty text: the default statement
//! statement := verb scope? | scope
//! verb      := IDENT | '*'                 -- '*' and a missing verb: match-all
//! scope     := '{' statement* '}'
//! ```
//!
//! An unexpected token inside a statement context is a parse failure naming
//! the expected productions (verb, scope) and what was found instead, with
//! the offending span.

use vstd::prelude::*;
use crate::statement::{scope_view, stmt_view, stmts_view, DefaultStatement, Scope, ScopeV, StmtV};
use crate::verb::{verb_view, Verb, VerbV};
use vstd::string::StrSliceExecFns;

verus! {

broadcast use vstd::std_specs::vec::group_vec_axioms;

/// One token of query text.
#[derive(Debug)]
pub enum Token {
    Ident(String),
    Star,
    LBrace,
    RBrace,
}

/// The content of a token.
pub enum TokV {
    Ident(Seq<char>),
    Star,
    LBrace,
    RBrace,
}

impl View for Token {
    type V = TokV;

    open spec fn view(&self) -> TokV {
        match self {
            Token::Ident(n) => TokV::Ident(n@),
            Token::Star => TokV::Star,
            Token::LBrace => TokV::LBrace,
            Token::RBrace => TokV::RBrace,
        }
    }
}

/// The contents of a token sequence.
pub open spec fn toks_view(ts: Seq<Token>) -> Seq<TokV> {
    ts.map_values(|t: Token| t@)
}

/// A character an identifier may consist of: a letter, a digit or an
/// underscore.
pub open spec fn is_ident_char(c: char) -> bool {
    ('a' <= c && c <= 'z') || ('A' <= c && c <= 'Z') || ('0' <= c && c <= '9') || c == '_'
}

/// Whitespace between tokens.
pub open spec fn is_space_char(c: char) -> bool {
    c == ' ' || c == '\t' || c == '\r' || c == '\n'
}

/// The length of the identifier starting at the head of `s`.
pub open spec fn ident_len(s: Seq<char>) -> int
    decreases s.len(),
{
    if s.len() > 0 && is_ident_char(s[0]) {
        1 + ident_len(s.drop_first())
    } else {
        0
    }
}

pub proof fn lemma_ident_len_bounds(s: Seq<char>)
    ensures
        0 <= ident_len(s) <= s.len(),
    decreases s.len(),
{
    if s.len() > 0 && is_ident_char(s[0]) {
        lemma_ident_len_bounds(s.drop_first());
    }
}

/// The identifier at the head of `s` is exactly its first `k` characters.
pub proof fn lemma_ident_len_is(s: Seq<char>, k: int)
    requires
        0 <= k <= s.len(),
        forall|i: int| 0 <= i < k ==> is_ident_char(#[trigger] s[i]),
        k == s.len() || !is_ident_char(s[k]),
    ensures
        ident_len(s) == k,
    decreases k,
{
    if k == 0 {
    } else {
        assert(is_ident_char(s[0]));
        assert forall|i: int| 0 <= i < k - 1 implies is_ident_char(
            #[trigger] s.drop_first()[i],
        ) by {
            assert(s[i + 1] == s.drop_first()[i]);
        }
        if k - 1 < s.drop_first().len() {
            assert(s.drop_first()[k - 1] == s[k]);
        }
        lemma_ident_len_is(s.drop_first(), k - 1);
    }
}

/// Prepends an already-lexed prefix to the outcome of lexing the rest.
pub open spec fn prepend_toks(ts: Seq<TokV>, rest: Option<Seq<TokV>>) -> Option<Seq<TokV>> {
    match rest {
        Option::None => Option::None,
        Option::Some(r) => Option::Some(ts + r),
    }
}

/// One token followed by the outcome of lexing the rest.
pub open spec fn lex_cons(t: TokV, rest: Option<Seq<TokV>>) -> Option<Seq<TokV>> {
    match rest {
        Option::None => Option::None,
        Option::Some(r) => Option::Some(seq![t] + r),
    }
}

pub proof fn lemma_prepend_cons(ts: Seq<TokV>, t: TokV, rest: Option<Seq<TokV>>)
    ensures
        prepend_toks(ts, lex_cons(t, rest)) == prepend_toks(ts.push(t), rest),
{
    match rest {
        Option::None => {},
        Option::Some(r) => {
            assert(ts + (seq![t] + r) =~= ts.push(t) + r);
        },
    }
}

/// The tokens of query text, or `None` at the first character no token can
/// start with. Maximal munch for identifiers; whitespace skipped.
pub open spec fn spec_lex(s: Seq<char>) -> Option<Seq<TokV>>
    decreases s.len(),
    via spec_lex_dec
{
    if s.len() == 0 {
        Option::Some(Seq::empty())
    } else if is_space_char(s[0]) {
        spec_lex(s.drop_first())
    } else if s[0] == '*' {
        lex_cons(TokV::Star, spec_lex(s.drop_first()))
    } else if s[0] == '{' {
        lex_cons(TokV::LBrace, spec_lex(s.drop_first()))
    } else if s[0] == '}' {
        lex_cons(TokV::RBrace, spec_lex(s.drop_first()))
    } else if is_ident_char(s[0]) {
        lex_cons(TokV::Ident(s.take(ident_len(s))), spec_lex(s.skip(ident_len(s))))
    } else {
        Option::None
    }
}

#[via_fn]
proof fn spec_lex_dec(s: Seq<char>) {
    lemma_ident_len_bounds(s);
    if s.len() > 0 && is_ident_char(s[0]) {
        lemma_ident_len_bounds(s.drop_first());
    }
}

/// A grammar production the parser can expect.
#[derive(Debug, PartialEq, Eq, Structural, Copy, Clone)]
pub enum Production {
    Verb,
    Scope,
}

/// A sequence of statements has as many contents as members.
proof fn lemma_stmts_view_len(ss: Seq<DefaultStatement>)
    ensures
        stmts_view(ss).len() == ss.len(),
    decreases ss.len(),
{
    if ss.len() > 0 {
        lemma_stmts_view_len(ss.drop_last());
    }
}

/// The productions a statement context accepts: a verb or a scope.
pub open spec fn expected_productions() -> Seq<Production> {
    seq![Production::Verb, Production::Scope]
}

/// A parse failure: the productions that would have been accepted, the text
/// actually encountered, and the offending character span.
#[derive(Debug)]
pub struct ParseError {
    pub expected: Vec<Production>,
    pub found: String,
    pub span_start: usize,
    pub span_end: usize,
}

/// Parse one statement starting at token `i`: a verb with an optional
/// scope, or a bare scope.
pub open spec fn sp_stmt(ts: Seq<TokV>, i: int) -> Option<(StmtV, int)>
    decreases ts.len() - i, 3int,
{
    if i < 0 || i >= ts.len() {
        Option::None
    } else {
        match ts[i] {
            TokV::Ident(n) => sp_optscope(ts, i + 1, VerbV::Named(n)),
            TokV::Star => sp_optscope(ts, i + 1, VerbV::All),
            TokV::LBrace => match sp_scope(ts, i) {
                Option::None => Option::None,
                Option::Some((sc, j)) => Option::Some(
                    (StmtV { verb: VerbV::All, scope: sc }, j),
                ),
            },
            TokV::RBrace => Option::None,
        }
    }
}

/// After a verb: an optional scope, else the empty scope.
pub open spec fn sp_optscope(ts: Seq<TokV>, i: int, v: VerbV) -> Option<(StmtV, int)>
    decreases ts.len() - i, 3int,
{
    if 0 <= i < ts.len() && (ts[i] is LBrace) {
        match sp_scope(ts, i) {
            Option::None => Option::None,
            Option::Some((sc, j)) => Option::Some((StmtV { verb: v, scope: sc }, j)),
        }
    } else {
        Option::Some((StmtV { verb: v, scope: ScopeV::Empty }, i))
    }
}

/// A scope: a brace-enclosed block of statements.
pub open spec fn sp_scope(ts: Seq<TokV>, i: int) -> Option<(ScopeV, int)>
    decreases ts.len() - i, 2int,
{
    if 0 <= i < ts.len() && (ts[i] is LBrace) {
        match sp_stmts(ts, i + 1) {
            Option::None => Option::None,
            Option::Some((list, j)) => if list.len() > 0 && j < ts.len() && (ts[j] is RBrace) {
                Option::Some((ScopeV::Block(list), j + 1))
            } else {
                Option::None
            },
        }
    } else {
        Option::None
    }
}

/// A possibly-empty run of statements, ending before a closing brace or the
/// end of input.
pub open spec fn sp_stmts(ts: Seq<TokV>, i: int) -> Option<(Seq<StmtV>, int)>
    decreases ts.len() - i, 4int,
{
    if 0 <= i < ts.len() && !(ts[i] is RBrace) {
        match sp_stmt(ts, i) {
            Option::None => Option::None,
            Option::Some((st, j)) => if i < j <= ts.len() {
                match sp_stmts(ts, j) {
                    Option::None => Option::None,
                    Option::Some((rest, k)) => Option::Some((seq![st] + rest, k)),
                }
            } else {
                Option::None
            },
        }
    } else {
        Option::Some((Seq::empty(), i))
    }
}

/// A whole query: empty text is the default statement (match-all verb,
/// empty scope); otherwise one statement covering every token.
pub open spec fn spec_build(s: Seq<char>) -> Option<StmtV> {
    match spec_lex(s) {
        Option::None => Option::None,
        Option::Some(ts) => if ts.len() == 0 {
            Option::Some(StmtV { verb: VerbV::All, scope: ScopeV::Empty })
        } else {
            match sp_stmt(ts, 0) {
                Option::None => Option::None,
                Option::Some((st, j)) => if j == ts.len() {
                    Option::Some(st)
                } else {
                    Option::None
                },
            }
        },
    }
}

fn is_ident_char_exec(c: char) -> (r: bool)
    ensures
        r == is_ident_char(c),
{
    ('a' <= c && c <= 'z') || ('A' <= c && c <= 'Z') || ('0' <= c && c <= '9') || c == '_'
}

fn is_space_char_exec(c: char) -> (r: bool)
    ensures
        r == is_space_char(c),
{
    c == ' ' || c == '\t' || c == '\r' || c == '\n'
}

/// Splits query text into tokens and their character spans.
fn lex(text: &str) -> (r: Result<(Vec<Token>, Vec<(usize, usize)>), ParseError>)
    ensures
        match r {
            Ok(p) => spec_lex(text@) == Option::Some(toks_view(p.0@)) && p.1@.len() == p.0@.len()
                && forall|i: int|
                0 <= i < p.1@.len() ==> (#[trigger] p.1@[i]).0 <= p.1@[i].1 <= text@.len(),
            Err(e) => spec_lex(text@) is None && e.expected@ == expected_productions()
                && e.span_start <= e.span_end <= text@.len(),
        },
{
    let n = text.unicode_len();
    let mut toks: Vec<Token> = Vec::new();
    let mut spans: Vec<(usize, usize)> = Vec::new();
    proof {
        assert(text@.skip(0) =~= text@);
        assert(toks_view(Seq::<Token>::empty()) =~= Seq::<TokV>::empty());
        let lx = spec_lex(text@);
        if lx is Some {
            assert(Seq::<TokV>::empty() + lx.unwrap() =~= lx.unwrap());
        }
    }
    let mut pos: usize = 0;
    while pos < n
        invariant
            pos <= n,
            n == text@.len(),
            spans@.len() == toks@.len(),
            forall|i: int| 0 <= i < spans@.len() ==> (#[trigger] spans@[i]).0 <= spans@[i].1 <= n,
            prepend_toks(toks_view(toks@), spec_lex(text@.skip(pos as int))) == spec_lex(text@),
        decreases n - pos,
    {
        let ghost rem = text@.skip(pos as int);
        let c = text.get_char(pos);
        proof {
            assert(rem[0] == c);
            assert(rem.drop_first() =~= text@.skip(pos + 1));
        }
        if is_space_char_exec(c) {
            pos = pos + 1;
        } else if c == '*' || c == '{' || c == '}' {
            let t = if c == '*' {
                Token::Star
            } else if c == '{' {
                Token::LBrace
            } else {
                Token::RBrace
            };
            proof {
                lemma_prepend_cons(toks_view(toks@), t@, spec_lex(text@.skip(pos + 1)));
            }
            let ghost prev = toks@;
            toks.push(t);
            spans.push((pos, pos + 1));
            proof {
                assert(toks_view(toks@) =~= toks_view(prev).push(toks@.last()@));
            }
            pos = pos + 1;
        } else if is_ident_char_exec(c) {
            let mut end = pos + 1;
            while end < n && is_ident_char_exec(text.get_char(end))
                invariant
                    pos < end <= n,
                    n == text@.len(),
                    forall|k: int| pos <= k < end ==> is_ident_char(#[trigger] text@[k]),
                decreases n - end,
            {
                end = end + 1;
            }
            proof {
                assert forall|i: int| 0 <= i < end - pos implies is_ident_char(
                    #[trigger] rem[i],
                ) by {
                    assert(rem[i] == text@[pos + i]);
                }
                if (end - pos) < rem.len() {
                    assert(rem[end - pos] == text@[end as int]);
                }
                lemma_ident_len_is(rem, end - pos);
                assert(rem.take(end - pos) =~= text@.subrange(pos as int, end as int));
                assert(rem.skip(end - pos) =~= text@.skip(end as int));
            }
            let name = text.substring_char(pos, end).to_owned();
            let t = Token::Ident(name);
            proof {
                assert(t@ == TokV::Ident(rem.take(ident_len(rem))));
                lemma_prepend_cons(toks_view(toks@), t@, spec_lex(text@.skip(end as int)));
            }
            let ghost prev = toks@;
            toks.push(t);
            spans.push((pos, end));
            proof {
                assert(toks_view(toks@) =~= toks_view(prev).push(toks@.last()@));
            }
            pos = end;
        } else {
            let mut expected: Vec<Production> = Vec::new();
            expected.push(Production::Verb);
            expected.push(Production::Scope);
            proof {
                assert(expected@ =~= expected_productions());
            }
            return Err(
                ParseError {
                    expected,
                    found: text.substring_char(pos, pos + 1).to_owned(),
                    span_start: pos,
                    span_end: pos + 1,
                },
            );
        }
    }
    proof {
        assert(text@.skip(n as int) =~= Seq::<char>::empty());
        assert(toks_view(toks@) + Seq::<TokV>::empty() =~= toks_view(toks@));
    }
    Ok((toks, spans))
}

/// The raw text of a token, for error reports.
fn token_text(t: &Token) -> (r: String) {
    match t {
        Token::Ident(n) => n.clone(),
        Token::Star => "*".to_owned(),
        Token::LBrace => "{".to_owned(),
        Token::RBrace => "}".to_owned(),
    }
}

/// A parse failure at token `pos`, expecting a verb or a scope.
fn err_at(
    ts: &Vec<Token>,
    spans: &Vec<(usize, usize)>,
    pos: usize,
    text_end: usize,
) -> (r: ParseError)
    requires
        spans@.len() == ts@.len(),
        forall|i: int| 0 <= i < spans@.len() ==> (#[trigger] spans@[i]).0 <= spans@[i].1 <= text_end,
    ensures
        r.expected@ == expected_productions(),
        r.span_start <= r.span_end <= text_end,
{
    let mut expected: Vec<Production> = Vec::new();
    expected.push(Production::Verb);
    expected.push(Production::Scope);
    proof {
        assert(expected@ =~= expected_productions());
    }
    if pos < ts.len() {
        let sp = spans[pos];
        ParseError {
            expected,
            found: token_text(&ts[pos]),
            span_start: sp.0,
            span_end: sp.1,
        }
    } else {
        ParseError { expected, found: String::new(), span_start: text_end, span_end: text_end }
    }
}

fn parse_stmt(
    ts: &Vec<Token>,
    spans: &Vec<(usize, usize)>,
    pos: usize,
    text_end: usize,
) -> (r: Result<(DefaultStatement, usize), ParseError>)
    requires
        spans@.len() == ts@.len(),
        forall|i: int| 0 <= i < spans@.len() ==> (#[trigger] spans@[i]).0 <= spans@[i].1 <= text_end,
        pos <= ts@.len(),
    ensures
        match r {
            Ok(p) => sp_stmt(toks_view(ts@), pos as int) == Option::Some(
                (stmt_view(p.0), p.1 as int),
            ) && pos < p.1 <= ts@.len(),
            Err(e) => sp_stmt(toks_view(ts@), pos as int) is None && e.expected@
                == expected_productions() && e.span_start <= e.span_end <= text_end,
        },
    decreases ts@.len() - pos, 3int,
{
    if pos >= ts.len() {
        return Err(err_at(ts, spans, pos, text_end));
    }
    proof {
        assert(toks_view(ts@)[pos as int] == ts@[pos as int]@);
    }
    match &ts[pos] {
        Token::Ident(n) => parse_optscope(ts, spans, pos + 1, Verb::Named(n.clone()), text_end),
        Token::Star => parse_optscope(ts, spans, pos + 1, Verb::All, text_end),
        Token::LBrace => {
            match parse_scope(ts, spans, pos, text_end) {
                Ok((sc, j)) => Ok((DefaultStatement { verb: Verb::All, scope: sc }, j)),
                Err(e) => Err(e),
            }
        },
        Token::RBrace => Err(err_at(ts, spans, pos, text_end)),
    }
}

fn parse_optscope(
    ts: &Vec<Token>,
    spans: &Vec<(usize, usize)>,
    pos: usize,
    v: Verb,
    text_end: usize,
) -> (r: Result<(DefaultStatement, usize), ParseError>)
    requires
        spans@.len() == ts@.len(),
        forall|i: int| 0 <= i < spans@.len() ==> (#[trigger] spans@[i]).0 <= spans@[i].1 <= text_end,
        pos <= ts@.len(),
    ensures
        match r {
            Ok(p) => sp_optscope(toks_view(ts@), pos as int, verb_view(v)) == Option::Some(
                (stmt_view(p.0), p.1 as int),
            ) && pos <= p.1 <= ts@.len(),
            Err(e) => sp_optscope(toks_view(ts@), pos as int, verb_view(v)) is None
                && e.expected@ == expected_productions() && e.span_start <= e.span_end
                <= text_end,
        },
    decreases ts@.len() - pos, 3int,
{
    let mut opens = false;
    if pos < ts.len() {
        proof {
            assert(toks_view(ts@)[pos as int] == ts@[pos as int]@);
        }
        opens = match &ts[pos] {
            Token::LBrace => true,
            _ => false,
        };
    }
    if opens {
        match parse_scope(ts, spans, pos, text_end) {
            Ok((sc, j)) => Ok((DefaultStatement { verb: v, scope: sc }, j)),
            Err(e) => Err(e),
        }
    } else {
        Ok((DefaultStatement { verb: v, scope: Scope::Empty }, pos))
    }
}

fn parse_scope(
    ts: &Vec<Token>,
    spans: &Vec<(usize, usize)>,
    pos: usize,
    text_end: usize,
) -> (r: Result<(Scope, usize), ParseError>)
    requires
        spans@.len() == ts@.len(),
        forall|i: int| 0 <= i < spans@.len() ==> (#[trigger] spans@[i]).0 <= spans@[i].1 <= text_end,
        pos <= ts@.len(),
    ensures
        match r {
            Ok(p) => sp_scope(toks_view(ts@), pos as int) == Option::Some(
                (scope_view(p.0), p.1 as int),
            ) && pos < p.1 <= ts@.len(),
            Err(e) => sp_scope(toks_view(ts@), pos as int) is None && e.expected@
                == expected_productions() && e.span_start <= e.span_end <= text_end,
        },
    decreases ts@.len() - pos, 2int,
{
    let mut opens = false;
    if pos < ts.len() {
        proof {
            assert(toks_view(ts@)[pos as int] == ts@[pos as int]@);
        }
        opens = match &ts[pos] {
            Token::LBrace => true,
            _ => false,
        };
    }
    if !opens {
        return Err(err_at(ts, spans, pos, text_end));
    }
    match parse_stmts(ts, spans, pos + 1, text_end) {
        Ok((list, j)) => {
            proof {
                lemma_stmts_view_len(list@);
            }
            if list.len() == 0 {
                // a scope-clause nests one or more statements
                return Err(err_at(ts, spans, j, text_end));
            }
            if j < ts.len() {
                proof {
                    assert(toks_view(ts@)[j as int] == ts@[j as int]@);
                }
                let closes = match &ts[j] {
                    Token::RBrace => true,
                    _ => false,
                };
                if closes {
                    return Ok((Scope::Block(list), j + 1));
                }
            }
            Err(err_at(ts, spans, j, text_end))
        },
        Err(e) => Err(e),
    }
}

fn parse_stmts(
    ts: &Vec<Token>,
    spans: &Vec<(usize, usize)>,
    pos: usize,
    text_end: usize,
) -> (r: Result<(Vec<DefaultStatement>, usize), ParseError>)
    requires
        spans@.len() == ts@.len(),
        forall|i: int| 0 <= i < spans@.len() ==> (#[trigger] spans@[i]).0 <= spans@[i].1 <= text_end,
        pos <= ts@.len(),
    ensures
        match r {
            Ok(p) => sp_stmts(toks_view(ts@), pos as int) == Option::Some(
                (stmts_view(p.0@), p.1 as int),
            ) && pos <= p.1 <= ts@.len(),
            Err(e) => sp_stmts(toks_view(ts@), pos as int) is None && e.expected@
                == expected_productions() && e.span_start <= e.span_end <= text_end,
        },
    decreases ts@.len() - pos, 4int,
{
    let mut starts = false;
    if pos < ts.len() {
        proof {
            assert(toks_view(ts@)[pos as int] == ts@[pos as int]@);
        }
        starts = match &ts[pos] {
            Token::RBrace => false,
            _ => true,
        };
    }
    if !starts {
        proof {
            assert(stmts_view(Seq::<DefaultStatement>::empty()) =~= Seq::<StmtV>::empty());
        }
        return Ok((Vec::new(), pos));
    }
    match parse_stmt(ts, spans, pos, text_end) {
        Ok((st, j)) => {
            match parse_stmts(ts, spans, j, text_end) {
                Ok((mut rest, k)) => {
                    let mut list: Vec<DefaultStatement> = Vec::new();
                    let ghost restv = rest@;
                    let ghost st_g = st;
                    list.push(st);
                    list.append(&mut rest);
                    proof {
                        assert(list@ =~= seq![st_g] + restv);
                        lemma_stmts_view_concat(seq![st_g], restv);
                        assert(seq![st_g].drop_last() =~= Seq::<DefaultStatement>::empty());
                        assert(stmts_view(Seq::<DefaultStatement>::empty())
                            =~= Seq::<StmtV>::empty());
                        assert(stmts_view(seq![st_g]) =~= seq![stmt_view(st_g)]);
                    }
                    Ok((list, k))
                },
                Err(e) => Err(e),
            }
        },
        Err(e) => Err(e),
    }
}

pub proof fn lemma_stmts_view_concat(a: Seq<DefaultStatement>, b: Seq<DefaultStatement>)
    ensures
        stmts_view(a + b) == stmts_view(a) + stmts_view(b),
    decreases b.len(),
{
    if b.len() == 0 {
        assert(a + b =~= a);
        assert(stmts_view(a) + stmts_view(b) =~= stmts_view(a));
    } else {
        lemma_stmts_view_concat(a, b.drop_last());
        assert((a + b).drop_last() =~= a + b.drop_last());
        assert((a + b).last() == b.last());
        assert(stmts_view(a) + stmts_view(b) =~= (stmts_view(a) + stmts_view(
            b.drop_last(),
        )).push(stmt_view(b.last())));
    }
}

/// Compiles query source text into a statement tree. Succeeds exactly when
/// the text lexes and is one statement of the grammar (or is empty, which
/// yields the default match-all statement with an empty scope); the
/// returned tree is pinned by the grammar's parse functions.
pub fn build_statement(text: &str) -> (r: Result<DefaultStatement, ParseError>)
    ensures
        r is Ok <==> spec_build(text@) is Some,
        r matches Ok(st) ==> spec_build(text@) == Option::Some(stmt_view(st)),
        r matches Err(e) ==> e.expected@ == expected_productions() && e.span_start <= e.span_end
            <= text@.len(),
{
    let n = text.unicode_len();
    let (toks, spans) = match lex(text) {
        Ok(p) => p,
        Err(e) => {
            return Err(e);
        },
    };
    if toks.len() == 0 {
        proof {
            assert(scope_view(Scope::Empty) == ScopeV::Empty);
        }
        return Ok(DefaultStatement { verb: Verb::All, scope: Scope::Empty });
    }
    match parse_stmt(&toks, &spans, 0, n) {
        Ok((st, j)) => {
            if j == toks.len() {
                Ok(st)
            } else {
                Err(err_at(&toks, &spans, j, n))
            }
        },
        Err(e) => Err(e),
    }
}

} // verus!
