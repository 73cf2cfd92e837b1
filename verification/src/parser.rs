//! Tokens, parse errors, and the recursive-descent graph builder.

use crate::optimizer::{peephole, peephole_model};
use crate::rep::ctl::{Return, Start};
use crate::rep::data::{Add, Div, Int, Mul, Sub};
use crate::rep::scope::{
    frame_lookup, frames_inv, lemma_scope_lookup_in_range, scope_lookup, Scope, ScopeError,
};
use crate::rep::{
    append_node0, append_node1, append_node2, lemma_input_not_scope, node_ok, push_in, wf, Graph,
    InstrKind, NodeModel, TypeKind,
};
use vstd::prelude::*;

verus! {

/// The kind of a lexeme, as the external tokenizer classifies it.
#[derive(Debug, Clone, Copy, PartialEq, Eq, Structural)]
pub enum TT {
    KeywordInt,
    KeywordRet,
    Alias,
    LiteralInt,
    PuncLeftParen,
    PuncRightParen,
    PuncLeftBrace,
    PuncRightBrace,
    PuncSemiColon,
    Equals,
    Plus,
    Minus,
    Star,
    Slash,
}

/// One token of the input stream: its kind and its source lexeme.
#[derive(Debug)]
pub struct Token {
    pub typ: TT,
    pub lexeme: String,
}

/// The mathematical model of one token.
#[verifier::ext_equal]
pub ghost struct TokenModel {
    pub typ: TT,
    pub lexeme: Seq<char>,
}

impl View for Token {
    type V = TokenModel;

    open spec fn view(&self) -> TokenModel {
        TokenModel { typ: self.typ, lexeme: self.lexeme@ }
    }
}

/// Everything that can abort a parse. All errors are detected eagerly and
/// propagate immediately with no recovery: the first error aborts the whole
/// compilation unit, and no partial graph is valid for a backend.
#[derive(Debug, PartialEq, Eq)]
pub enum ParseError {
    /// A binding failure of the scope resolver, carried up unchanged.
    Scope(ScopeError),
    /// A grammar violation during a required match.
    TokenMismatch { expected: TT, actual: TT },
    /// The token stream ended in the middle of a production.
    UnexpectedEndOfStream,
    /// Tokens remain after a well-formed program.
    UnexpectedTrailingTokens,
    /// A constant division by zero was folded at parse time.
    DivisionByZero,
}

/// The kind of a scope failure, without its identifier payload.
pub ghost enum ScErr {
    DoubleDefine,
    NotFound,
    NoNvExists,
}

/// The mathematical model of a parse error; scope errors carry the
/// identifier they name as a character sequence.
pub ghost enum ErrModel {
    Scope(ScErr, Seq<char>),
    TokenMismatch(TT, TT),
    UnexpectedEndOfStream,
    UnexpectedTrailingTokens,
    DivisionByZero,
}

impl View for ParseError {
    type V = ErrModel;

    open spec fn view(&self) -> ErrModel {
        match self {
            ParseError::Scope(ScopeError::DoubleDefine(a)) => ErrModel::Scope(
                ScErr::DoubleDefine,
                a@,
            ),
            ParseError::Scope(ScopeError::NotFound(a)) => ErrModel::Scope(ScErr::NotFound, a@),
            ParseError::Scope(ScopeError::NoNvExists) => ErrModel::Scope(
                ScErr::NoNvExists,
                Seq::empty(),
            ),
            ParseError::TokenMismatch { expected, actual } => ErrModel::TokenMismatch(
                *expected,
                *actual,
            ),
            ParseError::UnexpectedEndOfStream => ErrModel::UnexpectedEndOfStream,
            ParseError::UnexpectedTrailingTokens => ErrModel::UnexpectedTrailingTokens,
            ParseError::DivisionByZero => ErrModel::DivisionByZero,
        }
    }
}


/// A decimal digit.
pub open spec fn is_digit(c: char) -> bool {
    48 <= c as u32 <= 57
}

/// The value of a decimal digit.
pub open spec fn digit_val(c: char) -> int {
    c as u32 - 48
}

/// The value of a string of decimal digits.
pub open spec fn digits_val(s: Seq<char>) -> int
    decreases s.len(),
{
    if s.len() == 0 {
        0
    } else {
        digits_val(s.drop_last()) * 10 + digit_val(s.last())
    }
}

/// A lexeme the external tokenizer may attach to an integer-literal token:
/// one or more decimal digits whose value fits the constant representation.
pub open spec fn is_int_literal(s: Seq<char>) -> bool {
    &&& s.len() > 0
    &&& forall|i: int| 0 <= i < s.len() ==> is_digit(#[trigger] s[i])
    &&& digits_val(s) <= i128::MAX
}

/// A digit string's prefix values are non-negative.
pub proof fn lemma_digits_nonneg(s: Seq<char>, k: int)
    requires
        0 <= k <= s.len(),
        forall|i: int| 0 <= i < s.len() ==> is_digit(#[trigger] s[i]),
    ensures
        digits_val(s.take(k)) >= 0,
    decreases k,
{
    if k == 0 {
        assert(s.take(0) =~= Seq::<char>::empty());
    } else {
        lemma_digits_nonneg(s, k - 1);
        assert(s.take(k).drop_last() =~= s.take(k - 1));
        assert(s.take(k).last() == s[k - 1]);
    }
}

/// A digit string's prefix values never exceed the whole string's value.
pub proof fn lemma_digits_prefix_le(s: Seq<char>, k: int)
    requires
        0 <= k <= s.len(),
        forall|i: int| 0 <= i < s.len() ==> is_digit(#[trigger] s[i]),
    ensures
        digits_val(s.take(k)) <= digits_val(s),
    decreases s.len() - k,
{
    if k == s.len() {
        assert(s.take(k) =~= s);
    } else {
        lemma_digits_nonneg(s, k);
        lemma_digits_prefix_le(s, k + 1);
        assert(s.take(k + 1).drop_last() =~= s.take(k));
        assert(s.take(k + 1).last() == s[k]);
    }
}

/// Read the value of an integer literal.
pub fn parse_int_literal(s: &str) -> (r: i128)
    requires
        is_int_literal(s@),
    ensures
        r == digits_val(s@),
{
    let n = s.unicode_len();
    let mut i: usize = 0;
    let mut acc: i128 = 0;
    proof {
        assert(s@.take(0) =~= Seq::<char>::empty());
    }
    while i < n
        invariant
            i <= n,
            n == s@.len(),
            is_int_literal(s@),
            acc == digits_val(s@.take(i as int)),
        decreases n - i,
    {
        let c = s.get_char(i);
        proof {
            assert(is_digit(s@[i as int]));
            lemma_digits_nonneg(s@, i as int);
            lemma_digits_prefix_le(s@, i as int + 1);
            assert(s@.take(i as int + 1).drop_last() =~= s@.take(i as int));
            assert(s@.take(i as int + 1).last() == s@[i as int]);
        }
        let d = (c as u32) - 48;
        acc = acc * 10 + (d as i128);
        i = i + 1;
    }
    proof {
        assert(s@.take(n as int) =~= s@);
    }
    acc
}

/// The models of a token sequence.
pub open spec fn tv(ts: Seq<Token>) -> Seq<TokenModel> {
    ts.map_values(|t: Token| t@)
}

/// Every integer-literal token carries a valid literal lexeme, as the
/// external tokenizer guarantees.
pub open spec fn lit_tokens_ok(toks: Seq<TokenModel>) -> bool {
    forall|i: int|
        0 <= i < toks.len() ==> ((#[trigger] toks[i]).typ == TT::LiteralInt ==> is_int_literal(
            toks[i].lexeme,
        ))
}

/// The state a parse threads along: the graph under construction and the
/// frame stack, with the fixed handles of the entry node and of the scope
/// frame node.
#[verifier::ext_equal]
pub ghost struct St {
    pub nodes: Seq<NodeModel>,
    pub frames: Seq<Seq<(Seq<char>, usize)>>,
    pub start: usize,
    pub snode: usize,
}

/// The parse state's invariant: a well-formed graph whose entry node is
/// `start`, with the resolver invariant for the frame stack.
pub open spec fn st_inv(st: St) -> bool {
    &&& wf(st.nodes)
    &&& st.nodes.len() <= usize::MAX
    &&& st.start < st.nodes.len()
    &&& st.nodes[st.start as int].kind is Start
    &&& frames_inv(st.frames, st.nodes, st.snode)
}

/// One required token: fails with `UnexpectedEndOfStream` past the end and
/// with `TokenMismatch` on any other kind; consumes exactly one token.
pub open spec fn require_model(toks: Seq<TokenModel>, pos: int, tt: TT) -> Result<int, ErrModel> {
    if pos >= toks.len() {
        Err(ErrModel::UnexpectedEndOfStream)
    } else if toks[pos].typ == tt {
        Ok(pos + 1)
    } else {
        Err(ErrModel::TokenMismatch(tt, toks[pos].typ))
    }
}

/// factor := INT_LITERAL | ident — one token. A literal becomes a constant
/// leaf anchored on the entry node; an identifier resolves through the
/// scope, innermost frame first.
pub open spec fn factor_model(st: St, toks: Seq<TokenModel>, pos: int) -> Result<
    (St, usize),
    ErrModel,
> {
    if pos >= toks.len() {
        Err(ErrModel::UnexpectedEndOfStream)
    } else {
        let t = toks[pos];
        if t.typ == TT::LiteralInt {
            let nodes2 = append_node1(
                st.nodes,
                InstrKind::Int,
                TypeKind::Int(digits_val(t.lexeme) as i128),
                st.start,
            );
            Ok((St { nodes: nodes2, ..st }, st.nodes.len() as usize))
        } else if t.typ == TT::Alias {
            match scope_lookup(st.frames, t.lexeme) {
                Some(slot) => Ok((st, st.nodes[st.snode as int].inputs[slot as int])),
                None => Err(ErrModel::Scope(ScErr::NotFound, t.lexeme)),
            }
        } else {
            Err(ErrModel::TokenMismatch(TT::LiteralInt, t.typ))
        }
    }
}

/// One freshly built arithmetic node over `x` and `y`, peephole-folded at
/// once, as the grammar demands for every arithmetic node.
pub open spec fn arith_model(st: St, kind: InstrKind, x: usize, y: usize) -> Result<
    (St, usize),
    ErrModel,
> {
    let n = st.nodes.len() as usize;
    match peephole_model(append_node2(st.nodes, kind, TypeKind::Bot, x, y), n, st.start) {
        Ok((nodes2, r)) => Ok((St { nodes: nodes2, ..st }, r)),
        Err(e) => Err(e),
    }
}

/// term := factor (('*' | '/') factor)* — left-associative.
pub open spec fn term_tail_model(st: St, toks: Seq<TokenModel>, x: usize, pos: int) -> Result<
    (St, usize, int),
    ErrModel,
>
    decreases toks.len() - pos,
{
    if 0 <= pos < toks.len() && (toks[pos].typ == TT::Star || toks[pos].typ == TT::Slash) {
        let kind = if toks[pos].typ == TT::Star {
            InstrKind::Mul
        } else {
            InstrKind::Div
        };
        match factor_model(st, toks, pos + 1) {
            Err(e) => Err(e),
            Ok((st1, y)) => match arith_model(st1, kind, x, y) {
                Err(e) => Err(e),
                Ok((st2, r)) => term_tail_model(st2, toks, r, pos + 2),
            },
        }
    } else {
        Ok((st, x, pos))
    }
}

/// See `term_tail_model`.
pub open spec fn term_model(st: St, toks: Seq<TokenModel>, pos: int) -> Result<
    (St, usize, int),
    ErrModel,
> {
    match factor_model(st, toks, pos) {
        Err(e) => Err(e),
        Ok((st1, x)) => term_tail_model(st1, toks, x, pos + 1),
    }
}

/// A term consumes tokens and never runs past the end.
pub proof fn lemma_term_tail_pos(st: St, toks: Seq<TokenModel>, x: usize, pos: int)
    requires
        0 <= pos <= toks.len(),
    ensures
        term_tail_model(st, toks, x, pos) matches Ok((st1, x1, p1)) ==> pos <= p1 <= toks.len(),
    decreases toks.len() - pos,
{
    if 0 <= pos < toks.len() && (toks[pos].typ == TT::Star || toks[pos].typ == TT::Slash) {
        let kind = if toks[pos].typ == TT::Star {
            InstrKind::Mul
        } else {
            InstrKind::Div
        };
        match factor_model(st, toks, pos + 1) {
            Err(_) => {},
            Ok((st1, y)) => match arith_model(st1, kind, x, y) {
                Err(_) => {},
                Ok((st2, r)) => {
                    lemma_term_tail_pos(st2, toks, r, pos + 2);
                },
            },
        }
    }
}

/// See `lemma_term_tail_pos`.
pub proof fn lemma_term_pos(st: St, toks: Seq<TokenModel>, pos: int)
    requires
        0 <= pos <= toks.len(),
    ensures
        term_model(st, toks, pos) matches Ok((st1, x1, p1)) ==> pos < p1 <= toks.len(),
{
    match factor_model(st, toks, pos) {
        Err(_) => {},
        Ok((st1, x)) => {
            lemma_term_tail_pos(st1, toks, x, pos + 1);
        },
    }
}

/// expr := term (('+' | '-') term)* — left-associative.
pub open spec fn expr_tail_model(st: St, toks: Seq<TokenModel>, x: usize, pos: int) -> Result<
    (St, usize, int),
    ErrModel,
>
    decreases toks.len() - pos,
{
    if 0 <= pos < toks.len() && (toks[pos].typ == TT::Plus || toks[pos].typ == TT::Minus) {
        let kind = if toks[pos].typ == TT::Plus {
            InstrKind::Add
        } else {
            InstrKind::Sub
        };
        match term_model(st, toks, pos + 1) {
            Err(e) => Err(e),
            Ok((st1, y, pos1)) => match arith_model(st1, kind, x, y) {
                Err(e) => Err(e),
                Ok((st2, r)) => {
                    proof {
                        lemma_term_pos(st, toks, pos + 1);
                    }
                    expr_tail_model(st2, toks, r, pos1)
                },
            },
        }
    } else {
        Ok((st, x, pos))
    }
}

/// See `expr_tail_model`.
pub open spec fn expr_model(st: St, toks: Seq<TokenModel>, pos: int) -> Result<
    (St, usize, int),
    ErrModel,
> {
    match term_model(st, toks, pos) {
        Err(e) => Err(e),
        Ok((st1, x, pos1)) => expr_tail_model(st1, toks, x, pos1),
    }
}

/// An expression consumes tokens and never runs past the end.
pub proof fn lemma_expr_tail_pos(st: St, toks: Seq<TokenModel>, x: usize, pos: int)
    requires
        0 <= pos <= toks.len(),
    ensures
        expr_tail_model(st, toks, x, pos) matches Ok((st1, x1, p1)) ==> pos <= p1 <= toks.len(),
    decreases toks.len() - pos,
{
    if 0 <= pos < toks.len() && (toks[pos].typ == TT::Plus || toks[pos].typ == TT::Minus) {
        let kind = if toks[pos].typ == TT::Plus {
            InstrKind::Add
        } else {
            InstrKind::Sub
        };
        match term_model(st, toks, pos + 1) {
            Err(_) => {},
            Ok((st1, y, pos1)) => {
                lemma_term_pos(st, toks, pos + 1);
                match arith_model(st1, kind, x, y) {
                    Err(_) => {},
                    Ok((st2, r)) => {
                        lemma_expr_tail_pos(st2, toks, r, pos1);
                    },
                }
            },
        }
    }
}

/// See `lemma_expr_tail_pos`.
pub proof fn lemma_expr_pos(st: St, toks: Seq<TokenModel>, pos: int)
    requires
        0 <= pos <= toks.len(),
    ensures
        expr_model(st, toks, pos) matches Ok((st1, x1, p1)) ==> pos < p1 <= toks.len(),
{
    lemma_term_pos(st, toks, pos);
    match term_model(st, toks, pos) {
        Err(_) => {},
        Ok((st1, x, pos1)) => {
            lemma_expr_tail_pos(st1, toks, x, pos1);
        },
    }
}

/// stmt := 'int' ident '=' expr ';' — binding the identifier in the
/// innermost frame — or 'return' expr ';' — building the return node.
pub open spec fn stmt_model(st: St, toks: Seq<TokenModel>, pos: int) -> Result<
    (St, usize, int),
    ErrModel,
> {
    if pos >= toks.len() {
        Err(ErrModel::UnexpectedEndOfStream)
    } else if toks[pos].typ == TT::KeywordInt {
        match require_model(toks, pos + 1, TT::Alias) {
            Err(e) => Err(e),
            Ok(p2) => {
                let alias = toks[pos + 1].lexeme;
                match require_model(toks, p2, TT::Equals) {
                    Err(e) => Err(e),
                    Ok(p3) => match expr_model(st, toks, p3) {
                        Err(e) => Err(e),
                        Ok((st1, x, p4)) => match require_model(toks, p4, TT::PuncSemiColon) {
                            Err(e) => Err(e),
                            Ok(p5) => {
                                if st1.frames.len() == 0 {
                                    Err(ErrModel::Scope(ScErr::NoNvExists, Seq::empty()))
                                } else if frame_lookup(st1.frames.last(), alias) is Some {
                                    Err(ErrModel::Scope(ScErr::DoubleDefine, alias))
                                } else {
                                    let slot = st1.nodes[st1.snode as int].inputs.len() as usize;
                                    let st2 = St {
                                        nodes: push_in(st1.nodes, st1.snode, x),
                                        frames: st1.frames.update(
                                            st1.frames.len() - 1,
                                            st1.frames.last().push((alias, slot)),
                                        ),
                                        ..st1
                                    };
                                    Ok((st2, x, p5))
                                }
                            },
                        },
                    },
                }
            },
        }
    } else if toks[pos].typ == TT::KeywordRet {
        match expr_model(st, toks, pos + 1) {
            Err(e) => Err(e),
            Ok((st1, x, p2)) => match require_model(toks, p2, TT::PuncSemiColon) {
                Err(e) => Err(e),
                Ok(p3) => {
                    let rn = st1.nodes.len() as usize;
                    let st2 = St {
                        nodes: append_node2(
                            st1.nodes,
                            InstrKind::Return,
                            TypeKind::Bot,
                            st1.start,
                            x,
                        ),
                        ..st1
                    };
                    Ok((st2, rn, p3))
                },
            },
        }
    } else {
        Err(ErrModel::TokenMismatch(TT::KeywordRet, toks[pos].typ))
    }
}

/// A statement consumes tokens and never runs past the end.
pub proof fn lemma_stmt_pos(st: St, toks: Seq<TokenModel>, pos: int)
    requires
        0 <= pos <= toks.len(),
    ensures
        stmt_model(st, toks, pos) matches Ok((st1, x1, p1)) ==> pos < p1 <= toks.len(),
{
    if pos < toks.len() && toks[pos].typ == TT::KeywordInt {
        match require_model(toks, pos + 1, TT::Alias) {
            Err(_) => {},
            Ok(p2) => match require_model(toks, p2, TT::Equals) {
                Err(_) => {},
                Ok(p3) => {
                    lemma_expr_pos(st, toks, p3);
                },
            },
        }
    } else if pos < toks.len() && toks[pos].typ == TT::KeywordRet {
        lemma_expr_pos(st, toks, pos + 1);
    }
}

/// block := stmt+ — statements while the lookahead starts one, carrying the
/// node of the last statement as the block's node.
pub open spec fn block_tail_model(st: St, toks: Seq<TokenModel>, last: usize, pos: int) -> Result<
    (St, usize, int),
    ErrModel,
>
    decreases toks.len() - pos,
{
    if 0 <= pos < toks.len() && (toks[pos].typ == TT::KeywordInt || toks[pos].typ
        == TT::KeywordRet) {
        match stmt_model(st, toks, pos) {
            Err(e) => Err(e),
            Ok((st1, nd, pos1)) => {
                proof {
                    lemma_stmt_pos(st, toks, pos);
                }
                block_tail_model(st1, toks, nd, pos1)
            },
        }
    } else {
        Ok((st, last, pos))
    }
}

/// A block: one fresh frame around one or more statements.
pub open spec fn block_model(st: St, toks: Seq<TokenModel>, pos: int) -> Result<
    (St, usize, int),
    ErrModel,
> {
    let st0 = St { frames: st.frames.push(Seq::empty()), ..st };
    match stmt_model(st0, toks, pos) {
        Err(e) => Err(e),
        Ok((st1, nd, pos1)) => match block_tail_model(st1, toks, nd, pos1) {
            Err(e) => Err(e),
            Ok((st2, nd2, pos2)) => Ok(
                (St { frames: st2.frames.drop_last(), ..st2 }, nd2, pos2),
            ),
        },
    }
}

/// A block consumes tokens and never runs past the end.
pub proof fn lemma_block_tail_pos(st: St, toks: Seq<TokenModel>, last: usize, pos: int)
    requires
        0 <= pos <= toks.len(),
    ensures
        block_tail_model(st, toks, last, pos) matches Ok((st1, n1, p1)) ==> pos <= p1
            <= toks.len(),
    decreases toks.len() - pos,
{
    if 0 <= pos < toks.len() && (toks[pos].typ == TT::KeywordInt || toks[pos].typ
        == TT::KeywordRet) {
        match stmt_model(st, toks, pos) {
            Err(_) => {},
            Ok((st1, nd, pos1)) => {
                lemma_stmt_pos(st, toks, pos);
                lemma_block_tail_pos(st1, toks, nd, pos1);
            },
        }
    }
}

/// program := 'int' ident '(' ')' '{' block '}' — and the whole stream must
/// be consumed, else the parse fails with `UnexpectedTrailingTokens`.
pub open spec fn prg_model(st: St, toks: Seq<TokenModel>) -> Result<(St, usize), ErrModel> {
    match require_model(toks, 0, TT::KeywordInt) {
        Err(e) => Err(e),
        Ok(p1) => match require_model(toks, p1, TT::Alias) {
            Err(e) => Err(e),
            Ok(p2) => match require_model(toks, p2, TT::PuncLeftParen) {
                Err(e) => Err(e),
                Ok(p3) => match require_model(toks, p3, TT::PuncRightParen) {
                    Err(e) => Err(e),
                    Ok(p4) => match require_model(toks, p4, TT::PuncLeftBrace) {
                        Err(e) => Err(e),
                        Ok(p5) => match block_model(st, toks, p5) {
                            Err(e) => Err(e),
                            Ok((st1, nd, p6)) => match require_model(
                                toks,
                                p6,
                                TT::PuncRightBrace,
                            ) {
                                Err(e) => Err(e),
                                Ok(p7) => if p7 == toks.len() {
                                    Ok((st1, nd))
                                } else {
                                    Err(ErrModel::UnexpectedTrailingTokens)
                                },
                            },
                        },
                    },
                },
            },
        },
    }
}


/// Law: for every integer literal, parsing the program
/// `int main ( ) { return <literal> ; }` succeeds and yields a graph whose
/// root is a return node with exactly two non-entry nodes reachable from
/// it: one constant leaf carrying the literal's value, anchored on the
/// entry node, and the return node itself, whose inputs are the entry node
/// and that constant.
pub proof fn lemma_literal_program_graph(toks: Seq<TokenModel>)
    requires
        toks.len() == 9,
        toks[0].typ == TT::KeywordInt,
        toks[1].typ == TT::Alias,
        toks[2].typ == TT::PuncLeftParen,
        toks[3].typ == TT::PuncRightParen,
        toks[4].typ == TT::PuncLeftBrace,
        toks[5].typ == TT::KeywordRet,
        toks[6].typ == TT::LiteralInt,
        is_int_literal(toks[6].lexeme),
        toks[7].typ == TT::PuncSemiColon,
        toks[8].typ == TT::PuncRightBrace,
    ensures
        prg_model(init_st(), toks) matches Ok((st, root)) && {
            &&& st.nodes.len() == 4
            &&& root == 3
            &&& st.nodes[3].kind is Return
            &&& st.nodes[3].inputs == seq![0usize, 2usize]
            &&& st.nodes[2].kind is Int
            &&& st.nodes[2].typ == TypeKind::Int(digits_val(toks[6].lexeme) as i128)
            &&& st.nodes[2].inputs == seq![0usize]
            &&& st.nodes[0].kind is Start
            &&& st.nodes[0].inputs.len() == 0
        },
{
    let st0 = init_st();
    let stb = St { frames: st0.frames.push(Seq::empty()), ..st0 };
    assert(require_model(toks, 0, TT::KeywordInt) == Ok::<int, ErrModel>(1));
    assert(require_model(toks, 1, TT::Alias) == Ok::<int, ErrModel>(2));
    assert(require_model(toks, 2, TT::PuncLeftParen) == Ok::<int, ErrModel>(3));
    assert(require_model(toks, 3, TT::PuncRightParen) == Ok::<int, ErrModel>(4));
    assert(require_model(toks, 4, TT::PuncLeftBrace) == Ok::<int, ErrModel>(5));
    // the factor: one constant leaf at handle 2
    let lex = toks[6].lexeme;
    let n1 = append_node1(st0.nodes, InstrKind::Int, TypeKind::Int(digits_val(lex) as i128), 0);
    let st1 = St { nodes: n1, ..stb };
    assert(factor_model(stb, toks, 6) == Ok::<(St, usize), ErrModel>((st1, 2)));
    assert(term_tail_model(st1, toks, 2, 7) == Ok::<(St, usize, int), ErrModel>((st1, 2, 7)));
    assert(term_model(stb, toks, 6) == Ok::<(St, usize, int), ErrModel>((st1, 2, 7)));
    assert(expr_tail_model(st1, toks, 2, 7) == Ok::<(St, usize, int), ErrModel>((st1, 2, 7)));
    assert(expr_model(stb, toks, 6) == Ok::<(St, usize, int), ErrModel>((st1, 2, 7)));
    // the return node at handle 3
    let n2 = append_node2(n1, InstrKind::Return, TypeKind::Bot, 0, 2);
    let st2 = St { nodes: n2, ..st1 };
    assert(stmt_model(stb, toks, 5) == Ok::<(St, usize, int), ErrModel>((st2, 3, 8)));
    assert(block_tail_model(st2, toks, 3, 8) == Ok::<(St, usize, int), ErrModel>((st2, 3, 8)));
    let st3 = St { frames: st2.frames.drop_last(), ..st2 };
    assert(block_model(st0, toks, 5) == Ok::<(St, usize, int), ErrModel>((st3, 3, 8)));
    assert(require_model(toks, 8, TT::PuncRightBrace) == Ok::<int, ErrModel>(9));
    assert(prg_model(st0, toks) == Ok::<(St, usize), ErrModel>((st3, 3)));
    // the shape of the finished graph
    assert(st3.nodes.len() == 4);
    assert(st3.nodes[3].kind is Return);
    assert(st3.nodes[3].inputs =~= seq![0usize, 2usize]);
    assert(st3.nodes[2].kind is Int);
    assert(st3.nodes[2].typ == TypeKind::Int(digits_val(lex) as i128));
    assert(st3.nodes[2].inputs =~= seq![0usize]);
    assert(st3.nodes[0].kind is Start);
    assert(st3.nodes[0].inputs.len() == 0);
}

/// The graph builder: a recursive-descent consumer of the external token
/// stream. One entry node and one scope frame stack exist per compilation
/// unit; all state is owned here, so units are independent and identifier
/// sequences deterministic.
pub struct Parser {
    pub graph: Graph,
    pub start: usize,
    pub scope: Scope,
}

impl View for Parser {
    type V = St;

    open spec fn view(&self) -> St {
        St {
            nodes: self.graph@,
            frames: self.scope.frames(),
            start: self.start,
            snode: self.scope.node,
        }
    }
}

/// The parse state of a fresh compilation unit: the entry node at handle 0
/// and the scope frame node at handle 1, over an empty frame stack.
pub open spec fn init_st() -> St {
    St {
        nodes: append_node0(
            append_node0(Seq::empty(), InstrKind::Start, TypeKind::Bot),
            InstrKind::Scope,
            TypeKind::Bot,
        ),
        frames: Seq::empty(),
        start: 0,
        snode: 1,
    }
}

/// Match one required token of kind `tt`.
fn require(tokens: &[Token], pos: usize, tt: TT) -> (r: Result<usize, ParseError>)
    requires
        pos <= tokens@.len(),
    ensures
        match require_model(tv(tokens@), pos as int, tt) {
            Ok(p) => r == Ok::<usize, ParseError>((pos + 1) as usize) && p == pos + 1 && pos < tokens@.len(),
            Err(e) => r matches Err(pe) && pe@ == e,
        },
{
    if pos >= tokens.len() {
        Err(ParseError::UnexpectedEndOfStream)
    } else if tokens[pos].typ == tt {
        Ok(pos + 1)
    } else {
        Err(ParseError::TokenMismatch { expected: tt, actual: tokens[pos].typ })
    }
}

impl Parser {
    /// The parser's invariant.
    pub open spec fn inv(self) -> bool {
        st_inv(self@)
    }

    /// Create the parser of a fresh compilation unit, with its entry node,
    /// its scope frame node and an empty frame stack.
    pub fn new() -> (p: Parser)
        ensures
            p@ == init_st(),
            p.inv(),
    {
        let mut graph = Graph::new();
        let start = Start::new(&mut graph);
        let scope = Scope::new(&mut graph);
        let p = Parser { graph, start, scope };
        proof {
            assert(p@ =~~= init_st());
            vstd::std_specs::vec::axiom_spec_len(&p.graph.nodes);
            assert(p@.nodes[0].kind is Start);
            assert(p@.nodes[1].kind is Scope);
        }
        p
    }

    /// Build one arithmetic node over `x` and `y` and peephole-fold it.
    fn build_arith(&mut self, kind: InstrKind, x: usize, y: usize) -> (r: Result<
        usize,
        ParseError,
    >)
        requires
            st_inv(old(self)@),
            kind == InstrKind::Add || kind == InstrKind::Sub || kind == InstrKind::Mul || kind
                == InstrKind::Div,
            x < old(self)@.nodes.len(),
            y < old(self)@.nodes.len(),
            old(self)@.nodes[x as int].kind != InstrKind::Scope,
            old(self)@.nodes[y as int].kind != InstrKind::Scope,
        ensures
            st_inv(final(self)@),
            final(self)@.frames == old(self)@.frames,
            final(self)@.start == old(self)@.start,
            final(self)@.snode == old(self)@.snode,
            final(self)@.nodes.len() == old(self)@.nodes.len() + 1,
            forall|i: int|
                0 <= i < old(self)@.nodes.len() ==> #[trigger] final(self)@.nodes[i].kind == old(
                    self,
                )@.nodes[i].kind,
            match arith_model(old(self)@, kind, x, y) {
                Ok((st2, nd)) => {
                    &&& r == Ok::<usize, ParseError>(nd)
                    &&& final(self)@ == st2
                    &&& nd < final(self)@.nodes.len()
                    &&& final(self)@.nodes[nd as int].kind != InstrKind::Scope
                },
                Err(e) => (r matches Err(pe) && pe@ == e),
            },
    {
        let ghost st0 = self@;
        let n = match kind {
            InstrKind::Add => Add::new(&mut self.graph, x, y),
            InstrKind::Sub => Sub::new(&mut self.graph, x, y),
            InstrKind::Mul => Mul::new(&mut self.graph, x, y),
            _ => Div::new(&mut self.graph, x, y),
        };
        proof {
            assert(self.graph@ == append_node2(st0.nodes, kind, TypeKind::Bot, x, y));
            assert(self.graph@[n as int].outputs.len() == 0);
            assert(self.graph@[self.start as int].kind is Start);
            vstd::std_specs::vec::axiom_spec_len(&self.graph.nodes);
        }
        let r2 = match peephole(&mut self.graph, n, self.start) {
            Ok(v) => v,
            Err(e) => {
                proof {
                    vstd::std_specs::vec::axiom_spec_len(&self.graph.nodes);
                    assert(self.graph@[self.start as int].kind is Start);
                    assert(self.graph@[self.scope.node as int].kind is Scope);
                    assert(self.graph@[self.scope.node as int].inputs == st0.nodes[
                        self.scope.node as int
                    ].inputs);
                    assert(st_inv(self@));
                }
                return Err(e);
            },
        };
        proof {
            vstd::std_specs::vec::axiom_spec_len(&self.graph.nodes);
            assert(self.graph@[self.start as int].kind is Start);
            assert(self.graph@[self.scope.node as int].kind is Scope);
            assert(self.graph@[self.scope.node as int].inputs == st0.nodes[
                self.scope.node as int
            ].inputs);
            assert(st_inv(self@));
            assert(arith_model(st0, kind, x, y) matches Ok((st2, nd)) && self@ == st2 && nd == r2)
                by {
                assert(self@ =~~= St { nodes: self.graph@, ..st0 });
            }
        }
        Ok(r2)
    }

    /// factor := INT_LITERAL | ident.
    fn parse_factor(&mut self, tokens: &[Token], pos: usize) -> (r: Result<usize, ParseError>)
        requires
            st_inv(old(self)@),
            lit_tokens_ok(tv(tokens@)),
            pos <= tokens@.len(),
        ensures
            st_inv(final(self)@),
            final(self)@.frames == old(self)@.frames,
            final(self)@.start == old(self)@.start,
            final(self)@.snode == old(self)@.snode,
            final(self)@.nodes.len() >= old(self)@.nodes.len(),
            forall|i: int|
                0 <= i < old(self)@.nodes.len() ==> #[trigger] final(self)@.nodes[i].kind == old(
                    self,
                )@.nodes[i].kind,
            match factor_model(old(self)@, tv(tokens@), pos as int) {
                Ok((st1, x)) => {
                    &&& r == Ok::<usize, ParseError>(x)
                    &&& final(self)@ == st1
                    &&& x < final(self)@.nodes.len()
                    &&& final(self)@.nodes[x as int].kind != InstrKind::Scope
                },
                Err(e) => (r matches Err(pe) && pe@ == e) && final(self)@ == old(self)@,
            },
    {
        if pos >= tokens.len() {
            return Err(ParseError::UnexpectedEndOfStream);
        }
        let t = tokens[pos].typ;
        if t == TT::LiteralInt {
            let ghost st0 = self@;
            let ghost lex = tokens@[pos as int].lexeme@;
            proof {
                assert(tv(tokens@)[pos as int].typ == TT::LiteralInt);
                assert(is_int_literal(lex));
                lemma_digits_nonneg(lex, lex.len() as int);
                assert(lex.take(lex.len() as int) =~= lex);
            }
            let v = parse_int_literal(tokens[pos].lexeme.as_str());
            let idx = Int::new(&mut self.graph, self.start, TypeKind::Int(v));
            proof {
                vstd::std_specs::vec::axiom_spec_len(&self.graph.nodes);
                assert(self.graph@[self.start as int].kind is Start);
                assert(self.graph@[self.scope.node as int].kind is Scope);
                assert(self.graph@[self.scope.node as int].inputs == st0.nodes[
                    self.scope.node as int
                ].inputs);
                assert(st_inv(self@));
                assert(TypeKind::Int(v) == TypeKind::Int(digits_val(lex) as i128));
                assert(factor_model(st0, tv(tokens@), pos as int) matches Ok((st1, x)) && self@
                    == st1 && x == idx) by {
                    assert(self@ =~~= St {
                        nodes: append_node1(
                            st0.nodes,
                            InstrKind::Int,
                            TypeKind::Int(digits_val(lex) as i128),
                            st0.start,
                        ),
                        ..st0
                    });
                }
            }
            Ok(idx)
        } else if t == TT::Alias {
            let alias = tokens[pos].lexeme.clone();
            proof {
                assert(self.scope.inv(self.graph@));
                lemma_scope_lookup_in_range(self.scope, self.graph@, alias@);
            }
            match self.scope.read(&self.graph, alias) {
                Ok(nd) => {
                    proof {
                        let slot = scope_lookup(self@.frames, tokens@[pos as int].lexeme@).unwrap();
                        lemma_input_not_scope(self.graph@, self.scope.node, slot as int);
                    }
                    Ok(nd)
                },
                Err(e) => Err(ParseError::Scope(e)),
            }
        } else {
            Err(ParseError::TokenMismatch { expected: TT::LiteralInt, actual: t })
        }
    }

    /// term := factor (('*' | '/') factor)* — left-associative.
    fn parse_term(&mut self, tokens: &[Token], pos: usize) -> (r: Result<
        (usize, usize),
        ParseError,
    >)
        requires
            st_inv(old(self)@),
            lit_tokens_ok(tv(tokens@)),
            pos <= tokens@.len(),
        ensures
            st_inv(final(self)@),
            final(self)@.frames == old(self)@.frames,
            final(self)@.start == old(self)@.start,
            final(self)@.snode == old(self)@.snode,
            final(self)@.nodes.len() >= old(self)@.nodes.len(),
            forall|i: int|
                0 <= i < old(self)@.nodes.len() ==> #[trigger] final(self)@.nodes[i].kind == old(
                    self,
                )@.nodes[i].kind,
            match term_model(old(self)@, tv(tokens@), pos as int) {
                Ok((st1, x, p1)) => {
                    &&& r matches Ok(v) && v.0 == x && v.1 == p1
                    &&& final(self)@ == st1
                    &&& x < final(self)@.nodes.len()
                    &&& final(self)@.nodes[x as int].kind != InstrKind::Scope
                    &&& pos < p1 <= tokens@.len()
                },
                Err(e) => (r matches Err(pe) && pe@ == e),
            },
    {
        proof {
            vstd::slice::axiom_spec_len(tokens);
        }
        let ghost toks = tv(tokens@);
        let ghost target = term_model(old(self)@, toks, pos as int);
        let mut x = match self.parse_factor(tokens, pos) {
            Ok(v) => v,
            Err(e) => {
                return Err(e);
            },
        };
        let mut p: usize = pos + 1;
        while p < tokens.len() && (tokens[p].typ == TT::Star || tokens[p].typ == TT::Slash)
            invariant
                st_inv(self@),
                lit_tokens_ok(toks),
                toks == tv(tokens@),
                self@.frames == old(self)@.frames,
                self@.start == old(self)@.start,
                self@.snode == old(self)@.snode,
                pos < p <= tokens@.len(),
                x < self@.nodes.len(),
                self@.nodes[x as int].kind != InstrKind::Scope,
                self@.nodes.len() >= old(self)@.nodes.len(),
                forall|i: int|
                    0 <= i < old(self)@.nodes.len() ==> #[trigger] self@.nodes[i].kind == old(
                        self,
                    )@.nodes[i].kind,
                target == term_model(old(self)@, toks, pos as int),
                target == term_tail_model(self@, toks, x, p as int),
            decreases tokens@.len() - p,
        {
            let op = tokens[p].typ;
            let ghost pre = self@;
            let y = match self.parse_factor(tokens, p + 1) {
                Ok(v) => v,
                Err(e) => {
                    return Err(e);
                },
            };
            let kind = if op == TT::Star {
                InstrKind::Mul
            } else {
                InstrKind::Div
            };
            let r2 = match self.build_arith(kind, x, y) {
                Ok(v) => v,
                Err(e) => {
                    return Err(e);
                },
            };
            x = r2;
            p = p + 2;
        }
        proof {
            assert(target == Ok::<(St, usize, int), ErrModel>((self@, x, p as int)));
        }
        Ok((x, p))
    }

    /// expr := term (('+' | '-') term)* — left-associative.
    fn parse_expr(&mut self, tokens: &[Token], pos: usize) -> (r: Result<
        (usize, usize),
        ParseError,
    >)
        requires
            st_inv(old(self)@),
            lit_tokens_ok(tv(tokens@)),
            pos <= tokens@.len(),
        ensures
            st_inv(final(self)@),
            final(self)@.frames == old(self)@.frames,
            final(self)@.start == old(self)@.start,
            final(self)@.snode == old(self)@.snode,
            final(self)@.nodes.len() >= old(self)@.nodes.len(),
            forall|i: int|
                0 <= i < old(self)@.nodes.len() ==> #[trigger] final(self)@.nodes[i].kind == old(
                    self,
                )@.nodes[i].kind,
            match expr_model(old(self)@, tv(tokens@), pos as int) {
                Ok((st1, x, p1)) => {
                    &&& r matches Ok(v) && v.0 == x && v.1 == p1
                    &&& final(self)@ == st1
                    &&& x < final(self)@.nodes.len()
                    &&& final(self)@.nodes[x as int].kind != InstrKind::Scope
                    &&& pos < p1 <= tokens@.len()
                },
                Err(e) => (r matches Err(pe) && pe@ == e),
            },
    {
        proof {
            vstd::slice::axiom_spec_len(tokens);
        }
        let ghost toks = tv(tokens@);
        let ghost target = expr_model(old(self)@, toks, pos as int);
        let (mut x, mut p) = match self.parse_term(tokens, pos) {
            Ok(v) => v,
            Err(e) => {
                return Err(e);
            },
        };
        while p < tokens.len() && (tokens[p].typ == TT::Plus || tokens[p].typ == TT::Minus)
            invariant
                st_inv(self@),
                lit_tokens_ok(toks),
                toks == tv(tokens@),
                self@.frames == old(self)@.frames,
                self@.start == old(self)@.start,
                self@.snode == old(self)@.snode,
                pos < p <= tokens@.len(),
                x < self@.nodes.len(),
                self@.nodes[x as int].kind != InstrKind::Scope,
                self@.nodes.len() >= old(self)@.nodes.len(),
                forall|i: int|
                    0 <= i < old(self)@.nodes.len() ==> #[trigger] self@.nodes[i].kind == old(
                        self,
                    )@.nodes[i].kind,
                target == expr_model(old(self)@, toks, pos as int),
                target == expr_tail_model(self@, toks, x, p as int),
            decreases tokens@.len() - p,
        {
            let op = tokens[p].typ;
            let (y, p2) = match self.parse_term(tokens, p + 1) {
                Ok(v) => v,
                Err(e) => {
                    return Err(e);
                },
            };
            let kind = if op == TT::Plus {
                InstrKind::Add
            } else {
                InstrKind::Sub
            };
            let r2 = match self.build_arith(kind, x, y) {
                Ok(v) => v,
                Err(e) => {
                    return Err(e);
                },
            };
            x = r2;
            p = p2;
        }
        proof {
            assert(target == Ok::<(St, usize, int), ErrModel>((self@, x, p as int)));
        }
        Ok((x, p))
    }

    /// stmt := 'int' ident '=' expr ';' | 'return' expr ';'.
    fn parse_stmt(&mut self, tokens: &[Token], pos: usize) -> (r: Result<
        (usize, usize),
        ParseError,
    >)
        requires
            st_inv(old(self)@),
            lit_tokens_ok(tv(tokens@)),
            pos <= tokens@.len(),
        ensures
            st_inv(final(self)@),
            final(self)@.start == old(self)@.start,
            final(self)@.snode == old(self)@.snode,
            final(self)@.frames.len() == old(self)@.frames.len(),
            match stmt_model(old(self)@, tv(tokens@), pos as int) {
                Ok((st1, nd, p1)) => {
                    &&& r matches Ok(v) && v.0 == nd && v.1 == p1
                    &&& final(self)@ == st1
                    &&& nd < final(self)@.nodes.len()
                    &&& pos < p1 <= tokens@.len()
                },
                Err(e) => (r matches Err(pe) && pe@ == e),
            },
    {
        if pos >= tokens.len() {
            return Err(ParseError::UnexpectedEndOfStream);
        }
        let t0 = tokens[pos].typ;
        if t0 == TT::KeywordInt {
            let p2 = match require(tokens, pos + 1, TT::Alias) {
                Ok(v) => v,
                Err(e) => {
                    return Err(e);
                },
            };
            let alias = tokens[pos + 1].lexeme.clone();
            let p3 = match require(tokens, p2, TT::Equals) {
                Ok(v) => v,
                Err(e) => {
                    return Err(e);
                },
            };
            let (x, p4) = match self.parse_expr(tokens, p3) {
                Ok(v) => v,
                Err(e) => {
                    return Err(e);
                },
            };
            let p5 = match require(tokens, p4, TT::PuncSemiColon) {
                Ok(v) => v,
                Err(e) => {
                    return Err(e);
                },
            };
            let ghost st1 = self@;
            proof {
                assert(self.scope.inv(self.graph@));
            }
            match self.scope.write(&mut self.graph, alias, x) {
                Ok(()) => {
                    proof {
                        vstd::std_specs::vec::axiom_spec_len(&self.graph.nodes);
                        assert(self.graph@[self.start as int].kind is Start);
                        assert(st_inv(self@));
                        assert(stmt_model(old(self)@, tv(tokens@), pos as int) matches Ok(
                            (st2, nd, pp),
                        ) && nd == x && pp == p5 as int && self@ == st2) by {
                            let slot = st1.nodes[st1.snode as int].inputs.len() as usize;
                            assert(self@ =~~= St {
                                nodes: push_in(st1.nodes, st1.snode, x),
                                frames: st1.frames.update(
                                    st1.frames.len() - 1,
                                    st1.frames.last().push(
                                        (tv(tokens@)[pos as int + 1].lexeme, slot),
                                    ),
                                ),
                                ..st1
                            });
                        }
                    }
                    Ok((x, p5))
                },
                Err(e) => Err(ParseError::Scope(e)),
            }
        } else if t0 == TT::KeywordRet {
            let (x, p2) = match self.parse_expr(tokens, pos + 1) {
                Ok(v) => v,
                Err(e) => {
                    return Err(e);
                },
            };
            let p3 = match require(tokens, p2, TT::PuncSemiColon) {
                Ok(v) => v,
                Err(e) => {
                    return Err(e);
                },
            };
            let ghost st1 = self@;
            let rn = Return::new(&mut self.graph, self.start, x);
            proof {
                vstd::std_specs::vec::axiom_spec_len(&self.graph.nodes);
                assert(self.graph@[self.start as int].kind is Start);
                assert(self.graph@[self.scope.node as int].kind is Scope);
                assert(self.graph@[self.scope.node as int].inputs == st1.nodes[
                    self.scope.node as int
                ].inputs);
                assert(st_inv(self@));
                assert(stmt_model(old(self)@, tv(tokens@), pos as int) matches Ok((st2, nd, pp))
                    && nd == rn && pp == p3 as int && self@ == st2) by {
                    assert(self@ =~~= St {
                        nodes: append_node2(
                            st1.nodes,
                            InstrKind::Return,
                            TypeKind::Bot,
                            st1.start,
                            x,
                        ),
                        ..st1
                    });
                }
            }
            Ok((rn, p3))
        } else {
            Err(ParseError::TokenMismatch { expected: TT::KeywordRet, actual: t0 })
        }
    }

    /// block := stmt+ — a fresh lexical frame around the statements, whose
    /// node is the node of the last statement.
    fn parse_block(&mut self, tokens: &[Token], pos: usize) -> (r: Result<
        (usize, usize),
        ParseError,
    >)
        requires
            st_inv(old(self)@),
            lit_tokens_ok(tv(tokens@)),
            pos <= tokens@.len(),
        ensures
            st_inv(final(self)@),
            final(self)@.start == old(self)@.start,
            final(self)@.snode == old(self)@.snode,
            match block_model(old(self)@, tv(tokens@), pos as int) {
                Ok((st1, nd, p1)) => {
                    &&& r matches Ok(v) && v.0 == nd && v.1 == p1
                    &&& final(self)@ == st1
                    &&& nd < final(self)@.nodes.len()
                    &&& pos < p1 <= tokens@.len()
                },
                Err(e) => (r matches Err(pe) && pe@ == e),
            },
    {
        let ghost toks = tv(tokens@);
        let ghost target = block_model(old(self)@, toks, pos as int);
        self.scope.push_nv();
        proof {
            assert(self@ =~~= St { frames: old(self)@.frames.push(Seq::empty()), ..old(self)@ });
            assert(st_inv(self@));
        }
        let (mut nd, mut p) = match self.parse_stmt(tokens, pos) {
            Ok(v) => v,
            Err(e) => {
                return Err(e);
            },
        };
        while p < tokens.len() && (tokens[p].typ == TT::KeywordInt || tokens[p].typ
            == TT::KeywordRet)
            invariant
                st_inv(self@),
                lit_tokens_ok(toks),
                toks == tv(tokens@),
                self@.start == old(self)@.start,
                self@.snode == old(self)@.snode,
                self@.frames.len() == old(self)@.frames.len() + 1,
                nd < self@.nodes.len(),
                pos < p <= tokens@.len(),
                target == block_model(old(self)@, toks, pos as int),
                target == ({
                    match block_tail_model(self@, toks, nd, p as int) {
                        Err(e) => Err(e),
                        Ok((st2, nd2, pos2)) => Ok(
                            (St { frames: st2.frames.drop_last(), ..st2 }, nd2, pos2),
                        ),
                    }
                }),
            decreases tokens@.len() - p,
        {
            let v = match self.parse_stmt(tokens, p) {
                Ok(v) => v,
                Err(e) => {
                    return Err(e);
                },
            };
            nd = v.0;
            p = v.1;
        }
        self.scope.pop_nv();
        proof {
            assert(target == Ok::<(St, usize, int), ErrModel>((self@, nd, p as int)));
            assert(st_inv(self@));
        }
        Ok((nd, p))
    }

    /// program := 'int' ident '(' ')' '{' block '}' — the whole token
    /// stream must be consumed. On success the returned handle names the
    /// graph root from the backend's perspective: the node of the block's
    /// final statement, a return node for any program that ends in
    /// `return expr;`.
    #[verifier::rlimit(100)]
    pub fn parse_prg(&mut self, tokens: &[Token]) -> (r: Result<usize, ParseError>)
        requires
            old(self).inv(),
            lit_tokens_ok(tv(tokens@)),
        ensures
            final(self).inv(),
            match prg_model(old(self)@, tv(tokens@)) {
                Ok((st1, nd)) => r == Ok::<usize, ParseError>(nd) && final(self)@ == st1 && nd
                    < final(self)@.nodes.len(),
                Err(e) => (r matches Err(pe) && pe@ == e),
            },
    {
        let p1 = match require(tokens, 0, TT::KeywordInt) {
            Ok(v) => v,
            Err(e) => {
                return Err(e);
            },
        };
        let p2 = match require(tokens, p1, TT::Alias) {
            Ok(v) => v,
            Err(e) => {
                return Err(e);
            },
        };
        let p3 = match require(tokens, p2, TT::PuncLeftParen) {
            Ok(v) => v,
            Err(e) => {
                return Err(e);
            },
        };
        let p4 = match require(tokens, p3, TT::PuncRightParen) {
            Ok(v) => v,
            Err(e) => {
                return Err(e);
            },
        };
        let p5 = match require(tokens, p4, TT::PuncLeftBrace) {
            Ok(v) => v,
            Err(e) => {
                return Err(e);
            },
        };
        let (nd, p6) = match self.parse_block(tokens, p5) {
            Ok(v) => v,
            Err(e) => {
                return Err(e);
            },
        };
        let p7 = match require(tokens, p6, TT::PuncRightBrace) {
            Ok(v) => v,
            Err(e) => {
                return Err(e);
            },
        };
        if p7 == tokens.len() {
            proof {
                lemma_block_tail_pos(self@, tv(tokens@), nd, p6 as int);
            }
            Ok(nd)
        } else {
            Err(ParseError::UnexpectedTrailingTokens)
        }
    }
}

} // verus!
