use vstd::prelude::*;

use crate::ast::{Mutability, OpKind, Statement, Value, Variable, VariableDescriptor};
use crate::diagnostic::{error_view, Diagnostic, DiagnosticBuilder, DiagnosticView, XynError};
use crate::scope::{
    arena_add_scope, arena_add_statement, fresh_scope, Scope, ScopeArena, ScopeId, ScopeType,
    ScopeView,
};
use crate::token::{Token, TokenTag, Tokens};

verus! {

/// What the parser can find wrong.
#[derive(Debug, PartialEq, Eq, Clone, Copy, Structural)]
pub enum ParserError {
    InvalidStartOfStatement,
    ExpectedEqual,
    ExpectedIdentifier,
    ExpectedSemicolon,
    ExpectedExpr,
    InvalidExpr,
    UnclosedScope,
}

impl XynError for ParserError {
    open spec fn code_spec(&self) -> usize {
        match self {
            ParserError::InvalidStartOfStatement => 1000,
            ParserError::ExpectedEqual => 1001,
            ParserError::ExpectedIdentifier => 1002,
            ParserError::ExpectedSemicolon => 1003,
            ParserError::ExpectedExpr => 1004,
            ParserError::InvalidExpr => 1005,
            ParserError::UnclosedScope => 1006,
        }
    }

    open spec fn message_spec(&self) -> Seq<char> {
        match self {
            ParserError::InvalidStartOfStatement => "Invalid start of statement:"@,
            ParserError::ExpectedEqual => "Expected an equal sign:"@,
            ParserError::ExpectedIdentifier => "Expected an identifier:"@,
            ParserError::ExpectedSemicolon => "Expected a semicolon:"@,
            ParserError::ExpectedExpr => "Expected an expr:"@,
            ParserError::InvalidExpr => "Found an invalid expr:"@,
            ParserError::UnclosedScope => "Unclosed scope:"@,
        }
    }

    fn to_usize(self) -> (r: usize) {
        match self {
            ParserError::InvalidStartOfStatement => 1000,
            ParserError::ExpectedEqual => 1001,
            ParserError::ExpectedIdentifier => 1002,
            ParserError::ExpectedSemicolon => 1003,
            ParserError::ExpectedExpr => 1004,
            ParserError::InvalidExpr => 1005,
            ParserError::UnclosedScope => 1006,
        }
    }

    fn message(&self) -> (r: &'static str) {
        match self {
            ParserError::InvalidStartOfStatement => "Invalid start of statement:",
            ParserError::ExpectedEqual => "Expected an equal sign:",
            ParserError::ExpectedIdentifier => "Expected an identifier:",
            ParserError::ExpectedSemicolon => "Expected a semicolon:",
            ParserError::ExpectedExpr => "Expected an expr:",
            ParserError::InvalidExpr => "Found an invalid expr:",
            ParserError::UnclosedScope => "Unclosed scope:",
        }
    }
}

/// The diagnostics of a sequence of parser errors.
pub open spec fn error_views(es: Seq<ParserError>) -> Seq<DiagnosticView> {
    es.map_values(|e: ParserError| error_view(e))
}

/// The views of a sequence of diagnostics.
pub open spec fn diag_views(ds: Seq<Diagnostic>) -> Seq<DiagnosticView> {
    ds.map_values(|d: Diagnostic| d@)
}

// ---------------------------------------------------------------------------
// The grammar, as spec functions over the tags `ts` and tokens `tk`.
// ---------------------------------------------------------------------------

/// The tag at `i`, or `EOF` past the end.
pub open spec fn kind_at(ts: Seq<TokenTag>, i: int) -> TokenTag {
    if 0 <= i < ts.len() {
        ts[i]
    } else {
        TokenTag::EOF
    }
}

/// The first position at or after `i` whose tag is `cp` or `EOF`.
pub open spec fn skip_to_spec(ts: Seq<TokenTag>, i: int, cp: TokenTag) -> int
    decreases ts.len() - i,
{
    if i < 0 || i >= ts.len() || kind_at(ts, i) == TokenTag::EOF || kind_at(ts, i) == cp {
        i
    } else {
        skip_to_spec(ts, i + 1, cp)
    }
}

/// The first position at or after `i` whose tag is in `cps` or is `EOF`.
pub open spec fn skip_to_many_spec(ts: Seq<TokenTag>, i: int, cps: Seq<TokenTag>) -> int
    decreases ts.len() - i,
{
    if i < 0 || i >= ts.len() || kind_at(ts, i) == TokenTag::EOF || cps.contains(kind_at(ts, i)) {
        i
    } else {
        skip_to_many_spec(ts, i + 1, cps)
    }
}

/// An operand at `i`: an integer, an identifier, or `+` or `-` in front of
/// an operand. `+` over `+x` or `-x` is `+x` (and over `-+x` it is `+x`:
/// absolutes never nest), and `-` over `-x` is `x`.
/// Returns the operand or the error, and the position after it.
pub open spec fn prefix_spec(ts: Seq<TokenTag>, tk: Seq<Token>, i: int) -> (Result<Value, ParserError>, int)
    decreases ts.len() - i,
{
    let k = kind_at(ts, i);
    if k == TokenTag::Integer {
        (Ok(Value::Integer(tk[i].lexeme)), i + 1)
    } else if k == TokenTag::Identifier {
        (Ok(Value::Identifier(tk[i].lexeme)), i + 1)
    } else if k == TokenTag::PlusSign {
        let (r, j) = prefix_spec(ts, tk, i + 1);
        (
            match r {
                Ok(Value::Absolute(v)) => Ok(Value::Absolute(v)),
                Ok(Value::Negate(v)) => if *v is Absolute {
                    Ok(*v)
                } else {
                    Ok(Value::Absolute(v))
                },
                Ok(v) => Ok(Value::Absolute(Box::new(v))),
                Err(e) => Err(e),
            },
            j,
        )
    } else if k == TokenTag::MinusSign {
        let (r, j) = prefix_spec(ts, tk, i + 1);
        (
            match r {
                Ok(Value::Negate(v)) => Ok(*v),
                Ok(v) => Ok(Value::Negate(Box::new(v))),
                Err(e) => Err(e),
            },
            j,
        )
    } else if k == TokenTag::SemicolonOp {
        (Err(ParserError::ExpectedExpr), i)
    } else {
        (Err(ParserError::InvalidExpr), i)
    }
}

/// The binary operator of a tag and its precedence.
pub open spec fn op_of(k: TokenTag) -> Option<(OpKind, u8)> {
    if k == TokenTag::PlusSign {
        Some((OpKind::Addition, 1u8))
    } else if k == TokenTag::MinusSign {
        Some((OpKind::Subtraction, 1u8))
    } else if k == TokenTag::StarSign {
        Some((OpKind::Multiplication, 2u8))
    } else if k == TokenTag::DivSign {
        Some((OpKind::Division, 2u8))
    } else {
        None
    }
}

/// An expression at `i` whose operators bind at least as tightly as
/// `min_prec`: the expression (or nothing, on an error or on a token that ends
/// it in the wrong way, such as an operand after an operand, which reports no
/// error), the position after it, and the errors met.
pub open spec fn expr_spec(ts: Seq<TokenTag>, tk: Seq<Token>, i: int, min_prec: int) -> (
    Option<Value>,
    int,
    Seq<ParserError>,
)
    decreases ts.len() - i, 1int,
{
    let (r, j) = prefix_spec(ts, tk, i);
    match r {
        Err(e) => (None, j, seq![e]),
        Ok(v) => if j < i || j > ts.len() {
            (None, j, Seq::empty())
        } else {
            expr_loop_spec(ts, tk, v, j, min_prec)
        },
    }
}

/// The rest of an expression after its first operand `left`, at `i`.
pub open spec fn expr_loop_spec(ts: Seq<TokenTag>, tk: Seq<Token>, left: Value, i: int, min_prec: int) -> (
    Option<Value>,
    int,
    Seq<ParserError>,
)
    decreases ts.len() - i, 0int,
{
    let k = kind_at(ts, i);
    if k == TokenTag::EOF || k == TokenTag::SemicolonOp {
        (Some(left), i, Seq::empty())
    } else {
        match op_of(k) {
            None => (None, i, Seq::empty()),
            Some((op, prec)) => if (prec as int) < min_prec {
                (Some(left), i, Seq::empty())
            } else {
                let (r, j, es) = expr_spec(ts, tk, i + 1, prec + 1);
                match r {
                    None => (None, j, es),
                    Some(right) => if j <= i || j > ts.len() {
                        (None, j, es)
                    } else {
                        let node = Value::BinaryExpr {
                            left: Box::new(left),
                            op,
                            right: Box::new(right),
                            evaluated_ty: None,
                        };
                        let (r2, j2, es2) = expr_loop_spec(ts, tk, node, j, min_prec);
                        (r2, j2, es + es2)
                    },
                }
            },
        }
    }
}

/// A declaration at `i` (the keyword), `keyword identifier ;` or
/// `keyword identifier = expression ;`: the statement if one is made, the
/// position after it, and the errors met. An expression that stops at a
/// token that is no operator (as `1 2`) gives no statement and no error: the
/// declaration is dropped.
pub open spec fn var_spec(ts: Seq<TokenTag>, tk: Seq<Token>, i: int, desc: VariableDescriptor) -> (
    Option<Statement>,
    int,
    Seq<ParserError>,
) {
    let i1 = i + 1;
    if kind_at(ts, i1) != TokenTag::Identifier {
        (None, skip_to_spec(ts, i1, TokenTag::SemicolonOp), seq![ParserError::ExpectedIdentifier])
    } else {
        let ident = tk[i1];
        let i2 = i1 + 1;
        let k2 = kind_at(ts, i2);
        if k2 == TokenTag::SemicolonOp {
            (Some(Statement::Variable(Variable { ident, ty: None, value: None, desc })), i2 + 1, Seq::empty())
        } else {
            let j = skip_to_many_spec(ts, i2, seq![TokenTag::EqualOp, TokenTag::SemicolonOp]);
            let kj = kind_at(ts, j);
            if k2 != TokenTag::EqualOp && (kj == TokenTag::EOF || kj == TokenTag::SemicolonOp) {
                (None, j, seq![ParserError::ExpectedEqual])
            } else {
                let (i3, errs0) = if k2 == TokenTag::EqualOp {
                    (i2 + 1, Seq::<ParserError>::empty())
                } else {
                    (j + 1, seq![ParserError::ExpectedEqual])
                };
                let (v, i4, es) = expr_spec(ts, tk, i3, 0);
                match v {
                    None => (None, skip_to_spec(ts, i4, TokenTag::SemicolonOp), errs0 + es),
                    Some(val) => if kind_at(ts, i4) != TokenTag::SemicolonOp {
                        (
                            None,
                            skip_to_spec(ts, i4, TokenTag::SemicolonOp),
                            errs0 + es + seq![ParserError::ExpectedSemicolon],
                        )
                    } else {
                        (
                            Some(Statement::Variable(Variable { ident, ty: None, value: Some(val), desc })),
                            i4 + 1,
                            errs0 + es,
                        )
                    },
                }
            }
        }
    }
}


/// The parser's state: the position, the scope statements go to, the scope
/// arena, and the errors so far.
pub struct PState {
    pub idx: int,
    pub counter: int,
    pub arena: Seq<ScopeView>,
    pub errors: Seq<ParserError>,
}

/// The mutability a declaration keyword gives.
pub open spec fn mutability_of(k: TokenTag) -> Mutability {
    if k == TokenTag::MutKeyword {
        Mutability::Mutable
    } else if k == TokenTag::ConstKeyword {
        Mutability::Const
    } else {
        Mutability::Immutable
    }
}

pub open spec fn is_decl_keyword(k: TokenTag) -> bool {
    k == TokenTag::LetKeyword || k == TokenTag::MutKeyword || k == TokenTag::ConstKeyword
}

/// The tags that start a statement.
pub open spec fn statement_starts() -> Seq<TokenTag> {
    seq![TokenTag::LetKeyword, TokenTag::MutKeyword, TokenTag::ConstKeyword]
}

/// Statements and blocks up to a tag in `breaks`. A declaration goes to the
/// scope `counter`; `{` opens a block; a stray `;` is skipped; anything else is
/// an invalid start of statement, skipped up to the next keyword in `vs`.
pub open spec fn inner_spec(ts: Seq<TokenTag>, tk: Seq<Token>, st: PState, breaks: Seq<TokenTag>, vs: Seq<TokenTag>) -> PState
    decreases ts.len() - st.idx, 1int,
{
    if st.idx < 0 || st.idx > ts.len() {
        st
    } else {
        let tok = kind_at(ts, st.idx);
        if breaks.contains(tok) {
            st
        } else if tok == TokenTag::LCurlyBracket {
            let st2 = scope_spec(ts, tk, st, vs);
            if st2.idx <= st.idx || st2.idx > ts.len() {
                st2
            } else {
                inner_spec(ts, tk, st2, breaks, vs)
            }
        } else if is_decl_keyword(tok) {
            let (r, j, es) = var_spec(ts, tk, st.idx, VariableDescriptor::of(mutability_of(tok)));
            let st2 = PState {
                idx: j,
                counter: st.counter,
                arena: match r {
                    Some(stmt) => arena_add_statement(st.arena, st.counter, stmt),
                    None => st.arena,
                },
                errors: st.errors + es,
            };
            if j <= st.idx || j > ts.len() {
                st2
            } else {
                inner_spec(ts, tk, st2, breaks, vs)
            }
        } else if tok == TokenTag::SemicolonOp {
            inner_spec(ts, tk, PState { idx: st.idx + 1, ..st }, breaks, vs)
        } else {
            let j = skip_to_many_spec(ts, st.idx, vs);
            let st2 = PState {
                idx: j,
                errors: st.errors.push(ParserError::InvalidStartOfStatement),
                ..st
            };
            if j <= st.idx || j > ts.len() {
                st2
            } else {
                inner_spec(ts, tk, st2, breaks, vs)
            }
        }
    }
}

/// A block at `st.idx` (the `{`): a new scope whose parent is the scope
/// `counter`, which becomes the scope statements go to; its contents up to `}`
/// or the end, where a missing `}` is an error. The scope statements go to is
/// not set back when the block closes: statements after a block go to the
/// last block opened, and so does the parent of the next block.
pub open spec fn scope_spec(ts: Seq<TokenTag>, tk: Seq<Token>, st: PState, vs: Seq<TokenTag>) -> PState
    decreases ts.len() - st.idx, 0int,
{
    if st.idx < 0 || st.idx >= ts.len() {
        st
    } else {
        let st1 = PState {
            idx: st.idx + 1,
            counter: st.counter + 1,
            arena: arena_add_scope(st.arena, fresh_scope(Some(st.counter as usize), ScopeType::Local)),
            errors: st.errors,
        };
        let st2 = inner_spec(ts, tk, st1, seq![TokenTag::EOF, TokenTag::RCurlyBracket], vs);
        let k = kind_at(ts, st2.idx);
        if k == TokenTag::RCurlyBracket {
            PState { idx: st2.idx + 1, ..st2 }
        } else if k == TokenTag::EOF {
            PState { errors: st2.errors.push(ParserError::UnclosedScope), ..st2 }
        } else {
            st2
        }
    }
}

/// The state the parser starts in at position `i`: an arena that holds the
/// file's scope only.
pub open spec fn start_state(i: int) -> PState {
    PState { idx: i, counter: 0, arena: seq![fresh_scope(None, ScopeType::Local)], errors: Seq::empty() }
}

/// What parsing from position `i` to the end gives.
pub open spec fn parse_from(ts: Seq<TokenTag>, tk: Seq<Token>, i: int) -> PState {
    inner_spec(ts, tk, start_state(i), seq![TokenTag::EOF], statement_starts())
}

/// What parsing a whole token stream gives.
pub open spec fn parse_spec(ts: Seq<TokenTag>, tk: Seq<Token>) -> PState {
    parse_from(ts, tk, 0)
}

} // verus!

verus! {

/// Whether `t` is one of `tags`.
fn tag_in(tags: &Vec<TokenTag>, t: TokenTag) -> (r: bool)
    ensures
        r == tags@.contains(t),
{
    let mut i: usize = 0;
    while i < tags.len()
        invariant
            i <= tags.len(),
            forall|k: int| 0 <= k < i ==> tags@[k] != t,
        decreases tags.len() - i,
    {
        if tags[i] == t {
            return true;
        }
        i = i + 1;
    }
    false
}

fn error_diagnostic(e: ParserError) -> (r: Diagnostic)
    ensures
        r@ == error_view(e),
{
    DiagnosticBuilder::default().with_error_code(e).build()
}

proof fn lemma_views_push(ds: Seq<Diagnostic>, es: Seq<ParserError>, d: Diagnostic, e: ParserError)
    requires
        diag_views(ds) == error_views(es),
        d@ == error_view(e),
    ensures
        diag_views(ds.push(d)) == error_views(es.push(e)),
{
    lemma_views_push2(ds, Seq::empty(), es, d, e);
    assert(Seq::<DiagnosticView>::empty() + error_views(es) =~= error_views(es));
    assert(Seq::<DiagnosticView>::empty() + error_views(es.push(e)) =~= error_views(es.push(e)));
}

proof fn lemma_views_push2(
    ds: Seq<Diagnostic>,
    base: Seq<DiagnosticView>,
    es: Seq<ParserError>,
    d: Diagnostic,
    e: ParserError,
)
    requires
        diag_views(ds) == base + error_views(es),
        d@ == error_view(e),
    ensures
        diag_views(ds.push(d)) == base + error_views(es.push(e)),
{
    assert(diag_views(ds).len() == ds.len());
    assert(error_views(es).len() == es.len());
    assert(ds.len() == base.len() + es.len());
    assert(diag_views(ds.push(d)) =~= base + error_views(es.push(e))) by {
        assert forall|k: int| 0 <= k < ds.len() + 1 implies #[trigger] diag_views(ds.push(d))[k]
            == (base + error_views(es.push(e)))[k] by {
            if k < ds.len() {
                assert(ds.push(d)[k] == ds[k]);
                assert(diag_views(ds)[k] == (base + error_views(es))[k]);
                if k >= base.len() {
                    assert(es.push(e)[k - base.len()] == es[k - base.len()]);
                }
            } else {
                assert(ds.push(d)[k] == d);
                assert(es.push(e)[k - base.len()] == e);
            }
        }
    }
}

proof fn lemma_error_views_add(a: Seq<ParserError>, b: Seq<ParserError>)
    ensures
        error_views(a + b) == error_views(a) + error_views(b),
{
    assert(error_views(a + b) =~= error_views(a) + error_views(b));
}

/// Reads declarations and blocks from a token stream into a scope arena.
pub struct Parser {
    tokens: Tokens,
    idx: usize,
}

impl Parser {
    #[verifier::type_invariant]
    closed spec fn inv(&self) -> bool {
        &&& self.idx <= self.tokens.tag_seq().len()
        &&& self.tokens.token_seq().len() == self.tokens.tag_seq().len()
        &&& self.tokens.tag_seq().len() <= usize::MAX
    }

    /// The tags of the tokens.
    pub closed spec fn ts(&self) -> Seq<TokenTag> {
        self.tokens.tag_seq()
    }

    /// The tokens.
    pub closed spec fn tk(&self) -> Seq<Token> {
        self.tokens.token_seq()
    }

    /// The position of the next token to read.
    pub closed spec fn pos(&self) -> int {
        self.idx as int
    }

    pub fn new(tokens: Tokens) -> (r: Self)
        ensures
            r.ts() == tokens.tag_seq(),
            r.tk() == tokens.token_seq(),
            r.pos() == 0,
    {
        let _count = tokens.len();  // the token stream fits in memory
        Parser { tokens, idx: 0 }
    }

    fn get_token(&self) -> (r: Option<Token>)
        ensures
            r == (if self.pos() < self.ts().len() {
                Some(self.tk()[self.pos()])
            } else {
                None
            }),
    {
        proof {
            use_type_invariant(self);
        }
        match self.tokens.get_token(self.idx) {
            Some(t) => Some(t.duplicate()),
            None => None,
        }
    }

    fn next_token(&mut self) -> (r: Option<Token>)
        requires
            old(self).pos() < old(self).ts().len(),
        ensures
            r == Some(old(self).tk()[old(self).pos()]),
            final(self).pos() == old(self).pos() + 1,
            final(self).ts() == old(self).ts(),
            final(self).tk() == old(self).tk(),
    {
        proof {
            use_type_invariant(&*self);
        }
        let tok = self.get_token();
        self.idx += 1;
        tok
    }

    fn get_kind(&self) -> (r: TokenTag)
        ensures
            r == kind_at(self.ts(), self.pos()),
    {
        match self.tokens.get_kind(self.idx) {
            Some(k) => *k,
            None => TokenTag::EOF,
        }
    }

    fn skip_to(&mut self, checkpoint: TokenTag)
        ensures
            final(self).pos() == skip_to_spec(old(self).ts(), old(self).pos(), checkpoint),
            final(self).ts() == old(self).ts(),
            final(self).tk() == old(self).tk(),
    {
        proof {
            use_type_invariant(&*self);
        }
        loop
            invariant
                self.ts() == old(self).ts(),
                self.tk() == old(self).tk(),
                skip_to_spec(self.ts(), self.pos(), checkpoint) == skip_to_spec(
                    old(self).ts(),
                    old(self).pos(),
                    checkpoint,
                ),
            ensures
                self.ts() == old(self).ts(),
                self.tk() == old(self).tk(),
                self.pos() == skip_to_spec(old(self).ts(), old(self).pos(), checkpoint),
            decreases self.ts().len() - self.pos(),
        {
            proof {
                use_type_invariant(&*self);
            }
            let tok = self.get_kind();
            if tok == TokenTag::EOF || tok == checkpoint {
                break;
            }
            self.idx += 1;
        }
    }

    fn skip_to_many(&mut self, checkpoints: &Vec<TokenTag>) -> (r: TokenTag)
        ensures
            final(self).pos() == skip_to_many_spec(old(self).ts(), old(self).pos(), checkpoints@),
            r == kind_at(old(self).ts(), final(self).pos()),
            final(self).ts() == old(self).ts(),
            final(self).tk() == old(self).tk(),
    {
        proof {
            use_type_invariant(&*self);
        }
        loop
            invariant
                self.ts() == old(self).ts(),
                self.tk() == old(self).tk(),
                skip_to_many_spec(self.ts(), self.pos(), checkpoints@) == skip_to_many_spec(
                    old(self).ts(),
                    old(self).pos(),
                    checkpoints@,
                ),
            decreases self.ts().len() - self.pos(),
        {
            proof {
                use_type_invariant(&*self);
            }
            let tok = self.get_kind();
            if tok == TokenTag::EOF || tag_in(checkpoints, tok) {
                return tok;
            }
            self.idx += 1;
        }
    }

    /// Reads `expected`, or skips to `checkpoint` and reports `error`.
    fn expect(&mut self, expected: TokenTag, checkpoint: TokenTag, error: ParserError) -> (r: Option<
        Diagnostic,
    >)
        requires
            expected != TokenTag::EOF,
        ensures
            final(self).ts() == old(self).ts(),
            final(self).tk() == old(self).tk(),
            if kind_at(old(self).ts(), old(self).pos()) != expected {
                &&& final(self).pos() == skip_to_spec(old(self).ts(), old(self).pos(), checkpoint)
                &&& r matches Some(d) && d@ == error_view(error)
            } else {
                &&& final(self).pos() == old(self).pos() + 1
                &&& r is None
            },
    {
        proof {
            use_type_invariant(&*self);
        }
        if self.get_kind() != expected {
            self.skip_to(checkpoint);
            Some(error_diagnostic(error))
        } else {
            self.idx += 1;
            None
        }
    }

    /// Reads one of `expected`, or skips to one of `checkpoint` and reports
    /// `error` with the tag it stopped at.
    fn expect_branch(&mut self, expected: &Vec<TokenTag>, checkpoint: &Vec<TokenTag>, error: ParserError) -> (r:
        Result<TokenTag, (Diagnostic, TokenTag)>)
        requires
            !expected@.contains(TokenTag::EOF),
        ensures
            final(self).ts() == old(self).ts(),
            final(self).tk() == old(self).tk(),
            ({
                let k = kind_at(old(self).ts(), old(self).pos());
                if expected@.contains(k) {
                    &&& final(self).pos() == old(self).pos() + 1
                    &&& r == Ok::<TokenTag, (Diagnostic, TokenTag)>(k)
                } else {
                    let j = skip_to_many_spec(old(self).ts(), old(self).pos(), checkpoint@);
                    &&& final(self).pos() == j
                    &&& r matches Err((d, t)) && d@ == error_view(error) && t == kind_at(old(self).ts(), j)
                }
            }),
    {
        proof {
            use_type_invariant(&*self);
        }
        let kind = self.get_kind();
        if tag_in(expected, kind) {
            self.idx += 1;
            Ok(kind)
        } else {
            let kind = self.skip_to_many(checkpoint);
            Err((error_diagnostic(error), kind))
        }
    }
}

} // verus!

verus! {

/// Whether an exec result matches a spec result.
pub open spec fn result_matches(r: Result<Value, Diagnostic>, s: Result<Value, ParserError>) -> bool {
    match (r, s) {
        (Ok(v), Ok(w)) => v == w,
        (Err(d), Err(e)) => d@ == error_view(e),
        _ => false,
    }
}

impl Parser {
    fn parse_prefix(&mut self) -> (r: Result<Value, Diagnostic>)
        ensures
            final(self).ts() == old(self).ts(),
            final(self).tk() == old(self).tk(),
            ({
                let (sr, j) = prefix_spec(old(self).ts(), old(self).tk(), old(self).pos());
                &&& final(self).pos() == j
                &&& result_matches(r, sr)
            }),
            old(self).pos() <= final(self).pos(),
        decreases old(self).ts().len() - old(self).pos(),
    {
        proof {
            use_type_invariant(&*self);
        }
        match self.get_kind() {
            TokenTag::Integer => Ok(Value::Integer(self.next_token().unwrap().lexeme)),
            TokenTag::Identifier => Ok(Value::Identifier(self.next_token().unwrap().lexeme)),
            TokenTag::PlusSign => {
                self.idx += 1;
                match self.parse_prefix() {
                    Ok(val) => match val {
                        // `+` over `+x` or `-x` is `+x`; absolutes never nest
                        Value::Absolute(value) => Ok(Value::Absolute(value)),
                        Value::Negate(value) => match *value {
                            Value::Absolute(inner) => Ok(Value::Absolute(inner)),
                            other => Ok(Value::Absolute(Box::new(other))),
                        },
                        value => Ok(Value::Absolute(Box::new(value))),
                    },
                    Err(error) => Err(error),
                }
            },
            TokenTag::MinusSign => {
                self.idx += 1;
                match self.parse_prefix() {
                    Ok(val) => match val {
                        // `-` over `-x` is `x`
                        Value::Negate(value) => Ok(*value),
                        value => Ok(Value::Negate(Box::new(value))),
                    },
                    Err(error) => Err(error),
                }
            },
            TokenTag::SemicolonOp => Err(error_diagnostic(ParserError::ExpectedExpr)),
            _ => Err(error_diagnostic(ParserError::InvalidExpr)),
        }
    }

    /// A Pratt parse of an expression whose operators bind at least as tightly
    /// as `min_prec`. Errors go to `errors`; `None` on an error, or when a token
    /// that is no operator follows an operand.
    fn parse_expr(&mut self, min_prec: u8, errors: &mut Vec<Diagnostic>) -> (r: Option<Value>)
        requires
            min_prec <= 3,
        ensures
            final(self).ts() == old(self).ts(),
            final(self).tk() == old(self).tk(),
            ({
                let (sv, j, es) = expr_spec(old(self).ts(), old(self).tk(), old(self).pos(), min_prec as int);
                &&& final(self).pos() == j
                &&& r == sv
                &&& diag_views(final(errors)@) == diag_views(old(errors)@) + error_views(es)
            }),
            old(self).pos() <= final(self).pos(),
        decreases old(self).ts().len() - old(self).pos(),
    {
        let ghost ts = self.ts();
        let ghost tk = self.tk();
        let ghost i0 = self.pos();
        let ghost total = expr_spec(ts, tk, i0, min_prec as int);
        let ghost base = diag_views(errors@);
        let mut left = match self.parse_prefix() {
            Ok(value) => value,
            Err(err) => {
                let ghost before = errors@;
                errors.push(err);
                proof {
                    let (sr, j) = prefix_spec(ts, tk, i0);
                    let e = sr->Err_0;
                    lemma_views_push2(before, base, Seq::empty(), err, e);
                    assert(Seq::<ParserError>::empty().push(e) =~= seq![e]);
                }
                return None;
            },
        };
        let ghost mut acc: Seq<ParserError> = Seq::empty();
        proof {
            use_type_invariant(&*self);
            assert(base + error_views(acc) =~= base);
        }
        loop
            invariant
                self.ts() == ts,
                self.tk() == tk,
                ts == old(self).ts(),
                tk == old(self).tk(),
                i0 == old(self).pos(),
                total == expr_spec(ts, tk, i0, min_prec as int),
                base == diag_views(old(errors)@),
                i0 <= self.pos() <= ts.len(),
                min_prec <= 3,
                ({
                    let (r, j, es) = expr_loop_spec(ts, tk, left, self.pos(), min_prec as int);
                    &&& r == total.0
                    &&& j == total.1
                    &&& acc + es == total.2
                }),
                diag_views(errors@) == base + error_views(acc),
            ensures
                self.ts() == ts,
                self.tk() == tk,
                i0 <= self.pos() <= ts.len(),
                total.0 == Some(left),
                total.1 == self.pos(),
                total.2 == acc,
                diag_views(errors@) == base + error_views(acc),
            decreases ts.len() - self.pos(),
        {
            proof {
                use_type_invariant(&*self);
            }
            let ghost li = self.pos();
            let kind = self.get_kind();
            if kind == TokenTag::EOF || kind == TokenTag::SemicolonOp {
                proof {
                    assert(acc + Seq::<ParserError>::empty() =~= acc);
                }
                break;
            }
            let (op, prec) = match kind {
                TokenTag::PlusSign => (OpKind::Addition, 1u8),
                TokenTag::MinusSign => (OpKind::Subtraction, 1u8),
                TokenTag::StarSign => (OpKind::Multiplication, 2u8),
                TokenTag::DivSign => (OpKind::Division, 2u8),
                _ => {
                    proof {
                        assert(acc + Seq::<ParserError>::empty() =~= acc);
                    }
                    return None;
                },
            };
            if prec < min_prec {
                proof {
                    assert(acc + Seq::<ParserError>::empty() =~= acc);
                }
                break;
            }
            self.idx += 1;
            let ghost mid = diag_views(errors@);
            let sub = self.parse_expr(prec + 1, errors);
            let ghost (sr, sj, ses) = expr_spec(ts, tk, li + 1, prec + 1);
            proof {
                use_type_invariant(&*self);
                lemma_error_views_add(acc, ses);
                assert(diag_views(errors@) =~= base + error_views(acc + ses));
            }
            let ghost old_left = left;
            let ghost old_acc = acc;
            if let Some(right) = sub {
                left = Value::BinaryExpr {
                    left: Box::new(left),
                    op,
                    right: Box::new(right),
                    evaluated_ty: None,
                };
                proof {
                    acc = acc + ses;
                    let (r2, j2, es2) = expr_loop_spec(ts, tk, left, self.pos(), min_prec as int);
                    assert(expr_loop_spec(ts, tk, old_left, li, min_prec as int) == (r2, j2, ses + es2));
                    assert(old_acc + (ses + es2) =~= acc + es2);
                }
            } else {
                proof {
                    acc = acc + ses;
                }
                return None;
            }
        }
        Some(left)
    }
}


proof fn lemma_skip_to(ts: Seq<TokenTag>, i: int, cp: TokenTag)
    requires
        0 <= i <= ts.len(),
    ensures
        i <= skip_to_spec(ts, i, cp) <= ts.len(),
        kind_at(ts, skip_to_spec(ts, i, cp)) == TokenTag::EOF || kind_at(ts, skip_to_spec(ts, i, cp)) == cp,
    decreases ts.len() - i,
{
    if !(i >= ts.len() || kind_at(ts, i) == TokenTag::EOF || kind_at(ts, i) == cp) {
        lemma_skip_to(ts, i + 1, cp);
    }
}

proof fn lemma_skip_to_many(ts: Seq<TokenTag>, i: int, cps: Seq<TokenTag>)
    requires
        0 <= i <= ts.len(),
    ensures
        i <= skip_to_many_spec(ts, i, cps) <= ts.len(),
        kind_at(ts, skip_to_many_spec(ts, i, cps)) == TokenTag::EOF || cps.contains(
            kind_at(ts, skip_to_many_spec(ts, i, cps)),
        ),
    decreases ts.len() - i,
{
    if !(i >= ts.len() || kind_at(ts, i) == TokenTag::EOF || cps.contains(kind_at(ts, i))) {
        lemma_skip_to_many(ts, i + 1, cps);
    }
}

impl Parser {
    /// A declaration; the keyword is at the current position.
    fn parse_var(&mut self, errors: &mut Vec<Diagnostic>, desc: VariableDescriptor) -> (r: Option<Statement>)
        requires
            old(self).pos() < old(self).ts().len(),
        ensures
            final(self).ts() == old(self).ts(),
            final(self).tk() == old(self).tk(),
            ({
                let (ss, j, es) = var_spec(old(self).ts(), old(self).tk(), old(self).pos(), desc);
                &&& final(self).pos() == j
                &&& r == ss
                &&& diag_views(final(errors)@) == diag_views(old(errors)@) + error_views(es)
            }),
            old(self).pos() < final(self).pos() <= final(self).ts().len(),
    {
        proof {
            use_type_invariant(&*self);
        }
        let ghost ts = self.ts();
        let ghost tk = self.tk();
        let ghost i = self.pos();
        let ghost base = diag_views(errors@);
        let ghost spec = var_spec(ts, tk, i, desc);
        self.idx += 1;  // the keyword
        let token = self.get_token();
        proof {
            lemma_skip_to(ts, i + 1, TokenTag::SemicolonOp);
            assert(base + error_views(Seq::empty()) =~= base);
        }
        if let Some(err) = self.expect(TokenTag::Identifier, TokenTag::SemicolonOp, ParserError::ExpectedIdentifier) {
            let ghost before = errors@;
            errors.push(err);
            proof {
                lemma_views_push2(before, base, Seq::empty(), err, ParserError::ExpectedIdentifier);
                assert(Seq::<ParserError>::empty().push(ParserError::ExpectedIdentifier) =~= seq![ParserError::ExpectedIdentifier]);
            }
            return None;
        }
        let ident = token.unwrap();
        proof {
            use_type_invariant(&*self);
            lemma_skip_to_many(ts, i + 2, seq![TokenTag::EqualOp, TokenTag::SemicolonOp]);
        }
        let branches = vec![TokenTag::EqualOp, TokenTag::SemicolonOp];
        proof {
            assert(branches@ =~= seq![TokenTag::EqualOp, TokenTag::SemicolonOp]);
            assert(!branches@.contains(TokenTag::EOF)) by {
                if branches@.contains(TokenTag::EOF) {
                    let k = choose|k: int| 0 <= k < branches@.len() && branches@[k] == TokenTag::EOF;
                }
            }
            assert(branches@.contains(TokenTag::EqualOp)) by {
                assert(branches@[0] == TokenTag::EqualOp);
            }
            assert(branches@.contains(TokenTag::SemicolonOp)) by {
                assert(branches@[1] == TokenTag::SemicolonOp);
            }
        }
        let ghost mut errs0: Seq<ParserError> = Seq::empty();
        match self.expect_branch(&branches, &branches, ParserError::ExpectedEqual) {
            Ok(kind) => {
                if kind == TokenTag::SemicolonOp {
                    return Some(Statement::Variable(Variable::new(ident, None, None, desc)));
                }
            },
            Err((err, checkpoint)) => {
                let ghost before = errors@;
                errors.push(err);
                proof {
                    lemma_views_push2(before, base, Seq::empty(), err, ParserError::ExpectedEqual);
                    errs0 = seq![ParserError::ExpectedEqual];
                    assert(Seq::<ParserError>::empty().push(ParserError::ExpectedEqual) =~= errs0);
                }
                if checkpoint == TokenTag::EOF || checkpoint == TokenTag::SemicolonOp {
                    return None;
                } else {
                    // the checkpoint is the equal sign here
                    self.idx += 1;
                }
            },
        }
        proof {
            use_type_invariant(&*self);
        }
        let ghost i3 = self.pos();
        let ghost mid = diag_views(errors@);
        let value = self.parse_expr(0, errors);
        let ghost (sv, i4, es) = expr_spec(ts, tk, i3, 0);
        proof {
            use_type_invariant(&*self);
            lemma_error_views_add(errs0, es);
            assert(diag_views(errors@) =~= base + error_views(errs0 + es));
            lemma_skip_to(ts, i4, TokenTag::SemicolonOp);
        }
        if value.is_none() {
            self.skip_to(TokenTag::SemicolonOp);
            return None;
        }
        let ghost before = errors@;
        if let Some(err) = self.expect(TokenTag::SemicolonOp, TokenTag::SemicolonOp, ParserError::ExpectedSemicolon) {
            errors.push(err);
            proof {
                lemma_views_push2(before, base, errs0 + es, err, ParserError::ExpectedSemicolon);
                assert((errs0 + es).push(ParserError::ExpectedSemicolon) =~= errs0 + es + seq![ParserError::ExpectedSemicolon]);
            }
            return None;
        }
        Some(Statement::Variable(Variable::new(ident, None, value, desc)))
    }
}


/// The parser state that the exec values stand for.
pub open spec fn state_of(pos: int, counter: ScopeId, arena: Seq<ScopeView>, es: Seq<ParserError>) -> PState {
    PState { idx: pos, counter: counter as int, arena, errors: es }
}

impl Parser {
    /// A block; the `{` is at the current position. Statements go to the new
    /// scope and, after it closes, to whatever scope was opened last.
    fn parse_scope(
        &mut self,
        valid_statements: &Vec<TokenTag>,
        errors: &mut Vec<Diagnostic>,
        scope_arena: &mut ScopeArena,
        scope_id_counter: &mut ScopeId,
        Ghost(es0): Ghost<Seq<ParserError>>,
    )
        requires
            valid_statements@ == statement_starts(),
            kind_at(old(self).ts(), old(self).pos()) == TokenTag::LCurlyBracket,
            old(scope_arena)@.len() == *old(scope_id_counter) + 1,
            old(scope_arena)@.len() <= old(self).pos() + 1,
            diag_views(old(errors)@) == error_views(es0),
        ensures
            final(self).ts() == old(self).ts(),
            final(self).tk() == old(self).tk(),
            ({
                let res = scope_spec(
                    old(self).ts(),
                    old(self).tk(),
                    state_of(old(self).pos(), *old(scope_id_counter), old(scope_arena)@, es0),
                    valid_statements@,
                );
                &&& final(self).pos() == res.idx
                &&& *final(scope_id_counter) == res.counter
                &&& final(scope_arena)@ == res.arena
                &&& diag_views(final(errors)@) == error_views(res.errors)
            }),
            final(scope_arena)@.len() == *final(scope_id_counter) + 1,
            final(scope_arena)@.len() <= final(self).pos() + 1,
            old(self).pos() < final(self).pos() <= final(self).ts().len(),
        decreases old(self).ts().len() - old(self).pos(), 0int,
    {
        proof {
            use_type_invariant(&*self);
        }
        self.idx += 1;  // the `{`
        let scope = Scope::with_parent(Some(*scope_id_counter), ScopeType::Local);
        scope_arena.add_scope(scope);
        *scope_id_counter += 1;
        let breaks = vec![TokenTag::EOF, TokenTag::RCurlyBracket];
        proof {
            assert(breaks@ =~= seq![TokenTag::EOF, TokenTag::RCurlyBracket]);
            assert(breaks@.contains(TokenTag::EOF)) by {
                assert(breaks@[0] == TokenTag::EOF);
            }
        }
        self.inner_parse(valid_statements, errors, scope_arena, scope_id_counter, &breaks, Ghost(es0));
        proof {
            use_type_invariant(&*self);
        }
        match self.get_kind() {
            TokenTag::RCurlyBracket => self.idx += 1,
            TokenTag::EOF => {
                let ghost before = errors@;
                let d = error_diagnostic(ParserError::UnclosedScope);
                errors.push(d);
                proof {
                    let res = inner_spec(
                        old(self).ts(),
                        old(self).tk(),
                        PState {
                            idx: old(self).pos() + 1,
                            counter: *old(scope_id_counter) + 1,
                            arena: arena_add_scope(
                                old(scope_arena)@,
                                fresh_scope(Some(*old(scope_id_counter)), ScopeType::Local),
                            ),
                            errors: es0,
                        },
                        seq![TokenTag::EOF, TokenTag::RCurlyBracket],
                        valid_statements@,
                    );
                    lemma_views_push(before, res.errors, d, ParserError::UnclosedScope);
                }
            },
            _ => {
                proof {
                    let k = kind_at(self.ts(), self.pos());
                    assert(breaks@.contains(k));
                    let w = choose|w: int| 0 <= w < breaks@.len() && breaks@[w] == k;
                    assert(false);
                }
            },
        }
    }

    /// Statements and blocks up to a tag in `breaks`.
    fn inner_parse(
        &mut self,
        valid_statements: &Vec<TokenTag>,
        errors: &mut Vec<Diagnostic>,
        scope_arena: &mut ScopeArena,
        scope_id_counter: &mut ScopeId,
        breaks: &Vec<TokenTag>,
        Ghost(es0): Ghost<Seq<ParserError>>,
    )
        requires
            valid_statements@ == statement_starts(),
            breaks@.contains(TokenTag::EOF),
            old(scope_arena)@.len() == *old(scope_id_counter) + 1,
            old(scope_arena)@.len() <= old(self).pos() + 1,
            diag_views(old(errors)@) == error_views(es0),
        ensures
            final(self).ts() == old(self).ts(),
            final(self).tk() == old(self).tk(),
            ({
                let res = inner_spec(
                    old(self).ts(),
                    old(self).tk(),
                    state_of(old(self).pos(), *old(scope_id_counter), old(scope_arena)@, es0),
                    breaks@,
                    valid_statements@,
                );
                &&& final(self).pos() == res.idx
                &&& *final(scope_id_counter) == res.counter
                &&& final(scope_arena)@ == res.arena
                &&& diag_views(final(errors)@) == error_views(res.errors)
            }),
            final(scope_arena)@.len() == *final(scope_id_counter) + 1,
            final(scope_arena)@.len() <= final(self).pos() + 1,
            breaks@.contains(kind_at(final(self).ts(), final(self).pos())),
            old(self).pos() <= final(self).pos() <= final(self).ts().len(),
        decreases old(self).ts().len() - old(self).pos(), 1int,
    {
        let ghost ts = self.ts();
        let ghost tk = self.tk();
        let ghost res = inner_spec(
            ts,
            tk,
            state_of(self.pos(), *scope_id_counter, scope_arena@, es0),
            breaks@,
            valid_statements@,
        );
        let ghost mut es = es0;
        proof {
            use_type_invariant(&*self);
        }
        loop
            invariant
                self.ts() == ts,
                self.tk() == tk,
                ts == old(self).ts(),
                tk == old(self).tk(),
                valid_statements@ == statement_starts(),
                breaks@.contains(TokenTag::EOF),
                old(self).pos() <= self.pos() <= ts.len(),
                scope_arena@.len() == *scope_id_counter + 1,
                scope_arena@.len() <= self.pos() + 1,
                diag_views(errors@) == error_views(es),
                res == inner_spec(
                    old(self).ts(),
                    old(self).tk(),
                    state_of(old(self).pos(), *old(scope_id_counter), old(scope_arena)@, es0),
                    breaks@,
                    valid_statements@,
                ),
                inner_spec(
                    ts,
                    tk,
                    state_of(self.pos(), *scope_id_counter, scope_arena@, es),
                    breaks@,
                    valid_statements@,
                ) == res,
            ensures
                self.ts() == ts,
                self.tk() == tk,
                old(self).pos() <= self.pos() <= ts.len(),
                scope_arena@.len() == *scope_id_counter + 1,
                scope_arena@.len() <= self.pos() + 1,
                diag_views(errors@) == error_views(es),
                res == state_of(self.pos(), *scope_id_counter, scope_arena@, es),
                breaks@.contains(kind_at(ts, self.pos())),
            decreases ts.len() - self.pos(),
        {
            proof {
                use_type_invariant(&*self);
            }
            let ghost cur = state_of(self.pos(), *scope_id_counter, scope_arena@, es);
            let tok = self.get_kind();
            if tag_in(breaks, tok) {
                break;
            }
            if tok == TokenTag::LCurlyBracket {
                // the start of a block
                self.parse_scope(valid_statements, errors, scope_arena, scope_id_counter, Ghost(es));
                proof {
                    es = scope_spec(ts, tk, cur, valid_statements@).errors;
                }
                continue;
            }
            let mutability = match tok {
                TokenTag::LetKeyword => Some(Mutability::Immutable),
                TokenTag::MutKeyword => Some(Mutability::Mutable),
                TokenTag::ConstKeyword => Some(Mutability::Const),
                _ => None,
            };
            match mutability {
                Some(m) => {
                    let ghost before = diag_views(errors@);
                    let stmt = self.parse_var(errors, VariableDescriptor::default(m));
                    let ghost (sr, j, ves) = var_spec(ts, tk, cur.idx, VariableDescriptor::of(m));
                    proof {
                        lemma_error_views_add(es, ves);
                        es = es + ves;
                    }
                    if let Some(stmt) = stmt {
                        scope_arena.add_statement_to(*scope_id_counter, stmt);
                    }
                },
                None => {
                    if tok == TokenTag::SemicolonOp {
                        self.idx += 1;
                    } else {
                        let ghost before = errors@;
                        let d = error_diagnostic(ParserError::InvalidStartOfStatement);
                        errors.push(d);
                        proof {
                            lemma_views_push(before, es, d, ParserError::InvalidStartOfStatement);
                            es = es.push(ParserError::InvalidStartOfStatement);
                            lemma_skip_to_many(ts, cur.idx, valid_statements@);
                            assert(!valid_statements@.contains(tok)) by {
                                if valid_statements@.contains(tok) {
                                    let w = choose|w: int| 0 <= w < 3 && valid_statements@[w] == tok;
                                    assert(statement_starts()[w] == tok);
                                }
                            }
                        }
                        self.skip_to_many(valid_statements);
                    }
                },
            }
        }
    }

    /// Parses the rest of the token stream into a scope arena, whose first
    /// scope is the file's. Every error is reported, and then no arena is
    /// returned.
    pub fn parse(&mut self) -> (r: Result<ScopeArena, Vec<Diagnostic>>)
        ensures
            final(self).ts() == old(self).ts(),
            final(self).tk() == old(self).tk(),
            ({
                let res = parse_from(old(self).ts(), old(self).tk(), old(self).pos());
                match r {
                    Ok(arena) => res.errors.len() == 0 && arena@ == res.arena && scope_tree_ok(arena@),
                    Err(es) => res.errors.len() > 0 && diag_views(es@) == error_views(res.errors),
                }
            }),
    {
        let mut errors: Vec<Diagnostic> = Vec::new();
        let mut scope_arena = ScopeArena::new();
        let file_scope = Scope::new(ScopeType::Local);
        scope_arena.add_scope(file_scope);
        let valid_statements = vec![TokenTag::LetKeyword, TokenTag::MutKeyword, TokenTag::ConstKeyword];
        let mut scope_id_counter: ScopeId = 0;
        let breaks = vec![TokenTag::EOF];
        proof {
            assert(valid_statements@ =~= statement_starts());
            assert(breaks@ =~= seq![TokenTag::EOF]);
            assert(breaks@.contains(TokenTag::EOF)) by {
                assert(breaks@[0] == TokenTag::EOF);
            }
            assert(scope_arena@ =~= seq![fresh_scope(None, ScopeType::Local)]);
            assert(diag_views(errors@) =~= error_views(Seq::empty()));
        }
        self.inner_parse(
            &valid_statements,
            &mut errors,
            &mut scope_arena,
            &mut scope_id_counter,  // the file's scope
            &breaks,
            Ghost(Seq::empty()),
        );
        proof {
            let res = parse_from(old(self).ts(), old(self).tk(), old(self).pos());
            assert(state_of(old(self).pos(), 0, seq![fresh_scope(None, ScopeType::Local)], Seq::empty())
                == start_state(old(self).pos()));
            assert(diag_views(errors@).len() == errors@.len());
            assert(error_views(res.errors).len() == res.errors.len());
        }
        if errors.len() == 0 {
            let _count = scope_arena.size();  // the arena fits in memory
            proof {
                law_parse_scope_tree(old(self).ts(), old(self).tk(), old(self).pos() as int);
            }
            Ok(scope_arena)
        } else {
            Err(errors)
        }
    }
}

} // verus!

verus! {

// ---------------------------------------------------------------------------
// Laws of the parser.
// ---------------------------------------------------------------------------

/// The precedence of an operator.
pub open spec fn prec_of(op: OpKind) -> int {
    match op {
        OpKind::Addition | OpKind::Subtraction => 1,
        OpKind::Multiplication | OpKind::Division => 2,
    }
}

pub open spec fn is_atom(v: Value) -> bool {
    v is Integer || v is Identifier
}

/// The operand forms the parser makes: an atom under signs, where a
/// negation never stands right under a `+` or a `-`, and an absolute never
/// right under a `+` (`+-x` is read as `+x`, `++x` as `+x`, and `--x` as
/// `x`).
pub open spec fn prefix_normal(v: Value) -> bool
    decreases v,
{
    match v {
        Value::Integer(_) | Value::Identifier(_) => true,
        Value::Absolute(x) => !(*x is Negate) && !(*x is Absolute) && prefix_normal(*x),
        Value::Negate(x) => !(*x is Negate) && prefix_normal(*x),
        Value::BinaryExpr { .. } => false,
    }
}

/// The shape of the expressions the parser makes: operands in their normal
/// form, no type recorded yet, and operators nested as precedence and left
/// associativity ask: the left operand of an operator binds at least as
/// tightly, the right operand more tightly.
pub open spec fn well_shaped(v: Value) -> bool
    decreases v,
{
    match v {
        Value::BinaryExpr { left, op, right, evaluated_ty } => {
            &&& evaluated_ty is None
            &&& well_shaped(*left)
            &&& well_shaped(*right)
            &&& ((*left) matches Value::BinaryExpr { op: lop, .. } ==> prec_of(lop) >= prec_of(op))
            &&& ((*right) matches Value::BinaryExpr { op: rop, .. } ==> prec_of(rop) > prec_of(op))
        },
        _ => prefix_normal(v),
    }
}

/// The precedence at the top of an expression (3 for an operand).
pub open spec fn top_prec(v: Value) -> int {
    match v {
        Value::BinaryExpr { op, .. } => prec_of(op),
        _ => 3,
    }
}

/// Where an expression of level `min_prec` may end: at the end, at `;`, or
/// at an operator that binds less tightly.
pub open spec fn expr_stop(ts: Seq<TokenTag>, j: int, min_prec: int) -> bool {
    let k = kind_at(ts, j);
    ||| k == TokenTag::EOF
    ||| k == TokenTag::SemicolonOp
    ||| (op_of(k) matches Some((op, p)) && (p as int) < min_prec)
}

/// Every operand the parser reads is in normal form.
pub proof fn law_prefix_normal(ts: Seq<TokenTag>, tk: Seq<Token>, i: int)
    ensures
        prefix_spec(ts, tk, i).0 matches Ok(v) ==> prefix_normal(v),
        prefix_spec(ts, tk, i).0 is Ok ==> prefix_spec(ts, tk, i).1 > i,
    decreases ts.len() - i,
{
    let k = kind_at(ts, i);
    if k == TokenTag::PlusSign || k == TokenTag::MinusSign {
        law_prefix_normal(ts, tk, i + 1);
    }
}

proof fn lemma_loop_shape(ts: Seq<TokenTag>, tk: Seq<Token>, left: Value, i: int, min_prec: int)
    requires
        0 <= min_prec,
        well_shaped(left),
        top_prec(left) >= min_prec,
        left is BinaryExpr ==> (op_of(kind_at(ts, i)) matches Some((op, p)) ==> (p as int) <= top_prec(left)),
    ensures
        expr_loop_spec(ts, tk, left, i, min_prec).0 matches Some(v) ==> {
            &&& well_shaped(v)
            &&& top_prec(v) >= min_prec
            &&& expr_stop(ts, expr_loop_spec(ts, tk, left, i, min_prec).1, min_prec)
        },
    decreases ts.len() - i, 0int,
{
    let k = kind_at(ts, i);
    if !(k == TokenTag::EOF || k == TokenTag::SemicolonOp) {
        if let Some((op, prec)) = op_of(k) {
            if (prec as int) >= min_prec {
                lemma_expr_shape(ts, tk, i + 1, prec + 1);
                let (r, j, es) = expr_spec(ts, tk, i + 1, prec + 1);
                if let Some(right) = r {
                    if !(j <= i || j > ts.len()) {
                        let node = Value::BinaryExpr {
                            left: Box::new(left),
                            op,
                            right: Box::new(right),
                            evaluated_ty: None,
                        };
                        assert(prec_of(op) == prec as int);
                        assert(well_shaped(node));
                        lemma_loop_shape(ts, tk, node, j, min_prec);
                    }
                }
            }
        }
    }
}

/// Every expression the parser reads is well shaped, binds at least as
/// tightly as the level it was read at, and stops where such an expression
/// may stop.
pub proof fn lemma_expr_shape(ts: Seq<TokenTag>, tk: Seq<Token>, i: int, min_prec: int)
    requires
        0 <= min_prec,
    ensures
        expr_spec(ts, tk, i, min_prec).0 matches Some(v) ==> {
            &&& well_shaped(v)
            &&& top_prec(v) >= min_prec || !(v is BinaryExpr)
            &&& expr_stop(ts, expr_spec(ts, tk, i, min_prec).1, min_prec)
        },
    decreases ts.len() - i, 1int,
{
    law_prefix_normal(ts, tk, i);
    let (r, j) = prefix_spec(ts, tk, i);
    if let Ok(v) = r {
        if !(j < i || j > ts.len()) {
            if min_prec <= 3 {
                lemma_loop_shape(ts, tk, v, j, min_prec);
            } else {
                lemma_loop_shape_high(ts, tk, v, j, min_prec);
            }
        }
    }
}

/// Above every precedence, an expression is just its first operand.
proof fn lemma_loop_shape_high(ts: Seq<TokenTag>, tk: Seq<Token>, left: Value, i: int, min_prec: int)
    requires
        min_prec > 3,
        well_shaped(left),
        !(left is BinaryExpr),
    ensures
        expr_loop_spec(ts, tk, left, i, min_prec).0 matches Some(v) ==> {
            &&& well_shaped(v)
            &&& !(v is BinaryExpr)
            &&& expr_stop(ts, expr_loop_spec(ts, tk, left, i, min_prec).1, min_prec)
        },
{
}

/// An operand read without folding signs: one `Absolute` per `+` and one
/// `Negate` per `-`, outermost first.
pub open spec fn unfolded_prefix(ts: Seq<TokenTag>, tk: Seq<Token>, i: int) -> (Result<Value, ParserError>, int)
    decreases ts.len() - i,
{
    let k = kind_at(ts, i);
    if k == TokenTag::Integer {
        (Ok(Value::Integer(tk[i].lexeme)), i + 1)
    } else if k == TokenTag::Identifier {
        (Ok(Value::Identifier(tk[i].lexeme)), i + 1)
    } else if k == TokenTag::PlusSign || k == TokenTag::MinusSign {
        let (r, j) = unfolded_prefix(ts, tk, i + 1);
        (
            match r {
                Ok(v) => Ok(if k == TokenTag::PlusSign {
                    Value::Absolute(Box::new(v))
                } else {
                    Value::Negate(Box::new(v))
                }),
                Err(e) => Err(e),
            },
            j,
        )
    } else if k == TokenTag::SemicolonOp {
        (Err(ParserError::ExpectedExpr), i)
    } else {
        (Err(ParserError::InvalidExpr), i)
    }
}

/// The value of an operand over the integers, given the values of numbers
/// and of names: `+x` is the absolute value of `x`, `-x` its negation.
pub open spec fn operand_value(v: Value, num: spec_fn(Seq<char>) -> int, var: spec_fn(Seq<char>) -> int) -> int
    decreases v,
{
    match v {
        Value::Integer(n) => num(n@),
        Value::Identifier(x) => var(x@),
        Value::Absolute(x) => {
            let a = operand_value(*x, num, var);
            if a < 0 {
                -a
            } else {
                a
            }
        },
        Value::Negate(x) => -operand_value(*x, num, var),
        Value::BinaryExpr { .. } => 0,
    }
}

/// Folding signs changes neither where an operand ends, nor whether it is
/// read, nor, over the integers, its value: the operand the parser reads
/// means what the signs written in front of it mean, one by one.
pub proof fn law_prefix_folding(
    ts: Seq<TokenTag>,
    tk: Seq<Token>,
    i: int,
    num: spec_fn(Seq<char>) -> int,
    var: spec_fn(Seq<char>) -> int,
)
    ensures
        prefix_spec(ts, tk, i).1 == unfolded_prefix(ts, tk, i).1,
        prefix_spec(ts, tk, i).0 is Ok <==> unfolded_prefix(ts, tk, i).0 is Ok,
        prefix_spec(ts, tk, i).0 matches Err(e) ==> unfolded_prefix(ts, tk, i).0 == Err::<Value, ParserError>(e),
        prefix_spec(ts, tk, i).0 is Ok ==> operand_value(prefix_spec(ts, tk, i).0->Ok_0, num, var)
            == operand_value(unfolded_prefix(ts, tk, i).0->Ok_0, num, var),
    decreases ts.len() - i,
{
    let k = kind_at(ts, i);
    if k == TokenTag::PlusSign || k == TokenTag::MinusSign {
        law_prefix_folding(ts, tk, i + 1, num, var);
        let (r, j) = prefix_spec(ts, tk, i + 1);
        if let Ok(v) = r {
            match v {
                Value::Absolute(x) => {
                    assert(operand_value(v, num, var) == {
                        let a = operand_value(*x, num, var);
                        if a < 0 { -a } else { a }
                    });
                },
                Value::Negate(x) => {
                    assert(operand_value(v, num, var) == -operand_value(*x, num, var));
                },
                _ => {},
            }
        }
    }
}

/// The parser's expressions are well shaped: operands in normal form, and
/// operators nested by precedence and left associativity.
pub proof fn law_expr_well_shaped(ts: Seq<TokenTag>, tk: Seq<Token>, i: int)
    ensures
        expr_spec(ts, tk, i, 0).0 matches Some(v) ==> well_shaped(v),
{
    lemma_expr_shape(ts, tk, i, 0);
}

} // verus!

verus! {

/// A declaration as the parser makes it: no type yet, and a well shaped
/// value if it has one.
pub open spec fn stmt_well_shaped(s: Statement) -> bool {
    match s {
        Statement::Variable(v) => v.ty is None && (v.value matches Some(x) ==> well_shaped(x)),
    }
}

/// Every scope but the first has an earlier parent that lists it as a child.
#[verifier::opaque]
pub open spec fn parents_ok(arena: Seq<ScopeView>) -> bool {
    forall|k: int|
        1 <= k < arena.len() ==> ((#[trigger] arena[k]).parent matches Some(p) && (p as int) < k
            && arena[p as int].children.contains(k as usize))
}

/// Every child comes after its parent, and names it as its parent.
#[verifier::opaque]
pub open spec fn children_ok(arena: Seq<ScopeView>) -> bool {
    forall|k: int, c: int|
        0 <= k < arena.len() && 0 <= c < arena[k].children.len() ==> k < #[trigger] arena[k].children[c]
            < arena.len() && arena[arena[k].children[c] as int].parent == Some(k as usize)
}

/// Every declaration in the arena is well shaped.
#[verifier::opaque]
pub open spec fn statements_ok(arena: Seq<ScopeView>) -> bool {
    forall|k: int, j: int|
        0 <= k < arena.len() && 0 <= j < arena[k].statements.len() ==> stmt_well_shaped(
            #[trigger] arena[k].statements[j],
        )
}

/// The scope arena the parser builds is a tree rooted at the file's scope:
/// the first scope has no parent, every other scope has an earlier parent
/// that lists it as a child, every child comes after its parent and names it
/// as parent, and every declaration is well shaped.
pub open spec fn scope_tree_ok(arena: Seq<ScopeView>) -> bool {
    &&& arena.len() >= 1
    &&& arena[0].parent is None
    &&& parents_ok(arena)
    &&& children_ok(arena)
    &&& statements_ok(arena)
}

pub open spec fn state_ok(st: PState) -> bool {
    &&& scope_tree_ok(st.arena)
    &&& st.counter == st.arena.len() - 1
}

/// What adding a block under scope `p` does to each scope.
proof fn lemma_add_scope_shape(arena: Seq<ScopeView>, p: int)
    requires
        0 <= p < arena.len(),
        arena.len() < usize::MAX,
    ensures
        ({
            let n = arena.len() as int;
            let a = arena_add_scope(arena, fresh_scope(Some(p as usize), ScopeType::Local));
            &&& a.len() == n + 1
            &&& forall|k: int| 0 <= k < n && k != p ==> #[trigger] a[k] == arena[k]
            &&& a[p].parent == arena[p].parent
            &&& a[p].children == arena[p].children.push(n as usize)
            &&& a[p].statements == arena[p].statements
            &&& a[n] == fresh_scope(Some(p as usize), ScopeType::Local)
        }),
{
}

proof fn lemma_add_scope_parents(arena: Seq<ScopeView>, p: int)
    requires
        parents_ok(arena),
        0 <= p < arena.len(),
        arena.len() < usize::MAX,
    ensures
        parents_ok(arena_add_scope(arena, fresh_scope(Some(p as usize), ScopeType::Local))),
{
    reveal(parents_ok);
    let n = arena.len() as int;
    let a = arena_add_scope(arena, fresh_scope(Some(p as usize), ScopeType::Local));
    lemma_add_scope_shape(arena, p);
    assert forall|k: int| 1 <= k < a.len() implies ((#[trigger] a[k]).parent matches Some(q) && (q as int) < k
        && a[q as int].children.contains(k as usize)) by {
        if k < n {
            assert(arena[k].parent is Some);
            let q = arena[k].parent.unwrap() as int;
            assert(a[k].parent == arena[k].parent);
            assert(arena[q].children.contains(k as usize));
            if q == p {
                let w = choose|w: int| 0 <= w < arena[q].children.len() && arena[q].children[w] == k as usize;
                assert(a[q].children[w] == k as usize);
            } else {
                assert(a[q] == arena[q]);
            }
        } else {
            let last = arena[p].children.len() as int;
            assert(a[p].children[last] == n as usize);
        }
    }
}

proof fn lemma_add_scope_children(arena: Seq<ScopeView>, p: int)
    requires
        children_ok(arena),
        0 <= p < arena.len(),
        arena.len() < usize::MAX,
    ensures
        children_ok(arena_add_scope(arena, fresh_scope(Some(p as usize), ScopeType::Local))),
{
    reveal(children_ok);
    let n = arena.len() as int;
    let a = arena_add_scope(arena, fresh_scope(Some(p as usize), ScopeType::Local));
    lemma_add_scope_shape(arena, p);
    assert forall|k: int, c: int| 0 <= k < a.len() && 0 <= c < a[k].children.len() implies k
        < #[trigger] a[k].children[c] < a.len() && a[a[k].children[c] as int].parent == Some(k as usize) by {
        if k < n && (k != p || c < arena[p].children.len()) {
            let m = arena[k].children[c] as int;
            assert(a[k].children[c] == m as usize);
            assert(k < m < n && arena[m].parent == Some(k as usize));
            if m != p {
                assert(a[m] == arena[m]);
            }
        }
    }
}

proof fn lemma_add_scope_statements(arena: Seq<ScopeView>, p: int)
    requires
        statements_ok(arena),
        0 <= p < arena.len(),
        arena.len() < usize::MAX,
    ensures
        statements_ok(arena_add_scope(arena, fresh_scope(Some(p as usize), ScopeType::Local))),
{
    reveal(statements_ok);
    let n = arena.len() as int;
    let a = arena_add_scope(arena, fresh_scope(Some(p as usize), ScopeType::Local));
    lemma_add_scope_shape(arena, p);
    assert forall|k: int, j: int| 0 <= k < a.len() && 0 <= j < a[k].statements.len() implies stmt_well_shaped(
        #[trigger] a[k].statements[j],
    ) by {
        if k < n {
            assert(a[k].statements == arena[k].statements);
            assert(stmt_well_shaped(arena[k].statements[j]));
        }
    }
}

proof fn lemma_add_scope_ok(arena: Seq<ScopeView>, p: int)
    requires
        scope_tree_ok(arena),
        0 <= p < arena.len(),
        arena.len() < usize::MAX,
    ensures
        scope_tree_ok(arena_add_scope(arena, fresh_scope(Some(p as usize), ScopeType::Local))),
{
    lemma_add_scope_shape(arena, p);
    lemma_add_scope_parents(arena, p);
    lemma_add_scope_children(arena, p);
    lemma_add_scope_statements(arena, p);
    if p == 0 {
        assert(arena_add_scope(arena, fresh_scope(Some(p as usize), ScopeType::Local))[0].parent
            == arena[0].parent);
    }
}

/// Adding a declaration to scope `id` changes that scope's declarations only.
proof fn lemma_add_stmt_shape(arena: Seq<ScopeView>, id: int, stmt: Statement)
    requires
        0 <= id < arena.len(),
    ensures
        ({
            let a = arena_add_statement(arena, id, stmt);
            &&& a.len() == arena.len()
            &&& forall|k: int| 0 <= k < arena.len() && k != id ==> #[trigger] a[k] == arena[k]
            &&& a[id].parent == arena[id].parent
            &&& a[id].children == arena[id].children
            &&& a[id].statements == arena[id].statements.push(stmt)
        }),
{
}

proof fn lemma_add_stmt_ok(arena: Seq<ScopeView>, id: int, stmt: Statement)
    requires
        scope_tree_ok(arena),
        0 <= id < arena.len(),
        stmt_well_shaped(stmt),
    ensures
        scope_tree_ok(arena_add_statement(arena, id, stmt)),
{
    let a = arena_add_statement(arena, id, stmt);
    lemma_add_stmt_shape(arena, id, stmt);
    assert forall|k: int| 0 <= k < a.len() implies #[trigger] a[k].parent == arena[k].parent
        && a[k].children == arena[k].children by {
        if k != id {
            assert(a[k] == arena[k]);
        }
    }
    assert(parents_ok(a)) by {
        reveal(parents_ok);
        assert forall|k: int| 1 <= k < a.len() implies ((#[trigger] a[k]).parent matches Some(q) && (q as int)
            < k && a[q as int].children.contains(k as usize)) by {
            assert(arena[k].parent is Some);
            let q = arena[k].parent.unwrap() as int;
            assert(a[q].children == arena[q].children);
        }
    }
    assert(children_ok(a)) by {
        reveal(children_ok);
        assert forall|k: int, c: int| 0 <= k < a.len() && 0 <= c < a[k].children.len() implies k
            < #[trigger] a[k].children[c] < a.len() && a[a[k].children[c] as int].parent == Some(k as usize) by {
            assert(a[k].children[c] == arena[k].children[c]);
            let m = arena[k].children[c] as int;
            assert(a[m].parent == arena[m].parent);
        }
    }
    assert(statements_ok(a)) by {
        reveal(statements_ok);
        assert forall|k: int, j: int| 0 <= k < a.len() && 0 <= j < a[k].statements.len() implies stmt_well_shaped(
            #[trigger] a[k].statements[j],
        ) by {
            if k == id && j == arena[k].statements.len() {
                assert(a[k].statements[j] == stmt);
            } else if k == id {
                assert(a[k].statements[j] == arena[k].statements[j]);
            } else {
                assert(a[k] == arena[k]);
                assert(a[k].statements[j] == arena[k].statements[j]);
            }
        }
    }
    assert(a[0].parent == arena[0].parent);
}

proof fn lemma_var_ok(ts: Seq<TokenTag>, tk: Seq<Token>, i: int, desc: VariableDescriptor)
    ensures
        var_spec(ts, tk, i, desc).0 matches Some(stmt) ==> stmt_well_shaped(stmt),
{
    let i1 = i + 1;
    let i2 = i1 + 1;
    let j = skip_to_many_spec(ts, i2, seq![TokenTag::EqualOp, TokenTag::SemicolonOp]);
    law_expr_well_shaped(ts, tk, i2 + 1);
    law_expr_well_shaped(ts, tk, j + 1);
}

/// The arena only grows while parsing a run of statements.
proof fn lemma_inner_grows(ts: Seq<TokenTag>, tk: Seq<Token>, st: PState, breaks: Seq<TokenTag>, vs: Seq<TokenTag>)
    requires
        st.counter == st.arena.len() - 1,
        st.arena.len() >= 1,
    ensures
        inner_spec(ts, tk, st, breaks, vs).arena.len() >= st.arena.len(),
        inner_spec(ts, tk, st, breaks, vs).counter == inner_spec(ts, tk, st, breaks, vs).arena.len() - 1,
    decreases ts.len() - st.idx, 1int,
{
    if !(st.idx < 0 || st.idx > ts.len()) {
        let tok = kind_at(ts, st.idx);
        if breaks.contains(tok) {
        } else if tok == TokenTag::LCurlyBracket {
            lemma_scope_grows(ts, tk, st, vs);
            let st2 = scope_spec(ts, tk, st, vs);
            if !(st2.idx <= st.idx || st2.idx > ts.len()) {
                lemma_inner_grows(ts, tk, st2, breaks, vs);
            }
        } else if is_decl_keyword(tok) {
            let (r, j, es) = var_spec(ts, tk, st.idx, VariableDescriptor::of(mutability_of(tok)));
            let st2 = PState {
                idx: j,
                counter: st.counter,
                arena: match r {
                    Some(stmt) => arena_add_statement(st.arena, st.counter, stmt),
                    None => st.arena,
                },
                errors: st.errors + es,
            };
            assert(st2.arena.len() == st.arena.len());
            if !(j <= st.idx || j > ts.len()) {
                lemma_inner_grows(ts, tk, st2, breaks, vs);
            }
        } else if tok == TokenTag::SemicolonOp {
            lemma_inner_grows(ts, tk, PState { idx: st.idx + 1, ..st }, breaks, vs);
        } else {
            let j = skip_to_many_spec(ts, st.idx, vs);
            let st2 = PState { idx: j, errors: st.errors.push(ParserError::InvalidStartOfStatement), ..st };
            if !(j <= st.idx || j > ts.len()) {
                lemma_inner_grows(ts, tk, st2, breaks, vs);
            }
        }
    }
}

/// A block adds at least its own scope to the arena.
proof fn lemma_scope_grows(ts: Seq<TokenTag>, tk: Seq<Token>, st: PState, vs: Seq<TokenTag>)
    requires
        st.counter == st.arena.len() - 1,
        st.arena.len() >= 1,
    ensures
        scope_spec(ts, tk, st, vs).arena.len() >= st.arena.len(),
        0 <= st.idx < ts.len() ==> scope_spec(ts, tk, st, vs).arena.len() > st.arena.len(),
        scope_spec(ts, tk, st, vs).counter == scope_spec(ts, tk, st, vs).arena.len() - 1,
    decreases ts.len() - st.idx, 0int,
{
    if !(st.idx < 0 || st.idx >= ts.len()) {
        let st1 = PState {
            idx: st.idx + 1,
            counter: st.counter + 1,
            arena: arena_add_scope(st.arena, fresh_scope(Some(st.counter as usize), ScopeType::Local)),
            errors: st.errors,
        };
        let p = st.counter as usize;
        assert(0 <= p < st.arena.len());
        assert(st1.arena.len() == st.arena.len() + 1);
        lemma_inner_grows(ts, tk, st1, seq![TokenTag::EOF, TokenTag::RCurlyBracket], vs);
    }
}

proof fn lemma_inner_ok(ts: Seq<TokenTag>, tk: Seq<Token>, st: PState, breaks: Seq<TokenTag>, vs: Seq<TokenTag>)
    requires
        state_ok(st),
        inner_spec(ts, tk, st, breaks, vs).arena.len() <= usize::MAX,
    ensures
        state_ok(inner_spec(ts, tk, st, breaks, vs)),
    decreases ts.len() - st.idx, 1int,
{
    if !(st.idx < 0 || st.idx > ts.len()) {
        let tok = kind_at(ts, st.idx);
        if breaks.contains(tok) {
        } else if tok == TokenTag::LCurlyBracket {
            let st2 = scope_spec(ts, tk, st, vs);
            if !(st2.idx <= st.idx || st2.idx > ts.len()) {
                lemma_scope_grows(ts, tk, st, vs);
                lemma_inner_grows(ts, tk, st2, breaks, vs);
                lemma_scope_ok(ts, tk, st, vs);
                lemma_inner_ok(ts, tk, st2, breaks, vs);
            } else {
                lemma_scope_ok(ts, tk, st, vs);
            }
        } else if is_decl_keyword(tok) {
            let (r, j, es) = var_spec(ts, tk, st.idx, VariableDescriptor::of(mutability_of(tok)));
            lemma_var_ok(ts, tk, st.idx, VariableDescriptor::of(mutability_of(tok)));
            if let Some(stmt) = r {
                lemma_add_stmt_ok(st.arena, st.counter, stmt);
            }
            let st2 = PState {
                idx: j,
                counter: st.counter,
                arena: match r {
                    Some(stmt) => arena_add_statement(st.arena, st.counter, stmt),
                    None => st.arena,
                },
                errors: st.errors + es,
            };
            if !(j <= st.idx || j > ts.len()) {
                lemma_inner_ok(ts, tk, st2, breaks, vs);
            }
        } else if tok == TokenTag::SemicolonOp {
            lemma_inner_ok(ts, tk, PState { idx: st.idx + 1, ..st }, breaks, vs);
        } else {
            let j = skip_to_many_spec(ts, st.idx, vs);
            let st2 = PState { idx: j, errors: st.errors.push(ParserError::InvalidStartOfStatement), ..st };
            if !(j <= st.idx || j > ts.len()) {
                lemma_inner_ok(ts, tk, st2, breaks, vs);
            }
        }
    }
}

proof fn lemma_scope_ok(ts: Seq<TokenTag>, tk: Seq<Token>, st: PState, vs: Seq<TokenTag>)
    requires
        state_ok(st),
        scope_spec(ts, tk, st, vs).arena.len() <= usize::MAX,
    ensures
        state_ok(scope_spec(ts, tk, st, vs)),
    decreases ts.len() - st.idx, 0int,
{
    if !(st.idx < 0 || st.idx >= ts.len()) {
        let st1 = PState {
            idx: st.idx + 1,
            counter: st.counter + 1,
            arena: arena_add_scope(st.arena, fresh_scope(Some(st.counter as usize), ScopeType::Local)),
            errors: st.errors,
        };
        lemma_inner_grows(ts, tk, st1, seq![TokenTag::EOF, TokenTag::RCurlyBracket], vs);
        lemma_add_scope_shape(st.arena, st.counter);
        lemma_add_scope_ok(st.arena, st.counter);
        lemma_inner_ok(ts, tk, st1, seq![TokenTag::EOF, TokenTag::RCurlyBracket], vs);
    }
}

/// Whatever the tokens, the parser's scope arena is a tree rooted at the
/// file's scope (scope 0, without a parent): every other scope has an earlier
/// parent that lists it as a child, children come after their parent and
/// name it as parent, and every declaration in it is well shaped. (An arena
/// holds at most `usize::MAX` scopes.)
pub proof fn law_parse_scope_tree(ts: Seq<TokenTag>, tk: Seq<Token>, i: int)
    requires
        parse_from(ts, tk, i).arena.len() <= usize::MAX,
    ensures
        scope_tree_ok(parse_from(ts, tk, i).arena),
        parse_from(ts, tk, i).arena[0].parent is None,
{
    let st = start_state(i);
    assert(scope_tree_ok(st.arena)) by {
        reveal(parents_ok);
        reveal(children_ok);
        reveal(statements_ok);
    }
    lemma_inner_ok(ts, tk, st, seq![TokenTag::EOF], statement_starts());
}

} // verus!

verus! {

// ---------------------------------------------------------------------------
// Declarations keep their keyword's mutability.
// ---------------------------------------------------------------------------

/// The mutability each declaration keyword stands for: `let` immutable, `mut`
/// mutable, `const` constant.
pub open spec fn keyword_means(k: TokenTag, m: Mutability) -> bool {
    ||| k == TokenTag::LetKeyword && m == Mutability::Immutable
    ||| k == TokenTag::MutKeyword && m == Mutability::Mutable
    ||| k == TokenTag::ConstKeyword && m == Mutability::Const
}

/// `stmt` declares the identifier at some position `p + 1` of the tokens,
/// right after the keyword at `p`, with the mutability that keyword stands
/// for and no type yet.
pub open spec fn declared_at(ts: Seq<TokenTag>, tk: Seq<Token>, p: int, stmt: Statement) -> bool {
    match stmt {
        Statement::Variable(v) => {
            &&& 0 <= p < ts.len()
            &&& keyword_means(ts[p], v.desc.mutability_spec())
            &&& kind_at(ts, p + 1) == TokenTag::Identifier
            &&& v.ident == tk[p + 1]
        },
    }
}

/// `stmt` declares the identifier after some declaration keyword of the
/// tokens, with the mutability that keyword stands for.
pub open spec fn declared_in(ts: Seq<TokenTag>, tk: Seq<Token>, stmt: Statement) -> bool {
    exists|p: int| declared_at(ts, tk, p, stmt)
}

/// Every statement of the arena declares some identifier of the tokens with
/// the mutability of the keyword before it.
#[verifier::opaque]
pub open spec fn decls_from_tokens(ts: Seq<TokenTag>, tk: Seq<Token>, arena: Seq<ScopeView>) -> bool {
    forall|k: int, j: int|
        0 <= k < arena.len() && 0 <= j < arena[k].statements.len() ==> #[trigger] declared_in(
            ts,
            tk,
            arena[k].statements[j],
        )
}

proof fn lemma_var_declared(ts: Seq<TokenTag>, tk: Seq<Token>, i: int)
    requires
        is_decl_keyword(kind_at(ts, i)),
    ensures
        var_spec(ts, tk, i, VariableDescriptor::of(mutability_of(kind_at(ts, i)))).0 matches Some(stmt)
            ==> declared_at(ts, tk, i, stmt),
{
    let k = kind_at(ts, i);
    VariableDescriptor::lemma_of(mutability_of(k));
}

proof fn lemma_add_stmt_decls(ts: Seq<TokenTag>, tk: Seq<Token>, arena: Seq<ScopeView>, id: int, stmt: Statement, p: int)
    requires
        decls_from_tokens(ts, tk, arena),
        0 <= id < arena.len(),
        declared_at(ts, tk, p, stmt),
    ensures
        decls_from_tokens(ts, tk, arena_add_statement(arena, id, stmt)),
{
    reveal(decls_from_tokens);
    let a = arena_add_statement(arena, id, stmt);
    assert forall|k: int, j: int| 0 <= k < a.len() && 0 <= j < a[k].statements.len() implies #[trigger] declared_in(
        ts,
        tk,
        a[k].statements[j],
    ) by {
        if k == id && j == arena[k].statements.len() {
            assert(a[k].statements[j] == stmt);
            assert(declared_at(ts, tk, p, a[k].statements[j]));
        } else {
            assert(a[k].statements[j] == arena[k].statements[j]);
            assert(declared_in(ts, tk, arena[k].statements[j]));
            let w = choose|w: int| declared_at(ts, tk, w, arena[k].statements[j]);
            assert(declared_at(ts, tk, w, a[k].statements[j]));
        }
    }
}

proof fn lemma_add_scope_decls(ts: Seq<TokenTag>, tk: Seq<Token>, arena: Seq<ScopeView>, q: usize)
    requires
        decls_from_tokens(ts, tk, arena),
        q < arena.len(),
    ensures
        decls_from_tokens(ts, tk, arena_add_scope(arena, fresh_scope(Some(q), ScopeType::Local))),
{
    reveal(decls_from_tokens);
    let a = arena_add_scope(arena, fresh_scope(Some(q), ScopeType::Local));
    assert forall|k: int, j: int| 0 <= k < a.len() && 0 <= j < a[k].statements.len() implies #[trigger] declared_in(
        ts,
        tk,
        a[k].statements[j],
    ) by {
        assert(a[k].statements == arena[k].statements);
        assert(a[k].statements[j] == arena[k].statements[j]);
        assert(declared_in(ts, tk, arena[k].statements[j]));
        let w = choose|w: int| declared_at(ts, tk, w, arena[k].statements[j]);
        assert(declared_at(ts, tk, w, a[k].statements[j]));
    }
}

proof fn lemma_inner_decls(ts: Seq<TokenTag>, tk: Seq<Token>, st: PState, breaks: Seq<TokenTag>, vs: Seq<TokenTag>)
    requires
        decls_from_tokens(ts, tk, st.arena),
        st.counter == st.arena.len() - 1,
        st.arena.len() >= 1,
    ensures
        decls_from_tokens(ts, tk, inner_spec(ts, tk, st, breaks, vs).arena),
    decreases ts.len() - st.idx, 1int,
{
    if !(st.idx < 0 || st.idx > ts.len()) {
        let tok = kind_at(ts, st.idx);
        if breaks.contains(tok) {
        } else if tok == TokenTag::LCurlyBracket {
            lemma_scope_decls(ts, tk, st, vs);
            lemma_scope_grows(ts, tk, st, vs);
            let st2 = scope_spec(ts, tk, st, vs);
            if !(st2.idx <= st.idx || st2.idx > ts.len()) {
                lemma_inner_decls(ts, tk, st2, breaks, vs);
            }
        } else if is_decl_keyword(tok) {
            let (r, j, es) = var_spec(ts, tk, st.idx, VariableDescriptor::of(mutability_of(tok)));
            lemma_var_declared(ts, tk, st.idx);
            if let Some(stmt) = r {
                lemma_add_stmt_decls(ts, tk, st.arena, st.counter, stmt, st.idx);
            }
            let st2 = PState {
                idx: j,
                counter: st.counter,
                arena: match r {
                    Some(stmt) => arena_add_statement(st.arena, st.counter, stmt),
                    None => st.arena,
                },
                errors: st.errors + es,
            };
            assert(st2.arena.len() == st.arena.len());
            if !(j <= st.idx || j > ts.len()) {
                lemma_inner_decls(ts, tk, st2, breaks, vs);
            }
        } else if tok == TokenTag::SemicolonOp {
            lemma_inner_decls(ts, tk, PState { idx: st.idx + 1, ..st }, breaks, vs);
        } else {
            let j = skip_to_many_spec(ts, st.idx, vs);
            let st2 = PState { idx: j, errors: st.errors.push(ParserError::InvalidStartOfStatement), ..st };
            if !(j <= st.idx || j > ts.len()) {
                lemma_inner_decls(ts, tk, st2, breaks, vs);
            }
        }
    }
}

proof fn lemma_scope_decls(ts: Seq<TokenTag>, tk: Seq<Token>, st: PState, vs: Seq<TokenTag>)
    requires
        decls_from_tokens(ts, tk, st.arena),
        st.counter == st.arena.len() - 1,
        st.arena.len() >= 1,
    ensures
        decls_from_tokens(ts, tk, scope_spec(ts, tk, st, vs).arena),
    decreases ts.len() - st.idx, 0int,
{
    if !(st.idx < 0 || st.idx >= ts.len()) {
        let q = st.counter as usize;
        assert(q < st.arena.len());
        lemma_add_scope_decls(ts, tk, st.arena, q);
        let st1 = PState {
            idx: st.idx + 1,
            counter: st.counter + 1,
            arena: arena_add_scope(st.arena, fresh_scope(Some(q), ScopeType::Local)),
            errors: st.errors,
        };
        assert(st1.arena.len() == st.arena.len() + 1);
        lemma_inner_decls(ts, tk, st1, seq![TokenTag::EOF, TokenTag::RCurlyBracket], vs);
    }
}

/// Every declaration the parser records names the identifier that follows a
/// declaration keyword in the tokens, and has the mutability that keyword
/// stands for: `let` immutable, `mut` mutable, `const` constant.
pub proof fn law_parse_mutability(ts: Seq<TokenTag>, tk: Seq<Token>, i: int)
    ensures
        forall|k: int, j: int|
            0 <= k < parse_from(ts, tk, i).arena.len() && 0 <= j < parse_from(ts, tk, i).arena[k].statements.len()
                ==> #[trigger] declared_in(ts, tk, parse_from(ts, tk, i).arena[k].statements[j]),
{
    let st = start_state(i);
    assert(decls_from_tokens(ts, tk, st.arena)) by {
        reveal(decls_from_tokens);
    }
    lemma_inner_decls(ts, tk, st, seq![TokenTag::EOF], statement_starts());
    reveal(decls_from_tokens);
}

} // verus!
