use vstd::prelude::*;

use crate::errors::{LoxError, LoxErrorKind, LoxResult, SyntaxProblem};
use crate::tokenizer::{
    lexed_view, pos_at, scan, Lexed, Token, TokenKind, TokenModel, Tokenizer,
};

verus! {

/// One complete top-level construct: its tokens, in order.
#[derive(Debug)]
pub struct AstNode {
    pub tokens: Vec<Token>,
}

impl View for AstNode {
    type V = Seq<TokenModel>;

    open spec fn view(&self) -> Seq<TokenModel> {
        self.tokens@.map_values(|t: Token| t@)
    }
}

/// What the assembler yields at each step: a unit, or the error that ends the sequence.
pub type Assembled = Result<Seq<TokenModel>, LoxErrorKind>;

pub open spec fn unit_view(r: LoxResult<AstNode>) -> Assembled {
    match r {
        Ok(n) => Ok(n@),
        Err(e) => Err(e.kind),
    }
}

/// Assembles tokens into top-level units. A unit ends with a `;` outside any
/// bracket, or with the `}` that closes the outermost brace. The tokens of an
/// unfinished unit and the brackets still open are kept between chunks.
pub struct Parser {
    pub tokenizer: Tokenizer,
    pub pending: Vec<Token>,
    pub brackets: Vec<TokenKind>,
}

pub open spec fn is_opening(k: TokenKind) -> bool {
    k == TokenKind::LeftParen || k == TokenKind::LeftBrace
}

pub open spec fn is_closing(k: TokenKind) -> bool {
    k == TokenKind::RightParen || k == TokenKind::RightBrace
}

pub open spec fn closes(open: TokenKind, close: TokenKind) -> bool {
    (open == TokenKind::LeftParen && close == TokenKind::RightParen) || (open
        == TokenKind::LeftBrace && close == TokenKind::RightBrace)
}

/// The state of the assembler: the tokens of the unfinished unit and the
/// brackets open in it, innermost last.
pub type AssemblyState = (Seq<TokenModel>, Seq<TokenKind>);

/// The units that `items` complete from state `st`, up to and including the
/// first error, and the state that is left. At the end of the items an
/// unfinished unit yields `UnexpectedEof`; any other error clears the state.
pub open spec fn assemble(items: Seq<Lexed>, st: AssemblyState) -> (Seq<Assembled>, AssemblyState)
    decreases items.len(),
{
    let (pending, brackets) = st;
    if items.len() == 0 {
        if pending.len() > 0 {
            (seq![Err(LoxErrorKind::UnexpectedEof)], st)
        } else {
            (seq![], st)
        }
    } else {
        let rest = items.drop_first();
        match items[0] {
            Err(e) => if e == LoxErrorKind::UnexpectedEof {
                (seq![Err(e)], st)
            } else {
                (seq![Err(e)], (seq![], seq![]))
            },
            Ok(t) => {
                let grown = pending.push(t);
                if is_opening(t.kind) {
                    assemble(rest, (grown, brackets.push(t.kind)))
                } else if is_closing(t.kind) {
                    if brackets.len() == 0 || !closes(brackets.last(), t.kind) {
                        (
                            seq![Err(LoxErrorKind::SyntaxError(SyntaxProblem::UnmatchedClosing))],
                            (seq![], seq![]),
                        )
                    } else if t.kind == TokenKind::RightBrace && brackets.len() == 1 {
                        let after = assemble(rest, (seq![], seq![]));
                        (seq![Ok(grown)] + after.0, after.1)
                    } else {
                        assemble(rest, (grown, brackets.drop_last()))
                    }
                } else if t.kind == TokenKind::Semicolon && brackets.len() == 0 {
                    let after = assemble(rest, (seq![], seq![]));
                    (seq![Ok(grown)] + after.0, after.1)
                } else {
                    assemble(rest, (grown, brackets))
                }
            },
        }
    }
}

/// Whether a sequence of units ends with an error other than `UnexpectedEof`.
pub open spec fn ends_in_fault(units: Seq<Assembled>) -> bool {
    units.len() > 0 && units.last() is Err && units.last()->Err_0 != LoxErrorKind::UnexpectedEof
}

pub(crate) fn reversed<T>(v: Vec<T>) -> (r: Vec<T>)
    ensures
        r@.len() == v@.len(),
        forall|k: int| 0 <= k < v@.len() ==> r@[k] == v@[v@.len() - 1 - k],
{
    let ghost v0 = v@;
    let mut v = v;
    let mut r: Vec<T> = Vec::new();
    while v.len() > 0
        invariant
            r@.len() + v@.len() == v0.len(),
            v@ == v0.subrange(0, v@.len() as int),
            forall|k: int| 0 <= k < r@.len() ==> r@[k] == v0[v0.len() - 1 - k],
        decreases v@.len(),
    {
        let x = v.pop().unwrap();
        r.push(x);
    }
    r
}

impl Parser {
    pub open spec fn state(&self) -> AssemblyState {
        (self.pending@.map_values(|t: Token| t@), self.brackets@)
    }

    /// An assembler with nothing pending, over a fresh scanner.
    pub fn new() -> (r: Parser)
        ensures
            r.state() == (Seq::<TokenModel>::empty(), Seq::<TokenKind>::empty()),
            r.tokenizer.position() == (1u32, 1u32),
            r.tokenizer.pending() is None,
    {
        let r = Parser { tokenizer: Tokenizer::new(), pending: Vec::new(), brackets: Vec::new() };
        assert(r.state().0 =~= Seq::<TokenModel>::empty());
        r
    }

    /// Scans `input` and returns the units it completes, up to and including
    /// the first error. An error other than `UnexpectedEof` clears what was
    /// pending, in the assembler and in the scanner.
    pub fn assemble_chunk(&mut self, input: &[u8]) -> (r: Vec<LoxResult<AstNode>>)
        ensures
            ({
                let sc = scan(old(self).tokenizer.position(), old(self).tokenizer.pending(), input@);
                let units = assemble(sc.0, old(self).state());
                &&& r@.map_values(|x: LoxResult<AstNode>| unit_view(x)) == units.0
                &&& final(self).state() == units.1
                &&& final(self).tokenizer.position() == pos_at(
                    old(self).tokenizer.position(),
                    input@,
                    input@.len() as int,
                )
                &&& final(self).tokenizer.pending() == if ends_in_fault(units.0) {
                    None
                } else {
                    sc.1
                }
            }),
    {
        let ghost sc = scan(self.tokenizer.position(), self.tokenizer.pending(), input@);
        let ghost units = assemble(sc.0, self.state());
        let items = self.tokenizer.tokenize(input);
        let ghost n = items@.len() as int;
        proof {
            assert(items@.map_values(|x: LoxResult<Token>| lexed_view(x)).len() == n);
        }
        let mut rev = reversed(items);
        let mut out: Vec<LoxResult<AstNode>> = Vec::new();
        let mut done = false;
        proof {
            assert(sc.0.subrange(n - rev@.len(), n) =~= sc.0);
            assert(out@.map_values(|x: LoxResult<AstNode>| unit_view(x)) + units.0 =~= units.0);
        }
        loop
            invariant
                0 <= rev@.len() <= n,
                sc.0.len() == n,
                forall|k: int|
                    0 <= k < rev@.len() ==> lexed_view(#[trigger] rev@[k]) == sc.0[n - 1 - k],
                !done ==> out@.map_values(|x: LoxResult<AstNode>| unit_view(x)) + assemble(
                    sc.0.subrange(n - rev@.len(), n),
                    self.state(),
                ).0 == units.0,
                !done ==> assemble(sc.0.subrange(n - rev@.len(), n), self.state()).1 == units.1,
                !done ==> forall|k: int| 0 <= k < out@.len() ==> #[trigger] out@[k] is Ok,
                !done ==> self.tokenizer.pending() == sc.1,
                done ==> out@.map_values(|x: LoxResult<AstNode>| unit_view(x)) == units.0,
                done ==> self.state() == units.1,
                done ==> self.tokenizer.pending() == if ends_in_fault(units.0) {
                    None
                } else {
                    sc.1
                },
                self.tokenizer.position() == pos_at(
                    old(self).tokenizer.position(),
                    input@,
                    input@.len() as int,
                ),
            ensures
                out@.map_values(|x: LoxResult<AstNode>| unit_view(x)) == units.0,
                self.state() == units.1,
                self.tokenizer.pending() == if ends_in_fault(units.0) {
                    None
                } else {
                    sc.1
                },
                self.tokenizer.position() == pos_at(
                    old(self).tokenizer.position(),
                    input@,
                    input@.len() as int,
                ),
            decreases rev@.len(), if done { 0int } else { 1int },
        {
            if done {
                break;
            }
            let ghost rest = sc.0.subrange(n - rev@.len(), n);
            let ghost before = out@.map_values(|x: LoxResult<AstNode>| unit_view(x));
            let ghost st = self.state();
            let item = match rev.pop() {
                Some(item) => item,
                None => {
                    assert(rest.len() == 0);
                    if self.pending.len() > 0 {
                        out.push(Err(LoxError::new(LoxErrorKind::UnexpectedEof)));
                        assert(out@.map_values(|x: LoxResult<AstNode>| unit_view(x)) =~= before
                            + seq![Err(LoxErrorKind::UnexpectedEof)]);
                    } else {
                        assert(before + assemble(rest, st).0 =~= before);
                    }
                    done = true;
                    continue;
                },
            };
            assert(rest[0] == lexed_view(item));
            let ghost next = sc.0.subrange(n - rev@.len(), n);
            assert(rest.drop_first() =~= next);
            match item {
                Err(err) => {
                    if !err.is_unexpected_eof() {
                        self.pending = Vec::new();
                        self.brackets = Vec::new();
                        self.tokenizer.open = None;
                        assert(self.state().0 =~= Seq::<TokenModel>::empty());
                    }
                    out.push(Err(err));
                    assert(out@.map_values(|x: LoxResult<AstNode>| unit_view(x)) =~= before
                        + seq![Err(err.kind)]);
                    done = true;
                },
                Ok(token) => {
                    let kind = token.kind;
                    if kind == TokenKind::LeftParen || kind == TokenKind::LeftBrace {
                        self.brackets.push(kind);
                        self.pending.push(token);
                        assert(self.state().0 =~= st.0.push(token@));
                    } else if kind == TokenKind::RightParen || kind == TokenKind::RightBrace {
                        let depth = self.brackets.len();
                        let matched = if depth == 0 {
                            false
                        } else {
                            let open = self.brackets[depth - 1];
                            (open == TokenKind::LeftParen && kind == TokenKind::RightParen) || (open
                                == TokenKind::LeftBrace && kind == TokenKind::RightBrace)
                        };
                        if !matched {
                            self.pending = Vec::new();
                            self.brackets = Vec::new();
                            self.tokenizer.open = None;
                            assert(self.state().0 =~= Seq::<TokenModel>::empty());
                            let err = LoxError::new(
                                LoxErrorKind::SyntaxError(SyntaxProblem::UnmatchedClosing),
                            );
                            out.push(Err(err));
                            assert(out@.map_values(|x: LoxResult<AstNode>| unit_view(x)) =~= before
                                + seq![Err(err.kind)]);
                            done = true;
                        } else {
                            let outermost = kind == TokenKind::RightBrace && self.brackets.len()
                                == 1;
                            self.brackets.pop();
                            self.pending.push(token);
                            assert(self.state().0 =~= st.0.push(token@));
                            if outermost {
                                let mut tokens = Vec::new();
                                std::mem::swap(&mut tokens, &mut self.pending);
                                let node = AstNode { tokens };
                                assert(node@ =~= st.0.push(token@));
                                out.push(Ok(node));
                                assert(self.state().0 =~= Seq::<TokenModel>::empty());
                                assert(self.state().1 =~= Seq::<TokenKind>::empty());
                                assert(out@.map_values(|x: LoxResult<AstNode>| unit_view(x))
                                    =~= before.push(Ok(st.0.push(token@))));
                                assert(before + (seq![Ok(st.0.push(token@))] + assemble(
                                    next,
                                    self.state(),
                                ).0) =~= before.push(Ok(st.0.push(token@))) + assemble(
                                    next,
                                    self.state(),
                                ).0);
                            }
                        }
                    } else {
                        let ends = kind == TokenKind::Semicolon && self.brackets.len() == 0;
                        self.pending.push(token);
                        assert(self.state().0 =~= st.0.push(token@));
                        if ends {
                            let mut tokens = Vec::new();
                            std::mem::swap(&mut tokens, &mut self.pending);
                            let node = AstNode { tokens };
                            assert(node@ =~= st.0.push(token@));
                            out.push(Ok(node));
                            assert(self.state().0 =~= Seq::<TokenModel>::empty());
                            assert(out@.map_values(|x: LoxResult<AstNode>| unit_view(x))
                                =~= before.push(Ok(st.0.push(token@))));
                            assert(self.state().1 =~= Seq::<TokenKind>::empty());
                            assert(before + (seq![Ok(st.0.push(token@))] + assemble(
                                next,
                                self.state(),
                            ).0) =~= before.push(Ok(st.0.push(token@))) + assemble(
                                next,
                                self.state(),
                            ).0);
                        }
                    }
                },
            }
        }
        out
    }
}


/// The assembler is fail-stop: an error can only be the last item it yields.
pub proof fn lemma_assemble_fail_stop(items: Seq<Lexed>, st: AssemblyState)
    ensures
        forall|k: int|
            0 <= k < assemble(items, st).0.len() - 1 ==> #[trigger] assemble(items, st).0[k] is Ok,
    decreases items.len(),
{
    let (pending, brackets) = st;
    if items.len() > 0 {
        let rest = items.drop_first();
        if let Ok(t) = items[0] {
            let grown = pending.push(t);
            if is_opening(t.kind) {
                lemma_assemble_fail_stop(rest, (grown, brackets.push(t.kind)));
            } else if is_closing(t.kind) {
                if brackets.len() == 0 || !closes(brackets.last(), t.kind) {
                } else if t.kind == TokenKind::RightBrace && brackets.len() == 1 {
                    lemma_assemble_fail_stop(rest, (seq![], seq![]));
                    let after = assemble(rest, (seq![], seq![]));
                    assert forall|k: int| 0 <= k < after.0.len() implies #[trigger] (seq![
                        Ok::<Seq<TokenModel>, LoxErrorKind>(grown),
                    ] + after.0)[k + 1] == after.0[k] by {}
                } else {
                    lemma_assemble_fail_stop(rest, (grown, brackets.drop_last()));
                }
            } else if t.kind == TokenKind::Semicolon && brackets.len() == 0 {
                lemma_assemble_fail_stop(rest, (seq![], seq![]));
                let after = assemble(rest, (seq![], seq![]));
                assert forall|k: int| 0 <= k < after.0.len() implies #[trigger] (seq![
                    Ok::<Seq<TokenModel>, LoxErrorKind>(grown),
                ] + after.0)[k + 1] == after.0[k] by {}
            } else {
                lemma_assemble_fail_stop(rest, (grown, brackets));
            }
        }
    }
}


/// The units of one chunk of input, handed out in order. The next unit is the
/// last element of `rest`.
pub struct AstNodeIterator {
    rest: Vec<LoxResult<AstNode>>,
}

impl AstNodeIterator {
    /// The units still to come, in order.
    pub closed spec fn remaining(&self) -> Seq<Assembled> {
        Seq::new(self.rest@.len(), |k: int| unit_view(self.rest@[self.rest@.len() - 1 - k]))
    }

    /// The next unit or error; `None` once all are out.
    pub fn next(&mut self) -> (r: Option<LoxResult<AstNode>>)
        ensures
            r is None <==> old(self).remaining().len() == 0,
            r is None ==> final(self).remaining() == old(self).remaining(),
            r is Some ==> old(self).remaining() == seq![unit_view(r->0)] + final(self).remaining(),
    {
        let ghost before = self.remaining();
        let r = self.rest.pop();
        proof {
            if r is Some {
                assert(before =~= seq![unit_view(r->0)] + self.remaining());
            } else {
                assert(self.remaining() =~= before);
            }
        }
        r
    }
}

impl Parser {
    /// Scans `input` and hands out, one at a time, the units it completes, up
    /// to and including the first error, as `assemble_chunk` computes them.
    pub fn iter_ast_nodes(&mut self, input: &[u8]) -> (it: AstNodeIterator)
        ensures
            ({
                let sc = scan(old(self).tokenizer.position(), old(self).tokenizer.pending(), input@);
                let units = assemble(sc.0, old(self).state());
                &&& it.remaining() == units.0
                &&& final(self).state() == units.1
                &&& final(self).tokenizer.position() == pos_at(
                    old(self).tokenizer.position(),
                    input@,
                    input@.len() as int,
                )
                &&& final(self).tokenizer.pending() == if ends_in_fault(units.0) {
                    None
                } else {
                    sc.1
                }
            }),
    {
        let results = self.assemble_chunk(input);
        let ghost units = results@.map_values(|x: LoxResult<AstNode>| unit_view(x));
        let it = AstNodeIterator { rest: reversed(results) };
        assert(it.remaining() =~= units);
        it
    }
}

} // verus!
