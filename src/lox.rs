use vstd::prelude::*;

use crate::errors::{LoxError, LoxErrorKind, LoxResult};
use crate::parser::{
    assemble, ends_in_fault, lemma_assemble_fail_stop, reversed, unit_view, Assembled,
    AssemblyState, AstNode, Parser,
};
use crate::tokenizer::{
    byte_in_class, lemma_run_end_bounds, pos_at, run_end, scan, scan_from, token_at, tokens_of,
    ByteClass, Lexed,
    OpenStringModel, Pos, TokenKind, TokenModel, Tokenizer,
};
use vstd::slice::slice_subrange;

verus! {

/// The front end of the language: runs whole scripts, or an interactive session
/// line by line.
pub struct Lox {}

/// The state of an interactive session between lines: the assembler, the units
/// completed but not yet executed, and whether the last line ended in a newline.
pub struct Session {
    pub parser: Parser,
    pub nodes: Vec<AstNode>,
    pub ends_with_newline: bool,
}

/// The mathematical value of a session.
pub struct SessionModel {
    pub assembly: AssemblyState,
    pub pos: Pos,
    pub open: Option<OpenStringModel>,
    pub nodes: Seq<Seq<TokenModel>>,
    pub ends_with_newline: bool,
}

impl View for Session {
    type V = SessionModel;

    open spec fn view(&self) -> SessionModel {
        SessionModel {
            assembly: self.parser.state(),
            pos: self.parser.tokenizer.position(),
            open: self.parser.tokenizer.pending(),
            nodes: self.nodes@.map_values(|n: AstNode| n@),
            ends_with_newline: self.ends_with_newline,
        }
    }
}

pub open spec fn primary_prompt() -> Seq<u8> {
    seq!['>' as u8, ' ' as u8]
}

pub open spec fn continuation_prompt() -> Seq<u8> {
    seq!['.' as u8, ' ' as u8]
}

pub open spec fn newline() -> Seq<u8> {
    seq!['\n' as u8]
}

/// The payloads of the completed units, in order.
pub open spec fn completed(units: Seq<Assembled>) -> Seq<Seq<TokenModel>>
    decreases units.len(),
{
    if units.len() == 0 {
        seq![]
    } else {
        let earlier = completed(units.drop_last());
        match units.last() {
            Ok(n) => earlier.push(n),
            Err(_) => earlier,
        }
    }
}

/// Whether the units end by asking for more input.
pub open spec fn wants_more(units: Seq<Assembled>) -> bool {
    units.len() > 0 && units.last() == Err::<Seq<TokenModel>, LoxErrorKind>(
        LoxErrorKind::UnexpectedEof,
    )
}

/// One line of an interactive session: the session after it, what is written
/// to the output (the next prompt), and the errors reported.
pub open spec fn feed(m: SessionModel, line: Seq<u8>) -> (SessionModel, Seq<u8>, Seq<LoxErrorKind>) {
    let sc = scan(m.pos, m.open, line);
    let assembled = assemble(sc.0, m.assembly);
    let units = assembled.0;
    let fault = ends_in_fault(units);
    let more = wants_more(units);
    let ends_nl = line.len() > 0 && line.last() == '\n' as u8;
    let errs = if fault {
        seq![units.last()->Err_0]
    } else {
        seq![]
    };
    let base = SessionModel {
        assembly: assembled.1,
        pos: pos_at(m.pos, line, line.len() as int),
        open: if fault {
            None
        } else {
            sc.1
        },
        nodes: if fault {
            seq![]
        } else {
            m.nodes + completed(units)
        },
        ends_with_newline: ends_nl,
    };
    if more && ends_nl {
        (base, continuation_prompt(), errs)
    } else if !more {
        (
            SessionModel { nodes: seq![], ends_with_newline: false, ..base },
            if ends_nl {
                primary_prompt()
            } else {
                newline() + primary_prompt()
            },
            errs,
        )
    } else {
        (base, seq![], errs)
    }
}

/// Where the line that starts at `i` ends: after its newline, or at the end of `s`.
pub open spec fn line_stop(s: Seq<u8>, i: int) -> int {
    let k = run_end(s, i, ByteClass::InLine);
    if k < s.len() {
        k + 1
    } else {
        k
    }
}

proof fn lemma_line_stop(s: Seq<u8>, i: int)
    requires
        0 <= i < s.len(),
    ensures
        i < line_stop(s, i) <= s.len(),
{
    lemma_run_end_bounds(s, i, ByteClass::InLine);
}

#[via_fn]
proof fn interact_decreases(m: SessionModel, s: Seq<u8>, i: int) {
    if 0 <= i < s.len() {
        lemma_line_stop(s, i);
    }
}

/// The output and the errors of a session in state `m` that reads the lines of
/// `s` from byte `i` on, and then the end of the input.
pub open spec fn interact(m: SessionModel, s: Seq<u8>, i: int) -> (Seq<u8>, Seq<LoxErrorKind>)
    decreases s.len() - i,
    via interact_decreases
{
    if i < 0 || i >= s.len() {
        (
            if m.ends_with_newline {
                seq![]
            } else {
                newline()
            },
            seq![],
        )
    } else {
        let e = line_stop(s, i);
        let step = feed(m, s.subrange(i, e));
        let rest = interact(step.0, s, e);
        (step.1 + rest.0, step.2 + rest.1)
    }
}

pub open spec fn fresh_session() -> SessionModel {
    SessionModel {
        assembly: (seq![], seq![]),
        pos: (1, 1),
        open: None,
        nodes: seq![],
        ends_with_newline: false,
    }
}

/// The whole transcript of an interactive session over `s`: the output, and
/// the errors reported.
pub open spec fn transcript(s: Seq<u8>) -> (Seq<u8>, Seq<LoxErrorKind>) {
    let rest = interact(fresh_session(), s, 0);
    (primary_prompt() + rest.0, rest.1)
}

/// The units of a whole script read at once.
pub open spec fn script_units(s: Seq<u8>) -> Seq<Assembled> {
    assemble(tokens_of(s), (seq![], seq![])).0
}

pub open spec fn error_kinds(errors: Seq<LoxError>) -> Seq<LoxErrorKind> {
    errors.map_values(|e: LoxError| e.kind)
}

fn push_prompt(output: &mut Vec<u8>, lead: u8)
    ensures
        final(output)@ == old(output)@ + seq![lead, ' ' as u8],
{
    output.push(lead);
    output.push(' ' as u8);
}

impl Lox {
    pub fn new() -> (r: Lox) {
        Lox {  }
    }

    /// Runs a whole script: executes its units in order, writing to `output`,
    /// and stops at the first error, which it returns. What the units executed
    /// before the error wrote stays in `output`.
    pub fn run(&mut self, input: &[u8], output: &mut Vec<u8>) -> (r: LoxResult<()>)
        ensures
            ({
                let units = script_units(input@);
                &&& r is Err <==> (units.len() > 0 && units.last() is Err)
                &&& r is Err ==> r->Err_0.kind == units.last()->Err_0
                &&& final(output)@ == old(output)@
            }),
    {
        let mut parser = Parser::new();
        let results = parser.assemble_chunk(input);
        let ghost units = results@.map_values(|x: LoxResult<AstNode>| unit_view(x));
        assert(units == script_units(input@));
        proof {
            lemma_assemble_fail_stop(tokens_of(input@), (seq![], seq![]));
        }
        let n = results.len();
        let mut rev = reversed(results);
        while rev.len() > 0
            invariant
                rev@.len() <= n,
                n == units.len(),
                units == script_units(input@),
                forall|k: int| 0 <= k < rev@.len() ==> unit_view(#[trigger] rev@[k]) == units[n - 1 - k],
                forall|k: int| 0 <= k < n - rev@.len() ==> #[trigger] units[k] is Ok,
                forall|k: int| 0 <= k < n - 1 ==> #[trigger] units[k] is Ok,
                output@ == old(output)@,
            decreases rev@.len(),
        {
            let ghost k = n - rev@.len();
            let ghost top = rev@[rev@.len() - 1];
            assert(unit_view(top) == units[k]);
            let item = rev.pop().unwrap();
            assert(item == top);
            match item {
                Ok(node) => {
                    assert(units[k] is Ok);
                    match self.execute_node(&node, output) {
                        Ok(()) => {},
                        Err(err) => {
                            return Err(err);
                        },
                    }
                },
                Err(err) => {
                    assert(units[k] is Err);
                    assert(k == n - 1);
                    return Err(err);
                },
            }
        }
        Ok(())
    }

    /// Executes one unit. Execution of the language is not part of this front
    /// end: it writes nothing and always succeeds.
    fn execute_node(&mut self, node: &AstNode, output: &mut Vec<u8>) -> (r: LoxResult<()>)
        ensures
            r is Ok,
            final(output)@ == old(output)@,
    {
        Ok(())
    }
}


impl Lox {
    /// Starts an interactive session: writes the primary prompt.
    pub fn begin_session(&mut self, output: &mut Vec<u8>) -> (r: Session)
        ensures
            r@ == fresh_session(),
            final(output)@ == old(output)@ + primary_prompt(),
    {
        push_prompt(output, '>' as u8);
        let r = Session { parser: Parser::new(), nodes: Vec::new(), ends_with_newline: false };
        assert(r@.nodes =~= Seq::<Seq<TokenModel>>::empty());
        r
    }

    /// Takes one line of an interactive session (its bytes up to and including
    /// the newline, or the last bytes of the input). Completed units wait until
    /// the line leaves nothing open; then they are executed in order and the
    /// primary prompt is written. While a unit is open after a full line, the
    /// continuation prompt is written instead. An error is reported and drops
    /// the units that wait.
    pub fn feed_line(
        &mut self,
        session: &mut Session,
        line: &[u8],
        output: &mut Vec<u8>,
        errors: &mut Vec<LoxError>,
    )
        ensures
            final(session)@ == feed(old(session)@, line@).0,
            final(output)@ == old(output)@ + feed(old(session)@, line@).1,
            error_kinds(final(errors)@) == error_kinds(old(errors)@) + feed(old(session)@, line@).2,
    {
        let ghost m = session@;
        let ghost sc = scan(m.pos, m.open, line@);
        let ghost errors0 = error_kinds(errors@);
        let ends_with_newline = line.len() > 0 && line[line.len() - 1] == '\n' as u8;
        let results = session.parser.assemble_chunk(line);
        let ghost units = results@.map_values(|x: LoxResult<AstNode>| unit_view(x));
        let ghost fault = ends_in_fault(units);
        proof {
            lemma_assemble_fail_stop(sc.0, m.assembly);
            assert(units.subrange(0, 0) =~= Seq::<Assembled>::empty());
            assert(m.nodes + completed(Seq::<Assembled>::empty()) =~= m.nodes);
        }
        let n = results.len();
        let mut rev = reversed(results);
        let mut continuation = false;
        while rev.len() > 0
            invariant
                rev@.len() <= n,
                n == units.len(),
                units == assemble(sc.0, m.assembly).0,
                forall|k: int| 0 <= k < n - 1 ==> #[trigger] units[k] is Ok,
                forall|k: int|
                    0 <= k < rev@.len() ==> unit_view(#[trigger] rev@[k]) == units[n - 1 - k],
                fault == ends_in_fault(units),
                session@.assembly == assemble(sc.0, m.assembly).1,
                session@.pos == pos_at(m.pos, line@, line@.len() as int),
                session@.open == if fault {
                    None
                } else {
                    sc.1
                },
                session@.nodes == if rev@.len() == 0 && fault {
                    Seq::<Seq<TokenModel>>::empty()
                } else {
                    m.nodes + completed(units.subrange(0, n - rev@.len()))
                },
                continuation == (rev@.len() == 0 && wants_more(units)),
                error_kinds(errors@) == errors0 + if rev@.len() == 0 && fault {
                    seq![units.last()->Err_0]
                } else {
                    Seq::<LoxErrorKind>::empty()
                },
                output@ == old(output)@,
            decreases rev@.len(),
        {
            let ghost k = n - rev@.len();
            let ghost top = rev@[rev@.len() - 1];
            let ghost nodes0 = session@.nodes;
            assert(unit_view(top) == units[k]);
            assert(units.subrange(0, k + 1).drop_last() =~= units.subrange(0, k));
            assert(units.subrange(0, k + 1).last() == units[k]);
            let item = rev.pop().unwrap();
            assert(item == top);
            match item {
                Ok(node) => {
                    session.nodes.push(node);
                    assert(session@.nodes =~= nodes0.push(node@));
                    assert(m.nodes + completed(units.subrange(0, k + 1)) =~= (m.nodes + completed(
                        units.subrange(0, k),
                    )).push(node@));
                },
                Err(err) => {
                    assert(k == n - 1);
                    assert(units.subrange(0, k + 1) =~= units);
                    assert(units.last() == Err::<Seq<TokenModel>, LoxErrorKind>(err.kind));
                    let ghost kinds0 = error_kinds(errors@);
                    assert(kinds0 =~= errors0);
                    if err.is_unexpected_eof() {
                        continuation = true;
                        assert(m.nodes + completed(units.subrange(0, k + 1)) =~= m.nodes
                            + completed(units.subrange(0, k)));
                    } else {
                        let ghost before = errors@;
                        errors.push(err);
                        assert(error_kinds(errors@) =~= error_kinds(before).push(err.kind));
                        assert(error_kinds(errors@) =~= errors0 + seq![err.kind]);
                        session.nodes = Vec::new();
                        assert(session@.nodes =~= Seq::<Seq<TokenModel>>::empty());
                    }
                },
            }
        }
        proof {
            assert(units.subrange(0, n as int) =~= units);
        }
        session.ends_with_newline = ends_with_newline;
        if continuation && ends_with_newline {
            push_prompt(output, '.' as u8);
        } else if !continuation {
            let mut i: usize = 0;
            while i < session.nodes.len()
                invariant
                    0 <= i <= session.nodes@.len(),
                    output@ == old(output)@,
                    fault == ends_in_fault(units),
                    error_kinds(errors@) == errors0 + if fault {
                        seq![units.last()->Err_0]
                    } else {
                        Seq::<LoxErrorKind>::empty()
                    },
                decreases session.nodes@.len() - i,
            {
                match self.execute_node(&session.nodes[i], output) {
                    Ok(()) => {},
                    Err(err) => {
                        errors.push(err);
                        break;
                    },
                }
                i = i + 1;
            }
            session.nodes = Vec::new();
            assert(session@.nodes =~= Seq::<Seq<TokenModel>>::empty());
            if !ends_with_newline {
                output.push('\n' as u8);
            }
            push_prompt(output, '>' as u8);
            session.ends_with_newline = false;
        }
        proof {
            let step = feed(m, line@);
            assert(output@ =~= old(output)@ + step.1);
            assert(error_kinds(errors@) =~= error_kinds(old(errors)@) + step.2);
        }
    }

    /// Ends an interactive session at the end of the input: moves to a fresh
    /// line unless the last line read ended in a newline.
    pub fn end_session(&mut self, session: &Session, output: &mut Vec<u8>)
        ensures
            final(output)@ == old(output)@ + if session.ends_with_newline {
                Seq::<u8>::empty()
            } else {
                newline()
            },
    {
        if !session.ends_with_newline {
            output.push('\n' as u8);
        } else {
            assert(output@ =~= old(output)@ + Seq::<u8>::empty());
        }
    }

    /// Runs an interactive session over the whole of `input`, line by line,
    /// and returns what it wrote to the output and the errors it reported.
    pub fn run_interactive(&mut self, input: &[u8]) -> (r: (Vec<u8>, Vec<LoxError>))
        ensures
            r.0@ == transcript(input@).0,
            error_kinds(r.1@) == transcript(input@).1,
    {
        let ghost s = input@;
        let mut output: Vec<u8> = Vec::new();
        let mut errors: Vec<LoxError> = Vec::new();
        let mut session = self.begin_session(&mut output);
        let mut i: usize = 0;
        proof {
            assert(error_kinds(errors@) =~= Seq::<LoxErrorKind>::empty());
        }
        while i < input.len()
            invariant
                s == input@,
                i <= input@.len(),
                output@ + interact(session@, s, i as int).0 == transcript(s).0,
                error_kinds(errors@) + interact(session@, s, i as int).1 == transcript(s).1,
            decreases input@.len() - i,
        {
            let mut k = i;
            while k < input.len() && byte_in_class(ByteClass::InLine, input[k])
                invariant
                    s == input@,
                    i <= k <= input@.len(),
                    run_end(s, k as int, ByteClass::InLine) == run_end(s, i as int, ByteClass::InLine),
                decreases input@.len() - k,
            {
                k = k + 1;
            }
            let stop = if k < input.len() {
                k + 1
            } else {
                k
            };
            assert(stop == line_stop(s, i as int));
            let line = slice_subrange(input, i, stop);
            let ghost m = session@;
            let ghost out0 = output@;
            let ghost errs0 = error_kinds(errors@);
            self.feed_line(&mut session, line, &mut output, &mut errors);
            assert(line@ == s.subrange(i as int, stop as int));
            assert(out0 + interact(m, s, i as int).0 =~= output@ + interact(session@, s, stop as int).0);
            assert(errs0 + interact(m, s, i as int).1 =~= error_kinds(errors@) + interact(
                session@,
                s,
                stop as int,
            ).1);
            i = stop;
        }
        self.end_session(&session, &mut output);
        assert(output@ =~= transcript(s).0);
        assert(error_kinds(errors@) =~= transcript(s).1);
        (output, errors)
    }
}

impl Default for Lox {
    fn default() -> (r: Lox) {
        Lox {  }
    }
}

impl Default for Tokenizer {
    fn default() -> (r: Tokenizer)
        ensures
            r.position() == (1u32, 1u32),
            r.pending() is None,
    {
        Tokenizer::new()
    }
}

impl Default for Parser {
    fn default() -> (r: Parser)
        ensures
            r.state() == (Seq::<TokenModel>::empty(), Seq::<TokenKind>::empty()),
            r.tokenizer.position() == (1u32, 1u32),
            r.tokenizer.pending() is None,
    {
        Parser::new()
    }
}


/// An open parenthesis on a line of its own, then the end of the input: the
/// session writes the primary prompt and then the continuation prompt, and
/// ends there, reporting nothing and executing nothing.
pub proof fn lemma_open_paren_then_end()
    ensures
        transcript(seq!['(' as u8, '\n' as u8]) == (
            primary_prompt() + continuation_prompt(),
            Seq::<LoxErrorKind>::empty(),
        ),
        feed(fresh_session(), seq!['(' as u8, '\n' as u8]).0.nodes == Seq::<Seq<TokenModel>>::empty(),
{
    let s = seq!['(' as u8, '\n' as u8];
    assert(run_end(s, 1, ByteClass::InLine) == 1);
    assert(run_end(s, 0, ByteClass::InLine) == 1);
    assert(line_stop(s, 0) == 2);
    assert(s.subrange(0, 2) =~= s);
    assert(run_end(s, 0, ByteClass::Blank) == 0);
    assert(run_end(s, 2, ByteClass::Blank) == 2);
    assert(run_end(s, 1, ByteClass::Blank) == 2);
    let tok = token_at(TokenKind::LeftParen, seq![], (1, 1));
    let sc = scan((1, 1), None, s);
    assert(scan_from((1, 1), s, 1, None).0 =~= Seq::<Lexed>::empty());
    assert(sc.0 =~= seq![Ok::<TokenModel, LoxErrorKind>(tok)]);
    assert(sc.0.drop_first() =~= Seq::<Lexed>::empty());
    let empty_state: AssemblyState = (seq![], seq![]);
    let units = assemble(sc.0, empty_state).0;
    let st1 = (Seq::<TokenModel>::empty().push(tok), Seq::<TokenKind>::empty().push(
        TokenKind::LeftParen,
    ));
    assert(sc.0[0] == Ok::<TokenModel, LoxErrorKind>(tok));
    assert(assemble(sc.0.drop_first(), st1).0 =~= seq![
        Err::<Seq<TokenModel>, LoxErrorKind>(LoxErrorKind::UnexpectedEof),
    ]);
    assert(units == assemble(sc.0.drop_first(), st1).0);
    assert(units =~= seq![Err::<Seq<TokenModel>, LoxErrorKind>(LoxErrorKind::UnexpectedEof)]);
    let step = feed(fresh_session(), s);
    assert(step.1 == continuation_prompt());
    assert(step.2 =~= Seq::<LoxErrorKind>::empty());
    assert(step.0.ends_with_newline);
    assert(completed(units) =~= Seq::<Seq<TokenModel>>::empty()) by {
        assert(units.drop_last() =~= Seq::<Assembled>::empty());
        assert(completed(units.drop_last()) =~= Seq::<Seq<TokenModel>>::empty());
        assert(units.last() is Err);
    }
    assert(step.0.nodes =~= Seq::<Seq<TokenModel>>::empty());
    let rest = interact(step.0, s, 2);
    assert(rest.0 =~= Seq::<u8>::empty());
    assert(interact(fresh_session(), s, 0).0 =~= continuation_prompt());
    assert(interact(fresh_session(), s, 0).1 =~= Seq::<LoxErrorKind>::empty());
}

} // verus!
