use vstd::prelude::*;
use vstd::utf8::encode_utf8;

verus! {

/// What was wrong with malformed input.
#[derive(Clone, Copy, Debug, PartialEq, Eq, Structural)]
pub enum SyntaxProblem {
    /// A byte that starts no token.
    UnexpectedCharacter,
    /// A closing bracket with no matching opening bracket.
    UnmatchedClosing,
}

/// The kinds of failure the front end reports.
#[derive(Clone, Copy, Debug, PartialEq, Eq, Structural)]
pub enum LoxErrorKind {
    /// Malformed input.
    SyntaxError(SyntaxProblem),
    /// The current unit is incomplete: more input is needed. Never shown to a user.
    UnexpectedEof,
}

/// An error with the messages that were attached to it on its way out,
/// innermost first.
#[derive(Debug)]
pub struct LoxError {
    pub kind: LoxErrorKind,
    pub context: Vec<String>,
}

pub type LoxResult<T> = Result<T, LoxError>;

/// The line shown for an error kind.
pub open spec fn kind_text_of(kind: LoxErrorKind) -> Seq<char> {
    match kind {
        LoxErrorKind::SyntaxError(SyntaxProblem::UnexpectedCharacter) =>
            "SyntaxError: unexpected character"@,
        LoxErrorKind::SyntaxError(SyntaxProblem::UnmatchedClosing) =>
            "SyntaxError: unmatched closing bracket"@,
        LoxErrorKind::UnexpectedEof => "UnexpectedEof"@,
    }
}

/// The UTF-8 text of an error: its context messages from the outermost (last
/// attached) to the innermost, each followed by `": "`, then the kind's text.
pub open spec fn rendered(context: Seq<String>, kind: Seq<u8>) -> Seq<u8>
    decreases context.len(),
{
    if context.len() == 0 {
        kind
    } else {
        encode_utf8(context.last()@) + seq![':' as u8, ' ' as u8] + rendered(
            context.drop_last(),
            kind,
        )
    }
}

fn append_bytes(out: &mut Vec<u8>, bytes: &[u8])
    ensures
        final(out)@ == old(out)@ + bytes@,
{
    let mut i: usize = 0;
    while i < bytes.len()
        invariant
            0 <= i <= bytes@.len(),
            out@ == old(out)@ + bytes@.subrange(0, i as int),
        decreases bytes@.len() - i,
    {
        out.push(bytes[i]);
        i = i + 1;
        assert(out@ =~= old(out)@ + bytes@.subrange(0, i as int));
    }
    assert(bytes@.subrange(0, i as int) =~= bytes@);
}

impl SyntaxProblem {
    /// The text that describes the problem.
    pub fn description(&self) -> (r: &'static str)
        ensures
            r@ == (match self {
                SyntaxProblem::UnexpectedCharacter => "unexpected character"@,
                SyntaxProblem::UnmatchedClosing => "unmatched closing bracket"@,
            }),
    {
        match self {
            SyntaxProblem::UnexpectedCharacter => "unexpected character",
            SyntaxProblem::UnmatchedClosing => "unmatched closing bracket",
        }
    }
}

impl LoxError {
    /// An error of the given kind with no context attached.
    pub fn new(kind: LoxErrorKind) -> (r: LoxError)
        ensures
            r.kind == kind,
            r.context@.len() == 0,
    {
        LoxError { kind, context: Vec::new() }
    }

    /// Whether this is the "more input needed" sentinel.
    pub fn is_unexpected_eof(&self) -> (r: bool)
        ensures
            r == (self.kind == LoxErrorKind::UnexpectedEof),
    {
        match self.kind {
            LoxErrorKind::UnexpectedEof => true,
            _ => false,
        }
    }

    /// Attaches one more message, outside the ones already there.
    pub fn chain_err(self, message: String) -> (r: LoxError)
        ensures
            r.kind == self.kind,
            r.context@ == self.context@.push(message),
    {
        let mut context = self.context;
        context.push(message);
        LoxError { kind: self.kind, context }
    }

    /// The error as text, outermost context first: see `rendered`.
    pub fn render(&self) -> (r: Vec<u8>)
        ensures
            r@ == rendered(self.context@, encode_utf8(kind_text_of(self.kind))),
    {
        let ghost kind = encode_utf8(kind_text_of(self.kind));
        let ghost ctx = self.context@;
        let mut out: Vec<u8> = Vec::new();
        let mut i: usize = self.context.len();
        assert(ctx.subrange(0, i as int) =~= ctx);
        while i > 0
            invariant
                ctx == self.context@,
                0 <= i <= ctx.len(),
                out@ + rendered(ctx.subrange(0, i as int), kind) == rendered(ctx, kind),
            decreases i,
        {
            let ghost before = out@;
            let ghost sub = ctx.subrange(0, i as int);
            assert(sub.drop_last() =~= ctx.subrange(0, i - 1));
            assert(sub.last() == ctx[i - 1]);
            i = i - 1;
            append_bytes(&mut out, self.context[i].as_str().as_bytes());
            out.push(':' as u8);
            out.push(' ' as u8);
            assert(before + rendered(sub, kind) =~= out@ + rendered(ctx.subrange(0, i as int), kind));
        }
        append_bytes(&mut out, self.kind_text().as_bytes());
        assert(ctx.subrange(0, 0) =~= Seq::<String>::empty());
        out
    }

    /// The line shown for the kind itself, without the context.
    pub fn kind_text(&self) -> (r: &'static str)
        ensures
            r@ == kind_text_of(self.kind),
    {
        match self.kind {
            LoxErrorKind::SyntaxError(SyntaxProblem::UnexpectedCharacter) =>
                "SyntaxError: unexpected character",
            LoxErrorKind::SyntaxError(SyntaxProblem::UnmatchedClosing) =>
                "SyntaxError: unmatched closing bracket",
            LoxErrorKind::UnexpectedEof => "UnexpectedEof",
        }
    }
}

} // verus!
