//! The token source as a mathematical state, and the elementary steps that
//! every grammar rule is made of.
//!
//! A rule is a function from a state to the state after it and an outcome:
//! `Ok(Some(v))` when it matched, `Ok(None)` when what it looks for is not
//! here, `Err(e)` when the parse cannot go on.

use vstd::prelude::*;
use crate::ast::PathOp;
use crate::lexer::{LocatedTokenView, Punctuation, TokenView};
use crate::location::{DMError, DMErrorView, Location};

verus! {

/// The outcome of a grammar rule.
pub type Status<T> = Result<Option<T>, DMError>;

/// The outcome of a grammar rule, over mathematical values.
pub type SpecStatus<T> = Result<Option<T>, DMErrorView>;

/// The state of the token source.
pub struct SourceView {
    /// The input that has not been drawn yet.
    pub rest: Seq<Result<LocatedTokenView, DMErrorView>>,
    /// Whether the end of the input has been reported.
    pub eof: bool,
    /// The token that was put back, if any.
    pub next: Option<TokenView>,
    /// Where the token that was drawn last was found.
    pub location: Location,
    /// What was looked for since the last token was drawn.
    pub expected: Seq<Seq<char>>,
}

/// The parts of a list with `sep` between them.
pub open spec fn join(parts: Seq<Seq<char>>, sep: Seq<char>) -> Seq<char>
    decreases parts.len(),
{
    if parts.len() == 0 {
        Seq::empty()
    } else if parts.len() == 1 {
        parts[0]
    } else {
        join(parts.drop_last(), sep) + sep + parts.last()
    }
}

impl SourceView {
    /// The source before anything has been read from `input`.
    pub open spec fn start(input: Seq<Result<LocatedTokenView, DMErrorView>>) -> SourceView {
        SourceView { rest: input, eof: false, next: None, location: Location::start(), expected: Seq::empty() }
    }

    /// How many tokens can still be read: the one put back, the input that
    /// is left, and the end-of-file token.
    pub open spec fn remaining(self) -> nat {
        self.rest.len() + (if self.next is Some { 1nat } else { 0nat }) + (if self.eof { 0nat } else { 1nat })
    }

    /// The tokens that will be read, in order: the one put back, the input
    /// that is left, and the end-of-file token unless it has been read.
    #[verifier::opaque]
    pub open spec fn upcoming(self) -> Seq<Result<TokenView, DMErrorView>> {
        let buffered: Seq<Result<TokenView, DMErrorView>> = match self.next {
            Some(t) => seq![Ok(t)],
            None => seq![],
        };
        let ahead = Seq::new(
            self.rest.len(),
            |i: int|
                match self.rest[i] {
                    Ok(t) => Ok(t.token),
                    Err(e) => Err(e),
                },
        );
        let end: Seq<Result<TokenView, DMErrorView>> = if self.eof {
            seq![]
        } else {
            seq![Ok(TokenView::Eof)]
        };
        buffered + ahead + end
    }

    pub open spec fn note(self, expected: Seq<char>) -> SourceView {
        SourceView { expected: self.expected.push(expected), ..self }
    }

    /// Reads one token. The token that was put back comes first; then the
    /// input, where a token that is drawn sets the location and starts the
    /// list of what was looked for anew; then the end of file, once; then
    /// nothing but an error.
    #[verifier::opaque]
    pub open spec fn pull(self, expected: Seq<char>) -> (SourceView, Result<TokenView, DMErrorView>) {
        match self.next {
            Some(t) => (SourceView { next: None, ..self }.note(expected), Ok(t)),
            None => if self.rest.len() > 0 {
                match self.rest[0] {
                    Ok(t) => (
                        SourceView {
                            rest: self.rest.drop_first(),
                            location: t.location,
                            expected: seq![expected],
                            ..self
                        },
                        Ok(t.token),
                    ),
                    Err(e) => (SourceView { rest: self.rest.drop_first(), ..self }.note(expected), Err(e)),
                }
            } else if !self.eof {
                (SourceView { eof: true, ..self }.note(expected), Ok(TokenView::Eof))
            } else {
                (
                    self.note(expected),
                    Err(DMErrorView { location: self.location, description: "read-after-EOF"@ }),
                )
            },
        }
    }

    /// Puts a token back: it is the next one to be read.
    pub open spec fn put_back(self, token: TokenView) -> SourceView {
        SourceView { next: Some(token), ..self }
    }

    /// The error for a rule that cannot go on: it names the token that is
    /// here, which stays unread, and everything that was looked for.
    #[verifier::opaque]
    pub open spec fn syntax_error(self) -> (SourceView, DMErrorView) {
        let expected = join(self.expected, ", "@);
        let (s, got) = self.pull(""@);
        match got {
            Ok(t) => (
                s.put_back(t),
                DMErrorView {
                    location: s.location,
                    description: "got "@ + t.text() + ", expected one of: "@ + expected,
                },
            ),
            Err(_) => (
                s,
                DMErrorView { location: s.location, description: "i/o error, expected one of: "@ + expected },
            ),
        }
    }

    /// Turns "not here" into the syntax error; a match and an error pass.
    pub open spec fn require<T>(self, status: SpecStatus<T>) -> (SourceView, Result<T, DMErrorView>) {
        match status {
            Ok(Some(v)) => (self, Ok(v)),
            Ok(None) => (self.syntax_error().0, Err(self.syntax_error().1)),
            Err(e) => (self, Err(e)),
        }
    }

    /// Reads the token `token`, if it is the next one.
    pub open spec fn exact(self, token: TokenView) -> (SourceView, SpecStatus<()>) {
        let (s, got) = self.pull(token.text());
        match got {
            Ok(t) => if t == token {
                (s, Ok(Some(())))
            } else {
                (s.put_back(t), Ok(None))
            },
            Err(e) => (s, Err(e)),
        }
    }

    /// Reads an identifier, if one is next.
    pub open spec fn ident(self) -> (SourceView, SpecStatus<Seq<char>>) {
        let (s, got) = self.pull("identifier"@);
        match got {
            Ok(TokenView::Ident(name, _)) => (s, Ok(Some(name))),
            Ok(t) => (s.put_back(t), Ok(None)),
            Err(e) => (s, Err(e)),
        }
    }

    /// Reads a path separator, if one is next.
    pub open spec fn path_separator(self) -> (SourceView, SpecStatus<PathOp>) {
        let (s, got) = self.pull("path separator"@);
        match got {
            Ok(TokenView::Punct(Punctuation::Slash)) => (s, Ok(Some(PathOp::Slash))),
            Ok(TokenView::Punct(Punctuation::Dot)) => (s, Ok(Some(PathOp::Dot))),
            Ok(TokenView::Punct(Punctuation::Colon)) => (s, Ok(Some(PathOp::Colon))),
            Ok(t) => (s.put_back(t), Ok(None)),
            Err(e) => (s, Err(e)),
        }
    }

}

/// The view of an outcome.
pub open spec fn outcome<T: View>(r: Status<T>) -> SpecStatus<T::V> {
    match r {
        Ok(Some(v)) => Ok(Some(v@)),
        Ok(None) => Ok(None),
        Err(e) => Err(e@),
    }
}

/// The view of an outcome whose value is viewed by `view`.
pub open spec fn outcome_with<T, V>(r: Status<T>, view: spec_fn(T) -> V) -> SpecStatus<V> {
    match r {
        Ok(Some(v)) => Ok(Some(view(v))),
        Ok(None) => Ok(None),
        Err(e) => Err(e@),
    }
}

/// The view of a result whose value is viewed by `view`.
pub open spec fn result_with<T, V>(r: Result<T, DMError>, view: spec_fn(T) -> V) -> Result<V, DMErrorView> {
    match r {
        Ok(v) => Ok(view(v)),
        Err(e) => Err(e@),
    }
}

/// A rule ran as its model says: the source is in the state that the model
/// gives, the outcome is the one that the model gives, and the rule has
/// advanced as every rule does.
pub open spec fn ran<V>(before: SourceView, after: SourceView, viewed: SpecStatus<V>, model: (SourceView, SpecStatus<V>)) -> bool {
    &&& after == model.0
    &&& viewed == model.1
    &&& advances(before, after, viewed matches Ok(Some(_)), viewed matches Ok(None))
}

/// A part of a rule ran as its model says.
pub open spec fn ran_all<V>(before: SourceView, after: SourceView, viewed: Result<V, DMErrorView>, model: (SourceView, Result<V, DMErrorView>)) -> bool {
    &&& after == model.0
    &&& viewed == model.1
    &&& after.remaining() <= before.remaining()
}

/// What holds of every rule: it never gives tokens back beyond what it read,
/// a match has read at least one token, and "not here" leaves the tokens
/// that will be read as they were.
pub open spec fn advances(before: SourceView, after: SourceView, matched: bool, absent: bool) -> bool {
    &&& after.remaining() <= before.remaining()
    &&& matched ==> after.remaining() < before.remaining()
    &&& absent ==> after.upcoming() == before.upcoming()
}

/// Reading a token and putting it back leaves the tokens that will be read
/// as they were; reading alone takes one away.
pub proof fn lemma_peek(s: SourceView, expected: Seq<char>)
    ensures
        s.pull(expected).0.next is None,
        s.pull(expected).0.remaining() <= s.remaining(),
        s.pull(expected).1 matches Ok(t) ==> {
            &&& s.pull(expected).0.remaining() + 1 == s.remaining()
            &&& s.pull(expected).0.put_back(t).upcoming() == s.upcoming()
        },
{
    reveal(SourceView::upcoming);
    reveal(SourceView::pull);
    let (s1, got) = s.pull(expected);
    if let Ok(t) = got {
        assert(s1.put_back(t).upcoming() =~= s.upcoming());
    }
}

/// The source reads the upcoming tokens in their order: one at a time from
/// the front. Where none is left, reading is an error.
pub proof fn lemma_pull_reads_upcoming(s: SourceView, expected: Seq<char>)
    ensures
        s.upcoming().len() == s.remaining(),
        s.pull(expected).0.next is None,
        s.upcoming().len() > 0 ==> {
            &&& s.pull(expected).1 == s.upcoming()[0]
            &&& s.pull(expected).0.upcoming() == s.upcoming().drop_first()
        },
        s.upcoming().len() == 0 ==> {
            &&& s.pull(expected).1 is Err
            &&& s.pull(expected).0.upcoming() == s.upcoming()
        },
{
    reveal(SourceView::upcoming);
    reveal(SourceView::pull);
    let (s1, got) = s.pull(expected);
    if s.upcoming().len() > 0 {
        assert(s1.upcoming() =~= s.upcoming().drop_first());
    } else {
        assert(s1.upcoming() =~= s.upcoming());
    }
}

/// A token that is put back is the first of the upcoming tokens.
pub proof fn lemma_put_back_upcoming(s: SourceView, token: TokenView)
    requires
        s.next is None,
    ensures
        s.put_back(token).upcoming() == seq![Ok::<TokenView, DMErrorView>(token)] + s.upcoming(),
{
    reveal(SourceView::upcoming);
    assert(s.put_back(token).upcoming() =~= seq![Ok::<TokenView, DMErrorView>(token)] + s.upcoming());
}

/// The elementary rules advance as every rule does.
pub proof fn lemma_steps(s: SourceView, token: TokenView)
    ensures
        advances(s, s.exact(token).0, s.exact(token).1 matches Ok(Some(_)), s.exact(token).1 matches Ok(None)),
        advances(s, s.ident().0, s.ident().1 matches Ok(Some(_)), s.ident().1 matches Ok(None)),
        advances(
            s,
            s.path_separator().0,
            s.path_separator().1 matches Ok(Some(_)),
            s.path_separator().1 matches Ok(None),
        ),
{
    lemma_peek(s, token.text());
    lemma_peek(s, "identifier"@);
    lemma_peek(s, "path separator"@);
}

/// Insisting on a match reads nothing, and lets only a match pass.
pub proof fn lemma_require<T>(s: SourceView, status: SpecStatus<T>)
    ensures
        s.require(status).0.remaining() <= s.remaining(),
        s.require(status).1 is Ok ==> s.require(status).0 == s && status == Ok::<Option<T>, DMErrorView>(
            Some(s.require(status).1->Ok_0),
        ),
        s.require(status).1 is Err ==> !(status matches Ok(Some(_))),
{
    reveal(SourceView::syntax_error);
    lemma_peek(s, ""@);
}

pub open spec fn punct(p: Punctuation) -> TokenView {
    TokenView::Punct(p)
}

} // verus!
