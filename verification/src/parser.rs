//! The parser: its state, and the elementary steps on the token source.

use vstd::prelude::*;
use crate::ast::{Expression, PathOp};
use crate::lexer::{item_view, items_view, LocatedToken, LocatedTokenView, Punctuation, Token, TokenView};
use crate::location::{DMError, DMErrorView, Location};
use crate::objtree::{registered, ObjectTree, ObjectTreeView};
use crate::path::{warnings_view, PathWarning, PathWarningView};
use crate::tree_rules;
use crate::source::{join, lemma_peek, outcome, ran, SourceView, Status};

verus! {

/// A parser over a sequence of input items, each a located token or the
/// failure to produce one. It owns the object tree that the declarations
/// are registered in, and collects the warnings.
pub struct Parser {
    tree: ObjectTree,
    warnings: Vec<PathWarning>,
    /// The input that has not been drawn yet, the next item last.
    input: Vec<Result<LocatedToken, DMError>>,
    eof: bool,
    next: Option<Token>,
    location: Location,
    expected: Vec<String>,
}

/// The state of a parser: the tree built so far, the warnings given so far,
/// and the token source.
pub struct ParserView {
    pub tree: ObjectTreeView,
    pub warnings: Seq<PathWarningView>,
    pub source: SourceView,
}

impl ParserView {
    /// The state of a parser that has not read anything of `input`.
    pub open spec fn start(input: Seq<Result<LocatedTokenView, DMErrorView>>) -> ParserView {
        ParserView { tree: ObjectTreeView::empty(), warnings: Seq::empty(), source: SourceView::start(input) }
    }

    /// The same state but for the token source.
    pub open spec fn at(self, source: SourceView) -> ParserView {
        ParserView { source, ..self }
    }
}

impl View for Parser {
    type V = ParserView;

    closed spec fn view(&self) -> ParserView {
        ParserView {
            tree: self.tree@,
            warnings: warnings_view(self.warnings@),
            source: SourceView {
                rest: Seq::new(
                    self.input@.len(),
                    |i: int| item_view(self.input@[self.input@.len() - 1 - i]),
                ),
                eof: self.eof,
                next: match self.next {
                    Some(t) => Some(t@),
                    None => None,
                },
                location: self.location,
                expected: self.expected.deep_view(),
            },
        }
    }
}

/// The parts with `sep` between them.
fn join_strings(parts: &Vec<String>, sep: &str) -> (joined: String)
    ensures
        joined@ == join(parts.deep_view(), sep@),
{
    let mut joined = String::new();
    let mut i: usize = 0;
    assert(parts.deep_view().take(0) =~= Seq::empty());
    while i < parts.len()
        invariant
            i <= parts.len(),
            joined@ == join(parts.deep_view().take(i as int), sep@),
        decreases parts.len() - i,
    {
        let ghost before = joined@;
        if i > 0 {
            joined.append(sep);
        }
        joined.append(parts[i].as_str());
        i = i + 1;
        proof {
            let taken = parts.deep_view().take(i as int);
            assert(taken.drop_last() =~= parts.deep_view().take(i - 1));
            assert(taken.last() == parts@[i - 1]@);
            if i == 1 {
                assert(before + parts@[0]@ =~= parts@[0]@);
            }
        }
    }
    assert(parts.deep_view().take(i as int) =~= parts.deep_view());
    joined
}

impl Parser {
    /// A parser that will read `input` from its start, with an empty tree.
    pub fn new(input: Vec<Result<LocatedToken, DMError>>) -> (parser: Parser)
        ensures
            parser@ == ParserView::start(items_view(input@)),
    {
        let ghost items = input@;
        let mut input = input;
        let mut reversed: Vec<Result<LocatedToken, DMError>> = Vec::new();
        while input.len() > 0
            invariant
                input@.len() + reversed@.len() == items.len(),
                forall|k: int| 0 <= k < input@.len() ==> input@[k] == items[k],
                forall|k: int| 0 <= k < reversed@.len() ==> reversed@[k] == items[items.len() - 1 - k],
            decreases input@.len(),
        {
            let item = input.pop().unwrap();
            reversed.push(item);
        }
        let parser = Parser {
            tree: ObjectTree::new(),
            warnings: Vec::new(),
            input: reversed,
            eof: false,
            next: None,
            location: Location::default(),
            expected: Vec::new(),
        };
        proof {
            assert(parser@.source.rest =~= items_view(items));
            assert(parser@.source.expected =~= Seq::empty());
            assert(parser@.warnings =~= Seq::empty());
        }
        parser
    }

    /// Reads one token, and notes what was looked for.
    pub fn next(&mut self, expected: &str) -> (r: Result<Token, DMError>)
        ensures
            final(self)@ == old(self)@.at(old(self)@.source.pull(expected@).0),
            match old(self)@.source.pull(expected@).1 {
                Ok(t) => r matches Ok(x) && x@ == t,
                Err(e) => r matches Err(x) && x@ == e,
            },
            final(self)@.source.remaining() <= old(self)@.source.remaining(),
            r is Ok ==> final(self)@.source.remaining() < old(self)@.source.remaining(),
    {
        let ghost before = self@;
        let ghost items = self.input@;
        proof {
            reveal(SourceView::pull);
            lemma_peek(before.source, expected@);
        }
        let token = match self.next.take() {
            Some(t) => Ok(t),
            None => match self.input.pop() {
                Some(Ok(drawn)) => {
                    self.expected.clear();
                    self.location = drawn.location;
                    Ok(drawn.token)
                },
                Some(Err(e)) => Err(e),
                None => {
                    if !self.eof {
                        self.eof = true;
                        Ok(Token::Eof)
                    } else {
                        Err(DMError::new(self.location, "read-after-EOF".to_owned()))
                    }
                },
            },
        };
        let ghost cleared = self.expected.deep_view();
        self.expected.push(expected.to_owned());
        proof {
            assert(self.expected.deep_view() =~= cleared.push(expected@));
            if before.source.next is None && items.len() > 0 {
                assert(self@.source.rest =~= before.source.rest.drop_first());
                assert(before.source.rest[0] == item_view(items[items.len() - 1]));
                if items[items.len() - 1] is Ok {
                    assert(cleared =~= Seq::empty());
                    assert(self.expected.deep_view() =~= seq![expected@]);
                }
            } else {
                assert(self@.source.rest =~= before.source.rest);
            }
        }
        token
    }

    /// Puts a token back, to be read again. Only one token can wait.
    pub fn put_back(&mut self, token: Token)
        requires
            old(self)@.source.next is None,
        ensures
            final(self)@ == old(self)@.at(old(self)@.source.put_back(token@)),
    {
        self.next = Some(token);
    }

    /// Puts the token back and reports that the rule does not apply here.
    pub fn try_another<T>(&mut self, token: Token) -> (r: Status<T>)
        requires
            old(self)@.source.next is None,
        ensures
            final(self)@ == old(self)@.at(old(self)@.source.put_back(token@)),
            r is Ok && r->Ok_0 is None,
    {
        self.put_back(token);
        Ok(None)
    }

    /// The error for a rule that cannot go on.
    pub fn parse_error(&mut self) -> (e: DMError)
        ensures
            final(self)@ == old(self)@.at(old(self)@.source.syntax_error().0),
            e@ == old(self)@.source.syntax_error().1,
            final(self)@.source.remaining() <= old(self)@.source.remaining(),
    {
        proof {
            reveal(SourceView::syntax_error);
            lemma_peek(self@.source, ""@);
        }
        let expected = join_strings(&self.expected, ", ");
        let got = self.next("");
        let mut message: String;
        match got {
            Ok(token) => {
                message = "got ".to_owned();
                let text = token.describe();
                message.append(text.as_str());
                message.append(", expected one of: ");
                message.append(expected.as_str());
                self.put_back(token);
            },
            Err(_) => {
                message = "i/o error, expected one of: ".to_owned();
                message.append(expected.as_str());
            },
        }
        DMError::new(self.location, message)
    }

    /// Insists on a match: "not here" becomes the syntax error.
    pub fn require<T>(&mut self, status: Status<T>) -> (r: Result<T, DMError>)
        ensures
            match status {
                Ok(Some(v)) => r == Ok::<T, DMError>(v) && final(self)@ == old(self)@,
                Ok(None) => {
                    &&& r matches Err(e)
                    &&& e@ == old(self)@.source.syntax_error().1
                    &&& final(self)@ == old(self)@.at(old(self)@.source.syntax_error().0)
                },
                Err(e) => r == Err::<T, DMError>(e) && final(self)@ == old(self)@,
            },
            final(self)@.source.remaining() <= old(self)@.source.remaining(),
    {
        match status {
            Ok(Some(v)) => Ok(v),
            Ok(None) => Err(self.parse_error()),
            Err(e) => Err(e),
        }
    }

    /// Reads the given token, if it is the next one.
    pub fn exact(&mut self, token: Token) -> (r: Status<()>)
        ensures
            final(self)@ == old(self)@.at(final(self)@.source),
            ran(old(self)@.source, final(self)@.source, outcome(r), old(self)@.source.exact(token@)),
    {
        proof {
            lemma_peek(self@.source, token@.text());
        }
        let text = token.describe();
        let got = self.next(text.as_str())?;
        if got.same(&token) {
            Ok(Some(()))
        } else {
            self.try_another(got)
        }
    }

    /// Reads the given punctuation symbol, if it is next.
    pub fn exact_punct(&mut self, p: Punctuation) -> (r: Status<()>)
        ensures
            final(self)@ == old(self)@.at(final(self)@.source),
            ran(old(self)@.source, final(self)@.source, outcome(r), old(self)@.source.exact(TokenView::Punct(p))),
    {
        self.exact(Token::Punct(p))
    }

    /// Reads an identifier, if one is next.
    pub fn ident(&mut self) -> (r: Status<String>)
        ensures
            final(self)@ == old(self)@.at(final(self)@.source),
            ran(old(self)@.source, final(self)@.source, outcome(r), old(self)@.source.ident()),
    {
        proof {
            lemma_peek(self@.source, "identifier"@);
        }
        match self.next("identifier")? {
            Token::Ident(name, _) => Ok(Some(name)),
            other => self.try_another(other),
        }
    }

    /// Reads a path separator, if one is next.
    pub fn path_separator(&mut self) -> (r: Status<PathOp>)
        ensures
            final(self)@ == old(self)@.at(final(self)@.source),
            ran(old(self)@.source, final(self)@.source, outcome(r), old(self)@.source.path_separator()),
    {
        proof {
            lemma_peek(self@.source, "path separator"@);
        }
        match self.next("path separator")? {
            Token::Punct(Punctuation::Slash) => Ok(Some(PathOp::Slash)),
            Token::Punct(Punctuation::Dot) => Ok(Some(PathOp::Dot)),
            Token::Punct(Punctuation::Colon) => Ok(Some(PathOp::Colon)),
            other => self.try_another(other),
        }
    }

    /// No input holds more tokens than can be counted.
    pub(crate) fn input_bound(&self)
        ensures
            self@.source.remaining() <= usize::MAX + 2,
    {
        let _held = self.input.len();
    }

    /// Where the token that was drawn last was found.
    pub fn location(&self) -> (l: Location)
        ensures
            l == self@.source.location,
    {
        self.location
    }

    /// The tree built so far.
    pub fn tree(&self) -> (tree: &ObjectTree)
        ensures
            tree@ == self@.tree,
    {
        &self.tree
    }

    /// The warnings given so far.
    pub fn warnings(&self) -> (warnings: &Vec<PathWarning>)
        ensures
            warnings_view(warnings@) == self@.warnings,
    {
        &self.warnings
    }

    /// Ends the parse: hands out the tree and the warnings.
    pub fn finish(self) -> (parts: (ObjectTree, Vec<PathWarning>))
        ensures
            parts.0@ == self@.tree,
            warnings_view(parts.1@) == self@.warnings,
    {
        (self.tree, self.warnings)
    }

    /// Registers a type node at the current location.
    pub(crate) fn register_entry(&mut self, path: Vec<String>) -> (r: Result<(), DMError>)
        ensures
            final(self)@ == (ParserView { tree: final(self)@.tree, ..old(self)@ }),
            registered(
                old(self)@.tree,
                old(self)@.tree.add_entry(old(self)@.source.location, path.deep_view()),
                final(self)@.tree,
                r,
            ),
    {
        self.tree.add_entry(self.location, path)
    }

    /// Registers a variable at the current location.
    pub(crate) fn register_var(&mut self, path: Vec<String>, value: Expression) -> (r: Result<(), DMError>)
        ensures
            final(self)@ == (ParserView { tree: final(self)@.tree, ..old(self)@ }),
            registered(
                old(self)@.tree,
                old(self)@.tree.add_var(old(self)@.source.location, path.deep_view(), value@),
                final(self)@.tree,
                r,
            ),
    {
        self.tree.add_var(self.location, path, value)
    }

    /// Registers a procedure at the current location.
    pub(crate) fn register_proc(&mut self, path: Vec<String>) -> (r: Result<(), DMError>)
        ensures
            final(self)@ == (ParserView { tree: final(self)@.tree, ..old(self)@ }),
            registered(
                old(self)@.tree,
                old(self)@.tree.add_proc(old(self)@.source.location, path.deep_view()),
                final(self)@.tree,
                r,
            ),
    {
        self.tree.add_proc(self.location, path)
    }

    /// Notes that an absolute path was declared inside a block.
    pub(crate) fn warn(&mut self, path: Vec<String>, enclosing: Vec<String>)
        ensures
            final(self)@ == (ParserView {
                warnings: old(self)@.warnings.push(
                    PathWarningView {
                        location: old(self)@.source.location,
                        path: path.deep_view(),
                        enclosing: enclosing.deep_view(),
                    },
                ),
                ..old(self)@
            }),
    {
        let warning = PathWarning { location: self.location, path, enclosing };
        self.warnings.push(warning);
        assert(warnings_view(self.warnings@) =~= warnings_view(old(self).warnings@).push(warning@));
    }
}

/// Parses a whole input. Returns the tree with every declaration
/// registered, or the first error, and beside it the warnings.
pub fn parse(input: Vec<Result<LocatedToken, DMError>>) -> (parsed: (Result<ObjectTree, DMError>, Vec<PathWarning>))
    ensures
        tree_rules::parse(items_view(input@)) == (
            match parsed.0 {
                Ok(tree) => Ok(tree@),
                Err(e) => Err(e@),
            },
            warnings_view(parsed.1@),
        ),
{
    let mut parser = Parser::new(input);
    match parser.root() {
        Err(e) => {
            let (_, warnings) = parser.finish();
            (Err(e), warnings)
        },
        Ok(None) => {
            let e = parser.parse_error();
            let (_, warnings) = parser.finish();
            (Err(e), warnings)
        },
        Ok(Some(_)) => {
            let (tree, warnings) = parser.finish();
            let mut tree = tree;
            match tree.finalize() {
                Ok(_) => (Ok(tree), warnings),
                Err(e) => (Err(e), warnings),
            }
        },
    }
}

} // verus!
