//! The grammar of declarations: paths, blocks, variables and procedures,
//! registered in the object tree as they are read.

use vstd::prelude::*;
use crate::lexer::{tokens_view, Punctuation, Token};
use crate::location::{DMError, DMErrorView};
use crate::parser::Parser;
use crate::path::PathStack;
use crate::source::{lemma_peek, outcome, outcome_with, ran, ran_all, result_with, Status};
use crate::tree_rules;
use crate::tree_rules::ran_tree;

verus! {

impl Parser {
    /// Skips a group between `left` and the `right` that closes it.
    pub fn ignore_group(&mut self, left: Punctuation, right: Punctuation) -> (r: Status<()>)
        ensures
            final(self)@ == old(self)@.at(final(self)@.source),
            ran(
                old(self)@.source,
                final(self)@.source,
                outcome(r),
                tree_rules::ignore_group(old(self)@.source, left, right),
            ),
    {
        match self.exact_punct(left)? {
            Some(_) => {},
            None => {
                return Ok(None);
            },
        }
        self.input_bound();
        // One more than the tokens read, at most: no input makes it overflow.
        let mut depth: u128 = 1;
        let ghost start = self@.source;
        while depth > 0
            invariant
                self@ == old(self)@.at(self@.source),
                self@.source.remaining() < old(self)@.source.remaining(),
                depth + self@.source.remaining() <= 1 + start.remaining(),
                start.remaining() <= usize::MAX + 2,
                tree_rules::skip_to_close(self@.source, left, right, depth as nat) == tree_rules::ignore_group(
                    old(self)@.source,
                    left,
                    right,
                ),
            decreases self@.source.remaining(),
        {
            let token = self.next("anything")?;
            if token.is_punct(left) {
                depth = depth + 1;
            } else if token.is_punct(right) {
                depth = depth - 1;
            }
        }
        Ok(Some(()))
    }

    /// Reads one token tree, a single token or a whole group, and appends
    /// its tokens to `target`.
    pub fn read_any_tt(&mut self, target: &mut Vec<Token>) -> (r: Status<()>)
        ensures
            final(self)@ == old(self)@.at(final(self)@.source),
            (final(self)@.source, tokens_view(final(target)@), outcome(r)) == tree_rules::read_any_tt(
                old(self)@.source,
                tokens_view(old(target)@),
            ),
            final(self)@.source.remaining() <= old(self)@.source.remaining(),
            r is Ok ==> r->Ok_0 is Some && final(self)@.source.remaining() < old(self)@.source.remaining(),
        decreases old(self)@.source.remaining(),
    {
        proof {
            lemma_peek(self@.source, "anything"@);
        }
        let start = self.next("anything")?;
        let end = match start {
            Token::Punct(Punctuation::LParen) => Punctuation::RParen,
            Token::Punct(Punctuation::LBrace) => Punctuation::RBrace,
            Token::Punct(Punctuation::LBracket) => Punctuation::RBracket,
            other => {
                let ghost before = tokens_view(target@);
                target.push(other);
                assert(tokens_view(target@) =~= before.push(other@));
                return Ok(Some(()));
            },
        };
        let ghost before = tokens_view(target@);
        target.push(start);
        assert(tokens_view(target@) =~= before.push(start@));
        loop
            invariant
                self@ == old(self)@.at(self@.source),
                self@.source.remaining() < old(self)@.source.remaining(),
                tree_rules::read_group(self@.source, tokens_view(target@), end) == tree_rules::read_any_tt(
                    old(self)@.source,
                    tokens_view(old(target)@),
                ),
            decreases self@.source.remaining(),
        {
            let ghost at_top = self@.source;
            proof {
                lemma_peek(at_top, "anything"@);
            }
            let token = self.next("anything")?;
            if token.is_punct(end) {
                let ghost before = tokens_view(target@);
                target.push(token);
                assert(tokens_view(target@) =~= before.push(token@));
                return Ok(Some(()));
            } else {
                self.put_back(token);
                let inner = self.read_any_tt(target);
                self.require(inner)?;
            }
        }
    }

    /// Reads the path of a declaration.
    pub fn tree_path(&mut self) -> (r: Status<(bool, Vec<String>)>)
        ensures
            final(self)@ == old(self)@.at(final(self)@.source),
            ran(
                old(self)@.source,
                final(self)@.source,
                outcome_with(r, |found: (bool, Vec<String>)| (found.0, found.1.deep_view())),
                tree_rules::tree_path(old(self)@.source),
            ),
    {
        let absolute = match self.exact_punct(Punctuation::Slash)? {
            Some(_) => true,
            None => false,
        };
        let mut parts: Vec<String> = Vec::new();
        match self.ident()? {
            Some(name) => {
                parts.push(name);
                assert(parts.deep_view() =~= seq![name@]);
            },
            None => {
                if absolute {
                    return Err(self.parse_error());
                } else {
                    return Ok(None);
                }
            },
        }
        let parts = self.path_segments(parts)?;
        Ok(Some((absolute, parts)))
    }

    /// Reads the segments of a path after the first.
    fn path_segments(&mut self, parts: Vec<String>) -> (r: Result<Vec<String>, DMError>)
        ensures
            final(self)@ == old(self)@.at(final(self)@.source),
            ran_all(
                old(self)@.source,
                final(self)@.source,
                result_with(r, |v: Vec<String>| v.deep_view()),
                tree_rules::path_segments(old(self)@.source, parts.deep_view()),
            ),
    {
        let ghost given = parts.deep_view();
        let mut found = parts;
        loop
            invariant_except_break
                tree_rules::path_segments(self@.source, found.deep_view()) == tree_rules::path_segments(
                    old(self)@.source,
                    given,
                ),
            invariant
                self@ == old(self)@.at(self@.source),
                self@.source.remaining() <= old(self)@.source.remaining(),
                given == parts.deep_view(),
            ensures
                tree_rules::path_segments(old(self)@.source, given) == (
                    self@.source,
                    Ok::<Seq<Seq<char>>, DMErrorView>(found.deep_view()),
                ),
            decreases self@.source.remaining(),
        {
            let ghost at_top = self@.source;
            proof {
                lemma_peek(at_top, "path separator"@);
            }
            match self.next("path separator")? {
                Token::Punct(p) => {
                    if p == Punctuation::Slash {
                        match self.ident()? {
                            Some(segment) => {
                                let ghost before = found.deep_view();
                                found.push(segment);
                                assert(found.deep_view() =~= before.push(segment@));
                            },
                            None => {},
                        }
                    } else {
                        self.put_back(Token::Punct(p));
                        break ;
                    }
                },
                other => {
                    self.put_back(other);
                    break ;
                },
            }
        }
        Ok(found)
    }

    /// Reads one declaration inside the block whose path `parent` gives.
    #[verifier::rlimit(40)]
    pub fn tree_entry(&mut self, parent: &PathStack) -> (r: Status<()>)
        ensures
            ran_tree(
                old(self)@,
                final(self)@,
                outcome(r),
                tree_rules::tree_entry(old(self)@, parent.flatten(), parent.nested),
            ),
        decreases old(self)@.source.remaining(), 2nat,
    {
        let (absolute, path) = match self.tree_path()? {
            Some(found) => found,
            None => {
                return Ok(None);
            },
        };
        let new_stack = PathStack {
            parent: if absolute {
                None
            } else {
                Some(parent)
            },
            parts: &path,
            nested: true,
        };
        assert(new_stack.flatten() == tree_rules::full_path(parent.flatten(), absolute, path.deep_view()));
        if absolute && parent.nested {
            self.warn(new_stack.iter(), parent.iter());
        }
        self.list_size()?;
        self.entry_contents(&new_stack)
    }

    /// Skips the size of a list, if one is given.
    fn list_size(&mut self) -> (r: Result<(), DMError>)
        ensures
            final(self)@ == old(self)@.at(final(self)@.source),
            ran_all(
                old(self)@.source,
                final(self)@.source,
                result_with(r, |u: ()| ()),
                tree_rules::list_size(old(self)@.source),
            ),
    {
        proof {
            lemma_peek(self@.source, "["@);
        }
        let token = self.next("[")?;
        if token.is_punct(Punctuation::LBracket) {
            self.put_back(token);
            let group = self.ignore_group(Punctuation::LBracket, Punctuation::RBracket);
            self.require(group)?;
        } else {
            self.put_back(token);
        }
        Ok(())
    }

    /// Reads what follows the path of a declaration, and registers it.
    #[verifier::rlimit(40)]
    fn entry_contents(&mut self, stack: &PathStack) -> (r: Status<()>)
        requires
            stack.nested,
        ensures
            (final(self)@, outcome(r)) == tree_rules::entry_contents(old(self)@, stack.flatten()),
            final(self)@.source.remaining() <= old(self)@.source.remaining(),
            r is Ok ==> r->Ok_0 is Some,
        decreases old(self)@.source.remaining(), 1nat,
    {
        proof {
            lemma_peek(self@.source, "contents"@);
        }
        match self.next("contents")? {
            Token::Punct(p) => {
                if p == Punctuation::LBrace {
                    self.register_entry(stack.iter())?;
                    self.put_back(Token::Punct(p));
                    let block = self.tree_block(stack);
                    self.require(block)?;
                    Ok(Some(()))
                } else if p == Punctuation::Assign {
                    let value = self.expression(false);
                    let value = self.require(value)?;
                    let semicolon = self.exact_punct(Punctuation::Semicolon);
                    self.require(semicolon)?;
                    self.register_var(stack.iter(), value)?;
                    Ok(Some(()))
                } else if p == Punctuation::LParen {
                    self.register_proc(stack.iter())?;
                    self.put_back(Token::Punct(p));
                    self.proc_rest()?;
                    Ok(Some(()))
                } else {
                    self.register_entry(stack.iter())?;
                    self.put_back(Token::Punct(p));
                    Ok(Some(()))
                }
            },
            other => {
                self.register_entry(stack.iter())?;
                self.put_back(other);
                Ok(Some(()))
            },
        }
    }

    /// Skips the parameters of a procedure, and its body if it has one.
    fn proc_rest(&mut self) -> (r: Result<(), DMError>)
        ensures
            final(self)@ == old(self)@.at(final(self)@.source),
            ran_all(
                old(self)@.source,
                final(self)@.source,
                result_with(r, |u: ()| ()),
                tree_rules::proc_rest(old(self)@.source),
            ),
    {
        let params = self.ignore_group(Punctuation::LParen, Punctuation::RParen);
        self.require(params)?;
        proof {
            lemma_peek(self@.source, "contents2"@);
        }
        let token = self.next("contents2")?;
        if token.is_punct(Punctuation::LBrace) {
            self.put_back(token);
            let body = self.ignore_group(Punctuation::LBrace, Punctuation::RBrace);
            self.require(body)?;
        } else {
            self.put_back(token);
        }
        Ok(())
    }

    /// Reads a block of declarations.
    pub fn tree_block(&mut self, parent: &PathStack) -> (r: Status<()>)
        ensures
            ran_tree(
                old(self)@,
                final(self)@,
                outcome(r),
                tree_rules::tree_block(old(self)@, parent.flatten(), parent.nested),
            ),
        decreases old(self)@.source.remaining(), 0nat,
    {
        match self.exact_punct(Punctuation::LBrace)? {
            Some(_) => {},
            None => {
                return Ok(None);
            },
        }
        let entries = self.tree_entries(parent, Token::Punct(Punctuation::RBrace));
        self.require(entries)?;
        Ok(Some(()))
    }

    /// Reads declarations up to `terminator` or the end of the input.
    pub fn tree_entries(&mut self, parent: &PathStack, terminator: Token) -> (r: Status<()>)
        ensures
            ran_tree(
                old(self)@,
                final(self)@,
                outcome(r),
                tree_rules::tree_entries(old(self)@, parent.flatten(), parent.nested, terminator@),
            ),
            r is Ok ==> r->Ok_0 is Some,
        decreases old(self)@.source.remaining(), 3nat,
    {
        let mut expected = "newline or ".to_owned();
        let text = terminator.describe();
        expected.append(text.as_str());
        let ghost mut first = true;
        loop
            invariant
                expected@ == tree_rules::between_entries(terminator@),
                self@.source.remaining() <= old(self)@.source.remaining(),
                first || self@.source.remaining() < old(self)@.source.remaining(),
                tree_rules::tree_entries(self@, parent.flatten(), parent.nested, terminator@)
                    == tree_rules::tree_entries(old(self)@, parent.flatten(), parent.nested, terminator@),
            decreases self@.source.remaining(), if first { 1nat } else { 0nat },
        {
            let ghost at_top = self@.source;
            proof {
                lemma_peek(at_top, expected@);
            }
            let next = self.next(expected.as_str())?;
            if next.same(&terminator) || next.same(&Token::Eof) {
                return Ok(Some(()));
            } else if next.is_punct(Punctuation::Semicolon) {
            } else {
                self.put_back(next);
                let entry = self.tree_entry(parent);
                self.require(entry)?;
            }
            proof {
                first = false;
            }
        }
    }

    /// Reads the declarations of the whole input.
    pub fn root(&mut self) -> (r: Status<()>)
        ensures
            ran_tree(old(self)@, final(self)@, outcome(r), tree_rules::root(old(self)@)),
            r is Ok ==> r->Ok_0 is Some,
    {
        let none: Vec<String> = Vec::new();
        let root = PathStack { parent: None, parts: &none, nested: false };
        assert(root.flatten() =~= Seq::empty());
        self.tree_entries(&root, Token::Eof)
    }
}

} // verus!
