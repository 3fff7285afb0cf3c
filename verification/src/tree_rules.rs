//! The grammar of declarations, as functions on the state of the parser,
//! and the skipping of groups that are not interpreted.
//!
//! As in the grammar of expressions, a rule goes on after another rule of
//! this grammar on the condition that fewer tokens are left to read; the
//! module `progress` proves that the condition always holds.

use vstd::prelude::*;
use crate::grammar::{expression, required, stuck};
use crate::lexer::{LocatedTokenView, Punctuation, TokenView};
use crate::location::DMErrorView;
use crate::objtree::ObjectTreeView;
use crate::parser::ParserView;
use crate::path::PathWarningView;
use crate::source::{advances, lemma_peek, lemma_require, lemma_steps, punct, SourceView, SpecStatus};

verus! {

/// A rule on the whole parser ran as its model says.
pub open spec fn ran_tree<V>(before: ParserView, after: ParserView, viewed: SpecStatus<V>, model: (ParserView, SpecStatus<V>)) -> bool {
    &&& after == model.0
    &&& viewed == model.1
    &&& advances(before.source, after.source, viewed matches Ok(Some(_)), viewed matches Ok(None))
}

/// A rule of the token source alone, as a rule on the whole parser.
pub open spec fn lifted<T>(p: ParserView, ran: (SourceView, T)) -> (ParserView, T) {
    (p.at(ran.0), ran.1)
}

/// A rule that must match: "not here" becomes the syntax error.
pub open spec fn insisted<T>(ran: (ParserView, SpecStatus<T>)) -> (ParserView, Result<T, DMErrorView>) {
    lifted(ran.0, ran.0.source.require(ran.1))
}

/// Skips a group: the token `left`, and everything up to the `right` that
/// closes it. Groups of the same kind inside it are skipped with it.
pub open spec fn ignore_group(s: SourceView, left: Punctuation, right: Punctuation) -> (SourceView, SpecStatus<()>) {
    let (s1, open) = s.exact(punct(left));
    match open {
        Err(e) => (s1, Err(e)),
        Ok(None) => (s1, Ok(None)),
        Ok(Some(_)) => skip_to_close(s1, left, right, 1),
    }
}

/// Reads tokens until `depth` open groups have been closed.
pub open spec fn skip_to_close(s: SourceView, left: Punctuation, right: Punctuation, depth: nat) -> (SourceView, SpecStatus<()>)
    decreases s.remaining(),
{
    if depth == 0 {
        (s, Ok(Some(())))
    } else {
        let (s1, got) = s.pull("anything"@);
        proof {
            lemma_peek(s, "anything"@);
        }
        match got {
            Err(e) => (s1, Err(e)),
            Ok(t) => skip_to_close(
                s1,
                left,
                right,
                if t == punct(left) {
                    depth + 1
                } else if t == punct(right) {
                    (depth - 1) as nat
                } else {
                    depth
                },
            ),
        }
    }
}

/// The symbol that closes the group that a token opens, if it opens one.
pub open spec fn closer(token: TokenView) -> Option<Punctuation> {
    match token {
        TokenView::Punct(Punctuation::LParen) => Some(Punctuation::RParen),
        TokenView::Punct(Punctuation::LBrace) => Some(Punctuation::RBrace),
        TokenView::Punct(Punctuation::LBracket) => Some(Punctuation::RBracket),
        _ => None,
    }
}

/// Reads one token tree and appends its tokens to `target`: a single
/// token, or a group from the token that opens it to the one that closes
/// it, with the token trees between them.
pub open spec fn read_any_tt(s: SourceView, target: Seq<TokenView>) -> (SourceView, Seq<TokenView>, SpecStatus<()>)
    decreases s.remaining(), 0nat,
{
    let (s1, got) = s.pull("anything"@);
    proof {
        lemma_peek(s, "anything"@);
    }
    match got {
        Err(e) => (s1, target, Err(e)),
        Ok(start) => match closer(start) {
            None => (s1, target.push(start), Ok(Some(()))),
            Some(end) => read_group(s1, target.push(start), end),
        },
    }
}

/// Reads the token trees of a group up to the token `end` that closes it.
pub open spec fn read_group(s: SourceView, target: Seq<TokenView>, end: Punctuation) -> (SourceView, Seq<TokenView>, SpecStatus<()>)
    decreases s.remaining(), 1nat,
{
    let (s1, got) = s.pull("anything"@);
    proof {
        lemma_peek(s, "anything"@);
    }
    match got {
        Err(e) => (s1, target, Err(e)),
        Ok(t) => if t == punct(end) {
            (s1, target.push(t), Ok(Some(())))
        } else {
            let (s2, grown, inner) = read_any_tt(s1.put_back(t), target);
            let (s3, inner) = s2.require(inner);
            match inner {
                Err(e) => (s3, grown, Err(e)),
                Ok(_) => if s3.remaining() < s.remaining() {
                    read_group(s3, grown, end)
                } else {
                    (stuck::<Option<()>>(s3).0, grown, stuck::<Option<()>>(s3).1)
                },
            }
        },
    }
}

/// The path of a declaration: whether it begins with a slash, and its
/// segments. At least one segment must be there; after a leading slash its
/// absence is an error.
pub open spec fn tree_path(s: SourceView) -> (SourceView, SpecStatus<(bool, Seq<Seq<char>>)>) {
    let (s1, slash) = s.exact(punct(Punctuation::Slash));
    match slash {
        Err(e) => (s1, Err(e)),
        Ok(lead) => {
            let (s2, first) = s1.ident();
            match first {
                Err(e) => (s2, Err(e)),
                Ok(None) => if lead is Some {
                    (s2.syntax_error().0, Err(s2.syntax_error().1))
                } else {
                    (s2, Ok(None))
                },
                Ok(Some(name)) => {
                    let (s3, parts) = path_segments(s2, seq![name]);
                    match parts {
                        Err(e) => (s3, Err(e)),
                        Ok(parts) => (s3, Ok(Some((lead is Some, parts)))),
                    }
                },
            }
        },
    }
}

/// The segments of a path after the first: a slash and an identifier each.
/// A slash that no identifier follows adds nothing.
pub open spec fn path_segments(s: SourceView, parts: Seq<Seq<char>>) -> (SourceView, Result<Seq<Seq<char>>, DMErrorView>)
    decreases s.remaining(),
{
    let (s1, got) = s.pull("path separator"@);
    match got {
        Err(e) => (s1, Err(e)),
        Ok(TokenView::Punct(Punctuation::Slash)) => {
            let (s2, name) = s1.ident();
            proof {
                lemma_peek(s, "path separator"@);
                lemma_steps(s1, TokenView::Eof);
            }
            match name {
                Err(e) => (s2, Err(e)),
                Ok(Some(name)) => path_segments(s2, parts.push(name)),
                Ok(None) => path_segments(s2, parts),
            }
        },
        Ok(t) => (s1.put_back(t), Ok(parts)),
    }
}

/// Skipping gives no token back, and takes at least one where a group is
/// open.
pub proof fn lemma_skip_to_close_advances(s: SourceView, left: Punctuation, right: Punctuation, depth: nat)
    ensures
        skip_to_close(s, left, right, depth).0.remaining() <= s.remaining(),
        depth >= 1 && skip_to_close(s, left, right, depth).1 is Ok ==> skip_to_close(
            s,
            left,
            right,
            depth,
        ).0.remaining() < s.remaining(),
        !(skip_to_close(s, left, right, depth).1 matches Ok(None)),
    decreases s.remaining(),
{
    if depth > 0 {
        let (s1, got) = s.pull("anything"@);
        lemma_peek(s, "anything"@);
        if let Ok(t) = got {
            lemma_skip_to_close_advances(
                s1,
                left,
                right,
                if t == punct(left) {
                    depth + 1
                } else if t == punct(right) {
                    (depth - 1) as nat
                } else {
                    depth
                },
            );
        }
    }
}

/// Skipping a group advances as every rule does.
pub proof fn lemma_ignore_group_advances(s: SourceView, left: Punctuation, right: Punctuation)
    ensures
        advances(
            s,
            ignore_group(s, left, right).0,
            ignore_group(s, left, right).1 matches Ok(Some(_)),
            ignore_group(s, left, right).1 matches Ok(None),
        ),
{
    lemma_steps(s, punct(left));
    lemma_skip_to_close_advances(s.exact(punct(left)).0, left, right, 1);
}

/// Reading the segments of a path gives no token back.
pub proof fn lemma_path_segments_advances(s: SourceView, parts: Seq<Seq<char>>)
    ensures
        path_segments(s, parts).0.remaining() <= s.remaining(),
    decreases s.remaining(),
{
    let (s1, got) = s.pull("path separator"@);
    lemma_peek(s, "path separator"@);
    if got == Ok::<TokenView, DMErrorView>(punct(Punctuation::Slash)) {
        let (s2, name) = s1.ident();
        lemma_steps(s1, TokenView::Eof);
        match name {
            Ok(Some(name)) => lemma_path_segments_advances(s2, parts.push(name)),
            Ok(None) => lemma_path_segments_advances(s2, parts),
            Err(_) => {},
        }
    }
}

/// Reading a path advances as every rule does.
pub proof fn lemma_tree_path_advances(s: SourceView)
    ensures
        advances(s, tree_path(s).0, tree_path(s).1 matches Ok(Some(_)), tree_path(s).1 matches Ok(None)),
{
    let slash = punct(Punctuation::Slash);
    lemma_steps(s, slash);
    let s1 = s.exact(slash).0;
    lemma_steps(s1, slash);
    let (s2, first) = s1.ident();
    lemma_require::<()>(s2, Ok(None));
    if let Ok(Some(name)) = first {
        lemma_path_segments_advances(s2, seq![name]);
    }
}

/// Skipping the size of a list gives no token back.
pub proof fn lemma_list_size(s: SourceView)
    ensures
        list_size(s).0.remaining() <= s.remaining(),
{
    let (s1, got) = s.pull("["@);
    lemma_peek(s, "["@);
    if let Ok(t) = got {
        let group = ignore_group(s1.put_back(t), Punctuation::LBracket, Punctuation::RBracket);
        lemma_ignore_group_advances(s1.put_back(t), Punctuation::LBracket, Punctuation::RBracket);
        lemma_require(group.0, group.1);
    }
}

/// Skipping the parameters and the body of a procedure gives no token back.
pub proof fn lemma_proc_rest(s: SourceView)
    ensures
        proc_rest(s).0.remaining() <= s.remaining(),
{
    let params = ignore_group(s, Punctuation::LParen, Punctuation::RParen);
    lemma_ignore_group_advances(s, Punctuation::LParen, Punctuation::RParen);
    lemma_require(params.0, params.1);
    let s1 = required(params).0;
    let (s2, got) = s1.pull("contents2"@);
    lemma_peek(s1, "contents2"@);
    if let Ok(t) = got {
        let body = ignore_group(s2.put_back(t), Punctuation::LBrace, Punctuation::RBrace);
        lemma_ignore_group_advances(s2.put_back(t), Punctuation::LBrace, Punctuation::RBrace);
        lemma_require(body.0, body.1);
    }
}

/// The state after an outcome of the tree: on refusal the error, and the
/// tree as it was.
pub open spec fn registering(p: ParserView, outcome: Result<ObjectTreeView, DMErrorView>) -> (ParserView, Result<(), DMErrorView>) {
    match outcome {
        Ok(tree) => (ParserView { tree, ..p }, Ok(())),
        Err(e) => (p, Err(e)),
    }
}

/// The full path of a declaration made at `path` inside `parent`.
pub open spec fn full_path(parent: Seq<Seq<char>>, absolute: bool, path: Seq<Seq<char>>) -> Seq<Seq<char>> {
    if absolute {
        path
    } else {
        parent + path
    }
}

/// One declaration. `parent` is the path of the block around it, `nested`
/// whether there is such a block. An absolute path inside a block declares
/// at the root, and draws a warning.
pub open spec fn tree_entry(p: ParserView, parent: Seq<Seq<char>>, nested: bool) -> (ParserView, SpecStatus<()>)
    decreases p.source.remaining(), 2nat,
{
    let (st1, found) = lifted(p, tree_path(p.source));
    match found {
        Err(e) => (st1, Err(e)),
        Ok(None) => (st1, Ok(None)),
        Ok(Some((absolute, path))) => {
            let st2 = if absolute && nested {
                ParserView {
                    warnings: st1.warnings.push(
                        PathWarningView { location: st1.source.location, path, enclosing: parent },
                    ),
                    ..st1
                }
            } else {
                st1
            };
            let (st3, size) = lifted(st2, list_size(st2.source));
            proof {
                lemma_tree_path_advances(p.source);
                lemma_list_size(st2.source);
            }
            match size {
                Err(e) => (st3, Err(e)),
                Ok(_) => entry_contents(st3, full_path(parent, absolute, path)),
            }
        },
    }
}

pub open spec fn stuck_tree<T>(p: ParserView) -> (ParserView, Result<T, DMErrorView>) {
    lifted(p, stuck(p.source))
}

/// The size of a list in brackets after a path, which is skipped.
pub open spec fn list_size(s: SourceView) -> (SourceView, Result<(), DMErrorView>) {
    let (s1, got) = s.pull("["@);
    match got {
        Err(e) => (s1, Err(e)),
        Ok(t) => if t == punct(Punctuation::LBracket) {
            required(ignore_group(s1.put_back(t), Punctuation::LBracket, Punctuation::RBracket))
        } else {
            (s1.put_back(t), Ok(()))
        },
    }
}

/// What follows the path of a declaration: a block, which makes it a type
/// node with declarations inside; `=` and an initializer, which make it a
/// variable; a parenthesized group, which makes it a procedure, whose body
/// in braces is skipped; or anything else, which is left unread and makes it
/// a type node.
pub open spec fn entry_contents(p: ParserView, path: Seq<Seq<char>>) -> (ParserView, SpecStatus<()>)
    decreases p.source.remaining(), 1nat,
{
    let (s1, got) = p.source.pull("contents"@);
    proof {
        lemma_peek(p.source, "contents"@);
    }
    let st1 = p.at(s1);
    match got {
        Err(e) => (st1, Err(e)),
        Ok(TokenView::Punct(Punctuation::LBrace)) => {
            let (st2, added) = registering(st1, st1.tree.add_entry(s1.location, path));
            match added {
                Err(e) => (st2, Err(e)),
                Ok(_) => {
                    let (st3, block) = insisted(
                        tree_block(st2.at(s1.put_back(punct(Punctuation::LBrace))), path, true),
                    );
                    match block {
                        Err(e) => (st3, Err(e)),
                        Ok(_) => (st3, Ok(Some(()))),
                    }
                },
            }
        },
        Ok(TokenView::Punct(Punctuation::Assign)) => {
            let (s2, value) = required(expression(s1, false));
            match value {
                Err(e) => (p.at(s2), Err(e)),
                Ok(value) => {
                    let (s3, semicolon) = required(s2.exact(punct(Punctuation::Semicolon)));
                    match semicolon {
                        Err(e) => (p.at(s3), Err(e)),
                        Ok(_) => {
                            let (st4, added) = registering(p.at(s3), p.tree.add_var(s3.location, path, value));
                            match added {
                                Err(e) => (st4, Err(e)),
                                Ok(_) => (st4, Ok(Some(()))),
                            }
                        },
                    }
                },
            }
        },
        Ok(TokenView::Punct(Punctuation::LParen)) => {
            let (st2, added) = registering(st1, st1.tree.add_proc(s1.location, path));
            match added {
                Err(e) => (st2, Err(e)),
                Ok(_) => {
                    let (st3, done) = lifted(st2, proc_rest(s1.put_back(punct(Punctuation::LParen))));
                    match done {
                        Err(e) => (st3, Err(e)),
                        Ok(_) => (st3, Ok(Some(()))),
                    }
                },
            }
        },
        Ok(other) => {
            let (st2, added) = registering(st1, st1.tree.add_entry(s1.location, path));
            match added {
                Err(e) => (st2, Err(e)),
                Ok(_) => (st2.at(s1.put_back(other)), Ok(Some(()))),
            }
        },
    }
}

/// The parameters of a procedure and its body, if it has one: both are
/// skipped as groups.
pub open spec fn proc_rest(s: SourceView) -> (SourceView, Result<(), DMErrorView>) {
    let (s1, params) = required(ignore_group(s, Punctuation::LParen, Punctuation::RParen));
    match params {
        Err(e) => (s1, Err(e)),
        Ok(_) => {
            let (s2, got) = s1.pull("contents2"@);
            match got {
                Err(e) => (s2, Err(e)),
                Ok(t) => if t == punct(Punctuation::LBrace) {
                    required(ignore_group(s2.put_back(t), Punctuation::LBrace, Punctuation::RBrace))
                } else {
                    (s2.put_back(t), Ok(()))
                },
            }
        },
    }
}

/// A block: a brace, and the declarations up to the brace that closes it.
/// `parent` is the path that the declarations are relative to, `nested`
/// whether a declaration stands around the block.
pub open spec fn tree_block(p: ParserView, parent: Seq<Seq<char>>, nested: bool) -> (ParserView, SpecStatus<()>)
    decreases p.source.remaining(), 0nat,
{
    let (s1, open) = p.source.exact(punct(Punctuation::LBrace));
    proof {
        lemma_steps(p.source, punct(Punctuation::LBrace));
    }
    match open {
        Err(e) => (p.at(s1), Err(e)),
        Ok(None) => (p.at(s1), Ok(None)),
        Ok(Some(_)) => {
            let (st2, entries) = insisted(tree_entries(p.at(s1), parent, nested, punct(Punctuation::RBrace)));
            match entries {
                Err(e) => (st2, Err(e)),
                Ok(_) => (st2, Ok(Some(()))),
            }
        },
    }
}

/// What is looked for between declarations.
pub open spec fn between_entries(terminator: TokenView) -> Seq<char> {
    "newline or "@ + terminator.text()
}

/// Declarations up to `terminator` or the end of the input. Semicolons
/// between them are skipped.
pub open spec fn tree_entries(p: ParserView, parent: Seq<Seq<char>>, nested: bool, terminator: TokenView) -> (ParserView, SpecStatus<()>)
    decreases p.source.remaining(), 3nat,
{
    let (s1, got) = p.source.pull(between_entries(terminator));
    proof {
        lemma_peek(p.source, between_entries(terminator));
    }
    match got {
        Err(e) => (p.at(s1), Err(e)),
        Ok(t) => if t == terminator || t == TokenView::Eof {
            (p.at(s1), Ok(Some(())))
        } else if t == punct(Punctuation::Semicolon) {
            tree_entries(p.at(s1), parent, nested, terminator)
        } else {
            let (st2, entry) = insisted(tree_entry(p.at(s1.put_back(t)), parent, nested));
            match entry {
                Err(e) => (st2, Err(e)),
                Ok(_) => if st2.source.remaining() < p.source.remaining() {
                    tree_entries(st2, parent, nested, terminator)
                } else {
                    stuck_tree(st2)
                },
            }
        },
    }
}

/// The declarations of a whole input.
pub open spec fn root(p: ParserView) -> (ParserView, SpecStatus<()>) {
    tree_entries(p, Seq::empty(), false, TokenView::Eof)
}

/// The parse of a whole input: the tree with every declaration registered,
/// finalized, or the first error; and the warnings given on the way.
pub open spec fn parse(input: Seq<Result<LocatedTokenView, DMErrorView>>) -> (Result<ObjectTreeView, DMErrorView>, Seq<PathWarningView>) {
    let (p, done) = root(ParserView::start(input));
    match done {
        Err(e) => (Err(e), p.warnings),
        Ok(None) => (Err(p.source.syntax_error().1), p.warnings),
        Ok(Some(_)) => (p.tree.finalize(), p.warnings),
    }
}

} // verus!
