//! The grammar of expressions, as functions on the state of the token source.
//!
//! Every rule is defined by recursion on the number of tokens that can still
//! be read. Where a rule goes on after another rule of the grammar, it does
//! so on the condition that the other rule has left fewer tokens to read, or
//! at least no more, as the recursion needs it. The condition always holds:
//! the module `progress` proves it of every rule.

use vstd::prelude::*;
use crate::ast::{with_entry, ExpressionView, FollowView, NewTypeView, PathOp, PrefabView, TermView, UnaryOp};
use crate::lexer::{Punctuation, TokenView};
use crate::location::DMErrorView;
use crate::ops::{operator, Op, OpInfo};
use crate::source::{lemma_peek, lemma_require, lemma_steps, punct, SourceView, SpecStatus};

verus! {

/// What a separated list has collected: the arguments of a call, the
/// entries of a list literal, or a prefab with its overrides.
pub enum CollectedView {
    Arguments(Seq<ExpressionView>),
    Entries(Seq<(ExpressionView, Option<ExpressionView>)>),
    Vars(PrefabView),
}

impl CollectedView {
    pub open spec fn arguments(self) -> Seq<ExpressionView> {
        match self {
            CollectedView::Arguments(v) => v,
            _ => Seq::empty(),
        }
    }

    pub open spec fn entries(self) -> Seq<(ExpressionView, Option<ExpressionView>)> {
        match self {
            CollectedView::Entries(v) => v,
            _ => Seq::empty(),
        }
    }

    /// Whether the two collect the same kind of element.
    pub open spec fn same_kind(self, other: CollectedView) -> bool {
        match self {
            CollectedView::Arguments(_) => other is Arguments,
            CollectedView::Entries(_) => other is Entries,
            CollectedView::Vars(_) => other is Vars,
        }
    }

    pub open spec fn prefab(self, path: Seq<(PathOp, Seq<char>)>) -> PrefabView {
        match self {
            CollectedView::Vars(p) => p,
            _ => PrefabView { path, vars: Seq::empty() },
        }
    }
}

/// What a rule would give if another rule had matched without reading
/// anything. None does, so no rule gives this: it only closes the
/// definitions.
pub open spec fn stuck<T>(s: SourceView) -> (SourceView, Result<T, DMErrorView>) {
    (s, Err(DMErrorView { location: s.location, description: "no progress"@ }))
}

/// A rule that must match: "not here" becomes the syntax error.
pub open spec fn required<T>(ran: (SourceView, SpecStatus<T>)) -> (SourceView, Result<T, DMErrorView>) {
    ran.0.require(ran.1)
}

/// The operator that a token stands for. Where assignment is not allowed,
/// `=` is no operator.
pub open spec fn operator_of(token: TokenView, disallow_assign: bool) -> Option<OpInfo> {
    match token {
        TokenView::Punct(p) => if p == Punctuation::Assign && disallow_assign {
            None
        } else {
            operator(p)
        },
        _ => None,
    }
}

/// A run of operands joined from the left: `((b0 o0 b1) o1 b2) .. rhs`.
pub open spec fn fold_left(bits: Seq<ExpressionView>, ops: Seq<Op>, rhs: ExpressionView) -> ExpressionView
    decreases bits.len(),
{
    if bits.len() == 0 {
        rhs
    } else if bits.len() == 1 {
        ops[0].build_spec(bits[0], rhs)
    } else {
        ops[bits.len() - 1].build_spec(fold_left(bits.drop_last(), ops, bits.last()), rhs)
    }
}

/// A run of operands joined from the right: `b0 o0 (b1 o1 (.. rhs))`.
pub open spec fn fold_right(bits: Seq<ExpressionView>, ops: Seq<Op>, rhs: ExpressionView) -> ExpressionView
    decreases bits.len(),
{
    if bits.len() == 0 {
        rhs
    } else {
        fold_right(bits.drop_last(), ops, ops[bits.len() - 1].build_spec(bits.last(), rhs))
    }
}

/// A run of operands of one strength as one expression.
pub open spec fn fold(bits: Seq<ExpressionView>, ops: Seq<Op>, rhs: ExpressionView, right_binding: bool) -> ExpressionView {
    if right_binding {
        fold_right(bits, ops, rhs)
    } else {
        fold_left(bits, ops, rhs)
    }
}

/// Zero or more prefix operators.
pub open spec fn unary_ops(s: SourceView, found: Seq<UnaryOp>) -> (SourceView, Result<Seq<UnaryOp>, DMErrorView>)
    decreases s.remaining(),
{
    let (s1, got) = s.pull("unary operator"@);
    proof {
        lemma_peek(s, "unary operator"@);
    }
    match got {
        Err(e) => (s1, Err(e)),
        Ok(TokenView::Punct(Punctuation::Sub)) => unary_ops(s1, found.push(UnaryOp::Neg)),
        Ok(TokenView::Punct(Punctuation::Not)) => unary_ops(s1, found.push(UnaryOp::Not)),
        Ok(TokenView::Punct(Punctuation::BitNot)) => unary_ops(s1, found.push(UnaryOp::BitNot)),
        Ok(t) => (s1.put_back(t), Ok(found)),
    }
}

/// The segments of a type-path literal after the first: a separator and an
/// identifier each; a separator that no identifier follows adds nothing.
pub open spec fn prefab_path(s: SourceView, parts: Seq<(PathOp, Seq<char>)>) -> (SourceView, Result<Seq<(PathOp, Seq<char>)>, DMErrorView>)
    decreases s.remaining(),
{
    let (s1, sep) = s.path_separator();
    match sep {
        Err(e) => (s1, Err(e)),
        Ok(None) => (s1, Ok(parts)),
        Ok(Some(op)) => {
            let (s2, name) = s1.ident();
            proof {
                lemma_steps(s, TokenView::Eof);
                lemma_steps(s1, TokenView::Eof);
            }
            match name {
                Err(e) => (s2, Err(e)),
                Ok(Some(name)) => prefab_path(s2, parts.push((op, name))),
                Ok(None) => prefab_path(s2, parts),
            }
        },
    }
}

/// Reading prefix operators reads a token for each operator found, and
/// nothing else.
pub proof fn lemma_unary_ops(s: SourceView, found: Seq<UnaryOp>)
    ensures
        unary_ops(s, found).0.remaining() <= s.remaining(),
        unary_ops(s, found).1 matches Ok(all) ==> {
            &&& all.len() >= found.len()
            &&& all.len() > found.len() ==> unary_ops(s, found).0.remaining() < s.remaining()
            &&& all.len() == found.len() ==> unary_ops(s, found).0.upcoming() == s.upcoming()
        },
    decreases s.remaining(),
{
    let (s1, got) = s.pull("unary operator"@);
    lemma_peek(s, "unary operator"@);
    match got {
        Ok(TokenView::Punct(Punctuation::Sub)) => lemma_unary_ops(s1, found.push(UnaryOp::Neg)),
        Ok(TokenView::Punct(Punctuation::Not)) => lemma_unary_ops(s1, found.push(UnaryOp::Not)),
        Ok(TokenView::Punct(Punctuation::BitNot)) => lemma_unary_ops(s1, found.push(UnaryOp::BitNot)),
        _ => {},
    }
}

/// Reading the segments of a type-path literal gives no token back.
pub proof fn lemma_prefab_path(s: SourceView, parts: Seq<(PathOp, Seq<char>)>)
    ensures
        prefab_path(s, parts).0.remaining() <= s.remaining(),
    decreases s.remaining(),
{
    let (s1, sep) = s.path_separator();
    lemma_steps(s, TokenView::Eof);
    if let Ok(Some(op)) = sep {
        let (s2, name) = s1.ident();
        lemma_steps(s1, TokenView::Eof);
        match name {
            Ok(Some(name)) => lemma_prefab_path(s2, parts.push((op, name))),
            Ok(None) => lemma_prefab_path(s2, parts),
            Err(_) => {},
        }
    }
}

/// An expression: a group, and every operator run that follows it.
pub open spec fn expression(s: SourceView, disallow_assign: bool) -> (SourceView, SpecStatus<ExpressionView>)
    decreases s.remaining(), 3nat,
{
    let (s1, first) = group(s);
    match first {
        Err(e) => (s1, Err(e)),
        Ok(None) => (s1, Ok(None)),
        Ok(Some(e)) => if s1.remaining() < s.remaining() {
            expression_tail(s1, e, disallow_assign)
        } else {
            stuck(s1)
        },
    }
}

/// What follows the first group of an expression: as long as an operator
/// comes next, the expression so far is the left operand of its run.
pub open spec fn expression_tail(s: SourceView, lhs: ExpressionView, disallow_assign: bool) -> (SourceView, SpecStatus<ExpressionView>)
    decreases s.remaining(), 0nat,
{
    let (s1, got) = s.pull("binary operator"@);
    proof {
        lemma_peek(s, "binary operator"@);
    }
    match got {
        Err(e) => (s1, Err(e)),
        Ok(t) => match operator_of(t, disallow_assign) {
            None => (s1.put_back(t), Ok(Some(lhs))),
            Some(info) => {
                let (s2, part) = required(expression_part(s1, lhs, info, disallow_assign));
                match part {
                    Err(e) => (s2, Err(e)),
                    Ok(e) => if s2.remaining() < s.remaining() {
                        expression_tail(s2, e, disallow_assign)
                    } else {
                        stuck(s2)
                    },
                }
            },
        },
    }
}

/// The run of operators of the strength of `prev_op`, whose first operator
/// has been read and whose first operand is `lhs`.
pub open spec fn expression_part(s: SourceView, lhs: ExpressionView, prev_op: OpInfo, disallow_assign: bool) -> (SourceView, SpecStatus<ExpressionView>)
    decreases s.remaining(), 3nat,
{
    let (s1, rhs) = required(group(s));
    match rhs {
        Err(e) => (s1, Err(e)),
        Ok(rhs) => if s1.remaining() < s.remaining() {
            expression_run(s1, seq![lhs], seq![prev_op.oper], rhs, prev_op, disallow_assign)
        } else {
            stuck(s1)
        },
    }
}

/// The rest of a run. `bits` are the operands collected so far, `ops` the
/// operators after each of them, `rhs` the operand read last. A stronger
/// operator takes `rhs` as the first operand of its own run; a weaker one is
/// left unread and ends the run; one of the same strength extends the run.
pub open spec fn expression_run(
    s: SourceView,
    bits: Seq<ExpressionView>,
    ops: Seq<Op>,
    rhs: ExpressionView,
    prev_op: OpInfo,
    disallow_assign: bool,
) -> (SourceView, SpecStatus<ExpressionView>)
    decreases s.remaining(), 0nat,
{
    let (s1, got) = s.pull("binary operator"@);
    proof {
        lemma_peek(s, "binary operator"@);
    }
    match got {
        Err(e) => (s1, Err(e)),
        Ok(t) => match operator_of(t, disallow_assign) {
            None => (s1.put_back(t), Ok(Some(fold(bits, ops, rhs, prev_op.right_binding)))),
            Some(info) => if info.strength < prev_op.strength {
                (s1.put_back(punct(info.token)), Ok(Some(fold(bits, ops, rhs, prev_op.right_binding))))
            } else {
                let (s2, operand) = if info.strength > prev_op.strength {
                    required(expression_part(s1, rhs, info, disallow_assign))
                } else {
                    required(group(s1))
                };
                match operand {
                    Err(e) => (s2, Err(e)),
                    Ok(operand) => if s2.remaining() < s.remaining() {
                        if info.strength > prev_op.strength {
                            expression_run(s2, bits, ops, operand, prev_op, disallow_assign)
                        } else {
                            expression_run(s2, bits.push(rhs), ops.push(info.oper), operand, prev_op, disallow_assign)
                        }
                    } else {
                        stuck(s2)
                    },
                }
            },
        },
    }
}

/// A group: prefix operators, a term, and the postfix operations on it.
/// After a prefix operator the term must be there.
pub open spec fn group(s: SourceView) -> (SourceView, SpecStatus<ExpressionView>)
    decreases s.remaining(), 2nat,
{
    let (s1, unary) = unary_ops(s, Seq::empty());
    proof {
        lemma_unary_ops(s, Seq::empty());
    }
    match unary {
        Err(e) => (s1, Err(e)),
        Ok(unary) => {
            let (s2, found) = term(s1);
            let (s3, found) = if unary.len() > 0 {
                match required((s2, found)) {
                    (s3, Ok(t)) => (s3, Ok(Some(t))),
                    (s3, Err(e)) => (s3, Err(e)),
                }
            } else {
                (s2, found)
            };
            match found {
                Err(e) => (s3, Err(e)),
                Ok(None) => (s3, Ok(None)),
                Ok(Some(t)) => if s3.remaining() < s.remaining() {
                    let (s4, follow) = follows(s3, Seq::empty());
                    match follow {
                        Err(e) => (s4, Err(e)),
                        Ok(follow) => (s4, Ok(Some(ExpressionView::Base { unary, term: t, follow }))),
                    }
                } else {
                    stuck(s3)
                },
            }
        },
    }
}

/// Zero or more postfix operations.
pub open spec fn follows(s: SourceView, found: Seq<FollowView>) -> (SourceView, Result<Seq<FollowView>, DMErrorView>)
    decreases s.remaining(), 1nat,
{
    let (s1, next) = follow(s);
    match next {
        Err(e) => (s1, Err(e)),
        Ok(None) => (s1, Ok(found)),
        Ok(Some(f)) => if s1.remaining() < s.remaining() {
            follows(s1, found.push(f))
        } else {
            stuck(s1)
        },
    }
}

/// One postfix operation: `.name`, `.name(args)`, `[index]` or `as name`.
pub open spec fn follow(s: SourceView) -> (SourceView, SpecStatus<FollowView>)
    decreases s.remaining(), 0nat,
{
    let (s1, got) = s.pull("field, index, or function call"@);
    proof {
        lemma_peek(s, "field, index, or function call"@);
    }
    match got {
        Err(e) => (s1, Err(e)),
        Ok(TokenView::Punct(Punctuation::Dot)) => {
            let (s2, name) = required(s1.ident());
            proof {
                lemma_steps(s1, TokenView::Eof);
                lemma_require(s1.ident().0, s1.ident().1);
            }
            match name {
                Err(e) => (s2, Err(e)),
                Ok(name) => {
                    let (s3, args) = arguments(s2);
                    match args {
                        Err(e) => (s3, Err(e)),
                        Ok(Some(args)) => (s3, Ok(Some(FollowView::Call(name, args)))),
                        Ok(None) => (s3, Ok(Some(FollowView::Field(name)))),
                    }
                },
            }
        },
        Ok(TokenView::Punct(Punctuation::LBracket)) => {
            let (s2, index) = required(expression(s1, false));
            match index {
                Err(e) => (s2, Err(e)),
                Ok(index) => {
                    let (s3, close) = required(s2.exact(punct(Punctuation::RBracket)));
                    match close {
                        Err(e) => (s3, Err(e)),
                        Ok(_) => (s3, Ok(Some(FollowView::Index(Box::new(index))))),
                    }
                },
            }
        },
        Ok(TokenView::Ident(word, ws)) => if word == "as"@ {
            let (s2, name) = required(s1.ident());
            match name {
                Err(e) => (s2, Err(e)),
                Ok(name) => (s2, Ok(Some(FollowView::Cast(name)))),
            }
        } else {
            (s1.put_back(TokenView::Ident(word, ws)), Ok(None))
        },
        Ok(t) => (s1.put_back(t), Ok(None)),
    }
}

/// A term.
pub open spec fn term(s: SourceView) -> (SourceView, SpecStatus<TermView>)
    decreases s.remaining(), 1nat,
{
    let (s1, got) = s.pull("term"@);
    proof {
        lemma_peek(s, "term"@);
    }
    match got {
        Err(e) => (s1, Err(e)),
        Ok(TokenView::Ident(word, ws)) => {
            if word == "new"@ {
                new_term(s1)
            } else if word == "list"@ {
                let (s2, entries) = list_arguments(s1);
                match entries {
                    Err(e) => (s2, Err(e)),
                    Ok(Some(entries)) => (s2, Ok(Some(TermView::List(entries)))),
                    Ok(None) => (s2, Ok(Some(TermView::Ident("list"@)))),
                }
            } else {
                let (s2, args) = arguments(s1);
                match args {
                    Err(e) => (s2, Err(e)),
                    Ok(Some(args)) => (s2, Ok(Some(TermView::Call(word, args)))),
                    Ok(None) => (s2, Ok(Some(TermView::Ident(word)))),
                }
            }
        },
        Ok(TokenView::Punct(Punctuation::Slash)) | Ok(TokenView::Punct(Punctuation::Dot)) | Ok(
            TokenView::Punct(Punctuation::Colon),
        ) => {
            let (s2, literal) = required(prefab(s1.put_back(got->Ok_0)));
            match literal {
                Err(e) => (s2, Err(e)),
                Ok(p) => (s2, Ok(Some(TermView::Prefab(p)))),
            }
        },
        Ok(TokenView::String(text)) => (s1, Ok(Some(TermView::String(text)))),
        Ok(TokenView::Resource(text)) => (s1, Ok(Some(TermView::Resource(text)))),
        Ok(TokenView::Int(i)) => (s1, Ok(Some(TermView::Int(i)))),
        Ok(TokenView::Float(bits)) => (s1, Ok(Some(TermView::Float(bits)))),
        Ok(TokenView::Punct(Punctuation::LParen)) => {
            let (s2, inner) = required(expression(s1, false));
            match inner {
                Err(e) => (s2, Err(e)),
                Ok(inner) => {
                    let (s3, close) = required(s2.exact(punct(Punctuation::RParen)));
                    match close {
                        Err(e) => (s3, Err(e)),
                        Ok(_) => (s3, Ok(Some(TermView::Expr(Box::new(inner))))),
                    }
                },
            }
        },
        Ok(t) => (s1.put_back(t), Ok(None)),
    }
}

/// What follows the word `new`: a type name or a type-path literal or
/// neither, and then an argument list or none.
pub open spec fn new_term(s: SourceView) -> (SourceView, SpecStatus<TermView>)
    decreases s.remaining(), 2nat,
{
    let (s1, name) = s.ident();
    proof {
        lemma_steps(s, TokenView::Eof);
    }
    match name {
        Err(e) => (s1, Err(e)),
        Ok(Some(name)) => new_arguments(s1, NewTypeView::Ident(name)),
        Ok(None) => {
            let (s2, literal) = prefab(s1);
            match literal {
                Err(e) => (s2, Err(e)),
                Ok(found) => if s2.remaining() <= s.remaining() {
                    new_arguments(
                        s2,
                        match found {
                            Some(p) => NewTypeView::Prefab(p),
                            None => NewTypeView::Implicit,
                        },
                    )
                } else {
                    stuck(s2)
                },
            }
        },
    }
}

/// The arguments of a `new` expression, if there are any.
pub open spec fn new_arguments(s: SourceView, type_: NewTypeView) -> (SourceView, SpecStatus<TermView>)
    decreases s.remaining(), 1nat,
{
    let (s1, args) = arguments(s);
    match args {
        Err(e) => (s1, Err(e)),
        Ok(args) => (s1, Ok(Some(TermView::New { type_, args }))),
    }
}

/// A type-path literal: a separator and an identifier, further segments,
/// and overrides between braces if a brace follows.
pub open spec fn prefab(s: SourceView) -> (SourceView, SpecStatus<PrefabView>)
    decreases s.remaining(), 0nat,
{
    let (s1, sep) = s.path_separator();
    match sep {
        Err(e) => (s1, Err(e)),
        Ok(None) => (s1, Ok(None)),
        Ok(Some(op)) => {
            let (s2, name) = required(s1.ident());
            match name {
                Err(e) => (s2, Err(e)),
                Ok(name) => {
                    let (s3, path) = prefab_path(s2, seq![(op, name)]);
                    match path {
                        Err(e) => (s3, Err(e)),
                        Ok(path) => {
                            let (s4, brace) = s3.exact(punct(Punctuation::LBrace));
                            let bare = PrefabView { path, vars: Seq::empty() };
                            proof {
                                lemma_steps(s, TokenView::Eof);
                                lemma_steps(s1, TokenView::Eof);
                                lemma_require(s1.ident().0, s1.ident().1);
                                lemma_prefab_path(s2, seq![(op, name)]);
                                lemma_steps(s3, punct(Punctuation::LBrace));
                            }
                            match brace {
                                Err(e) => (s4, Err(e)),
                                Ok(None) => (s4, Ok(Some(bare))),
                                Ok(Some(_)) => {
                                    let (s5, vars) = separated(
                                        s4,
                                        Punctuation::Semicolon,
                                        Punctuation::RBrace,
                                        CollectedView::Vars(bare),
                                    );
                                    match vars {
                                        Err(e) => (s5, Err(e)),
                                        Ok(Some(c)) => (s5, Ok(Some(c.prefab(path)))),
                                        Ok(None) => (s5, Ok(Some(bare))),
                                    }
                                },
                            }
                        },
                    }
                },
            }
        },
    }
}

/// A parenthesized, comma-separated list of expressions.
pub open spec fn arguments(s: SourceView) -> (SourceView, SpecStatus<Seq<ExpressionView>>)
    decreases s.remaining(), 0nat,
{
    let (s1, paren) = s.exact(punct(Punctuation::LParen));
    proof {
        lemma_steps(s, punct(Punctuation::LParen));
    }
    match paren {
        Err(e) => (s1, Err(e)),
        Ok(None) => (s1, Ok(None)),
        Ok(Some(_)) => {
            let (s2, list) = required(comma_sep(s1, Punctuation::RParen, CollectedView::Arguments(Seq::empty())));
            match list {
                Err(e) => (s2, Err(e)),
                Ok(c) => (s2, Ok(Some(c.arguments()))),
            }
        },
    }
}

/// A parenthesized, comma-separated list of entries, each an expression or
/// a key, `=` and a value.
pub open spec fn list_arguments(s: SourceView) -> (SourceView, SpecStatus<Seq<(ExpressionView, Option<ExpressionView>)>>)
    decreases s.remaining(), 0nat,
{
    let (s1, paren) = s.exact(punct(Punctuation::LParen));
    proof {
        lemma_steps(s, punct(Punctuation::LParen));
    }
    match paren {
        Err(e) => (s1, Err(e)),
        Ok(None) => (s1, Ok(None)),
        Ok(Some(_)) => {
            let (s2, list) = required(comma_sep(s1, Punctuation::RParen, CollectedView::Entries(Seq::empty())));
            match list {
                Err(e) => (s2, Err(e)),
                Ok(c) => (s2, Ok(Some(c.entries()))),
            }
        },
    }
}

pub open spec fn comma_sep(s: SourceView, terminator: Punctuation, collected: CollectedView) -> (SourceView, SpecStatus<CollectedView>)
    decreases s.remaining(), 7nat,
{
    separated(s, Punctuation::Comma, terminator, collected)
}

/// A list of elements up to `terminator`, with `sep` between them. What the
/// elements are follows from what is being collected.
pub open spec fn separated(s: SourceView, sep: Punctuation, terminator: Punctuation, collected: CollectedView) -> (SourceView, SpecStatus<CollectedView>)
    decreases s.remaining(), 6nat,
{
    separated_from(s, sep, terminator, false, collected)
}

/// The rest of a separated list. A separator is legal only right after an
/// element, an element only at the start or right after a separator.
pub open spec fn separated_from(
    s: SourceView,
    sep: Punctuation,
    terminator: Punctuation,
    comma_legal: bool,
    collected: CollectedView,
) -> (SourceView, SpecStatus<CollectedView>)
    decreases s.remaining(), 5nat,
{
    let (s1, got) = s.pull("list element"@);
    proof {
        lemma_peek(s, "list element"@);
    }
    match got {
        Err(e) => (s1, Err(e)),
        Ok(t) => if t == punct(terminator) {
            (s1, Ok(Some(collected)))
        } else if comma_legal && t == punct(sep) {
            separated_from(s1, sep, terminator, false, collected)
        } else if !comma_legal {
            let (s2, grown) = element(s1.put_back(t), collected);
            match grown {
                Err(e) => (s2, Err(e)),
                Ok(grown) => if s2.remaining() < s.remaining() {
                    separated_from(s2, sep, terminator, true, grown)
                } else {
                    stuck(s2)
                },
            }
        } else {
            (s1.put_back(t).syntax_error().0, Err(s1.put_back(t).syntax_error().1))
        },
    }
}

/// One element of a separated list, added to what has been collected: an
/// argument; an entry of a list literal, in whose key `=` is no operator; or
/// an override, which is a name, `=` and an expression.
pub open spec fn element(s: SourceView, collected: CollectedView) -> (SourceView, Result<CollectedView, DMErrorView>)
    decreases s.remaining(), 4nat,
{
    match collected {
        CollectedView::Arguments(args) => {
            let (s1, e) = required(expression(s, false));
            match e {
                Err(e) => (s1, Err(e)),
                Ok(e) => (s1, Ok(CollectedView::Arguments(args.push(e)))),
            }
        },
        CollectedView::Entries(entries) => {
            let (s1, key) = required(expression(s, true));
            match key {
                Err(e) => (s1, Err(e)),
                Ok(key) => {
                    let (s2, assign) = s1.exact(punct(Punctuation::Assign));
                    match assign {
                        Err(e) => (s2, Err(e)),
                        Ok(None) => (s2, Ok(CollectedView::Entries(entries.push((key, None))))),
                        Ok(Some(_)) => if s2.remaining() < s.remaining() {
                            let (s3, value) = required(expression(s2, false));
                            match value {
                                Err(e) => (s3, Err(e)),
                                Ok(value) => (s3, Ok(CollectedView::Entries(entries.push((key, Some(value)))))),
                            }
                        } else {
                            stuck(s2)
                        },
                    }
                },
            }
        },
        CollectedView::Vars(p) => {
            let (s1, name) = required(s.ident());
            match name {
                Err(e) => (s1, Err(e)),
                Ok(name) => {
                    let (s2, assign) = required(s1.exact(punct(Punctuation::Assign)));
                    proof {
                        lemma_steps(s, TokenView::Eof);
                        lemma_require(s.ident().0, s.ident().1);
                        lemma_steps(s1, punct(Punctuation::Assign));
                        lemma_require(
                            s1.exact(punct(Punctuation::Assign)).0,
                            s1.exact(punct(Punctuation::Assign)).1,
                        );
                    }
                    match assign {
                        Err(e) => (s2, Err(e)),
                        Ok(_) => {
                            let (s3, value) = required(expression(s2, false));
                            match value {
                                Err(e) => (s3, Err(e)),
                                Ok(value) => (
                                    s3,
                                    Ok(CollectedView::Vars(PrefabView { path: p.path, vars: with_entry(p.vars, name, value) })),
                                ),
                            }
                        },
                    }
                },
            }
        },
    }
}

} // verus!
