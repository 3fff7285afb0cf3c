//! Every rule of the grammar advances: it gives no token back beyond what
//! it has read; where it matches it has read at least one token; and where
//! what it looks for is not here, the tokens that will be read are the same
//! as before. So the conditions under which the definitions of the rules go
//! on always hold.

use vstd::prelude::*;
use crate::ast::{ExpressionView, FollowView, NewTypeView};
use crate::grammar::{
    arguments, comma_sep, element, expression, expression_part, expression_run, expression_tail, follow,
    follows, group, lemma_prefab_path, lemma_unary_ops, list_arguments, new_arguments, new_term, operator_of,
    prefab, prefab_path, required, separated, separated_from, term, unary_ops, CollectedView,
};
use crate::lexer::{Punctuation, TokenView};
use crate::ops::{Op, OpInfo};
use crate::parser::ParserView;
use crate::source::{advances, lemma_peek, lemma_require, lemma_steps, punct, SourceView, SpecStatus};
use crate::tree_rules::{
    entry_contents, insisted, lemma_list_size, lemma_proc_rest, lemma_tree_path_advances, list_size,
    read_any_tt, read_group, registering, tree_block, tree_entries, tree_entry, tree_path,
};

verus! {

/// The rule whose run from `s` is `ran` has advanced.
pub open spec fn rule_advances<T>(s: SourceView, ran: (SourceView, SpecStatus<T>)) -> bool {
    advances(s, ran.0, ran.1 matches Ok(Some(_)), ran.1 matches Ok(None))
}

/// An expression advances as every rule does.
pub proof fn lemma_expression(s: SourceView, disallow_assign: bool)
    ensures
        rule_advances(s, expression(s, disallow_assign)),
    decreases s.remaining(), 3nat,
{
    lemma_group(s);
    let (s1, first) = group(s);
    if let Ok(Some(e)) = first {
        lemma_expression_tail(s1, e, disallow_assign);
    }
}

/// What follows the first group of an expression gives no token back, and
/// is never "not here".
pub proof fn lemma_expression_tail(s: SourceView, lhs: ExpressionView, disallow_assign: bool)
    ensures
        expression_tail(s, lhs, disallow_assign).0.remaining() <= s.remaining(),
        !(expression_tail(s, lhs, disallow_assign).1 matches Ok(None)),
    decreases s.remaining(), 0nat,
{
    let (s1, got) = s.pull("binary operator"@);
    lemma_peek(s, "binary operator"@);
    if let Ok(t) = got {
        if let Some(info) = operator_of(t, disallow_assign) {
            let part = expression_part(s1, lhs, info, disallow_assign);
            lemma_expression_part(s1, lhs, info, disallow_assign);
            lemma_require(part.0, part.1);
            let (s2, part) = required(part);
            if let Ok(e) = part {
                lemma_expression_tail(s2, e, disallow_assign);
            }
        }
    }
}

/// A run of operators advances as every rule does, and is never "not here":
/// its first operand must be there.
pub proof fn lemma_expression_part(s: SourceView, lhs: ExpressionView, prev_op: OpInfo, disallow_assign: bool)
    ensures
        rule_advances(s, expression_part(s, lhs, prev_op, disallow_assign)),
        !(expression_part(s, lhs, prev_op, disallow_assign).1 matches Ok(None)),
    decreases s.remaining(), 3nat,
{
    lemma_group(s);
    lemma_require(group(s).0, group(s).1);
    let (s1, rhs) = required(group(s));
    if let Ok(rhs) = rhs {
        lemma_expression_run(s1, seq![lhs], seq![prev_op.oper], rhs, prev_op, disallow_assign);
    }
}

/// The rest of a run gives no token back, and is never "not here".
pub proof fn lemma_expression_run(
    s: SourceView,
    bits: Seq<ExpressionView>,
    ops: Seq<Op>,
    rhs: ExpressionView,
    prev_op: OpInfo,
    disallow_assign: bool,
)
    ensures
        expression_run(s, bits, ops, rhs, prev_op, disallow_assign).0.remaining() <= s.remaining(),
        !(expression_run(s, bits, ops, rhs, prev_op, disallow_assign).1 matches Ok(None)),
    decreases s.remaining(), 0nat,
{
    let (s1, got) = s.pull("binary operator"@);
    lemma_peek(s, "binary operator"@);
    if let Ok(t) = got {
        if let Some(info) = operator_of(t, disallow_assign) {
            if info.strength > prev_op.strength {
                let part = expression_part(s1, rhs, info, disallow_assign);
                lemma_expression_part(s1, rhs, info, disallow_assign);
                lemma_require(part.0, part.1);
                let (s2, operand) = required(part);
                if let Ok(operand) = operand {
                    lemma_expression_run(s2, bits, ops, operand, prev_op, disallow_assign);
                }
            } else if info.strength == prev_op.strength {
                lemma_group(s1);
                lemma_require(group(s1).0, group(s1).1);
                let (s2, operand) = required(group(s1));
                if let Ok(operand) = operand {
                    lemma_expression_run(s2, bits.push(rhs), ops.push(info.oper), operand, prev_op, disallow_assign);
                }
            }
        }
    }
}

/// A group advances as every rule does.
pub proof fn lemma_group(s: SourceView)
    ensures
        rule_advances(s, group(s)),
    decreases s.remaining(), 2nat,
{
    let (s1, unary) = unary_ops(s, Seq::empty());
    lemma_unary_ops(s, Seq::empty());
    if let Ok(unary) = unary {
        let (s2, found) = term(s1);
        lemma_term(s1);
        lemma_require(s2, found);
        let s3 = if unary.len() > 0 {
            required((s2, found)).0
        } else {
            s2
        };
        lemma_follows(s3, Seq::empty());
    }
}

/// Postfix operations give no token back.
pub proof fn lemma_follows(s: SourceView, found: Seq<FollowView>)
    ensures
        follows(s, found).0.remaining() <= s.remaining(),
    decreases s.remaining(), 1nat,
{
    lemma_follow(s);
    let (s1, next) = follow(s);
    if let Ok(Some(f)) = next {
        lemma_follows(s1, found.push(f));
    }
}

/// One postfix operation advances as every rule does.
pub proof fn lemma_follow(s: SourceView)
    ensures
        rule_advances(s, follow(s)),
    decreases s.remaining(), 0nat,
{
    let (s1, got) = s.pull("field, index, or function call"@);
    lemma_peek(s, "field, index, or function call"@);
    lemma_steps(s1, punct(Punctuation::RBracket));
    lemma_require(s1.ident().0, s1.ident().1);
    match got {
        Ok(TokenView::Punct(Punctuation::Dot)) => {
            lemma_arguments(required(s1.ident()).0);
        },
        Ok(TokenView::Punct(Punctuation::LBracket)) => {
            lemma_expression(s1, false);
            let index = expression(s1, false);
            lemma_require(index.0, index.1);
            let s2 = required(index).0;
            lemma_steps(s2, punct(Punctuation::RBracket));
            lemma_require(s2.exact(punct(Punctuation::RBracket)).0, s2.exact(punct(Punctuation::RBracket)).1);
        },
        _ => {},
    }
}

/// A term advances as every rule does.
pub proof fn lemma_term(s: SourceView)
    ensures
        rule_advances(s, term(s)),
    decreases s.remaining(), 1nat,
{
    let (s1, got) = s.pull("term"@);
    lemma_peek(s, "term"@);
    match got {
        Ok(TokenView::Ident(word, ws)) => {
            lemma_new_term(s1);
            lemma_list_arguments(s1);
            lemma_arguments(s1);
        },
        Ok(TokenView::Punct(Punctuation::LParen)) => {
            lemma_expression(s1, false);
            let inner = expression(s1, false);
            lemma_require(inner.0, inner.1);
            let s2 = required(inner).0;
            lemma_steps(s2, punct(Punctuation::RParen));
            lemma_require(s2.exact(punct(Punctuation::RParen)).0, s2.exact(punct(Punctuation::RParen)).1);
        },
        Ok(t) => {
            lemma_prefab(s1.put_back(t));
            let literal = prefab(s1.put_back(t));
            lemma_require(literal.0, literal.1);
        },
        _ => {},
    }
}

/// What follows the word `new` gives no token back, and is never "not
/// here": the word alone is a term.
pub proof fn lemma_new_term(s: SourceView)
    ensures
        new_term(s).0.remaining() <= s.remaining(),
        !(new_term(s).1 matches Ok(None)),
    decreases s.remaining(), 2nat,
{
    let (s1, name) = s.ident();
    lemma_steps(s, TokenView::Eof);
    match name {
        Ok(Some(name)) => lemma_new_arguments(s1, NewTypeView::Ident(name)),
        Ok(None) => {
            lemma_prefab(s1);
            let (s2, literal) = prefab(s1);
            if let Ok(found) = literal {
                lemma_new_arguments(
                    s2,
                    match found {
                        Some(p) => NewTypeView::Prefab(p),
                        None => NewTypeView::Implicit,
                    },
                );
            }
        },
        _ => {},
    }
}

/// The arguments of a `new` expression give no token back.
pub proof fn lemma_new_arguments(s: SourceView, type_: NewTypeView)
    ensures
        new_arguments(s, type_).0.remaining() <= s.remaining(),
        !(new_arguments(s, type_).1 matches Ok(None)),
    decreases s.remaining(), 1nat,
{
    lemma_arguments(s);
}

/// A type-path literal advances as every rule does.
pub proof fn lemma_prefab(s: SourceView)
    ensures
        rule_advances(s, prefab(s)),
    decreases s.remaining(), 0nat,
{
    let (s1, sep) = s.path_separator();
    lemma_steps(s, TokenView::Eof);
    if let Ok(Some(op)) = sep {
        lemma_steps(s1, TokenView::Eof);
        lemma_require(s1.ident().0, s1.ident().1);
        let (s2, name) = required(s1.ident());
        if let Ok(name) = name {
            let (s3, path) = prefab_path(s2, seq![(op, name)]);
            lemma_prefab_path(s2, seq![(op, name)]);
            if let Ok(path) = path {
                let (s4, brace) = s3.exact(punct(Punctuation::LBrace));
                lemma_steps(s3, punct(Punctuation::LBrace));
                if let Ok(Some(_)) = brace {
                    lemma_separated(
                        s4,
                        Punctuation::Semicolon,
                        Punctuation::RBrace,
                        CollectedView::Vars(crate::ast::PrefabView { path, vars: Seq::empty() }),
                    );
                }
            }
        }
    }
}

/// An argument list advances as every rule does.
pub proof fn lemma_arguments(s: SourceView)
    ensures
        rule_advances(s, arguments(s)),
    decreases s.remaining(), 0nat,
{
    let (s1, paren) = s.exact(punct(Punctuation::LParen));
    lemma_steps(s, punct(Punctuation::LParen));
    if let Ok(Some(_)) = paren {
        let list = comma_sep(s1, Punctuation::RParen, CollectedView::Arguments(Seq::empty()));
        lemma_comma_sep(s1, Punctuation::RParen, CollectedView::Arguments(Seq::empty()));
        lemma_require(list.0, list.1);
    }
}

/// The entries of a list literal advance as every rule does.
pub proof fn lemma_list_arguments(s: SourceView)
    ensures
        rule_advances(s, list_arguments(s)),
    decreases s.remaining(), 0nat,
{
    let (s1, paren) = s.exact(punct(Punctuation::LParen));
    lemma_steps(s, punct(Punctuation::LParen));
    if let Ok(Some(_)) = paren {
        let list = comma_sep(s1, Punctuation::RParen, CollectedView::Entries(Seq::empty()));
        lemma_comma_sep(s1, Punctuation::RParen, CollectedView::Entries(Seq::empty()));
        lemma_require(list.0, list.1);
    }
}

/// A comma-separated list reads at least its terminator, and is never "not
/// here".
pub proof fn lemma_comma_sep(s: SourceView, terminator: Punctuation, collected: CollectedView)
    ensures
        comma_sep(s, terminator, collected).0.remaining() <= s.remaining(),
        comma_sep(s, terminator, collected).1 is Ok ==> comma_sep(s, terminator, collected).0.remaining()
            < s.remaining(),
        !(comma_sep(s, terminator, collected).1 matches Ok(None)),
    decreases s.remaining(), 7nat,
{
    lemma_separated(s, Punctuation::Comma, terminator, collected);
}

/// A separated list reads at least its terminator, and is never "not
/// here".
pub proof fn lemma_separated(s: SourceView, sep: Punctuation, terminator: Punctuation, collected: CollectedView)
    ensures
        separated(s, sep, terminator, collected).0.remaining() <= s.remaining(),
        separated(s, sep, terminator, collected).1 is Ok ==> separated(s, sep, terminator, collected).0.remaining()
            < s.remaining(),
        !(separated(s, sep, terminator, collected).1 matches Ok(None)),
    decreases s.remaining(), 6nat,
{
    lemma_separated_from(s, sep, terminator, false, collected);
}

/// The rest of a separated list reads at least its terminator, and is
/// never "not here".
pub proof fn lemma_separated_from(
    s: SourceView,
    sep: Punctuation,
    terminator: Punctuation,
    comma_legal: bool,
    collected: CollectedView,
)
    ensures
        separated_from(s, sep, terminator, comma_legal, collected).0.remaining() <= s.remaining(),
        separated_from(s, sep, terminator, comma_legal, collected).1 is Ok ==> separated_from(
            s,
            sep,
            terminator,
            comma_legal,
            collected,
        ).0.remaining() < s.remaining(),
        !(separated_from(s, sep, terminator, comma_legal, collected).1 matches Ok(None)),
    decreases s.remaining(), 5nat,
{
    let (s1, got) = s.pull("list element"@);
    lemma_peek(s, "list element"@);
    if let Ok(t) = got {
        if t == punct(terminator) {
        } else if comma_legal && t == punct(sep) {
            lemma_separated_from(s1, sep, terminator, false, collected);
        } else if !comma_legal {
            lemma_element(s1.put_back(t), collected);
            let (s2, grown) = element(s1.put_back(t), collected);
            if let Ok(grown) = grown {
                lemma_separated_from(s2, sep, terminator, true, grown);
            }
        } else {
            lemma_require::<()>(s1.put_back(t), Ok(None));
        }
    }
}

/// An element of a separated list, where there is one, has read at least
/// one token.
pub proof fn lemma_element(s: SourceView, collected: CollectedView)
    ensures
        element(s, collected).0.remaining() <= s.remaining(),
        element(s, collected).1 is Ok ==> element(s, collected).0.remaining() < s.remaining(),
    decreases s.remaining(), 4nat,
{
    match collected {
        CollectedView::Arguments(_) => {
            lemma_expression(s, false);
            lemma_require(expression(s, false).0, expression(s, false).1);
        },
        CollectedView::Entries(_) => {
            lemma_expression(s, true);
            lemma_require(expression(s, true).0, expression(s, true).1);
            let (s1, key) = required(expression(s, true));
            if key is Ok {
                let (s2, assign) = s1.exact(punct(Punctuation::Assign));
                lemma_steps(s1, punct(Punctuation::Assign));
                if let Ok(Some(_)) = assign {
                    lemma_expression(s2, false);
                    lemma_require(expression(s2, false).0, expression(s2, false).1);
                }
            }
        },
        CollectedView::Vars(_) => {
            lemma_steps(s, TokenView::Eof);
            lemma_require(s.ident().0, s.ident().1);
            let (s1, name) = required(s.ident());
            if name is Ok {
                let assign = s1.exact(punct(Punctuation::Assign));
                lemma_steps(s1, punct(Punctuation::Assign));
                lemma_require(assign.0, assign.1);
                let (s2, assign) = required(assign);
                if assign is Ok {
                    lemma_expression(s2, false);
                    lemma_require(expression(s2, false).0, expression(s2, false).1);
                }
            }
        },
    }
}

/// A declaration advances as every rule does.
pub proof fn lemma_tree_entry(p: ParserView, parent: Seq<Seq<char>>, nested: bool)
    ensures
        rule_advances(p.source, (tree_entry(p, parent, nested).0.source, tree_entry(p, parent, nested).1)),
    decreases p.source.remaining(), 2nat,
{
    lemma_tree_path_advances(p.source);
    let (s1, found) = tree_path(p.source);
    if let Ok(Some((absolute, path))) = found {
        lemma_list_size(s1);
        let st2 = if absolute && nested {
            ParserView {
                warnings: p.warnings.push(
                    crate::path::PathWarningView { location: s1.location, path, enclosing: parent },
                ),
                ..p.at(s1)
            }
        } else {
            p.at(s1)
        };
        let (s3, size) = list_size(s1);
        if size is Ok {
            lemma_entry_contents(st2.at(s3), crate::tree_rules::full_path(parent, absolute, path));
        }
    }
}

/// What follows the path of a declaration gives no token back, and is never
/// "not here": a path alone is a declaration.
pub proof fn lemma_entry_contents(p: ParserView, path: Seq<Seq<char>>)
    ensures
        entry_contents(p, path).0.source.remaining() <= p.source.remaining(),
        !(entry_contents(p, path).1 matches Ok(None)),
    decreases p.source.remaining(), 1nat,
{
    let (s1, got) = p.source.pull("contents"@);
    lemma_peek(p.source, "contents"@);
    let st1 = p.at(s1);
    match got {
        Ok(TokenView::Punct(Punctuation::LBrace)) => {
            let (st2, added) = registering(st1, st1.tree.add_entry(s1.location, path));
            if added is Ok {
                let start = st2.at(s1.put_back(punct(Punctuation::LBrace)));
                lemma_tree_block(start, path, true);
                let block = tree_block(start, path, true);
                lemma_require(block.0.source, block.1);
            }
        },
        Ok(TokenView::Punct(Punctuation::Assign)) => {
            lemma_expression(s1, false);
            let value = expression(s1, false);
            lemma_require(value.0, value.1);
            let s2 = required(value).0;
            let semicolon = s2.exact(punct(Punctuation::Semicolon));
            lemma_steps(s2, punct(Punctuation::Semicolon));
            lemma_require(semicolon.0, semicolon.1);
        },
        Ok(TokenView::Punct(Punctuation::LParen)) => {
            lemma_proc_rest(s1.put_back(punct(Punctuation::LParen)));
        },
        _ => {},
    }
}

/// A block advances as every rule does.
pub proof fn lemma_tree_block(p: ParserView, parent: Seq<Seq<char>>, nested: bool)
    ensures
        rule_advances(p.source, (tree_block(p, parent, nested).0.source, tree_block(p, parent, nested).1)),
    decreases p.source.remaining(), 0nat,
{
    let brace = punct(Punctuation::LBrace);
    let (s1, open) = p.source.exact(brace);
    lemma_steps(p.source, brace);
    if let Ok(Some(_)) = open {
        lemma_tree_entries(p.at(s1), parent, nested, punct(Punctuation::RBrace));
        let entries = tree_entries(p.at(s1), parent, nested, punct(Punctuation::RBrace));
        lemma_require(entries.0.source, entries.1);
    }
}

/// Declarations up to a terminator read at least the terminator, and are
/// never "not here".
pub proof fn lemma_tree_entries(p: ParserView, parent: Seq<Seq<char>>, nested: bool, terminator: TokenView)
    ensures
        tree_entries(p, parent, nested, terminator).0.source.remaining() <= p.source.remaining(),
        tree_entries(p, parent, nested, terminator).1 is Ok ==> tree_entries(
            p,
            parent,
            nested,
            terminator,
        ).0.source.remaining() < p.source.remaining(),
        !(tree_entries(p, parent, nested, terminator).1 matches Ok(None)),
    decreases p.source.remaining(), 3nat,
{
    let d = crate::tree_rules::between_entries(terminator);
    let (s1, got) = p.source.pull(d);
    lemma_peek(p.source, d);
    if let Ok(t) = got {
        if t == terminator || t == TokenView::Eof {
        } else if t == punct(Punctuation::Semicolon) {
            lemma_tree_entries(p.at(s1), parent, nested, terminator);
        } else {
            let start = p.at(s1.put_back(t));
            lemma_tree_entry(start, parent, nested);
            let entry = tree_entry(start, parent, nested);
            lemma_require(entry.0.source, entry.1);
            let (st2, entry) = insisted(entry);
            if entry is Ok {
                lemma_tree_entries(st2, parent, nested, terminator);
            }
        }
    }
}

/// A token tree, where there is one, has read at least one token.
pub proof fn lemma_read_any_tt(s: SourceView, target: Seq<TokenView>)
    ensures
        read_any_tt(s, target).0.remaining() <= s.remaining(),
        read_any_tt(s, target).2 is Ok ==> read_any_tt(s, target).0.remaining() < s.remaining(),
        !(read_any_tt(s, target).2 matches Ok(None)),
    decreases s.remaining(), 0nat,
{
    let (s1, got) = s.pull("anything"@);
    lemma_peek(s, "anything"@);
    if let Ok(start) = got {
        if let Some(end) = crate::tree_rules::closer(start) {
            lemma_read_group(s1, target.push(start), end);
        }
    }
}

/// The token trees of a group, where they end, have read at least the token
/// that ends them.
pub proof fn lemma_read_group(s: SourceView, target: Seq<TokenView>, end: Punctuation)
    ensures
        read_group(s, target, end).0.remaining() <= s.remaining(),
        read_group(s, target, end).2 is Ok ==> read_group(s, target, end).0.remaining() < s.remaining(),
        !(read_group(s, target, end).2 matches Ok(None)),
    decreases s.remaining(), 1nat,
{
    let (s1, got) = s.pull("anything"@);
    lemma_peek(s, "anything"@);
    if let Ok(t) = got {
        if t != punct(end) {
            lemma_read_any_tt(s1.put_back(t), target);
            let (s2, grown, inner) = read_any_tt(s1.put_back(t), target);
            lemma_require(s2, inner);
            let (s3, inner) = s2.require(inner);
            if inner is Ok {
                lemma_read_group(s3, grown, end);
            }
        }
    }
}

} // verus!
