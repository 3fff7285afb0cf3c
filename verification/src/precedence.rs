//! How three operands and two operators between them are joined: the
//! stronger operator binds first; of two operators of one strength the
//! first binds first, unless they assign, where the second does.

use vstd::prelude::*;
use crate::ast::{ExpressionView, FollowView, TermView, UnaryOp};
use crate::grammar::{
    expression, expression_part, expression_run, expression_tail, fold, fold_left, fold_right, follow,
    follows, group, operator_of, required, term, unary_ops,
};
use crate::lexer::{Punctuation, TokenView};
use crate::location::DMErrorView;
use crate::ops::{lemma_operator_table, Op, OpInfo};
use crate::source::{lemma_pull_reads_upcoming, lemma_put_back_upcoming, lemma_require, punct, SourceView};

verus! {

/// The term that a literal is by itself.
pub open spec fn literal(token: TokenView) -> Option<TermView> {
    match token {
        TokenView::Int(i) => Some(TermView::Int(i)),
        TokenView::Float(bits) => Some(TermView::Float(bits)),
        TokenView::String(text) => Some(TermView::String(text)),
        TokenView::Resource(text) => Some(TermView::Resource(text)),
        _ => None,
    }
}

/// A term without prefix operators and postfix operations.
pub open spec fn operand(term: TermView) -> ExpressionView {
    ExpressionView::Base { unary: Seq::empty(), term, follow: Seq::empty() }
}

/// The token begins no postfix operation.
pub open spec fn begins_no_follow(token: TokenView) -> bool {
    &&& token != punct(Punctuation::Dot)
    &&& token != punct(Punctuation::LBracket)
    &&& !(token matches TokenView::Ident(word, _) && word == "as"@)
}

/// Three operands with two operators between them, as one expression.
pub open spec fn joined(a: ExpressionView, first: OpInfo, b: ExpressionView, second: OpInfo, c: ExpressionView) -> ExpressionView {
    if second.strength > first.strength || (second.strength == first.strength && first.right_binding) {
        first.oper.build_spec(a, second.oper.build_spec(b, c))
    } else {
        second.oper.build_spec(first.oper.build_spec(a, b), c)
    }
}

/// A literal that no postfix operation follows is a group by itself. The
/// token after it stays unread.
#[verifier::rlimit(40)]
pub proof fn lemma_literal_group(s: SourceView, token: TokenView, after: TokenView)
    requires
        s.upcoming().len() >= 2,
        s.upcoming()[0] == Ok::<TokenView, DMErrorView>(token),
        s.upcoming()[1] == Ok::<TokenView, DMErrorView>(after),
        literal(token) is Some,
        begins_no_follow(after),
    ensures
        group(s).1 == Ok::<Option<ExpressionView>, DMErrorView>(Some(operand(literal(token)->0))),
        group(s).0.upcoming() == s.upcoming().drop_first(),
        group(s).0.next is Some,
{
    let u = s.upcoming();
    let none = Seq::<UnaryOp>::empty();
    // no prefix operator
    lemma_pull_reads_upcoming(s, "unary operator"@);
    let s1 = s.pull("unary operator"@).0;
    lemma_put_back_upcoming(s1, token);
    let s2 = s1.put_back(token);
    assert(s2.upcoming() =~= u);
    assert(unary_ops(s, none) == (s2, Ok::<Seq<UnaryOp>, DMErrorView>(none)));
    // the term
    lemma_pull_reads_upcoming(s2, "term"@);
    let s3 = s2.pull("term"@).0;
    assert(term(s2) == (s3, Ok::<Option<TermView>, DMErrorView>(literal(token))));
    // no postfix operation
    let d = "field, index, or function call"@;
    lemma_pull_reads_upcoming(s3, d);
    assert(s3.upcoming()[0] == u[1]);
    let s4 = s3.pull(d).0;
    lemma_put_back_upcoming(s4, after);
    let s5 = s4.put_back(after);
    assert(s5.upcoming() =~= u.drop_first());
    assert(follow(s3) == (s5, Ok::<Option<FollowView>, DMErrorView>(None)));
    assert(follows(s3, Seq::empty()) == (s5, Ok::<Seq<FollowView>, DMErrorView>(Seq::empty())));
    lemma_pull_reads_upcoming(s, ""@);
    lemma_pull_reads_upcoming(s3, ""@);
}

/// A run ends where no operator comes: the operands collected are joined,
/// and the token that ended the run stays unread.
pub proof fn lemma_run_ends(
    s: SourceView,
    bits: Seq<ExpressionView>,
    ops: Seq<Op>,
    rhs: ExpressionView,
    prev_op: OpInfo,
    disallow_assign: bool,
    end: TokenView,
)
    requires
        s.upcoming().len() >= 1,
        s.upcoming()[0] == Ok::<TokenView, DMErrorView>(end),
        operator_of(end, disallow_assign) is None,
    ensures
        expression_run(s, bits, ops, rhs, prev_op, disallow_assign).1 == Ok::<Option<ExpressionView>, DMErrorView>(
            Some(fold(bits, ops, rhs, prev_op.right_binding)),
        ),
        expression_run(s, bits, ops, rhs, prev_op, disallow_assign).0.upcoming() == s.upcoming(),
        expression_run(s, bits, ops, rhs, prev_op, disallow_assign).0.next is Some,
{
    lemma_pull_reads_upcoming(s, "binary operator"@);
    let s1 = s.pull("binary operator"@).0;
    lemma_put_back_upcoming(s1, end);
    assert(s1.put_back(end).upcoming() =~= s.upcoming());
}

/// An expression ends where no operator comes, and the token that ended it
/// stays unread.
pub proof fn lemma_tail_ends(s: SourceView, lhs: ExpressionView, disallow_assign: bool, end: TokenView)
    requires
        s.upcoming().len() >= 1,
        s.upcoming()[0] == Ok::<TokenView, DMErrorView>(end),
        operator_of(end, disallow_assign) is None,
    ensures
        expression_tail(s, lhs, disallow_assign).1 == Ok::<Option<ExpressionView>, DMErrorView>(Some(lhs)),
        expression_tail(s, lhs, disallow_assign).0.upcoming() == s.upcoming(),
{
    lemma_pull_reads_upcoming(s, "binary operator"@);
    let s1 = s.pull("binary operator"@).0;
    lemma_put_back_upcoming(s1, end);
    assert(s1.put_back(end).upcoming() =~= s.upcoming());
}

/// One operand joined to the operand after it.
pub proof fn lemma_fold_one(a: ExpressionView, op: Op, b: ExpressionView, right_binding: bool)
    ensures
        fold(seq![a], seq![op], b, right_binding) == op.build_spec(a, b),
{
    let bits = seq![a];
    let ops = seq![op];
    assert(bits.drop_last() =~= Seq::<ExpressionView>::empty());
    assert(fold_right(bits, ops, b) == fold_right(bits.drop_last(), ops, op.build_spec(a, b)));
    assert(fold_right(Seq::<ExpressionView>::empty(), ops, op.build_spec(a, b)) == op.build_spec(a, b));
}

/// Two operands joined to the operand after them: from the left, or from
/// the right.
pub proof fn lemma_fold_two(a: ExpressionView, first: Op, b: ExpressionView, second: Op, c: ExpressionView, right_binding: bool)
    ensures
        fold(seq![a, b], seq![first, second], c, right_binding) == if right_binding {
            first.build_spec(a, second.build_spec(b, c))
        } else {
            second.build_spec(first.build_spec(a, b), c)
        },
{
    let bits = seq![a, b];
    let ops = seq![first, second];
    assert(bits.drop_last() =~= seq![a]);
    assert(seq![a].drop_last() =~= Seq::<ExpressionView>::empty());
    let inner = second.build_spec(b, c);
    assert(fold_right(bits, ops, c) == fold_right(seq![a], ops, inner));
    assert(fold_right(seq![a], ops, inner) == fold_right(Seq::<ExpressionView>::empty(), ops, first.build_spec(a, inner)));
    assert(fold_right(Seq::<ExpressionView>::empty(), ops, first.build_spec(a, inner)) == first.build_spec(a, inner));
    assert(fold_left(seq![a], ops, b) == first.build_spec(a, b));
    assert(fold_left(bits, ops, c) == second.build_spec(fold_left(seq![a], ops, b), c));
}

/// A run of one operator between two literals, where a token that is no
/// operator follows: the two are joined, and that token stays unread.
pub proof fn lemma_single_run(
    s: SourceView,
    lhs: ExpressionView,
    info: OpInfo,
    token: TokenView,
    end: TokenView,
    disallow_assign: bool,
)
    requires
        s.upcoming().len() >= 2,
        s.upcoming()[0] == Ok::<TokenView, DMErrorView>(token),
        s.upcoming()[1] == Ok::<TokenView, DMErrorView>(end),
        literal(token) is Some,
        begins_no_follow(end),
        operator_of(end, disallow_assign) is None,
    ensures
        expression_part(s, lhs, info, disallow_assign).1 == Ok::<Option<ExpressionView>, DMErrorView>(
            Some(info.oper.build_spec(lhs, operand(literal(token)->0))),
        ),
        expression_part(s, lhs, info, disallow_assign).0.upcoming() == s.upcoming().drop_first(),
        expression_part(s, lhs, info, disallow_assign).0.next is Some,
{
    let rhs = operand(literal(token)->0);
    lemma_literal_group(s, token, end);
    let s1 = group(s).0;
    lemma_pull_reads_upcoming(s, ""@);
    lemma_pull_reads_upcoming(s1, ""@);
    assert(required(group(s)) == (s1, Ok::<ExpressionView, DMErrorView>(rhs)));
    assert(s1.upcoming()[0] == s.upcoming()[1]);
    lemma_run_ends(s1, seq![lhs], seq![info.oper], rhs, info, disallow_assign, end);
    lemma_fold_one(lhs, info.oper, rhs, info.right_binding);
}

/// After an operand of a run, a stronger operator comes, a literal, and a
/// token that continues nothing: the stronger operator joins the operand
/// and the literal, and the run joins the result.
pub proof fn lemma_run_stronger(
    s: SourceView,
    a: ExpressionView,
    info1: OpInfo,
    b: ExpressionView,
    second: Punctuation,
    z: TokenView,
    end: TokenView,
    disallow_assign: bool,
)
    requires
        s.upcoming().len() >= 3,
        s.upcoming()[0] == Ok::<TokenView, DMErrorView>(punct(second)),
        s.upcoming()[1] == Ok::<TokenView, DMErrorView>(z),
        s.upcoming()[2] == Ok::<TokenView, DMErrorView>(end),
        literal(z) is Some,
        operator_of(punct(second), disallow_assign) matches Some(info2) && info2.strength > info1.strength,
        operator_of(end, disallow_assign) is None,
        begins_no_follow(end),
    ensures
        expression_run(s, seq![a], seq![info1.oper], b, info1, disallow_assign).1 == Ok::<
            Option<ExpressionView>,
            DMErrorView,
        >(
            Some(
                info1.oper.build_spec(
                    a,
                    operator_of(punct(second), disallow_assign)->0.oper.build_spec(b, operand(literal(z)->0)),
                ),
            ),
        ),
        expression_run(s, seq![a], seq![info1.oper], b, info1, disallow_assign).0.upcoming()
            == s.upcoming().subrange(2, s.upcoming().len() as int),
{
    let u = s.upcoming();
    let da = disallow_assign;
    let d = "binary operator"@;
    let info2 = operator_of(punct(second), da)->0;
    let c = operand(literal(z)->0);
    lemma_pull_reads_upcoming(s, d);
    let s4 = s.pull(d).0;
    assert(s4.upcoming() =~= u.subrange(1, u.len() as int));
    lemma_pull_reads_upcoming(s4, ""@);
    lemma_single_run(s4, b, info2, z, end, da);
    let inner = expression_part(s4, b, info2, da);
    let bc = info2.oper.build_spec(b, c);
    assert(inner.0.upcoming() =~= u.subrange(2, u.len() as int));
    lemma_require(inner.0, inner.1);
    assert(required(inner) == (inner.0, Ok::<ExpressionView, DMErrorView>(bc)));
    lemma_pull_reads_upcoming(inner.0, ""@);
    lemma_run_ends(inner.0, seq![a], seq![info1.oper], bc, info1, da, end);
    lemma_fold_one(a, info1.oper, bc, info1.right_binding);
}

/// After an operand of a run, an operator of the same strength comes, a
/// literal, and a token that continues nothing: the run has three operands.
pub proof fn lemma_run_equal(
    s: SourceView,
    a: ExpressionView,
    info1: OpInfo,
    b: ExpressionView,
    second: Punctuation,
    z: TokenView,
    end: TokenView,
    disallow_assign: bool,
)
    requires
        s.upcoming().len() >= 3,
        s.upcoming()[0] == Ok::<TokenView, DMErrorView>(punct(second)),
        s.upcoming()[1] == Ok::<TokenView, DMErrorView>(z),
        s.upcoming()[2] == Ok::<TokenView, DMErrorView>(end),
        literal(z) is Some,
        operator_of(punct(second), disallow_assign) matches Some(info2) && info2.strength == info1.strength,
        operator_of(end, disallow_assign) is None,
        begins_no_follow(end),
    ensures
        expression_run(s, seq![a], seq![info1.oper], b, info1, disallow_assign).1 == Ok::<
            Option<ExpressionView>,
            DMErrorView,
        >(
            Some(
                fold(
                    seq![a, b],
                    seq![info1.oper, operator_of(punct(second), disallow_assign)->0.oper],
                    operand(literal(z)->0),
                    info1.right_binding,
                ),
            ),
        ),
        expression_run(s, seq![a], seq![info1.oper], b, info1, disallow_assign).0.upcoming()
            == s.upcoming().subrange(2, s.upcoming().len() as int),
{
    let u = s.upcoming();
    let da = disallow_assign;
    let d = "binary operator"@;
    let info2 = operator_of(punct(second), da)->0;
    let c = operand(literal(z)->0);
    lemma_pull_reads_upcoming(s, d);
    let s4 = s.pull(d).0;
    assert(s4.upcoming() =~= u.subrange(1, u.len() as int));
    lemma_pull_reads_upcoming(s4, ""@);
    lemma_literal_group(s4, z, end);
    let s5 = group(s4).0;
    assert(s5.upcoming() =~= u.subrange(2, u.len() as int));
    assert(required(group(s4)) == (s5, Ok::<ExpressionView, DMErrorView>(c)));
    lemma_pull_reads_upcoming(s5, ""@);
    let bits = seq![a].push(b);
    let ops = seq![info1.oper].push(info2.oper);
    assert(bits =~= seq![a, b]);
    assert(ops =~= seq![info1.oper, info2.oper]);
    lemma_run_ends(s5, bits, ops, c, info1, da, end);
}

/// After an operand of a run a weaker operator comes: the run ends, and the
/// operator stays unread.
pub proof fn lemma_run_weaker(
    s: SourceView,
    a: ExpressionView,
    info1: OpInfo,
    b: ExpressionView,
    second: Punctuation,
    disallow_assign: bool,
)
    requires
        s.upcoming().len() >= 1,
        s.upcoming()[0] == Ok::<TokenView, DMErrorView>(punct(second)),
        operator_of(punct(second), disallow_assign) matches Some(info2) && info2.strength < info1.strength,
    ensures
        expression_run(s, seq![a], seq![info1.oper], b, info1, disallow_assign).1 == Ok::<
            Option<ExpressionView>,
            DMErrorView,
        >(Some(info1.oper.build_spec(a, b))),
        expression_run(s, seq![a], seq![info1.oper], b, info1, disallow_assign).0.upcoming() == s.upcoming(),
{
    let d = "binary operator"@;
    lemma_operator_table(second);
    lemma_pull_reads_upcoming(s, d);
    let s4 = s.pull(d).0;
    lemma_put_back_upcoming(s4, punct(second));
    assert(s4.put_back(punct(second)).upcoming() =~= s.upcoming());
    lemma_fold_one(a, info1.oper, b, info1.right_binding);
}

/// After an expression an operator comes, a literal, and a token that
/// continues nothing: the operator joins the expression and the literal.
pub proof fn lemma_tail_one_more(
    s: SourceView,
    lhs: ExpressionView,
    second: Punctuation,
    z: TokenView,
    end: TokenView,
    disallow_assign: bool,
)
    requires
        s.upcoming().len() >= 3,
        s.upcoming()[0] == Ok::<TokenView, DMErrorView>(punct(second)),
        s.upcoming()[1] == Ok::<TokenView, DMErrorView>(z),
        s.upcoming()[2] == Ok::<TokenView, DMErrorView>(end),
        literal(z) is Some,
        operator_of(punct(second), disallow_assign) is Some,
        operator_of(end, disallow_assign) is None,
        begins_no_follow(end),
    ensures
        expression_tail(s, lhs, disallow_assign).1 == Ok::<Option<ExpressionView>, DMErrorView>(
            Some(operator_of(punct(second), disallow_assign)->0.oper.build_spec(lhs, operand(literal(z)->0))),
        ),
        expression_tail(s, lhs, disallow_assign).0.upcoming() == s.upcoming().subrange(
            2,
            s.upcoming().len() as int,
        ),
{
    let u = s.upcoming();
    let da = disallow_assign;
    let d = "binary operator"@;
    let info2 = operator_of(punct(second), da)->0;
    let c = operand(literal(z)->0);
    lemma_pull_reads_upcoming(s, d);
    let s6 = s.pull(d).0;
    assert(s6.upcoming() =~= u.subrange(1, u.len() as int));
    lemma_pull_reads_upcoming(s6, ""@);
    lemma_single_run(s6, lhs, info2, z, end, da);
    let run = expression_part(s6, lhs, info2, da);
    assert(run.0.upcoming() =~= u.subrange(2, u.len() as int));
    lemma_require(run.0, run.1);
    lemma_pull_reads_upcoming(run.0, ""@);
    let whole = info2.oper.build_spec(lhs, c);
    lemma_tail_ends(run.0, whole, da, end);
    assert(expression_tail(s, lhs, da) == expression_tail(run.0, whole, da));
}

/// Three literals with two operators between them, where a token follows
/// that continues nothing: the stronger operator binds first; of two of one
/// strength the first does, unless they bind to the right, as the
/// assignment operators do. The token after them stays unread.
#[verifier::rlimit(40)]
pub proof fn theorem_three_operands(
    s: SourceView,
    x: TokenView,
    first: Punctuation,
    y: TokenView,
    second: Punctuation,
    z: TokenView,
    end: TokenView,
    disallow_assign: bool,
)
    requires
        s.upcoming().len() >= 6,
        s.upcoming()[0] == Ok::<TokenView, DMErrorView>(x),
        s.upcoming()[1] == Ok::<TokenView, DMErrorView>(punct(first)),
        s.upcoming()[2] == Ok::<TokenView, DMErrorView>(y),
        s.upcoming()[3] == Ok::<TokenView, DMErrorView>(punct(second)),
        s.upcoming()[4] == Ok::<TokenView, DMErrorView>(z),
        s.upcoming()[5] == Ok::<TokenView, DMErrorView>(end),
        literal(x) is Some,
        literal(y) is Some,
        literal(z) is Some,
        operator_of(punct(first), disallow_assign) is Some,
        operator_of(punct(second), disallow_assign) is Some,
        operator_of(end, disallow_assign) is None,
        begins_no_follow(end),
    ensures
        expression(s, disallow_assign).1 == Ok::<Option<ExpressionView>, DMErrorView>(
            Some(
                joined(
                    operand(literal(x)->0),
                    operator_of(punct(first), disallow_assign)->0,
                    operand(literal(y)->0),
                    operator_of(punct(second), disallow_assign)->0,
                    operand(literal(z)->0),
                ),
            ),
        ),
        expression(s, disallow_assign).0.upcoming() == s.upcoming().subrange(5, s.upcoming().len() as int),
{
    let u = s.upcoming();
    let da = disallow_assign;
    let d = "binary operator"@;
    let info1 = operator_of(punct(first), da)->0;
    let info2 = operator_of(punct(second), da)->0;
    let a = operand(literal(x)->0);
    let b = operand(literal(y)->0);
    let c = operand(literal(z)->0);
    let tail = u.subrange(5, u.len() as int);
    lemma_operator_table(first);
    lemma_operator_table(second);
    lemma_pull_reads_upcoming(s, ""@);
    // the first operand
    lemma_literal_group(s, x, punct(first));
    let s1 = group(s).0;
    lemma_pull_reads_upcoming(s1, d);
    assert(s1.upcoming() =~= u.subrange(1, u.len() as int));
    // the first operator
    let s2 = s1.pull(d).0;
    assert(s2.upcoming() =~= u.subrange(2, u.len() as int));
    lemma_pull_reads_upcoming(s2, ""@);
    // the second operand
    lemma_literal_group(s2, y, punct(second));
    let s3 = group(s2).0;
    assert(s3.upcoming() =~= u.subrange(3, u.len() as int));
    assert(required(group(s2)) == (s3, Ok::<ExpressionView, DMErrorView>(b)));
    lemma_pull_reads_upcoming(s3, ""@);
    let run = expression_run(s3, seq![a], seq![info1.oper], b, info1, da);
    assert(expression_part(s2, a, info1, da) == run);
    lemma_pull_reads_upcoming(run.0, ""@);
    lemma_require(run.0, run.1);
    if info2.strength > info1.strength {
        lemma_run_stronger(s3, a, info1, b, second, z, end, da);
        assert(run.0.upcoming() =~= tail);
        lemma_tail_ends(run.0, run.1->Ok_0->0, da, end);
    } else if info2.strength == info1.strength {
        lemma_run_equal(s3, a, info1, b, second, z, end, da);
        lemma_fold_two(a, info1.oper, b, info2.oper, c, info1.right_binding);
        assert(run.0.upcoming() =~= tail);
        lemma_tail_ends(run.0, run.1->Ok_0->0, da, end);
    } else {
        lemma_run_weaker(s3, a, info1, b, second, da);
        lemma_tail_one_more(run.0, info1.oper.build_spec(a, b), second, z, end, da);
        assert(run.0.upcoming().subrange(2, run.0.upcoming().len() as int) =~= tail);
    }
    assert(expression_tail(s1, a, da) == expression_tail(run.0, run.1->Ok_0->0, da));
}

} // verus!
