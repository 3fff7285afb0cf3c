//! What a `new` expression is made of: the type it names, if it names one,
//! and the arguments it gives, whatever their number.

use vstd::prelude::*;
use crate::ast::{ExpressionView, NewTypeView, PathOp, PrefabView, TermView};
use crate::grammar::{
    arguments, comma_sep, element, expression, new_arguments, new_term, prefab, prefab_path, required,
    separated, separated_from, term, CollectedView,
};
use crate::lexer::{Punctuation, TokenView};
use crate::location::DMErrorView;
use crate::precedence::{begins_no_follow, lemma_literal_group, lemma_tail_ends, literal, operand};
use crate::source::{lemma_pull_reads_upcoming, lemma_put_back_upcoming, lemma_require, punct, SourceView};
use crate::theorems::{is_ident, is_punct, spells_segments, Upcoming};

verus! {

/// The operands that a list of literals stands for.
pub open spec fn operands(literals: Seq<TokenView>) -> Seq<ExpressionView> {
    Seq::new(literals.len(), |i: int| operand(literal(literals[i])->0))
}

/// The tokens begin with the given literals, with commas between them.
pub open spec fn spells_list(tokens: Seq<Upcoming>, literals: Seq<TokenView>) -> bool {
    &&& tokens.len() >= 2 * literals.len() - 1
    &&& forall|i: int| 0 <= i < literals.len() ==> literal(#[trigger] literals[i]) is Some
    &&& forall|i: int| 0 <= i < literals.len() ==> #[trigger] tokens[2 * i] == Ok::<TokenView, DMErrorView>(literals[i])
    &&& forall|i: int| 0 <= i < literals.len() - 1 ==> is_punct(#[trigger] tokens[2 * i + 1], Punctuation::Comma)
}

/// How many tokens an argument list takes: its parentheses, its literals,
/// and the commas between them.
pub open spec fn list_length(literals: Seq<TokenView>) -> int {
    if literals.len() == 0 {
        2
    } else {
        2 * literals.len() as int + 1
    }
}

/// The tokens begin with an argument list of the given literals.
pub open spec fn spells_arguments(tokens: Seq<Upcoming>, literals: Seq<TokenView>) -> bool {
    &&& tokens.len() >= list_length(literals)
    &&& is_punct(tokens[0], Punctuation::LParen)
    &&& spells_list(tokens.subrange(1, tokens.len() as int), literals)
    &&& is_punct(tokens[list_length(literals) - 1], Punctuation::RParen)
}

/// The path that the segments `names` make with slashes.
pub open spec fn slash_path(names: Seq<Seq<char>>) -> Seq<(PathOp, Seq<char>)> {
    Seq::new(names.len(), |i: int| (PathOp::Slash, names[i]))
}

/// A literal that neither an operator nor a postfix operation follows is an
/// expression by itself. The token after it stays unread.
pub proof fn lemma_literal_expression(s: SourceView, token: TokenView, after: TokenView, disallow_assign: bool)
    requires
        s.upcoming().len() >= 2,
        s.upcoming()[0] == Ok::<TokenView, DMErrorView>(token),
        s.upcoming()[1] == Ok::<TokenView, DMErrorView>(after),
        literal(token) is Some,
        begins_no_follow(after),
        crate::grammar::operator_of(after, disallow_assign) is None,
    ensures
        expression(s, disallow_assign).1 == Ok::<Option<ExpressionView>, DMErrorView>(
            Some(operand(literal(token)->0)),
        ),
        expression(s, disallow_assign).0.upcoming() == s.upcoming().drop_first(),
        expression(s, disallow_assign).0.next is Some,
{
    lemma_literal_group(s, token, after);
    let s1 = crate::grammar::group(s).0;
    lemma_pull_reads_upcoming(s, ""@);
    lemma_pull_reads_upcoming(s1, ""@);
    lemma_tail_ends(s1, operand(literal(token)->0), disallow_assign, after);
    lemma_pull_reads_upcoming(s1, "binary operator"@);
    lemma_put_back_upcoming(s1.pull("binary operator"@).0, after);
}

/// Where an element is due and a literal comes that a comma or the closing
/// parenthesis follows, the literal is the element, and the list goes on
/// after it.
#[verifier::rlimit(40)]
pub proof fn lemma_literal_element(s: SourceView, collected: Seq<ExpressionView>, first: TokenView, after: TokenView)
    requires
        s.upcoming().len() >= 2,
        s.upcoming()[0] == Ok::<TokenView, DMErrorView>(first),
        s.upcoming()[1] == Ok::<TokenView, DMErrorView>(after),
        literal(first) is Some,
        after == punct(Punctuation::Comma) || after == punct(Punctuation::RParen),
    ensures
        exists|next: SourceView|
            {
                &&& #[trigger] separated_from(
                    next,
                    Punctuation::Comma,
                    Punctuation::RParen,
                    true,
                    CollectedView::Arguments(collected.push(operand(literal(first)->0))),
                ) == separated_from(
                    s,
                    Punctuation::Comma,
                    Punctuation::RParen,
                    false,
                    CollectedView::Arguments(collected),
                )
                &&& next.upcoming() == s.upcoming().drop_first()
            },
{
    let u = s.upcoming();
    let d = "list element"@;
    let x = operand(literal(first)->0);
    lemma_pull_reads_upcoming(s, d);
    let s1 = s.pull(d).0;
    lemma_put_back_upcoming(s1, first);
    let s2 = s1.put_back(first);
    assert(s2.upcoming() =~= u);
    lemma_literal_expression(s2, first, after, false);
    let s3 = expression(s2, false).0;
    lemma_require(s3, expression(s2, false).1);
    assert(element(s2, CollectedView::Arguments(collected)) == (
        s3,
        Ok::<CollectedView, DMErrorView>(CollectedView::Arguments(collected.push(x))),
    ));
    lemma_pull_reads_upcoming(s3, ""@);
    lemma_pull_reads_upcoming(s, ""@);
    assert(separated_from(
        s3,
        Punctuation::Comma,
        Punctuation::RParen,
        true,
        CollectedView::Arguments(collected.push(x)),
    ) == separated_from(s, Punctuation::Comma, Punctuation::RParen, false, CollectedView::Arguments(collected)));
}

/// Literals with commas between them, up to the closing parenthesis, are
/// collected in their order.
#[verifier::rlimit(40)]
pub proof fn lemma_separated_literals(s: SourceView, collected: Seq<ExpressionView>, literals: Seq<TokenView>)
    requires
        literals.len() >= 1,
        spells_list(s.upcoming(), literals),
        2 * literals.len() - 1 < s.upcoming().len(),
        is_punct(s.upcoming()[2 * literals.len() - 1], Punctuation::RParen),
    ensures
        separated_from(
            s,
            Punctuation::Comma,
            Punctuation::RParen,
            false,
            CollectedView::Arguments(collected),
        ).1 == Ok::<Option<CollectedView>, DMErrorView>(
            Some(CollectedView::Arguments(collected + operands(literals))),
        ),
        separated_from(
            s,
            Punctuation::Comma,
            Punctuation::RParen,
            false,
            CollectedView::Arguments(collected),
        ).0.upcoming() == s.upcoming().subrange(2 * literals.len() as int, s.upcoming().len() as int),
    decreases literals.len(),
{
    let u = s.upcoming();
    let n = literals.len() as int;
    let comma = Punctuation::Comma;
    let close = Punctuation::RParen;
    let d = "list element"@;
    let first = literals[0];
    let x = operand(literal(first)->0);
    let grown = CollectedView::Arguments(collected.push(x));
    assert(u[2 * 0int] == Ok::<TokenView, DMErrorView>(first));
    if n > 1 {
        assert(is_punct(u[2 * 0int + 1], comma));
    }
    lemma_literal_element(s, collected, first, u[1]->Ok_0);
    let s3 = choose|next: SourceView|
        {
            &&& #[trigger] separated_from(next, comma, close, true, grown) == separated_from(
                s,
                comma,
                close,
                false,
                CollectedView::Arguments(collected),
            )
            &&& next.upcoming() == u.drop_first()
        };
    // then the closing parenthesis, or a comma and the other literals
    lemma_pull_reads_upcoming(s3, d);
    let s4 = s3.pull(d).0;
    assert(s3.upcoming()[0] == u[1]);
    assert(s4.upcoming() =~= u.subrange(2, u.len() as int));
    if n == 1 {
        assert(separated_from(s3, comma, close, true, grown) == (
            s4,
            Ok::<Option<CollectedView>, DMErrorView>(Some(grown)),
        ));
        assert(collected.push(x) =~= collected + operands(literals));
    } else {
        let rest = literals.drop_first();
        let v = s4.upcoming();
        assert(separated_from(s3, comma, close, true, grown) == separated_from(s4, comma, close, false, grown));
        lemma_rest_of_list(u, v, literals);
        lemma_separated_literals(s4, collected.push(x), rest);
        assert(collected.push(x) + operands(rest) =~= collected + operands(literals));
        assert(v.subrange(2 * rest.len() as int, v.len() as int) =~= u.subrange(2 * n, u.len() as int));
    }
}

/// After the first literal and its comma, the tokens spell the other
/// literals.
pub proof fn lemma_rest_of_list(u: Seq<Upcoming>, v: Seq<Upcoming>, literals: Seq<TokenView>)
    requires
        literals.len() >= 2,
        spells_list(u, literals),
        2 * literals.len() - 1 < u.len(),
        v == u.subrange(2, u.len() as int),
    ensures
        spells_list(v, literals.drop_first()),
        v[2 * literals.drop_first().len() - 1] == u[2 * literals.len() - 1],
{
    let rest = literals.drop_first();
    assert forall|i: int| 0 <= i < rest.len() implies #[trigger] v[2 * i] == Ok::<TokenView, DMErrorView>(
        rest[i],
    ) by {
        assert(v[2 * i] == u[2 * (i + 1)]);
    }
    assert forall|i: int| 0 <= i < rest.len() - 1 implies is_punct(#[trigger] v[2 * i + 1], Punctuation::Comma) by {
        assert(v[2 * i + 1] == u[2 * (i + 1) + 1]);
    }
    assert forall|i: int| 0 <= i < rest.len() implies literal(#[trigger] rest[i]) is Some by {
        assert(rest[i] == literals[i + 1]);
    }
}

/// An argument list of literals gives the literals in their order. The
/// token after it is what is read next.
pub proof fn lemma_arguments_of_literals(s: SourceView, literals: Seq<TokenView>)
    requires
        spells_arguments(s.upcoming(), literals),
    ensures
        arguments(s).1 == Ok::<Option<Seq<ExpressionView>>, DMErrorView>(Some(operands(literals))),
        arguments(s).0.upcoming() == s.upcoming().subrange(list_length(literals), s.upcoming().len() as int),
{
    let u = s.upcoming();
    let open = punct(Punctuation::LParen);
    let none = Seq::<ExpressionView>::empty();
    lemma_pull_reads_upcoming(s, open.text());
    let s1 = s.exact(open).0;
    let v = s1.upcoming();
    assert(v =~= u.subrange(1, u.len() as int));
    let start = CollectedView::Arguments(none);
    if literals.len() == 0 {
        let d = "list element"@;
        lemma_pull_reads_upcoming(s1, d);
        assert(v[0] == u[1]);
        let s2 = s1.pull(d).0;
        assert(separated_from(s1, Punctuation::Comma, Punctuation::RParen, false, start) == (
            s2,
            Ok::<Option<CollectedView>, DMErrorView>(Some(start)),
        ));
        assert(s2.upcoming() =~= u.subrange(2, u.len() as int));
        assert(operands(literals) =~= none);
    } else {
        assert(v[2 * literals.len() - 1] == u[2 * literals.len() as int]);
        lemma_separated_literals(s1, none, literals);
        assert(none + operands(literals) =~= operands(literals));
        assert(v.subrange(2 * literals.len() as int, v.len() as int) =~= u.subrange(
            list_length(literals),
            u.len() as int,
        ));
    }
    let list = comma_sep(s1, Punctuation::RParen, start);
    assert(list == separated(s1, Punctuation::Comma, Punctuation::RParen, start));
    lemma_require(list.0, list.1);
}

/// The word `new` and an argument list of literals: the type is left to
/// the context, and the arguments are the literals in their order.
pub proof fn theorem_new_implicit(s: SourceView, whitespace: bool, literals: Seq<TokenView>)
    requires
        s.upcoming().len() >= 1 + list_length(literals),
        s.upcoming()[0] == Ok::<TokenView, DMErrorView>(TokenView::Ident("new"@, whitespace)),
        spells_arguments(s.upcoming().subrange(1, s.upcoming().len() as int), literals),
    ensures
        term(s).1 == Ok::<Option<TermView>, DMErrorView>(
            Some(TermView::New { type_: NewTypeView::Implicit, args: Some(operands(literals)) }),
        ),
        term(s).0.upcoming() == s.upcoming().subrange(
            1 + list_length(literals),
            s.upcoming().len() as int,
        ),
{
    let u = s.upcoming();
    let open = punct(Punctuation::LParen);
    lemma_pull_reads_upcoming(s, "term"@);
    let s1 = s.pull("term"@).0;
    let v = s1.upcoming();
    assert(v =~= u.subrange(1, u.len() as int));
    // no type name
    lemma_pull_reads_upcoming(s1, "identifier"@);
    let s2 = s1.pull("identifier"@).0;
    lemma_put_back_upcoming(s2, open);
    let s3 = s2.put_back(open);
    assert(s1.ident() == (s3, Ok::<Option<Seq<char>>, DMErrorView>(None)));
    assert(s3.upcoming() =~= v);
    // no type path
    lemma_pull_reads_upcoming(s3, "path separator"@);
    let s4 = s3.pull("path separator"@).0;
    lemma_put_back_upcoming(s4, open);
    let s5 = s4.put_back(open);
    assert(prefab(s3) == (s5, Ok::<Option<PrefabView>, DMErrorView>(None)));
    assert(s5.upcoming() =~= v);
    lemma_pull_reads_upcoming(s5, ""@);
    lemma_pull_reads_upcoming(s1, ""@);
    // the arguments
    lemma_arguments_of_literals(s5, literals);
    assert(v.subrange(list_length(literals), v.len() as int) =~= u.subrange(
        1 + list_length(literals),
        u.len() as int,
    ));
    assert(new_term(s1) == new_arguments(s5, NewTypeView::Implicit));
}

/// The segments of a type path after the first, each after a slash, where
/// a token follows that is no separator.
pub proof fn lemma_prefab_segments(s: SourceView, parts: Seq<(PathOp, Seq<char>)>, names: Seq<Seq<char>>, end: TokenView)
    requires
        spells_segments(s.upcoming(), names),
        2 * names.len() < s.upcoming().len(),
        s.upcoming()[2 * names.len() as int] == Ok::<TokenView, DMErrorView>(end),
        end != punct(Punctuation::Slash),
        end != punct(Punctuation::Dot),
        end != punct(Punctuation::Colon),
    ensures
        prefab_path(s, parts).1 == Ok::<Seq<(PathOp, Seq<char>)>, DMErrorView>(parts + slash_path(names)),
        prefab_path(s, parts).0.upcoming() == s.upcoming().subrange(
            2 * names.len() as int,
            s.upcoming().len() as int,
        ),
        prefab_path(s, parts).0.next is Some,
    decreases names.len(),
{
    let u = s.upcoming();
    let d = "path separator"@;
    lemma_pull_reads_upcoming(s, d);
    let s1 = s.pull(d).0;
    if names.len() > 0 {
        assert(is_punct(u[2 * 0int], Punctuation::Slash));
        assert(is_ident(u[2 * 0int + 1], names[0]));
        lemma_pull_reads_upcoming(s1, "identifier"@);
        assert(s1.upcoming()[0] == u[1]);
        let s2 = s1.pull("identifier"@).0;
        assert(s2.upcoming() =~= u.subrange(2, u.len() as int));
        let rest = names.drop_first();
        assert forall|i: int| 0 <= i < rest.len() implies is_punct(
            #[trigger] s2.upcoming()[2 * i],
            Punctuation::Slash,
        ) by {
            assert(s2.upcoming()[2 * i] == u[2 * (i + 1)]);
        }
        assert forall|i: int| 0 <= i < rest.len() implies is_ident(#[trigger] s2.upcoming()[2 * i + 1], rest[i]) by {
            assert(s2.upcoming()[2 * i + 1] == u[2 * (i + 1) + 1]);
        }
        assert(s2.upcoming()[2 * rest.len() as int] == u[2 * names.len() as int]);
        lemma_prefab_segments(s2, parts.push((PathOp::Slash, names[0])), rest, end);
        assert(parts.push((PathOp::Slash, names[0])) + slash_path(rest) =~= parts + slash_path(names));
        assert(s2.upcoming().subrange(2 * rest.len() as int, s2.upcoming().len() as int) =~= u.subrange(
            2 * names.len() as int,
            u.len() as int,
        ));
    } else {
        lemma_put_back_upcoming(s1, end);
        assert(s1.put_back(end).upcoming() =~= u.subrange(0, u.len() as int));
        assert(parts + slash_path(names) =~= parts);
    }
}

/// The word `new`, a type path of segments after slashes, and an argument
/// list of literals: the type is the path, without overrides, and the
/// arguments are the literals in their order.
#[verifier::rlimit(40)]
pub proof fn theorem_new_with_path(s: SourceView, whitespace: bool, names: Seq<Seq<char>>, literals: Seq<TokenView>)
    requires
        names.len() >= 1,
        s.upcoming().len() >= 1 + 2 * names.len() + list_length(literals),
        s.upcoming()[0] == Ok::<TokenView, DMErrorView>(TokenView::Ident("new"@, whitespace)),
        spells_segments(s.upcoming().subrange(1, s.upcoming().len() as int), names),
        spells_arguments(s.upcoming().subrange(1 + 2 * names.len() as int, s.upcoming().len() as int), literals),
    ensures
        term(s).1 == Ok::<Option<TermView>, DMErrorView>(
            Some(
                TermView::New {
                    type_: NewTypeView::Prefab(PrefabView { path: slash_path(names), vars: Seq::empty() }),
                    args: Some(operands(literals)),
                },
            ),
        ),
        term(s).0.upcoming() == s.upcoming().subrange(
            1 + 2 * names.len() + list_length(literals),
            s.upcoming().len() as int,
        ),
{
    let u = s.upcoming();
    let slash = punct(Punctuation::Slash);
    let open = punct(Punctuation::LParen);
    let k = 1 + 2 * names.len() as int;
    lemma_pull_reads_upcoming(s, "term"@);
    let s1 = s.pull("term"@).0;
    let v = s1.upcoming();
    assert(v =~= u.subrange(1, u.len() as int));
    assert(is_punct(v[2 * 0int], Punctuation::Slash));
    assert(is_ident(v[2 * 0int + 1], names[0]));
    // no type name
    lemma_pull_reads_upcoming(s1, "identifier"@);
    let s2 = s1.pull("identifier"@).0;
    lemma_put_back_upcoming(s2, slash);
    let s3 = s2.put_back(slash);
    assert(s1.ident() == (s3, Ok::<Option<Seq<char>>, DMErrorView>(None)));
    assert(s3.upcoming() =~= v);
    // the type path
    lemma_pull_reads_upcoming(s3, "path separator"@);
    let s4 = s3.pull("path separator"@).0;
    lemma_pull_reads_upcoming(s4, "identifier"@);
    assert(s4.upcoming()[0] == v[1]);
    let s5 = s4.pull("identifier"@).0;
    lemma_require(s5, Ok::<Option<Seq<char>>, DMErrorView>(Some(names[0])));
    let w = s5.upcoming();
    assert(w =~= v.subrange(2, v.len() as int));
    let rest = names.drop_first();
    assert forall|i: int| 0 <= i < rest.len() implies is_punct(#[trigger] w[2 * i], Punctuation::Slash) by {
        assert(w[2 * i] == v[2 * (i + 1)]);
    }
    assert forall|i: int| 0 <= i < rest.len() implies is_ident(#[trigger] w[2 * i + 1], rest[i]) by {
        assert(w[2 * i + 1] == v[2 * (i + 1) + 1]);
    }
    let args = u.subrange(k, u.len() as int);
    assert(args[0] == u[k]);
    assert(w[2 * rest.len() as int] == u[k]);
    lemma_prefab_segments(s5, seq![(PathOp::Slash, names[0])], rest, open);
    let s6 = prefab_path(s5, seq![(PathOp::Slash, names[0])]).0;
    assert(seq![(PathOp::Slash, names[0])] + slash_path(rest) =~= slash_path(names));
    assert(s6.upcoming() =~= args);
    // no overrides
    let brace = punct(Punctuation::LBrace);
    lemma_pull_reads_upcoming(s6, brace.text());
    let s7 = s6.pull(brace.text()).0;
    lemma_put_back_upcoming(s7, open);
    let s8 = s7.put_back(open);
    assert(s6.exact(brace) == (s8, Ok::<Option<()>, DMErrorView>(None)));
    assert(s8.upcoming() =~= args);
    let path = PrefabView { path: slash_path(names), vars: Seq::empty() };
    assert(prefab(s3) == (s8, Ok::<Option<PrefabView>, DMErrorView>(Some(path))));
    lemma_pull_reads_upcoming(s8, ""@);
    lemma_pull_reads_upcoming(s1, ""@);
    // the arguments
    lemma_arguments_of_literals(s8, literals);
    assert(args.subrange(list_length(literals), args.len() as int) =~= u.subrange(
        k + list_length(literals),
        u.len() as int,
    ));
    assert(new_term(s1) == new_arguments(s8, NewTypeView::Prefab(path)));
}

} // verus!
