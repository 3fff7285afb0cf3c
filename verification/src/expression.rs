//! The expression grammar: terms, groups, and runs of operators.
//!
//! None of these rules touches the object tree or the warnings.

use vstd::prelude::*;
use crate::ast::{
    expressions_view, follows_view, lemma_expressions_push, lemma_follows_push, lemma_list_push,
    lemma_views_empty, list_view, Expression, ExpressionView, Follow, FollowView, NewType, PathOp, Prefab,
    PrefabView, Term, UnaryOp,
};
use crate::grammar;
use crate::grammar::CollectedView;
use crate::lexer::{Punctuation, Token};
use crate::location::{DMError, DMErrorView};
use crate::ops::{find_operator, Op, OpInfo};
use crate::parser::Parser;
use crate::source::{lemma_peek, outcome, outcome_with, ran, ran_all, result_with, Status};

verus! {

/// What a separated list has collected.
pub enum Collected {
    Arguments(Vec<Expression>),
    Entries(Vec<(Expression, Option<Expression>)>),
    Vars(Prefab),
}

impl View for Collected {
    type V = CollectedView;

    open spec fn view(&self) -> CollectedView {
        match self {
            Collected::Arguments(v) => CollectedView::Arguments(expressions_view(v@)),
            Collected::Entries(v) => CollectedView::Entries(list_view(v@)),
            Collected::Vars(p) => CollectedView::Vars(p@),
        }
    }
}

/// Whether the text is the given word.
fn is_word(text: &String, word: &str) -> (b: bool)
    ensures
        b == (text@ == word@),
{
    *text == word.to_owned()
}

/// The operator that a token stands for.
fn operator_for(token: &Token, disallow_assign: bool) -> (row: Option<OpInfo>)
    ensures
        row == grammar::operator_of(token@, disallow_assign),
{
    match token {
        Token::Punct(p) => {
            if *p == Punctuation::Assign && disallow_assign {
                None
            } else {
                find_operator(*p)
            }
        },
        _ => None,
    }
}

/// Joins a run from the left.
fn fold_left(bits: Vec<Expression>, ops: &Vec<Op>, rhs: Expression) -> (e: Expression)
    requires
        1 <= bits@.len() <= ops@.len(),
    ensures
        e@ == grammar::fold_left(expressions_view(bits@), ops@, rhs@),
    decreases bits@.len(),
{
    let mut bits = bits;
    let ghost all = expressions_view(bits@);
    let n = bits.len();
    let last = bits.pop().unwrap();
    let op = ops[n - 1];
    assert(expressions_view(bits@) =~= all.drop_last());
    assert(last@ == all.last());
    if n == 1 {
        op.build(Box::new(last), Box::new(rhs))
    } else {
        let inner = fold_left(bits, ops, last);
        op.build(Box::new(inner), Box::new(rhs))
    }
}

/// Joins a run from the right.
fn fold_right(bits: Vec<Expression>, ops: &Vec<Op>, rhs: Expression) -> (e: Expression)
    requires
        bits@.len() <= ops@.len(),
    ensures
        e@ == grammar::fold_right(expressions_view(bits@), ops@, rhs@),
{
    let mut bits = bits;
    let mut result = rhs;
    let ghost all = expressions_view(bits@);
    while bits.len() > 0
        invariant
            bits@.len() <= ops@.len(),
            grammar::fold_right(expressions_view(bits@), ops@, result@) == grammar::fold_right(all, ops@, rhs@),
        decreases bits@.len(),
    {
        let ghost before = expressions_view(bits@);
        let n = bits.len();
        let bit = bits.pop().unwrap();
        assert(expressions_view(bits@) =~= before.drop_last());
        assert(bit@ == before.last());
        result = ops[n - 1].build(Box::new(bit), Box::new(result));
    }
    result
}

impl Parser {
    /// Reads an expression. With `disallow_assign`, `=` is no operator.
    pub fn expression(&mut self, disallow_assign: bool) -> (r: Status<Expression>)
        ensures
            final(self)@ == old(self)@.at(final(self)@.source),
            ran(old(self)@.source, final(self)@.source, outcome(r), grammar::expression(old(self)@.source, disallow_assign)),
        decreases old(self)@.source.remaining(), 3nat,
    {
        let mut expr = match self.group()? {
            Some(e) => e,
            None => {
                return Ok(None);
            },
        };
        loop
            invariant
                self@ == old(self)@.at(self@.source),
                self@.source.remaining() < old(self)@.source.remaining(),
                grammar::expression_tail(self@.source, expr@, disallow_assign) == grammar::expression(
                    old(self)@.source,
                    disallow_assign,
                ),
            decreases self@.source.remaining(),
        {
            let ghost at_top = self@.source;
            proof {
                lemma_peek(at_top, "binary operator"@);
            }
            let next = self.next("binary operator")?;
            let info = match operator_for(&next, disallow_assign) {
                Some(info) => info,
                None => {
                    self.put_back(next);
                    return Ok(Some(expr));
                },
            };
            let part = self.expression_part(expr, info, disallow_assign);
            expr = self.require(part)?;
        }
    }

    /// Reads the run of operators that `prev_op`, already read, begins.
    #[verifier::rlimit(40)]
    pub fn expression_part(&mut self, lhs: Expression, prev_op: OpInfo, disallow_assign: bool) -> (r: Status<Expression>)
        ensures
            final(self)@ == old(self)@.at(final(self)@.source),
            ran(
                old(self)@.source,
                final(self)@.source,
                outcome(r),
                grammar::expression_part(old(self)@.source, lhs@, prev_op, disallow_assign),
            ),
        decreases old(self)@.source.remaining(), 3nat,
    {
        let first = self.group();
        let mut rhs = self.require(first)?;
        let mut bits: Vec<Expression> = Vec::new();
        let mut ops: Vec<Op> = Vec::new();
        bits.push(lhs);
        ops.push(prev_op.oper);
        proof {
            lemma_expressions_push(Seq::empty(), lhs);
            assert(expressions_view(bits@) =~= seq![lhs@]);
            assert(ops@ =~= seq![prev_op.oper]);
        }
        loop
            invariant_except_break
                grammar::expression_run(self@.source, expressions_view(bits@), ops@, rhs@, prev_op, disallow_assign)
                    == grammar::expression_part(old(self)@.source, lhs@, prev_op, disallow_assign),
            invariant
                self@ == old(self)@.at(self@.source),
                self@.source.remaining() < old(self)@.source.remaining(),
                bits@.len() == ops@.len(),
                bits@.len() >= 1,
            ensures
                grammar::expression_part(old(self)@.source, lhs@, prev_op, disallow_assign) == (
                    self@.source,
                    Ok::<Option<ExpressionView>, DMErrorView>(
                        Some(grammar::fold(expressions_view(bits@), ops@, rhs@, prev_op.right_binding)),
                    ),
                ),
            decreases self@.source.remaining(),
        {
            let ghost at_top = self@.source;
            proof {
                lemma_peek(at_top, "binary operator"@);
            }
            let next = self.next("binary operator")?;
            let info = match operator_for(&next, disallow_assign) {
                Some(info) => info,
                None => {
                    self.put_back(next);
                    break ;
                },
            };
            if info.strength > prev_op.strength {
                let part = self.expression_part(rhs, info, disallow_assign);
                rhs = self.require(part)?;
            } else if info.strength < prev_op.strength {
                self.put_back(Token::Punct(info.token));
                break ;
            } else {
                proof {
                    lemma_expressions_push(bits@, rhs);
                }
                ops.push(info.oper);
                bits.push(rhs);
                let operand = self.group();
                rhs = self.require(operand)?;
            }
        }
        let folded = if prev_op.right_binding {
            fold_right(bits, &ops, rhs)
        } else {
            fold_left(bits, &ops, rhs)
        };
        Ok(Some(folded))
    }

    /// Reads a group: prefix operators, a term, postfix operations.
    #[verifier::rlimit(40)]
    pub fn group(&mut self) -> (r: Status<Expression>)
        ensures
            final(self)@ == old(self)@.at(final(self)@.source),
            ran(old(self)@.source, final(self)@.source, outcome(r), grammar::group(old(self)@.source)),
        decreases old(self)@.source.remaining(), 2nat,
    {
        let mut unary_ops: Vec<UnaryOp> = Vec::new();
        loop
            invariant_except_break
                grammar::unary_ops(self@.source, unary_ops@) == grammar::unary_ops(old(self)@.source, Seq::empty()),
            invariant
                self@ == old(self)@.at(self@.source),
                self@.source.remaining() <= old(self)@.source.remaining(),
                unary_ops@.len() == 0 ==> self@.source.upcoming() == old(self)@.source.upcoming(),
            ensures
                grammar::unary_ops(old(self)@.source, Seq::empty()) == (
                    self@.source,
                    Ok::<Seq<UnaryOp>, DMErrorView>(unary_ops@),
                ),
            decreases self@.source.remaining(),
        {
            let ghost at_top = self@.source;
            proof {
                lemma_peek(at_top, "unary operator"@);
            }
            match self.next("unary operator")? {
                Token::Punct(Punctuation::Sub) => unary_ops.push(UnaryOp::Neg),
                Token::Punct(Punctuation::Not) => unary_ops.push(UnaryOp::Not),
                Token::Punct(Punctuation::BitNot) => unary_ops.push(UnaryOp::BitNot),
                other => {
                    self.put_back(other);
                    break ;
                },
            }
        }
        let found = self.term();
        let term = if unary_ops.len() > 0 {
            self.require(found)?
        } else {
            match found? {
                Some(t) => t,
                None => {
                    return Ok(None);
                },
            }
        };
        let mut follow: Vec<Follow> = Vec::new();
        let ghost after_term = self@.source;
        proof {
            lemma_views_empty();
        }
        loop
            invariant_except_break
                grammar::follows(self@.source, follows_view(follow@)) == grammar::follows(after_term, Seq::empty()),
            invariant
                self@ == old(self)@.at(self@.source),
                self@.source.remaining() < old(self)@.source.remaining(),
                grammar::follows(after_term, Seq::empty()) matches (s, Err(e)) ==> grammar::group(old(self)@.source)
                    == (s, Err::<Option<ExpressionView>, DMErrorView>(e)),
            ensures
                grammar::follows(after_term, Seq::empty()) == (
                    self@.source,
                    Ok::<Seq<FollowView>, DMErrorView>(follows_view(follow@)),
                ),
            decreases self@.source.remaining(),
        {
            match self.follow()? {
                Some(f) => {
                    proof {
                        lemma_follows_push(follow@, f);
                    }
                    follow.push(f);
                },
                None => {
                    break ;
                },
            }
        }
        Ok(Some(Expression::Base { unary: unary_ops, term, follow }))
    }

    /// Reads a term.
    #[verifier::rlimit(40)]
    pub fn term(&mut self) -> (r: Status<Term>)
        ensures
            final(self)@ == old(self)@.at(final(self)@.source),
            ran(old(self)@.source, final(self)@.source, outcome(r), grammar::term(old(self)@.source)),
        decreases old(self)@.source.remaining(), 1nat,
    {
        proof {
            lemma_peek(self@.source, "term"@);
        }
        match self.next("term")? {
            Token::Ident(word, ws) => {
                if is_word(&word, "new") {
                    self.new_term()
                } else if is_word(&word, "list") {
                    match self.list_arguments()? {
                        Some(entries) => Ok(Some(Term::List(entries))),
                        None => Ok(Some(Term::Ident("list".to_owned()))),
                    }
                } else {
                    match self.arguments()? {
                        Some(args) => Ok(Some(Term::Call(word, args))),
                        None => Ok(Some(Term::Ident(word))),
                    }
                }
            },
            Token::Punct(p) => {
                if p == Punctuation::Slash || p == Punctuation::Dot || p == Punctuation::Colon {
                    self.put_back(Token::Punct(p));
                    let literal = self.prefab();
                    let prefab = self.require(literal)?;
                    Ok(Some(Term::Prefab(prefab)))
                } else if p == Punctuation::LParen {
                    let inner = self.expression(false);
                    let expr = self.require(inner)?;
                    let close = self.exact_punct(Punctuation::RParen);
                    self.require(close)?;
                    Ok(Some(Term::Expr(Box::new(expr))))
                } else {
                    self.try_another(Token::Punct(p))
                }
            },
            Token::String(text) => Ok(Some(Term::String(text))),
            Token::Resource(text) => Ok(Some(Term::Resource(text))),
            Token::Int(i) => Ok(Some(Term::Int(i))),
            Token::Float(bits) => Ok(Some(Term::Float(bits))),
            other => self.try_another(other),
        }
    }

    /// Reads what follows the word `new`.
    fn new_term(&mut self) -> (r: Status<Term>)
        ensures
            final(self)@ == old(self)@.at(final(self)@.source),
            ran_all(
                old(self)@.source,
                final(self)@.source,
                match outcome(r) {
                    Ok(t) => Ok(t),
                    Err(e) => Err(e),
                },
                grammar::new_term(old(self)@.source),
            ),
            r is Ok ==> r->Ok_0 is Some,
        decreases old(self)@.source.remaining(), 2nat,
    {
        let type_ = match self.ident()? {
            Some(name) => NewType::Ident(name),
            None => match self.prefab()? {
                Some(p) => NewType::Prefab(p),
                None => NewType::Implicit,
            },
        };
        match self.arguments()? {
            Some(args) => Ok(Some(Term::New { type_, args: Some(args) })),
            None => Ok(Some(Term::New { type_, args: None })),
        }
    }

    /// Reads one postfix operation.
    pub fn follow(&mut self) -> (r: Status<Follow>)
        ensures
            final(self)@ == old(self)@.at(final(self)@.source),
            ran(old(self)@.source, final(self)@.source, outcome(r), grammar::follow(old(self)@.source)),
        decreases old(self)@.source.remaining(), 0nat,
    {
        proof {
            lemma_peek(self@.source, "field, index, or function call"@);
        }
        match self.next("field, index, or function call")? {
            Token::Punct(p) => {
                if p == Punctuation::Dot {
                    let name = self.ident();
                    let name = self.require(name)?;
                    match self.arguments()? {
                        Some(args) => Ok(Some(Follow::Call(name, args))),
                        None => Ok(Some(Follow::Field(name))),
                    }
                } else if p == Punctuation::LBracket {
                    let index = self.expression(false);
                    let index = self.require(index)?;
                    let close = self.exact_punct(Punctuation::RBracket);
                    self.require(close)?;
                    Ok(Some(Follow::Index(Box::new(index))))
                } else {
                    self.try_another(Token::Punct(p))
                }
            },
            Token::Ident(word, ws) => {
                if is_word(&word, "as") {
                    let name = self.ident();
                    let name = self.require(name)?;
                    Ok(Some(Follow::Cast(name)))
                } else {
                    self.try_another(Token::Ident(word, ws))
                }
            },
            other => self.try_another(other),
        }
    }

    /// Reads the segments of a type-path literal after the first.
    fn prefab_path(&mut self, parts: Vec<(PathOp, String)>) -> (r: Result<Vec<(PathOp, String)>, DMError>)
        ensures
            final(self)@ == old(self)@.at(final(self)@.source),
            ran_all(
                old(self)@.source,
                final(self)@.source,
                result_with(r, |v: Vec<(PathOp, String)>| v.deep_view()),
                grammar::prefab_path(old(self)@.source, parts.deep_view()),
            ),
    {
        let ghost given = parts.deep_view();
        let mut found = parts;
        loop
            invariant_except_break
                grammar::prefab_path(self@.source, found.deep_view()) == grammar::prefab_path(
                    old(self)@.source,
                    given,
                ),
            invariant
                self@ == old(self)@.at(self@.source),
                self@.source.remaining() <= old(self)@.source.remaining(),
                given == parts.deep_view(),
            ensures
                grammar::prefab_path(old(self)@.source, given) == (
                    self@.source,
                    Ok::<Seq<(PathOp, Seq<char>)>, DMErrorView>(found.deep_view()),
                ),
            decreases self@.source.remaining(),
        {
            match self.path_separator()? {
                Some(sep) => {
                    match self.ident()? {
                        Some(segment) => {
                            let ghost before = found.deep_view();
                            found.push((sep, segment));
                            assert(found.deep_view() =~= before.push((sep, segment@)));
                        },
                        None => {},
                    }
                },
                None => {
                    break ;
                },
            }
        }
        Ok(found)
    }

    /// Reads a type-path literal with its overrides.
    #[verifier::rlimit(40)]
    pub fn prefab(&mut self) -> (r: Status<Prefab>)
        ensures
            final(self)@ == old(self)@.at(final(self)@.source),
            ran(old(self)@.source, final(self)@.source, outcome(r), grammar::prefab(old(self)@.source)),
        decreases old(self)@.source.remaining(), 0nat,
    {
        let op = match self.path_separator()? {
            Some(op) => op,
            None => {
                return Ok(None);
            },
        };
        let first = self.ident();
        let name = self.require(first)?;
        let mut parts: Vec<(PathOp, String)> = Vec::new();
        parts.push((op, name));
        assert(parts.deep_view() =~= seq![(op, name@)]);
        let parts = self.prefab_path(parts)?;
        let bare = Prefab::new(parts);
        match self.exact_punct(Punctuation::LBrace)? {
            Some(_) => {
                match self.separated(Punctuation::Semicolon, Punctuation::RBrace, Collected::Vars(bare))? {
                    Some(Collected::Vars(p)) => Ok(Some(p)),
                    _ => unreached(),
                }
            },
            None => Ok(Some(bare)),
        }
    }

    /// Reads a parenthesized, comma-separated list of expressions.
    pub fn arguments(&mut self) -> (r: Status<Vec<Expression>>)
        ensures
            final(self)@ == old(self)@.at(final(self)@.source),
            ran(
                old(self)@.source,
                final(self)@.source,
                outcome_with(r, |v: Vec<Expression>| expressions_view(v@)),
                grammar::arguments(old(self)@.source),
            ),
        decreases old(self)@.source.remaining(), 0nat,
    {
        match self.exact_punct(Punctuation::LParen)? {
            Some(_) => {},
            None => {
                return Ok(None);
            },
        }
        proof {
            lemma_views_empty();
        }
        let list = self.comma_sep(Punctuation::RParen, Collected::Arguments(Vec::new()));
        match self.require(list)? {
            Collected::Arguments(v) => Ok(Some(v)),
            _ => unreached(),
        }
    }

    /// Reads a parenthesized, comma-separated list of entries of a list
    /// literal.
    pub fn list_arguments(&mut self) -> (r: Status<Vec<(Expression, Option<Expression>)>>)
        ensures
            final(self)@ == old(self)@.at(final(self)@.source),
            ran(
                old(self)@.source,
                final(self)@.source,
                outcome_with(r, |v: Vec<(Expression, Option<Expression>)>| list_view(v@)),
                grammar::list_arguments(old(self)@.source),
            ),
        decreases old(self)@.source.remaining(), 0nat,
    {
        match self.exact_punct(Punctuation::LParen)? {
            Some(_) => {},
            None => {
                return Ok(None);
            },
        }
        proof {
            lemma_views_empty();
        }
        let list = self.comma_sep(Punctuation::RParen, Collected::Entries(Vec::new()));
        match self.require(list)? {
            Collected::Entries(v) => Ok(Some(v)),
            _ => unreached(),
        }
    }

    /// Reads a comma-separated list up to `terminator`.
    pub fn comma_sep(&mut self, terminator: Punctuation, collected: Collected) -> (r: Status<Collected>)
        ensures
            final(self)@ == old(self)@.at(final(self)@.source),
            ran(
                old(self)@.source,
                final(self)@.source,
                outcome(r),
                grammar::comma_sep(old(self)@.source, terminator, collected@),
            ),
            r matches Ok(found) ==> found matches Some(c) && c@.same_kind(collected@),
        decreases old(self)@.source.remaining(), 7nat,
    {
        self.separated(Punctuation::Comma, terminator, collected)
    }

    /// Reads a list of elements up to `terminator`, with `sep` between them,
    /// and adds each element to `collected`.
    pub fn separated(&mut self, sep: Punctuation, terminator: Punctuation, collected: Collected) -> (r: Status<Collected>)
        ensures
            final(self)@ == old(self)@.at(final(self)@.source),
            ran(
                old(self)@.source,
                final(self)@.source,
                outcome(r),
                grammar::separated(old(self)@.source, sep, terminator, collected@),
            ),
            r matches Ok(found) ==> found matches Some(c) && c@.same_kind(collected@),
        decreases old(self)@.source.remaining(), 6nat,
    {
        let mut comma_legal = false;
        let mut elems = collected;
        let ghost mut first = true;
        loop
            invariant
                self@ == old(self)@.at(self@.source),
                self@.source.remaining() <= old(self)@.source.remaining(),
                first || self@.source.remaining() < old(self)@.source.remaining(),
                elems@.same_kind(collected@),
                grammar::separated_from(self@.source, sep, terminator, comma_legal, elems@) == grammar::separated(
                    old(self)@.source,
                    sep,
                    terminator,
                    collected@,
                ),
            decreases self@.source.remaining(), if first { 1nat } else { 0nat },
        {
            let ghost at_top = self@.source;
            proof {
                lemma_peek(at_top, "list element"@);
            }
            let next = self.next("list element")?;
            if next.is_punct(terminator) {
                return Ok(Some(elems));
            } else if comma_legal && next.is_punct(sep) {
                comma_legal = false;
            } else if !comma_legal {
                self.put_back(next);
                elems = self.element(elems)?;
                comma_legal = true;
            } else {
                self.put_back(next);
                return Err(self.parse_error());
            }
            proof {
                first = false;
            }
        }
    }

    /// Reads one element of a separated list and adds it to `collected`.
    #[verifier::rlimit(40)]
    fn element(&mut self, collected: Collected) -> (r: Result<Collected, DMError>)
        ensures
            final(self)@ == old(self)@.at(final(self)@.source),
            ran_all(
                old(self)@.source,
                final(self)@.source,
                result_with(r, |c: Collected| c@),
                grammar::element(old(self)@.source, collected@),
            ),
            r is Ok ==> final(self)@.source.remaining() < old(self)@.source.remaining(),
            r matches Ok(c) ==> c@.same_kind(collected@),
        decreases old(self)@.source.remaining(), 4nat,
    {
        match collected {
            Collected::Arguments(args) => {
                let mut args = args;
                let e = self.expression(false);
                let e = self.require(e)?;
                proof {
                    lemma_expressions_push(args@, e);
                }
                args.push(e);
                Ok(Collected::Arguments(args))
            },
            Collected::Entries(entries) => {
                let mut entries = entries;
                let key = self.expression(true);
                let key = self.require(key)?;
                let entry = match self.exact_punct(Punctuation::Assign)? {
                    Some(_) => {
                        let value = self.expression(false);
                        let value = self.require(value)?;
                        (key, Some(value))
                    },
                    None => (key, None),
                };
                proof {
                    lemma_list_push(entries@, entry);
                }
                entries.push(entry);
                Ok(Collected::Entries(entries))
            },
            Collected::Vars(prefab) => {
                let name = self.ident();
                let name = self.require(name)?;
                let assign = self.exact_punct(Punctuation::Assign);
                self.require(assign)?;
                let value = self.expression(false);
                let value = self.require(value)?;
                Ok(Collected::Vars(prefab.insert(name, value)))
            },
        }
    }
}

} // verus!
