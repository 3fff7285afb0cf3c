//! What the grammar does on inputs of a given shape, for every input of
//! that shape.

use vstd::prelude::*;
use crate::lexer::{LocatedTokenView, Punctuation, TokenView};
use crate::location::DMErrorView;
use crate::objtree::DeclarationView;
use crate::parser::ParserView;
use crate::path::PathWarningView;
use crate::progress::lemma_tree_entries;
use crate::source::{lemma_pull_reads_upcoming, lemma_put_back_upcoming, lemma_require, punct, SourceView, SpecStatus};
use crate::grammar::{expression, required};
use crate::tree_rules::{
    tree_block, between_entries, entry_contents, full_path, ignore_group, insisted, list_size, parse, path_segments,
    proc_rest, root, skip_to_close, tree_entries, tree_entry, tree_path,
};

verus! {

/// One of the upcoming tokens.
pub type Upcoming = Result<TokenView, DMErrorView>;

/// The token is the identifier `name`.
pub open spec fn is_ident(token: Upcoming, name: Seq<char>) -> bool {
    token matches Ok(TokenView::Ident(n, _)) && n == name
}

/// The token is the punctuation symbol `p`.
pub open spec fn is_punct(token: Upcoming, p: Punctuation) -> bool {
    token == Ok::<TokenView, DMErrorView>(punct(p))
}

/// The tokens begin with a slash and an identifier for each of `names`, in
/// their order.
pub open spec fn spells_segments(tokens: Seq<Upcoming>, names: Seq<Seq<char>>) -> bool {
    &&& tokens.len() >= 2 * names.len()
    &&& forall|i: int| 0 <= i < names.len() ==> is_punct(#[trigger] tokens[2 * i], Punctuation::Slash)
    &&& forall|i: int| 0 <= i < names.len() ==> is_ident(#[trigger] tokens[2 * i + 1], names[i])
}

/// How many tokens a path takes: its slashes and its identifiers.
pub open spec fn path_length(absolute: bool, names: Seq<Seq<char>>) -> int {
    (if absolute { 1int } else { 0int }) + 2 * names.len() - 1
}

/// The tokens begin with the path that has the segments `names`, after a
/// slash if it is absolute.
pub open spec fn spells_path(tokens: Seq<Upcoming>, absolute: bool, names: Seq<Seq<char>>) -> bool {
    let lead = if absolute { 1int } else { 0int };
    &&& names.len() >= 1
    &&& tokens.len() >= path_length(absolute, names)
    &&& absolute ==> is_punct(tokens[0], Punctuation::Slash)
    &&& is_ident(tokens[lead], names[0])
    &&& spells_segments(tokens.subrange(lead + 1, tokens.len() as int), names.drop_first())
}

/// The token ends a path: it is no slash, and after a slash no identifier.
pub open spec fn ends_path(token: Upcoming, after_slash: bool) -> bool {
    &&& token matches Ok(t)
    &&& t != punct(Punctuation::Slash)
    &&& after_slash ==> !(t is Ident)
}

/// The token begins nothing that belongs to a declaration: no list size,
/// no block, no initializer, no parameters.
pub open spec fn ends_declaration(token: Upcoming) -> bool {
    &&& token matches Ok(t)
    &&& t != punct(Punctuation::LBracket)
    &&& t != punct(Punctuation::LBrace)
    &&& t != punct(Punctuation::Assign)
    &&& t != punct(Punctuation::LParen)
}

/// Segments are read as long as slashes come. A last slash that no
/// identifier follows adds no segment. The token that ends the path stays
/// unread.
pub proof fn lemma_path_segments(s: SourceView, parts: Seq<Seq<char>>, names: Seq<Seq<char>>, trailing: bool)
    requires
        spells_segments(s.upcoming(), names),
        trailing ==> 2 * names.len() < s.upcoming().len() && is_punct(
            s.upcoming()[2 * names.len() as int],
            Punctuation::Slash,
        ),
        2 * names.len() + (if trailing { 1int } else { 0int }) < s.upcoming().len(),
        ends_path(s.upcoming()[2 * names.len() + (if trailing { 1int } else { 0int })], trailing),
    ensures
        path_segments(s, parts).1 == Ok::<Seq<Seq<char>>, DMErrorView>(parts + names),
        path_segments(s, parts).0.upcoming() == s.upcoming().subrange(
            2 * names.len() + (if trailing { 1int } else { 0int }),
            s.upcoming().len() as int,
        ),
        path_segments(s, parts).0.next is Some,
    decreases names.len(),
{
    let u = s.upcoming();
    let (s1, got) = s.pull("path separator"@);
    lemma_pull_reads_upcoming(s, "path separator"@);
    if names.len() > 0 {
        assert(is_punct(u[2 * 0int], Punctuation::Slash));
        assert(is_ident(u[2 * 0int + 1], names[0]));
        let (s2, name) = s1.ident();
        lemma_pull_reads_upcoming(s1, "identifier"@);
        assert(s1.upcoming()[0] == u[1]);
        let rest = names.drop_first();
        assert(s2.upcoming() =~= u.subrange(2, u.len() as int));
        assert forall|i: int| 0 <= i < rest.len() implies is_punct(
            #[trigger] s2.upcoming()[2 * i],
            Punctuation::Slash,
        ) by {
            assert(s2.upcoming()[2 * i] == u[2 * (i + 1)]);
        }
        assert forall|i: int| 0 <= i < rest.len() implies is_ident(#[trigger] s2.upcoming()[2 * i + 1], rest[i]) by {
            assert(s2.upcoming()[2 * i + 1] == u[2 * (i + 1) + 1]);
        }
        lemma_path_segments(s2, parts.push(names[0]), rest, trailing);
        assert(parts.push(names[0]) + rest =~= parts + names);
        let e = 2 * names.len() + (if trailing { 1int } else { 0int });
        assert(s2.upcoming().subrange(e - 2, s2.upcoming().len() as int) =~= u.subrange(e, u.len() as int));
    } else if trailing {
        let (s2, name) = s1.ident();
        lemma_pull_reads_upcoming(s1, "identifier"@);
        let t = u[1]->Ok_0;
        assert(s1.upcoming()[0] == u[1]);
        let s3 = s1.pull("identifier"@).0.put_back(t);
        lemma_put_back_upcoming(s1.pull("identifier"@).0, t);
        assert(s2 == s3);
        assert(s3.upcoming() =~= u.subrange(1, u.len() as int));
        lemma_pull_reads_upcoming(s3, "path separator"@);
        lemma_put_back_upcoming(s3.pull("path separator"@).0, t);
        assert(path_segments(s3, parts) == (
            s3.pull("path separator"@).0.put_back(t),
            Ok::<Seq<Seq<char>>, DMErrorView>(parts),
        ));
        assert(s3.pull("path separator"@).0.put_back(t).upcoming() =~= u.subrange(1, u.len() as int));
        assert(parts + names =~= parts);
    } else {
        let t = u[0]->Ok_0;
        lemma_put_back_upcoming(s1, t);
        assert(s1.put_back(t).upcoming() =~= u.subrange(0, u.len() as int));
        assert(parts + names =~= parts);
    }
}

/// A path is read as its segments, absolute or not as it is written. The
/// token that ends it stays unread.
pub proof fn lemma_tree_path(s: SourceView, absolute: bool, names: Seq<Seq<char>>, trailing: bool)
    requires
        spells_path(s.upcoming(), absolute, names),
        path_length(absolute, names) + (if trailing { 1int } else { 0int }) < s.upcoming().len(),
        trailing ==> is_punct(s.upcoming()[path_length(absolute, names)], Punctuation::Slash),
        ends_path(s.upcoming()[path_length(absolute, names) + (if trailing { 1int } else { 0int })], trailing),
    ensures
        tree_path(s).1 == Ok::<Option<(bool, Seq<Seq<char>>)>, DMErrorView>(Some((absolute, names))),
        tree_path(s).0.upcoming() == s.upcoming().subrange(
            path_length(absolute, names) + (if trailing { 1int } else { 0int }),
            s.upcoming().len() as int,
        ),
        tree_path(s).0.next is Some,
{
    let u = s.upcoming();
    let lead = if absolute { 1int } else { 0int };
    let slash = punct(Punctuation::Slash);
    let (s1, found) = s.exact(slash);
    lemma_pull_reads_upcoming(s, slash.text());
    if !absolute {
        lemma_put_back_upcoming(s.pull(slash.text()).0, u[0]->Ok_0);
    }
    assert(s1.upcoming() =~= u.subrange(lead, u.len() as int));
    assert(found == Ok::<Option<()>, DMErrorView>(if absolute { Some(()) } else { None }));
    let (s2, first) = s1.ident();
    lemma_pull_reads_upcoming(s1, "identifier"@);
    assert(s1.upcoming()[0] == u[lead]);
    assert(first == Ok::<Option<Seq<char>>, DMErrorView>(Some(names[0])));
    assert(s2.upcoming() =~= u.subrange(lead + 1, u.len() as int));
    let rest = names.drop_first();
    let e = 2 * rest.len() + (if trailing { 1int } else { 0int });
    assert(s2.upcoming()[e] == u[lead + 1 + e]);
    if trailing {
        assert(s2.upcoming()[2 * rest.len() as int] == u[lead + 1 + 2 * rest.len()]);
    }
    lemma_path_segments(s2, seq![names[0]], rest, trailing);
    assert(seq![names[0]] + rest =~= names);
    assert(s2.upcoming().subrange(e, s2.upcoming().len() as int) =~= u.subrange(lead + 1 + e, u.len() as int));
}

/// A declaration that is a path and nothing more registers a type node at
/// the path: below the block around it if the path is relative, at the root
/// if it is absolute. An absolute path inside a block draws a warning, and
/// no other path does. A slash at the end of the path changes nothing. The
/// token after the path stays unread.
#[verifier::rlimit(40)]
pub proof fn theorem_bare_declaration(
    p: ParserView,
    parent: Seq<Seq<char>>,
    nested: bool,
    absolute: bool,
    names: Seq<Seq<char>>,
    trailing: bool,
)
    requires
        !p.tree.finalized,
        spells_path(p.source.upcoming(), absolute, names),
        path_length(absolute, names) + (if trailing { 1int } else { 0int }) < p.source.upcoming().len(),
        trailing ==> is_punct(p.source.upcoming()[path_length(absolute, names)], Punctuation::Slash),
        ends_path(
            p.source.upcoming()[path_length(absolute, names) + (if trailing { 1int } else { 0int })],
            trailing,
        ),
        ends_declaration(
            p.source.upcoming()[path_length(absolute, names) + (if trailing { 1int } else { 0int })],
        ),
    ensures
        tree_entry(p, parent, nested).1 == Ok::<Option<()>, DMErrorView>(Some(())),
        tree_entry(p, parent, nested).0.tree.declarations == p.tree.declarations.push(
            DeclarationView::Entry {
                location: tree_entry(p, parent, nested).0.source.location,
                path: full_path(parent, absolute, names),
            },
        ),
        !tree_entry(p, parent, nested).0.tree.finalized,
        tree_entry(p, parent, nested).0.warnings == if absolute && nested {
            p.warnings.push(
                PathWarningView {
                    location: tree_entry(p, parent, nested).0.source.location,
                    path: names,
                    enclosing: parent,
                },
            )
        } else {
            p.warnings
        },
        tree_entry(p, parent, nested).0.source.upcoming() == p.source.upcoming().subrange(
            path_length(absolute, names) + (if trailing { 1int } else { 0int }),
            p.source.upcoming().len() as int,
        ),
{
    let u = p.source.upcoming();
    let e = path_length(absolute, names) + (if trailing { 1int } else { 0int });
    let t = u[e]->Ok_0;
    lemma_tree_path(p.source, absolute, names, trailing);
    let (s1, found) = tree_path(p.source);
    let v = s1.upcoming();
    assert(v[0] == u[e]);
    lemma_pull_reads_upcoming(p.source, ""@);
    lemma_pull_reads_upcoming(s1, ""@);
    // the size of a list: none is here
    lemma_pull_reads_upcoming(s1, "["@);
    let s2 = s1.pull("["@).0;
    lemma_put_back_upcoming(s2, t);
    let s3 = s2.put_back(t);
    assert(list_size(s1) == (s3, Ok::<(), DMErrorView>(())));
    assert(s3.upcoming() =~= v);
    assert(s3.location == s1.location) by {
        reveal(SourceView::pull);
    }
    lemma_pull_reads_upcoming(s3, ""@);
    // the contents: none are here
    lemma_pull_reads_upcoming(s3, "contents"@);
    let s4 = s3.pull("contents"@).0;
    lemma_put_back_upcoming(s4, t);
    assert(s4.put_back(t).upcoming() =~= v);
    assert(s4.location == s1.location) by {
        reveal(SourceView::pull);
    }
    assert(full_path(parent, absolute, names).len() > 0);
}

/// The outcome of a block, given the outcome of the declarations in it.
pub open spec fn block_outcome(ran: (ParserView, SpecStatus<()>)) -> (ParserView, SpecStatus<()>) {
    match ran.1 {
        Ok(_) => (ran.0, Ok(Some(()))),
        Err(e) => (ran.0, Err(e)),
    }
}

/// A declaration that is a path and a block registers a type node at the
/// path, and then reads the declarations of the block: relative to the full
/// path of the node, and as declarations inside a block. An absolute path
/// inside a block draws a warning here too.
#[verifier::rlimit(40)]
pub proof fn theorem_block_declaration(
    p: ParserView,
    parent: Seq<Seq<char>>,
    nested: bool,
    absolute: bool,
    names: Seq<Seq<char>>,
)
    requires
        !p.tree.finalized,
        spells_path(p.source.upcoming(), absolute, names),
        path_length(absolute, names) < p.source.upcoming().len(),
        is_punct(p.source.upcoming()[path_length(absolute, names)], Punctuation::LBrace),
    ensures
        exists|start: ParserView|
            {
                &&& #[trigger] block_outcome(
                    tree_entries(start, full_path(parent, absolute, names), true, punct(Punctuation::RBrace)),
                ) == tree_entry(p, parent, nested)
                &&& start.tree.declarations == p.tree.declarations.push(
                    DeclarationView::Entry {
                        location: start.source.location,
                        path: full_path(parent, absolute, names),
                    },
                )
                &&& !start.tree.finalized
                &&& start.warnings == if absolute && nested {
                    p.warnings.push(
                        PathWarningView { location: start.source.location, path: names, enclosing: parent },
                    )
                } else {
                    p.warnings
                }
                &&& start.source.upcoming() == p.source.upcoming().subrange(
                    path_length(absolute, names) + 1,
                    p.source.upcoming().len() as int,
                )
            },
{
    let u = p.source.upcoming();
    let k = path_length(absolute, names);
    let brace = punct(Punctuation::LBrace);
    let full = full_path(parent, absolute, names);
    lemma_tree_path(p.source, absolute, names, false);
    let (s1, found) = tree_path(p.source);
    let v = s1.upcoming();
    assert(v[0] == u[k]);
    lemma_pull_reads_upcoming(p.source, ""@);
    lemma_pull_reads_upcoming(s1, ""@);
    let st2 = if absolute && nested {
        ParserView {
            warnings: p.warnings.push(PathWarningView { location: s1.location, path: names, enclosing: parent }),
            ..p.at(s1)
        }
    } else {
        p.at(s1)
    };
    // the size of a list: none is here
    lemma_pull_reads_upcoming(s1, "["@);
    let s2 = s1.pull("["@).0;
    lemma_put_back_upcoming(s2, brace);
    let s3 = s2.put_back(brace);
    assert(list_size(s1) == (s3, Ok::<(), DMErrorView>(())));
    assert(s3.upcoming() =~= v);
    assert(s3.location == s1.location) by {
        reveal(SourceView::pull);
    }
    lemma_pull_reads_upcoming(s3, ""@);
    // the contents: a block
    lemma_pull_reads_upcoming(s3, "contents"@);
    let s4 = s3.pull("contents"@).0;
    assert(s4.location == s1.location) by {
        reveal(SourceView::pull);
    }
    lemma_put_back_upcoming(s4, brace);
    let s5 = s4.put_back(brace);
    assert(s5.upcoming() =~= v);
    assert(full.len() > 0);
    let tree = crate::objtree::ObjectTreeView {
        declarations: p.tree.declarations.push(DeclarationView::Entry { location: s4.location, path: full }),
        finalized: false,
    };
    let st5 = ParserView { tree, ..st2.at(s5) };
    lemma_pull_reads_upcoming(s5, brace.text());
    let s6 = s5.pull(brace.text()).0;
    assert(s6.location == s1.location) by {
        reveal(SourceView::pull);
    }
    assert(s6.upcoming() =~= u.subrange(k + 1, u.len() as int));
    let start = st5.at(s6);
    let inside = tree_entries(start, full, true, punct(Punctuation::RBrace));
    lemma_tree_entries(start, full, true, punct(Punctuation::RBrace));
    lemma_require(inside.0.source, inside.1);
    assert(tree_block(st5, full, true) == block_outcome(inside));
    lemma_require(block_outcome(inside).0.source, block_outcome(inside).1);
    assert(entry_contents(st2.at(s3), full) == block_outcome(inside));
    assert(tree_entry(p, parent, nested) == block_outcome(inside));
}

/// The outcome of a variable declaration whose path has been read: the
/// initializer must be there, and a semicolon after it; then the variable is
/// registered with the initializer, at the place of the semicolon.
pub open spec fn variable_outcome(st: ParserView, path: Seq<Seq<char>>) -> (ParserView, SpecStatus<()>) {
    let (s1, value) = required(expression(st.source, false));
    match value {
        Err(e) => (st.at(s1), Err(e)),
        Ok(value) => {
            let (s2, semicolon) = required(s1.exact(punct(Punctuation::Semicolon)));
            match semicolon {
                Err(e) => (st.at(s2), Err(e)),
                Ok(_) => match st.tree.add_var(s2.location, path, value) {
                    Ok(tree) => (ParserView { tree, ..st.at(s2) }, Ok(Some(()))),
                    Err(e) => (st.at(s2), Err(e)),
                },
            }
        },
    }
}

/// A declaration that is a path and `=` is a variable: what follows the
/// `=` is read as its initializer, in which `=` assigns, and the variable is
/// registered at the full path. An absolute path inside a block draws a
/// warning here too.
#[verifier::rlimit(40)]
pub proof fn theorem_variable_declaration(
    p: ParserView,
    parent: Seq<Seq<char>>,
    nested: bool,
    absolute: bool,
    names: Seq<Seq<char>>,
)
    requires
        spells_path(p.source.upcoming(), absolute, names),
        path_length(absolute, names) < p.source.upcoming().len(),
        is_punct(p.source.upcoming()[path_length(absolute, names)], Punctuation::Assign),
    ensures
        exists|start: ParserView|
            {
                &&& #[trigger] variable_outcome(start, full_path(parent, absolute, names)) == tree_entry(
                    p,
                    parent,
                    nested,
                )
                &&& start.tree == p.tree
                &&& start.warnings == if absolute && nested {
                    p.warnings.push(
                        PathWarningView { location: start.source.location, path: names, enclosing: parent },
                    )
                } else {
                    p.warnings
                }
                &&& start.source.upcoming() == p.source.upcoming().subrange(
                    path_length(absolute, names) + 1,
                    p.source.upcoming().len() as int,
                )
            },
{
    let u = p.source.upcoming();
    let k = path_length(absolute, names);
    let assign = punct(Punctuation::Assign);
    let full = full_path(parent, absolute, names);
    lemma_tree_path(p.source, absolute, names, false);
    let (s1, found) = tree_path(p.source);
    let v = s1.upcoming();
    assert(v[0] == u[k]);
    lemma_pull_reads_upcoming(p.source, ""@);
    lemma_pull_reads_upcoming(s1, ""@);
    let st2 = if absolute && nested {
        ParserView {
            warnings: p.warnings.push(PathWarningView { location: s1.location, path: names, enclosing: parent }),
            ..p.at(s1)
        }
    } else {
        p.at(s1)
    };
    // the size of a list: none is here
    lemma_pull_reads_upcoming(s1, "["@);
    let s2 = s1.pull("["@).0;
    lemma_put_back_upcoming(s2, assign);
    let s3 = s2.put_back(assign);
    assert(list_size(s1) == (s3, Ok::<(), DMErrorView>(())));
    assert(s3.upcoming() =~= v);
    assert(s3.location == s1.location) by {
        reveal(SourceView::pull);
    }
    lemma_pull_reads_upcoming(s3, ""@);
    // the contents: an initializer
    lemma_pull_reads_upcoming(s3, "contents"@);
    let s4 = s3.pull("contents"@).0;
    assert(s4.location == s1.location) by {
        reveal(SourceView::pull);
    }
    assert(s4.upcoming() =~= u.subrange(k + 1, u.len() as int));
    let start = st2.at(s4);
    assert(entry_contents(st2.at(s3), full) == variable_outcome(start, full));
    assert(tree_entry(p, parent, nested) == variable_outcome(start, full));
}

/// The tokens of an input, without their locations.
pub open spec fn tokens_of(input: Seq<Result<LocatedTokenView, DMErrorView>>) -> Seq<Upcoming> {
    Seq::new(
        input.len(),
        |i: int|
            match input[i] {
                Ok(t) => Ok(t.token),
                Err(e) => Err(e),
            },
    )
}

/// Before anything is read, the upcoming tokens are those of the input and
/// the end of file.
pub proof fn lemma_start_upcoming(input: Seq<Result<LocatedTokenView, DMErrorView>>)
    ensures
        SourceView::start(input).upcoming() == tokens_of(input) + seq![Ok::<TokenView, DMErrorView>(TokenView::Eof)],
{
    reveal(SourceView::upcoming);
    assert(SourceView::start(input).upcoming() =~= tokens_of(input) + seq![
        Ok::<TokenView, DMErrorView>(TokenView::Eof),
    ]);
}

/// An input that is one path and a semicolon parses to a tree with one
/// type node, whose path is the segments of the path in their order, and
/// draws no warning.
#[verifier::rlimit(40)]
pub proof fn theorem_parse_bare_path(
    input: Seq<Result<LocatedTokenView, DMErrorView>>,
    absolute: bool,
    names: Seq<Seq<char>>,
)
    requires
        spells_path(tokens_of(input), absolute, names),
        input.len() == path_length(absolute, names) + 1,
        is_punct(tokens_of(input)[path_length(absolute, names)], Punctuation::Semicolon),
    ensures
        parse(input).0 matches Ok(tree) && tree.finalized && tree.declarations.len() == 1 && (
        tree.declarations[0] matches DeclarationView::Entry { path, .. } && path == names),
        parse(input).1 == Seq::<PathWarningView>::empty(),
{
    let toks = tokens_of(input);
    let k = path_length(absolute, names);
    let lead = if absolute { 1int } else { 0int };
    let none = Seq::<Seq<char>>::empty();
    let eof = TokenView::Eof;
    let st0 = ParserView::start(input);
    let u = st0.source.upcoming();
    lemma_start_upcoming(input);
    assert(u.len() == k + 2);
    assert forall|i: int| 0 <= i <= k implies u[i] == toks[i] by {}
    assert(u[k + 1] == Ok::<TokenView, DMErrorView>(eof));
    assert(spells_path(u, absolute, names)) by {
        let a = toks.subrange(lead + 1, toks.len() as int);
        let b = u.subrange(lead + 1, u.len() as int);
        let rest = names.drop_first();
        assert forall|i: int| 0 <= i < rest.len() implies is_punct(#[trigger] b[2 * i], Punctuation::Slash) by {
            assert(b[2 * i] == a[2 * i]);
        }
        assert forall|i: int| 0 <= i < rest.len() implies is_ident(#[trigger] b[2 * i + 1], rest[i]) by {
            assert(b[2 * i + 1] == a[2 * i + 1]);
        }
    }
    // the first token begins a declaration
    let d = between_entries(eof);
    lemma_pull_reads_upcoming(st0.source, d);
    let s1 = st0.source.pull(d).0;
    let t0 = u[0]->Ok_0;
    lemma_put_back_upcoming(s1, t0);
    let st1 = st0.at(s1.put_back(t0));
    assert(st1.source.upcoming() =~= u);
    theorem_bare_declaration(st1, none, false, absolute, names, false);
    let q1 = tree_entry(st1, none, false).0;
    assert(insisted(tree_entry(st1, none, false)) == (q1, Ok::<(), DMErrorView>(())));
    assert(full_path(none, absolute, names) =~= names);
    // the semicolon is skipped
    let v = q1.source.upcoming();
    assert(v.len() == 2);
    assert(v[0] == u[k]);
    assert(v[1] == u[k + 1]);
    lemma_pull_reads_upcoming(q1.source, d);
    let q2 = q1.at(q1.source.pull(d).0);
    assert(q2.source.upcoming() =~= seq![Ok::<TokenView, DMErrorView>(eof)]);
    // the end of file ends the declarations
    lemma_pull_reads_upcoming(q2.source, d);
    let q3 = q2.at(q2.source.pull(d).0);
    assert(tree_entries(q2, none, false, eof) == (q3, Ok::<Option<()>, DMErrorView>(Some(()))));
    assert(tree_entries(q1, none, false, eof) == (q3, Ok::<Option<()>, DMErrorView>(Some(()))));
    lemma_pull_reads_upcoming(st1.source, d);
    assert(tree_entries(st0, none, false, eof) == (q3, Ok::<Option<()>, DMErrorView>(Some(()))));
    assert(q3.tree == q1.tree);
    assert(q3.warnings =~= Seq::<PathWarningView>::empty());
}

/// What a token does to the depth of nesting: `left` opens a group, `right`
/// closes one, anything else leaves the depth as it is.
pub open spec fn depth_after(token: Upcoming, left: Punctuation, right: Punctuation, depth: int) -> int {
    if is_punct(token, left) {
        depth + 1
    } else if is_punct(token, right) {
        depth - 1
    } else {
        depth
    }
}

/// The depth of nesting after `tokens`, from `depth` before them.
pub open spec fn nesting(tokens: Seq<Upcoming>, left: Punctuation, right: Punctuation, depth: int) -> int
    decreases tokens.len(),
{
    if tokens.len() == 0 {
        depth
    } else {
        nesting(tokens.drop_first(), left, right, depth_after(tokens[0], left, right, depth))
    }
}

/// The tokens are all there, and nowhere among them does the group that is
/// `depth` deep before them end.
pub open spec fn stays_open(tokens: Seq<Upcoming>, left: Punctuation, right: Punctuation, depth: int) -> bool {
    &&& forall|i: int| 0 <= i < tokens.len() ==> (#[trigger] tokens[i]) is Ok
    &&& forall|k: int| 0 <= k <= tokens.len() ==> #[trigger] nesting(tokens.take(k), left, right, depth) >= 1
}

/// The tokens are balanced: every `left` among them is closed by a `right`
/// among them, and every `right` closes a `left` among them.
pub open spec fn balanced(tokens: Seq<Upcoming>, left: Punctuation, right: Punctuation) -> bool {
    &&& stays_open(tokens, left, right, 1)
    &&& nesting(tokens, left, right, 1) == 1
}

/// Skipping ends with the `right` that brings the depth to zero. What comes
/// before it is read and dropped, whatever it is.
pub proof fn lemma_skip_to_close(s: SourceView, left: Punctuation, right: Punctuation, depth: nat, n: int)
    requires
        left != right,
        depth >= 1,
        0 <= n < s.upcoming().len(),
        stays_open(s.upcoming().take(n), left, right, depth as int),
        nesting(s.upcoming().take(n), left, right, depth as int) == 1,
        is_punct(s.upcoming()[n], right),
    ensures
        skip_to_close(s, left, right, depth).1 == Ok::<Option<()>, DMErrorView>(Some(())),
        skip_to_close(s, left, right, depth).0.upcoming() == s.upcoming().subrange(n + 1, s.upcoming().len() as int),
        skip_to_close(s, left, right, depth).0.next is None,
    decreases n,
{
    let u = s.upcoming();
    let (s1, got) = s.pull("anything"@);
    lemma_pull_reads_upcoming(s, "anything"@);
    let body = u.take(n);
    if n == 0 {
        assert(nesting(body, left, right, depth as int) == depth);
        assert(skip_to_close(s1, left, right, 0) == (s1, Ok::<Option<()>, DMErrorView>(Some(()))));
        assert(u.drop_first() =~= u.subrange(1, u.len() as int));
    } else {
        assert(body[0] == u[0]);
        assert(body[0] is Ok);
        let next = depth_after(u[0], left, right, depth as int);
        assert(body.take(1).drop_first() =~= Seq::<Upcoming>::empty());
        assert(nesting(body.take(1), left, right, depth as int) == nesting(
            body.take(1).drop_first(),
            left,
            right,
            next,
        ));
        assert(nesting(Seq::<Upcoming>::empty(), left, right, next) == next);
        assert(next >= 1);
        let v = s1.upcoming();
        assert(v.take(n - 1) =~= body.drop_first());
        assert forall|k: int| 0 <= k <= n - 1 implies #[trigger] nesting(v.take(n - 1).take(k), left, right, next)
            >= 1 by {
            assert(body.take(k + 1).drop_first() =~= v.take(n - 1).take(k));
            assert(body.take(k + 1)[0] == u[0]);
            assert(nesting(body.take(k + 1), left, right, depth as int) >= 1);
        }
        assert forall|i: int| 0 <= i < v.take(n - 1).len() implies (#[trigger] v.take(n - 1)[i]) is Ok by {
            assert(v.take(n - 1)[i] == body[i + 1]);
        }
        assert(v[n - 1] == u[n]);
        lemma_skip_to_close(s1, left, right, next as nat, n - 1);
        assert(v.subrange(n, v.len() as int) =~= u.subrange(n + 1, u.len() as int));
    }
}

/// A group is skipped whatever is inside it, if only what is inside is
/// balanced: the tokens after the group are what is read next.
pub proof fn theorem_group_is_skipped(s: SourceView, left: Punctuation, right: Punctuation, n: int)
    requires
        left != right,
        0 <= n,
        n + 1 < s.upcoming().len(),
        is_punct(s.upcoming()[0], left),
        balanced(s.upcoming().subrange(1, n + 1), left, right),
        is_punct(s.upcoming()[n + 1], right),
    ensures
        ignore_group(s, left, right).1 == Ok::<Option<()>, DMErrorView>(Some(())),
        ignore_group(s, left, right).0.upcoming() == s.upcoming().subrange(n + 2, s.upcoming().len() as int),
        ignore_group(s, left, right).0.next is None,
{
    let u = s.upcoming();
    let (s1, open) = s.exact(punct(left));
    lemma_pull_reads_upcoming(s, punct(left).text());
    let v = s1.upcoming();
    assert(v =~= u.subrange(1, u.len() as int));
    assert(v.take(n) =~= u.subrange(1, n + 1));
    assert(v[n] == u[n + 1]);
    lemma_skip_to_close(s1, left, right, 1, n);
    assert(v.subrange(n + 1, v.len() as int) =~= u.subrange(n + 2, u.len() as int));
}

/// A declaration of a procedure: a path, parameters in parentheses, and a
/// body in braces. The procedure is registered at the path; the parameters
/// and the body are dropped, whatever tokens they hold, if only they are
/// balanced. `a` is the number of tokens between the parentheses, `b` the
/// number between the braces.
#[verifier::rlimit(40)]
pub proof fn theorem_procedure_declaration(
    p: ParserView,
    parent: Seq<Seq<char>>,
    nested: bool,
    names: Seq<Seq<char>>,
    a: int,
    b: int,
)
    requires
        !p.tree.finalized,
        0 <= a,
        0 <= b,
        spells_path(p.source.upcoming(), false, names),
        path_length(false, names) + a + b + 3 < p.source.upcoming().len(),
        is_punct(p.source.upcoming()[path_length(false, names)], Punctuation::LParen),
        balanced(
            p.source.upcoming().subrange(path_length(false, names) + 1, path_length(false, names) + 1 + a),
            Punctuation::LParen,
            Punctuation::RParen,
        ),
        is_punct(p.source.upcoming()[path_length(false, names) + 1 + a], Punctuation::RParen),
        is_punct(p.source.upcoming()[path_length(false, names) + 2 + a], Punctuation::LBrace),
        balanced(
            p.source.upcoming().subrange(path_length(false, names) + 3 + a, path_length(false, names) + 3 + a + b),
            Punctuation::LBrace,
            Punctuation::RBrace,
        ),
        is_punct(p.source.upcoming()[path_length(false, names) + 3 + a + b], Punctuation::RBrace),
    ensures
        tree_entry(p, parent, nested).1 == Ok::<Option<()>, DMErrorView>(Some(())),
        tree_entry(p, parent, nested).0.tree.declarations.len() == p.tree.declarations.len() + 1,
        tree_entry(p, parent, nested).0.tree.declarations.drop_last() == p.tree.declarations,
        tree_entry(p, parent, nested).0.tree.declarations.last() matches DeclarationView::Proc { path, .. }
            && path == parent + names,
        tree_entry(p, parent, nested).0.warnings == p.warnings,
        tree_entry(p, parent, nested).0.source.upcoming() == p.source.upcoming().subrange(
            path_length(false, names) + 4 + a + b,
            p.source.upcoming().len() as int,
        ),
{
    let u = p.source.upcoming();
    let k = path_length(false, names);
    let paren = punct(Punctuation::LParen);
    let brace = punct(Punctuation::LBrace);
    lemma_tree_path(p.source, false, names, false);
    let (s1, found) = tree_path(p.source);
    let v = s1.upcoming();
    assert(v[0] == u[k]);
    lemma_pull_reads_upcoming(p.source, ""@);
    lemma_pull_reads_upcoming(s1, ""@);
    // the size of a list: none is here
    lemma_pull_reads_upcoming(s1, "["@);
    let s2 = s1.pull("["@).0;
    lemma_put_back_upcoming(s2, paren);
    let s3 = s2.put_back(paren);
    assert(list_size(s1) == (s3, Ok::<(), DMErrorView>(())));
    assert(s3.upcoming() =~= v);
    lemma_pull_reads_upcoming(s3, ""@);
    // the contents: a procedure
    lemma_pull_reads_upcoming(s3, "contents"@);
    let s4 = s3.pull("contents"@).0;
    lemma_put_back_upcoming(s4, paren);
    let s5 = s4.put_back(paren);
    assert(s5.upcoming() =~= v);
    // the parameters
    assert(v.subrange(1, a + 1) =~= u.subrange(k + 1, k + 1 + a));
    assert(v[a + 1] == u[k + 1 + a]);
    theorem_group_is_skipped(s5, Punctuation::LParen, Punctuation::RParen, a);
    let s6 = ignore_group(s5, Punctuation::LParen, Punctuation::RParen).0;
    let w = s6.upcoming();
    assert(w =~= u.subrange(k + 2 + a, u.len() as int));
    assert(w[0] == u[k + 2 + a]);
    // the body
    lemma_pull_reads_upcoming(s6, "contents2"@);
    let s7 = s6.pull("contents2"@).0;
    lemma_put_back_upcoming(s7, brace);
    let s8 = s7.put_back(brace);
    assert(s8.upcoming() =~= w);
    assert(w.subrange(1, b + 1) =~= u.subrange(k + 3 + a, k + 3 + a + b));
    assert(w[b + 1] == u[k + 3 + a + b]);
    theorem_group_is_skipped(s8, Punctuation::LBrace, Punctuation::RBrace, b);
    let s9 = ignore_group(s8, Punctuation::LBrace, Punctuation::RBrace).0;
    assert(s9.upcoming() =~= u.subrange(k + 4 + a + b, u.len() as int));
    assert(proc_rest(s5) == (s9, Ok::<(), DMErrorView>(())));
    let full = full_path(parent, false, names);
    assert(full.len() > 0);
    let q = tree_entry(p, parent, nested).0;
    assert(q.tree.declarations =~= p.tree.declarations.push(
        DeclarationView::Proc { location: s4.location, path: full },
    ));
    assert(q.tree.declarations.drop_last() =~= p.tree.declarations);
}

} // verus!
