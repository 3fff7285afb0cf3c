//! The syntax tree of expressions, and its mathematical content.
//!
//! Each tree type has a view in which text is a sequence of characters and
//! every list a sequence; the parser's contracts are stated over the views.

use vstd::prelude::*;
use linked_hash_map::LinkedHashMap;

verus! {

/// A prefix operator.
#[derive(Clone, Copy, Debug, PartialEq, Eq, Structural)]
pub enum UnaryOp {
    Neg,
    Not,
    BitNot,
}

/// An operator between two operands that computes a value.
#[derive(Clone, Copy, Debug, PartialEq, Eq, Structural)]
pub enum BinaryOp {
    Pow,
    Mul,
    Div,
    Mod,
    Add,
    Sub,
    Less,
    Greater,
    LessEq,
    GreaterEq,
    LShift,
    RShift,
    Eq,
    NotEq,
    BitAnd,
    BitXor,
    BitOr,
    And,
    Or,
}

/// An operator that stores into its left operand.
#[derive(Clone, Copy, Debug, PartialEq, Eq, Structural)]
pub enum AssignOp {
    Assign,
    AddAssign,
    SubAssign,
    MulAssign,
    DivAssign,
    BitAndAssign,
    BitOrAssign,
    BitXorAssign,
    LShiftAssign,
    RShiftAssign,
}

/// The separator in front of a segment of a type-path literal.
#[derive(Clone, Copy, Debug, PartialEq, Eq, Structural)]
pub enum PathOp {
    /// `/`: an absolute path.
    Slash,
    /// `.`: a relative path.
    Dot,
    /// `:`: a scoped reference.
    Colon,
}

impl View for PathOp {
    type V = PathOp;

    open spec fn view(&self) -> PathOp {
        *self
    }
}

impl DeepView for PathOp {
    type V = PathOp;

    open spec fn deep_view(&self) -> PathOp {
        *self
    }
}

/// An expression.
#[allow(inconsistent_fields)]
#[derive(Debug, PartialEq)]
pub enum Expression {
    /// A term with its prefix operators and postfix operations.
    Base { unary: Vec<UnaryOp>, term: Term, follow: Vec<Follow> },
    BinaryOp { op: BinaryOp, lhs: Box<Expression>, rhs: Box<Expression> },
    AssignOp { op: AssignOp, lhs: Box<Expression>, rhs: Box<Expression> },
}

/// The operand at the heart of an expression.
#[derive(Debug, PartialEq)]
pub enum Term {
    New { type_: NewType, args: Option<Vec<Expression>> },
    List(Vec<(Expression, Option<Expression>)>),
    Prefab(Prefab),
    Call(String, Vec<Expression>),
    Ident(String),
    String(String),
    Resource(String),
    Int(i32),
    /// A floating-point literal, as the bit pattern of the number.
    Float(u32),
    Expr(Box<Expression>),
}

/// What a `new` expression constructs.
#[derive(Debug, PartialEq)]
pub enum NewType {
    /// Nothing was named: the type follows from the context.
    Implicit,
    Ident(String),
    Prefab(Prefab),
}

/// A postfix operation on a term.
#[derive(Debug, PartialEq)]
pub enum Follow {
    Field(String),
    Call(String, Vec<Expression>),
    Index(Box<Expression>),
    Cast(String),
}

#[verifier::external_type_specification]
#[verifier::external_body]
#[verifier::reject_recursive_types(K)]
#[verifier::reject_recursive_types(V)]
#[verifier::reject_recursive_types(S)]
pub struct ExLinkedHashMap<K, V, S>(LinkedHashMap<K, V, S>);

/// A type-path literal with its variable overrides. The overrides are kept in
/// the order in which their names were last given.
///
/// `==` compares how the overrides are stored: it holds of two prefabs that
/// were built by the same insertions. To compare what two prefabs hold,
/// compare what `vars` gives.
#[derive(Debug, PartialEq)]
pub struct Prefab {
    path: Vec<(PathOp, String)>,
    slots: LinkedHashMap<String, usize>,
    values: Vec<Expression>,
}

#[allow(inconsistent_fields)]
pub enum ExpressionView {
    Base { unary: Seq<UnaryOp>, term: TermView, follow: Seq<FollowView> },
    BinaryOp { op: BinaryOp, lhs: Box<ExpressionView>, rhs: Box<ExpressionView> },
    AssignOp { op: AssignOp, lhs: Box<ExpressionView>, rhs: Box<ExpressionView> },
}

pub enum TermView {
    New { type_: NewTypeView, args: Option<Seq<ExpressionView>> },
    List(Seq<(ExpressionView, Option<ExpressionView>)>),
    Prefab(PrefabView),
    Call(Seq<char>, Seq<ExpressionView>),
    Ident(Seq<char>),
    String(Seq<char>),
    Resource(Seq<char>),
    Int(i32),
    Float(u32),
    Expr(Box<ExpressionView>),
}

pub enum NewTypeView {
    Implicit,
    Ident(Seq<char>),
    Prefab(PrefabView),
}

pub enum FollowView {
    Field(Seq<char>),
    Call(Seq<char>, Seq<ExpressionView>),
    Index(Box<ExpressionView>),
    Cast(Seq<char>),
}

pub struct PrefabView {
    pub path: Seq<(PathOp, Seq<char>)>,
    pub vars: Seq<(Seq<char>, ExpressionView)>,
}

/// What the map of a prefab holds: each name with the place of its value, in
/// the order in which the map hands them out.
pub uninterp spec fn var_slots(m: LinkedHashMap<String, usize>) -> Seq<(Seq<char>, usize)>;

/// The entries of `s` whose name is not `key`, in their order.
pub open spec fn without_key<T>(s: Seq<(Seq<char>, T)>, key: Seq<char>) -> Seq<(Seq<char>, T)>
    decreases s.len(),
{
    if s.len() == 0 {
        s
    } else if s.last().0 == key {
        without_key(s.drop_last(), key)
    } else {
        without_key(s.drop_last(), key).push(s.last())
    }
}

/// An ordered mapping after `key` is given `value`: an earlier entry of that
/// name leaves, and the new entry comes last.
pub open spec fn with_entry<T>(s: Seq<(Seq<char>, T)>, key: Seq<char>, value: T) -> Seq<(Seq<char>, T)> {
    without_key(s, key).push((key, value))
}

pub open spec fn expression_view(e: Expression) -> ExpressionView
    decreases e,
{
    match e {
        Expression::Base { unary, term, follow } => ExpressionView::Base {
            unary: unary@,
            term: term_view(term),
            follow: follows_view(follow@),
        },
        Expression::BinaryOp { op, lhs, rhs } => ExpressionView::BinaryOp {
            op,
            lhs: Box::new(expression_view(*lhs)),
            rhs: Box::new(expression_view(*rhs)),
        },
        Expression::AssignOp { op, lhs, rhs } => ExpressionView::AssignOp {
            op,
            lhs: Box::new(expression_view(*lhs)),
            rhs: Box::new(expression_view(*rhs)),
        },
    }
}

pub open spec fn expressions_view(v: Seq<Expression>) -> Seq<ExpressionView>
    decreases v,
{
    Seq::new(v.len(), |i: int| if 0 <= i < v.len() { expression_view(v[i]) } else { arbitrary() })
}

pub open spec fn follows_view(v: Seq<Follow>) -> Seq<FollowView>
    decreases v,
{
    Seq::new(v.len(), |i: int| if 0 <= i < v.len() { follow_view(v[i]) } else { arbitrary() })
}

pub open spec fn list_entry_view(entry: (Expression, Option<Expression>)) -> (ExpressionView, Option<ExpressionView>)
    decreases entry,
{
    (
        expression_view(entry.0),
        match entry.1 {
            Some(e) => Some(expression_view(e)),
            None => None,
        },
    )
}

pub open spec fn list_view(v: Seq<(Expression, Option<Expression>)>) -> Seq<(ExpressionView, Option<ExpressionView>)>
    decreases v,
{
    Seq::new(v.len(), |i: int| if 0 <= i < v.len() { list_entry_view(v[i]) } else { arbitrary() })
}

pub open spec fn term_view(t: Term) -> TermView
    decreases t,
{
    match t {
        Term::New { type_, args } => TermView::New {
            type_: new_type_view(type_),
            args: match args {
                Some(a) => Some(expressions_view(a@)),
                None => None,
            },
        },
        Term::List(entries) => TermView::List(list_view(entries@)),
        Term::Prefab(p) => TermView::Prefab(prefab_view(p)),
        Term::Call(name, args) => TermView::Call(name@, expressions_view(args@)),
        Term::Ident(name) => TermView::Ident(name@),
        Term::String(text) => TermView::String(text@),
        Term::Resource(text) => TermView::Resource(text@),
        Term::Int(i) => TermView::Int(i),
        Term::Float(bits) => TermView::Float(bits),
        Term::Expr(e) => TermView::Expr(Box::new(expression_view(*e))),
    }
}

pub open spec fn new_type_view(t: NewType) -> NewTypeView
    decreases t,
{
    match t {
        NewType::Implicit => NewTypeView::Implicit,
        NewType::Ident(name) => NewTypeView::Ident(name@),
        NewType::Prefab(p) => NewTypeView::Prefab(prefab_view(p)),
    }
}

pub open spec fn follow_view(f: Follow) -> FollowView
    decreases f,
{
    match f {
        Follow::Field(name) => FollowView::Field(name@),
        Follow::Call(name, args) => FollowView::Call(name@, expressions_view(args@)),
        Follow::Index(e) => FollowView::Index(Box::new(expression_view(*e))),
        Follow::Cast(name) => FollowView::Cast(name@),
    }
}

/// The overrides of a prefab: each name with the value stored at its place.
pub open spec fn vars_view(values: Seq<Expression>, slots: Seq<(Seq<char>, usize)>) -> Seq<(Seq<char>, ExpressionView)>
    decreases values,
{
    Seq::new(
        slots.len(),
        |i: int|
            (
                slots[i].0,
                if slots[i].1 < values.len() {
                    expression_view(values[slots[i].1 as int])
                } else {
                    arbitrary()
                },
            ),
    )
}

pub closed spec fn prefab_view(p: Prefab) -> PrefabView
    decreases p,
{
    PrefabView { path: p.path.deep_view(), vars: vars_view(p.values@, var_slots(p.slots)) }
}

impl View for Expression {
    type V = ExpressionView;

    open spec fn view(&self) -> ExpressionView {
        expression_view(*self)
    }
}

impl View for Term {
    type V = TermView;

    open spec fn view(&self) -> TermView {
        term_view(*self)
    }
}

impl View for NewType {
    type V = NewTypeView;

    open spec fn view(&self) -> NewTypeView {
        new_type_view(*self)
    }
}

impl View for Follow {
    type V = FollowView;

    open spec fn view(&self) -> FollowView {
        follow_view(*self)
    }
}

impl View for Prefab {
    type V = PrefabView;

    open spec fn view(&self) -> PrefabView {
        prefab_view(*self)
    }
}

/// The views of lists that hold nothing.
pub proof fn lemma_views_empty()
    ensures
        expressions_view(Seq::empty()) == Seq::<ExpressionView>::empty(),
        follows_view(Seq::empty()) == Seq::<FollowView>::empty(),
        list_view(Seq::empty()) == Seq::<(ExpressionView, Option<ExpressionView>)>::empty(),
{
    assert(expressions_view(Seq::empty()) =~= Seq::<ExpressionView>::empty());
    assert(follows_view(Seq::empty()) =~= Seq::<FollowView>::empty());
    assert(list_view(Seq::empty()) =~= Seq::<(ExpressionView, Option<ExpressionView>)>::empty());
}

/// The views of a list that grows by one element.
pub proof fn lemma_expressions_push(v: Seq<Expression>, e: Expression)
    ensures
        expressions_view(v.push(e)) == expressions_view(v).push(e@),
        expressions_view(Seq::empty()) == Seq::<ExpressionView>::empty(),
{
    assert(expressions_view(v.push(e)) =~= expressions_view(v).push(e@));
    assert(expressions_view(Seq::empty()) =~= Seq::<ExpressionView>::empty());
}

pub proof fn lemma_follows_push(v: Seq<Follow>, f: Follow)
    ensures
        follows_view(v.push(f)) == follows_view(v).push(f@),
        follows_view(Seq::empty()) == Seq::<FollowView>::empty(),
{
    assert(follows_view(v.push(f)) =~= follows_view(v).push(f@));
    assert(follows_view(Seq::empty()) =~= Seq::<FollowView>::empty());
}

pub proof fn lemma_list_push(v: Seq<(Expression, Option<Expression>)>, entry: (Expression, Option<Expression>))
    ensures
        list_view(v.push(entry)) == list_view(v).push(list_entry_view(entry)),
        list_view(Seq::empty()) == Seq::<(ExpressionView, Option<ExpressionView>)>::empty(),
{
    assert(list_view(v.push(entry)) =~= list_view(v).push(list_entry_view(entry)));
    assert(list_view(Seq::empty()) =~= Seq::<(ExpressionView, Option<ExpressionView>)>::empty());
}

/// `LinkedHashMap::new`: a map that holds nothing.
#[verifier::external_body]
fn slots_new() -> (m: LinkedHashMap<String, usize>)
    ensures
        var_slots(m) == Seq::<(Seq<char>, usize)>::empty(),
{
    LinkedHashMap::new()
}

/// `LinkedHashMap::insert`: the name gets the new place and moves to the end
/// of the order; an entry that the name had before is replaced.
#[verifier::external_body]
fn slots_insert(m: &mut LinkedHashMap<String, usize>, key: String, slot: usize)
    ensures
        var_slots(*final(m)) == with_entry(var_slots(*old(m)), key@, slot),
{
    m.insert(key, slot);
}

/// `LinkedHashMap::iter`: the entries in the map's order, each copied out.
#[verifier::external_body]
fn slots_list(m: &LinkedHashMap<String, usize>) -> (v: Vec<(String, usize)>)
    ensures
        v.deep_view() == var_slots(*m),
{
    m.iter().map(|(name, slot)| (name.clone(), *slot)).collect()
}

/// Whatever is left after a name is taken out was there before.
pub proof fn lemma_without_key_subset<T>(s: Seq<(Seq<char>, T)>, key: Seq<char>)
    ensures
        forall|i: int| 0 <= i < without_key(s, key).len() ==> s.contains(#[trigger] without_key(s, key)[i]),
        forall|i: int| 0 <= i < without_key(s, key).len() ==> (#[trigger] without_key(s, key)[i]).0 != key,
        without_key(s, key).len() <= s.len(),
    decreases s.len(),
{
    if s.len() > 0 {
        lemma_without_key_subset(s.drop_last(), key);
        let w = without_key(s, key);
        let w0 = without_key(s.drop_last(), key);
        assert forall|i: int| 0 <= i < w.len() implies s.contains(#[trigger] w[i]) by {
            if i < w0.len() {
                assert(w[i] == w0[i]);
                let j = choose|j: int| 0 <= j < s.drop_last().len() && s.drop_last()[j] == w0[i];
                assert(s[j] == w[i]);
            } else {
                assert(w[i] == s.last());
                assert(s[s.len() - 1] == w[i]);
            }
        }
    }
}

/// Taking a name out commutes with looking the values up, also when the list
/// of values has grown meanwhile.
proof fn lemma_vars_view_without(values: Seq<Expression>, grown: Seq<Expression>, slots: Seq<(Seq<char>, usize)>, key: Seq<char>)
    requires
        values.len() <= grown.len(),
        forall|i: int| 0 <= i < values.len() ==> grown[i] == values[i],
        forall|i: int| 0 <= i < slots.len() ==> (#[trigger] slots[i]).1 < values.len(),
    ensures
        vars_view(grown, without_key(slots, key)) == without_key(vars_view(values, slots), key),
    decreases slots.len(),
{
    let v = vars_view(values, slots);
    if slots.len() == 0 {
        assert(vars_view(grown, without_key(slots, key)) =~= without_key(v, key));
    } else {
        lemma_vars_view_without(values, grown, slots.drop_last(), key);
        assert(v.drop_last() =~= vars_view(values, slots.drop_last()));
        let last = slots.last();
        assert(v.last() == (last.0, expression_view(values[last.1 as int])));
        if last.0 == key {
        } else {
            assert(vars_view(grown, without_key(slots.drop_last(), key).push(last))
                =~= vars_view(grown, without_key(slots.drop_last(), key)).push(v.last()));
        }
    }
}

impl Prefab {
    /// Every place that the map names holds a value.
    #[verifier::type_invariant]
    spec fn slots_in_range(self) -> bool {
        forall|i: int| 0 <= i < var_slots(self.slots).len() ==> (#[trigger] var_slots(self.slots)[i]).1 < self.values@.len()
    }

    /// A type-path literal without overrides.
    pub fn new(path: Vec<(PathOp, String)>) -> (p: Prefab)
        ensures
            p@ == (PrefabView { path: path.deep_view(), vars: Seq::empty() }),
    {
        let p = Prefab { path, slots: slots_new(), values: Vec::new() };
        assert(p@.vars =~= Seq::empty());
        p
    }

    /// Gives the variable `name` the initializer `value`. A name that was
    /// given before loses its earlier value and moves to the end.
    pub fn insert(self, name: String, value: Expression) -> (p: Prefab)
        ensures
            p@ == (PrefabView { path: self@.path, vars: with_entry(self@.vars, name@, value@) }),
    {
        proof {
            use_type_invariant(&self);
        }
        let ghost old_values = self.values@;
        let ghost old_slots = var_slots(self.slots);
        let Prefab { path, slots, values } = self;
        let mut slots = slots;
        let mut values = values;
        let slot = values.len();
        values.push(value);
        slots_insert(&mut slots, name, slot);
        proof {
            let grown = values@;
            lemma_without_key_subset(old_slots, name@);
            lemma_vars_view_without(old_values, grown, old_slots, name@);
            assert(vars_view(grown, with_entry(old_slots, name@, slot))
                =~= vars_view(grown, without_key(old_slots, name@)).push((name@, value@)));
            assert forall|i: int| 0 <= i < var_slots(slots).len() implies (#[trigger] var_slots(slots)[i]).1 < grown.len() by {
                if i < without_key(old_slots, name@).len() {
                    assert(old_slots.contains(without_key(old_slots, name@)[i]));
                }
            }
        }
        Prefab { path, slots, values }
    }

    /// The segments of the path, each with the separator in front of it.
    pub fn path(&self) -> (path: &Vec<(PathOp, String)>)
        ensures
            path.deep_view() == self@.path,
    {
        &self.path
    }

    /// The overrides in their order, each name with its initializer.
    pub fn vars(&self) -> (vars: Vec<(String, &Expression)>)
        ensures
            vars@.len() == self@.vars.len(),
            forall|i: int| 0 <= i < vars@.len() ==> (#[trigger] vars@[i]).0@ == self@.vars[i].0 && vars@[i].1@ == self@.vars[i].1,
    {
        proof {
            use_type_invariant(self);
        }
        let list = slots_list(&self.slots);
        let mut vars: Vec<(String, &Expression)> = Vec::new();
        let mut i: usize = 0;
        while i < list.len()
            invariant
                i <= list.len(),
                list.deep_view() == var_slots(self.slots),
                forall|k: int| 0 <= k < var_slots(self.slots).len() ==> (#[trigger] var_slots(self.slots)[k]).1 < self.values@.len(),
                vars@.len() == i,
                forall|k: int| 0 <= k < i ==> (#[trigger] vars@[k]).0@ == self@.vars[k].0 && vars@[k].1@ == self@.vars[k].1,
            decreases list.len() - i,
        {
            assert(list.deep_view()[i as int] == var_slots(self.slots)[i as int]);
            assert(list.deep_view()[i as int] == (list@[i as int].0@, list@[i as int].1));
            let slot = list[i].1;
            vars.push((list[i].0.clone(), &self.values[slot]));
            i = i + 1;
        }
        vars
    }
}

} // verus!
