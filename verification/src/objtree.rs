//! The object tree: the record of every declaration that was registered.

use vstd::prelude::*;
use crate::ast::{Expression, ExpressionView};
use crate::location::{DMError, DMErrorView, Location};

verus! {

/// One registered declaration. Its path is the full sequence of segment
/// names from the root.
#[derive(Debug, PartialEq)]
pub enum Declaration {
    /// A type node.
    Entry { location: Location, path: Vec<String> },
    /// A variable with its initializer.
    Var { location: Location, path: Vec<String>, value: Expression },
    /// A procedure.
    Proc { location: Location, path: Vec<String> },
}

pub enum DeclarationView {
    Entry { location: Location, path: Seq<Seq<char>> },
    Var { location: Location, path: Seq<Seq<char>>, value: ExpressionView },
    Proc { location: Location, path: Seq<Seq<char>> },
}

impl View for Declaration {
    type V = DeclarationView;

    open spec fn view(&self) -> DeclarationView {
        match self {
            Declaration::Entry { location, path } => DeclarationView::Entry {
                location: *location,
                path: path.deep_view(),
            },
            Declaration::Var { location, path, value } => DeclarationView::Var {
                location: *location,
                path: path.deep_view(),
                value: value@,
            },
            Declaration::Proc { location, path } => DeclarationView::Proc {
                location: *location,
                path: path.deep_view(),
            },
        }
    }
}

/// The declarations in the order of their registration, and whether the tree
/// has been finalized.
#[derive(Debug, PartialEq)]
pub struct ObjectTree {
    declarations: Vec<Declaration>,
    finalized: bool,
}

pub struct ObjectTreeView {
    pub declarations: Seq<DeclarationView>,
    pub finalized: bool,
}

impl ObjectTreeView {
    pub open spec fn empty() -> ObjectTreeView {
        ObjectTreeView { declarations: Seq::empty(), finalized: false }
    }

    /// Registering a declaration at `path`: refused once the tree has been
    /// finalized, and for the empty path, which names the root itself;
    /// otherwise the declaration is appended.
    pub open spec fn register(self, location: Location, path: Seq<Seq<char>>, declaration: DeclarationView) -> Result<ObjectTreeView, DMErrorView> {
        if self.finalized {
            Err(DMErrorView { location, description: "the tree is already finalized"@ })
        } else if path.len() == 0 {
            Err(DMErrorView { location, description: "cannot register the root path"@ })
        } else {
            Ok(ObjectTreeView { declarations: self.declarations.push(declaration), finalized: false })
        }
    }

    pub open spec fn add_entry(self, location: Location, path: Seq<Seq<char>>) -> Result<ObjectTreeView, DMErrorView> {
        self.register(location, path, DeclarationView::Entry { location, path })
    }

    pub open spec fn add_var(self, location: Location, path: Seq<Seq<char>>, value: ExpressionView) -> Result<ObjectTreeView, DMErrorView> {
        self.register(location, path, DeclarationView::Var { location, path, value })
    }

    pub open spec fn add_proc(self, location: Location, path: Seq<Seq<char>>) -> Result<ObjectTreeView, DMErrorView> {
        self.register(location, path, DeclarationView::Proc { location, path })
    }

    /// Finalizing: refused the second time.
    pub open spec fn finalize(self) -> Result<ObjectTreeView, DMErrorView> {
        if self.finalized {
            Err(DMErrorView { location: Location::start(), description: "the tree is already finalized"@ })
        } else {
            Ok(ObjectTreeView { declarations: self.declarations, finalized: true })
        }
    }
}

pub open spec fn declarations_view(v: Seq<Declaration>) -> Seq<DeclarationView> {
    Seq::new(v.len(), |i: int| v[i]@)
}

impl View for ObjectTree {
    type V = ObjectTreeView;

    closed spec fn view(&self) -> ObjectTreeView {
        ObjectTreeView { declarations: declarations_view(self.declarations@), finalized: self.finalized }
    }
}

/// Says how a registration went: `outcome` is what the model gives for it,
/// `result` and `after` are what the tree returned and became.
pub open spec fn registered(before: ObjectTreeView, outcome: Result<ObjectTreeView, DMErrorView>, after: ObjectTreeView, result: Result<(), DMError>) -> bool {
    match outcome {
        Ok(t) => result is Ok && after == t,
        Err(e) => result matches Err(x) && x@ == e && after == before,
    }
}

impl ObjectTree {
    /// A tree without declarations.
    pub fn new() -> (t: ObjectTree)
        ensures
            t@ == ObjectTreeView::empty(),
    {
        let t = ObjectTree { declarations: Vec::new(), finalized: false };
        assert(t@.declarations =~= Seq::empty());
        t
    }

    fn register(&mut self, location: Location, declaration: Declaration, Ghost(path): Ghost<Seq<Seq<char>>>, empty_path: bool) -> (r: Result<(), DMError>)
        requires
            empty_path == (path.len() == 0),
        ensures
            registered(old(self)@, old(self)@.register(location, path, declaration@), final(self)@, r),
    {
        if self.finalized {
            Err(DMError::new(location, "the tree is already finalized".to_owned()))
        } else if empty_path {
            Err(DMError::new(location, "cannot register the root path".to_owned()))
        } else {
            self.declarations.push(declaration);
            assert(self@.declarations =~= old(self)@.declarations.push(declaration@));
            Ok(())
        }
    }

    /// Registers a type node.
    pub fn add_entry(&mut self, location: Location, path: Vec<String>) -> (r: Result<(), DMError>)
        ensures
            registered(old(self)@, old(self)@.add_entry(location, path.deep_view()), final(self)@, r),
    {
        let ghost p = path.deep_view();
        let empty = path.len() == 0;
        self.register(location, Declaration::Entry { location, path }, Ghost(p), empty)
    }

    /// Registers a variable with its initializer.
    pub fn add_var(&mut self, location: Location, path: Vec<String>, value: Expression) -> (r: Result<(), DMError>)
        ensures
            registered(old(self)@, old(self)@.add_var(location, path.deep_view(), value@), final(self)@, r),
    {
        let ghost p = path.deep_view();
        let empty = path.len() == 0;
        self.register(location, Declaration::Var { location, path, value }, Ghost(p), empty)
    }

    /// Registers a procedure.
    pub fn add_proc(&mut self, location: Location, path: Vec<String>) -> (r: Result<(), DMError>)
        ensures
            registered(old(self)@, old(self)@.add_proc(location, path.deep_view()), final(self)@, r),
    {
        let ghost p = path.deep_view();
        let empty = path.len() == 0;
        self.register(location, Declaration::Proc { location, path }, Ghost(p), empty)
    }

    /// Closes the tree: nothing can be registered afterwards.
    pub fn finalize(&mut self) -> (r: Result<(), DMError>)
        ensures
            registered(old(self)@, old(self)@.finalize(), final(self)@, r),
    {
        if self.finalized {
            Err(DMError::new(Location::default(), "the tree is already finalized".to_owned()))
        } else {
            self.finalized = true;
            Ok(())
        }
    }

    /// The declarations in the order of their registration.
    pub fn declarations(&self) -> (d: &Vec<Declaration>)
        ensures
            declarations_view(d@) == self@.declarations,
    {
        &self.declarations
    }

    pub fn is_finalized(&self) -> (b: bool)
        ensures
            b == self@.finalized,
    {
        self.finalized
    }
}

} // verus!
