//! The stack of paths of the blocks that enclose a declaration.

use vstd::prelude::*;
use crate::location::Location;

verus! {

/// One frame of the stack: the segments that a declaration added, and the
/// frame of the block around it. Only the root has `nested` unset.
pub struct PathStack<'a> {
    pub parent: Option<&'a PathStack<'a>>,
    pub parts: &'a Vec<String>,
    pub nested: bool,
}

/// An absolute path was declared inside a block: the declaration went to
/// the root, not into the block.
#[derive(Debug, PartialEq)]
pub struct PathWarning {
    pub location: Location,
    /// The path as declared.
    pub path: Vec<String>,
    /// The path of the block around the declaration.
    pub enclosing: Vec<String>,
}

pub struct PathWarningView {
    pub location: Location,
    pub path: Seq<Seq<char>>,
    pub enclosing: Seq<Seq<char>>,
}

impl View for PathWarning {
    type V = PathWarningView;

    open spec fn view(&self) -> PathWarningView {
        PathWarningView {
            location: self.location,
            path: self.path.deep_view(),
            enclosing: self.enclosing.deep_view(),
        }
    }
}

pub open spec fn warnings_view(v: Seq<PathWarning>) -> Seq<PathWarningView> {
    Seq::new(v.len(), |i: int| v[i]@)
}

/// The segments of the frames in `frames`, the last frame first.
pub open spec fn unwound(frames: Seq<&Vec<String>>) -> Seq<Seq<char>>
    decreases frames.len(),
{
    if frames.len() == 0 {
        Seq::empty()
    } else {
        frames.last().deep_view() + unwound(frames.drop_last())
    }
}

pub open spec fn chain(frame: Option<&PathStack>) -> Seq<Seq<char>> {
    match frame {
        Some(f) => f.flatten(),
        None => Seq::empty(),
    }
}

impl<'a> PathStack<'a> {
    /// The full path: the segments of every frame, outermost frame first.
    pub open spec fn flatten(&self) -> Seq<Seq<char>>
        decreases self,
    {
        match self.parent {
            None => self.parts.deep_view(),
            Some(p) => p.flatten() + self.parts.deep_view(),
        }
    }

    /// The full path, from the root to the innermost segment.
    pub fn iter(&self) -> (path: Vec<String>)
        ensures
            path.deep_view() == self.flatten(),
    {
        let mut frames: Vec<&Vec<String>> = Vec::new();
        let mut current: Option<&PathStack> = Some(self);
        while current.is_some()
            invariant
                self.flatten() == chain(current) + unwound(frames@),
            decreases current,
        {
            let frame = current.unwrap();
            let ghost before = frames@;
            frames.push(frame.parts);
            current = frame.parent;
            proof {
                assert(frames@.drop_last() =~= before);
                assert(self.flatten() =~= chain(current) + unwound(frames@));
            }
        }
        let mut path: Vec<String> = Vec::new();
        assert(path.deep_view() =~= Seq::empty());
        while frames.len() > 0
            invariant
                self.flatten() == path.deep_view() + unwound(frames@),
            decreases frames.len(),
        {
            let ghost before = frames@;
            let ghost base = path.deep_view();
            let frame = frames.pop().unwrap();
            assert(frames@ =~= before.drop_last());
            let mut i: usize = 0;
            while i < frame.len()
                invariant
                    i <= frame.len(),
                    path.deep_view() == base + frame.deep_view().take(i as int),
                decreases frame.len() - i,
            {
                let ghost prev = path.deep_view();
                let segment = frame[i].clone();
                path.push(segment);
                assert(path.deep_view() =~= prev.push(segment@));
                assert(frame.deep_view()[i as int] == segment@);
                i = i + 1;
                assert(path.deep_view() =~= base + frame.deep_view().take(i as int));
            }
            assert(frame.deep_view().take(i as int) =~= frame.deep_view());
            assert(self.flatten() =~= path.deep_view() + unwound(frames@));
        }
        assert(self.flatten() =~= path.deep_view());
        path
    }
}

} // verus!
