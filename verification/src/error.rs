//! Typed navigation errors of the tree mutator, with a ghost model that
//! separates the underlying cause from the stack of path prefixes it was
//! wrapped with.

use vstd::prelude::*;
use crate::element::{pview, ElementView, PathBuf};

verus! {

/// The underlying cause of a navigation failure.
pub enum BaseError {
    FieldNotFound,
    SelectTargetIsNotArray,
    SelectMatchedMultipleItems,
    SelectMatchedNoItems,
    OutOfBounds,
}

/// A navigation error: a base cause, wrapped in zero or more `AtPath` frames
/// that record how far traversal succeeded.
#[derive(Debug, PartialEq)]
pub enum PathError {
    FieldNotFound,
    SelectTargetIsNotArray,
    SelectMatchedMultipleItems,
    SelectMatchedNoItems,
    OutOfBounds,
    AtPath(PathBuf, Box<PathError>),
}

/// Ghost model of a navigation error: the prefixes of its `AtPath` frames,
/// outermost first, and the base cause.
pub struct PathErrorView {
    pub at: Seq<Seq<ElementView>>,
    pub base: BaseError,
}

/// An unwrapped error.
pub open spec fn plain(b: BaseError) -> PathErrorView {
    PathErrorView { at: Seq::empty(), base: b }
}

/// An error wrapped with one more traversal prefix.
pub open spec fn at_path(prefix: Seq<ElementView>, e: PathErrorView) -> PathErrorView {
    PathErrorView { at: seq![prefix] + e.at, base: e.base }
}

impl PathError {
    pub open spec fn deep(self) -> PathErrorView
        decreases self,
    {
        match self {
            PathError::FieldNotFound => plain(BaseError::FieldNotFound),
            PathError::SelectTargetIsNotArray => plain(BaseError::SelectTargetIsNotArray),
            PathError::SelectMatchedMultipleItems => plain(BaseError::SelectMatchedMultipleItems),
            PathError::SelectMatchedNoItems => plain(BaseError::SelectMatchedNoItems),
            PathError::OutOfBounds => plain(BaseError::OutOfBounds),
            PathError::AtPath(p, inner) => at_path(pview(p.0@), inner.deep()),
        }
    }

    /// The exec form of an unwrapped error.
    pub fn from_base_exec(b: &BaseError) -> (r: PathError)
        ensures
            r.deep() == plain(*b),
    {
        match b {
            BaseError::FieldNotFound => PathError::FieldNotFound,
            BaseError::SelectTargetIsNotArray => PathError::SelectTargetIsNotArray,
            BaseError::SelectMatchedMultipleItems => PathError::SelectMatchedMultipleItems,
            BaseError::SelectMatchedNoItems => PathError::SelectMatchedNoItems,
            BaseError::OutOfBounds => PathError::OutOfBounds,
        }
    }
}

impl View for PathError {
    type V = PathErrorView;

    open spec fn view(&self) -> PathErrorView {
        self.deep()
    }
}

} // verus!
