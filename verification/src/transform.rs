use vstd::prelude::*;

verus! {

/// A mutation operation to apply to a Merkle dictionary key.
#[derive(Debug, PartialEq, Eq)]
pub enum Transform {
    /// Insert a new value (fails if key exists).
    Insert(String),
    /// Update an existing value (fails if key doesn't exist).
    Update(String),
    /// Delete the value at this key.
    Delete,
}

/// Model of a transform: the operation with the characters of its value.
pub enum TransformView {
    Insert(Seq<char>),
    Update(Seq<char>),
    Delete,
}

impl View for Transform {
    type V = TransformView;

    open spec fn view(&self) -> TransformView {
        match self {
            Transform::Insert(v) => TransformView::Insert(v@),
            Transform::Update(v) => TransformView::Update(v@),
            Transform::Delete => TransformView::Delete,
        }
    }
}

impl Clone for Transform {
    fn clone(&self) -> (r: Self)
        ensures
            r@ == self@,
    {
        match self {
            Transform::Insert(v) => Transform::Insert(v.clone()),
            Transform::Update(v) => Transform::Update(v.clone()),
            Transform::Delete => Transform::Delete,
        }
    }
}

} // verus!
