//! The list of moves that a search has made so far, kept in a `SmallVec` that
//! holds up to 32 moves without allocating.

use vstd::prelude::*;
use smallvec::SmallVec;
use crate::board::action::Action;

verus! {

/// A list of moves in the order in which they are made. It is a
/// `smallvec::SmallVec<[Action; 32]>`, of which nothing is known here but what
/// the functions of this file state over `path_items`.
#[verifier::external_body]
pub struct ActionPath {
    inner: SmallVec<[Action; 32]>,
}

/// The moves that the list holds, first move first.
pub uninterp spec fn path_items(path: ActionPath) -> Seq<Action>;

/// `SmallVec::new`: the new list holds nothing.
#[verifier::external_body]
fn path_new() -> (path: ActionPath)
    ensures
        path_items(path) == Seq::<Action>::empty(),
{
    ActionPath { inner: SmallVec::new() }
}

/// `SmallVec::len`: the number of moves in the list.
#[verifier::external_body]
fn path_len(path: &ActionPath) -> (len: usize)
    ensures
        len == path_items(*path).len(),
{
    path.inner.len()
}

/// `SmallVec::push`: the move is appended at the end, the rest stays.
#[verifier::external_body]
fn path_push(path: &mut ActionPath, action: Action)
    ensures
        path_items(*final(path)) == path_items(*old(path)).push(action),
{
    path.inner.push(action)
}

/// `SmallVec::pop`: the last move is removed and returned, or nothing is
/// changed and `None` returned where the list is empty.
#[verifier::external_body]
fn path_pop(path: &mut ActionPath) -> (last: Option<Action>)
    ensures
        path_items(*old(path)).len() == 0 ==> last is None && path_items(*final(path))
            == path_items(*old(path)),
        path_items(*old(path)).len() > 0 ==> last == Some(path_items(*old(path)).last())
            && path_items(*final(path)) == path_items(*old(path)).drop_last(),
{
    path.inner.pop()
}

/// Indexing a `SmallVec`, which derefs to a slice: the move at position `index`.
#[verifier::external_body]
fn path_get(path: &ActionPath, index: usize) -> (action: Action)
    requires
        index < path_items(*path).len(),
    ensures
        action == path_items(*path)[index as int],
{
    path.inner[index]
}

/// `Clone` for `SmallVec`: the copy holds the same moves in the same order.
#[verifier::external_body]
fn path_clone(path: &ActionPath) -> (copy: ActionPath)
    ensures
        path_items(copy) == path_items(*path),
{
    ActionPath { inner: path.inner.clone() }
}

impl View for ActionPath {
    type V = Seq<Action>;

    open spec fn view(&self) -> Seq<Action> {
        path_items(*self)
    }
}

impl Clone for ActionPath {
    /// Copies the list.
    fn clone(&self) -> (copy: ActionPath)
        ensures
            copy@ == self@,
    {
        path_clone(self)
    }
}

impl ActionPath {
    /// Builds an empty list.
    pub fn new() -> (path: ActionPath)
        ensures
            path@ == Seq::<Action>::empty(),
    {
        path_new()
    }

    /// Returns the number of moves in the list.
    pub fn len(&self) -> (len: usize)
        ensures
            len == self@.len(),
    {
        path_len(self)
    }

    /// Appends a move at the end of the list.
    pub fn push(&mut self, action: Action)
        ensures
            final(self)@ == old(self)@.push(action),
    {
        path_push(self, action)
    }

    /// Removes the last move from the list and returns it, if there is one.
    pub fn pop(&mut self) -> (last: Option<Action>)
        ensures
            old(self)@.len() == 0 ==> last is None && final(self)@ == old(self)@,
            old(self)@.len() > 0 ==> last == Some(old(self)@.last()) && final(self)@ == old(
                self,
            )@.drop_last(),
    {
        path_pop(self)
    }

    /// Returns the move at position `index`, if the list is that long.
    pub fn get(&self, index: usize) -> (action: Option<Action>)
        ensures
            index < self@.len() ==> action == Some(self@[index as int]),
            index >= self@.len() ==> action is None,
    {
        if index < path_len(self) {
            Some(path_get(self, index))
        } else {
            None
        }
    }
}

} // verus!
