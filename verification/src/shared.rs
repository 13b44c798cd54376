//! Reference counting for buffers that are handed out by an owner (a slab or
//! a reclaim handle).
//!
//! A buffer handed out by an owner carries a [`Handle`]: one shared count of
//! everything that refers to the buffer (`users`), and one of the owner
//! together with those references (`owner`). The owner keeps a clone of
//! `owner` only. So the buffer has `users` references, it is still managed by
//! its owner as long as `owner` counts one more than `users`, and the owner
//! may hand it out again once it is the only one left on `owner`.

use vstd::prelude::*;

use std::sync::Arc;

verus! {

/// Calls `Arc::strong_count`. While the caller holds `a`, the allocation has
/// at least that one strong pointer; the exact number depends on the clones
/// that exist elsewhere, which is not stated.
#[verifier::external_body]
pub(crate) fn strong_count(a: &Arc<()>) -> (n: usize)
    ensures
        n >= 1,
{
    Arc::strong_count(a)
}

/// The references to a buffer, which an owner may have handed out.
pub(crate) struct Handle {
    pub(crate) users: Arc<()>,
    pub(crate) owner: Option<Arc<()>>,
}

impl Handle {
    /// A handle for a buffer that `owner` manages, with one user.
    pub(crate) fn new(owner: &Arc<()>) -> (h: Self)
        ensures
            h.owner is Some,
    {
        Handle { users: Arc::new(()), owner: Some(owner.clone()) }
    }

    /// A handle for a buffer that no owner manages, with one user.
    pub(crate) fn unowned() -> (h: Self)
        ensures
            h.owner is None,
    {
        Handle { users: Arc::new(()), owner: None }
    }

    /// Another reference to the same buffer.
    pub(crate) fn share(&self) -> (h: Self)
        ensures
            (h.owner is Some) == (self.owner is Some),
    {
        let owner = match &self.owner {
            Some(o) => Some(o.clone()),
            None => None,
        };
        Handle { users: self.users.clone(), owner }
    }

    /// The number of references to the buffer.
    pub(crate) fn users(&self) -> (n: usize)
        ensures
            n >= 1,
    {
        strong_count(&self.users)
    }

    /// Whether an owner still manages the buffer; never for a buffer that no
    /// owner was given.
    pub(crate) fn is_managed(&self) -> (b: bool)
        ensures
            self.owner is None ==> !b,
    {
        match &self.owner {
            Some(owner) => strong_count(owner) > strong_count(&self.users),
            None => false,
        }
    }
}

/// Whether an owner holding `owner` is the only one left that refers to its
/// buffer.
pub(crate) fn owner_is_alone(owner: &Arc<()>) -> (b: bool) {
    strong_count(owner) == 1
}

} // verus!
