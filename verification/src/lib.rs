//! A safe access layer over a compiler's in-memory intermediate
//! representation: a graph of modules, operations, regions, blocks, values,
//! types and attributes, all rooted in a context that owns their storage.
//!
//! Every entity is reached through a raw handle whose zero value means
//! "absent": the end of a list, a missing attribute, a failed parse or an
//! out-of-range index. The layer admits a raw handle only through a single
//! checked constructor, distinguishes handles the caller must release from
//! borrowed views, and exposes forward-only traversal over the tree of
//! linked lists, returning an optional wrapper at every step.

use vstd::prelude::*;

pub mod firrtl;
pub mod mlir;
pub mod store;
pub mod text;

verus! {

/// A raw handle as the native layer hands it out: a value that may denote a
/// real entity or, when its pointer part is zero, absence.
pub trait BindingType: Sized {
    /// Whether this handle denotes absence.
    spec fn spec_is_null(&self) -> bool;

    /// Reports whether this handle denotes absence.
    fn is_null(&self) -> (r: bool)
        ensures
            r == self.spec_is_null(),
    ;
}

/// A typed wrapper around some raw handle.
///
/// `try_from_raw` is the single admission point for raw handles: it returns
/// absence exactly when the handle is null, and otherwise a wrapper whose
/// `raw` accessor reproduces the original handle.
pub trait Wrapper: Sized {
    type Inner: BindingType;

    /// The underlying raw handle.
    spec fn spec_raw(&self) -> Self::Inner;

    /// Returns the underlying raw handle, for handing back to the layer
    /// that produced it.
    fn raw(&self) -> (r: Self::Inner)
        ensures
            r == self.spec_raw(),
    ;

    /// Borrows the underlying raw handle.
    fn raw_ref(&self) -> (r: &Self::Inner)
        ensures
            *r == self.spec_raw(),
    ;

    /// Admits a raw handle into the safe layer: absence for a null handle,
    /// and otherwise a wrapper that reproduces the handle exactly.
    fn try_from_raw(raw: Self::Inner) -> (r: Option<Self>)
        ensures
            r is Some <==> !raw.spec_is_null(),
            r is Some ==> r->0.spec_raw() == raw,
    ;
}

/// A wrapper whose holder may be responsible for releasing the entity.
pub trait IntoOwned: Wrapper {
    /// Releases the entity and leaves the handle null, so that a second
    /// release of the same wrapper is ruled out by the contract.
    fn destroy(&mut self)
        requires
            !old(self).spec_raw().spec_is_null(),
        ensures
            final(self).spec_raw().spec_is_null(),
    ;

    /// Takes on the release obligation. Boxing a null handle as owned would
    /// be a logic defect, so that input is excluded outright.
    fn into_owned(self) -> (r: Owned<Self>)
        requires
            !self.spec_raw().spec_is_null(),
        ensures
            r.inner() == self,
    {
        Owned { it: self }
    }
}

/// The ownership container: holds a wrapper that this holder must release.
///
/// Release consumes the container, and the wrapped entity can never be moved
/// out, so the release operation cannot run twice for the same container:
/// once released, no borrow of the container can remain alive, and no second
/// owning container over the same entity can be made from it.
pub struct Owned<T> {
    it: T,
}

impl<T> Owned<T> {
    /// The wrapped entity.
    pub closed spec fn inner(&self) -> T {
        self.it
    }

    /// Read access to the wrapped entity.
    pub fn get(&self) -> (r: &T)
        ensures
            *r == self.inner(),
    {
        &self.it
    }

    /// Exclusive access to the wrapped entity.
    pub fn get_mut(&mut self) -> (r: &mut T)
        ensures
            *r == old(self).inner(),
            final(self).inner() == *final(r),
    {
        &mut self.it
    }
}

impl<T: IntoOwned> Owned<T> {
    /// Releases the entity. Consuming the container makes a repeated
    /// release unrepresentable; releasing an already-null handle would mask
    /// a double-release elsewhere, so that state is excluded outright.
    pub fn release(self)
        requires
            !self.inner().spec_raw().spec_is_null(),
    {
        let mut it = self.it;
        it.destroy();
    }
}

/// The broad kind of a hardware-dialect operation.
pub enum FirrtlOpKind {
    Circuit,
    Module,
}

/// A hardware-dialect operation paired with its kind.
#[allow(dead_code)]
pub struct FirrtlOp {
    _op: mlir::Operation,
    kind: FirrtlOpKind,
}

} // verus!
