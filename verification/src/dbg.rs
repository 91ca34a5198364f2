//! Shared values that print as a fixed label.

use std::sync::Arc;
use vstd::prelude::*;

verus! {

/// A shared value together with the text that stands for it when printed.
pub struct Debuggable<T: ?Sized> {
    obj: Arc<T>,
    debug_payload: &'static str,
}

impl<T: ?Sized> Debuggable<T> {
    /// Wraps a shared value with its label.
    pub fn new(obj: Arc<T>, debug_payload: &'static str) -> (r: Debuggable<T>)
        ensures
            r.shared() == obj,
            r.label() == debug_payload@,
    {
        Debuggable { obj, debug_payload }
    }

    /// The shared value.
    pub closed spec fn shared(self) -> Arc<T> {
        self.obj
    }

    /// The label.
    pub closed spec fn label(self) -> Seq<char> {
        self.debug_payload@
    }

    /// The shared value.
    pub fn get(&self) -> (r: &Arc<T>)
        ensures
            *r == self.shared(),
    {
        &self.obj
    }

    /// The label, which stands for the value when printed.
    pub fn payload(&self) -> (r: &'static str)
        ensures
            r@ == self.label(),
    {
        self.debug_payload
    }
}

/// `Arc::clone`: another pointer to the same shared value.
#[verifier::external_body]
fn share<T: ?Sized>(a: &Arc<T>) -> (r: Arc<T>)
    ensures
        r == *a,
{
    Arc::clone(a)
}

impl<T: ?Sized> Clone for Debuggable<T> {
    /// Another handle on the same shared value, with the same label.
    fn clone(&self) -> (r: Self)
        ensures
            r.shared() == self.shared(),
            r.label() == self.label(),
    {
        Debuggable { obj: share(&self.obj), debug_payload: self.debug_payload }
    }
}

impl<T: ?Sized> std::ops::Deref for Debuggable<T> {
    type Target = T;

    /// The shared value.
    fn deref(&self) -> (r: &T)
        ensures
            r == &*self.shared(),
    {
        &*self.obj
    }
}

} // verus!
