//! Small wrappers around values that are shared or borrowed.

use std::sync::Arc;

use vstd::prelude::*;

use crate::error::Error;
use crate::snapshot::share;

verus! {

/// A value that is to be used on the main thread.
pub struct MainThread<T>(T);

impl<T> MainThread<T> {
    pub closed spec fn value(&self) -> T {
        self.0
    }

    pub fn new(value: T) -> (wrapped: Self)
        ensures
            wrapped.value() == value,
    {
        Self(value)
    }

    /// The value, to be changed.
    pub fn deref_mut(&mut self) -> (value: &mut T)
        ensures
            *value == old(self).value(),
            final(self).value() == *final(value),
    {
        &mut self.0
    }
}

impl<T> std::ops::Deref for MainThread<T> {
    type Target = T;

    fn deref(&self) -> (value: &T)
        ensures
            *value == self.value(),
    {
        &self.0
    }
}

/// Results inside results.
pub trait Flatten<T> {
    spec fn flattened(self) -> Result<T, Error> where Self: Sized;

    /// The inner result, or the error that stands in its place.
    fn flatten(self) -> (result: Result<T, Error>) where Self: Sized
        ensures
            result == self.flattened(),
    ;
}

impl<T> Flatten<T> for Result<Result<T, Error>, Error> {
    open spec fn flattened(self) -> Result<T, Error> {
        match self {
            Ok(inner) => inner,
            Err(error) => Err(error),
        }
    }

    fn flatten(self) -> (result: Result<T, Error>) {
        match self {
            Ok(inner) => inner,
            Err(error) => Err(error),
        }
    }
}

impl<T> Flatten<T> for Result<T, Error> {
    open spec fn flattened(self) -> Result<T, Error> {
        self
    }

    fn flatten(self) -> (result: Result<T, Error>) {
        self
    }
}

/// A text that is shared rather than copied.
#[derive(Debug, PartialEq, Eq, Hash)]
pub struct SharedString(Arc<String>);

impl View for SharedString {
    type V = Seq<char>;

    closed spec fn view(&self) -> Seq<char> {
        self.0@
    }
}

impl SharedString {
    pub fn new(text: String) -> (shared: SharedString)
        ensures
            shared@ == text@,
    {
        SharedString(Arc::new(text))
    }

    pub fn as_ref(&self) -> (text: &str)
        ensures
            text@ == self@,
    {
        self.0.as_str()
    }
}

impl Default for SharedString {
    fn default() -> (shared: Self)
        ensures
            shared@ == Seq::<char>::empty(),
    {
        SharedString::new(String::new())
    }
}

impl Clone for SharedString {
    fn clone(&self) -> (copy: Self)
        ensures
            copy@ == self@,
    {
        SharedString(share(&self.0))
    }
}

/// A value that is borrowed to be read, or to be changed.
pub enum Reference<'a, T> {
    Immutable(&'a T),
    Mutable(&'a mut T),
}

impl<'a, T> Reference<'a, T> {
    /// The value that is borrowed.
    pub open spec fn target(&self) -> T {
        match self {
            Reference::Immutable(target) => **target,
            Reference::Mutable(target) => **target,
        }
    }

    /// The value.
    pub fn deref(&self) -> (value: &T)
        ensures
            *value == self.target(),
    {
        match self {
            Reference::Immutable(target) => target,
            Reference::Mutable(target) => target,
        }
    }

    /// The value, to be changed, if it was borrowed for that.
    pub fn deref_mut(&mut self) -> (value: &mut T)
        requires
            *old(self) is Mutable,
        ensures
            *value == old(self).target(),
            *final(self) is Mutable,
            final(self).target() == *final(value),
    {
        match self {
            Reference::Mutable(target) => target,
            Reference::Immutable(_) => vstd::pervasive::unreached(),
        }
    }
}

} // verus!
