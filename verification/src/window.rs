//! A value tagged with the span of the underlying slice it was derived from.
use vstd::prelude::*;

use crate::model::Span;

verus! {

/// A `value` tagged with the `[start, end)` span (into some underlying slice)
/// that it was derived from.
///
/// `start` and `end` are plain informational indices, not an enforced
/// invariant: the fields are public and freely mutable, and [`Window::new`]
/// does not validate them. The windows that [`crate::Windows`] yields always
/// have `start < end`.
#[derive(Debug, Clone, Eq, PartialEq)]
pub struct Window<V> {
    pub start: usize,
    pub end: usize,
    pub value: V,
}

/// The model of a window over a slice: its span and the elements it holds.
pub open spec fn span_of<'a, T>(w: Window<&'a [T]>) -> Span<T> {
    (w.start as int, w.end as int, w.value@)
}

/// The model of what an iterator step hands back.
pub open spec fn span_option<'a, T>(w: Option<Window<&'a [T]>>) -> Option<Span<T>> {
    match w {
        Some(w) => Some(span_of(w)),
        None => None,
    }
}

impl<V> Window<V> {
    /// Create a new window object; `start` and `end` are stored as given.
    pub fn new(start: usize, end: usize, value: V) -> (w: Self)
        ensures
            w.start == start,
            w.end == end,
            w.value == value,
    {
        Window { start, end, value }
    }

    /// Converts from `Window<V>` to `Window<&V>`.
    pub fn as_ref(&self) -> (w: Window<&V>)
        ensures
            w.start == self.start,
            w.end == self.end,
            *w.value == self.value,
    {
        Window::new(self.start, self.end, &self.value)
    }

    /// Converts from `Window<V>` to `Window<&mut V>`: a write through the
    /// returned value is a write to this window's value.
    pub fn as_mut(&mut self) -> (w: Window<&mut V>)
        ensures
            w.start == old(self).start,
            w.end == old(self).end,
            *w.value == old(self).value,
            final(self).start == old(self).start,
            final(self).end == old(self).end,
            final(self).value == *final(w.value),
    {
        Window::new(self.start, self.end, &mut self.value)
    }

    /// Applies a function to the value in a window, leaving start and end
    /// unchanged.
    pub fn map<U, F: FnOnce(V) -> U>(self, f: F) -> (w: Window<U>)
        requires
            f.requires((self.value,)),
        ensures
            w.start == self.start,
            w.end == self.end,
            f.ensures((self.value,), w.value),
    {
        Window::new(self.start, self.end, f(self.value))
    }

    /// Applies a function taking the value and returning a new window.
    pub fn flat_map<U, F: FnOnce(V) -> Window<U>>(self, f: F) -> (w: Window<U>)
        requires
            f.requires((self.value,)),
        ensures
            f.ensures((self.value,), w),
    {
        f(self.value)
    }
}

} // verus!
