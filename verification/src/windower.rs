//! `.as_windows(size, step)` on containers of elements.
use vstd::prelude::*;

use crate::model::windows_of;
use crate::windows::Windows;

verus! {

/// Types that can be turned into a [`Windows`] iterator over their elements.
///
/// Implemented here for `[T]` (and so, through deref coercion in method
/// calls, for `Vec<T>`); implement it for your own container types the same
/// way.
pub trait Windower {
    /// The element type that the resulting windows slide over.
    type Item;

    /// The elements, in order, that the windows slide over.
    spec fn window_elements(&self) -> Seq<Self::Item>;

    /// Build a [`Windows`] iterator over `self` with the given window `size`
    /// and `step`; see [`Windows::new`].
    fn as_windows(&self, size: usize, step: usize) -> (windows: Windows<'_, Self::Item>)
        requires
            0 < size,
            0 < step,
            step <= size,
        ensures
            windows@ == windows_of(self.window_elements(), size as int, step as int, 0),
    ;
}

impl<T> Windower for [T] {
    type Item = T;

    open spec fn window_elements(&self) -> Seq<T> {
        self@
    }

    fn as_windows(&self, size: usize, step: usize) -> (windows: Windows<'_, T>) {
        Windows::new(self, size, step)
    }
}

} // verus!
