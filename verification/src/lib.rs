//! Windows over a slice: overlapping subslices of a fixed size, taken every
//! `step` elements, with a shorter final window in place of dropped elements.
//!
//! - `model`: the windows a slice yields, as a sequence of spans, and what
//!   the iterator operations do to the windows still to come.
//! - `window`: [`Window`], a value tagged with its span.
//! - `windows`: [`Windows`], the iterator, whose operations are proved
//!   against the model.
//! - `windower`: [`Windower`], `.as_windows(size, step)` on containers.
//! - `laws`: what holds of windowing as a whole.
pub mod model;
pub mod window;
pub mod windows;
pub mod windower;
pub mod laws;

pub use window::Window;
pub use windows::Windows;
pub use windower::Windower;
