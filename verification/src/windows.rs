//! The iterator over the windows of a slice.
use vstd::prelude::*;
use vstd::slice::slice_subrange;

use crate::model::{
    last_spec, lemma_count_bounds, lemma_count_unique, next_spec, nth_spec, window_count,
    window_end, window_offset, windows_of, Span,
};
use crate::window::{span_of, span_option, Window};

verus! {

/// An iterator over the windows of a slice: subslices of `size` elements,
/// starting every `step` elements (`1 <= step <= size`), the last of which
/// may be shorter so that no element is dropped.
#[derive(Debug)]
pub struct Windows<'a, T: 'a> {
    elements: &'a [T],
    size: usize,
    step: usize,
    start: usize,
}

impl<'a, T> View for Windows<'a, T> {
    /// The windows still to come, in order.
    type V = Seq<Span<T>>;

    closed spec fn view(&self) -> Seq<Span<T>> {
        windows_of(self.elements@, self.size as int, self.step as int, self.start as int)
    }
}

/// Dropping the first `m` windows leaves the windows of what follows the
/// offset of the `m`-th one, provided the `(m-1)`-th window was not the last.
proof fn lemma_windows_skip<T>(elements: Seq<T>, size: int, step: int, origin: int, m: int)
    requires
        0 < step <= size,
        0 <= m,
        m == 0 || window_offset(m - 1, step) + size < elements.len(),
    ensures
        windows_of(elements, size, step, origin).skip(m) == windows_of(
            elements.subrange(window_offset(m, step), elements.len() as int),
            size,
            step,
            origin + window_offset(m, step),
        ),
{
    let len = elements.len() as int;
    let all = windows_of(elements, size, step, origin);
    if m == 0 {
        assert(window_offset(0, step) == 0) by (nonlinear_arith);
        assert(elements.subrange(0, len) =~= elements);
        assert(all.skip(0) =~= all);
    } else {
        let off = window_offset(m, step);
        assert(off == window_offset(m - 1, step) + step) by (nonlinear_arith)
            requires
                off == m * step,
                window_offset(m - 1, step) == (m - 1) * step,
        ;
        let rest = elements.subrange(off, len);
        let tail = windows_of(rest, size, step, origin + off);
        lemma_count_bounds(len, size, step);
        let c = window_count(len, size, step);
        // `m - 1` is not the last window, so there are more than `m`.
        assert(m < c) by {
            if m >= c {
                assert(window_offset(c - 1, step) + size >= len);
                vstd::arithmetic::mul::lemma_mul_inequality(c - 1, m - 1, step);
            }
        }
        // The windows of the rest: the first of them to reach the end is
        // window `c - 1 - m`.
        let q = c - 1 - m;
        lemma_offset_shift(q, m, step);
        if q > 0 {
            lemma_offset_shift(q - 1, m, step);
        }
        lemma_count_unique(len - off, size, step, q);
        assert(tail.len() == all.len() - m);
        assert forall|k: int| 0 <= k < tail.len() implies tail[k] == all.skip(m)[k] by {
            let lo = window_offset(k, step);
            lemma_offset_shift(k, m, step);
            assert(rest.subrange(lo, window_end(len - off, size, lo)) =~= elements.subrange(
                lo + off,
                window_end(len, size, lo + off),
            ));
        }
        assert(all.skip(m) =~= tail);
    }
}

/// Offsets add up: window `k + m` starts `window_offset(m)` after window `k`.
proof fn lemma_offset_shift(k: int, m: int, step: int)
    ensures
        window_offset(k + m, step) == window_offset(k, step) + window_offset(m, step),
{
    assert(k * step + m * step == (k + m) * step) by (nonlinear_arith);
}

impl<'a, T> Clone for Windows<'a, T> {
    fn clone(&self) -> (copy: Self)
        ensures
            copy@ == self@,
    {
        proof {
            use_type_invariant(self);
        }
        Windows { elements: self.elements, size: self.size, step: self.step, start: self.start }
    }
}

impl<'a, T> Windows<'a, T> {
    #[verifier::type_invariant]
    spec fn well_formed(self) -> bool {
        &&& 0 < self.step <= self.size
        &&& self.start + self.elements@.len() <= usize::MAX
    }

    /// Create a new windows object over `elements`: windows of `size`
    /// elements, one every `step` elements. `size` and `step` must be
    /// positive, and `step` may not exceed `size`.
    pub fn new(elements: &'a [T], size: usize, step: usize) -> (windows: Self)
        requires
            0 < size,
            0 < step,
            step <= size,
        ensures
            windows@ == windows_of(elements@, size as int, step as int, 0),
    {
        // A slice's length fits in a `usize`.
        let _len = elements.len();
        Windows { elements, start: 0, size, step }
    }

    /// The number of windows still to come.
    pub fn len(&self) -> (n: usize)
        ensures
            n == self@.len(),
    {
        proof {
            use_type_invariant(self);
        }
        if self.elements.len() == 0 {
            return 0;
        }
        let len = if self.elements.len() < self.size {
            0
        } else {
            self.elements.len() - self.size
        };
        let ndivs = len / self.step;
        let rem: usize = if len % self.step == 0 {
            0
        } else {
            1
        };
        proof {
            lemma_ceil_div(len as int, self.step as int);
        }
        ndivs + rem + 1
    }

    /// Whether no window is left.
    pub fn is_empty(&self) -> (empty: bool)
        ensures
            empty == (self@.len() == 0),
    {
        self.len() == 0
    }

    /// The size of the window starting at `offset` elements into the
    /// remaining slice, clamped to however much is left from there.
    fn clamped_size(&self, offset: usize) -> (size: usize)
        requires
            offset <= self.elements@.len(),
        ensures
            size == window_end(self.elements@.len() as int, self.size as int, offset as int)
                - offset,
    {
        let rest = self.elements.len() - offset;
        if self.size < rest {
            self.size
        } else {
            rest
        }
    }
}

impl<'a, T> Windows<'a, T> {
    /// Yields the next window, if any is left.
    pub fn next(&mut self) -> (item: Option<Window<&'a [T]>>)
        ensures
            span_option(item) == next_spec(old(self)@).0,
            final(self)@ == next_spec(old(self)@).1,
            old(self)@.len() == 0 ==> item is None && final(self)@.len() == 0,
            old(self)@.len() > 0 ==> span_option(item) == Some(old(self)@[0]),
            old(self)@.len() > 0 ==> final(self)@ == old(self)@.subrange(
                1,
                old(self)@.len() as int,
            ),
    {
        proof {
            use_type_invariant(&*self);
        }
        let len = self.elements.len();
        if len == 0 {
            return None;
        }
        let ghost e = self.elements@;
        let ghost before = self@;
        proof {
            lemma_count_bounds(len as int, self.size as int, self.step as int);
            assert(window_offset(0, self.step as int) == 0) by (nonlinear_arith);
            assert(window_offset(1, self.step as int) == self.step) by (nonlinear_arith);
        }
        let size = self.clamped_size(0);
        let ret = Window::new(self.start, self.start + size, slice_subrange(self.elements, 0, size));
        if size == len {
            // The last window: nothing is left. The position still moves on by
            // one step, as after every window; it ends up short of the slice's
            // length plus `step`, which fits in a `usize` for any slice of
            // sized elements, and wraps only for zero-sized ones.
            self.elements = slice_subrange(self.elements, len, len);
            self.start = self.start.wrapping_add(self.step);
            proof {
                assert(self@ =~= before.drop_first());
            }
        } else {
            proof {
                lemma_windows_skip(e, self.size as int, self.step as int, self.start as int, 1);
            }
            self.elements = slice_subrange(self.elements, self.step, len);
            self.start = self.start + self.step;
            proof {
                assert(self@ =~= before.drop_first());
            }
        }
        Some(ret)
    }

    /// Skips `n` windows and yields the one after them; past the end, yields
    /// nothing and leaves nothing.
    pub fn nth(&mut self, n: usize) -> (item: Option<Window<&'a [T]>>)
        ensures
            span_option(item) == nth_spec(old(self)@, n as int).0,
            final(self)@ == nth_spec(old(self)@, n as int).1,
            n < old(self)@.len() ==> span_option(item) == Some(old(self)@[n as int]),
            n < old(self)@.len() ==> final(self)@ == old(self)@.subrange(
                n + 1,
                old(self)@.len() as int,
            ),
            n >= old(self)@.len() ==> item is None && final(self)@.len() == 0,
    {
        proof {
            use_type_invariant(&*self);
        }
        let len = self.elements.len();
        if n >= self.len() {
            self.elements = slice_subrange(self.elements, len, len);
            proof {
                assert(self@ =~= Seq::<Span<T>>::empty());
            }
            return None;
        }
        let ghost e = self.elements@;
        let ghost before = self@;
        proof {
            lemma_count_bounds(len as int, self.size as int, self.step as int);
            assert(window_offset(n as int, self.step as int) == n * self.step);
            assert(window_offset(n + 1, self.step as int) == n * self.step + self.step)
                by (nonlinear_arith);
        }
        let pos = n * self.step;
        let size = self.clamped_size(pos);
        let start = self.start + pos;
        let item = Window::new(start, start + size, slice_subrange(self.elements, pos, pos + size));
        if pos + size == len {
            // This window reaches the end of the remaining slice: it is the last.
            self.elements = slice_subrange(self.elements, len, len);
            proof {
                assert(n + 1 == before.len());
                assert(self@ =~= before.skip(n + 1));
            }
        } else {
            proof {
                lemma_windows_skip(e, self.size as int, self.step as int, self.start as int, n + 1);
            }
            self.elements = slice_subrange(self.elements, pos + self.step, len);
            self.start = start + self.step;
        }
        Some(item)
    }

    /// The final window, if any is left.
    pub fn last(self) -> (item: Option<Window<&'a [T]>>)
        ensures
            span_option(item) == last_spec(self@),
            self@.len() == 0 ==> item is None,
            self@.len() > 0 ==> span_option(item) == Some(self@[self@.len() - 1]),
    {
        proof {
            use_type_invariant(&self);
        }
        let len = self.elements.len();
        if len == 0 {
            return None;
        }
        proof {
            lemma_count_bounds(len as int, self.size as int, self.step as int);
        }
        let count = self.len();
        proof {
            assert(window_offset(count - 1, self.step as int) == (count - 1) * self.step);
        }
        let pos = (count - 1) * self.step;
        let size = self.clamped_size(pos);
        let start = self.start + pos;
        Some(Window::new(start, start + size, slice_subrange(self.elements, pos, pos + size)))
    }

    /// The number of windows left; consumes the iterator.
    pub fn count(self) -> (n: usize)
        ensures
            n == self@.len(),
    {
        self.len()
    }

    /// Bounds on the number of windows left: both are exact.
    pub fn size_hint(&self) -> (hint: (usize, Option<usize>))
        ensures
            hint.0 == self@.len(),
            hint.1 == Some(hint.0),
    {
        let l = self.len();
        (l, Some(l))
    }

    /// All the windows left, in order.
    pub fn collect(self) -> (all: Vec<Window<&'a [T]>>)
        ensures
            all@.len() == self@.len(),
            forall|i: int| 0 <= i < all@.len() ==> span_of(#[trigger] all@[i]) == self@[i],
    {
        let ghost windows = self@;
        let mut rest = self;
        let mut all: Vec<Window<&'a [T]>> = Vec::new();
        let count = rest.len();
        for i in 0..count
            invariant
                count == windows.len(),
                all@.len() == i,
                rest@ == windows.skip(i as int),
                forall|j: int| 0 <= j < i ==> span_of(#[trigger] all@[j]) == windows[j],
        {
            let ghost r = rest@;
            match rest.next() {
                Some(w) => {
                    all.push(w);
                },
                None => {},
            }
            proof {
                assert(r.drop_first() =~= windows.skip(i + 1));
            }
        }
        all
    }
}

/// `d / step`, rounded up, is what `len` computes, and is at most `d`.
proof fn lemma_ceil_div(d: int, step: int)
    requires
        0 <= d,
        0 < step,
    ensures
        (d + step - 1) / step == d / step + (if d % step == 0 {
            0int
        } else {
            1int
        }),
        d / step + (if d % step == 0 {
            0int
        } else {
            1int
        }) <= d,
{
    let q = d / step;
    let r = d % step;
    vstd::arithmetic::div_mod::lemma_fundamental_div_mod(d, step);
    vstd::arithmetic::div_mod::lemma_mod_pos_bound(d, step);
    if r == 0 {
        vstd::arithmetic::div_mod::lemma_fundamental_div_mod_converse(
            d + step - 1,
            step,
            q,
            step - 1,
        );
    } else {
        assert(d + step - 1 == (q + 1) * step + (r - 1)) by (nonlinear_arith)
            requires
                d == step * q + r,
        ;
        vstd::arithmetic::div_mod::lemma_fundamental_div_mod_converse(
            d + step - 1,
            step,
            q + 1,
            r - 1,
        );
    }
    assert(q + (if r == 0 {
        0int
    } else {
        1int
    }) <= d) by (nonlinear_arith)
        requires
            d == step * q + r,
            0 <= r < step,
            step >= 1,
            q >= 0,
    ;
}

} // verus!
