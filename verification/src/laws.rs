//! What holds of windowing as a whole: the windows tile their slice, and
//! `nth`, `last` and `len` agree with calling `next` over and over.
use vstd::prelude::*;

use crate::model::{
    last_spec, lemma_count_bounds, next_spec, next_times, nth_spec, window_count, window_end,
    window_offset,
    windows_of, Span,
};

verus! {

/// Whether position `i` of the underlying slice lies in the span of `window`.
pub open spec fn spans<T>(window: Span<T>, i: int) -> bool {
    window.0 <= i < window.1
}

/// Whether element `i` of `elements` lies in one of `windows`, at the
/// matching place.
pub open spec fn held_by_a_window<T>(windows: Seq<Span<T>>, elements: Seq<T>, i: int) -> bool {
    exists|k: int|
        0 <= k < windows.len() && #[trigger] spans(windows[k], i) && windows[k].2[i - windows[k].0]
            == elements[i]
}

/// The windows of a slice tile it exactly: there are none for an empty
/// slice; otherwise the first starts at 0 and the last ends at the slice's
/// end, each holds exactly the elements of its span, each but the last is
/// full-size and the next one starts `step` after it (so consecutive windows
/// overlap or abut), no window is longer than `size`, and every element lies
/// in some window, at the matching place.
///
/// Only the final window may be shorter than `size`: no element is dropped.
pub proof fn lemma_windows_tile<T>(elements: Seq<T>, size: int, step: int)
    requires
        0 < step <= size,
    ensures
        ({
            let w = windows_of(elements, size, step, 0);
            let n = elements.len() as int;
            &&& (w.len() == 0 <==> n == 0)
            &&& n > 0 ==> w[0].0 == 0 && w.last().1 == n
            &&& forall|k: int|
                0 <= k < w.len() ==> {
                    &&& 0 <= (#[trigger] w[k]).0 < w[k].1 <= n
                    &&& w[k].1 - w[k].0 <= size
                    &&& w[k].2 == elements.subrange(w[k].0, w[k].1)
                }
            &&& forall|k: int|
                0 <= k < w.len() - 1 ==> {
                    &&& (#[trigger] w[k]).1 - w[k].0 == size
                    &&& w[k + 1].0 == w[k].0 + step
                    &&& w[k + 1].0 <= w[k].1
                }
            &&& forall|i: int| 0 <= i < n ==> #[trigger] held_by_a_window(w, elements, i)
        }),
{
    let w = windows_of(elements, size, step, 0);
    let n = elements.len() as int;
    lemma_windows_cover(elements, size, step);
    if n > 0 {
        lemma_count_bounds(n, size, step);
        let c = w.len() as int;
        assert(window_offset(0, step) == 0) by (nonlinear_arith);
        assert forall|k: int| 0 <= k < w.len() - 1 implies {
            &&& (#[trigger] w[k]).1 - w[k].0 == size
            &&& w[k + 1].0 == w[k].0 + step
            &&& w[k + 1].0 <= w[k].1
        } by {
            assert(window_offset(k + 1, step) == window_offset(k, step) + step)
                by (nonlinear_arith);
        }
    }
}

/// Every element of a slice lies in one of its windows, at the matching place.
proof fn lemma_windows_cover<T>(elements: Seq<T>, size: int, step: int)
    requires
        0 < step <= size,
    ensures
        forall|i: int|
            0 <= i < elements.len() ==> #[trigger] held_by_a_window(
                windows_of(elements, size, step, 0),
                elements,
                i,
            ),
{
    let w = windows_of(elements, size, step, 0);
    assert forall|i: int| 0 <= i < elements.len() implies #[trigger] held_by_a_window(
        w,
        elements,
        i,
    ) by {
        let k = lemma_window_containing(elements.len() as int, size, step, i);
        assert(spans(w[k], i));
        assert(w[k].2[i - w[k].0] == elements[i]);
    }
}

/// The window that holds element `i` of `len`: the one `i` falls into when
/// counting in steps, or the last one for elements past the last step.
proof fn lemma_window_containing(len: int, size: int, step: int, i: int) -> (k: int)
    requires
        0 < step <= size,
        0 <= i < len,
    ensures
        0 <= k < window_count(len, size, step),
        window_offset(k, step) <= i < window_end(len, size, window_offset(k, step)),
{
    lemma_count_bounds(len, size, step);
    let c = window_count(len, size, step);
    let q = i / step;
    let r = i % step;
    vstd::arithmetic::div_mod::lemma_fundamental_div_mod(i, step);
    vstd::arithmetic::div_mod::lemma_mod_pos_bound(i, step);
    assert(window_offset(q, step) == i - r && q >= 0) by (nonlinear_arith)
        requires
            i == step * q + r,
            0 <= r < step,
            0 <= i,
    ;
    if q < c {
        q
    } else {
        vstd::arithmetic::mul::lemma_mul_inequality(c - 1, q, step);
        c - 1
    }
}

/// `nth(n)` is `n + 1` calls of `next`: it yields what the last of them
/// yields and leaves what they leave, also past the end.
pub proof fn lemma_nth_is_repeated_next<A>(rest: Seq<A>, n: nat)
    ensures
        nth_spec(rest, n as int) == next_times(rest, n + 1),
    decreases n,
{
    if n == 0 {
        if rest.len() > 0 {
            assert(rest.skip(1) =~= rest.drop_first());
        } else {
            assert(rest =~= Seq::<A>::empty());
        }
    } else {
        let after = next_spec(rest).1;
        lemma_nth_is_repeated_next(after, (n - 1) as nat);
        if n < rest.len() {
            assert(rest.drop_first().skip(n as int) =~= rest.skip(n as int + 1));
        }
    }
}

/// Calling `next` over and over yields the items in order: the `(k+1)`-th
/// call yields item `k` and leaves the items after it; once they are used
/// up, calls yield nothing.
pub proof fn lemma_next_yields_in_order<A>(rest: Seq<A>)
    ensures
        forall|k: nat|
            k < rest.len() ==> #[trigger] next_times(rest, k + 1) == (
                Some(rest[k as int]),
                rest.subrange(k as int + 1, rest.len() as int),
            ),
        forall|k: nat| k > rest.len() ==> (#[trigger] next_times(rest, k)).0 is None,
{
    assert forall|k: nat| k < rest.len() implies #[trigger] next_times(rest, k + 1) == (
        Some(rest[k as int]),
        rest.subrange(k as int + 1, rest.len() as int),
    ) by {
        lemma_nth_is_repeated_next(rest, k);
        assert(rest.skip(k as int + 1) =~= rest.subrange(k as int + 1, rest.len() as int));
    }
    assert forall|k: nat| k > rest.len() implies (#[trigger] next_times(rest, k)).0 is None by {
        lemma_nth_is_repeated_next(rest, (k - 1) as nat);
    }
}

/// `nth(n)` picks item `n` of what is left and leaves the items after it;
/// past the end it yields nothing and leaves nothing.
pub proof fn lemma_nth_picks_item<A>(rest: Seq<A>, n: int)
    ensures
        0 <= n < rest.len() ==> nth_spec(rest, n) == (
            Some(rest[n]),
            rest.subrange(n + 1, rest.len() as int),
        ),
        n >= rest.len() ==> nth_spec(rest, n).0 is None && nth_spec(rest, n).1.len() == 0,
{
    if 0 <= n < rest.len() {
        assert(rest.skip(n + 1) =~= rest.subrange(n + 1, rest.len() as int));
    }
}

/// The first window that `Windows::new` yields starts at 0 and holds the
/// first `size` elements, or all of them if there are fewer; later windows
/// each start `step` further on.
pub proof fn lemma_first_windows<T>(elements: Seq<T>, size: int, step: int)
    requires
        0 < step <= size,
        elements.len() > 0,
    ensures
        ({
            let w = windows_of(elements, size, step, 0);
            &&& w.len() > 0
            &&& w[0] == (
                0int,
                if size <= elements.len() {
                    size
                } else {
                    elements.len() as int
                },
                elements.take(if size <= elements.len() {
                    size
                } else {
                    elements.len() as int
                }),
            )
            &&& forall|k: int| 0 <= k < w.len() ==> (#[trigger] w[k]).0 == k * step
        }),
{
    lemma_count_bounds(elements.len() as int, size, step);
    assert(window_offset(0, step) == 0) by (nonlinear_arith);
    let w = windows_of(elements, size, step, 0);
    assert(w[0].2 =~= elements.take(w[0].1));
}

/// `last` yields what the final call of `next` yields when the iterator is
/// run to its end.
pub proof fn lemma_last_is_final_next<A>(rest: Seq<A>)
    ensures
        last_spec(rest) == next_times(rest, rest.len()).0,
{
    if rest.len() > 0 {
        lemma_nth_is_repeated_next(rest, (rest.len() - 1) as nat);
    }
}

/// Running the iterator yields exactly as many items as it has left (what
/// `len`, `count` and `size_hint` report): each of the first `len` calls of
/// `next` yields one, and the next call yields none.
pub proof fn lemma_len_counts_items<A>(rest: Seq<A>)
    ensures
        forall|k: nat| 1 <= k <= rest.len() ==> (#[trigger] next_times(rest, k)).0 is Some,
        next_times(rest, rest.len() + 1).0 is None,
{
    assert forall|k: nat| 1 <= k <= rest.len() implies (#[trigger] next_times(rest, k)).0 is Some by {
        lemma_nth_is_repeated_next(rest, (k - 1) as nat);
    }
    lemma_nth_is_repeated_next(rest, rest.len());
}

} // verus!
