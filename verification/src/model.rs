//! The mathematical model of windowing: which windows a slice yields, and
//! what the iterator operations do to the sequence of windows still to come.
use vstd::prelude::*;
use vstd::arithmetic::div_mod::{lemma_fundamental_div_mod, lemma_mod_pos_bound};
use vstd::arithmetic::mul::lemma_mul_inequality;

verus! {

/// A window as the model sees it: its span `[start, end)` in the underlying
/// slice, and the elements it covers.
pub type Span<T> = (int, int, Seq<T>);

/// How many windows of `size` elements, taken every `step` elements, a slice
/// of `len` elements yields. The first window starts at offset 0, each later
/// one `step` further on, and the last is the first window that reaches the
/// end of the slice (and may be shorter than `size`).
pub open spec fn window_count(len: int, size: int, step: int) -> int {
    if len <= 0 {
        0
    } else if len <= size {
        1
    } else {
        (len - size + step - 1) / step + 1
    }
}

/// Offset of the `k`-th window, relative to the slice being windowed.
pub open spec fn window_offset(k: int, step: int) -> int {
    k * step
}

/// End of the window that starts at `offset`: `size` elements on, or the end
/// of the slice, whichever comes first.
pub open spec fn window_end(len: int, size: int, offset: int) -> int {
    if offset + size <= len {
        offset + size
    } else {
        len
    }
}

/// The windows of `elements`, in order. `origin` is the position of
/// `elements[0]` in the underlying slice; spans are given relative to it.
pub open spec fn windows_of<T>(elements: Seq<T>, size: int, step: int, origin: int) -> Seq<Span<T>> {
    Seq::new(
        window_count(elements.len() as int, size, step) as nat,
        |k: int|
            {
                let lo = window_offset(k, step);
                let hi = window_end(elements.len() as int, size, lo);
                (origin + lo, origin + hi, elements.subrange(lo, hi))
            },
    )
}

/// One call of `next` on an iterator with `rest` still to come: what it
/// yields, and what then remains.
pub open spec fn next_spec<A>(rest: Seq<A>) -> (Option<A>, Seq<A>) {
    if rest.len() == 0 {
        (None, rest)
    } else {
        (Some(rest[0]), rest.drop_first())
    }
}

/// One call of `nth(n)`: the `n`-th item, and what comes after it; past the
/// end, nothing and nothing left.
pub open spec fn nth_spec<A>(rest: Seq<A>, n: int) -> (Option<A>, Seq<A>) {
    if 0 <= n < rest.len() {
        (Some(rest[n]), rest.skip(n + 1))
    } else {
        (None, Seq::empty())
    }
}

/// What `last` yields: the final item, if there is one.
pub open spec fn last_spec<A>(rest: Seq<A>) -> Option<A> {
    if rest.len() == 0 {
        None
    } else {
        Some(rest.last())
    }
}

/// `calls` successive calls of `next`: what the last of them yields, and what
/// then remains.
pub open spec fn next_times<A>(rest: Seq<A>, calls: nat) -> (Option<A>, Seq<A>)
    decreases calls,
{
    if calls == 0 {
        (None, rest)
    } else if calls == 1 {
        next_spec(rest)
    } else {
        next_times(next_spec(rest).1, (calls - 1) as nat)
    }
}

/// Where the windows over `len > 0` elements fall: there is at least one,
/// every window but the last is full and ends before the slice does, and the
/// last one starts inside the slice and reaches its end.
pub proof fn lemma_count_bounds(len: int, size: int, step: int)
    requires
        0 < len,
        0 < step <= size,
    ensures
        window_count(len, size, step) >= 1,
        window_offset(window_count(len, size, step) - 1, step) < len,
        window_offset(window_count(len, size, step) - 1, step) + size >= len,
        forall|k: int|
            0 <= k < window_count(len, size, step) - 1 ==> #[trigger] window_offset(k, step) + size
                < len,
        forall|k: int|
            0 <= k < window_count(len, size, step) ==> 0 <= #[trigger] window_offset(k, step) < len,
{
    let c = window_count(len, size, step);
    if len <= size {
        assert(window_offset(0, step) == 0);
        assert forall|k: int| 0 <= k < c implies 0 <= #[trigger] window_offset(k, step) < len by {
            assert(k == 0);
        }
    } else {
        let x = len - size + step - 1;
        let q = x / step;
        let r = x % step;
        lemma_fundamental_div_mod(x, step);
        lemma_mod_pos_bound(x, step);
        assert(q * step == x - r) by (nonlinear_arith)
            requires
                x == step * q + r,
        ;
        assert(c - 1 == q);
        assert(q >= 0) by (nonlinear_arith)
            requires
                x >= 0,
                step > 0,
                q == x / step,
        ;
        assert forall|k: int| 0 <= k < c - 1 implies #[trigger] window_offset(k, step) + size
            < len by {
            lemma_mul_inequality(k, q - 1, step);
            assert((q - 1) * step == q * step - step) by (nonlinear_arith);
        }
        assert forall|k: int| 0 <= k < c implies 0 <= #[trigger] window_offset(k, step) < len by {
            lemma_mul_inequality(k, q, step);
            lemma_mul_inequality(0, k, step);
        }
    }
}

/// The window count is pinned down by where the windows fall: if the
/// `q`-th window is the first to reach the end of `len > 0` elements, there
/// are exactly `q + 1` windows.
pub proof fn lemma_count_unique(len: int, size: int, step: int, q: int)
    requires
        0 < len,
        0 < step <= size,
        0 <= q,
        q == 0 || window_offset(q - 1, step) + size < len,
        window_offset(q, step) + size >= len,
    ensures
        window_count(len, size, step) == q + 1,
{
    let c = window_count(len, size, step);
    lemma_count_bounds(len, size, step);
    if c - 1 < q {
        lemma_mul_inequality(c - 1, q - 1, step);
    } else if c - 1 > q {
        assert(window_offset(q, step) + size < len);
    }
}

} // verus!
