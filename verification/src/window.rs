//! Scrollback windowing: which decoded lines are visible for a given
//! viewport height and scroll offset, and how the offset is clamped when
//! the window would reach past the start of the line list.
//!
//! The offset counts the newest lines hidden below the viewport bottom;
//! offset 0 shows the most recent line. For `n` total lines, height `h`
//! and clamped offset `s`, the visible slice is `[n - min(n, h + s), n - s)`.

use vstd::prelude::*;

verus! {

pub open spec fn spec_min(a: nat, b: nat) -> nat {
    if a < b {
        a
    } else {
        b
    }
}

/// Largest offset that still shows a full window: whenever `n < h + s`,
/// the offset is pulled down to `n - h` (or 0 when even that is negative).
pub open spec fn spec_clamp_offset(n: nat, h: nat, s: nat) -> nat {
    if n < h + s {
        if n > h {
            (n - h) as nat
        } else {
            0
        }
    } else {
        s
    }
}

/// Start (inclusive) and end (exclusive) of the visible slice, after
/// clamping the offset.
pub open spec fn spec_window(n: nat, h: nat, s: nat) -> (nat, nat) {
    let c = spec_clamp_offset(n, h, s);
    ((n - spec_min(n, h + c)) as nat, (n - c) as nat)
}

/// The visible lines themselves: the slice of `lines` selected by
/// `spec_window` over the clamped offset.
pub open spec fn spec_visible<T>(lines: Seq<T>, h: nat, s: nat) -> Seq<T> {
    let (start, end) = spec_window(lines.len(), h, s);
    lines.subrange(start as int, end as int)
}

/// A clamped offset never asks for lines past the start of the list:
/// the window is a well-formed slice of at most `h` lines.
pub proof fn lemma_window_bounds(n: nat, h: nat, s: nat)
    ensures
        spec_clamp_offset(n, h, s) <= n,
        spec_window(n, h, s).0 <= spec_window(n, h, s).1 <= n,
        spec_window(n, h, s).1 - spec_window(n, h, s).0 <= h,
{
}

/// The visible slice is a contiguous run of the full line list of at
/// most `h` lines, ending `clamped offset` lines before the newest.
pub proof fn lemma_visible_shape<T>(lines: Seq<T>, h: nat, s: nat)
    ensures
        spec_visible(lines, h, s).len() <= h,
        spec_visible(lines, h, s).len() <= lines.len(),
        forall|i: int|
            0 <= i < spec_visible(lines, h, s).len() ==> spec_visible(lines, h, s)[i]
                == lines[spec_window(lines.len(), h, s).0 + i],
{
    lemma_window_bounds(lines.len(), h, s);
}

/// Anchor property: while the window is full, appending one line and
/// raising the offset by one shows exactly the same lines as before, so
/// the content at the top of the viewport does not move as history grows.
pub proof fn lemma_append_anchor<T>(lines: Seq<T>, x: T, h: nat, s: nat)
    requires
        h + s <= lines.len(),
    ensures
        spec_visible(lines.push(x), h, (s + 1) as nat) == spec_visible(lines, h, s),
{
    let n = lines.len();
    assert(spec_window(n, h, s) == ((n - h - s) as nat, (n - s) as nat));
    assert(spec_window((n + 1) as nat, h, (s + 1) as nat) == ((n - h - s) as nat, (n
        - s) as nat));
    assert(spec_visible(lines.push(x), h, (s + 1) as nat) =~= spec_visible(lines, h, s));
}

/// Anchor property across a whole poll: while the window is full,
/// appending any run of lines and raising the offset by their count —
/// which is what the decoder does whenever the offset is non-zero —
/// shows exactly the same lines as before.
pub proof fn lemma_append_anchor_many<T>(lines: Seq<T>, added: Seq<T>, h: nat, s: nat)
    requires
        h + s <= lines.len(),
    ensures
        spec_visible(lines + added, h, (s + added.len()) as nat) == spec_visible(lines, h, s),
    decreases added.len(),
{
    if added.len() == 0 {
        assert(lines + added =~= lines);
    } else {
        lemma_append_anchor_many(lines, added.drop_last(), h, s);
        lemma_append_anchor(
            lines + added.drop_last(),
            added.last(),
            h,
            (s + added.len() - 1) as nat,
        );
        assert((lines + added.drop_last()).push(added.last()) =~= lines + added);
    }
}

/// Clamp the scroll offset for `n` total lines and viewport height `h`.
pub fn clamp_offset(n: usize, h: usize, s: usize) -> (r: usize)
    ensures
        r as nat == spec_clamp_offset(n as nat, h as nat, s as nat),
        r <= n,
{
    if n >= h {
        let max_s = n - h;
        if s > max_s {
            max_s
        } else {
            s
        }
    } else {
        0
    }
}

/// Compute the visible slice bounds for `n` total lines, clamping first.
/// Returns `(start, end, clamped_offset)`.
pub fn window_bounds(n: usize, h: usize, s: usize) -> (r: (usize, usize, usize))
    ensures
        r.2 as nat == spec_clamp_offset(n as nat, h as nat, s as nat),
        (r.0 as nat, r.1 as nat) == spec_window(n as nat, h as nat, s as nat),
        r.0 <= r.1 <= n,
{
    let c = clamp_offset(n, h, s);
    let end = n - c;
    let start = if n >= h + c {
        n - h - c
    } else {
        0
    };
    (start, end, c)
}

} // verus!
