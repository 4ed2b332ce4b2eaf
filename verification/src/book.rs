//! A notebook kept as numbered page files: which page opens, where a
//! flip goes (forward past the last page starts a fresh one, unless the
//! page being left is still blank), and the page files' names.

use vstd::prelude::*;
use crate::canvas::{cat, text};
use crate::num::{decimal_padded, digits, zero_pad};

verus! {

/// What a flip does.
#[derive(Clone, Copy, PartialEq, Eq, Structural, Debug)]
pub enum FlipStep {
    /// Already at an edge (or the page is blank at the end): nothing.
    Stay,
    /// Save the current page and start a fresh one after the last.
    Fresh,
    /// Save the current page and load this one.
    Go(usize),
}

/// Flip by `delta` from page `current` of `count`; `blank` tells whether
/// the current page holds nothing.
pub open spec fn flip_spec(current: int, count: int, delta: int, blank: bool) -> FlipStep {
    let target = current + delta;
    if target < 0 {
        FlipStep::Stay
    } else if target >= count {
        if blank {
            FlipStep::Stay
        } else {
            FlipStep::Fresh
        }
    } else {
        FlipStep::Go(target as usize)
    }
}

pub fn flip_step(current: usize, count: usize, delta: i32, blank: bool) -> (s: FlipStep)
    requires
        current < count,
    ensures
        s == flip_spec(current as int, count as int, delta as int, blank),
{
    let target = current as i128 + delta as i128;
    if target < 0 {
        FlipStep::Stay
    } else if target >= count as i128 {
        if blank {
            FlipStep::Stay
        } else {
            FlipStep::Fresh
        }
    } else {
        FlipStep::Go(target as usize)
    }
}

/// The book after a flip: (current, count).
pub open spec fn after_flip(current: int, count: int, s: FlipStep) -> (int, int) {
    match s {
        FlipStep::Stay => (current, count),
        FlipStep::Fresh => (count, count + 1),
        FlipStep::Go(t) => (t as int, count),
    }
}

/// A flip keeps the current page within the book and never shrinks it.
pub proof fn lemma_flip_stays_in_book(current: int, count: int, delta: int, blank: bool)
    requires
        0 <= current < count,
    ensures
        ({
            let (c, n) = after_flip(current, count, flip_spec(current, count, delta, blank));
            0 <= c < n && count <= n <= count + 1
        }),
{
}

/// A flip forward and back lands where it started, away from the end.
pub proof fn lemma_flip_back(current: int, count: int, delta: int, blank: bool)
    requires
        0 <= current < count,
        0 <= current + delta < count,
    ensures
        flip_spec(current + delta, count, -delta, blank) == FlipStep::Go(current as usize),
{
}

/// Which page opens, given how many page files exist: the last one, or a
/// fresh first page in an empty book. (current, count)
pub fn open_position(on_disk: usize) -> (r: (usize, usize))
    ensures
        on_disk == 0 ==> r == (0usize, 1usize),
        on_disk > 0 ==> r == ((on_disk - 1) as usize, on_disk),
{
    if on_disk == 0 {
        (0, 1)
    } else {
        (on_disk - 1, on_disk)
    }
}

/// The file of page `i` (from 0): "page-0001.json" for the first.
pub open spec fn page_file_spec(i: int) -> Seq<char> {
    "page-"@ + zero_pad(digits((i + 1) as nat, 10), 4) + ".json"@
}

pub fn page_file(i: usize) -> (s: String)
    requires
        i < u64::MAX,
    ensures
        s@ == page_file_spec(i as int),
{
    text(&cat("page-", &decimal_padded(i as u64 + 1, 4), ".json"))
}

/// The file of page `i`'s rasters: "render-0001.skr" for the first.
pub open spec fn render_file_spec(i: int) -> Seq<char> {
    "render-"@ + zero_pad(digits((i + 1) as nat, 10), 4) + ".skr"@
}

pub fn render_file(i: usize) -> (s: String)
    requires
        i < u64::MAX,
    ensures
        s@ == render_file_spec(i as int),
{
    text(&cat("render-", &decimal_padded(i as u64 + 1, 4), ".skr"))
}

} // verus!
