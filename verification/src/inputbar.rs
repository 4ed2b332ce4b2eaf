//! The input bar of the conversation app: the nib-size buttons and what a
//! pen frame paints with.

use vstd::prelude::*;
use crate::fb::{BLACK, WHITE};
use crate::geom::trunc_div;

verus! {

pub const NIB_W: i32 = 58;

pub const NIB_H: i32 = 60;

/// Left edge of the first nib button.
pub const NIB0_X: i32 = 28;

/// The eraser's radius.
pub const ERASER_R: i32 = 22;

/// Base radius of each nib (small, medium, large).
pub open spec fn nib_base(i: int) -> int {
    if i == 0 {
        1
    } else if i == 1 {
        3
    } else {
        5
    }
}

/// Left edge of nib button `i`.
pub fn nib_x(i: i32) -> (x: i32)
    requires
        0 <= i <= 0x100_0000,
    ensures
        x == NIB0_X + i * (NIB_W + 10),
{
    NIB0_X + i * (NIB_W + 10)
}

/// Radius and colour for a pen frame: the eraser paints white and wide;
/// the tip inks black, the nib's base radius plus up to 2 px from the
/// pressure (0..4095).
pub fn brush(nib: usize, pressure: i32, rubber: bool) -> (b: (i32, u16))
    requires
        nib < 3,
        i32::MIN <= pressure * 2 <= i32::MAX,
    ensures
        b == if rubber {
            (ERASER_R, WHITE)
        } else {
            ((nib_base(nib as int) + trunc_div(pressure * 2, 4096)) as i32, BLACK)
        },
{
    if rubber {
        (ERASER_R, WHITE)
    } else {
        let base: i32 = if nib == 0 {
            1
        } else if nib == 1 {
            3
        } else {
            5
        };
        (base + pressure * 2 / 4096, BLACK)
    }
}

} // verus!
