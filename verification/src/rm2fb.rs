//! The takeover display backend's update requests: each is a 32-byte
//! record (y1, x1, y2, x2 inclusive, flags, waveform, temperature
//! override, extra mode) for the rm2fb server, which acks with one byte.
//! The region is clamped onto the panel first.

use vstd::prelude::*;
use crate::geom::{SCREEN_W, SCREEN_H, clamp_spec, clamp_i32};
use crate::qtfb::{le32};

verus! {

/// The server maps ioctl-style waveforms onto the panel engine's table
/// when this flag is set.
pub const IOCTL_WAVEFORM_FLAG: i32 = 0xf000;

/// 1-bit, fastest: live ink.
pub const WAVEFORM_DU: i32 = 1;

/// 16-level, drives every pixel through the rails: page turns, deghost.
pub const WAVEFORM_GC16: i32 = 2;

/// 16-level without flashing: text on a white area.
pub const WAVEFORM_GL16: i32 = 3;

/// Priority (the pen mode).
pub const FLAG_PRIORITY: i32 = 4;

/// Full refresh.
pub const FLAG_FULL: i32 = 1;

/// The temperature override of a request: none, or a room temperature
/// (25 degrees) that makes partial 16-level updates saturate.
#[derive(Clone, Copy, PartialEq, Eq, Structural, Debug)]
pub enum Temp {
    Default,
    Room,
}

/// The override's bytes: the little-endian IEEE single 0.0 or 25.0.
pub open spec fn temp_bytes(t: Temp) -> Seq<u8> {
    match t {
        Temp::Default => seq![0u8, 0u8, 0u8, 0u8],
        Temp::Room => seq![0u8, 0u8, 0xC8u8, 0x41u8],
    }
}

/// An update request, field by field.
pub open spec fn params_spec(x1: i32, y1: i32, x2: i32, y2: i32, waveform: i32, flags: i32, t: Temp) -> Seq<u8> {
    le32(y1) + le32(x1) + le32(y2) + le32(x2) + le32(flags) + le32(waveform | IOCTL_WAVEFORM_FLAG) + temp_bytes(t) + le32(0)
}

fn push_le32(out: &mut Vec<u8>, v: i32)
    ensures
        final(out)@ == old(out)@ + le32(v),
{
    let u = #[verifier::truncate] (v as u32);
    out.push((u & 0xff) as u8);
    out.push(((u >> 8) & 0xff) as u8);
    out.push(((u >> 16) & 0xff) as u8);
    out.push(((u >> 24) & 0xff) as u8);
    assert(final(out)@ =~= old(out)@ + le32(v));
}

/// The raw request record.
pub fn encode_params(x1: i32, y1: i32, x2: i32, y2: i32, waveform: i32, flags: i32, t: Temp) -> (m: Vec<u8>)
    ensures
        m@ == params_spec(x1, y1, x2, y2, waveform, flags, t),
        m@.len() == 32,
{
    let mut m: Vec<u8> = Vec::new();
    push_le32(&mut m, y1);
    push_le32(&mut m, x1);
    push_le32(&mut m, y2);
    push_le32(&mut m, x2);
    push_le32(&mut m, flags);
    push_le32(&mut m, waveform | IOCTL_WAVEFORM_FLAG);
    let ghost before = m@;
    match t {
        Temp::Default => {
            m.push(0);
            m.push(0);
            m.push(0);
            m.push(0);
        },
        Temp::Room => {
            m.push(0);
            m.push(0);
            m.push(0xC8);
            m.push(0x41);
        },
    }
    assert(m@ =~= before + temp_bytes(t));
    push_le32(&mut m, 0);
    m
}

/// The region (x, y, w, h) clamped onto the panel as inclusive corners;
/// a single pixel is widened to two, since a one-pixel region is the
/// server's connection check.
pub open spec fn clamped_spec(x: int, y: int, w: int, h: int) -> (int, int, int, int) {
    let x1 = clamp_spec(x, 0, SCREEN_W - 1);
    let y1 = clamp_spec(y, 0, SCREEN_H - 1);
    let x2 = clamp_spec(x + w - 1, x1, SCREEN_W - 1);
    let y2 = clamp_spec(y + h - 1, y1, SCREEN_H - 1);
    if x1 == x2 && y1 == y2 {
        if x2 < SCREEN_W - 1 {
            (x1, y1, x2 + 1, y2)
        } else {
            (x1 - 1, y1, x2, y2)
        }
    } else {
        (x1, y1, x2, y2)
    }
}

fn clamp64(v: i64, lo: i32, hi: i32) -> (r: i32)
    requires
        lo <= hi,
    ensures
        r == clamp_spec(v as int, lo as int, hi as int),
{
    if v < lo as i64 {
        lo
    } else if v > hi as i64 {
        hi
    } else {
        v as i32
    }
}

/// The request for a region, clamped.
pub fn clamped_request(x: i32, y: i32, w: i32, h: i32, waveform: i32, flags: i32, t: Temp) -> (m: Vec<u8>)
    ensures
        ({
            let (x1, y1, x2, y2) = clamped_spec(x as int, y as int, w as int, h as int);
            m@ == params_spec(x1 as i32, y1 as i32, x2 as i32, y2 as i32, waveform, flags, t)
        }),
{
    let mut x1 = clamp_i32(x, 0, SCREEN_W - 1);
    let y1 = clamp_i32(y, 0, SCREEN_H - 1);
    let mut x2 = clamp64(x as i64 + w as i64 - 1, x1, SCREEN_W - 1);
    let y2 = clamp64(y as i64 + h as i64 - 1, y1, SCREEN_H - 1);
    if x1 == x2 && y1 == y2 {
        if x2 < SCREEN_W - 1 {
            x2 = x2 + 1;
        } else {
            x1 = x1 - 1;
        }
    }
    encode_params(x1, y1, x2, y2, waveform, flags, t)
}

/// Push a region: fast is the 1-bit waveform with priority (live ink),
/// slow the flash-free 16-level one.
pub fn update_request(x: i32, y: i32, w: i32, h: i32, fast: bool) -> (m: Vec<u8>)
    ensures
        ({
            let (x1, y1, x2, y2) = clamped_spec(x as int, y as int, w as int, h as int);
            m@ == if fast {
                params_spec(x1 as i32, y1 as i32, x2 as i32, y2 as i32, WAVEFORM_DU, FLAG_PRIORITY, Temp::Default)
            } else {
                params_spec(x1 as i32, y1 as i32, x2 as i32, y2 as i32, WAVEFORM_GL16, 0, Temp::Default)
            }
        }),
{
    if fast {
        clamped_request(x, y, w, h, WAVEFORM_DU, FLAG_PRIORITY, Temp::Default)
    } else {
        clamped_request(x, y, w, h, WAVEFORM_GL16, 0, Temp::Default)
    }
}

/// A page turn: partial 16-level at room temperature (no flash).
pub fn gc16_partial_request(x: i32, y: i32, w: i32, h: i32) -> (m: Vec<u8>)
    ensures
        ({
            let (x1, y1, x2, y2) = clamped_spec(x as int, y as int, w as int, h as int);
            m@ == params_spec(x1 as i32, y1 as i32, x2 as i32, y2 as i32, WAVEFORM_GC16, 0, Temp::Room)
        }),
{
    clamped_request(x, y, w, h, WAVEFORM_GC16, 0, Temp::Room)
}

/// A smooth full render of print: full flash-free 16-level.
pub fn gl16_full_request(x: i32, y: i32, w: i32, h: i32) -> (m: Vec<u8>)
    ensures
        ({
            let (x1, y1, x2, y2) = clamped_spec(x as int, y as int, w as int, h as int);
            m@ == params_spec(x1 as i32, y1 as i32, x2 as i32, y2 as i32, WAVEFORM_GL16, FLAG_FULL, Temp::Default)
        }),
{
    clamped_request(x, y, w, h, WAVEFORM_GL16, FLAG_FULL, Temp::Default)
}

/// The flashing clear of the whole panel.
pub fn full_refresh_request() -> (m: Vec<u8>)
    ensures
        m@ == params_spec(0, 0, 1403, 1871, WAVEFORM_GC16, FLAG_FULL, Temp::Default),
{
    clamped_request(0, 0, SCREEN_W, SCREEN_H, WAVEFORM_GC16, FLAG_FULL, Temp::Default)
}

/// The connection check: a degenerate region the server acks without
/// updating.
pub fn init_check_request() -> (m: Vec<u8>)
    ensures
        m@ == params_spec(0, 0, 0, 0, 0, 0, Temp::Default),
{
    encode_params(0, 0, 0, 0, 0, 0, Temp::Default)
}

} // verus!
