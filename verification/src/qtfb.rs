//! The AppLoad/qtfb wire protocol: the fixed-size messages a client sends
//! (initialize, update, refresh mode, full refresh, terminate) and the
//! ones it receives (the initialize reply and input events), encoded as
//! the 24-byte little-endian records of the 32-bit device ABI.

use vstd::prelude::*;
use crate::num::signed_decimal;
use crate::strs::{chars_of, string_of};

verus! {

/// Screen width of the reMarkable 2 format.
pub const RM2_WIDTH: i32 = 1404;

/// Screen height of the reMarkable 2 format.
pub const RM2_HEIGHT: i32 = 1872;

/// Size of every message, both directions.
pub const MSG_LEN: usize = 24;

pub const MESSAGE_INITIALIZE: u8 = 0;
pub const MESSAGE_UPDATE: u8 = 1;
pub const MESSAGE_TERMINATE: u8 = 3;
pub const MESSAGE_USERINPUT: u8 = 4;
pub const MESSAGE_SET_REFRESH_MODE: u8 = 5;
pub const MESSAGE_REQUEST_FULL_REFRESH: u8 = 6;

/// Pixel format: 1404x1872, 16-bit RGB565.
pub const FBFMT_RM2FB: u8 = 0;

pub const UPDATE_ALL: i32 = 0;
pub const UPDATE_PARTIAL: i32 = 1;

pub const INPUT_TOUCH_PRESS: i32 = 0x10;
pub const INPUT_TOUCH_RELEASE: i32 = 0x11;
pub const INPUT_TOUCH_UPDATE: i32 = 0x12;
pub const INPUT_PEN_PRESS: i32 = 0x20;
pub const INPUT_PEN_RELEASE: i32 = 0x21;
pub const INPUT_PEN_UPDATE: i32 = 0x22;
pub const INPUT_VKB_PRESS: i32 = 0x40;
pub const INPUT_VKB_RELEASE: i32 = 0x41;

/// E-ink waveform hints: the fast ones are near-binary (more ghosting,
/// right for inking); the quality ones take hundreds of milliseconds.
#[derive(Clone, Copy, PartialEq, Eq, Structural, Debug)]
pub enum RefreshMode {
    UltraFast,
    Fast,
    Animate,
    Content,
    Ui,
}

/// The number the protocol uses for a refresh mode.
pub open spec fn mode_code_spec(m: RefreshMode) -> i32 {
    match m {
        RefreshMode::UltraFast => 0,
        RefreshMode::Fast => 1,
        RefreshMode::Animate => 2,
        RefreshMode::Content => 3,
        RefreshMode::Ui => 4,
    }
}

pub fn mode_code(m: RefreshMode) -> (c: i32)
    ensures
        c == mode_code_spec(m),
{
    match m {
        RefreshMode::UltraFast => 0,
        RefreshMode::Fast => 1,
        RefreshMode::Animate => 2,
        RefreshMode::Content => 3,
        RefreshMode::Ui => 4,
    }
}

#[derive(Clone, Copy, PartialEq, Eq, Structural, Debug)]
pub enum Phase {
    Press,
    Move,
    Release,
}

/// An input event, decoded.
#[derive(Clone, Copy, PartialEq, Eq, Structural, Debug)]
pub enum Event {
    /// A finger; `id` is the multitouch slot.
    Touch { id: i32, phase: Phase, x: i32, y: i32 },
    /// The pen; `pressure` is meaningful during press and move.
    Pen { phase: Phase, x: i32, y: i32, pressure: i32 },
    /// The on-screen keyboard.
    Key { code: i32, pressed: bool },
    /// A signal interrupted the read.
    Interrupted,
    /// The window was closed.
    Closed,
    /// Something not decoded here.
    Other,
}

/// How a read of the socket failed.
#[derive(Clone, Copy, PartialEq, Eq, Structural, Debug)]
pub enum RecvError {
    /// Interrupted by a signal.
    Interrupted,
    /// Nothing queued (non-blocking read).
    WouldBlock,
    /// Anything else.
    Failed,
}

/// The four little-endian bytes of `v`.
pub open spec fn le32(v: i32) -> Seq<u8> {
    let u = v as u32;
    seq![(u & 0xff) as u8, ((u >> 8) & 0xff) as u8, ((u >> 16) & 0xff) as u8, ((u >> 24) & 0xff) as u8]
}

/// The value of four little-endian bytes, as a signed 32-bit number.
pub open spec fn read_le32(b: Seq<u8>, at: int) -> i32 {
    let b0 = b[at] as u32;
    let b1 = b[at + 1] as u32;
    let b2 = b[at + 2] as u32;
    let b3 = b[at + 3] as u32;
    #[verifier::truncate] ((b0 | b1 << 8 | b2 << 16 | b3 << 24) as i32)
}

/// A client message: the type byte, three bytes of padding, then the
/// contents, zero-filled to the full length.
pub open spec fn client_msg(kind: u8, contents: Seq<u8>) -> Seq<u8> {
    seq![kind, 0u8, 0u8, 0u8] + contents + Seq::new((20 - contents.len()) as nat, |i: int| 0u8)
}

fn push_le32(out: &mut Vec<u8>, v: i32)
    ensures
        final(out)@ == old(out)@ + le32(v),
{
    let u = #[verifier::truncate] (v as u32);
    out.push((u & 0xff) as u8);
    out.push(((u >> 8) & 0xff) as u8);
    out.push(((u >> 16) & 0xff) as u8);
    out.push(((u >> 24) & 0xff) as u8);
    assert(final(out)@ =~= old(out)@ + le32(v));
}

fn message(kind: u8, contents: Vec<u8>) -> (m: Vec<u8>)
    requires
        contents@.len() <= 20,
    ensures
        m@ == client_msg(kind, contents@),
        m@.len() == MSG_LEN,
{
    let mut m: Vec<u8> = Vec::new();
    m.push(kind);
    m.push(0);
    m.push(0);
    m.push(0);
    let mut i: usize = 0;
    while i < contents.len()
        invariant
            i <= contents@.len(),
            m@ =~= seq![kind, 0u8, 0u8, 0u8] + contents@.take(i as int),
        decreases contents.len() - i,
    {
        m.push(contents[i]);
        i += 1;
    }
    assert(contents@.take(contents@.len() as int) =~= contents@);
    let ghost base = m@;
    while m.len() < MSG_LEN
        invariant
            base.len() == 4 + contents@.len(),
            base.len() <= m@.len() <= MSG_LEN,
            m@ =~= base + Seq::new((m@.len() - base.len()) as nat, |i: int| 0u8),
        decreases MSG_LEN - m.len(),
    {
        m.push(0);
    }
    assert(m@ =~= client_msg(kind, contents@));
    m
}

/// The handshake: claim the framebuffer `key`, in the reMarkable 2 format.
pub fn encode_initialize(key: i32) -> (m: Vec<u8>)
    ensures
        m@ == client_msg(MESSAGE_INITIALIZE, le32(key).push(FBFMT_RM2FB)),
{
    let mut c: Vec<u8> = Vec::new();
    push_le32(&mut c, key);
    c.push(FBFMT_RM2FB);
    message(MESSAGE_INITIALIZE, c)
}

/// Blit the whole framebuffer.
pub fn encode_update_all() -> (m: Vec<u8>)
    ensures
        m@ == client_msg(MESSAGE_UPDATE, le32(UPDATE_ALL) + le32(0) + le32(0) + le32(0) + le32(0)),
{
    let mut c: Vec<u8> = Vec::new();
    push_le32(&mut c, UPDATE_ALL);
    push_le32(&mut c, 0);
    push_le32(&mut c, 0);
    push_le32(&mut c, 0);
    push_le32(&mut c, 0);
    message(MESSAGE_UPDATE, c)
}

/// Blit one region.
pub fn encode_update_region(x: i32, y: i32, w: i32, h: i32) -> (m: Vec<u8>)
    ensures
        m@ == client_msg(MESSAGE_UPDATE, le32(UPDATE_PARTIAL) + le32(x) + le32(y) + le32(w) + le32(h)),
{
    let mut c: Vec<u8> = Vec::new();
    push_le32(&mut c, UPDATE_PARTIAL);
    push_le32(&mut c, x);
    push_le32(&mut c, y);
    push_le32(&mut c, w);
    push_le32(&mut c, h);
    message(MESSAGE_UPDATE, c)
}

/// The full deghosting flash.
pub fn encode_full_refresh() -> (m: Vec<u8>)
    ensures
        m@ == client_msg(MESSAGE_REQUEST_FULL_REFRESH, Seq::empty()),
{
    message(MESSAGE_REQUEST_FULL_REFRESH, Vec::new())
}

/// Choose the waveform for later updates.
pub fn encode_refresh_mode(mode: RefreshMode) -> (m: Vec<u8>)
    ensures
        m@ == client_msg(MESSAGE_SET_REFRESH_MODE, le32(mode_code_spec(mode))),
{
    let mut c: Vec<u8> = Vec::new();
    push_le32(&mut c, mode_code(mode));
    message(MESSAGE_SET_REFRESH_MODE, c)
}

/// The goodbye that tears the window down.
pub fn encode_terminate() -> (m: Vec<u8>)
    ensures
        m@ == client_msg(MESSAGE_TERMINATE, Seq::empty()),
{
    message(MESSAGE_TERMINATE, Vec::new())
}

fn get_le32(b: &Vec<u8>, at: usize) -> (v: i32)
    requires
        b@.len() == MSG_LEN,
        at <= 20,
    ensures
        v == read_le32(b@, at as int),
{
    let b0 = b[at] as u32;
    let b1 = b[at + 1] as u32;
    let b2 = b[at + 2] as u32;
    let b3 = b[at + 3] as u32;
    #[verifier::truncate] ((b0 | b1 << 8 | b2 << 16 | b3 << 24) as i32)
}

/// What an input record means.
pub open spec fn input_event(kind: i32, dev: i32, x: i32, y: i32, d: i32) -> Event {
    if kind == INPUT_TOUCH_PRESS {
        Event::Touch { id: dev, phase: Phase::Press, x, y }
    } else if kind == INPUT_TOUCH_UPDATE {
        Event::Touch { id: dev, phase: Phase::Move, x, y }
    } else if kind == INPUT_TOUCH_RELEASE {
        Event::Touch { id: dev, phase: Phase::Release, x, y }
    } else if kind == INPUT_PEN_PRESS {
        Event::Pen { phase: Phase::Press, x, y, pressure: d }
    } else if kind == INPUT_PEN_UPDATE {
        Event::Pen { phase: Phase::Move, x, y, pressure: d }
    } else if kind == INPUT_PEN_RELEASE {
        Event::Pen { phase: Phase::Release, x, y, pressure: 0 }
    } else if kind == INPUT_VKB_PRESS {
        Event::Key { code: d, pressed: true }
    } else if kind == INPUT_VKB_RELEASE {
        Event::Key { code: d, pressed: false }
    } else {
        Event::Other
    }
}

/// What a received message means: only input messages are decoded.
pub open spec fn decode_spec(b: Seq<u8>) -> Event {
    if b[0] != MESSAGE_USERINPUT {
        Event::Other
    } else {
        input_event(read_le32(b, 4), read_le32(b, 8), read_le32(b, 12), read_le32(b, 16), read_le32(b, 20))
    }
}

/// Decode a received message (the buffer is zero-filled past what arrived).
pub fn decode(b: &Vec<u8>) -> (e: Event)
    requires
        b@.len() == MSG_LEN,
    ensures
        e == decode_spec(b@),
{
    if b[0] != MESSAGE_USERINPUT {
        return Event::Other;
    }
    let kind = get_le32(b, 4);
    let dev = get_le32(b, 8);
    let x = get_le32(b, 12);
    let y = get_le32(b, 16);
    let d = get_le32(b, 20);
    if kind == INPUT_TOUCH_PRESS {
        Event::Touch { id: dev, phase: Phase::Press, x, y }
    } else if kind == INPUT_TOUCH_UPDATE {
        Event::Touch { id: dev, phase: Phase::Move, x, y }
    } else if kind == INPUT_TOUCH_RELEASE {
        Event::Touch { id: dev, phase: Phase::Release, x, y }
    } else if kind == INPUT_PEN_PRESS {
        Event::Pen { phase: Phase::Press, x, y, pressure: d }
    } else if kind == INPUT_PEN_UPDATE {
        Event::Pen { phase: Phase::Move, x, y, pressure: d }
    } else if kind == INPUT_PEN_RELEASE {
        Event::Pen { phase: Phase::Release, x, y, pressure: 0 }
    } else if kind == INPUT_VKB_PRESS {
        Event::Key { code: d, pressed: true }
    } else if kind == INPUT_VKB_RELEASE {
        Event::Key { code: d, pressed: false }
    } else {
        Event::Other
    }
}

/// The outcome of one read: `Ok(n)` with the bytes that arrived (zero-
/// filled to the message length), or how it failed. `None` means nothing
/// was queued.
pub open spec fn received_spec(r: Result<usize, RecvError>, b: Seq<u8>) -> Option<Event> {
    match r {
        Err(RecvError::Interrupted) => Some(Event::Interrupted),
        Err(RecvError::WouldBlock) => None,
        Err(RecvError::Failed) => Some(Event::Closed),
        Ok(n) => if n == 0 {
            Some(Event::Closed)
        } else {
            Some(decode_spec(b))
        },
    }
}

pub fn received(r: Result<usize, RecvError>, b: &Vec<u8>) -> (e: Option<Event>)
    requires
        b@.len() == MSG_LEN,
    ensures
        e == received_spec(r, b@),
{
    match r {
        Err(RecvError::Interrupted) => Some(Event::Interrupted),
        Err(RecvError::WouldBlock) => None,
        Err(RecvError::Failed) => Some(Event::Closed),
        Ok(n) => if n == 0 {
            Some(Event::Closed)
        } else {
            Some(decode(b))
        },
    }
}

/// The bytes a full reMarkable 2 framebuffer needs.
pub open spec fn fb_bytes() -> int {
    RM2_WIDTH * RM2_HEIGHT * 2
}

/// The initialize reply: the shared-memory key and size (a 32-bit
/// `size_t` on the device). `None` when the shared memory is too small
/// for a full framebuffer.
pub open spec fn init_reply_spec(b: Seq<u8>) -> Option<(i32, u32)> {
    let size = read_le32(b, 8) as u32;
    if (size as int) < fb_bytes() {
        None
    } else {
        Some((read_le32(b, 4), size))
    }
}

pub fn init_reply(b: &Vec<u8>) -> (r: Option<(i32, u32)>)
    requires
        b@.len() == MSG_LEN,
    ensures
        r == init_reply_spec(b@),
{
    let key = get_le32(b, 4);
    let size = #[verifier::truncate] (get_le32(b, 8) as u32);
    if (size as i64) < RM2_WIDTH as i64 * RM2_HEIGHT as i64 * 2 {
        None
    } else {
        Some((key, size))
    }
}

/// The name of the shared-memory object for a key: "/qtfb_" and the key
/// in decimal.
pub fn shm_name(key: i32) -> (s: String)
    ensures
        s@ == "/qtfb_"@ + crate::num::int_text(key as int),
{
    let mut v = chars_of("/qtfb_");
    let d = signed_decimal(key as i64);
    v.extend_from_slice(&d);
    proof {
        reveal_strlit("/qtfb_");
    }
    string_of(&v, 0, v.len())
}

/// What an update is for: low-latency ink, or flash-free quality text.
#[derive(Clone, Copy, PartialEq, Eq, Structural, Debug)]
pub enum Wave {
    Ink,
    Text,
}

/// The refresh mode a waveform intent asks for.
pub open spec fn wave_mode_spec(w: Wave) -> RefreshMode {
    match w {
        Wave::Ink => RefreshMode::UltraFast,
        Wave::Text => RefreshMode::Ui,
    }
}

/// The messages that push a region with a waveform intent: a mode change
/// first when the mode in force differs, then the region update. `mode`
/// tracks the mode in force.
pub fn update_messages(mode: &mut RefreshMode, x: i32, y: i32, w: i32, h: i32, wave: Wave) -> (ms: Vec<Vec<u8>>)
    ensures
        *final(mode) == wave_mode_spec(wave),
        *old(mode) == wave_mode_spec(wave) ==> ms@.len() == 1
            && ms@[0]@ == client_msg(MESSAGE_UPDATE, le32(UPDATE_PARTIAL) + le32(x) + le32(y) + le32(w) + le32(h)),
        *old(mode) != wave_mode_spec(wave) ==> ms@.len() == 2
            && ms@[0]@ == client_msg(MESSAGE_SET_REFRESH_MODE, le32(mode_code_spec(wave_mode_spec(wave))))
            && ms@[1]@ == client_msg(MESSAGE_UPDATE, le32(UPDATE_PARTIAL) + le32(x) + le32(y) + le32(w) + le32(h)),
{
    let m = match wave {
        Wave::Ink => RefreshMode::UltraFast,
        Wave::Text => RefreshMode::Ui,
    };
    let mut ms: Vec<Vec<u8>> = Vec::new();
    if *mode != m {
        *mode = m;
        ms.push(encode_refresh_mode(m));
    }
    ms.push(encode_update_region(x, y, w, h));
    ms
}

} // verus!
