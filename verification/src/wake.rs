//! When the event loop must wake next: the soonest of the pending
//! flushes, ticks and deadlines, as a poll timeout.

use vstd::prelude::*;

verus! {

/// The smallest wait, if any.
pub open spec fn soonest(ws: Seq<u64>) -> Option<u64>
    decreases ws.len(),
{
    if ws.len() == 0 {
        None
    } else {
        match soonest(ws.drop_last()) {
            Some(m) if m <= ws.last() => Some(m),
            _ => Some(ws.last()),
        }
    }
}

/// The poll timeout in milliseconds for the pending waits (each in
/// milliseconds): the soonest, cut to an `i32` and floored at 0; -1
/// (block until input) when nothing is pending.
pub fn next_timeout(waits: &[u64]) -> (t: i32)
    ensures
        t == match soonest(waits@) {
            None => -1i32,
            Some(m) => if (m as i32) < 0 {
                0i32
            } else {
                m as i32
            },
        },
{
    let mut best: Option<u64> = None;
    let mut i: usize = 0;
    while i < waits.len()
        invariant
            i <= waits@.len(),
            best == soonest(waits@.take(i as int)),
        decreases waits.len() - i,
    {
        let w = waits[i];
        assert(waits@.take(i + 1).drop_last() =~= waits@.take(i as int));
        best = match best {
            Some(m) if m <= w => Some(m),
            _ => Some(w),
        };
        i += 1;
    }
    assert(waits@.take(waits@.len() as int) =~= waits@);
    match best {
        None => -1,
        Some(m) => {
            let t = m as i32;
            if t < 0 {
                0
            } else {
                t
            }
        },
    }
}

/// The soonest wait is no later than any pending one.
pub proof fn lemma_soonest_is_min(ws: Seq<u64>, k: int)
    requires
        0 <= k < ws.len(),
    ensures
        soonest(ws) matches Some(m) && m <= ws[k],
    decreases ws.len(),
{
    if k < ws.len() - 1 {
        lemma_soonest_is_min(ws.drop_last(), k);
    }
}


/* ---- the reader's due work ---------------------------------------------------- */

/// A deadline-driven job that waits for the pen to settle.
#[derive(Clone, Copy, PartialEq, Eq, Structural, Debug)]
pub enum Settle {
    /// Not armed, or not yet due.
    Idle,
    /// Due, but the pen is still busy: push the deadline out.
    Rearm,
    /// Due and the pen is quiet: do it and disarm.
    Fire,
}

pub open spec fn settle_spec(armed_due: bool, pen_busy: bool) -> Settle {
    if !armed_due {
        Settle::Idle
    } else if pen_busy {
        Settle::Rearm
    } else {
        Settle::Fire
    }
}

pub fn settle_step(armed_due: bool, pen_busy: bool) -> (s: Settle)
    ensures
        s == settle_spec(armed_due, pen_busy),
{
    if !armed_due {
        Settle::Idle
    } else if pen_busy {
        Settle::Rearm
    } else {
        Settle::Fire
    }
}

/// What the reader's loop has come due, as plain facts about its timers.
#[derive(Clone, Copy, PartialEq, Eq, Structural, Debug)]
pub struct Timers {
    /// The document screen is up (else the home screen).
    pub on_doc: bool,
    pub dialog_open: bool,
    /// Fresh ink waits to be pushed and the flush interval has passed.
    pub ink_due: bool,
    /// The page indicator's time is up.
    pub indicator_due: bool,
    /// The settle pass over fresh ink is due, and whether the pen is busy.
    pub settle_due: bool,
    pub settle_busy: bool,
    /// The deghost refresh after erasing is due, and whether the pen is busy.
    pub deghost_due: bool,
    pub deghost_busy: bool,
    pub bar_due: bool,
    pub status_due: bool,
    pub rescan_due: bool,
    /// Animated strokes are pending and a tick has passed.
    pub anim_due: bool,
}

/// The work due, in the order the loop does it.
pub struct Due {
    pub flush_ink: bool,
    pub clear_indicator: bool,
    pub settle: Settle,
    pub deghost: Settle,
    pub dismiss_bar: bool,
    pub status_tick: bool,
    pub home_rescan: bool,
    pub anim_tick: bool,
}

/// Document-screen work happens only on the document screen; the rescan
/// only on the home screen with no dialog up.
pub open spec fn due_spec(t: Timers) -> Due {
    Due {
        flush_ink: t.on_doc && t.ink_due,
        clear_indicator: t.on_doc && t.indicator_due,
        settle: if t.on_doc { settle_spec(t.settle_due, t.settle_busy) } else { Settle::Idle },
        deghost: if t.on_doc { settle_spec(t.deghost_due, t.deghost_busy) } else { Settle::Idle },
        dismiss_bar: t.bar_due,
        status_tick: t.status_due,
        home_rescan: !t.on_doc && !t.dialog_open && t.rescan_due,
        anim_tick: t.on_doc && t.anim_due,
    }
}

pub fn due_work(t: Timers) -> (d: Due)
    ensures
        d == due_spec(t),
{
    Due {
        flush_ink: t.on_doc && t.ink_due,
        clear_indicator: t.on_doc && t.indicator_due,
        settle: if t.on_doc { settle_step(t.settle_due, t.settle_busy) } else { Settle::Idle },
        deghost: if t.on_doc { settle_step(t.deghost_due, t.deghost_busy) } else { Settle::Idle },
        dismiss_bar: t.bar_due,
        status_tick: t.status_due,
        home_rescan: !t.on_doc && !t.dialog_open && t.rescan_due,
        anim_tick: t.on_doc && t.anim_due,
    }
}

} // verus!
