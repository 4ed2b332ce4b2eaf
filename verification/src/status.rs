//! The status bar's state: battery, charging, wifi bars and the clock.
//! The readings come from system files and the clock; what the bar keeps
//! and whether it must be repainted is decided here.

use vstd::prelude::*;

verus! {

/// Height of the status bar.
pub const STATUS_H: i32 = 56;

/// One reading of the system state.
#[derive(Clone, Copy, Debug)]
pub struct Readings {
    /// Battery percentage, -1 when unknown.
    pub batt_pct: i32,
    pub charging: bool,
    /// -1 = wifi off or absent, else 0..=3 bars.
    pub wifi_bars: i8,
    /// Local (hour, minute).
    pub hm: (i32, i32),
}

pub struct SysStatus {
    /// Where the battery capacity and status are read, when found.
    pub cap_path: Option<String>,
    pub status_path: Option<String>,
    /// Pinned readings for the preview harness.
    pub fake: bool,
    pub batt_pct: i32,
    pub charging: bool,
    pub wifi_bars: i8,
    pub hm: (i32, i32),
}

/// What the status bar currently shows.
pub open spec fn shown(s: SysStatus) -> Readings {
    Readings { batt_pct: s.batt_pct, charging: s.charging, wifi_bars: s.wifi_bars, hm: s.hm }
}

/// The pinned readings of the preview harness.
pub fn fake_readings() -> (r: Readings)
    ensures
        r == (Readings { batt_pct: 87, charging: false, wifi_bars: 3, hm: (14, 32) }),
{
    Readings { batt_pct: 87, charging: false, wifi_bars: 3, hm: (14, 32) }
}

/// Whether a battery status file's (trimmed) text says it is charging.
pub fn is_charging(status: &str) -> (b: bool)
    ensures
        b == (status@ == "Charging"@),
{
    let cs = crate::strs::chars_of(status);
    let want = crate::strs::chars_of("Charging");
    if cs.len() != want.len() {
        return false;
    }
    let m = crate::text::matches_at(&cs, 0, &want);
    proof {
        if m {
            assert(cs@ =~= want@);
        } else if cs@ == want@ {
            assert(cs@.subrange(0, want@.len() as int) =~= want@);
        }
    }
    m
}

impl SysStatus {
    /// A status with nothing read yet.
    pub fn new(cap_path: Option<String>, status_path: Option<String>, fake: bool) -> (s: SysStatus)
        ensures
            s.cap_path == cap_path,
            s.status_path == status_path,
            s.fake == fake,
            shown(s) == (Readings { batt_pct: -1i32, charging: false, wifi_bars: -1i8, hm: (0i32, 0i32) }),
    {
        SysStatus { cap_path, status_path, fake, batt_pct: -1, charging: false, wifi_bars: -1, hm: (0, 0) }
    }

    /// Take a new reading (the battery and wifi files and the clock, as
    /// read by the caller); with the demo flag set the pinned readings
    /// are shown instead. True if anything the user sees changed.
    pub fn refresh(&mut self, read: Readings) -> (changed: bool)
        ensures
            shown(*final(self)) == (if old(self).fake {
                Readings { batt_pct: 87, charging: false, wifi_bars: 3, hm: (14, 32) }
            } else {
                read
            }),
            changed == (shown(*final(self)) != shown(*old(self))),
            final(self).cap_path == old(self).cap_path,
            final(self).status_path == old(self).status_path,
            final(self).fake == old(self).fake,
    {
        let r = if self.fake {
            fake_readings()
        } else {
            read
        };
        let changed = r.batt_pct != self.batt_pct || r.charging != self.charging || r.wifi_bars
            != self.wifi_bars || r.hm.0 != self.hm.0 || r.hm.1 != self.hm.1;
        self.batt_pct = r.batt_pct;
        self.charging = r.charging;
        self.wifi_bars = r.wifi_bars;
        self.hm = r.hm;
        changed
    }
}

} // verus!
