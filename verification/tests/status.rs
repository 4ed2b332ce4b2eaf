use remarkable::status::{fake_readings, Readings, SysStatus};

fn reading(p: i32) -> Readings {
    Readings { batt_pct: p, charging: true, wifi_bars: 2, hm: (9, 5) }
}

#[test]
fn a_refresh_shows_the_readings_and_reports_a_change_once() {
    let mut s = SysStatus::new(None, None, false);
    assert!(s.refresh(reading(55)));
    assert_eq!((s.batt_pct, s.charging, s.wifi_bars, s.hm), (55, true, 2, (9, 5)));
    assert!(!s.refresh(reading(55)));
    assert!(s.refresh(reading(54)));
}

#[test]
fn the_demo_flag_pins_the_readings() {
    let mut s = SysStatus::new(None, None, true);
    assert!(s.refresh(reading(10)));
    let f = fake_readings();
    assert_eq!((s.batt_pct, s.charging, s.wifi_bars, s.hm), (f.batt_pct, f.charging, f.wifi_bars, f.hm));
    assert_eq!((s.batt_pct, s.wifi_bars, s.hm), (87, 3, (14, 32)));
    assert!(!s.refresh(reading(99)));
}
