use remarkable::wake::{due_work, next_timeout, settle_step, Settle, Timers};

#[test]
fn nothing_pending_blocks() {
    assert_eq!(next_timeout(&[]), -1);
}

#[test]
fn the_soonest_wait_wins() {
    assert_eq!(next_timeout(&[500, 20, 300]), 20);
    assert_eq!(next_timeout(&[0, 5000]), 0);
    assert_eq!(next_timeout(&[5000]), 5000);
}

#[test]
fn a_wait_past_the_i32_range_is_cut_and_floored() {
    // 3e9 ms wraps to a negative i32, which floors to 0
    assert_eq!(next_timeout(&[3_000_000_000]), 0);
    // 2^32 + 7 keeps its low 32 bits
    assert_eq!(next_timeout(&[(1u64 << 32) + 7]), 7);
}

fn quiet() -> Timers {
    Timers {
        on_doc: true,
        dialog_open: false,
        ink_due: false,
        indicator_due: false,
        settle_due: false,
        settle_busy: false,
        deghost_due: false,
        deghost_busy: false,
        bar_due: false,
        status_due: false,
        rescan_due: false,
        anim_due: false,
    }
}

#[test]
fn settling_jobs_wait_for_the_pen() {
    assert_eq!(settle_step(false, true), Settle::Idle);
    assert_eq!(settle_step(true, true), Settle::Rearm);
    assert_eq!(settle_step(true, false), Settle::Fire);
}

#[test]
fn document_work_only_on_the_document_and_rescans_only_at_home() {
    let t = Timers { ink_due: true, anim_due: true, deghost_due: true, rescan_due: true, ..quiet() };
    let d = due_work(t);
    assert!(d.flush_ink && d.anim_tick && !d.home_rescan);
    assert_eq!(d.deghost, Settle::Fire);
    let d = due_work(Timers { on_doc: false, ..t });
    assert!(!d.flush_ink && !d.anim_tick && d.home_rescan);
    assert_eq!(d.deghost, Settle::Idle);
    let d = due_work(Timers { on_doc: false, dialog_open: true, ..t });
    assert!(!d.home_rescan);
    let d = due_work(Timers { bar_due: true, status_due: true, ..quiet() });
    assert!(d.dismiss_bar && d.status_tick && !d.clear_indicator);
}
