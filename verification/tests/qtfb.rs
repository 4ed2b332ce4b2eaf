use remarkable::qtfb::{
    decode, encode_full_refresh, encode_initialize, encode_refresh_mode, encode_terminate, encode_update_all,
    encode_update_region, init_reply, mode_code, received, shm_name, update_messages, Event, Phase, RecvError,
    RefreshMode, Wave, MSG_LEN,
};

fn msg(kind: u8, words: &[i32]) -> Vec<u8> {
    let mut m = vec![kind, 0, 0, 0];
    for w in words {
        m.extend_from_slice(&w.to_le_bytes());
    }
    m.resize(24, 0);
    m
}

#[test]
fn client_messages_have_the_abi_layout() {
    let mut init = vec![0u8, 0, 0, 0];
    init.extend_from_slice(&1234i32.to_le_bytes());
    init.push(0);
    init.resize(24, 0);
    assert_eq!(encode_initialize(1234), init);
    assert_eq!(encode_update_all(), msg(1, &[0, 0, 0, 0, 0]));
    assert_eq!(encode_update_region(10, 20, 300, -4), msg(1, &[1, 10, 20, 300, -4]));
    assert_eq!(encode_full_refresh(), msg(6, &[]));
    assert_eq!(encode_refresh_mode(RefreshMode::Ui), msg(5, &[4]));
    assert_eq!(encode_terminate(), msg(3, &[]));
    assert_eq!(encode_terminate().len(), MSG_LEN);
}

#[test]
fn refresh_mode_codes() {
    assert_eq!(mode_code(RefreshMode::UltraFast), 0);
    assert_eq!(mode_code(RefreshMode::Fast), 1);
    assert_eq!(mode_code(RefreshMode::Animate), 2);
    assert_eq!(mode_code(RefreshMode::Content), 3);
    assert_eq!(mode_code(RefreshMode::Ui), 4);
}

#[test]
fn input_messages_decode() {
    assert_eq!(decode(&msg(4, &[0x10, 2, 30, 40, 0])), Event::Touch { id: 2, phase: Phase::Press, x: 30, y: 40 });
    assert_eq!(decode(&msg(4, &[0x12, 2, 31, 41, 0])), Event::Touch { id: 2, phase: Phase::Move, x: 31, y: 41 });
    assert_eq!(decode(&msg(4, &[0x11, 2, 32, 42, 0])), Event::Touch { id: 2, phase: Phase::Release, x: 32, y: 42 });
    assert_eq!(decode(&msg(4, &[0x20, 0, 5, 6, 900])), Event::Pen { phase: Phase::Press, x: 5, y: 6, pressure: 900 });
    assert_eq!(decode(&msg(4, &[0x22, 0, 5, 6, 800])), Event::Pen { phase: Phase::Move, x: 5, y: 6, pressure: 800 });
    assert_eq!(decode(&msg(4, &[0x21, 0, 5, 6, 700])), Event::Pen { phase: Phase::Release, x: 5, y: 6, pressure: 0 });
    assert_eq!(decode(&msg(4, &[0x40, 0, 0, 0, 65])), Event::Key { code: 65, pressed: true });
    assert_eq!(decode(&msg(4, &[0x41, 0, 0, 0, 65])), Event::Key { code: 65, pressed: false });
    assert_eq!(decode(&msg(4, &[0x99, 0, 0, 0, 0])), Event::Other);
    assert_eq!(decode(&msg(2, &[0x10, 0, 0, 0, 0])), Event::Other);
}

#[test]
fn read_outcomes() {
    let m = msg(4, &[0x10, 0, 1, 2, 0]);
    assert_eq!(received(Err(RecvError::Interrupted), &m), Some(Event::Interrupted));
    assert_eq!(received(Err(RecvError::WouldBlock), &m), None);
    assert_eq!(received(Err(RecvError::Failed), &m), Some(Event::Closed));
    assert_eq!(received(Ok(0), &m), Some(Event::Closed));
    assert_eq!(received(Ok(24), &m), Some(Event::Touch { id: 0, phase: Phase::Press, x: 1, y: 2 }));
}

#[test]
fn init_reply_checks_the_shared_memory_size() {
    let full = 1404 * 1872 * 2;
    assert_eq!(init_reply(&msg(0, &[77, full])), Some((77, full as u32)));
    assert_eq!(init_reply(&msg(0, &[77, full - 1])), None);
    assert_eq!(shm_name(77), "/qtfb_77");
    assert_eq!(shm_name(-3), "/qtfb_-3");
}

#[test]
fn waveform_changes_send_a_mode_message_once() {
    let mut mode = RefreshMode::UltraFast;
    let ms = update_messages(&mut mode, 1, 2, 3, 4, Wave::Ink);
    assert_eq!(ms, vec![encode_update_region(1, 2, 3, 4)]);
    let ms = update_messages(&mut mode, 1, 2, 3, 4, Wave::Text);
    assert_eq!(ms, vec![encode_refresh_mode(RefreshMode::Ui), encode_update_region(1, 2, 3, 4)]);
    assert_eq!(mode, RefreshMode::Ui);
    let ms = update_messages(&mut mode, 1, 2, 3, 4, Wave::Text);
    assert_eq!(ms.len(), 1);
}
