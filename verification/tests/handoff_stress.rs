use latr::handoff::{select_latest, tick_sleep_duration, FrameHandoff, SlotMessage};
use latr::params::{EngineCamera, EngineParams};

fn params_for_tick(tick: u32) -> EngineParams {
    EngineParams {
        camera: EngineCamera { pos: [tick, 0, 0], pitch: 0, yaw: 0 },
        screen_dimensions: (640, 360),
    }
}

#[test]
fn publish_alternates_slots_and_counts_ticks() {
    let mut h = FrameHandoff::new();
    for tick in 0..100u32 {
        let msg = h.publish(params_for_tick(tick));
        assert_eq!(msg.slot, tick % 2);
        assert_eq!(msg.seq, (tick + 1) as u64);
        assert_eq!(msg.params.camera.pos[0], tick);
    }
}

#[test]
fn reader_never_sees_slot_mid_write() {
    // Simulated publish/read stress: the writer fills its slot with the
    // tick's sequence number before publishing; whenever the reader drains
    // the backlog, the newest message's slot must hold exactly the value
    // written for that tick (no tearing), and the next write must land in
    // the other slot.
    let mut h = FrameHandoff::new();
    let mut slots: [u64; 2] = [0, 0];
    let mut writable: usize = 0;
    let mut backlog: Vec<SlotMessage> = Vec::new();
    for tick in 0..200u32 {
        // The writer writes its owned slot, then announces it.
        let seq = (tick + 1) as u64;
        slots[writable] = seq;
        let msg = h.publish(params_for_tick(tick));
        assert_eq!(msg.slot as usize, writable);
        writable = 1 - writable;
        backlog.push(msg);
        // Every few ticks the reader drains everything pending.
        if tick % 7 == 3 {
            let newest = select_latest(&backlog).unwrap();
            assert_eq!(newest.seq, seq);
            // The named slot holds the write that produced the message,
            // and is not the slot the writer will write next.
            assert_eq!(slots[newest.slot as usize], newest.seq);
            assert_ne!(newest.slot as usize, writable);
            backlog.clear();
        }
    }
}

#[test]
fn select_latest_empty_backlog() {
    let backlog: Vec<SlotMessage> = Vec::new();
    assert!(select_latest(&backlog).is_none());
}

#[test]
fn select_latest_keeps_newest() {
    let mut h = FrameHandoff::new();
    let m1 = h.publish(params_for_tick(1));
    let m2 = h.publish(params_for_tick(2));
    let m3 = h.publish(params_for_tick(3));
    let backlog = vec![m1, m3, m2];
    let newest = select_latest(&backlog).unwrap();
    assert_eq!(newest, m3);
}

#[test]
fn tick_pacing_never_sleeps_negative() {
    assert_eq!(tick_sleep_duration(16_000_000, 10_000_000), (6_000_000, false));
    assert_eq!(tick_sleep_duration(16_000_000, 16_000_000), (0, false));
    assert_eq!(tick_sleep_duration(16_000_000, 20_000_000), (0, true));
    assert_eq!(tick_sleep_duration(0, 0), (0, false));
}
