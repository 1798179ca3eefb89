use rollback::input::INPUT_FORWARD;
use rollback::session::{Session, SessionError, SessionStatus, FrameOutcome};
use rollback::sim::Ship;

const LOCAL: u64 = 10;
const REMOTE: u64 = 20;

/// Two players, local peer id 10 and remote 20, so the sorted handle
/// assignment gives the local player handle 0 and the remote handle 1.
fn two_player_session(input_delay: usize, max_adv: usize, window: usize) -> Session {
    let mut s = Session::build(LOCAL, &vec![REMOTE], 2, input_delay, max_adv, window).unwrap();
    assert_eq!(s.status(), SessionStatus::Synchronizing);
    let r = s.confirm_peer(REMOTE, 1, 2, input_delay);
    assert_eq!(r, Ok(true));
    assert_eq!(s.status(), SessionStatus::Running);
    s
}

#[test]
fn build_insufficient_peers() {
    let r = Session::build(LOCAL, &vec![], 2, 1, 3, 8);
    assert!(matches!(r, Err(SessionError::InsufficientPeers)));
}

#[test]
fn build_rejects_excess_peers() {
    let r = Session::build(LOCAL, &vec![20, 30], 2, 1, 3, 8);
    assert!(matches!(r, Err(SessionError::SessionDesync)));
}

#[test]
fn build_rejects_zero_window() {
    let r = Session::build(LOCAL, &vec![REMOTE], 2, 1, 3, 0);
    assert!(matches!(r, Err(SessionError::RollbackDepthExceeded)));
}

#[test]
fn build_rejects_duplicate_identity() {
    let r = Session::build(LOCAL, &vec![LOCAL], 2, 1, 3, 8);
    assert!(matches!(r, Err(SessionError::SessionDesync)));
    let r2 = Session::build(LOCAL, &vec![30, 30], 3, 1, 3, 8);
    assert!(matches!(r2, Err(SessionError::SessionDesync)));
}

#[test]
fn build_assigns_handles_by_sorted_identity() {
    // remote id sorts below the local id, so the remote player gets handle 0
    let s = Session::build(30, &vec![REMOTE], 2, 1, 3, 8).unwrap();
    assert_eq!(s.local_handle(), 1);
    assert_eq!(s.num_players(), 2);
    assert_eq!(s.current_frame(), 0);
    assert_eq!(s.ship(0), Ship { x: 0, y: 0 });
    assert_eq!(s.ship(1), Ship { x: 5, y: 0 });
}

#[test]
fn no_early_start_before_all_confirm() {
    let mut s = Session::build(LOCAL, &vec![20, 30], 3, 1, 3, 8).unwrap();
    assert_eq!(s.status(), SessionStatus::Synchronizing);
    let r = s.confirm_peer(20, 1, 3, 1);
    assert_eq!(r, Ok(false));
    assert_eq!(s.status(), SessionStatus::Synchronizing);
    let r = s.confirm_peer(30, 2, 3, 1);
    assert_eq!(r, Ok(true));
    assert_eq!(s.status(), SessionStatus::Running);
}

#[test]
fn parameter_mismatch_is_desync() {
    let mut s = Session::build(LOCAL, &vec![REMOTE], 2, 1, 3, 8).unwrap();
    let r = s.confirm_peer(REMOTE, 1, 3, 1);
    assert_eq!(r, Err(SessionError::SessionDesync));
    assert_eq!(s.status(), SessionStatus::Disconnected);
}

#[test]
fn delay_mismatch_is_desync() {
    let mut s = Session::build(LOCAL, &vec![REMOTE], 2, 1, 3, 8).unwrap();
    let r = s.confirm_peer(REMOTE, 1, 2, 2);
    assert_eq!(r, Err(SessionError::SessionDesync));
    assert_eq!(s.status(), SessionStatus::Disconnected);
}

#[test]
fn duplicate_handle_claim_is_desync() {
    // both remote peers claim player handle 0; the session desynchronizes
    // and never enters Running
    let mut s = Session::build(LOCAL, &vec![20, 30], 3, 1, 3, 8).unwrap();
    let first = s.confirm_peer(20, 0, 3, 1);
    let second = s.confirm_peer(30, 0, 3, 1);
    assert!(first == Err(SessionError::SessionDesync) || second == Err(SessionError::SessionDesync));
    assert_eq!(s.status(), SessionStatus::Disconnected);
}

#[test]
fn local_input_is_delayed_and_confirmed() {
    let mut s = two_player_session(2, 10, 10);
    let pkt = s.add_local_input(INPUT_FORWARD);
    assert_eq!(pkt.handle, 0);
    assert_eq!(pkt.frame, 2);
    assert_eq!(pkt.bits, INPUT_FORWARD);
    assert_eq!(s.confirmed_input(0, 2), Some(INPUT_FORWARD));
    // the two delay frames were pre-confirmed as idle for every player
    assert_eq!(s.confirmed_input(0, 0), Some(0));
    assert_eq!(s.confirmed_input(1, 1), Some(0));
    assert_eq!(s.confirmed_input(0, 3), None);
}

#[test]
fn local_resend_keeps_first_value() {
    let mut s = two_player_session(1, 10, 10);
    let first = s.add_local_input(INPUT_FORWARD);
    let second = s.add_local_input(0);
    assert_eq!(first, second);
    assert_eq!(s.confirmed_input(0, 1), Some(INPUT_FORWARD));
}

#[test]
fn duplicate_remote_input_is_idempotent() {
    let mut s = two_player_session(1, 20, 20);
    assert_eq!(s.handle_remote_input(1, 10, INPUT_FORWARD), Ok(()));
    let frame_before = s.current_frame();
    let status_before = s.status();
    let ships_before = (s.ship(0), s.ship(1));
    assert_eq!(s.handle_remote_input(1, 10, INPUT_FORWARD), Ok(()));
    assert_eq!(s.current_frame(), frame_before);
    assert_eq!(s.status(), status_before);
    assert_eq!((s.ship(0), s.ship(1)), ships_before);
    assert_eq!(s.confirmed_input(1, 10), Some(INPUT_FORWARD));
}

#[test]
fn conflicting_remote_input_is_desync() {
    let mut s = two_player_session(1, 20, 20);
    assert_eq!(s.handle_remote_input(1, 10, 3), Ok(()));
    let r = s.handle_remote_input(1, 10, 5);
    assert_eq!(r, Err(SessionError::SessionDesync));
    assert_eq!(s.status(), SessionStatus::Disconnected);
    // the confirmed value was not altered
    assert_eq!(s.confirmed_input(1, 10), Some(3));
}

#[test]
fn remote_claim_on_local_handle_is_desync() {
    let mut s = two_player_session(1, 20, 20);
    let r = s.handle_remote_input(0, 4, 1);
    assert_eq!(r, Err(SessionError::SessionDesync));
    assert_eq!(s.status(), SessionStatus::Disconnected);
}

#[test]
fn reserved_input_bits_are_desync() {
    let mut s = two_player_session(1, 20, 20);
    let r = s.handle_remote_input(1, 0, 0x20);
    assert_eq!(r, Err(SessionError::SessionDesync));
}

#[test]
fn confirmed_inputs_survive_later_traffic() {
    let mut s = two_player_session(1, 20, 20);
    assert_eq!(s.handle_remote_input(1, 3, 5), Ok(()));
    assert_eq!(s.handle_remote_input(1, 0, 0), Ok(()));
    s.add_local_input(INPUT_FORWARD);
    assert_eq!(s.advance_frame(), Ok(FrameOutcome::Advanced));
    assert_eq!(s.advance_frame(), Ok(FrameOutcome::Advanced));
    assert_eq!(s.confirmed_input(1, 3), Some(5));
    assert_eq!(s.confirmed_input(1, 0), Some(0));
}

#[test]
fn prediction_repeats_last_confirmed_input() {
    let mut s = two_player_session(1, 20, 20);
    assert_eq!(s.handle_remote_input(1, 2, INPUT_FORWARD), Ok(()));
    // before any confirmation the prediction is idle; afterwards it repeats
    // the nearest confirmed value at or below the frame
    assert_eq!(s.effective_input_of(1, 0), 0);
    assert_eq!(s.effective_input_of(1, 2), INPUT_FORWARD);
    assert_eq!(s.effective_input_of(1, 9), INPUT_FORWARD);
}

/// The correction scenario: 2 players, input delay 1.  The local player
/// presses forward for frame 5; the remote player's forward input for frame 5
/// only arrives once the local simulation has already predicted idle through
/// frame 7.  The session rolls back and resimulates, and the remote ship ends
/// up forward-shifted against its pre-correction trajectory.
#[test]
fn late_input_triggers_rollback_and_correction() {
    let mut s = two_player_session(1, 10, 10);
    for f in 0..7usize {
        let bits = if f == 4 { INPUT_FORWARD } else { 0 };
        let pkt = s.add_local_input(bits);
        assert_eq!(pkt.frame, f + 1);
        assert_eq!(s.advance_frame(), Ok(FrameOutcome::Advanced));
    }
    assert_eq!(s.current_frame(), 7);
    // pre-correction trajectory: the remote ship was simulated as idle
    assert_eq!(s.ship(1), Ship { x: 5, y: 0 });
    // the local ship consumed its confirmed forward input at frame 5
    assert_eq!(s.ship(0), Ship { x: 0, y: 7 });
    // the late confirmation for frame 5 contradicts the idle prediction
    assert_eq!(s.handle_remote_input(1, 5, INPUT_FORWARD), Ok(()));
    let pkt = s.add_local_input(0);
    assert_eq!(pkt.frame, 8);
    assert_eq!(s.advance_frame(), Ok(FrameOutcome::Advanced));
    assert_eq!(s.current_frame(), 8);
    // resimulation consumed forward at frame 5 and, prediction now repeating
    // the last confirmed value, at frames 6 and 7 as well
    assert_eq!(s.ship(1), Ship { x: 5, y: 21 });
    // the local trajectory is untouched by the correction
    assert_eq!(s.ship(0), Ship { x: 0, y: 7 });
}

/// Whether remote inputs arrive before the frames are first simulated or
/// only afterwards (forcing rollback), the states reached are identical.
#[test]
fn rollback_and_timely_delivery_agree() {
    let remote_bits = [INPUT_FORWARD, 0, INPUT_FORWARD, INPUT_FORWARD, 0, 0];

    let mut late = two_player_session(1, 10, 10);
    for f in 0..4usize {
        let pkt = late.add_local_input(INPUT_FORWARD);
        assert_eq!(pkt.frame, f + 1);
        assert_eq!(late.advance_frame(), Ok(FrameOutcome::Advanced));
    }
    for (i, bits) in remote_bits.iter().enumerate() {
        assert_eq!(late.handle_remote_input(1, i + 1, *bits), Ok(()));
    }
    for f in 4..6usize {
        let pkt = late.add_local_input(INPUT_FORWARD);
        assert_eq!(pkt.frame, f + 1);
        assert_eq!(late.advance_frame(), Ok(FrameOutcome::Advanced));
    }

    let mut timely = two_player_session(1, 10, 10);
    for (i, bits) in remote_bits.iter().enumerate() {
        assert_eq!(timely.handle_remote_input(1, i + 1, *bits), Ok(()));
    }
    for f in 0..6usize {
        let pkt = timely.add_local_input(INPUT_FORWARD);
        assert_eq!(pkt.frame, f + 1);
        assert_eq!(timely.advance_frame(), Ok(FrameOutcome::Advanced));
    }

    assert_eq!(late.current_frame(), timely.current_frame());
    assert_eq!(late.ship(0), timely.ship(0));
    assert_eq!(late.ship(1), timely.ship(1));
}

/// Frame advantage over the cap stalls the simulation without stopping the
/// input broadcast; confirmations from the remote peer release the stall.
#[test]
fn stall_when_too_far_ahead() {
    let mut s = two_player_session(1, 2, 10);
    // the remote confirmation horizon starts at 1 (the pre-confirmed delay
    // frame); the fourth advance pushes frame advantage past the cap of 2
    for f in 0..4usize {
        s.add_local_input(0);
        assert_eq!(s.advance_frame(), Ok(FrameOutcome::Advanced));
        assert_eq!(s.current_frame(), f + 1);
    }
    assert_eq!(s.status(), SessionStatus::Stalled);
    // stalled: no frame is produced, but the local input is still sent
    let pkt = s.add_local_input(INPUT_FORWARD);
    assert_eq!(pkt.frame, 5);
    assert_eq!(s.advance_frame(), Ok(FrameOutcome::Stalled));
    assert_eq!(s.current_frame(), 4);
    assert_eq!(s.status(), SessionStatus::Stalled);
    // the remote peer catches up: frames 1 and 2 confirmed
    assert_eq!(s.handle_remote_input(1, 1, 0), Ok(()));
    assert_eq!(s.handle_remote_input(1, 2, 0), Ok(()));
    assert_eq!(s.advance_frame(), Ok(FrameOutcome::Advanced));
    assert_eq!(s.current_frame(), 5);
    assert_eq!(s.status(), SessionStatus::Running);
}

#[test]
fn rollback_deeper_than_window_is_fatal() {
    let mut s = two_player_session(1, 20, 1);
    for _ in 0..5 {
        s.add_local_input(0);
        assert_eq!(s.advance_frame(), Ok(FrameOutcome::Advanced));
    }
    // only the newest snapshot is retained; a correction at frame 1 cannot
    // be honored
    assert_eq!(s.handle_remote_input(1, 1, INPUT_FORWARD), Ok(()));
    let r = s.advance_frame();
    assert_eq!(r, Err(SessionError::RollbackDepthExceeded));
    assert_eq!(s.status(), SessionStatus::Disconnected);
}

#[test]
fn matching_confirmation_needs_no_rollback() {
    let mut s = two_player_session(1, 20, 20);
    assert_eq!(s.handle_remote_input(1, 1, INPUT_FORWARD), Ok(()));
    for _ in 0..4 {
        s.add_local_input(0);
        assert_eq!(s.advance_frame(), Ok(FrameOutcome::Advanced));
    }
    let before = s.ship(1);
    assert_eq!(before, Ship { x: 5, y: 21 });
    // frames 2 and 3 were predicted as forward; the confirmations agree, so
    // the states stand as they are
    assert_eq!(s.handle_remote_input(1, 2, INPUT_FORWARD), Ok(()));
    assert_eq!(s.handle_remote_input(1, 3, INPUT_FORWARD), Ok(()));
    s.add_local_input(0);
    assert_eq!(s.advance_frame(), Ok(FrameOutcome::Advanced));
    assert_eq!(s.ship(1), Ship { x: before.x, y: before.y + 7 });
}

#[test]
fn disconnect_is_terminal() {
    let mut s = two_player_session(1, 20, 20);
    s.disconnect();
    assert_eq!(s.status(), SessionStatus::Disconnected);
    // traffic after teardown is ignored
    assert_eq!(s.handle_remote_input(1, 2, 1), Ok(()));
    assert_eq!(s.confirmed_input(1, 2), None);
    assert_eq!(s.confirm_peer(REMOTE, 1, 2, 1), Ok(false));
    assert_eq!(s.status(), SessionStatus::Disconnected);
}

#[test]
fn peer_timeout_disconnects_whole_session() {
    let mut s = two_player_session(1, 20, 20);
    s.add_local_input(INPUT_FORWARD);
    assert_eq!(s.advance_frame(), Ok(FrameOutcome::Advanced));
    let frame = s.current_frame();
    let ships = (s.ship(0), s.ship(1));
    let e = s.report_peer_timeout(1);
    assert_eq!(e, SessionError::PeerTimeout);
    assert_eq!(s.status(), SessionStatus::Disconnected);
    // the last completed tick's state stands
    assert_eq!(s.current_frame(), frame);
    assert_eq!((s.ship(0), s.ship(1)), ships);
}
