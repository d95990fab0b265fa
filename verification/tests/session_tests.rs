use trapmouse::session::{session_step, Session, SessionAction, SessionEvent, Stage};

fn send(t: &str) -> SessionAction {
    SessionAction::Send(t.to_string())
}

fn board(t: &str) -> SessionAction {
    SessionAction::SendBoard(t.to_string())
}

#[test]
fn mouse_side_starts_at_once() {
    let mut s = Session::new();
    assert_eq!(s.stage, Stage::Joined);
    assert_eq!(session_step(&mut s, SessionEvent::RoomState(1)), send("Game time\n"));
    assert_eq!(s.stage, Stage::Playing);
    assert_eq!(s.type_of_pawn, 2);
    // Nothing has changed since the board was last sent: the board is sent.
    assert_eq!(session_step(&mut s, SessionEvent::Tick), board("{M}{0}{6,6}"));
    assert_eq!(s.stage, Stage::Playing);
}

#[test]
fn walls_side_with_the_computer_moves_first() {
    let mut s = Session::new();
    assert_eq!(session_step(&mut s, SessionEvent::RoomState(0)), SessionAction::AskChoice);
    assert_eq!(s.stage, Stage::Choosing);
    assert_eq!(session_step(&mut s, SessionEvent::Choice('C')), SessionAction::Idle);
    assert_eq!(s.stage, Stage::Playing);
    assert_eq!(s.type_of_pawn, 1);
    assert!(s.with_computer);
    assert_eq!(
        session_step(&mut s, SessionEvent::Tick),
        SessionAction::Prompt("Place a wall(2 integers):".to_string())
    );
    assert_eq!(s.stage, Stage::AwaitingMove);
    assert_eq!(
        session_step(&mut s, SessionEvent::Move("3 4\n".to_string())),
        board("{W}{0}{6,6}{3,4}")
    );
    assert_eq!(s.stage, Stage::Playing);
    assert_eq!(session_step(&mut s, SessionEvent::Tick), board("{W}{0}{6,6}{3,4}"));
}

#[test]
fn unplayable_move_is_refused() {
    let mut s = Session::new();
    session_step(&mut s, SessionEvent::RoomState(0));
    session_step(&mut s, SessionEvent::Choice('C'));
    session_step(&mut s, SessionEvent::Tick);
    assert_eq!(
        session_step(&mut s, SessionEvent::Move("three 4".to_string())),
        SessionAction::Refused
    );
    assert_eq!(s.stage, Stage::AwaitingMove);
    assert_eq!(
        session_step(&mut s, SessionEvent::Move("3".to_string())),
        SessionAction::Refused
    );
    assert_eq!(
        session_step(&mut s, SessionEvent::Move("2 2".to_string())),
        board("{W}{0}{6,6}{2,2}")
    );
}

#[test]
fn waiting_ends_after_three_hundred_seconds() {
    let mut s = Session::new();
    session_step(&mut s, SessionEvent::RoomState(0));
    assert_eq!(session_step(&mut s, SessionEvent::Choice('W')), SessionAction::Idle);
    assert_eq!(s.stage, Stage::Waiting);
    let clock = |now: u64| SessionEvent::Clock { now, room_state: 0 };
    assert_eq!(session_step(&mut s, clock(100)), SessionAction::Sleep);
    assert_eq!(s.wait_start, Some(100));
    assert_eq!(session_step(&mut s, clock(400)), SessionAction::Sleep);
    assert_eq!(
        session_step(&mut s, clock(401)),
        SessionAction::Close("Waited too long. Ending application\n".to_string())
    );
    assert_eq!(s.stage, Stage::Over);
    assert_eq!(session_step(&mut s, SessionEvent::Tick), SessionAction::Idle);
    assert_eq!(s.stage, Stage::Over);
}

#[test]
fn second_player_starts_the_wait_out() {
    let mut s = Session::new();
    session_step(&mut s, SessionEvent::RoomState(0));
    session_step(&mut s, SessionEvent::Choice('W'));
    assert_eq!(
        session_step(&mut s, SessionEvent::Clock { now: 7, room_state: 1 }),
        send("Another player joined. Game starts now.\n")
    );
    assert_eq!(s.stage, Stage::Playing);
    assert_eq!(s.type_of_pawn, 1);
    assert!(!s.with_computer);
}

#[test]
fn game_over_is_told_and_ends_the_session() {
    let mut s = Session::new();
    session_step(&mut s, SessionEvent::RoomState(1));
    for p in [(5, 6), (5, 7), (6, 7), (7, 7), (7, 6), (6, 5)] {
        assert!(s.board.make_wall(p));
    }
    assert_eq!(
        session_step(&mut s, SessionEvent::Tick),
        SessionAction::Close("You lost(in a trap the mouse game?)".to_string())
    );
    assert_eq!(s.stage, Stage::Over);

    let mut s = Session::new();
    session_step(&mut s, SessionEvent::RoomState(0));
    session_step(&mut s, SessionEvent::Choice('C'));
    s.board.set_mouse((0, 4));
    assert_eq!(
        session_step(&mut s, SessionEvent::Tick),
        SessionAction::Close("You lost(in a trap the mouse game?)".to_string())
    );
}

#[test]
fn events_out_of_place_change_nothing() {
    let mut s = Session::new();
    assert_eq!(session_step(&mut s, SessionEvent::Tick), SessionAction::Idle);
    assert_eq!(s.stage, Stage::Joined);
    assert_eq!(session_step(&mut s, SessionEvent::Choice('W')), SessionAction::Idle);
    assert_eq!(s.stage, Stage::Joined);
}
