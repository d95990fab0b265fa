use vstd::prelude::*;
use crate::boardserver::{
    any_difference, gameboard_state, lemma_mouse_in_field, lemma_mouse_moved_unique,
    lemma_wall_placed_unique, Board, Cellprop,
};
use crate::grid::in_grid;
use crate::prereq::BasicMessages;
use crate::server::{
    game_over_message, int_at, move_prompt, pawn_char, play_received_move, received_move_ok,
};
use crate::text::words;

verus! {

/// Where a player's session stands.
#[derive(Clone, Copy, Eq, PartialEq, Debug, Structural)]
pub enum Stage {
    /// The player has joined a room; the room's game state decides its side.
    Joined,
    /// The player of the walls is asked whether to wait for another player or
    /// to play with the computer.
    Choosing,
    /// Waiting for another player to join the room.
    Waiting,
    /// The game runs.
    Playing,
    /// The player has been asked for a move.
    AwaitingMove,
    /// The session has ended.
    Over,
}

/// The state of one player's session on the server: its side (1 for the
/// walls, 2 for the mouse, 0 while undecided), whether it plays with the
/// computer, the board it plays on, the board as last sent to it, and when it
/// began to wait for another player.
pub struct Session {
    pub stage: Stage,
    pub type_of_pawn: i32,
    pub with_computer: bool,
    pub board: Board,
    pub cache: Board,
    pub wait_start: Option<u64>,
}

/// What happens to a session: the game state of its room, the player's choice
/// between waiting ('W') and the computer, the clock (seconds) with the room's
/// game state at that moment, the text of a move the player sent, or a turn of
/// the game loop.
pub enum SessionEvent {
    RoomState(i32),
    Choice(char),
    Clock { now: u64, room_state: i32 },
    Move(String),
    Tick,
}

/// What the session asks to be done: ask the player to choose, send a text,
/// send a prompt and read the move that answers it, send the board, sleep a
/// moment before the next clock event, send a text and end, refuse a move
/// that cannot be played, or nothing.
#[derive(Debug, PartialEq, Eq)]
pub enum SessionAction {
    AskChoice,
    Send(String),
    Prompt(String),
    SendBoard(String),
    Sleep,
    Close(String),
    Refused,
    Idle,
}

/// The text that tells the waiting player of the walls that a second player
/// has joined and the game starts.
pub open spec fn partner_text() -> Seq<char> {
    "Another player joined. Game starts now.\n"@
}

/// The text that ends a wait that has lasted too long.
pub open spec fn timeout_text() -> Seq<char> {
    "Waited too long. Ending application\n"@
}

/// The text that tells the player of the mouse that the game starts.
pub open spec fn game_time_text() -> Seq<char> {
    "Game time\n"@
}

/// The longest wait for another player, in seconds.
pub open spec fn max_wait() -> int {
    300
}

/// The character of a side in the boards sent to its player.
pub open spec fn pawn(type_of_pawn: i32) -> char {
    seq!['-', 'W', 'M'][type_of_pawn as int]
}

/// The text for the player of side `type_of_pawn` once the game has ended in
/// state `st` ('W': the walls have won; 'M': the mouse has).
pub open spec fn end_text(st: char, type_of_pawn: i32) -> Seq<char> {
    let lost = if st == 'W' {
        type_of_pawn == 2
    } else {
        type_of_pawn == 1
    };
    if lost {
        "You lost(in a trap the mouse game?)"@
    } else {
        "You won (against all walls), congrats!"@
    }
}

/// The prompt for a move of side `type_of_pawn`.
pub open spec fn prompt_text(type_of_pawn: i32) -> Seq<char> {
    if type_of_pawn == 2 {
        "Move mouse in one of the 6 directions[1-6]>"@
    } else {
        "Place a wall(2 integers):"@
    }
}

/// Two boards differ in the mouse's position or in a cell.
pub open spec fn boards_differ(a: Board, b: Board) -> bool {
    a.mouse_pos != b.mouse_pos || exists|i: int, j: int|
        in_grid((i, j)) && #[trigger] a.prop(i, j) != b.prop(i, j)
}

/// `next` is `board` after the move that the words `ws` write has been played
/// for side `type_of_pawn`: a step of the mouse, or a wall.
pub open spec fn move_played(board: Board, next: Board, type_of_pawn: i32, ws: Seq<Seq<char>>) -> bool {
    if type_of_pawn == 2 {
        let d = int_at(ws, 0) as int;
        board.mouse_moved(next, d, board.move_succeeds(d))
    } else {
        let p = (int_at(ws, 0), int_at(ws, 1));
        board.wall_placed(
            next,
            p,
            0 <= p.0 <= 12 && 0 <= p.1 <= 12 && board.prop(p.0 as int, p.1 as int)
                == Cellprop::Free,
        )
    }
}

/// `next` is `s` once its player has taken the walls: the game starts, and
/// the board as last sent shows a wall at (1, 1), so that the walls move
/// first.
pub open spec fn takes_walls(s: Session, next: Session, with_computer: bool) -> bool {
    &&& next == Session {
        stage: Stage::Playing,
        type_of_pawn: 1,
        with_computer,
        cache: next.cache,
        ..s
    }
    &&& s.cache.wall_placed(next.cache, (1i32, 1i32), s.cache.prop(1, 1) == Cellprop::Free)
}

/// One step of a session: `next` and `a` are what the session `s` becomes and
/// asks for on event `e`.
/// - Joined: a room in game state 0 makes the player the walls, who is asked
///   to choose; any other makes it the mouse, and the game starts.
/// - Choosing: 'W' starts the wait; anything else plays with the computer.
/// - Waiting: once the room's game state is 1 the game starts; after more
///   than 300 seconds the session ends; else it sleeps.
/// - Playing: once the walls or the mouse have won, the player is told and the
///   session ends; else, where the board differs from the board last sent,
///   the player is asked for a move; else the board is sent.
/// - AwaitingMove: a move that can be played is played and the board sent; one
///   that cannot is refused, changing nothing.
/// - Any other event changes nothing.
pub open spec fn session_next(s: Session, e: SessionEvent, next: Session, a: SessionAction) -> bool {
    match s.stage {
        Stage::Joined => match e {
            SessionEvent::RoomState(gs) => if gs == 0 {
                next == Session { stage: Stage::Choosing, ..s } && a is AskChoice
            } else {
                &&& next == Session { stage: Stage::Playing, type_of_pawn: 2, ..s }
                &&& a matches SessionAction::Send(t) && t@ == game_time_text()
            },
            _ => next == s && a is Idle,
        },
        Stage::Choosing => match e {
            SessionEvent::Choice(c) => if c == 'W' {
                next == Session { stage: Stage::Waiting, wait_start: None, ..s } && a is Idle
            } else {
                takes_walls(s, next, true) && a is Idle
            },
            _ => next == s && a is Idle,
        },
        Stage::Waiting => match e {
            SessionEvent::Clock { now, room_state } => {
                let start = match s.wait_start {
                    Some(t) => t,
                    None => now,
                };
                if room_state == 1 {
                    &&& takes_walls(s, next, s.with_computer)
                    &&& a matches SessionAction::Send(t) && t@ == partner_text()
                } else if now - start > max_wait() {
                    &&& next == Session { stage: Stage::Over, ..s }
                    &&& a matches SessionAction::Close(t) && t@ == timeout_text()
                } else {
                    next == Session { wait_start: Some(start), ..s } && a is Sleep
                }
            },
            _ => next == s && a is Idle,
        },
        Stage::Playing => match e {
            SessionEvent::Tick => {
                let st = s.board.state_char();
                if st == 'W' || st == 'M' {
                    &&& next == Session { stage: Stage::Over, ..s }
                    &&& a matches SessionAction::Close(t) && t@ == end_text(st, s.type_of_pawn)
                } else if boards_differ(s.board, s.cache) {
                    &&& next == Session { stage: Stage::AwaitingMove, ..s }
                    &&& a matches SessionAction::Prompt(t) && t@ == prompt_text(s.type_of_pawn)
                } else {
                    &&& next == Session { cache: s.board, ..s }
                    &&& a matches SessionAction::SendBoard(t) && t@ == s.board.moves_text(
                        pawn(s.type_of_pawn),
                        false,
                    )
                }
            },
            _ => next == s && a is Idle,
        },
        Stage::AwaitingMove => match e {
            SessionEvent::Move(text) => {
                let ws = words(text@);
                if !received_move_ok(s.board, s.type_of_pawn, ws) {
                    next == s && a is Refused
                } else {
                    &&& move_played(s.board, next.board, s.type_of_pawn, ws)
                    &&& next == Session {
                        stage: Stage::Playing,
                        board: next.board,
                        cache: next.board,
                        ..s
                    }
                    &&& a matches SessionAction::SendBoard(t) && t@ == next.board.moves_text(
                        pawn(s.type_of_pawn),
                        false,
                    )
                }
            },
            _ => next == s && a is Idle,
        },
        Stage::Over => next == s && a is Idle,
    }
}

/// Which kind of action `a` is, numbered in the order of the variants.
pub open spec fn action_kind(a: SessionAction) -> int {
    match a {
        SessionAction::AskChoice => 0,
        SessionAction::Send(_) => 1,
        SessionAction::Prompt(_) => 2,
        SessionAction::SendBoard(_) => 3,
        SessionAction::Sleep => 4,
        SessionAction::Close(_) => 5,
        SessionAction::Refused => 6,
        SessionAction::Idle => 7,
    }
}

/// The text that action `a` sends, empty for an action that sends none.
pub open spec fn action_text(a: SessionAction) -> Seq<char> {
    match a {
        SessionAction::Send(t) => t@,
        SessionAction::Prompt(t) => t@,
        SessionAction::SendBoard(t) => t@,
        SessionAction::Close(t) => t@,
        _ => Seq::empty(),
    }
}

/// A step of a session has one outcome: the next state, the kind of action
/// and the text it sends are fixed by the state and the event.
pub proof fn lemma_session_next_unique(
    s: Session,
    e: SessionEvent,
    n1: Session,
    a1: SessionAction,
    n2: Session,
    a2: SessionAction,
)
    requires
        session_next(s, e, n1, a1),
        session_next(s, e, n2, a2),
    ensures
        n1 == n2,
        action_kind(a1) == action_kind(a2),
        action_text(a1) == action_text(a2),
{
    let free = s.cache.prop(1, 1) == Cellprop::Free;
    match s.stage {
        Stage::Choosing => {
            if let SessionEvent::Choice(c) = e {
                if c != 'W' {
                    lemma_wall_placed_unique(s.cache, n1.cache, n2.cache, (1i32, 1i32), free, free);
                }
            }
        },
        Stage::Waiting => {
            if let SessionEvent::Clock { room_state, .. } = e {
                if room_state == 1 {
                    lemma_wall_placed_unique(s.cache, n1.cache, n2.cache, (1i32, 1i32), free, free);
                }
            }
        },
        Stage::AwaitingMove => {
            if let SessionEvent::Move(text) = e {
                let ws = words(text@);
                if received_move_ok(s.board, s.type_of_pawn, ws) {
                    if s.type_of_pawn == 2 {
                        let d = int_at(ws, 0) as int;
                        lemma_mouse_moved_unique(
                            s.board,
                            n1.board,
                            n2.board,
                            d,
                            s.board.move_succeeds(d),
                            s.board.move_succeeds(d),
                        );
                    } else {
                        let p = (int_at(ws, 0), int_at(ws, 1));
                        let ok = 0 <= p.0 <= 12 && 0 <= p.1 <= 12 && s.board.prop(p.0 as int, p.1 as int)
                            == Cellprop::Free;
                        lemma_wall_placed_unique(s.board, n1.board, n2.board, p, ok, ok);
                    }
                }
            }
        },
        _ => {},
    }
}

/// Once the game has ended, a turn of the game loop tells the player of the
/// side that has won (the walls on 'W', the mouse on 'M') that it won, tells
/// the other side that it lost, and ends the session.
pub proof fn lemma_winner_told_it_won(s: Session, n: Session, a: SessionAction)
    requires
        s.stage == Stage::Playing,
        s.type_of_pawn == 1 || s.type_of_pawn == 2,
        s.board.state_char() == 'W' || s.board.state_char() == 'M',
        session_next(s, SessionEvent::Tick, n, a),
    ensures
        a is Close,
        n.stage == Stage::Over,
        action_text(a) == "You won (against all walls), congrats!"@ <==> ((s.board.state_char()
            == 'W' && s.type_of_pawn == 1) || (s.board.state_char() == 'M' && s.type_of_pawn
            == 2)),
        action_text(a) == "You lost(in a trap the mouse game?)"@ <==> ((s.board.state_char()
            == 'W' && s.type_of_pawn == 2) || (s.board.state_char() == 'M' && s.type_of_pawn
            == 1)),
{
    reveal_strlit("You won (against all walls), congrats!");
    reveal_strlit("You lost(in a trap the mouse game?)");
    assert("You won (against all walls), congrats!"@[4] != "You lost(in a trap the mouse game?)"@[4]);
}

/// A clock event comes no earlier than the moment the wait began.
pub open spec fn clock_in_order(s: Session, e: SessionEvent) -> bool {
    match e {
        SessionEvent::Clock { now, .. } => match s.wait_start {
            Some(t) => t <= now,
            None => true,
        },
        _ => true,
    }
}

impl Session {
    /// The session can be stepped: the board's state can be told, and the
    /// side is 0, 1 or 2.
    pub open spec fn wf(self) -> bool {
        &&& self.board.state_ok()
        &&& 0 <= self.type_of_pawn <= 2
    }

    /// The session of a player who has just joined a room: no side yet, new
    /// boards, no wait begun.
    pub fn new() -> (s: Self)
        ensures
            s.stage == Stage::Joined,
            s.type_of_pawn == 0,
            !s.with_computer,
            s.board.is_initial(),
            s.cache.is_initial(),
            s.wait_start is None,
            s.wf(),
    {
        Session {
            stage: Stage::Joined,
            type_of_pawn: 0,
            with_computer: false,
            board: Board::new(),
            cache: Board::new(),
            wait_start: None,
        }
    }
}

fn take_walls(s: &mut Session, with_computer: bool)
    ensures
        takes_walls(*old(s), *final(s), with_computer),
{
    let ghost before = *s;
    let mut cache = s.cache;
    let placed = cache.make_wall((1, 1));
    assert(placed == (before.cache.prop(1, 1) == Cellprop::Free));
    s.stage = Stage::Playing;
    s.type_of_pawn = 1;
    s.with_computer = with_computer;
    s.cache = cache;
}

/// Carries a session one step on: what it becomes on event `e`, and what it
/// asks to be done, as `session_next` says.
pub fn session_step(s: &mut Session, e: SessionEvent) -> (a: SessionAction)
    requires
        old(s).wf(),
        old(s).stage == Stage::Waiting ==> clock_in_order(*old(s), e),
    ensures
        session_next(*old(s), e, *final(s), a),
        final(s).wf(),
{
    match s.stage {
        Stage::Joined => match e {
            SessionEvent::RoomState(gs) => {
                if gs == 0 {
                    s.stage = Stage::Choosing;
                    SessionAction::AskChoice
                } else {
                    s.stage = Stage::Playing;
                    s.type_of_pawn = 2;
                    SessionAction::Send("Game time\n".to_string())
                }
            },
            _ => SessionAction::Idle,
        },
        Stage::Choosing => match e {
            SessionEvent::Choice(c) => {
                if c == 'W' {
                    s.stage = Stage::Waiting;
                    s.wait_start = None;
                } else {
                    take_walls(s, true);
                }
                SessionAction::Idle
            },
            _ => SessionAction::Idle,
        },
        Stage::Waiting => match e {
            SessionEvent::Clock { now, room_state } => {
                let start = match s.wait_start {
                    Some(t) => t,
                    None => now,
                };
                if room_state == 1 {
                    let computer = s.with_computer;
                    take_walls(s, computer);
                    SessionAction::Send("Another player joined. Game starts now.\n".to_string())
                } else if now - start > 300 {
                    s.stage = Stage::Over;
                    SessionAction::Close("Waited too long. Ending application\n".to_string())
                } else {
                    s.wait_start = Some(start);
                    SessionAction::Sleep
                }
            },
            _ => SessionAction::Idle,
        },
        Stage::Playing => match e {
            SessionEvent::Tick => {
                let output = BasicMessages::new();
                let st = gameboard_state(&s.board);
                match game_over_message(st, s.type_of_pawn, &output) {
                    Some(text) => {
                        s.stage = Stage::Over;
                        SessionAction::Close(text)
                    },
                    None => {
                        if any_difference(&s.board, &s.cache) {
                            s.stage = Stage::AwaitingMove;
                            SessionAction::Prompt(move_prompt(s.type_of_pawn, &output))
                        } else {
                            let mut board = s.board;
                            let text = board.translate_to_moves(pawn_char(s.type_of_pawn), false);
                            s.cache = board;
                            SessionAction::SendBoard(text)
                        }
                    },
                }
            },
            _ => SessionAction::Idle,
        },
        Stage::AwaitingMove => match e {
            SessionEvent::Move(text) => {
                let mut board = s.board;
                match play_received_move(&mut board, s.type_of_pawn, text.as_str()) {
                    None => SessionAction::Refused,
                    Some(done) => {
                        proof {
                            if s.type_of_pawn == 2 && done {
                                lemma_mouse_in_field(board);
                            }
                        }
                        let sent = board.translate_to_moves(pawn_char(s.type_of_pawn), false);
                        s.stage = Stage::Playing;
                        s.board = board;
                        s.cache = board;
                        SessionAction::SendBoard(sent)
                    },
                }
            },
            _ => SessionAction::Idle,
        },
        Stage::Over => SessionAction::Idle,
    }
}

} // verus!
