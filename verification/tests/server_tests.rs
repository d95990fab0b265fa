use trapmouse::boardserver::{gameboard_state, Board};
use trapmouse::prereq::BasicMessages;
use trapmouse::server::{
    client_option, game_over_message, game_state, joined_room, parse_message,
    play_received_move, process_room_request, room_handling_for_client, rooms_report, Room,
    RoomRegistry,
};

fn pm(s: &str) -> (String, String) {
    parse_message(s)
}

#[test]
fn parse_message_commands() {
    assert_eq!(pm("create room1"), ("create".to_string(), "room1".to_string()));
    assert_eq!(pm("create"), ("create".to_string(), "auleu".to_string()));
    assert_eq!(pm("  create   big  "), ("create".to_string(), "big".to_string()));
    assert_eq!(pm("createx abc"), ("create".to_string(), "abc".to_string()));
    assert_eq!(pm("join r2"), ("join".to_string(), "r2".to_string()));
    assert_eq!(pm("join"), ("join".to_string(), "auleu".to_string()));
    assert_eq!(pm("joinx"), ("join".to_string(), "joinx".to_string()));
    assert_eq!(pm("print rooms"), ("print".to_string(), "-".to_string()));
    assert_eq!(pm("hello"), ("invalid".to_string(), "-".to_string()));
    // "create" is looked for before "join".
    assert_eq!(pm("join create x"), ("create".to_string(), "join".to_string()));
}

#[test]
fn create_join_and_start() {
    let mut rooms = RoomRegistry::new();
    assert_eq!(game_state("abc", &rooms), -1);
    assert_eq!(
        process_room_request("create", "abc", &mut rooms, 1),
        "Succesfully created room: abc"
    );
    assert_eq!(rooms.len(), 1);
    assert_eq!(game_state("abc", &rooms), 0);
    assert_eq!(process_room_request("join", "abc", &mut rooms, 1), "Succesfully joined: abc");
    assert_eq!(game_state("abc", &rooms), 0);
    assert_eq!(process_room_request("join", "abc", &mut rooms, 2), "Succesfully joined: abc");
    assert_eq!(game_state("abc", &rooms), 1);
    assert_eq!(
        rooms_report(&rooms),
        "Room with name abc has id 0 with player1=1,player2=2 and game_state=1\n"
    );
}

#[test]
fn join_unknown_and_bad_commands() {
    let mut rooms = RoomRegistry::new();
    assert_eq!(
        process_room_request("join", "zzz", &mut rooms, 3),
        "Unknown room, not able to join. Please [create]/[join room_name]/[print rooms] room."
    );
    assert_eq!(process_room_request("print", "-", &mut rooms, 3), "Printed all rooms.\n");
    assert_eq!(
        process_room_request("invalid", "-", &mut rooms, 3),
        "Unknown command, please [create]/[join room_name] room.\n"
    );
    assert_eq!(rooms.len(), 0);
}

#[test]
fn join_by_part_of_a_name() {
    let mut rooms = RoomRegistry::new();
    process_room_request("create", "alpha", &mut rooms, 1);
    process_room_request("create", "beta", &mut rooms, 1);
    // "lph" is part of "alpha": that room is joined and now kept under "lph".
    assert_eq!(process_room_request("join", "lph", &mut rooms, 7), "Succesfully joined: lph");
    assert_eq!(rooms.len(), 3);
    assert_eq!(
        rooms_report(&rooms),
        "Room with name alpha has id 0 with player1=0,player2=0 and game_state=0\n\
         Room with name beta has id 1 with player1=0,player2=0 and game_state=0\n\
         Room with name lph has id 0 with player1=7,player2=0 and game_state=0\n"
    );
}

#[test]
fn create_twice_replaces() {
    let mut rooms = RoomRegistry::new();
    process_room_request("create", "r", &mut rooms, 1);
    process_room_request("join", "r", &mut rooms, 5);
    process_room_request("create", "r", &mut rooms, 1);
    assert_eq!(rooms.len(), 1);
    assert_eq!(
        rooms_report(&rooms),
        "Room with name r has id 1 with player1=0,player2=0 and game_state=0\n"
    );
}

#[test]
fn room_handling_returns_listing_for_print() {
    let mut rooms = RoomRegistry::new();
    let (reply, listing) = room_handling_for_client("create hall", &mut rooms, 4);
    assert_eq!(reply, "Succesfully created room: hall");
    assert!(listing.is_none());
    let (reply, listing) = room_handling_for_client("print", &mut rooms, 4);
    assert_eq!(reply, "Printed all rooms.\n");
    assert_eq!(
        listing,
        Some("Room with name hall has id 0 with player1=0,player2=0 and game_state=0\n".to_string())
    );
    // A message read into a zero-filled buffer keeps its NUL bytes, which are
    // not white space: the room name then holds them and matches no room.
    let (reply, _) = room_handling_for_client("join hall\0\0\0", &mut rooms, 4);
    assert_eq!(
        reply,
        "Unknown room, not able to join. Please [create]/[join room_name]/[print rooms] room."
    );
    let (reply, _) = room_handling_for_client("join hall", &mut rooms, 4);
    assert_eq!(reply, "Succesfully joined: hall");
}

#[test]
fn new_room() {
    let r = Room::new();
    assert_eq!(r.room_nb, 0);
    assert_eq!(r.room_name, " ");
    assert_eq!((r.player1, r.player2, r.game_state), (0, 0, 0));
    assert_eq!(r.game_board.mouse_pos, (6, 6));
}

#[test]
fn joined_room_name() {
    assert_eq!(joined_room("Unknown room"), None);
    assert_eq!(joined_room("Succesfully joined: abc"), Some("abc".to_string()));
    assert_eq!(joined_room("Succesfully joined:"), Some(String::new()));
    let mut rooms = RoomRegistry::new();
    process_room_request("create", "den", &mut rooms, 1);
    let reply = process_room_request("join", "den", &mut rooms, 2);
    assert_eq!(joined_room(&reply), Some("den".to_string()));
    assert_eq!(game_state("den", &rooms), 0);
}

#[test]
fn client_choice() {
    assert_eq!(client_option("W\n"), Some('W'));
    assert_eq!(client_option("  C "), Some('C'));
    assert_eq!(client_option("CW"), Some('W'));
    assert_eq!(client_option("x"), None);
}

#[test]
fn end_of_game_texts() {
    let m = BasicMessages::new();
    assert_eq!(game_over_message('W', 2, &m), Some(m.lostmess()));
    assert_eq!(game_over_message('W', 1, &m), Some(m.wonmess()));
    assert_eq!(game_over_message('M', 1, &m), Some(m.lostmess()));
    assert_eq!(game_over_message('M', 2, &m), Some(m.wonmess()));
    assert_eq!(game_over_message('0', 2, &m), None);
}

#[test]
fn received_moves() {
    let mut b = Board::new();
    assert_eq!(play_received_move(&mut b, 1, "3 4"), Some(true));
    assert_eq!(play_received_move(&mut b, 1, "3 4"), Some(false));
    assert_eq!(play_received_move(&mut b, 1, "3"), None);
    assert_eq!(play_received_move(&mut b, 1, "3 x"), None);
    assert_eq!(play_received_move(&mut b, 2, "3"), Some(true));
    assert_eq!(b.mouse_pos, (6, 7));
    assert_eq!(play_received_move(&mut b, 2, "9"), None);
    assert_eq!(play_received_move(&mut b, 2, ""), None);
    assert_eq!(play_received_move(&mut b, 2, "1\0"), None);
    assert_eq!(b.mouse_pos, (6, 7));
    assert_eq!(gameboard_state(&b), '0');
}

use trapmouse::server::{move_prompt, pawn_char};

#[test]
fn pawns_and_prompts() {
    assert_eq!(pawn_char(0), '-');
    assert_eq!(pawn_char(1), 'W');
    assert_eq!(pawn_char(2), 'M');
    let m = BasicMessages::new();
    assert_eq!(move_prompt(2, &m), m.movemousemess());
    assert_eq!(move_prompt(1, &m), m.placewallmess());
}
