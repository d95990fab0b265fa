use vstd::prelude::*;
use crate::boardserver::Board;
use crate::prereq::BasicMessages;
use crate::boardserver;
use crate::text::{
    chars_eq, chars_of, occurs_at, str_eq, contains_char, contains_chars, decimal, first_index,
    is_white, lemma_first_index, lemma_first_index_found, lemma_first_index_none,
    lemma_split_append, lemma_split_closed, lemma_split_plain, parse_i32, parse_i32_spec, split_state,
    push_chars, push_decimal, seq_contains, split_words, string_of, trim, trim_chars, white_sep,
    words,
};

verus! {

broadcast use vstd::string::group_string_axioms;

/// A game room of the server.
pub struct Room {
    pub room_nb: i32,
    pub room_name: String,
    pub player1: i32,
    pub player2: i32,
    pub game_state: i32,
    pub game_board: Board,
}

impl Room {
    /// A room named " " with no players and a new board.
    pub fn new() -> (r: Self)
        ensures
            r.room_nb == 0,
            r.room_name@ == " "@,
            r.player1 == 0,
            r.player2 == 0,
            r.game_state == 0,
            r.game_board.is_initial(),
    {
        Room {
            room_nb: 0,
            room_name: " ".to_string(),
            player1: 0,
            player2: 0,
            game_state: 0,
            game_board: Board::new(),
        }
    }
}

/// The rooms of the server, each under its name; no name occurs twice.
pub struct RoomRegistry {
    entries: Vec<(String, Room)>,
}

spec fn view_of(v: Seq<(String, Room)>) -> Seq<(Seq<char>, Room)> {
    v.map_values(|e: (String, Room)| (e.0@, e.1))
}

/// No two rooms have the same name.
pub open spec fn unique_keys(es: Seq<(Seq<char>, Room)>) -> bool {
    forall|i: int, j: int| 0 <= i < j < es.len() ==> #[trigger] es[i].0 != #[trigger] es[j].0
}

/// A room kept under the name `k`.
pub open spec fn has_key(k: Seq<char>) -> spec_fn((Seq<char>, Room)) -> bool {
    |e: (Seq<char>, Room)| e.0 == k
}

/// A room kept under a name in which `name` occurs.
pub open spec fn name_contains(name: Seq<char>) -> spec_fn((Seq<char>, Room)) -> bool {
    |e: (Seq<char>, Room)| seq_contains(e.0, name)
}

/// The position of the room kept under `k`, or -1.
pub open spec fn key_pos(es: Seq<(Seq<char>, Room)>, k: Seq<char>) -> int {
    first_index(es, has_key(k))
}

/// The position of the first room whose name contains `name`, or -1.
pub open spec fn match_pos(es: Seq<(Seq<char>, Room)>, name: Seq<char>) -> int {
    first_index(es, name_contains(name))
}

/// `es` with `room` kept under `k`: in place of the room kept there, or after
/// the others.
pub open spec fn with_key(es: Seq<(Seq<char>, Room)>, k: Seq<char>, room: Room) -> Seq<
    (Seq<char>, Room),
> {
    let i = key_pos(es, k);
    if i >= 0 {
        es.update(i, (k, room))
    } else {
        es.push((k, room))
    }
}

/// `es` without the room kept under `k`.
pub open spec fn without_key(es: Seq<(Seq<char>, Room)>, k: Seq<char>) -> Seq<(Seq<char>, Room)> {
    let i = key_pos(es, k);
    if i >= 0 {
        es.remove(i)
    } else {
        es
    }
}

/// `room` once the player `idc` has joined it: as its first player where it
/// has none, else as its second, which starts the game.
pub open spec fn joined(room: Room, idc: i32) -> Room {
    if room.player1 == 0 {
        Room { player1: idc, ..room }
    } else {
        Room { player2: idc, game_state: 1, ..room }
    }
}

impl RoomRegistry {
    #[verifier::type_invariant]
    spec fn keys_unique(self) -> bool {
        unique_keys(view_of(self.entries@))
    }

    /// The rooms, each with the name it is kept under, in the registry's order.
    pub closed spec fn rooms(self) -> Seq<(Seq<char>, Room)> {
        view_of(self.entries@)
    }

    /// A registry with no rooms.
    pub fn new() -> (r: Self)
        ensures
            r.rooms() == Seq::<(Seq<char>, Room)>::empty(),
    {
        let r = RoomRegistry { entries: Vec::new() };
        assert(r.rooms() =~= Seq::<(Seq<char>, Room)>::empty());
        r
    }

    /// The number of rooms.
    pub fn len(&self) -> (n: usize)
        ensures
            n == self.rooms().len(),
    {
        self.entries.len()
    }

    fn find_key(v: &Vec<(String, Room)>, k: &Vec<char>) -> (r: Option<usize>)
        ensures
            match r {
                Some(i) => i < v.len() && key_pos(
                    view_of(v@),
                    k@,
                ) == i,
                None => key_pos(view_of(v@), k@) == -1,
            },
    {
        let ghost es = view_of(v@);
        let mut i: usize = 0;
        while i < v.len()
            invariant
                i <= v.len(),
                es == view_of(v@),
                forall|m: int| 0 <= m < i ==> !(#[trigger] has_key(k@)(es[m])),
            decreases v.len() - i,
        {
            let name = chars_of(v[i].0.as_str());
            if chars_eq(&name, k) {
                proof {
                    lemma_first_index_found(es, has_key(k@), i as int);
                }
                return Some(i);
            }
            i = i + 1;
        }
        proof {
            lemma_first_index_none(es, has_key(k@));
        }
        None
    }

    fn find_containing(&self, name: &Vec<char>) -> (r: Option<usize>)
        ensures
            match r {
                Some(i) => i < self.rooms().len() && match_pos(self.rooms(), name@) == i,
                None => match_pos(self.rooms(), name@) == -1,
            },
    {
        let ghost es = self.rooms();
        let mut i: usize = 0;
        while i < self.entries.len()
            invariant
                i <= self.entries.len(),
                es == self.rooms(),
                es.len() == self.entries.len(),
                forall|m: int| 0 <= m < i ==> !(#[trigger] name_contains(name@)(es[m])),
            decreases self.entries.len() - i,
        {
            let room_key = chars_of(self.entries[i].0.as_str());
            if contains_chars(&room_key, name) {
                proof {
                    lemma_first_index_found(es, name_contains(name@), i as int);
                }
                return Some(i);
            }
            i = i + 1;
        }
        proof {
            lemma_first_index_none(es, name_contains(name@));
        }
        None
    }

    fn put(&mut self, key: &str, room: Room)
        ensures
            final(self).rooms() == with_key(old(self).rooms(), key@, room),
    {
        proof {
            use_type_invariant(&*self);
        }
        let mut es: Vec<(String, Room)> = Vec::new();
        std::mem::swap(&mut es, &mut self.entries);
        let ghost before = view_of(es@);
        let k = chars_of(key);
        proof {
            lemma_first_index(before, has_key(key@));
        }
        match Self::find_key(&es, &k) {
            Some(i) => {
                es.remove(i);
                es.insert(i, (key.to_string(), room));
                assert(view_of(es@) =~= before.update(i as int, (key@, room)));
                assert forall|a: int, b: int|
                    0 <= a < b < view_of(es@).len() implies #[trigger] view_of(es@)[a].0
                    != #[trigger] view_of(es@)[b].0 by {
                    if a != i && b != i {
                        assert(before[a].0 != before[b].0);
                    } else if a == i {
                        assert(before[a].0 != before[b].0);
                    } else {
                        assert(before[a].0 != before[b].0);
                    }
                }
            },
            None => {
                es.push((key.to_string(), room));
                assert(view_of(es@) =~= before.push((key@, room)));
                assert forall|a: int, b: int|
                    0 <= a < b < view_of(es@).len() implies #[trigger] view_of(es@)[a].0
                    != #[trigger] view_of(es@)[b].0 by {
                    if b < before.len() {
                        assert(before[a].0 != before[b].0);
                    } else {
                        assert(!has_key(key@)(before[a]));
                    }
                }
            },
        }
        self.entries = es;
    }

    fn take_out(&mut self, key: &str)
        ensures
            final(self).rooms() == without_key(old(self).rooms(), key@),
            key_pos(final(self).rooms(), key@) == -1,
    {
        proof {
            use_type_invariant(&*self);
        }
        let mut es: Vec<(String, Room)> = Vec::new();
        std::mem::swap(&mut es, &mut self.entries);
        let ghost before = view_of(es@);
        let k = chars_of(key);
        proof {
            lemma_first_index(before, has_key(key@));
        }
        match Self::find_key(&es, &k) {
            Some(i) => {
                es.remove(i);
                assert(view_of(es@) =~= before.remove(i as int));
                assert forall|a: int, b: int|
                    0 <= a < b < view_of(es@).len() implies #[trigger] view_of(es@)[a].0
                    != #[trigger] view_of(es@)[b].0 by {
                    if b < i {
                        assert(before[a].0 != before[b].0);
                    } else if a < i {
                        assert(before[a].0 != before[b + 1].0);
                    } else {
                        assert(before[a + 1].0 != before[b + 1].0);
                    }
                }
                assert forall|m: int| 0 <= m < view_of(es@).len() implies !(
                #[trigger] has_key(key@)(view_of(es@)[m])) by {
                    if m < i {
                        assert(before[m].0 != before[i as int].0);
                    } else {
                        assert(before[i as int].0 != before[m + 1].0);
                    }
                }
            },
            None => {
                assert(view_of(es@) =~= before);
            },
        }
        proof {
            lemma_first_index(view_of(es@), has_key(key@));
        }
        self.entries = es;
    }
}

/// `room` is the room that `create` makes as the registry's room number
/// `nb` under the name `k`: no players yet, game state 0, a new board.
pub open spec fn created_room(room: Room, nb: int, k: Seq<char>) -> bool {
    &&& room.room_nb == nb as i32
    &&& room.room_name@ == k
    &&& room.player1 == 0
    &&& room.player2 == 0
    &&& room.game_state == 0
    &&& room.game_board.is_initial()
}

fn text_of(lit: &str, tail: &str) -> (s: String)
    ensures
        s@ == lit@ + tail@,
{
    let mut s = lit.to_string();
    push_chars(&mut s, &chars_of(tail));
    s
}

fn create_room(room_name: &str, rooms: &mut RoomRegistry) -> (r: String)
    ensures
        unique_keys(final(rooms).rooms()),
        exists|room: Room|
            #[trigger] created_room(room, old(rooms).rooms().len() as int, room_name@)
                && final(rooms).rooms() == with_key(old(rooms).rooms(), room_name@, room),
        r@ == "Succesfully created room: "@ + room_name@,
{
    let lg = rooms.len();
    let a: Room = Room {
        room_nb: #[verifier::truncate] (lg as i32),
        room_name: room_name.to_string(),
        player1: 0,
        player2: 0,
        game_state: 0,
        game_board: Board::new(),
    };
    assert(created_room(a, old(rooms).rooms().len() as int, room_name@));
    rooms.put(room_name, a);
    proof {
        use_type_invariant(&*rooms);
    }
    text_of("Succesfully created room: ", room_name)
}

fn join_room(room_name: &str, rooms: &mut RoomRegistry, idc: i32) -> (r: String)
    ensures
        unique_keys(final(rooms).rooms()),
        ({
            let es = old(rooms).rooms();
            let i = match_pos(es, room_name@);
            if i == -1 {
                &&& final(rooms).rooms() == es
                &&& r@
                    == "Unknown room, not able to join. Please [create]/[join room_name]/[print rooms] room."@
            } else {
                &&& final(rooms).rooms() == without_key(es, room_name@).push(
                    (room_name@, joined(es[i].1, idc)),
                )
                &&& r@ == "Succesfully joined: "@ + room_name@
            }
        }),
{
    proof {
        use_type_invariant(&*rooms);
    }
    let name = chars_of(room_name);
    let ghost es = rooms.rooms();
    match rooms.find_containing(&name) {
        None => {
            "Unknown room, not able to join. Please [create]/[join room_name]/[print rooms] room.".to_string()
        },
        Some(i) => {
            let e = &rooms.entries[i].1;
            let mut a: Room = Room {
                room_nb: e.room_nb,
                room_name: e.room_name.clone(),
                player1: e.player1,
                player2: e.player2,
                game_state: e.game_state,
                game_board: e.game_board,
            };
            if a.player1 == 0 {
                a.player1 = idc;
            } else {
                a.player2 = idc;
                a.game_state = 1;
            }
            assert(a == joined(es[i as int].1, idc));
            rooms.take_out(room_name);
            let ghost mid = rooms.rooms();
            proof {
                lemma_first_index(mid, has_key(room_name@));
            }
            rooms.put(room_name, a);
            proof {
                use_type_invariant(&*rooms);
            }
            text_of("Succesfully joined: ", room_name)
        },
    }
}

proof fn lemma_commands_distinct()
    ensures
        "create"@ != "join"@,
        "create"@ != "print"@,
        "join"@ != "print"@,
{
    reveal_strlit("create");
    reveal_strlit("join");
    reveal_strlit("print");
    assert("create"@.len() != "join"@.len());
    assert("create"@[0] != "print"@[0]);
    assert("join"@.len() != "print"@.len());
}

/// `after` and `reply` are what the room command `command` of the player
/// `idc` makes of the rooms `before` and answers: `create` keeps a new room
/// under `room_name` (in place of one kept there); `join` adds the player to
/// the first room whose name contains `room_name`, which is then kept under
/// `room_name` alone; `print` and anything else change nothing.
pub open spec fn request_outcome(
    before: Seq<(Seq<char>, Room)>,
    after: Seq<(Seq<char>, Room)>,
    command: Seq<char>,
    room_name: Seq<char>,
    idc: i32,
    reply: Seq<char>,
) -> bool {
    if command == "create"@ {
        &&& exists|room: Room|
            #[trigger] created_room(room, before.len() as int, room_name) && after == with_key(
                before,
                room_name,
                room,
            )
        &&& reply == "Succesfully created room: "@ + room_name
    } else if command == "join"@ {
        let i = match_pos(before, room_name);
        if i == -1 {
            &&& after == before
            &&& reply
                == "Unknown room, not able to join. Please [create]/[join room_name]/[print rooms] room."@
        } else {
            &&& after == without_key(before, room_name).push((room_name, joined(before[i].1, idc)))
            &&& reply == "Succesfully joined: "@ + room_name
        }
    } else if command == "print"@ {
        &&& after == before
        &&& reply == "Printed all rooms.\n"@
    } else {
        &&& after == before
        &&& reply == "Unknown command, please [create]/[join room_name] room.\n"@
    }
}

/// Carries out a room command of the player `idc`: `create` keeps a new room
/// under `room_name` (in place of one kept there); `join` adds the player to
/// the first room whose name contains `room_name`, which is then kept under
/// `room_name`; `print` changes nothing. Returns the answer to the player.
pub fn process_room_request(command: &str, room_name: &str, rooms: &mut RoomRegistry, idc: i32) -> (r:
    String)
    ensures
        unique_keys(final(rooms).rooms()),
        request_outcome(old(rooms).rooms(), final(rooms).rooms(), command@, room_name@, idc, r@),
{
    proof {
        use_type_invariant(&*rooms);
        lemma_commands_distinct();
    }
    if str_eq(command, "create") {
        create_room(room_name, rooms)
    } else if str_eq(command, "join") {
        join_room(room_name, rooms, idc)
    } else if str_eq(command, "print") {
        "Printed all rooms.\n".to_string()
    } else {
        "Unknown command, please [create]/[join room_name] room.\n".to_string()
    }
}

/// The game state of the first room whose name contains `room_name`, or -1
/// where there is none.
pub fn game_state(room_name: &str, rooms: &RoomRegistry) -> (r: i32)
    ensures
        ({
            let es = rooms.rooms();
            let i = match_pos(es, room_name@);
            r == if i == -1 {
                -1
            } else {
                es[i].1.game_state as int
            }
        }),
{
    let name = chars_of(room_name);
    match rooms.find_containing(&name) {
        Some(i) => rooms.entries[i].1.game_state,
        None => -1,
    }
}

proof fn lemma_name_contains_itself(k: Seq<char>)
    ensures
        seq_contains(k, k),
{
    assert(k.subrange(0, k.len() as int) =~= k);
    assert(occurs_at(k, k, 0));
}

/// After a room has been created under a name, a `join` with that name
/// succeeds: it is never answered "Unknown room".
pub proof fn lemma_join_after_create(
    es: Seq<(Seq<char>, Room)>,
    es1: Seq<(Seq<char>, Room)>,
    es2: Seq<(Seq<char>, Room)>,
    k: Seq<char>,
    creator: i32,
    joiner: i32,
    r1: Seq<char>,
    r2: Seq<char>,
)
    requires
        request_outcome(es, es1, "create"@, k, creator, r1),
        request_outcome(es1, es2, "join"@, k, joiner, r2),
    ensures
        r2 == "Succesfully joined: "@ + k,
        match_pos(es1, k) != -1,
{
    lemma_commands_distinct();
    let room = choose|room: Room| #[trigger] created_room(room, es.len() as int, k) && es1
        == with_key(es, k, room);
    lemma_first_index(es, has_key(k));
    let i = key_pos(es, k);
    let w: int = if i >= 0 {
        i
    } else {
        es.len() as int
    };
    assert(es1[w].0 == k);
    lemma_name_contains_itself(k);
    assert(name_contains(k)(es1[w]));
    lemma_first_index(es1, name_contains(k));
}

/// Two players joining the only room, one after the other, become its first
/// and second player, and the game in it starts.
pub proof fn lemma_two_players_fill_room(
    k: Seq<char>,
    room: Room,
    a: i32,
    b: i32,
    es1: Seq<(Seq<char>, Room)>,
    es2: Seq<(Seq<char>, Room)>,
    r1: Seq<char>,
    r2: Seq<char>,
)
    requires
        room.player1 == 0,
        a != 0,
        request_outcome(seq![(k, room)], es1, "join"@, k, a, r1),
        request_outcome(es1, es2, "join"@, k, b, r2),
    ensures
        es2 == seq![(k, Room { player1: a, player2: b, game_state: 1, ..room })],
        r1 == "Succesfully joined: "@ + k,
        r2 == "Succesfully joined: "@ + k,
{
    lemma_commands_distinct();
    lemma_name_contains_itself(k);
    let es0 = seq![(k, room)];
    assert(has_key(k)(es0[0]));
    lemma_first_index_found(es0, has_key(k), 0);
    assert(name_contains(k)(es0[0]));
    lemma_first_index_found(es0, name_contains(k), 0);
    assert(es0.remove(0) =~= Seq::<(Seq<char>, Room)>::empty());
    let room1 = Room { player1: a, ..room };
    assert(es1 =~= seq![(k, room1)]);
    assert(has_key(k)(es1[0]));
    lemma_first_index_found(es1, has_key(k), 0);
    assert(name_contains(k)(es1[0]));
    lemma_first_index_found(es1, name_contains(k), 0);
    assert(es1.remove(0) =~= Seq::<(Seq<char>, Room)>::empty());
    assert(es2 =~= seq![(k, Room { player1: a, player2: b, game_state: 1, ..room })]);
}

/// The line that describes one room in the server's listing.
pub open spec fn room_line(e: (Seq<char>, Room)) -> Seq<char> {
    "Room with name "@ + e.0 + " has id "@ + decimal(e.1.room_nb as int) + " with player1="@
        + decimal(e.1.player1 as int) + ",player2="@ + decimal(e.1.player2 as int)
        + " and game_state="@ + decimal(e.1.game_state as int) + "\n"@
}

/// The listing of the rooms `es`, one line each, in order.
pub open spec fn rooms_text(es: Seq<(Seq<char>, Room)>) -> Seq<char>
    decreases es.len(),
{
    if es.len() == 0 {
        Seq::empty()
    } else {
        rooms_text(es.drop_last()) + room_line(es.last())
    }
}

fn push_str(s: &mut String, t: &str)
    ensures
        final(s)@ == old(s)@ + t@,
{
    push_chars(s, &chars_of(t));
}

fn push_room_line(out: &mut String, key: &str, room: &Room)
    ensures
        final(out)@ == old(out)@ + room_line((key@, *room)),
{
    push_str(out, "Room with name ");
    push_str(out, key);
    push_str(out, " has id ");
    push_decimal(out, room.room_nb);
    push_str(out, " with player1=");
    push_decimal(out, room.player1);
    push_str(out, ",player2=");
    push_decimal(out, room.player2);
    push_str(out, " and game_state=");
    push_decimal(out, room.game_state);
    push_str(out, "\n");
    assert(out@ =~= old(out)@ + room_line((key@, *room)));
}

/// The listing of all rooms that the server prints on the `print` command.
pub fn rooms_report(rooms: &RoomRegistry) -> (r: String)
    ensures
        r@ == rooms_text(rooms.rooms()),
{
    let ghost es = rooms.rooms();
    let mut out = String::new();
    let mut i: usize = 0;
    while i < rooms.entries.len()
        invariant
            i <= rooms.entries.len(),
            es == rooms.rooms(),
            es.len() == rooms.entries.len(),
            out@ == rooms_text(es.take(i as int)),
        decreases rooms.entries.len() - i,
    {
        let e = &rooms.entries[i];
        let ghost start = out@;
        push_room_line(&mut out, e.0.as_str(), &e.1);
        assert(es.take(i + 1).drop_last() =~= es.take(i as int));
        assert(es[i as int] == (e.0@, e.1));
        assert(out@ =~= start + room_line(es[i as int]));
        i = i + 1;
    }
    assert(es.take(es.len() as int) =~= es);
    out
}

/// A word that names the room of a `create` message.
pub open spec fn create_word() -> spec_fn(Seq<char>) -> bool {
    |w: Seq<char>| !seq_contains(w, "create"@) && w.len() > 0
}

/// A word that names the room of a `join` message.
pub open spec fn join_word() -> spec_fn(Seq<char>) -> bool {
    |w: Seq<char>| w != "join"@ && w.len() > 0
}

/// The first word of `ws` that `p` accepts, or "auleu" where none does.
pub open spec fn pick_room(ws: Seq<Seq<char>>, p: spec_fn(Seq<char>) -> bool) -> Seq<char> {
    let i = first_index(ws, p);
    if i == -1 {
        "auleu"@
    } else {
        ws[i]
    }
}

/// The command and room name that a player's message asks for: `create` (if
/// the message contains it) with the first word that does not contain it;
/// else `join` with the first word other than "join"; else `print` or
/// `invalid`, with "-".
pub open spec fn parse_message_spec(msg: Seq<char>) -> (Seq<char>, Seq<char>) {
    if seq_contains(msg, "create"@) {
        ("create"@, pick_room(words(msg), create_word()))
    } else if seq_contains(msg, "join"@) {
        ("join"@, pick_room(words(msg), join_word()))
    } else if seq_contains(msg, "print"@) {
        ("print"@, "-"@)
    } else {
        ("invalid"@, "-"@)
    }
}

fn pick_room_exec(ws: &Vec<Vec<char>>, ghost_ws: Ghost<Seq<Seq<char>>>, creating: bool) -> (r: String)
    requires
        ws.len() == ghost_ws@.len(),
        forall|k: int| 0 <= k < ws.len() ==> #[trigger] ws@[k]@ == ghost_ws@[k],
    ensures
        r@ == pick_room(ghost_ws@, if creating {
            create_word()
        } else {
            join_word()
        }),
{
    let ghost p = if creating {
        create_word()
    } else {
        join_word()
    };
    let create = chars_of("create");
    let join = chars_of("join");
    let mut i: usize = 0;
    while i < ws.len()
        invariant
            i <= ws.len(),
            ws.len() == ghost_ws@.len(),
            forall|k: int| 0 <= k < ws.len() ==> #[trigger] ws@[k]@ == ghost_ws@[k],
            create@ == "create"@,
            join@ == "join"@,
            p == (if creating {
                create_word()
            } else {
                join_word()
            }),
            forall|m: int| 0 <= m < i ==> !p(#[trigger] ghost_ws@[m]),
        decreases ws.len() - i,
    {
        let w = &ws[i];
        let ok = if creating {
            !contains_chars(w, &create) && w.len() > 0
        } else {
            !chars_eq(w, &join) && w.len() > 0
        };
        assert(ok == p(ghost_ws@[i as int]));
        if ok {
            proof {
                lemma_first_index_found(ghost_ws@, p, i as int);
            }
            return string_of(w);
        }
        i = i + 1;
    }
    proof {
        lemma_first_index_none(ghost_ws@, p);
    }
    "auleu".to_string()
}

/// Reads a player's room message: what it asks for, and for which room.
pub fn parse_message(msg: &str) -> (r: (String, String))
    ensures
        r.0@ == parse_message_spec(msg@).0,
        r.1@ == parse_message_spec(msg@).1,
{
    let m = chars_of(msg);
    if contains_chars(&m, &chars_of("create")) {
        let ws = split_words(&m);
        let room = pick_room_exec(&ws, Ghost(words(msg@)), true);
        ("create".to_string(), room)
    } else if contains_chars(&m, &chars_of("join")) {
        let ws = split_words(&m);
        let room = pick_room_exec(&ws, Ghost(words(msg@)), false);
        ("join".to_string(), room)
    } else if contains_chars(&m, &chars_of("print")) {
        ("print".to_string(), "-".to_string())
    } else {
        ("invalid".to_string(), "-".to_string())
    }
}

/// Handles a player's room message: reads it and carries out what it asks
/// for. Returns the answer to the player and, for a `print` message, the
/// listing of the rooms that the server prints.
pub fn room_handling_for_client(msg: &str, rooms: &mut RoomRegistry, idclient: i32) -> (r: (
    String,
    Option<String>,
))
    ensures
        unique_keys(final(rooms).rooms()),
        request_outcome(
            old(rooms).rooms(),
            final(rooms).rooms(),
            parse_message_spec(msg@).0,
            parse_message_spec(msg@).1,
            idclient,
            r.0@,
        ),
        parse_message_spec(msg@).0 == "print"@ ==> (r.1 matches Some(l) && l@ == rooms_text(
            old(rooms).rooms(),
        )),
        parse_message_spec(msg@).0 != "print"@ ==> r.1 is None,
{
    let recv_mess = parse_message(msg);
    let listing = if str_eq(recv_mess.0.as_str(), "print") {
        Some(rooms_report(rooms))
    } else {
        None
    };
    let mess = process_room_request(recv_mess.0.as_str(), recv_mess.1.as_str(), rooms, idclient);
    (mess, listing)
}

/// The room named in the server's answer to a `join`, "Succesfully joined: "
/// and the room's name: where the answer says "Succesfully joined", its third
/// word (empty where it has fewer).
pub fn joined_room(mess: &str) -> (r: Option<String>)
    ensures
        r is Some <==> seq_contains(mess@, "Succesfully joined"@),
        r matches Some(name) ==> name@ == (if words(mess@).len() > 2 {
            words(mess@)[2]
        } else {
            Seq::<char>::empty()
        }),
{
    let m = chars_of(mess);
    if !contains_chars(&m, &chars_of("Succesfully joined")) {
        return None;
    }
    let ws = split_words(&m);
    if ws.len() > 2 {
        Some(string_of(&ws[2]))
    } else {
        Some(String::new())
    }
}

proof fn lemma_no_white(s: Seq<char>)
    requires
        forall|k: int| 0 <= k < s.len() ==> '!' <= #[trigger] s[k] <= '~',
    ensures
        forall|k: int| 0 <= k < s.len() ==> !white_sep()(#[trigger] s[k]),
{
}

/// The server's answer to a successful `join` names the room: for a room name
/// without white space, `joined_room` reads the name back from
/// "Succesfully joined: " and the name.
pub proof fn lemma_joined_reply_names_room(k: Seq<char>)
    requires
        k.len() > 0,
        forall|i: int| 0 <= i < k.len() ==> !is_white(#[trigger] k[i]),
    ensures
        seq_contains("Succesfully joined: "@ + k, "Succesfully joined"@),
        words("Succesfully joined: "@ + k) == seq!["Succesfully"@, "joined:"@, k],
{
    reveal_strlit("Succesfully joined: ");
    reveal_strlit("Succesfully joined");
    reveal_strlit("Succesfully");
    reveal_strlit("joined:");
    let a = "Succesfully"@;
    let b = "joined:"@;
    let sep = white_sep();
    let msg = "Succesfully joined: "@ + k;
    assert(msg.subrange(0, 18) =~= "Succesfully joined"@);
    assert(occurs_at(msg, "Succesfully joined"@, 0));
    lemma_no_white(a);
    lemma_no_white(b);
    assert(sep(' '));
    lemma_split_closed(a, ' ', sep);
    lemma_split_closed(b, ' ', sep);
    assert forall|i: int| 0 <= i < k.len() implies !sep(#[trigger] k[i]) by {}
    lemma_split_plain(k, sep);
    lemma_split_append(b.push(' '), k, sep);
    lemma_split_append(a.push(' '), b.push(' ') + k, sep);
    assert(msg =~= a.push(' ') + (b.push(' ') + k));
    assert((seq![a] + (seq![b] + Seq::<Seq<char>>::empty())).push(k) =~= seq![a, b, k]);
}

/// A `join` message names the first word after "join": for a room name `k`
/// without white space, other than "join", followed by a white-space
/// character `z` and any further text, the room asked for is `k`, wherever
/// the message does not mention "create".
pub proof fn lemma_join_names_first_word(k: Seq<char>, z: char, rest: Seq<char>)
    requires
        k.len() > 0,
        k != "join"@,
        forall|i: int| 0 <= i < k.len() ==> !is_white(#[trigger] k[i]),
        is_white(z),
        !seq_contains("join "@ + k + seq![z] + rest, "create"@),
    ensures
        parse_message_spec("join "@ + k + seq![z] + rest) == ("join"@, k),
{
    reveal_strlit("join ");
    reveal_strlit("join");
    let j = "join"@;
    let sep = white_sep();
    let msg = "join "@ + k + seq![z] + rest;
    assert(msg.subrange(0, 4) =~= j);
    assert(occurs_at(msg, j, 0));
    lemma_no_white(j);
    assert(sep(' '));
    lemma_split_closed(j, ' ', sep);
    assert forall|i: int| 0 <= i < k.len() implies !sep(#[trigger] k[i]) by {}
    lemma_split_closed(k, z, sep);
    lemma_split_append(k.push(z), rest, sep);
    lemma_split_append(j.push(' '), k.push(z) + rest, sep);
    assert(msg =~= j.push(' ') + (k.push(z) + rest));
    let (d, c) = split_state(rest, sep);
    let ws = words(msg);
    assert(split_state(msg, sep) == (seq![j] + (seq![k] + d), c));
    if c.len() > 0 {
        assert(ws =~= seq![j, k] + d.push(c));
    } else {
        assert(ws =~= seq![j, k] + d);
    }
    assert(ws[0] == j && ws[1] == k);
    assert(!join_word()(ws[0]));
    assert(join_word()(ws[1]));
    lemma_first_index_found(ws, join_word(), 1);
}

/// A player's choice between waiting for another player ('W') and playing
/// with the computer ('C'); `None` where the answer holds neither letter.
pub fn client_option(input: &str) -> (r: Option<char>)
    ensures
        r == (if trim(input@).contains('W') {
            Some('W')
        } else if trim(input@).contains('C') {
            Some('C')
        } else {
            None
        }),
{
    let t = trim_chars(&chars_of(input));
    if contains_char(&t, 'W') {
        Some('W')
    } else if contains_char(&t, 'C') {
        Some('C')
    } else {
        None
    }
}

/// The text for a player at the end of the game, where it has ended: 'W' (the
/// walls have trapped the mouse) and 'M' (the mouse is out) each win for one
/// side; `type_of_pawn` is 1 for the player of the walls, 2 for the mouse.
pub fn game_over_message(winner: char, type_of_pawn: i32, output: &BasicMessages) -> (r: Option<
    String,
>)
    ensures
        winner == 'W' ==> (r matches Some(t) && t@ == (if type_of_pawn == 2 {
            output.lost_text()
        } else {
            output.won_text()
        })),
        winner == 'M' ==> (r matches Some(t) && t@ == (if type_of_pawn == 1 {
            output.lost_text()
        } else {
            output.won_text()
        })),
        winner != 'W' && winner != 'M' ==> r is None,
{
    if winner == 'W' {
        if type_of_pawn == 2 {
            Some(output.lostmess())
        } else {
            Some(output.wonmess())
        }
    } else if winner == 'M' {
        if type_of_pawn == 1 {
            Some(output.lostmess())
        } else {
            Some(output.wonmess())
        }
    } else {
        None
    }
}

/// The character that names a player's side in the boards sent to it: 'W'
/// for the walls (1), 'M' for the mouse (2), '-' for none (0).
pub fn pawn_char(type_of_pawn: i32) -> (c: char)
    requires
        0 <= type_of_pawn < 3,
    ensures
        c == seq!['-', 'W', 'M'][type_of_pawn as int],
{
    let turns: [char; 3] = ['-', 'W', 'M'];
    turns[type_of_pawn as usize]
}

/// The prompt that asks a player for its move: the mouse's player (2) moves
/// the mouse, the other one places a wall.
pub fn move_prompt(type_of_pawn: i32, output: &BasicMessages) -> (t: String)
    ensures
        t@ == (if type_of_pawn == 2 {
            output.mouse_text()
        } else {
            output.wall_text()
        }),
{
    if type_of_pawn == 2 {
        output.movemousemess()
    } else {
        output.placewallmess()
    }
}

/// Every word of `ws` is a number that fits in an `i32`.
pub open spec fn all_ints(ws: Seq<Seq<char>>) -> bool {
    forall|k: int| 0 <= k < ws.len() ==> (#[trigger] parse_i32_spec(ws[k])) is Some
}

/// The number that word `k` of `ws` writes.
pub open spec fn int_at(ws: Seq<Seq<char>>, k: int) -> i32 {
    parse_i32_spec(ws[k])->0
}

/// The move a player sent can be played: every word is a number, and the
/// numbers needed are there (a direction the mouse's board can take for the
/// mouse, two coordinates for a wall).
pub open spec fn received_move_ok(board: Board, type_of_pawn: i32, ws: Seq<Seq<char>>) -> bool {
    &&& all_ints(ws)
    &&& if type_of_pawn == 2 {
        ws.len() >= 1 && board.move_ok(int_at(ws, 0) as int)
    } else {
        ws.len() >= 2
    }
}

/// Plays the move that a player sent as text, numbers separated by white
/// space: the mouse's player (`type_of_pawn` 2) sends a direction, the walls'
/// player two coordinates. Returns whether the move was made, or `None`
/// (leaving the board as it was) where the text cannot be played.
pub fn play_received_move(board: &mut Board, type_of_pawn: i32, text: &str) -> (r: Option<bool>)
    ensures
        ({
            let ws = words(text@);
            &&& r is None <==> !received_move_ok(*old(board), type_of_pawn, ws)
            &&& r is None ==> *final(board) == *old(board)
            &&& r matches Some(done) ==> if type_of_pawn == 2 {
                old(board).mouse_moved(*final(board), int_at(ws, 0) as int, done)
            } else {
                old(board).wall_placed(*final(board), (int_at(ws, 0), int_at(ws, 1)), done)
            }
        }),
{
    let ghost gws = words(text@);
    let ws = split_words(&chars_of(text));
    let mut var: Vec<i32> = Vec::new();
    let mut k: usize = 0;
    while k < ws.len()
        invariant
            k <= ws.len(),
            *board == *old(board),
            gws == words(text@),
            ws.len() == gws.len(),
            forall|m: int| 0 <= m < ws.len() ==> #[trigger] ws@[m]@ == gws[m],
            var.len() == k,
            forall|m: int| 0 <= m < k ==> #[trigger] parse_i32_spec(gws[m]) == Some(var@[m]),
        decreases ws.len() - k,
    {
        match parse_i32(&ws[k]) {
            Some(v) => var.push(v),
            None => {
                assert(parse_i32_spec(gws[k as int]) is None);
                assert(!all_ints(gws));
                return None;
            },
        }
        k = k + 1;
    }
    assert(all_ints(gws));
    if type_of_pawn == 2 {
        if var.len() < 1 || !board.can_move_mouse(var[0]) {
            return None;
        }
        Some(board.move_mouse(var[0]))
    } else {
        if var.len() < 2 {
            return None;
        }
        Some(board.make_wall((var[0], var[1])))
    }
}

} // verus!
