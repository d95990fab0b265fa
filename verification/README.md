# trapmouse

"Trap the mouse" on a hexagonal 11 x 11 field: one player places walls, the
other moves the mouse one cell at a time; the mouse wins by reaching the border,
the walls win by closing it in.

The library in `src/` is verified with Verus:

- `grid` - the step table of the hexagonal field and the positions it uses.
- `board` - the board of the console game (moves, walls, who has won, the
  debug picture).
- `boardserver` - the board that the server plays on: moves, walls, the state
  of the game, the text that is sent to the clients and how it is read back.
- `server` - the rooms of the server, the room messages and the moves that
  players send.
- `session` - one player's session on the server as a step function: from
  its state and an event to its next state and what it asks to be done.
- `client` - how the client reads the server's messages.
- `prereq` - number reading of the board texts and the fixed messages.
- `text` - character-level helpers (words, trimming, decimal numbers).

`app/` holds the programs around it: the console game, the TCP room server
(which reads, writes and sleeps for the session) and the macroquad client
(`console`, `server`, `client` as first argument).
