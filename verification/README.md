# Quicksweeper

Minesweeper with a multiplayer twist. The library (`src/`) holds the game logic, verified
with Verus:

- `position` — tile coordinates, neighbours, disks of a radius and the rim around them;
- `shape` — the text format of board layouts, its run-length form and decoding;
- `minefield` — boards over a layout, laying mines;
- `singleplayer` — flagging, revealing (with flood fill and chording) and the game's phases;
- `area_attack` — the multiplayer mode: claiming tiles on the server, what each player is
  shown, joining players, stages, and the client's side (`area_attack::client`,
  `area_attack::server`);
- `lobby` — the server's list of games, the messages of players and how they are answered.

`app/` is the program around it: a single-player game in the terminal, and a TCP server for
Area Attack. Board layouts are read from `assets/fields`.
