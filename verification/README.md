# taiko_core

A terminal drum rhythm game, split into a verified library and a thin program.

`src/` is the library, written and proved with Verus:

- `text.rs`: characters, trimming, line and field splitting, number reading;
- `beatmap.rs`: notes, map headers, timing windows and the `.osu` file format;
- `game.rs`: judging hits, missing passed notes, ending a map, the status texts;
- `menu.rs`: the song list, its sorting, and the menu with its cursor;
- `controls.rs`: options file, key bindings, key commands, song preview decisions.

Times in the library are integers: note times in milliseconds, the game clock and
the timing windows in microseconds, the overall difficulty a fixed-point
number in units of 10^-18 (or a mark for values beyond that range, infinite
or not a number).

`app/` is the program: terminal drawing, audio, files and the event loop. It reads
the clock and the keyboard, hands plain values to the library, and performs the
sounds and scene changes that the library's results ask for.

`tests/` runs the library on concrete maps, menus and key presses.
