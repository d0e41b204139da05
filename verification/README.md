# ENYO

A minimalist world-scale strategy game: nations settle, expand, build, research
and wage war on a cylindrical map, watched over by an invisible "Director" that
keeps the game interesting for the player. The simulation is headless,
deterministic and replayable: the same seed and the same commands give the same
game.

## Layout

- `src/` — the verified library (Verus). The discrete state of the world
  (`realm`: tiles' owners and buildings, nations' integral stocks, units,
  galleys' cargo, wars) and every rule that changes it, the path costs and
  reachability (`path`), the AI nations (`ai`, `march`, `military`,
  `strategy`), the Director (`director`), labour regions and provinces (`connect`), border
  friction (`frontier`), the research tree (`tech`), the audit checksum
  (`audit`), the language-model answer parser (`llm`), argument parsing
  (`text`), viewport framing and camera control (`view`) and the pixel widgets (`gui`). Each
  function states what it does in `requires`/`ensures`, proved by Verus.
- `tests/` — tests of the library on concrete scenarios.
- `app/` — the program around it: world generation and the continuous layers
  (climate, population, development, devastation, knowledge, grievances), the
  monthly dynamics, the journal and recordings (JSON), snapshots, the images
  and the game window, and the call to the language model.

## Running

The program in `app/` takes `--seed N --turns N --width N --height N --log
path --snapshot path --inspect x,y` (a headless run writing its journal of
events, one JSON object a line), or `ui` followed by `--seed N --nations N
--player N --pre-turns N --px N --headless --shot path` (the game window, or a
screenshot of it).
