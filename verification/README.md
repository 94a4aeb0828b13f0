# xlyph

The game logic of a text-graphical roguelike whose enemies run on readable
Lisp rules, written in Verus: each function states what it computes in its
contract, and Verus proves it.

- `src/` is the verified library:
  - maps and their generation: `map` (tiles, distance field), `mapgen`
    (rooms, union-find, spanning tree, breadth-first search), `cave`
    (cellular-automaton caves), `levels` (the hand-built depths),
    `population` (which level a depth is, and who stands where: on the
    hand-built ones enemies, the wizard, signs with their texts, fragments
    and barrels; on the generated ones the enemies drawn for the combat
    and boss rooms and the level's wizard, sign and memories),
    `walks` (walks over walkable tiles: generated levels join their stairs
    and spawns to the start), `flashlight`, `mechanics` (plates, locked
    doors, barriers, shifting walls);
  - rules and text: `rules`, `prototype_rules`, `fragment`, `highlight`
    (syntax highlighting of Glyph source), `console` (the input line),
    `layout` (wrapping and clipping), `dialogue`, `event_log`;
  - the turn loop's decisions: `game` (what intents cost, which screen
    they lead to), `movement` (what a step of the player comes to and
    costs), `interface` (intents that only work the screens and the input
    line, which cost no time), `ai` (the steps the enemy rules take:
    toward a target, away from a threat, wandering), `countdown` (the quit
    countdown after a wipe);
  - the screen: `frame` (a grid of colored cells and its terminal text) and
    `draw` (boxes, clipped and highlighted text, the event log box),
    `inspector` (the panel of known rules with the selected rule's
    highlighted source);
  - saves: `save` (spellings of directions, kinds and tiles; the map's
    stored characters; writing a save of the game state and restoring the
    state from one, which gives it back), `profile`,
    `paths`;
  - randomness: `rng` (a seeded bracket-random generator that records its
    draws, so that what it yields is stated as a function of the seed);
    generated levels are drawn from a seed taken from the run seed.
- `tests/` runs the library on concrete values.
- `app/` is the terminal program: options, the log file, the save file and
  profile on disk, the key-to-intent mapping, and the crossterm shell that
  runs the game on the library.
