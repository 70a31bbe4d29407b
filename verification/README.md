# bevy_talks

Dialogue databases and the rules that play them, verified with Verus.

- `src/` is the verified library:
  - `data`: the database model (actors, conversations, entries, links, fields, variables).
  - `first`, `assoc`: the meaning of a left-to-right search and of association lists.
  - `step`: finding conversations and entries, collecting the responses behind an
    entry (group entries flattened, cycles cut), and deciding what follows an entry.
  - `runner`: the decisions of a running conversation (start, resume, advance, choose, drive).
  - `variables`, `visits`, `persist`: the game state dialogue reads and writes, and
    snapshots of it that merge back on load.
  - `validate`: database validation issues.
  - `conversation`, `graph`, `dialogue`, `dialogue_line`, `repo`, `local`: the list
    format of dialogues and its graph (on `petgraph`).
  - `talk_data`, `script_map`, `actors`, `action`, `errors`, `display`: the talk
    format, its checks and its ordered action map (on `indexmap`).
  - `builder`, `raw_talk`, `talk_graph`: the talk builder (a tree of nodes with their
    branches and hand-made connections), the pass that turns a talk's script into one,
    and the links of the dialogue graph a builder describes.
- `app/` is the Bevy shell: the plugin, asset loaders and saver, RON save files,
  resources, components, entity events, systems and observers, the spawning of a
  talk's graph, and the JSON repository.
- `tests/` exercises the library.
