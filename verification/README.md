# filaments

A personal knowledge system with deeply integrated task tracking.

- `src/` is the library, written in Verus and proved by it; a few
  functions make outside calls behind trusted items whose contracts are
  stated in their doc comments. Its centre is `Tree`, an arena of `Node`s
  addressed by `NodeId`s that reuses vacated slots, with walks (children,
  ancestors, pre-order), reordering, drawing and equality; around it sit
  the value types of notes and tasks (`Color`, `Priority`, `NanoId`,
  `Signal`, regions), the key-spec parser, key bindings and the KDL
  configuration, wiki-link lookup, search ranking, completions and the decisions of the inspector,
  the to-do page and the notes page.
  `src/laws.rs` and the `law_*` proof functions of the other modules state
  what holds across operations.
- `tests/` runs the library.
- `app/` is the command-line program around it: argument parsing,
  reading and writing the configuration file and finding its directories, and conversions to the types of
  the terminal and colour crates.
