# bifrons

The decision logic of the Bifrons game engine, written in Verus and proved
against its contracts.

## Layout

- `src/` — the verified library:
  - `version`, `module`, `wave_map`: module versions and the load order of a
    set of modules (waves after dependencies, sorted by priority and name),
    with the laws that the order covers every module once, loads
    dependencies first, exists only for sound module sets, and is unique.
  - `mod_loading`: naming mod-list entries, the script search path and the
    override directories of a load order, and the state machine that starts
    each wave's scripts.
  - `lang`: per-language line tables and the dictionary that merges them.
  - `keyed`, `formlist`: rows stored under names, and the injection commands
    that modules apply to form lists.
  - `texture_build`: the texture build cache and the `toktx` command line.
  - `material`, `input`, `grid`, `assets`, `collections`, `scripts`,
    `skeleton`, `text`: smaller pieces (random atlas cells and quarter turns,
    camera toggling, grid shapes and cell lookup, asset file names,
    singletons, script instance ids, queued and room-reveal hook calls, bone
    entities, suffixes, name order and placeholder filling).
- `tests/` — tests of the library on concrete values.
- `app/` — the texture build tool, and the file reading and writing around
  the mod list, with serde copies of the library's types.
