# playthrough_hinter

Gives hints for an [Archipelago](https://archipelago.gg) multiworld: it reads
the spoiler log of a seed, asks the server which locations each slot has
already checked, and names a location of the earliest sphere of the
playthrough whose item has neither been collected nor hinted yet. The hints
given so far are kept in a small text file, one `location;item;sender;receiver`
line each.

Layout:

- `src/` is the library, verified with Verus:
  - `types.rs`: slots, locations, playthrough entries and checks, with their
    equalities;
  - `text.rs`: characters, whitespace and runs of characters;
  - `parser.rs`: the grammar of the spoiler log (slot lines, objects,
    playthrough lines, spheres, the playthrough, the seed), each part given
    as a spec function and as an executable parser proved to compute it;
  - `parser_laws.rs`: what well-formed lines read as, and which text around
    the playthrough is not read;
  - `hint_generator.rs`: choosing a hint, and the format of the hint file,
    with the proof that the file reads back what was written to it.
- `app/` is the command-line program: arguments, files and the connection to
  the Archipelago server.
- `tests/` runs the library on concrete inputs.
