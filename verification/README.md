# notes_core

The verified core of a notes web service. Notes live in a tree of folders
and are addressed by a path: the slugs of their folders, top folder first,
then the note's own slug.

- `src/` (Verus): splitting a request path, climbing the folder tree from a
  candidate note and matching it against the requested folders (with the
  proof that a climb still unfinished after as many steps as there are
  folders never ends), picking the single note found, and preparing the rows
  of new notes, blocks and folders.
- `app/`: the Postgres repositories, the note service that runs the
  queries around the library's decisions, and the axum handlers.
- `tests/`: tests of the library on concrete values.
