# yazi_favorites

Favorites for a terminal file manager, verified with Verus.

The favorites are a set of paths kept in the order in which they were added
(an `indexmap::IndexSet`) and walked in path order: the arrow forward goes to
the next favorite, wrapping round, the arrow backward to the previous one. A
favorite cycle remembers where a walk stands, so that it goes on from the
same neighbours after the favorites change, after files are renamed or
deleted, and after the view moves to the same report in another quarter.

- `src/` — the library, every function with its contract:
  - `url`, `normal` — the path order, the path operations, and the normal
    form in which paths are kept and compared (repeated and trailing
    separators and `.` components dropped, as `Path` compares them);
  - `favorites`, `cycle`, `files_op` — the favorites, the walk, file changes;
  - `favorite`, `favorite_arrow`, `quarter` — what the actions decide;
  - `favorites_io`, `config`, `image` — the favorites file, settings, and the
    previewer's choices;
  - `laws` — what holds across calls: arrow round trips, idempotence of
    `set_many`, toggling twice, where a walk goes after a change.
- `app/` — files, settings parsing, the image pixel work in floating point,
  and the loops of the actions around the library.
- `tests/` — tests on concrete values.
