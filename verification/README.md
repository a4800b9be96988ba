# soulbeet_library

The library tab of a self-hosted music stack (beets for tagging, Navidrome
for streaming), with its logic verified by Verus.

- `src/` — the verified library:
  - `text`, `order`: lexicographic order of texts, sort keys, a stable sort;
  - `tally`: grouping rows by key (count, first row, newest value);
  - `paths`, `filenames`: track paths, album directories, names of moved files;
  - `library`: albums gathered from the tracks beets knows;
  - `consolidate`: which directory keeps a split album, which ones move into it;
  - `beets`: settings, SQL statements and their parameters, the import-history cleanup script;
  - `view`: the library page's order, grouping by artist, and state.
- `app/` — the I/O around it: the beets database (rusqlite), files and
  processes (tokio), the media-server scan, and the Dioxus page.
- `tests/` — tests of the library on concrete values.
