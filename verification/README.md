# toricelli

Programmable attention for your notes: notes imported from an org-roam
database are kept in a store of their own, scored, and shown as feeds
ordered by score or by recency.

The library (`src/`) is verified with Verus:

- `types`: note identifiers, notes, the note store with its dirty tracking,
  and feeds (ordering and paging).
- `graph`: the weighted link graph, a sparse adjacency matrix kept by `sprs`.
- `score`: backlink counts.
- `org_roam_db`: org-roam's property lists (read with `lexpr`), its
  timestamps (read with `chrono`), and its node and link rows.
- `org_file`, `props`, `round_trip`: the file-level property drawer of an
  org file (found with `orgize`), its parsing and writing, and the law that
  reading a written drawer gives the table back.
- `config`, `text`: settings and the text helpers the rest needs.

`app/` is the command-line program: argument parsing, the SQLite databases,
files on disk, and the floating-point scores (standalone retrievability and
pagerank).
