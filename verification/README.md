# rit

A small version control system. Files of a workspace are recorded as
commits of content-addressed objects (blobs, trees, commits) stored as JSON
text under the SHA-256 digest of that text; branches point at commits, and a
head says which branch or commit the workspace is on.

The library in `src/` is verified with Verus:

- `codec`, `oid`, `objects`, `head`: the JSON text of every object, written
  and read back exactly;
- `database`, `table`, `repository`: the object store, the branches and the
  head, kept in memory;
- `workspace`, `revision`, `dirtree`: the files of a workspace or a commit,
  how two revisions differ, and how files are stored as trees;
- `commands`: status, commit, checkout, branch and log, each stated over
  what the repository holds before and after;
- `graph`, `graph_old`: placing the commits of a history graph on a grid.

`app/` reads and writes the workspace and the `.rit` directory and runs the
commands of the library on what it read. `tests/` runs the library on
workspaces held in memory.
