# replayfs

A filesystem watcher that records every change to a directory and lets you replay
them later. Changes go to an append-only log of JSON lines, contents to a
content-addressed blob store; a replay rebuilds the directory as it was at any point.

The library under `src/` is verified with Verus. It decides; `app/` reads, writes,
watches and sleeps.

- `log`: the rows of the log, and the writer that numbers them
- `replay`: from the lines of a log to the state of the tree
- `materialize`, `output`: from the tree to files, at once or entry by entry
- `blobs`, `daemon::snapshot`: naming and keeping contents
- `daemon`, `daemon::watcher`: starting, stopping, and what an event records
- `packages`, `json`: version overrides in package manifests
- `progress`, `config`, `error`: what is shown, settings, errors
- `paths`, `text`, `text_map`: paths, texts and maps of texts
- `laws`: what holds of recording and replaying as a whole

What is taken on trust are the functions marked `external_body`, each of which calls
one function of the standard library or of another crate; their doc comments say
what is claimed of it.
