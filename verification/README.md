# nexus_mod_manager

A mod manager for Cyberpunk 2077 mods from Nexus Mods. The library under
`src/` is written in Verus: the decisions the manager takes are stated in
contracts and proved. What outside code does on disk and on the network
(unpacking archives, moving files, SQL, HTTP) is run by `app/`, which asks the
library before it acts, and checks unpacked files again afterwards.

- `api` — `nxm://` links, request paths, query encoding, rate-limit headers,
  retry decisions, mods built from API answers.
- `config` — where the XDG directories and the configuration file are, the
  API key check, and the path validation steps.
- `db` — install status texts, manifest rows, SQL placeholders, the backups an
  uninstall restores.
- `dependency` — transitive requirements over a snapshot of the database,
  missing requirements, circular requirement detection, load order; with the
  proof that mods passing the circular check can always be ordered.
- `load_order` — Kahn's algorithm over requirement graphs.
- `engine` — download and extraction targets, archive formats, Zip Slip
  checks of entry names before unpacking and of files after, deployment plans
  made for every file before any moves, backups, cache cleanup, SHA-256.
- `paths` — Unix path joining, components, file names, containment.
- `views` — load order editing and the texts the views show.
- `text`, `logging`, `errors` — numbers, whitespace, key redaction, errors.

`app/` is the program around it: configuration and database I/O, the HTTP
client, archive readers, file moves and logging. The tests are under `tests/`.
