# ssher

The logic of a menu-bar app that keeps SSH port forwards up for the hosts of
`~/.ssh/config`, as a Verus-verified library, with the desktop side around it.

- `src/` (verified):
  - `text.rs`: character-level helpers (Unicode whitespace, trims, words, decimal numbers).
  - `glob.rs`: `Host` pattern matching with `*` and `?`.
  - `ssh_config.rs`: the `~/.ssh/config` reader (merge of matching blocks, first
    value wins), alias lookup, and the block appended for a new host.
  - `forward.rs`: the table of running forwards (start, stop, list, save).
  - `supervisor.rs`: the reconnecting supervisor of one forward, as a state
    machine that decides and leaves spawning, probing and sleeping to its runner.
  - `sftp.rs`: directory listings, connection parameters, agent status.
  - `sync.rs`: rsync arguments and the reading of `rsync -i` output.
- `app/`: Tauri commands, files, processes, threads and the network.
- `tests/`: tests of the library.
