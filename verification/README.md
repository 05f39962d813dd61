# whatport

Finds, and optionally kills, whatever process is listening on a TCP port, by
reading `/proc/net/tcp` and `/proc/net/tcp6` and following the links under
`/proc/*/fd` to the owning processes.

```bash
whatport 8080                # who's listening on 8080
whatport 8080 --json         # machine-readable
whatport 8080 --kill         # SIGTERM the owning process, confirm it's dead
whatport 8080 --kill --force # SIGKILL instead
```

The exit code is `0` if a listener was found and, with `--kill`, every signaled
process is gone; it is `1` if nothing is listening on the port, or if `--kill`
could not confirm that every target died.

## Layout

- `src/` is the library. It does no input or output, and Verus proves its
  contracts.
  - `text`: lines, columns and numbers as sequences of characters.
  - `proctcp`: the socket tables.
  - `proctree`: what there is to read under `/proc`, as requests and answers.
  - `procinfo`, `inode_search`: from a socket's inode to the processes that
    hold it open.
  - `port_search`: everything that listens on one port.
  - `signal`: sending a signal and seeing whether the process is gone.
  - `report`: what to tell the user, whom to stop, and how to exit.
- `app/` is the program around it: it reads `/proc`, sends signals and prints.
- `tests/` runs the library on recorded trees.

What listens on a port is `port_search::port_outcome`. These laws say what comes
of it:

- `report::law_stops_exactly_the_listeners`: a process is picked to be stopped
  exactly if it holds a socket listening on the port.
- `report::law_signals_only_listeners`: every signal goes to such a process, by
  `signal::law_signals_only_the_process` never to a process group.
- `signal::law_outcome_has_its_reason`: a process is called dead only if it was
  signaled, looked for and not found.
- `signal::law_attempt_ends`: stopping a process comes to an end.
