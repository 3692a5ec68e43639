# event_port_watcher

A file watcher for illumos event ports. The library under `src/` holds its logic and is verified
with Verus; `app/` runs it on a real port and file system.

- `path` says what a path is made of, and when one lies below another; `cookie` gives the number
  under which the kernel hands a watched path back.
- `watchers` is the table of watched paths.
- `walk` watches a path and everything below it, `rescan` brings the table up to date with a
  directory, and `event_loop` takes the port's events. Each is a state machine: `action` says what
  is to be done next, `step` takes what came of it. `port` holds the actions and the replies.
- `file_data` is the buffer of events between two synchronisations, `shared_data` the buffer with
  the error that may take its place, `event` what they hold and report, and `temporary` says which
  file names do not count.
- `rescan_run` says what a rescan does from its beginning to its end.
