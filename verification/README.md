# termalm

The verified core of TeRmalM, a desktop manager of terminal command tasks
that runs commands locally or over SSH, keeps them running in the
background and shows their output.

`src/` is the library, verified with Verus:

- `ssh_config` reads the host aliases of an OpenSSH client configuration;
- `tasks` checks tasks and user action log entries and builds the records
  that are stored;
- `commands` builds the commands that start task processes, terminal
  sessions and the system password prompt;
- `output` keeps captured output within its byte bound;
- `registry` holds processes, sessions and finished logs by id; its
  `Supervisor` carries what starting, checking, stopping and reading the log
  of a task process do;
- `autostart` plans the launch agent, the enabled systemd user unit or the
  scheduled task that starts a task with the system;
- `clock` reads the time and makes fresh identifiers;
- `text` and `order` hold the character and byte-order helpers.

`app/` is the Tauri application around it: the commands the user interface
calls, the SQLite store, child processes, pseudo-terminals and files.
`tests/` runs the library on concrete inputs.
